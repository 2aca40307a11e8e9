use word_chains::tag_rules::{
    Purchase, TagCollection, ACTIVATE_MEMBERSHIP, ADD_FIRST_AID_VIDEO, APPLY_UPGRADE, DUPLICATE_SLIP, EMAIL_OWNER,
    GENERATE_COMMISION, GENERATE_SLIP,
};

fn tags(values: &[&str]) -> TagCollection {
    TagCollection::from_tags(values)
}

#[test]
fn book() {
    let expectation = vec![GENERATE_SLIP, DUPLICATE_SLIP, GENERATE_COMMISION];
    let purchase = Purchase { title: "1984".into(), identifiers: tags(&["physical", "book"]) };
    assert_eq!(expectation, purchase.get_processing_steps())
}

#[test]
fn ski_mp4() {
    let expectation = vec![ADD_FIRST_AID_VIDEO];
    let purchase = Purchase { title: "Learning to Ski".into(), identifiers: tags(&["video"]) };
    assert_eq!(expectation, purchase.get_processing_steps())
}

#[test]
fn gym_membership() {
    let expectation = vec![ACTIVATE_MEMBERSHIP, EMAIL_OWNER];
    let purchase = Purchase {
        title: "Fitness World 3 month discount trial".into(),
        identifiers: tags(&["membership"]),
    };
    assert_eq!(expectation, purchase.get_processing_steps())
}

#[test]
fn membership_upgrade_is_applied_and_reported() {
    let purchase = Purchase { title: "Gold".into(), identifiers: tags(&["membership_upgrade"]) };
    assert_eq!(vec![APPLY_UPGRADE, EMAIL_OWNER], purchase.get_processing_steps());
}

#[test]
fn other_videos_get_no_first_aid_video() {
    let purchase = Purchase { title: "learning to ski".into(), identifiers: tags(&["video"]) };
    assert!(purchase.get_processing_steps().is_empty());
}

#[test]
fn tag_queries() {
    let purchase = Purchase { title: "1984".into(), identifiers: tags(&["physical", "book"]) };
    assert!(purchase.has_tag("book"));
    assert!(!purchase.has_tag("video"));
    assert!(purchase.has_any_tags(&["video", "book"]));
    assert!(!purchase.has_any_tags(&["video"]));
    assert!(!purchase.has_any_tags(&[]));
    assert!(purchase.has_all_tags(&["book", "physical"]));
    assert!(!purchase.has_all_tags(&["book", "video"]));
    assert!(purchase.has_all_tags(&[]));
    assert_eq!(purchase.get_all_tags(), vec!["book", "physical"]);
}

#[test]
fn tags_are_kept_sorted_and_once() {
    let mut tags = TagCollection::from_tags(&["video", "book", "physical", "book"]);
    assert!(tags.insert("audio".to_string()));
    assert!(!tags.insert("video".to_string()));
    let purchase = Purchase { title: "Mixed".into(), identifiers: tags };
    assert_eq!(purchase.get_all_tags(), vec!["audio", "book", "physical", "video"]);
    assert!(TagCollection::new().insert("x".to_string()));
}
