use word_chains::business_rules::{
    add_from_str, remove_from_str, Named,
    CombinationCondition, Identifier, IdentifierCollection, IdentifierCondition, Purchase, Rule,
    RuleTrigger,
};

const GENERATE_SLIP: &str = "generate a packing slip for shipping";
const DUPLICATE_SLIP: &str = "create a duplicate packing slip for the royalty department";
const ACTIVATE_MEMBERSHIP: &str = "activate that membership";
const APPLY_UPGRADE: &str = "apply the upgrade";
const EMAIL_OWNER: &str = "e-mail the owner and inform them of the activation/upgrade";
const FIRST_AID_VIDEO: &str =
    "add a free \u{201c}First Aid\u{201d} video to the packing slip (the result of a court decision in 1997)";
const GENERATE_COMMISION: &str = "generate a commission payment to the agent";

fn ids(values: &[&str]) -> IdentifierCollection {
    IdentifierCollection::from_names(values)
}

fn any_of(values: &[&str]) -> RuleTrigger {
    RuleTrigger::Identifier { identifiers: ids(values), condition: IdentifierCondition::Any }
}

fn rule(title: &str, action: &str, trigger: RuleTrigger) -> Rule {
    Rule { title: title.into(), process_action: action.into(), trigger }
}

fn rules_sample() -> Vec<Rule> {
    vec![
        rule("physical products generate slips", GENERATE_SLIP, any_of(&["physical"])),
        rule("royalty gets their duplicate slip", DUPLICATE_SLIP, any_of(&["book"])),
        rule("memberships get activated", ACTIVATE_MEMBERSHIP, any_of(&["membership"])),
        rule("membership upgrade get applied", APPLY_UPGRADE, any_of(&["membership upgrade"])),
        rule(
            "owner is informed of memberships and upgrades",
            EMAIL_OWNER,
            any_of(&["membership", "upgrade"]),
        ),
        rule(
            "Learning to Ski first aid video",
            FIRST_AID_VIDEO,
            RuleTrigger::Title { name: "Learning to Ski".into() },
        ),
        rule(
            "physical products or books generate commission payment",
            GENERATE_COMMISION,
            any_of(&["physical", "book"]),
        ),
    ]
}

fn purchase(title: &str, tags: &[&str]) -> Purchase {
    Purchase { title: title.into(), identifiers: ids(tags) }
}

#[test]
fn types_book_print() {
    let expectation: Vec<String> =
        vec![GENERATE_SLIP.into(), DUPLICATE_SLIP.into(), GENERATE_COMMISION.into()];
    let purchase = purchase("1984", &["physical", "book"]);
    let steps = purchase.get_processing_steps(&rules_sample());
    assert!(expectation.iter().all(|item| steps.contains(item)));
}

#[test]
fn types_ski_mp4_print() {
    let expectation: Vec<String> = vec![FIRST_AID_VIDEO.into()];
    let purchase = purchase("Learning to Ski", &["video"]);
    let steps = purchase.get_processing_steps(&rules_sample());
    assert!(expectation.iter().all(|item| steps.contains(item)));
}

#[test]
fn types_gym_membership_print() {
    let expectation: Vec<String> = vec![ACTIVATE_MEMBERSHIP.into(), EMAIL_OWNER.into()];
    let purchase = purchase("Fitness World 3 month discount trial", &["membership"]);
    let steps = purchase.get_processing_steps(&rules_sample());
    assert!(expectation.iter().all(|item| steps.contains(item)));
}

#[test]
fn steps_follow_the_order_of_the_rules() {
    let steps = purchase("1984", &["physical", "book"]).get_processing_steps(&rules_sample());
    assert_eq!(steps, vec![GENERATE_SLIP, DUPLICATE_SLIP, GENERATE_COMMISION]);
    let steps = purchase(" LEARNING to ski ", &["video"]).get_processing_steps(&rules_sample());
    assert_eq!(steps, vec![FIRST_AID_VIDEO]);
    let steps = purchase("Nothing", &[]).get_processing_steps(&rules_sample());
    assert!(steps.is_empty());
}

#[test]
fn titles_match_ignoring_case_and_surrounding_space() {
    let p = purchase("  Learning To SKI\t", &[]);
    assert!(p.title_matches("learning to ski"));
    assert!(!p.title_matches("learning to swim"));
    assert!(!p.title_matches("learningtoski"));
}

#[test]
fn identifier_queries() {
    let p = purchase("1984", &["physical", "book"]);
    assert!(p.has_identifier(&Identifier("book".into())));
    assert!(!p.has_identifier(&Identifier("Book".into())));
    let all: Vec<&str> = p.get_all_identifiers().iter().map(|i| i.0.as_str()).collect();
    assert_eq!(all, vec!["book", "physical"]);
}

#[test]
fn identifier_conditions() {
    let p = purchase("1984", &["physical", "book"]);
    let with = |condition, values: &[&str]| RuleTrigger::Identifier { identifiers: ids(values), condition };
    assert!(with(IdentifierCondition::Any, &["video", "book"]).triggered_by(&p));
    assert!(!with(IdentifierCondition::All, &["video", "book"]).triggered_by(&p));
    assert!(with(IdentifierCondition::All, &["physical", "book"]).triggered_by(&p));
    assert!(!with(IdentifierCondition::NoneOf, &["video", "book"]).triggered_by(&p));
    assert!(with(IdentifierCondition::NoneOf, &["video"]).triggered_by(&p));
    assert!(with(IdentifierCondition::All, &[]).triggered_by(&p));
    assert!(!with(IdentifierCondition::Any, &[]).triggered_by(&p));
}

#[test]
fn combined_and_negated_triggers() {
    let p = purchase("1984", &["book"]);
    let combine = |a, b, condition| RuleTrigger::Combination { a: Box::new(a), b: Box::new(b), condition };
    let yes = || RuleTrigger::Always;
    let no = || RuleTrigger::Never;
    assert!(combine(yes(), no(), CombinationCondition::Either).triggered_by(&p));
    assert!(!combine(yes(), no(), CombinationCondition::Both).triggered_by(&p));
    assert!(combine(yes(), no(), CombinationCondition::ExactlyOne).triggered_by(&p));
    assert!(!combine(yes(), yes(), CombinationCondition::ExactlyOne).triggered_by(&p));
    assert!(combine(no(), no(), CombinationCondition::Neither).triggered_by(&p));
    assert!(!combine(no(), any_of(&["book"]), CombinationCondition::Neither).triggered_by(&p));
    assert!(RuleTrigger::Not { flipped_rule: Box::new(no()) }.triggered_by(&p));
    assert!(!RuleTrigger::Not { flipped_rule: Box::new(any_of(&["book"])) }.triggered_by(&p));
}

fn names(c: &IdentifierCollection) -> Vec<&str> {
    c.identifiers().iter().map(|i| i.0.as_str()).collect()
}

#[test]
fn identifiers_added_from_a_semicolon_list() {
    let added = add_from_str(ids(&["book"]), " video ; book;;physical ;video");
    assert_eq!(names(&added), vec!["book", "physical", "video"]);
    let unchanged = add_from_str(ids(&["book"]), " ; ");
    assert_eq!(names(&unchanged), vec!["book"]);
}

#[test]
fn identifiers_removed_from_a_semicolon_list() {
    let left = remove_from_str(ids(&["book", "video", "physical"]), "video; physical ; dvd");
    assert_eq!(names(&left), vec!["book"]);
    let all = remove_from_str(ids(&["book"]), "");
    assert_eq!(names(&all), vec!["book"]);
}

#[test]
fn names_of_purchases_rules_and_identifiers() {
    assert_eq!(purchase("1984", &["book"]).name(), "1984");
    assert_eq!(rule("free video", FIRST_AID_VIDEO, RuleTrigger::Never).name(), "free video");
    assert_eq!(Identifier("book".into()).name(), "book");
}

#[test]
fn identifier_collections_stay_sorted() {
    let mut c = IdentifierCollection::from_names(&["zeta", "alpha", "Beta", "alpha"]);
    assert_eq!(names(&c), vec!["Beta", "alpha", "zeta"]);
    assert!(c.insert(Identifier("beta".into())));
    assert!(!c.insert(Identifier("zeta".into())));
    assert_eq!(names(&c), vec!["Beta", "alpha", "beta", "zeta"]);
    assert!(IdentifierCollection::new().identifiers().is_empty());
}
