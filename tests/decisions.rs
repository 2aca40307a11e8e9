use word_chains::decisions::{
    interpret_upper_reply, interpret_yes_no, yes_no_from_lowercase, Answer, Choice, Decision, Reply,
};
use word_chains::storage::{ApplicationData, PathFindable};
use word_chains::text::{chars_of, contains_infix};

fn chars(s: &str) -> Vec<char> {
    s.chars().collect()
}

fn decision() -> Decision<u8> {
    let mut d: Decision<u8> = Decision::default();
    d.possible_choices.push(Choice { answer: Answer { key: "a", choice_text: "Add" }, value: 1 });
    d.possible_choices.push(Choice { answer: Answer { key: "M", choice_text: "Modify" }, value: 2 });
    d
}

#[test]
fn fixed_answers() {
    let cancel = Answer::cancel_answer();
    assert_eq!((cancel.key, cancel.choice_text), ("C", "Cancel, go back"));
    let exit = Answer::exit_answer();
    assert_eq!((exit.key, exit.choice_text), ("E", "Exit"));
}

#[test]
fn default_decision() {
    let d: Decision<u8> = Decision::default();
    assert_eq!(d.prompt, "What do you want to do?");
    assert!(d.possible_choices.is_empty());
    assert_eq!(d.cancel_answer.key, "C");
}

#[test]
fn replies_pick_the_first_matching_choice() {
    let d = decision();
    assert_eq!(d.interpret_reply("a"), Reply::Chosen(0));
    assert_eq!(d.interpret_reply("m"), Reply::Chosen(1));
    assert_eq!(d.interpret_reply(" am "), Reply::Chosen(0));
    assert_eq!(d.interpret_reply("c"), Reply::Cancelled);
    assert_eq!(d.interpret_reply("x"), Reply::Unrecognised);
    assert_eq!(d.interpret_reply(""), Reply::Unrecognised);
}

#[test]
fn uppercased_replies_against_keys() {
    let keys = vec![chars("YES"), chars("NO")];
    assert_eq!(interpret_upper_reply(&chars("SURE, YES"), &keys, &chars("C")), Reply::Chosen(0));
    assert_eq!(interpret_upper_reply(&chars("NOPE"), &keys, &chars("C")), Reply::Chosen(1));
    assert_eq!(interpret_upper_reply(&chars("CANCEL"), &keys, &chars("C")), Reply::Cancelled);
    assert_eq!(interpret_upper_reply(&chars("MAYBE"), &keys, &chars("C")), Reply::Unrecognised);
}

#[test]
fn infix_search() {
    assert!(contains_infix(&chars("abcde"), &chars("cd")));
    assert!(contains_infix(&chars("abcde"), &chars("")));
    assert!(contains_infix(&chars("abc"), &chars("abc")));
    assert!(!contains_infix(&chars("abc"), &chars("abcd")));
    assert!(!contains_infix(&chars("abcde"), &chars("ce")));
    assert_eq!(chars_of("h\u{e9}llo"), vec!['h', '\u{e9}', 'l', 'l', 'o']);
}

#[test]
fn storage_paths() {
    let data = ApplicationData::from_src_path("data/");
    assert_eq!(data.purchase_path, "data/all_purchases.json");
    assert_eq!(data.rule_path, "data/all_rules.json");
    assert_eq!(<word_chains::business_rules::Purchase as PathFindable>::get_path(&data), "data/all_purchases.json");
    assert_eq!(<word_chains::business_rules::Rule as PathFindable>::get_path(&data), "data/all_rules.json");
}

#[test]
fn yes_or_no_replies() {
    assert_eq!(interpret_yes_no("Yes"), Some(true));
    assert_eq!(interpret_yes_no("NO"), Some(false));
    assert_eq!(interpret_yes_no("nay"), Some(true));
    assert_eq!(interpret_yes_no("maybe"), Some(true));
    assert_eq!(interpret_yes_no("ok"), None);
    assert_eq!(interpret_yes_no(""), None);
    assert_eq!(yes_no_from_lowercase(&chars("nope")), Some(false));
}

#[test]
fn trimming_and_lines_agree_with_std() {
    use_text_helpers();
}

fn use_text_helpers() {
    for s in ["", "  a b \t\n", "\u{3000}x\u{85}", "\u{a0}", "no space"] {
        assert_eq!(word_chains::text::trim(s), s.trim());
    }
    for s in ["", "\n", "a\r\nb\r", "a\n\n", "a\rb\nc", "one", "x\r\n"] {
        let expected: Vec<String> = s.lines().map(|l| l.to_string()).collect();
        assert_eq!(word_chains::text::split_lines(s), expected);
    }
    assert_eq!(word_chains::text::split_lines("a\r\nb\r"), vec!["a".to_string(), "b\r".to_string()]);
}
