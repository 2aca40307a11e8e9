use word_chains::word_ladder::{display_path, find_shortest_path, shortest_word_chains_recursive, Dictionary};

fn word(s: &str) -> Vec<char> {
    s.chars().collect()
}

fn dictionary(words: &str) -> Dictionary {
    Dictionary::new(words.split_whitespace().map(word).collect())
}

fn path(words: &str) -> Vec<Vec<char>> {
    words.split_whitespace().map(word).collect()
}

fn one_step_apart(a: &[char], b: &[char]) -> bool {
    a.len() == b.len() && a.iter().zip(b).filter(|(x, y)| x != y).count() == 1
}

#[test]
fn can_turn_cat_into_dog_simple_way() {
    let all_words = dictionary("cat cot cog dog");
    let known_path = path("cat cot cog dog");
    let cat = known_path.first().unwrap();
    let dog = known_path.last().unwrap();
    let found = shortest_word_chains_recursive(&vec![], &None, cat, dog, &all_words).unwrap();
    assert_eq!(found.len(), known_path.len());
}

#[test]
fn can_turn_lead_into_gold_within_four_steps() {
    const SHORT_PATH_LEN: usize = 4;
    let all_words = dictionary("lead load goad gold head held hold bold");
    let lead = word("lead");
    let gold = word("gold");
    let found = shortest_word_chains_recursive(&vec![], &None, &lead, &gold, &all_words).unwrap();
    assert!(found.len() <= SHORT_PATH_LEN);
}

#[test]
fn can_turn_ruby_into_code_within_six_steps() {
    const SHORT_PATH_LEN: usize = 6;
    let all_words = dictionary("ruby rube robe rode code rubs robs rods");
    let lead = word("ruby");
    let gold = word("code");
    let found = shortest_word_chains_recursive(&vec![], &None, &lead, &gold, &all_words).unwrap();
    assert!(found.len() <= SHORT_PATH_LEN);
}

#[test]
fn cat_into_dog_follows_the_target_letters() {
    let all_words = dictionary("cat cot cog dog");
    let found = find_shortest_path(&word("cat"), &word("dog"), &all_words).unwrap();
    assert_eq!(found, path("cat cot cog dog"));
}

#[test]
fn the_first_ladder_found_is_returned() {
    let all_words = dictionary("cat cot cog dog bat hat hot dot");
    let found = find_shortest_path(&word("cat"), &word("dog"), &all_words).unwrap();
    assert_eq!(found, path("cat cot dot dog"));
    let all_words = dictionary("ruby rube robe rode code rubs robs rods");
    let found = find_shortest_path(&word("ruby"), &word("code"), &all_words).unwrap();
    assert_eq!(found, path("ruby rube robe rode code"));
}

#[test]
fn lead_into_gold_follows_the_target_letters() {
    let all_words = dictionary("lead load goad gold");
    let found = find_shortest_path(&word("lead"), &word("gold"), &all_words).unwrap();
    assert_eq!(found, path("lead load goad gold"));
}

#[test]
fn a_ladder_may_need_other_letters_first() {
    let all_words = dictionary("ruby tuby tubs cubs cobs cods code");
    let found = find_shortest_path(&word("ruby"), &word("code"), &all_words).unwrap();
    assert_eq!(found, path("ruby tuby tubs cubs cobs cods code"));
}

#[test]
fn a_word_is_its_own_ladder() {
    let all_words = dictionary("cat cot");
    for w in ["cat", "dog", "zzz", ""] {
        let found = find_shortest_path(&word(w), &word(w), &all_words);
        assert_eq!(found, Some(vec![word(w)]));
    }
}

#[test]
fn returned_ladder_is_simple_and_changes_one_letter_per_step() {
    let all_words = dictionary("cat cot cog dog bat hat hot dot cut hut hug dug");
    let found = find_shortest_path(&word("cat"), &word("dug"), &all_words).unwrap();
    assert_eq!(found, path("cat cut hut hug dug"));
    assert_eq!(found.first().unwrap(), &word("cat"));
    assert_eq!(found.last().unwrap(), &word("dug"));
    for pair in found.windows(2) {
        assert!(one_step_apart(&pair[0], &pair[1]));
    }
    for (i, a) in found.iter().enumerate() {
        for b in &found[i + 1..] {
            assert_ne!(a, b);
        }
    }
    for w in &found[1..found.len() - 1] {
        assert!(all_words.contains(w));
    }
}

#[test]
fn target_outside_the_dictionary_may_end_a_ladder() {
    let all_words = dictionary("cot");
    let found = find_shortest_path(&word("cat"), &word("cog"), &all_words).unwrap();
    assert_eq!(found, path("cat cot cog"));
    assert!(!all_words.contains(&word("cog")));
}

#[test]
fn no_neighbour_in_the_dictionary_means_no_ladder() {
    let all_words = dictionary("dog dig abc");
    assert_eq!(find_shortest_path(&word("cat"), &word("dog"), &all_words), None);
    let empty = dictionary("");
    assert_eq!(find_shortest_path(&word("lead"), &word("gold"), &empty), None);
}

#[test]
fn a_single_step_needs_no_dictionary() {
    let empty = dictionary("");
    let found = find_shortest_path(&word("cat"), &word("cot"), &empty).unwrap();
    assert_eq!(found, path("cat cot"));
}

#[test]
fn repeated_searches_agree() {
    let all_words = dictionary("cat cot cog dog bat hat hot dot");
    let first = find_shortest_path(&word("cat"), &word("dog"), &all_words);
    let second = find_shortest_path(&word("cat"), &word("dog"), &all_words);
    assert_eq!(first.as_ref().map(|p| p.len()), second.as_ref().map(|p| p.len()));
    assert_eq!(first, second);
}

#[test]
fn a_known_best_length_prunes_longer_branches() {
    let all_words = dictionary("cat cot cog dog");
    let known = Some(path("cat cot cog dog"));
    let found = shortest_word_chains_recursive(&vec![], &known, &word("cat"), &word("dog"), &all_words);
    assert_eq!(found, None);
    let loose = Some(path("a b c d e"));
    let found = shortest_word_chains_recursive(&vec![], &loose, &word("cat"), &word("dog"), &all_words);
    assert_eq!(found, Some(path("cat cot cog dog")));
}

#[test]
fn depth_beyond_twice_the_word_length_is_abandoned() {
    let all_words = dictionary("ab bb");
    let deep = path("xx xy xz yz zz");
    let found = shortest_word_chains_recursive(&deep, &None, &word("ab"), &word("cd"), &all_words);
    assert_eq!(found, None);
    let shallow = path("xx");
    let found = shortest_word_chains_recursive(&shallow, &None, &word("ab"), &word("ad"), &all_words);
    assert_eq!(found, Some(path("xx ab ad")));
}

#[test]
fn dictionary_membership() {
    let all_words = dictionary("cat cot");
    assert!(all_words.contains(&word("cot")));
    assert!(!all_words.contains(&word("cog")));
    assert!(!all_words.contains(&word("co")));
}

#[test]
fn path_is_listed_one_word_per_line() {
    assert_eq!(display_path(&path("cat cot cog")), "[\n    cat,\n    cot,\n    cog\n]");
    assert_eq!(display_path(&path("cat")), "[\n    cat\n]");
    assert_eq!(display_path(&vec![]), "[\n    \n]");
}
