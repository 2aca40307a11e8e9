use word_chains::measurements::AsteriskBound;

#[test]
fn entries_with_and_without_stars() {
    assert_eq!("86".parse::<AsteriskBound<u8>>(), Ok(AsteriskBound::Clear(86)));
    assert_eq!("32*".parse::<AsteriskBound<u8>>(), Ok(AsteriskBound::Untrustworthy(32)));
    assert_eq!("97**".parse::<AsteriskBound<u8>>(), Ok(AsteriskBound::Untrustworthy(97)));
    assert_eq!("255".parse::<AsteriskBound<u8>>(), Ok(AsteriskBound::Clear(255)));
    assert_eq!("256".parse::<AsteriskBound<u8>>(), Err("Could not parse value!"));
    assert_eq!("*".parse::<AsteriskBound<u8>>(), Err("Could not parse value!"));
    assert_eq!("3*2".parse::<AsteriskBound<u8>>(), Err("Could not parse value!"));
    assert_eq!(" 7".parse::<AsteriskBound<u8>>(), Err("Could not parse value!"));
    assert_eq!(AsteriskBound::from_entry("+5*"), Some(AsteriskBound::Untrustworthy(5)));
}

#[test]
fn value_regardless_of_mark() {
    assert_eq!(*AsteriskBound::Clear(4u8).val(), 4);
    assert_eq!(*AsteriskBound::Untrustworthy(9u8).val(), 9);
    let spread = u8::abs_diff(*AsteriskBound::Clear(88u8).val(), *AsteriskBound::Untrustworthy(59u8).val());
    assert_eq!(spread, 29);
}
