use crate::text::{chars_of, parse_usize, parsed_usize};
use std::str::FromStr;
use vstd::prelude::*;

verus! {

/// A measured value, marked untrustworthy when the record flags it with a
/// star.
#[derive(Debug, Clone, Copy, PartialEq, Eq)]
pub enum AsteriskBound<T> {
    Clear(T),
    Untrustworthy(T),
}

/// The value, whatever its mark.
pub open spec fn bound_value<T>(b: AsteriskBound<T>) -> T {
    match b {
        AsteriskBound::Clear(v) => v,
        AsteriskBound::Untrustworthy(v) => v,
    }
}

impl<T> AsteriskBound<T> {
    /// The value, whatever its mark.
    pub fn val(&self) -> (r: &T)
        ensures
            *r == bound_value(*self),
    {
        match self {
            AsteriskBound::Clear(v) => v,
            AsteriskBound::Untrustworthy(v) => v,
        }
    }
}

/// `s` without the stars at its end.
pub open spec fn without_trailing_stars(s: Seq<char>) -> Seq<char>
    decreases s.len(),
{
    if s.len() > 0 && s.last() == '*' {
        without_trailing_stars(s.drop_last())
    } else {
        s
    }
}

/// The bound that an entry writes: a number below 256 followed by any
/// stars, untrustworthy if a star occurs anywhere in the entry.
pub open spec fn entry_bound(s: Seq<char>) -> Option<AsteriskBound<u8>> {
    match parsed_usize(without_trailing_stars(s)) {
        Some(v) => if v <= 255 {
            if s.contains('*') {
                Some(AsteriskBound::Untrustworthy(v as u8))
            } else {
                Some(AsteriskBound::Clear(v as u8))
            }
        } else {
            None
        },
        None => None,
    }
}

impl AsteriskBound<u8> {
    /// Reads an entry such as `"86"` or `"32*"`.
    pub fn from_entry(entry: &str) -> (r: Option<AsteriskBound<u8>>)
        ensures
            r == entry_bound(entry@),
    {
        let text = chars_of(entry);
        let mut end: usize = text.len();
        assert(text@.subrange(0, text@.len() as int) =~= text@);
        while end > 0 && text[end - 1] == '*'
            invariant
                0 <= end <= text@.len(),
                without_trailing_stars(text@) == without_trailing_stars(text@.subrange(0, end as int)),
            decreases end,
        {
            proof {
                assert(text@.subrange(0, end as int).drop_last() =~= text@.subrange(0, end - 1));
            }
            end -= 1;
        }
        proof {
            let kept = text@.subrange(0, end as int);
            if end > 0 {
                assert(kept.last() == text@[end - 1]);
            }
            assert(without_trailing_stars(kept) == kept);
        }
        let value = match parse_usize(&text, 0, end) {
            Some(v) => v,
            None => {
                return None;
            },
        };
        if value > 255 {
            return None;
        }
        let mut starred = false;
        let mut i: usize = 0;
        while i < text.len()
            invariant
                0 <= i <= text@.len(),
                starred == text@.subrange(0, i as int).contains('*'),
            decreases text@.len() - i,
        {
            proof {
                let next = text@.subrange(0, i + 1);
                let before = text@.subrange(0, i as int);
                if text@[i as int] == '*' {
                    assert(next[i as int] == '*');
                } else if next.contains('*') {
                    let m = choose|m: int| 0 <= m < next.len() && next[m] == '*';
                    assert(before[m] == '*');
                } else if before.contains('*') {
                    let m = choose|m: int| 0 <= m < before.len() && before[m] == '*';
                    assert(next[m] == '*');
                }
            }
            if text[i] == '*' {
                starred = true;
            }
            i += 1;
        }
        proof {
            assert(text@.subrange(0, text@.len() as int) =~= text@);
        }
        if starred {
            Some(AsteriskBound::Untrustworthy(value as u8))
        } else {
            Some(AsteriskBound::Clear(value as u8))
        }
    }
}

impl FromStr for AsteriskBound<u8> {
    type Err = &'static str;

    fn from_str(entry: &str) -> Result<AsteriskBound<u8>, &'static str> {
        match AsteriskBound::from_entry(entry) {
            Some(bound) => Ok(bound),
            None => Err("Could not parse value!"),
        }
    }
}

} // verus!
