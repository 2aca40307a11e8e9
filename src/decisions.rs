use crate::text::{chars_of, contains_char, contains_infix, has_infix, lower_of, lowercase, upper_of, uppercase};
use vstd::prelude::*;

verus! {

/// An answer the user can give: the key to type and what it stands for.
pub struct Answer {
    pub key: &'static str,
    pub choice_text: &'static str,
}

impl Answer {
    /// The answer that cancels a prompt.
    pub fn cancel_answer() -> (r: Answer)
        ensures
            r.key@ == "C"@,
            r.choice_text@ == "Cancel, go back"@,
    {
        Answer { key: "C", choice_text: "Cancel, go back" }
    }

    /// The answer that leaves the program.
    pub fn exit_answer() -> (r: Answer)
        ensures
            r.key@ == "E"@,
            r.choice_text@ == "Exit"@,
    {
        Answer { key: "E", choice_text: "Exit" }
    }
}

/// An answer together with the value that choosing it yields.
pub struct Choice<F> {
    pub answer: Answer,
    pub value: F,
}

/// A prompt with its choices and the answer that cancels it.
pub struct Decision<F> {
    pub prompt: String,
    pub possible_choices: Vec<Choice<F>>,
    pub cancel_answer: Answer,
}

impl<F> Default for Decision<F> {
    fn default() -> (r: Self)
        ensures
            r.prompt@ == "What do you want to do?"@,
            r.possible_choices@.len() == 0,
            r.cancel_answer.key@ == "C"@,
            r.cancel_answer.choice_text@ == "Cancel, go back"@,
    {
        Decision {
            prompt: "What do you want to do?".to_owned(),
            possible_choices: Vec::new(),
            cancel_answer: Answer::cancel_answer(),
        }
    }
}

/// What a reply to a prompt amounts to.
#[derive(Debug, Clone, Copy, PartialEq, Eq)]
pub enum Reply {
    /// The choice at this position was picked.
    Chosen(usize),
    /// The prompt was cancelled.
    Cancelled,
    /// The reply names no choice; the prompt should be asked again.
    Unrecognised,
}

/// The outcome of `reply` against the keys from position `i` on: the first
/// key that occurs in the reply is picked; failing that, the cancel key
/// cancels.
pub open spec fn reply_from(reply: Seq<char>, keys: Seq<Seq<char>>, cancel_key: Seq<char>, i: int) -> Reply
    decreases keys.len() - i,
{
    if i < 0 || i >= keys.len() {
        if has_infix(reply, cancel_key) {
            Reply::Cancelled
        } else {
            Reply::Unrecognised
        }
    } else if has_infix(reply, keys[i]) {
        Reply::Chosen(i as usize)
    } else {
        reply_from(reply, keys, cancel_key, i + 1)
    }
}

/// The outcome of an uppercased reply against uppercased choice keys and the
/// cancel key.
pub fn interpret_upper_reply(upper_reply: &Vec<char>, upper_keys: &Vec<Vec<char>>, cancel_key: &Vec<char>) -> (r:
    Reply)
    ensures
        r == reply_from(upper_reply@, upper_keys@.map_values(|k: Vec<char>| k@), cancel_key@, 0),
{
    let ghost keys = upper_keys@.map_values(|k: Vec<char>| k@);
    let mut i: usize = 0;
    while i < upper_keys.len()
        invariant
            keys == upper_keys@.map_values(|k: Vec<char>| k@),
            0 <= i <= upper_keys@.len(),
            reply_from(upper_reply@, keys, cancel_key@, 0) == reply_from(upper_reply@, keys, cancel_key@, i as int),
        decreases upper_keys@.len() - i,
    {
        if contains_infix(upper_reply, &upper_keys[i]) {
            return Reply::Chosen(i);
        }
        i += 1;
    }
    if contains_infix(upper_reply, cancel_key) {
        Reply::Cancelled
    } else {
        Reply::Unrecognised
    }
}

/// The uppercased keys of a decision's choices.
pub open spec fn upper_keys_of<F>(choices: Seq<Choice<F>>) -> Seq<Seq<char>> {
    choices.map_values(|c: Choice<F>| upper_of(c.answer.key@))
}

impl<F> Decision<F> {
    /// What `reply` amounts to: the first choice whose key occurs in it,
    /// ignoring case; else a cancel if the cancel key occurs in the
    /// uppercased reply; else nothing recognised.
    pub fn interpret_reply(&self, reply: &str) -> (r: Reply)
        ensures
            r == reply_from(
                upper_of(reply@),
                upper_keys_of(self.possible_choices@),
                self.cancel_answer.key@,
                0,
            ),
    {
        let upper_reply = uppercase(reply);
        let reply_chars = chars_of(upper_reply.as_str());
        let mut keys: Vec<Vec<char>> = Vec::new();
        let mut i: usize = 0;
        while i < self.possible_choices.len()
            invariant
                0 <= i <= self.possible_choices@.len(),
                keys@.map_values(|k: Vec<char>| k@) == upper_keys_of(self.possible_choices@).subrange(0, i as int),
            decreases self.possible_choices@.len() - i,
        {
            let key = uppercase(self.possible_choices[i].answer.key);
            let key_chars = chars_of(key.as_str());
            proof {
                assert(keys@.push(key_chars).map_values(|k: Vec<char>| k@) =~= keys@.map_values(
                    |k: Vec<char>| k@,
                ).push(key_chars@));
            }
            keys.push(key_chars);
            i += 1;
            assert(keys@.map_values(|k: Vec<char>| k@) =~= upper_keys_of(self.possible_choices@).subrange(
                0,
                i as int,
            ));
        }
        assert(upper_keys_of(self.possible_choices@).subrange(0, self.possible_choices@.len() as int)
            =~= upper_keys_of(self.possible_choices@));
        let cancel_chars = chars_of(self.cancel_answer.key);
        interpret_upper_reply(&reply_chars, &keys, &cancel_chars)
    }
}

/// What a lowercased reply to a yes-or-no question says: yes if it holds a
/// `y`, else no if it holds an `n`, else nothing.
pub open spec fn yes_no_answer(lower_reply: Seq<char>) -> Option<bool> {
    if lower_reply.contains('y') {
        Some(true)
    } else if lower_reply.contains('n') {
        Some(false)
    } else {
        None
    }
}

/// What a lowercased reply to a yes-or-no question says.
pub fn yes_no_from_lowercase(lower_reply: &Vec<char>) -> (r: Option<bool>)
    ensures
        r == yes_no_answer(lower_reply@),
{
    if contains_char(lower_reply, 'y') {
        Some(true)
    } else if contains_char(lower_reply, 'n') {
        Some(false)
    } else {
        None
    }
}

/// What a reply to a yes-or-no question says, ignoring case; nothing means
/// the question should be asked again.
pub fn interpret_yes_no(reply: &str) -> (r: Option<bool>)
    ensures
        r == yes_no_answer(lower_of(reply@)),
{
    let lower = lowercase(reply);
    yes_no_from_lowercase(&chars_of(lower.as_str()))
}

} // verus!
