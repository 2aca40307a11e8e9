use crate::text::string_of_chars;
use vstd::hash_set::StringHashSet;
use vstd::prelude::*;

verus! {

/// Two words of equal length that differ in exactly one character position.
pub open spec fn one_step_apart(a: Seq<char>, b: Seq<char>) -> bool {
    &&& a.len() == b.len()
    &&& exists|i: int| 0 <= i < a.len() && a[i] != b[i] && #[trigger] a.update(i, b[i]) == b
}

/// The lowercase letter with index `k` (0 is `'a'`, 25 is `'z'`).
pub open spec fn letter(k: int) -> char {
    ((97 + k) as u8) as char
}

/// A sequence of words in which each word is one step apart from the next.
pub open spec fn is_ladder(p: Seq<Seq<char>>) -> bool {
    forall|k: int| 0 <= k < p.len() - 1 ==> #[trigger] one_step_apart(p[k], p[k + 1])
}

/// The length of the best path known so far, if any.
pub open spec fn known_len(best: Option<Vec<Vec<char>>>) -> Option<nat> {
    match best {
        Some(p) => Some(p@.len()),
        None => None,
    }
}

/// The words held by a sequence of character vectors.
pub open spec fn words_of(v: Seq<Vec<char>>) -> Seq<Seq<char>> {
    v.map_values(|w: Vec<char>| w@)
}

/// `p` continues the walk `hist` through `cur` and ends at `t`: each step
/// from `cur` on changes one character, each word strictly between `cur` and
/// the end lies in `d`, and no word repeats where none did before.
pub open spec fn reaches_target(
    hist: Seq<Seq<char>>,
    cur: Seq<char>,
    t: Seq<char>,
    d: Set<Seq<char>>,
    p: Seq<Seq<char>>,
) -> bool {
    &&& p.len() > hist.len()
    &&& forall|j: int| 0 <= j < hist.len() ==> #[trigger] p[j] == hist[j]
    &&& p[hist.len() as int] == cur
    &&& p.last() == t
    &&& forall|k: int| hist.len() <= k < p.len() - 1 ==> #[trigger] one_step_apart(p[k], p[k + 1])
    &&& forall|k: int| hist.len() < k < p.len() - 1 ==> d.contains(#[trigger] p[k])
    &&& (hist.push(cur).no_duplicates() && !hist.contains(t)) ==> p.no_duplicates()
}

/// The words of a path, if there is one.
pub open spec fn path_view(r: Option<Vec<Vec<char>>>) -> Option<Seq<Seq<char>>> {
    match r {
        Some(p) => Some(words_of(p@)),
        None => None,
    }
}

/// The depth-first search from `cur`, reached along `hist`, towards `t`
/// through the words of `d`, pruned by the best known length `best`.
pub open spec fn ladder_search(
    hist: Seq<Seq<char>>,
    best: Option<nat>,
    cur: Seq<char>,
    t: Seq<char>,
    d: Set<Seq<char>>,
) -> Option<Seq<Seq<char>>>
    decreases 2 * t.len() + 2 - hist.len(), 3int, 0int, 0int,
{
    if cur == t {
        Some(hist.push(cur))
    } else if (best is Some && hist.len() + 1 >= best->0) || hist.len() > 2 * t.len() {
        None
    } else {
        direct_moves(hist, best, cur, t, d, 0)
    }
}

/// The moves that copy the target's character at positions `i..`, tried in
/// order; then the remaining moves. A ladder found is kept when it is
/// shorter than the best known one, if there is one.
pub open spec fn direct_moves(
    hist: Seq<Seq<char>>,
    best: Option<nat>,
    cur: Seq<char>,
    t: Seq<char>,
    d: Set<Seq<char>>,
    i: int,
) -> Option<Seq<Seq<char>>>
    decreases 2 * t.len() + 2 - hist.len(), 2int, t.len() - i, 0int,
{
    if hist.len() > 2 * t.len() {
        None
    } else if i >= t.len() {
        other_moves(hist, best, cur, t, d, 0, 0)
    } else {
        let chain = hist.push(cur);
        let w = cur.update(i, t[i]);
        if w == t {
            Some(chain.push(w))
        } else if chain.contains(w) || !d.contains(w) {
            direct_moves(hist, best, cur, t, d, i + 1)
        } else {
            match ladder_search(chain, best, w, t, d) {
                Some(p) => if best is None || p.len() < best->0 {
                    Some(p)
                } else {
                    direct_moves(hist, best, cur, t, d, i + 1)
                },
                None => direct_moves(hist, best, cur, t, d, i + 1),
            }
        }
    }
}

/// The moves that put letter `k..` at position `i`, then those at the later
/// positions, skipping the target's own character at each position.
pub open spec fn other_moves(
    hist: Seq<Seq<char>>,
    best: Option<nat>,
    cur: Seq<char>,
    t: Seq<char>,
    d: Set<Seq<char>>,
    i: int,
    k: int,
) -> Option<Seq<Seq<char>>>
    decreases 2 * t.len() + 2 - hist.len(), 1int, t.len() - i, 26 - k,
{
    if hist.len() > 2 * t.len() || i >= t.len() {
        None
    } else if k >= 26 {
        other_moves(hist, best, cur, t, d, i + 1, 0)
    } else {
        let chain = hist.push(cur);
        let w = cur.update(i, letter(k));
        if letter(k) == t[i] || chain.contains(w) || !d.contains(w) {
            other_moves(hist, best, cur, t, d, i, k + 1)
        } else {
            match ladder_search(chain, best, w, t, d) {
                Some(p) => if best is None || p.len() < best->0 {
                    Some(p)
                } else {
                    other_moves(hist, best, cur, t, d, i, k + 1)
                },
                None => other_moves(hist, best, cur, t, d, i, k + 1),
            }
        }
    }
}

/// A step the search can take towards `t`: one position of `a` changes, to
/// the target's character there or to a lowercase letter.
pub open spec fn search_move(a: Seq<char>, b: Seq<char>, t: Seq<char>) -> bool {
    exists|i: int|
        0 <= i < a.len() && a[i] != b[i] && #[trigger] a.update(i, b[i]) == b && (b[i] == t[i] || exists|
            k: int,
        | 0 <= k < 26 && b[i] == letter(k))
}

/// A ladder within the search's reach: from `s` to `t` in search moves,
/// no word twice, the words in between from `d`, and no more words than the
/// depth bound allows.
pub open spec fn is_search_ladder(p: Seq<Seq<char>>, s: Seq<char>, t: Seq<char>, d: Set<Seq<char>>) -> bool {
    &&& 1 <= p.len() <= 2 * t.len() + 2
    &&& p[0] == s
    &&& p.last() == t
    &&& p.no_duplicates()
    &&& forall|k: int| 0 <= k < p.len() - 1 ==> #[trigger] search_move(p[k], p[k + 1], t)
    &&& forall|k: int| 0 < k < p.len() - 1 ==> d.contains(#[trigger] p[k])
}

/// Without a best known length, a move that finds nothing lets the search
/// go on to the next one.
proof fn lemma_direct_none(hist: Seq<Seq<char>>, cur: Seq<char>, t: Seq<char>, d: Set<Seq<char>>, j: int, j2: int)
    requires
        0 <= j <= j2 <= t.len(),
        hist.len() <= 2 * t.len(),
        direct_moves(hist, None, cur, t, d, j) is None,
    ensures
        direct_moves(hist, None, cur, t, d, j2) is None,
    decreases j2 - j,
{
    if j < j2 {
        assert(direct_moves(hist, None, cur, t, d, j + 1) is None);
        lemma_direct_none(hist, cur, t, d, j + 1, j2);
    }
}

proof fn lemma_other_none(hist: Seq<Seq<char>>, cur: Seq<char>, t: Seq<char>, d: Set<Seq<char>>, i: int, k: int)
    requires
        hist.len() <= 2 * t.len(),
        0 <= i < t.len(),
        0 <= k <= 26,
        other_moves(hist, None, cur, t, d, 0, 0) is None,
    ensures
        other_moves(hist, None, cur, t, d, i, k) is None,
    decreases i, k,
{
    if k > 0 {
        lemma_other_none(hist, cur, t, d, i, k - 1);
        assert(other_moves(hist, None, cur, t, d, i, k - 1) is None);
    } else if i > 0 {
        lemma_other_none(hist, cur, t, d, i - 1, 26);
        assert(other_moves(hist, None, cur, t, d, i - 1, 26) is None);
    }
}

/// Without a best known length, the search from `cur` after `hist` finds a
/// ladder whenever one within its reach continues the walk.
proof fn lemma_search_finds(hist: Seq<Seq<char>>, cur: Seq<char>, t: Seq<char>, d: Set<Seq<char>>, q: Seq<Seq<char>>)
    requires
        cur.len() == t.len(),
        q.len() >= 1,
        q[0] == cur,
        q.last() == t,
        hist.len() + q.len() <= 2 * t.len() + 2,
        (hist + q).no_duplicates(),
        forall|k: int| 0 <= k < q.len() - 1 ==> #[trigger] search_move(q[k], q[k + 1], t),
        forall|k: int| 0 < k < q.len() - 1 ==> d.contains(#[trigger] q[k]),
    ensures
        ladder_search(hist, None, cur, t, d) is Some,
    decreases q.len(),
{
    if cur != t {
        let n = t.len() as int;
        assert(q.len() >= 2);
        let all = hist + q;
        let chain = hist.push(cur);
        let w = q[1];
        assert(search_move(q[0], q[1], t));
        let i = choose|i: int|
            0 <= i < cur.len() && cur[i] != w[i] && #[trigger] cur.update(i, w[i]) == w && (w[i] == t[i] || exists|
                k: int,
            | 0 <= k < 26 && w[i] == letter(k));
        assert(all[hist.len() + 1int] == w);
        assert(!chain.contains(w)) by {
            if chain.contains(w) {
                let m = choose|m: int| 0 <= m < chain.len() && chain[m] == w;
                assert(all[m] == chain[m]);
            }
        }
        let rest = q.drop_first();
        if w != t {
            assert(q.len() >= 3);
            assert(d.contains(q[1]));
            assert(chain + rest =~= all);
            assert forall|k: int| 0 <= k < rest.len() - 1 implies #[trigger] search_move(rest[k], rest[k + 1], t) by {
                let j = k + 1;
                assert(search_move(q[j], q[j + 1], t));
                assert(rest[k] == q[j] && rest[k + 1] == q[j + 1]);
            }
            assert forall|k: int| 0 < k < rest.len() - 1 implies d.contains(#[trigger] rest[k]) by {
                assert(d.contains(q[k + 1]));
            }
            lemma_search_finds(chain, w, t, d, rest);
        }
        if ladder_search(hist, None, cur, t, d) is None {
            assert(direct_moves(hist, None, cur, t, d, 0) is None);
            if w[i] == t[i] {
                lemma_direct_none(hist, cur, t, d, 0, i);
                assert(direct_moves(hist, None, cur, t, d, i) is Some);
            } else {
                let k = choose|k: int| 0 <= k < 26 && w[i] == letter(k);
                lemma_direct_none(hist, cur, t, d, 0, n);
                assert(other_moves(hist, None, cur, t, d, 0, 0) is None);
                lemma_other_none(hist, cur, t, d, i, k);
                assert(other_moves(hist, None, cur, t, d, i, k) is Some);
            }
        }
    }
}

/// A step from `cur` to `w` followed by a path from `w` is a path from `cur`.
proof fn lemma_step_then_path(
    hist: Seq<Seq<char>>,
    cur: Seq<char>,
    w: Seq<char>,
    t: Seq<char>,
    d: Set<Seq<char>>,
    p: Seq<Seq<char>>,
    i: int,
)
    requires
        reaches_target(hist.push(cur), w, t, d, p),
        0 <= i < cur.len(),
        w == cur.update(i, w[i]),
        !hist.push(cur).contains(w),
        d.contains(w),
        cur != t,
    ensures
        reaches_target(hist, cur, t, d, p),
        one_step_apart(cur, w),
{
    let chain = hist.push(cur);
    assert(chain[hist.len() as int] == cur);
    assert(w != cur);
    if cur[i] == w[i] {
        assert(cur.update(i, w[i]) =~= cur);
    }
    assert(one_step_apart(cur, w));
    assert forall|j: int| 0 <= j < hist.len() implies #[trigger] p[j] == hist[j] by {
        assert(p[j] == chain[j]);
    }
    assert(p[hist.len() as int] == chain[hist.len() as int]);
    assert(p[hist.len() + 1int] == w);
    if chain.no_duplicates() && !hist.contains(t) {
        assert(!chain.contains(t)) by {
            if chain.contains(t) {
                let j = choose|j: int| 0 <= j < chain.len() && chain[j] == t;
                if j < hist.len() {
                    assert(hist[j] == t);
                }
            }
        }
        let chain2 = chain.push(w);
        assert forall|a: int, b: int| 0 <= a < chain2.len() && 0 <= b < chain2.len() && a != b
            implies chain2[a] != chain2[b] by {
            if a < chain.len() && b < chain.len() {
                assert(chain[a] != chain[b]);
            } else if a < chain.len() {
                assert(chain.contains(chain[a]));
            } else {
                assert(chain.contains(chain[b]));
            }
        }
        assert(chain2.no_duplicates());
    }
}

/// A step from `cur` that lands on the target ends a path.
proof fn lemma_step_to_target(hist: Seq<Seq<char>>, cur: Seq<char>, t: Seq<char>, d: Set<Seq<char>>, i: int)
    requires
        0 <= i < cur.len(),
        cur.len() == t.len(),
        cur.update(i, t[i]) == t,
        cur != t,
    ensures
        reaches_target(hist, cur, t, d, hist.push(cur).push(t)),
        one_step_apart(cur, t),
{
    let chain = hist.push(cur);
    let p = chain.push(t);
    if cur[i] == t[i] {
        assert(cur.update(i, t[i]) =~= cur);
    }
    assert(one_step_apart(cur, t));
    assert forall|j: int| 0 <= j < hist.len() implies #[trigger] p[j] == hist[j] by {
        assert(p[j] == chain[j]);
    }
    assert(p[hist.len() as int] == cur);
    if chain.no_duplicates() && !hist.contains(t) {
        assert forall|a: int, b: int| 0 <= a < p.len() && 0 <= b < p.len() && a != b
            implies p[a] != p[b] by {
            if a < chain.len() && b < chain.len() {
                assert(chain[a] != chain[b]);
            } else if a < hist.len() {
                assert(hist.contains(hist[a]));
            } else if b < hist.len() {
                assert(hist.contains(hist[b]));
            }
        }
    }
}

/// The walk `hist` followed by the target itself reaches the target.
proof fn lemma_path_of_one(hist: Seq<Seq<char>>, t: Seq<char>, d: Set<Seq<char>>)
    ensures
        reaches_target(hist, t, t, d, hist.push(t)),
{
    let p = hist.push(t);
    assert forall|j: int| 0 <= j < hist.len() implies #[trigger] p[j] == hist[j] by {}
}

/// A dictionary of words, each a sequence of characters, held in a hash set.
pub struct Dictionary {
    words: StringHashSet,
}

impl Dictionary {
    /// The set of words held.
    pub closed spec fn view(&self) -> Set<Seq<char>> {
        self.words@
    }

    /// Builds a dictionary holding exactly the given words.
    pub fn new(words: Vec<Vec<char>>) -> (d: Dictionary)
        ensures
            forall|w: Seq<char>| d@.contains(w) <==> exists|k: int| 0 <= k < words@.len() && #[trigger] words@[k]@ == w,
    {
        let mut set = StringHashSet::new();
        let mut k: usize = 0;
        while k < words.len()
            invariant
                0 <= k <= words@.len(),
                forall|w: Seq<char>| set@.contains(w) <==> exists|j: int| 0 <= j < k && #[trigger] words@[j]@ == w,
            decreases words@.len() - k,
        {
            let word = string_of_chars(&words[k]);
            let ghost before = set@;
            set.insert(word);
            proof {
                assert forall|w: Seq<char>| set@.contains(w) <==> exists|j: int| 0 <= j < k + 1 && #[trigger] words@[j]@ == w by {
                    if set@.contains(w) && w != word@ {
                        assert(before.contains(w));
                    }
                    if exists|j: int| 0 <= j < k + 1 && #[trigger] words@[j]@ == w {
                        let j = choose|j: int| 0 <= j < k + 1 && #[trigger] words@[j]@ == w;
                        if j < k {
                            assert(before.contains(w));
                        }
                    }
                }
            }
            k += 1;
        }
        Dictionary { words: set }
    }

    /// Whether `w` is one of the dictionary's words.
    pub fn contains(&self, w: &Vec<char>) -> (r: bool)
        ensures
            r == self@.contains(w@),
    {
        let word = string_of_chars(w);
        self.words.contains(word.as_str())
    }
}

/// Character-wise equality of two words.
pub fn same_word(a: &Vec<char>, b: &Vec<char>) -> (r: bool)
    ensures
        r == (a@ == b@),
{
    if a.len() != b.len() {
        return false;
    }
    let mut i: usize = 0;
    while i < a.len()
        invariant
            a@.len() == b@.len(),
            0 <= i <= a@.len(),
            forall|j: int| 0 <= j < i ==> a@[j] == b@[j],
        decreases a@.len() - i,
    {
        if a[i] != b[i] {
            return false;
        }
        i += 1;
    }
    assert(a@ =~= b@);
    true
}

/// A copy of `w`.
fn copy_word(w: &Vec<char>) -> (r: Vec<char>)
    ensures
        r@ == w@,
{
    let mut r: Vec<char> = Vec::new();
    let mut j: usize = 0;
    while j < w.len()
        invariant
            0 <= j <= w@.len(),
            r@ == w@.subrange(0, j as int),
        decreases w@.len() - j,
    {
        r.push(w[j]);
        j += 1;
        assert(r@ =~= w@.subrange(0, j as int));
    }
    assert(r@ =~= w@);
    r
}

/// A copy of `w` with the character at position `i` replaced by `c`.
fn with_char(w: &Vec<char>, i: usize, c: char) -> (r: Vec<char>)
    requires
        i < w@.len(),
    ensures
        r@ == w@.update(i as int, c),
{
    let mut r: Vec<char> = Vec::new();
    let mut j: usize = 0;
    while j < w.len()
        invariant
            0 <= j <= w@.len(),
            i < w@.len(),
            r@ == w@.update(i as int, c).subrange(0, j as int),
        decreases w@.len() - j,
    {
        if j == i {
            r.push(c);
        } else {
            r.push(w[j]);
        }
        j += 1;
        assert(r@ =~= w@.update(i as int, c).subrange(0, j as int));
    }
    assert(r@ =~= w@.update(i as int, c));
    r
}

/// A copy of the walk `hist` followed by `w`.
fn extend_chain(hist: &Vec<Vec<char>>, w: &Vec<char>) -> (r: Vec<Vec<char>>)
    ensures
        words_of(r@) == words_of(hist@).push(w@),
{
    let mut r: Vec<Vec<char>> = Vec::new();
    let mut j: usize = 0;
    while j < hist.len()
        invariant
            0 <= j <= hist@.len(),
            words_of(r@) == words_of(hist@).subrange(0, j as int),
        decreases hist@.len() - j,
    {
        let c = copy_word(&hist[j]);
        proof {
            assert(words_of(r@.push(c)) =~= words_of(r@).push(c@));
        }
        r.push(c);
        j += 1;
        assert(words_of(r@) =~= words_of(hist@).subrange(0, j as int));
    }
    let c = copy_word(w);
    proof {
        assert(words_of(r@.push(c)) =~= words_of(r@).push(c@));
        assert(words_of(hist@).subrange(0, hist@.len() as int) =~= words_of(hist@));
    }
    r.push(c);
    r
}

/// Whether the walk `chain` already visits `w`.
fn path_contains(chain: &Vec<Vec<char>>, w: &Vec<char>) -> (r: bool)
    ensures
        r == words_of(chain@).contains(w@),
{
    let mut j: usize = 0;
    while j < chain.len()
        invariant
            0 <= j <= chain@.len(),
            forall|m: int| 0 <= m < j ==> words_of(chain@)[m] != w@,
        decreases chain@.len() - j,
    {
        if same_word(&chain[j], w) {
            assert(words_of(chain@)[j as int] == w@);
            return true;
        }
        j += 1;
    }
    false
}

/// Depth-first search for a word ladder from `current_word` to
/// `target_word`, having walked `chain_history` so far.
///
/// Moves that copy a character of the target are tried before all other
/// one-letter moves; a branch is abandoned once it is as long as the best
/// known path `shortest_path` or deeper than twice the word length. The
/// first ladder found that is shorter than the best known one (any ladder,
/// when none is known) is returned: a short ladder, not always the shortest.
pub fn shortest_word_chains_recursive(
    chain_history: &Vec<Vec<char>>,
    shortest_path: &Option<Vec<Vec<char>>>,
    current_word: &Vec<char>,
    target_word: &Vec<char>,
    dictionary: &Dictionary,
) -> (r: Option<Vec<Vec<char>>>)
    requires
        current_word@.len() == target_word@.len(),
    ensures
        path_view(r) == ladder_search(
            words_of(chain_history@),
            known_len(*shortest_path),
            current_word@,
            target_word@,
            dictionary@,
        ),
        r matches Some(p) ==> reaches_target(
            words_of(chain_history@),
            current_word@,
            target_word@,
            dictionary@,
            words_of(p@),
        ),
        ((forall|w: Seq<char>| #[trigger] dictionary@.contains(w) ==> !one_step_apart(current_word@, w))
            && current_word@ != target_word@ && !one_step_apart(current_word@, target_word@)) ==> r is None,
        r matches Some(p) ==> p@.len() <= chain_history@.len() + 1 || p@.len() <= 2 * target_word@.len() + 2,
    decreases 2 * target_word@.len() + 2 - chain_history@.len(),
{
    let ghost hist = words_of(chain_history@);
    let ghost best = known_len(*shortest_path);
    let ghost cur = current_word@;
    let ghost t = target_word@;
    let ghost d = dictionary@;
    let chain_with_word = extend_chain(chain_history, current_word);
    assert(chain_with_word@.len() == words_of(chain_with_word@).len());
    assert(chain_history@.len() == hist.len());
    if same_word(current_word, target_word) {
        proof {
            lemma_path_of_one(hist, cur, d);
        }
        return Some(chain_with_word);
    }
    let n = target_word.len();
    let pruned = match shortest_path {
        Some(known) => chain_with_word.len() >= known.len(),
        None => false,
    };
    if pruned || chain_history.len() as u128 > 2 * (n as u128) {
        return None;
    }
    let mut i: usize = 0;
    while i < n
        invariant
            hist == words_of(chain_history@),
            best == known_len(*shortest_path),
            cur == current_word@,
            t == target_word@,
            d == dictionary@,
            n == t.len(),
            cur.len() == n,
            cur != t,
            words_of(chain_with_word@) == hist.push(cur),
            hist.len() <= 2 * n,
            chain_history@.len() == hist.len(),
            chain_with_word@.len() == hist.len() + 1,
            !(best is Some && hist.len() + 1 >= best->0),
            0 <= i <= n,
            ladder_search(hist, best, cur, t, d) == direct_moves(hist, best, cur, t, d, i as int),
        decreases n - i,
    {
        let new_word = with_char(current_word, i, target_word[i]);
        if same_word(&new_word, target_word) {
            proof {
                lemma_step_to_target(hist, cur, t, d, i as int);
                assert(words_of(chain_with_word@.push(new_word)) =~= words_of(chain_with_word@).push(t));
            }
            let mut succesful_chain = chain_with_word;
            succesful_chain.push(new_word);
            return Some(succesful_chain);
        }
        if !path_contains(&chain_with_word, &new_word) && dictionary.contains(&new_word) {
            let found = shortest_word_chains_recursive(
                &chain_with_word,
                shortest_path,
                &new_word,
                target_word,
                dictionary,
            );
            if let Some(new_path) = found {
                let better = match shortest_path {
                    Some(known) => new_path.len() < known.len(),
                    None => true,
                };
                if better {
                    proof {
                        assert(new_word@ == cur.update(i as int, new_word@[i as int]));
                        lemma_step_then_path(hist, cur, new_word@, t, d, words_of(new_path@), i as int);
                    }
                    return Some(new_path);
                }
            }
        }
        i += 1;
    }
    let mut i: usize = 0;
    while i < n
        invariant
            hist == words_of(chain_history@),
            best == known_len(*shortest_path),
            cur == current_word@,
            t == target_word@,
            d == dictionary@,
            n == t.len(),
            cur.len() == n,
            cur != t,
            words_of(chain_with_word@) == hist.push(cur),
            hist.len() <= 2 * n,
            chain_history@.len() == hist.len(),
            chain_with_word@.len() == hist.len() + 1,
            !(best is Some && hist.len() + 1 >= best->0),
            0 <= i <= n,
            ladder_search(hist, best, cur, t, d) == other_moves(hist, best, cur, t, d, i as int, 0),
        decreases n - i,
    {
        let mut k: u8 = 0;
        while k < 26
            invariant
                hist == words_of(chain_history@),
                best == known_len(*shortest_path),
                cur == current_word@,
                t == target_word@,
                d == dictionary@,
                n == t.len(),
                cur.len() == n,
                cur != t,
                words_of(chain_with_word@) == hist.push(cur),
                hist.len() <= 2 * n,
                chain_history@.len() == hist.len(),
                chain_with_word@.len() == hist.len() + 1,
                !(best is Some && hist.len() + 1 >= best->0),
                0 <= i < n,
                0 <= k <= 26,
                ladder_search(hist, best, cur, t, d) == other_moves(hist, best, cur, t, d, i as int, k as int),
            decreases 26 - k,
        {
            let c = (97u8 + k) as char;
            assert(c == letter(k as int));
            if c != target_word[i] {
                let new_word = with_char(current_word, i, c);
                if !path_contains(&chain_with_word, &new_word) && dictionary.contains(&new_word) {
                    let found = shortest_word_chains_recursive(
                        &chain_with_word,
                        shortest_path,
                        &new_word,
                        target_word,
                        dictionary,
                    );
                    if let Some(new_path) = found {
                        let better = match shortest_path {
                            Some(known) => new_path.len() < known.len(),
                            None => true,
                        };
                        if better {
                            proof {
                                assert(new_word@ == cur.update(i as int, new_word@[i as int]));
                                lemma_step_then_path(hist, cur, new_word@, t, d, words_of(new_path@), i as int);
                            }
                            return Some(new_path);
                        }
                    }
                }
            }
            k += 1;
        }
        i += 1;
    }
    None
}

/// The ladder that the search finds from `source` to `target` through `d`.
pub open spec fn word_ladder(source: Seq<char>, target: Seq<char>, d: Set<Seq<char>>) -> Option<
    Seq<Seq<char>>,
> {
    ladder_search(Seq::empty(), None, source, target, d)
}

/// Finds a short word ladder from `source` to `target`: a path that starts
/// at `source`, ends at `target`, changes one character per step, never
/// repeats a word, and passes only through words of `dictionary` in between.
/// A word equal to the target is its own ladder.
pub fn find_shortest_path(source: &Vec<char>, target: &Vec<char>, dictionary: &Dictionary) -> (r:
    Option<Vec<Vec<char>>>)
    requires
        source@.len() == target@.len(),
    ensures
        path_view(r) == word_ladder(source@, target@, dictionary@),
        source@ == target@ ==> path_view(r) == Some(seq![source@]),
        r matches Some(p) ==> {
            let q = words_of(p@);
            &&& q.len() >= 1
            &&& q[0] == source@
            &&& q.last() == target@
            &&& is_ladder(q)
            &&& q.no_duplicates()
            &&& forall|k: int| 0 < k < q.len() - 1 ==> dictionary@.contains(#[trigger] q[k])
        },
        ((forall|w: Seq<char>| #[trigger] dictionary@.contains(w) ==> !one_step_apart(source@, w))
            && source@ != target@ && !one_step_apart(source@, target@)) ==> r is None,
        r matches Some(p) ==> p@.len() <= 2 * target@.len() + 2,
        (exists|p: Seq<Seq<char>>| is_search_ladder(p, source@, target@, dictionary@)) ==> r is Some,
{
    let start: Vec<Vec<char>> = Vec::new();
    let r = shortest_word_chains_recursive(&start, &None, source, target, dictionary);
    proof {
        let hist = words_of(start@);
        assert(hist =~= Seq::<Seq<char>>::empty());
        assert(hist.push(source@).no_duplicates());
        if source@ == target@ {
            assert(hist.push(source@) =~= seq![source@]);
        }
        if exists|p: Seq<Seq<char>>| is_search_ladder(p, source@, target@, dictionary@) {
            let p = choose|p: Seq<Seq<char>>| is_search_ladder(p, source@, target@, dictionary@);
            assert(hist + p =~= p);
            lemma_search_finds(hist, source@, target@, dictionary@, p);
        }
        if r is Some {
            let q = words_of(r->0@);
            assert forall|k: int| 0 <= k < q.len() - 1 implies #[trigger] one_step_apart(q[k], q[k + 1]) by {}
        }
    }
    r
}

/// Running the search twice on the same words and dictionary gives the same
/// result, so in particular ladders of the same length.
pub proof fn lemma_search_repeatable(
    source: Seq<char>,
    target: Seq<char>,
    d: Set<Seq<char>>,
    first: Option<Seq<Seq<char>>>,
    second: Option<Seq<Seq<char>>>,
)
    requires
        first == word_ladder(source, target, d),
        second == word_ladder(source, target, d),
    ensures
        first == second,
        first matches Some(p) ==> second matches Some(q) && p.len() == q.len(),
{
}

/// The words of `p` with `sep` between each two neighbours.
pub open spec fn joined(p: Seq<Seq<char>>, sep: Seq<char>) -> Seq<char>
    decreases p.len(),
{
    if p.len() == 0 {
        Seq::empty()
    } else if p.len() == 1 {
        p[0]
    } else {
        joined(p.drop_last(), sep) + sep + p.last()
    }
}

/// A path as a bracketed list with one indented word per line.
pub open spec fn path_listing(p: Seq<Seq<char>>) -> Seq<char> {
    seq!['[', '\n', ' ', ' ', ' ', ' '] + joined(p, seq![',', '\n', ' ', ' ', ' ', ' ']) + seq![
        '\n',
        ']',
    ]
}

/// Appends the characters of `w` to `out`.
fn append_chars(out: &mut Vec<char>, w: &Vec<char>)
    ensures
        final(out)@ == old(out)@ + w@,
{
    let mut j: usize = 0;
    while j < w.len()
        invariant
            0 <= j <= w@.len(),
            out@ == old(out)@ + w@.subrange(0, j as int),
        decreases w@.len() - j,
    {
        out.push(w[j]);
        j += 1;
        assert(out@ =~= old(out)@ + w@.subrange(0, j as int));
    }
    assert(w@.subrange(0, w@.len() as int) =~= w@);
}

/// Appends a line break and four spaces of indentation to `out`.
fn append_indented_break(out: &mut Vec<char>)
    ensures
        final(out)@ == old(out)@ + seq!['\n', ' ', ' ', ' ', ' '],
{
    out.push('\n');
    out.push(' ');
    out.push(' ');
    out.push(' ');
    out.push(' ');
    assert(out@ =~= old(out)@ + seq!['\n', ' ', ' ', ' ', ' ']);
}

/// Renders a path as a bracketed list with one indented word per line.
pub fn display_path(path: &Vec<Vec<char>>) -> (r: String)
    ensures
        r@ == path_listing(words_of(path@)),
{
    let ghost words = words_of(path@);
    let ghost sep = seq![',', '\n', ' ', ' ', ' ', ' '];
    let mut out: Vec<char> = Vec::new();
    out.push('[');
    append_indented_break(&mut out);
    assert(out@ =~= seq!['[', '\n', ' ', ' ', ' ', ' ']);
    let mut j: usize = 0;
    while j < path.len()
        invariant
            words == words_of(path@),
            sep == seq![',', '\n', ' ', ' ', ' ', ' '],
            0 <= j <= path@.len(),
            out@ == seq!['[', '\n', ' ', ' ', ' ', ' '] + joined(words.subrange(0, j as int), sep),
        decreases path@.len() - j,
    {
        let ghost before = out@;
        if j > 0 {
            out.push(',');
            append_indented_break(&mut out);
            assert(out@ =~= before + sep);
        }
        append_chars(&mut out, &path[j]);
        proof {
            let next = words.subrange(0, j + 1);
            assert(next.drop_last() =~= words.subrange(0, j as int));
            assert(next.last() == path@[j as int]@);
            if j == 0 {
                assert(joined(words.subrange(0, 0), sep) =~= Seq::<char>::empty());
                assert(joined(next, sep) == next[0]);
            }
        }
        j += 1;
        assert(out@ =~= seq!['[', '\n', ' ', ' ', ' ', ' '] + joined(words.subrange(0, j as int), sep));
    }
    assert(words.subrange(0, path@.len() as int) =~= words);
    out.push('\n');
    out.push(']');
    assert(out@ =~= path_listing(words));
    string_of_chars(&out)
}

} // verus!
