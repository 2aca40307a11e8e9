use crate::text::{chars_of, contains_char, find_from, find_infix, lines_of, split_lines};
use vstd::prelude::*;

verus! {

/// Each item is listed once.
pub open spec fn unique_items(v: Seq<(char, Vec<char>)>) -> bool {
    forall|i: int, j: int| 0 <= i < j < v.len() ==> v[i].0 != v[j].0
}

/// The dependency graph that a list of entries describes: each listed item
/// and the set of items it depends on directly.
pub open spec fn dep_graph(v: Seq<(char, Vec<char>)>) -> Map<char, Set<char>> {
    Map::new(
        |k: char| exists|i: int| 0 <= i < v.len() && #[trigger] v[i].0 == k,
        |k: char| v[choose|i: int| 0 <= i < v.len() && #[trigger] v[i].0 == k].1@.to_set(),
    )
}

/// `p` follows dependencies: each item in it but the last depends on the next.
pub open spec fn is_chain(g: Map<char, Set<char>>, p: Seq<char>) -> bool {
    &&& p.len() >= 2
    &&& forall|i: int| 0 <= i < p.len() - 1 ==> g.contains_key(#[trigger] p[i]) && g[p[i]].contains(p[i + 1])
}

/// `y` can be reached from `x` by following one or more dependencies.
pub open spec fn reaches(g: Map<char, Set<char>>, x: char, y: char) -> bool {
    exists|p: Seq<char>| #[trigger] is_chain(g, p) && p[0] == x && p.last() == y
}

/// What `x` depends on once dependencies are followed through: its direct
/// dependencies and every other item reachable from it.
pub open spec fn expanded_deps(g: Map<char, Set<char>>, x: char) -> Set<char> {
    g[x].union(Set::new(|y: char| y != x && reaches(g, x, y)))
}

proof fn lemma_graph_at(v: Seq<(char, Vec<char>)>, i: int)
    requires
        unique_items(v),
        0 <= i < v.len(),
    ensures
        dep_graph(v).contains_key(v[i].0),
        dep_graph(v)[v[i].0] == v[i].1@.to_set(),
{
    let k = v[i].0;
    assert(v[i].0 == k);
    let j = choose|j: int| 0 <= j < v.len() && #[trigger] v[j].0 == k;
    if j != i {
        if j < i {
            assert(v[j].0 != v[i].0);
        } else {
            assert(v[i].0 != v[j].0);
        }
    }
}

/// Entries not yet expanded.
spec fn pending(e: Seq<bool>) -> nat
    decreases e.len(),
{
    if e.len() == 0 {
        0
    } else {
        pending(e.drop_last()) + if e.last() {
            0nat
        } else {
            1nat
        }
    }
}

proof fn lemma_pending_drops(e: Seq<bool>, i: int)
    requires
        0 <= i < e.len(),
        !e[i],
    ensures
        pending(e.update(i, true)) + 1 == pending(e),
    decreases e.len(),
{
    let u = e.update(i, true);
    if i < e.len() - 1 {
        assert(u.drop_last() =~= e.drop_last().update(i, true));
        lemma_pending_drops(e.drop_last(), i);
    } else {
        assert(u.drop_last() =~= e.drop_last());
    }
}

/// Every node after the start of a chain from `x` is `x` or in `found`, when
/// `found` is closed under the dependencies of `x` and of its own items.
proof fn lemma_closed_holds_chain(g: Map<char, Set<char>>, x: char, found: Seq<char>, p: Seq<char>, j: int)
    requires
        is_chain(g, p),
        p[0] == x,
        1 <= j < p.len(),
        forall|k: char, d: char|
            (k == x || found.contains(k)) && g.contains_key(k) && #[trigger] g[k].contains(d) ==> d == x
                || found.contains(d),
    ensures
        p[j] == x || found.contains(p[j]),
    decreases j,
{
    if j > 1 {
        lemma_closed_holds_chain(g, x, found, p, j - 1);
    }
    assert(g.contains_key(p[j - 1]) && g[p[j - 1]].contains(p[j]));
}

/// The items other than `x` that can be reached from `x`, each once.
fn reachable_from(map: &Vec<(char, Vec<char>)>, x: char) -> (r: Vec<char>)
    requires
        unique_items(map@),
    ensures
        r@.no_duplicates(),
        forall|y: char| r@.contains(y) <==> y != x && reaches(dep_graph(map@), x, y),
{
    let ghost g = dep_graph(map@);
    let mut found: Vec<char> = Vec::new();
    let mut expanded: Vec<bool> = Vec::new();
    let mut i: usize = 0;
    while i < map.len()
        invariant
            0 <= i <= map@.len(),
            expanded@.len() == i,
            forall|j: int| 0 <= j < i ==> !expanded@[j],
        decreases map@.len() - i,
    {
        expanded.push(false);
        i += 1;
    }
    loop
        invariant
            unique_items(map@),
            g == dep_graph(map@),
            expanded@.len() == map@.len(),
            found@.no_duplicates(),
            forall|y: char| found@.contains(y) ==> y != x && reaches(g, x, y),
            forall|j: int| 0 <= j < map@.len() && #[trigger] expanded@[j] ==> (map@[j].0 == x || found@.contains(map@[j].0)),
            forall|j: int, d: char| 0 <= j < map@.len() && expanded@[j] && #[trigger] map@[j].1@.contains(d) ==> d == x
                || found@.contains(d),
        decreases pending(expanded@),
    {
        let mut next: usize = map.len();
        let mut j: usize = 0;
        while j < map.len() && next == map.len()
            invariant
                expanded@.len() == map@.len(),
                0 <= j <= map@.len(),
                next == map@.len() || (next < map@.len() && !expanded@[next as int] && (map@[next as int].0 == x
                    || found@.contains(map@[next as int].0))),
                next == map@.len() ==> forall|m: int|
                    0 <= m < j ==> expanded@[m] || !(map@[m].0 == x || found@.contains(map@[m].0)),
            decreases map@.len() - j,
        {
            if !expanded[j] && (map[j].0 == x || contains_char(&found, map[j].0)) {
                next = j;
            }
            j += 1;
        }
        if next == map.len() {
            proof {
                assert forall|k: char, d: char|
                    (k == x || found@.contains(k)) && g.contains_key(k) && #[trigger] g[k].contains(d) implies d == x
                        || found@.contains(d) by {
                    let m = choose|m: int| 0 <= m < map@.len() && #[trigger] map@[m].0 == k;
                    lemma_graph_at(map@, m);
                    assert(map@[m].1@.to_set().contains(d));
                    assert(expanded@[m]);
                }
                assert forall|y: char| y != x && reaches(g, x, y) implies found@.contains(y) by {
                    let p = choose|p: Seq<char>| #[trigger] is_chain(g, p) && p[0] == x && p.last() == y;
                    lemma_closed_holds_chain(g, x, found@, p, p.len() - 1);
                }
            }
            return found;
        }
        let deps = &map[next].1;
        let ghost key = map@[next as int].0;
        proof {
            lemma_graph_at(map@, next as int);
        }
        let mut k: usize = 0;
        while k < deps.len()
            invariant
                unique_items(map@),
                g == dep_graph(map@),
                expanded@.len() == map@.len(),
                next < map@.len(),
                !expanded@[next as int],
                deps == &map@[next as int].1,
                key == map@[next as int].0,
                key == x || found@.contains(key),
                g.contains_key(key) && g[key] == deps@.to_set(),
                0 <= k <= deps@.len(),
                found@.no_duplicates(),
                forall|y: char| found@.contains(y) ==> y != x && reaches(g, x, y),
                forall|m: int| 0 <= m < k ==> deps@[m] == x || found@.contains(#[trigger] deps@[m]),
                forall|m: int| 0 <= m < map@.len() && #[trigger] expanded@[m] ==> (map@[m].0 == x || found@.contains(map@[m].0)),
                forall|m: int, d: char| 0 <= m < map@.len() && expanded@[m] && #[trigger] map@[m].1@.contains(d) ==> d == x
                    || found@.contains(d),
            decreases deps@.len() - k,
        {
            let d = deps[k];
            if d != x && !contains_char(&found, d) {
                let ghost before = found@;
                assert(reaches(g, x, d)) by {
                    assert(deps@.to_set().contains(d));
                    if key == x {
                        let p = seq![x, d];
                        assert(is_chain(g, p));
                    } else {
                        let q = choose|q: Seq<char>| #[trigger] is_chain(g, q) && q[0] == x && q.last() == key;
                        let p = q.push(d);
                        assert forall|i: int| 0 <= i < p.len() - 1 implies g.contains_key(#[trigger] p[i]) && g[p[i]].contains(p[i + 1]) by {
                            if i < q.len() - 1 {
                                assert(p[i] == q[i] && p[i + 1] == q[i + 1]);
                            } else {
                                assert(p[i] == key && p[i + 1] == d);
                            }
                        }
                        assert(is_chain(g, p));
                        assert(p[0] == x && p.last() == d);
                    }
                }
                found.push(d);
                proof {
                    assert forall|y: char| before.contains(y) implies found@.contains(y) by {
                        let m = choose|m: int| 0 <= m < before.len() && before[m] == y;
                        assert(found@[m] == y);
                    }
                    assert(found@.contains(d)) by {
                        assert(found@[before.len() as int] == d);
                    }
                    assert forall|y: char| found@.contains(y) implies y != x && reaches(g, x, y) by {
                        if y != d {
                            let m = choose|m: int| 0 <= m < found@.len() && found@[m] == y;
                            assert(found@[before.len() as int] == d);
                            assert(m < before.len());
                            assert(before[m] == y);
                            assert(before.contains(y));
                        }
                    }
                    assert forall|a: int, b: int| 0 <= a < found@.len() && 0 <= b < found@.len() && a != b implies found@[a] != found@[b] by {
                        if a < before.len() && b < before.len() {
                        } else if a < before.len() {
                            assert(before.contains(before[a]));
                        } else {
                            assert(before.contains(before[b]));
                        }
                    }
                }
            }
            k += 1;
        }
        proof {
            lemma_pending_drops(expanded@, next as int);
        }
        expanded.set(next, true);
    }
}

/// Each item of `g` with the dependencies it has once they are followed
/// through.
pub open spec fn expand_graph(g: Map<char, Set<char>>) -> Map<char, Set<char>> {
    Map::new(|k: char| g.contains_key(k), |k: char| expanded_deps(g, k))
}

/// The characters of `a`, then those of `b`.
fn concat_items(a: &Vec<char>, b: &Vec<char>) -> (r: Vec<char>)
    ensures
        r@ == a@ + b@,
{
    let mut r: Vec<char> = Vec::new();
    let mut i: usize = 0;
    while i < a.len()
        invariant
            0 <= i <= a@.len(),
            r@ == a@.subrange(0, i as int),
        decreases a@.len() - i,
    {
        r.push(a[i]);
        i += 1;
        assert(r@ =~= a@.subrange(0, i as int));
    }
    let mut j: usize = 0;
    while j < b.len()
        invariant
            0 <= j <= b@.len(),
            r@ == a@ + b@.subrange(0, j as int),
        decreases b@.len() - j,
    {
        r.push(b[j]);
        j += 1;
        assert(r@ =~= a@ + b@.subrange(0, j as int));
    }
    assert(a@ =~= a@.subrange(0, a@.len() as int));
    assert(b@ =~= b@.subrange(0, b@.len() as int));
    r
}

/// Adds to each item every item it depends on through others, leaving out
/// the item itself unless it depended on itself directly.
pub fn expand_dependencies(map: &mut Vec<(char, Vec<char>)>)
    requires
        unique_items(old(map)@),
    ensures
        unique_items(final(map)@),
        dep_graph(final(map)@) == expand_graph(dep_graph(old(map)@)),
{
    let ghost g = dep_graph(map@);
    let mut expanded: Vec<(char, Vec<char>)> = Vec::new();
    let mut i: usize = 0;
    while i < map.len()
        invariant
            unique_items(map@),
            g == dep_graph(map@),
            0 <= i <= map@.len(),
            expanded@.len() == i,
            forall|j: int| 0 <= j < i ==> #[trigger] expanded@[j].0 == map@[j].0,
            forall|j: int| 0 <= j < i ==> #[trigger] expanded@[j].1@.to_set() == expanded_deps(g, map@[j].0),
        decreases map@.len() - i,
    {
        let key = map[i].0;
        let extra = reachable_from(map, key);
        let deps = concat_items(&map[i].1, &extra);
        proof {
            lemma_graph_at(map@, i as int);
            assert(deps@.to_set() =~= expanded_deps(g, key)) by {
                assert forall|c: char| deps@.to_set().contains(c) <==> expanded_deps(g, key).contains(c) by {
                    if deps@.contains(c) {
                        let m = choose|m: int| 0 <= m < deps@.len() && deps@[m] == c;
                        if m < map@[i as int].1@.len() {
                            assert(map@[i as int].1@[m] == c);
                            assert(map@[i as int].1@.to_set().contains(c));
                        } else {
                            assert(extra@[m - map@[i as int].1@.len()] == c);
                            assert(extra@.contains(c));
                        }
                    }
                    if map@[i as int].1@.contains(c) {
                        let m = choose|m: int| 0 <= m < map@[i as int].1@.len() && map@[i as int].1@[m] == c;
                        assert(deps@[m] == c);
                    }
                    if extra@.contains(c) {
                        let m = choose|m: int| 0 <= m < extra@.len() && extra@[m] == c;
                        assert(deps@[map@[i as int].1@.len() + m] == c);
                    }
                }
            }
        }
        expanded.push((key, deps));
        i += 1;
    }
    proof {
        assert(unique_items(expanded@)) by {
            assert forall|a: int, b: int| 0 <= a < b < expanded@.len() implies expanded@[a].0 != expanded@[b].0 by {
                assert(expanded@[a].0 == map@[a].0 && expanded@[b].0 == map@[b].0);
            }
        }
        let e = expanded@;
        assert forall|k: char| #[trigger] dep_graph(e).contains_key(k) == g.contains_key(k) by {
            if g.contains_key(k) {
                let j = choose|j: int| 0 <= j < map@.len() && #[trigger] map@[j].0 == k;
                assert(e[j].0 == k);
            }
            if dep_graph(e).contains_key(k) {
                let j = choose|j: int| 0 <= j < e.len() && #[trigger] e[j].0 == k;
                assert(map@[j].0 == k);
            }
        }
        assert forall|k: char| dep_graph(e).contains_key(k) implies dep_graph(e)[k] == expand_graph(g)[k] by {
            let j = choose|j: int| 0 <= j < e.len() && #[trigger] e[j].0 == k;
            lemma_graph_at(e, j);
            assert(e[j].1@.to_set() == expanded_deps(g, map@[j].0));
        }
        assert(dep_graph(e) =~= expand_graph(g));
    }
    *map = expanded;
}

/// `s` without its spaces.
pub open spec fn without_spaces(s: Seq<char>) -> Seq<char>
    decreases s.len(),
{
    if s.len() == 0 {
        s
    } else {
        without_spaces(s.drop_last()) + if s.last() == ' ' {
            Seq::<char>::empty()
        } else {
            seq![s.last()]
        }
    }
}

/// The item and the dependencies that a line writes: one character, two
/// spaces, then the dependencies with spaces between them.
pub open spec fn parse_line(line: Seq<char>) -> Option<(char, Set<char>)> {
    match find_from(line, "  "@, 0) {
        Some(i) => if i == 1 {
            Some((line[0], without_spaces(line.subrange(i + "  "@.len(), line.len() as int)).to_set()))
        } else {
            None
        },
        None => None,
    }
}

/// The graph that the first `n` lines write, a later line for an item
/// replacing an earlier one; nothing if one of them is malformed.
pub open spec fn parsed_lines(lines: Seq<Seq<char>>, n: int) -> Option<Map<char, Set<char>>>
    decreases n,
{
    if n <= 0 {
        Some(Map::empty())
    } else {
        match parsed_lines(lines, n - 1) {
            None => None,
            Some(g) => match parse_line(lines[n - 1]) {
                None => None,
                Some((k, d)) => Some(g.insert(k, d)),
            },
        }
    }
}

/// The characters of `line` from position `from` on, without spaces.
fn non_spaces_from(line: &Vec<char>, from: usize) -> (r: Vec<char>)
    requires
        from <= line@.len(),
    ensures
        r@ == without_spaces(line@.subrange(from as int, line@.len() as int)),
{
    let mut r: Vec<char> = Vec::new();
    let mut i: usize = from;
    while i < line.len()
        invariant
            from <= i <= line@.len(),
            r@ == without_spaces(line@.subrange(from as int, i as int)),
        decreases line@.len() - i,
    {
        proof {
            assert(line@.subrange(from as int, i + 1).drop_last() =~= line@.subrange(from as int, i as int));
        }
        if line[i] != ' ' {
            r.push(line[i]);
        }
        i += 1;
        assert(r@ =~= without_spaces(line@.subrange(from as int, i as int)));
    }
    r
}

proof fn lemma_graph_replace(v: Seq<(char, Vec<char>)>, i: int, deps: Vec<char>)
    requires
        unique_items(v),
        0 <= i < v.len(),
    ensures
        unique_items(v.update(i, (v[i].0, deps))),
        dep_graph(v.update(i, (v[i].0, deps))) == dep_graph(v).insert(v[i].0, deps@.to_set()),
{
    let t = v.update(i, (v[i].0, deps));
    assert forall|a: int, b: int| 0 <= a < b < t.len() implies t[a].0 != t[b].0 by {
        assert(t[a].0 == v[a].0 && t[b].0 == v[b].0);
    }
    assert forall|k: char| #[trigger] dep_graph(t).contains_key(k) == dep_graph(v).insert(v[i].0, deps@.to_set()).contains_key(k) by {
        if dep_graph(v).contains_key(k) {
            let j = choose|j: int| 0 <= j < v.len() && #[trigger] v[j].0 == k;
            assert(t[j].0 == k);
        }
        if dep_graph(t).contains_key(k) {
            let j = choose|j: int| 0 <= j < t.len() && #[trigger] t[j].0 == k;
            assert(v[j].0 == k);
        }
        assert(t[i].0 == v[i].0);
    }
    assert forall|k: char| dep_graph(t).contains_key(k) implies dep_graph(t)[k] == dep_graph(v).insert(v[i].0, deps@.to_set())[k] by {
        let j = choose|j: int| 0 <= j < t.len() && #[trigger] t[j].0 == k;
        lemma_graph_at(t, j);
        if j != i {
            lemma_graph_at(v, j);
        }
    }
    assert(dep_graph(t) =~= dep_graph(v).insert(v[i].0, deps@.to_set()));
}

proof fn lemma_graph_push(v: Seq<(char, Vec<char>)>, key: char, deps: Vec<char>)
    requires
        unique_items(v),
        !dep_graph(v).contains_key(key),
    ensures
        unique_items(v.push((key, deps))),
        dep_graph(v.push((key, deps))) == dep_graph(v).insert(key, deps@.to_set()),
{
    let t = v.push((key, deps));
    assert forall|a: int, b: int| 0 <= a < b < t.len() implies t[a].0 != t[b].0 by {
        if b == v.len() {
            assert(t[a].0 == v[a].0);
            if v[a].0 == key {
                assert(dep_graph(v).contains_key(key));
            }
        } else {
            assert(t[a] == v[a] && t[b] == v[b]);
        }
    }
    assert forall|k: char| #[trigger] dep_graph(t).contains_key(k) == dep_graph(v).insert(key, deps@.to_set()).contains_key(k) by {
        if dep_graph(v).contains_key(k) {
            let j = choose|j: int| 0 <= j < v.len() && #[trigger] v[j].0 == k;
            assert(t[j].0 == k);
        }
        if dep_graph(t).contains_key(k) && k != key {
            let j = choose|j: int| 0 <= j < t.len() && #[trigger] t[j].0 == k;
            assert(v[j].0 == k);
        }
        assert(t[v.len() as int].0 == key);
    }
    assert forall|k: char| dep_graph(t).contains_key(k) implies dep_graph(t)[k] == dep_graph(v).insert(key, deps@.to_set())[k] by {
        let j = choose|j: int| 0 <= j < t.len() && #[trigger] t[j].0 == k;
        lemma_graph_at(t, j);
        if j < v.len() {
            assert(v[j] == t[j]);
            lemma_graph_at(v, j);
        }
    }
    assert(dep_graph(t) =~= dep_graph(v).insert(key, deps@.to_set()));
}

/// Sets the dependencies of `key`, replacing any it had.
fn set_dependencies(map: &mut Vec<(char, Vec<char>)>, key: char, deps: Vec<char>)
    requires
        unique_items(old(map)@),
    ensures
        unique_items(final(map)@),
        dep_graph(final(map)@) == dep_graph(old(map)@).insert(key, deps@.to_set()),
{
    let mut i: usize = 0;
    while i < map.len()
        invariant
            map@ == old(map)@,
            unique_items(map@),
            0 <= i <= map@.len(),
            forall|j: int| 0 <= j < i ==> map@[j].0 != key,
        decreases map@.len() - i,
    {
        if map[i].0 == key {
            proof {
                lemma_graph_replace(map@, i as int, deps);
            }
            map.set(i, (key, deps));
            return;
        }
        i += 1;
    }
    proof {
        if dep_graph(map@).contains_key(key) {
            let j = choose|j: int| 0 <= j < map@.len() && #[trigger] map@[j].0 == key;
            assert(map@[j].0 == key);
        }
        lemma_graph_push(map@, key, deps);
    }
    map.push((key, deps));
}

/// Reads a dependency list: one line per item, the item, two spaces, then
/// what it depends on directly, separated by spaces. Gives nothing if a
/// line is not of that form.
pub fn parse_to_map(s: &str) -> (r: Option<Vec<(char, Vec<char>)>>)
    ensures
        r matches Some(v) ==> unique_items(v@) && parsed_lines(lines_of(s@), lines_of(s@).len() as int) == Some(
            dep_graph(v@),
        ),
        r is None <==> parsed_lines(lines_of(s@), lines_of(s@).len() as int) is None,
{
    let lines = split_lines(s);
    let ghost all = lines_of(s@);
    let sep = chars_of("  ");
    let mut map: Vec<(char, Vec<char>)> = Vec::new();
    assert(dep_graph(map@) =~= Map::<char, Set<char>>::empty());
    let mut k: usize = 0;
    while k < lines.len()
        invariant
            lines@.map_values(|l: String| l@) == all,
            all == lines_of(s@),
            sep@ == "  "@,
            0 <= k <= lines@.len(),
            unique_items(map@),
            parsed_lines(all, k as int) == Some(dep_graph(map@)),
        decreases lines@.len() - k,
    {
        let line = chars_of(lines[k].as_str());
        proof {
            assert(all[k as int] == line@);
        }
        match find_infix(&line, &sep) {
            Some(i) => {
                if i != 1 {
                    proof {
                        lemma_none_stays(all, k + 1, all.len() as int);
                    }
                    return None;
                }
                let deps = non_spaces_from(&line, i + sep.len());
                let key = line[0];
                set_dependencies(&mut map, key, deps);
            },
            None => {
                proof {
                    lemma_none_stays(all, k + 1, all.len() as int);
                }
                return None;
            },
        }
        k += 1;
    }
    Some(map)
}

/// Once a line is malformed, the whole list is.
proof fn lemma_none_stays(lines: Seq<Seq<char>>, k: int, n: int)
    requires
        0 <= k <= n,
        parsed_lines(lines, k) is None,
    ensures
        parsed_lines(lines, n) is None,
    decreases n - k,
{
    if k < n {
        lemma_none_stays(lines, k + 1, n);
    }
}

} // verus!
