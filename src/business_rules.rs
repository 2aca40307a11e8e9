use crate::text::{
    lemma_ascending_unique, lemma_insert_ascending, lemma_text_lt_irreflexive, lemma_text_lt_total,
    lemma_text_lt_transitive, strictly_ascending, text_less, text_lt,chars_of, lower_of, lowercase, split_on, split_pieces, string_of_chars, trim, trimmed};
use vstd::prelude::*;

verus! {

/// A tag that marks what kind of purchase something is.
#[derive(Debug, Clone)]
pub struct Identifier(pub String);

impl View for Identifier {
    type V = Seq<char>;

    open spec fn view(&self) -> Seq<char> {
        self.0@
    }
}

/// The tags of a purchase or of a rule trigger, kept in ascending order
/// without repeats.
#[derive(Debug)]
pub struct IdentifierCollection {
    ids: Vec<Identifier>,
}

impl View for IdentifierCollection {
    type V = Seq<Seq<char>>;

    closed spec fn view(&self) -> Seq<Seq<char>> {
        self.ids@.map_values(|i: Identifier| i@)
    }
}

impl IdentifierCollection {
    #[verifier::type_invariant]
    spec fn sorted(self) -> bool {
        strictly_ascending(self.ids@.map_values(|i: Identifier| i@))
    }

    /// An empty collection.
    pub fn new() -> (r: IdentifierCollection)
        ensures
            r@ == Seq::<Seq<char>>::empty(),
    {
        let r = IdentifierCollection { ids: Vec::new() };
        assert(r@ =~= Seq::<Seq<char>>::empty());
        r
    }

    /// The collection holding exactly the identifiers named `names`.
    pub fn from_names(names: &[&str]) -> (r: IdentifierCollection)
        ensures
            forall|t: Seq<char>| r@.contains(t) <==> exists|k: int| 0 <= k < names@.len() && #[trigger] names@[k]@ == t,
    {
        let mut r = IdentifierCollection::new();
        let mut k: usize = 0;
        while k < names.len()
            invariant
                0 <= k <= names@.len(),
                forall|t: Seq<char>| r@.contains(t) <==> exists|j: int| 0 <= j < k && #[trigger] names@[j]@ == t,
            decreases names@.len() - k,
        {
            r.insert(Identifier(names[k].to_owned()));
            proof {
                assert forall|t: Seq<char>| r@.contains(t) <==> exists|j: int| 0 <= j < k + 1 && #[trigger] names@[j]@ == t by {
                    if exists|j: int| 0 <= j < k + 1 && #[trigger] names@[j]@ == t {
                        let j = choose|j: int| 0 <= j < k + 1 && #[trigger] names@[j]@ == t;
                        if j < k {
                            assert(exists|j2: int| 0 <= j2 < k && #[trigger] names@[j2]@ == t);
                        }
                    }
                }
            }
            k += 1;
        }
        r
    }

    /// The identifiers, in ascending order.
    pub fn identifiers(&self) -> (r: &Vec<Identifier>)
        ensures
            r@.map_values(|i: Identifier| i@) == self@,
    {
        &self.ids
    }

    /// Adds `identifier`; gives whether it was new.
    pub fn insert(&mut self, identifier: Identifier) -> (r: bool)
        ensures
            r == !old(self)@.contains(identifier@),
            forall|t: Seq<char>| final(self)@.contains(t) <==> (old(self)@.contains(t) || t == identifier@),
    {
        proof {
            use_type_invariant(&*self);
        }
        let mut v: Vec<Identifier> = Vec::new();
        std::mem::swap(&mut v, &mut self.ids);
        let ghost views = v@.map_values(|i: Identifier| i@);
        let mut i: usize = 0;
        while i < v.len() && text_less(v[i].0.as_str(), identifier.0.as_str())
            invariant
                views == v@.map_values(|i: Identifier| i@),
                strictly_ascending(views),
                0 <= i <= v@.len(),
                forall|j: int| 0 <= j < i ==> text_lt(#[trigger] views[j], identifier@),
            decreases v@.len() - i,
        {
            i += 1;
        }
        if i < v.len() && v[i].0 == identifier.0 {
            assert(views[i as int] == identifier@);
            self.ids = v;
            return false;
        }
        let ghost x = identifier@;
        proof {
            if i < v@.len() {
                lemma_text_lt_total(views[i as int], x);
            }
            lemma_insert_ascending(views, i as int, x);
            assert(v@.insert(i as int, identifier).map_values(|i: Identifier| i@) =~= views.insert(i as int, x));
            if views.contains(x) {
                let m = choose|m: int| 0 <= m < views.len() && views[m] == x;
                if m < i {
                    lemma_text_lt_irreflexive(x);
                } else if m > i {
                    assert(text_lt(views[i as int], views[m]));
                    lemma_text_lt_transitive(x, views[i as int], x);
                    lemma_text_lt_irreflexive(x);
                }
            }
        }
        v.insert(i, identifier);
        proof {
            let t = views.insert(i as int, x);
            assert forall|y: Seq<char>| t.contains(y) <==> (views.contains(y) || y == x) by {
                if t.contains(y) {
                    let m = choose|m: int| 0 <= m < t.len() && t[m] == y;
                    if m < i {
                        assert(views[m] == y);
                    } else if m > i {
                        assert(views[m - 1] == y);
                    }
                }
                if views.contains(y) {
                    let m = choose|m: int| 0 <= m < views.len() && views[m] == y;
                    if m < i {
                        assert(t[m] == y);
                    } else {
                        assert(t[m + 1] == y);
                    }
                }
                if y == x {
                    assert(t[i as int] == y);
                }
            }
        }
        self.ids = v;
        true
    }

    /// Whether one of the tags equals `identifier`.
    pub fn contains(&self, identifier: &Identifier) -> (r: bool)
        ensures
            r == self@.contains(identifier@),
    {
        let mut k: usize = 0;
        while k < self.ids.len()
            invariant
                0 <= k <= self@.len(),
                self@ == self.ids@.map_values(|i: Identifier| i@),
                forall|j: int| 0 <= j < k ==> self@[j] != identifier@,
            decreases self@.len() - k,
        {
            if self.ids[k].0 == identifier.0 {
                assert(self@[k as int] == identifier@);
                return true;
            }
            k += 1;
        }
        false
    }
}

/// Something that can be bought: a title and its tags.
#[derive(Debug)]
pub struct Purchase {
    pub title: String,
    pub identifiers: IdentifierCollection,
}

/// Purchases with how many of each were bought.
#[derive(Debug)]
pub struct PurchaseCollection(pub Vec<(Purchase, usize)>);

/// An order of purchases.
#[derive(Debug)]
pub struct Order {
    pub purchases: PurchaseCollection,
}

/// How the tags of an identifier trigger must meet a purchase's tags.
#[derive(Debug, Clone, Copy, PartialEq, Eq)]
pub enum IdentifierCondition {
    NoneOf,
    Any,
    All,
}

/// How two triggers combine.
#[derive(Debug, Clone, Copy, PartialEq, Eq)]
pub enum CombinationCondition {
    Neither,
    ExactlyOne,
    Either,
    Both,
}

/// When a rule applies to a purchase.
#[derive(Debug)]
pub enum RuleTrigger {
    Never,
    Always,
    Title { name: String },
    Identifier { identifiers: IdentifierCollection, condition: IdentifierCondition },
    Combination { a: Box<RuleTrigger>, b: Box<RuleTrigger>, condition: CombinationCondition },
    Not { flipped_rule: Box<RuleTrigger> },
}

/// A business rule: what to do when its trigger applies.
#[derive(Debug)]
pub struct Rule {
    pub title: String,
    pub process_action: String,
    pub trigger: RuleTrigger,
}

/// The form in which titles are compared: lowercase, without surrounding
/// whitespace.
pub open spec fn title_key(s: Seq<char>) -> Seq<char> {
    trimmed(lower_of(s))
}

/// A title in the form in which titles are compared.
pub fn normalized_title(title: &str) -> (r: String)
    ensures
        r@ == title_key(title@),
{
    let lower = lowercase(title);
    trim(lower.as_str())
}

/// Whether `trigger` applies to a purchase with title `title` and tags `ids`.
pub open spec fn triggers(trigger: RuleTrigger, title: Seq<char>, ids: Seq<Seq<char>>) -> bool
    decreases trigger,
{
    match trigger {
        RuleTrigger::Never => false,
        RuleTrigger::Always => true,
        RuleTrigger::Title { name } => title_key(title) == title_key(name@),
        RuleTrigger::Identifier { identifiers, condition } => match condition {
            IdentifierCondition::Any => exists|k: int|
                0 <= k < identifiers@.len() && ids.contains(#[trigger] identifiers@[k]),
            IdentifierCondition::All => forall|k: int|
                0 <= k < identifiers@.len() ==> ids.contains(#[trigger] identifiers@[k]),
            IdentifierCondition::NoneOf => !exists|k: int|
                0 <= k < identifiers@.len() && ids.contains(#[trigger] identifiers@[k]),
        },
        RuleTrigger::Combination { a, b, condition } => match condition {
            CombinationCondition::Neither => !(triggers(*a, title, ids) || triggers(*b, title, ids)),
            CombinationCondition::ExactlyOne => triggers(*a, title, ids) != triggers(*b, title, ids),
            CombinationCondition::Either => triggers(*a, title, ids) || triggers(*b, title, ids),
            CombinationCondition::Both => triggers(*a, title, ids) && triggers(*b, title, ids),
        },
        RuleTrigger::Not { flipped_rule } => !triggers(*flipped_rule, title, ids),
    }
}

/// The process actions of the rules in `rules` that apply to a purchase,
/// in the rules' order.
pub open spec fn triggered_actions(rules: Seq<Rule>, title: Seq<char>, ids: Seq<Seq<char>>) -> Seq<
    Seq<char>,
>
    decreases rules.len(),
{
    if rules.len() == 0 {
        Seq::empty()
    } else {
        triggered_actions(rules.drop_last(), title, ids) + if triggers(
            rules.last().trigger,
            title,
            ids,
        ) {
            seq![rules.last().process_action@]
        } else {
            Seq::empty()
        }
    }
}

impl Purchase {
    /// The process actions of the rules that apply to this purchase, in the
    /// order of `rules`.
    pub fn get_processing_steps(&self, rules: &Vec<Rule>) -> (r: Vec<String>)
        ensures
            r@.map_values(|s: String| s@) == triggered_actions(rules@, self.title@, self.identifiers@),
    {
        let mut steps: Vec<String> = Vec::new();
        let mut k: usize = 0;
        while k < rules.len()
            invariant
                0 <= k <= rules@.len(),
                steps@.map_values(|s: String| s@) == triggered_actions(
                    rules@.subrange(0, k as int),
                    self.title@,
                    self.identifiers@,
                ),
            decreases rules@.len() - k,
        {
            let rule = &rules[k];
            if rule.trigger.triggered_by(self) {
                steps.push(rule.process_action.clone());
            }
            proof {
                let next = rules@.subrange(0, k + 1);
                assert(next.drop_last() =~= rules@.subrange(0, k as int));
                assert(next.last() == rules@[k as int]);
            }
            k += 1;
            assert(steps@.map_values(|s: String| s@) =~= triggered_actions(
                rules@.subrange(0, k as int),
                self.title@,
                self.identifiers@,
            ));
        }
        assert(rules@.subrange(0, rules@.len() as int) =~= rules@);
        steps
    }

    /// Whether this purchase's title equals `other_title`, ignoring case and
    /// surrounding whitespace.
    pub fn title_matches(&self, other_title: &str) -> (r: bool)
        ensures
            r == (title_key(self.title@) == title_key(other_title@)),
    {
        let own = normalized_title(self.title.as_str());
        let other = normalized_title(other_title);
        own == other
    }

    /// Whether this purchase carries `identifier`.
    pub fn has_identifier(&self, identifier: &Identifier) -> (r: bool)
        ensures
            r == self.identifiers@.contains(identifier@),
    {
        self.identifiers.contains(identifier)
    }

    /// This purchase's tags, in ascending order, each once.
    pub fn get_all_identifiers(&self) -> (r: Vec<&Identifier>)
        ensures
            r@.map_values(|i: &Identifier| i@) == self.identifiers@,
            strictly_ascending(r@.map_values(|i: &Identifier| i@)),
            r@.map_values(|i: &Identifier| i@).no_duplicates(),
    {
        proof {
            use_type_invariant(&self.identifiers);
            lemma_ascending_unique(self.identifiers@);
        }
        let ids = self.identifiers.identifiers();
        let mut all: Vec<&Identifier> = Vec::new();
        let mut k: usize = 0;
        while k < ids.len()
            invariant
                ids@.map_values(|i: Identifier| i@) == self.identifiers@,
                0 <= k <= ids@.len(),
                all@.map_values(|i: &Identifier| i@) == self.identifiers@.subrange(0, k as int),
            decreases ids@.len() - k,
        {
            let id = &ids[k];
            proof {
                assert(all@.push(id).map_values(|i: &Identifier| i@) =~= all@.map_values(|i: &Identifier| i@).push(id@));
                assert(ids@.map_values(|i: Identifier| i@)[k as int] == id@);
            }
            all.push(id);
            k += 1;
            assert(all@.map_values(|i: &Identifier| i@) =~= self.identifiers@.subrange(0, k as int));
        }
        assert(self.identifiers@.subrange(0, ids@.len() as int) =~= self.identifiers@);
        all
    }
}

impl RuleTrigger {
    /// Whether this trigger applies to `purchase`.
    pub fn triggered_by(&self, purchase: &Purchase) -> (r: bool)
        ensures
            r == triggers(*self, purchase.title@, purchase.identifiers@),
        decreases self,
    {
        match self {
            RuleTrigger::Never => false,
            RuleTrigger::Always => true,
            RuleTrigger::Title { name } => purchase.title_matches(name.as_str()),
            RuleTrigger::Identifier { identifiers, condition } => {
                let any = any_carried(identifiers, purchase);
                match condition {
                    IdentifierCondition::Any => any,
                    IdentifierCondition::All => all_carried(identifiers, purchase),
                    IdentifierCondition::NoneOf => !any,
                }
            },
            RuleTrigger::Combination { a, b, condition } => {
                let ta = a.triggered_by(purchase);
                let tb = b.triggered_by(purchase);
                match condition {
                    CombinationCondition::Neither => !(ta || tb),
                    CombinationCondition::ExactlyOne => ta != tb,
                    CombinationCondition::Either => ta || tb,
                    CombinationCondition::Both => ta && tb,
                }
            },
            RuleTrigger::Not { flipped_rule } => !flipped_rule.triggered_by(purchase),
        }
    }
}

/// Whether `purchase` carries one of `identifiers`.
fn any_carried(identifiers: &IdentifierCollection, purchase: &Purchase) -> (r: bool)
    ensures
        r == exists|k: int|
            0 <= k < identifiers@.len() && purchase.identifiers@.contains(#[trigger] identifiers@[k]),
{
    let ids = identifiers.identifiers();
    let mut k: usize = 0;
    while k < ids.len()
        invariant
            ids@.map_values(|i: Identifier| i@) == identifiers@,
            0 <= k <= identifiers@.len(),
            forall|j: int| 0 <= j < k ==> !purchase.identifiers@.contains(#[trigger] identifiers@[j]),
        decreases identifiers@.len() - k,
    {
        assert(identifiers@[k as int] == ids@[k as int]@);
        if purchase.has_identifier(&ids[k]) {
            assert(purchase.identifiers@.contains(identifiers@[k as int]));
            return true;
        }
        k += 1;
    }
    false
}

/// Whether `purchase` carries all of `identifiers`.
fn all_carried(identifiers: &IdentifierCollection, purchase: &Purchase) -> (r: bool)
    ensures
        r == forall|k: int|
            0 <= k < identifiers@.len() ==> purchase.identifiers@.contains(#[trigger] identifiers@[k]),
{
    let ids = identifiers.identifiers();
    let mut k: usize = 0;
    while k < ids.len()
        invariant
            ids@.map_values(|i: Identifier| i@) == identifiers@,
            0 <= k <= identifiers@.len(),
            forall|j: int| 0 <= j < k ==> purchase.identifiers@.contains(#[trigger] identifiers@[j]),
        decreases identifiers@.len() - k,
    {
        assert(identifiers@[k as int] == ids@[k as int]@);
        if !purchase.has_identifier(&ids[k]) {
            assert(!purchase.identifiers@.contains(identifiers@[k as int]));
            return false;
        }
        k += 1;
    }
    true
}

/// Something that goes by a name.
pub trait Named {
    /// The name, as a value.
    spec fn name_view(&self) -> Seq<char>;

    /// The name.
    fn name(&self) -> (r: &str)
        ensures
            r@ == self.name_view();
}

impl Named for Purchase {
    open spec fn name_view(&self) -> Seq<char> {
        self.title@
    }

    fn name(&self) -> (r: &str) {
        self.title.as_str()
    }
}

impl Named for Rule {
    open spec fn name_view(&self) -> Seq<char> {
        self.title@
    }

    fn name(&self) -> (r: &str) {
        self.title.as_str()
    }
}

impl Named for Identifier {
    open spec fn name_view(&self) -> Seq<char> {
        self@
    }

    fn name(&self) -> (r: &str) {
        self.0.as_str()
    }
}

/// The trimmed pieces of `s` between semicolons.
pub open spec fn listed_identifiers(s: Seq<char>) -> Seq<Seq<char>> {
    split_pieces(s, ';').map_values(|p: Seq<char>| trimmed(p))
}

/// `ids` without the entries that occur in `parts`, order kept.
pub open spec fn without(ids: Seq<Seq<char>>, parts: Seq<Seq<char>>) -> Seq<Seq<char>>
    decreases ids.len(),
{
    if ids.len() == 0 {
        ids
    } else {
        without(ids.drop_last(), parts) + if parts.contains(ids.last()) {
            Seq::empty()
        } else {
            seq![ids.last()]
        }
    }
}

/// The trimmed pieces of `s` between semicolons, as strings.
fn identifier_list(s: &str) -> (r: Vec<String>)
    ensures
        r@.map_values(|p: String| p@) == listed_identifiers(s@),
{
    let pieces = split_on(&chars_of(s), ';');
    let ghost listed = listed_identifiers(s@);
    let mut parts: Vec<String> = Vec::new();
    let mut k: usize = 0;
    while k < pieces.len()
        invariant
            pieces@.map_values(|p: Vec<char>| p@) == split_pieces(s@, ';'),
            listed == listed_identifiers(s@),
            0 <= k <= pieces@.len(),
            parts@.map_values(|p: String| p@) == listed.subrange(0, k as int),
        decreases pieces@.len() - k,
    {
        let piece = string_of_chars(&pieces[k]);
        let part = trim(piece.as_str());
        proof {
            assert(pieces@.map_values(|p: Vec<char>| p@)[k as int] == pieces@[k as int]@);
            assert(parts@.push(part).map_values(|p: String| p@) =~= parts@.map_values(|p: String| p@).push(part@));
        }
        parts.push(part);
        k += 1;
        assert(parts@.map_values(|p: String| p@) =~= listed.subrange(0, k as int));
    }
    assert(listed.subrange(0, pieces@.len() as int) =~= listed);
    parts
}

/// Adds the identifiers listed in `s`, separated by semicolons and trimmed;
/// empty ones and ones already present are skipped.
pub fn add_from_str(all_identifiers: IdentifierCollection, s: &str) -> (r: IdentifierCollection)
    ensures
        forall|t: Seq<char>| #[trigger] r@.contains(t) <==> (all_identifiers@.contains(t) || (listed_identifiers(
            s@,
        ).contains(t) && t.len() > 0)),
{
    let parts = identifier_list(s);
    let ghost listed = listed_identifiers(s@);
    let ghost before = all_identifiers@;
    let mut all = all_identifiers;
    let mut k: usize = 0;
    while k < parts.len()
        invariant
            parts@.map_values(|p: String| p@) == listed,
            0 <= k <= parts@.len(),
            forall|t: Seq<char>| #[trigger] all@.contains(t) <==> (before.contains(t) || (listed.subrange(
                0,
                k as int,
            ).contains(t) && t.len() > 0)),
        decreases parts@.len() - k,
    {
        let part = &parts[k];
        proof {
            assert(listed[k as int] == part@);
        }
        let ghost prior = all@;
        if !part.as_str().is_empty() {
            all.insert(Identifier(part.clone()));
        }
        proof {
            let now = listed.subrange(0, k + 1);
            let was = listed.subrange(0, k as int);
            assert forall|t: Seq<char>| #[trigger] all@.contains(t) <==> (before.contains(t) || (now.contains(t)
                && t.len() > 0)) by {
                if now.contains(t) {
                    let m = choose|m: int| 0 <= m < now.len() && now[m] == t;
                    if m < k {
                        assert(was[m] == t);
                    }
                }
                if was.contains(t) {
                    let m = choose|m: int| 0 <= m < was.len() && was[m] == t;
                    assert(now[m] == t);
                }
                assert(now[k as int] == part@);
                assert(prior.contains(t) <==> (before.contains(t) || (was.contains(t) && t.len() > 0)));
            }
        }
        k += 1;
    }
    assert(listed.subrange(0, parts@.len() as int) =~= listed);
    all
}

/// The values of a sequence of identifiers.
pub open spec fn id_views(v: Seq<Identifier>) -> Seq<Seq<char>> {
    v.map_values(|i: Identifier| i@)
}

/// Removes the identifiers listed in `s`, separated by semicolons and
/// trimmed; ones not present are skipped.
pub fn remove_from_str(all_identifiers: IdentifierCollection, s: &str) -> (r: IdentifierCollection)
    ensures
        r@ == without(all_identifiers@, listed_identifiers(s@)),
{
    proof {
        use_type_invariant(&all_identifiers);
    }
    let parts = identifier_list(s);
    let ghost listed = listed_identifiers(s@);
    let ids = all_identifiers.identifiers();
    let ghost views = all_identifiers@;
    let mut kept: Vec<Identifier> = Vec::new();
    let mut k: usize = 0;
    while k < ids.len()
        invariant
            parts@.map_values(|p: String| p@) == listed,
            ids@.map_values(|i: Identifier| i@) == views,
            views == all_identifiers@,
            strictly_ascending(views),
            0 <= k <= views.len(),
            id_views(kept@) == without(views.subrange(0, k as int), listed),
            strictly_ascending(id_views(kept@)),
            forall|m: int, j: int|
                0 <= m < kept@.len() && k <= j < views.len() ==> text_lt(
                    #[trigger] id_views(kept@)[m],
                    #[trigger] views[j],
                ),
        decreases views.len() - k,
    {
        let current = &ids[k];
        assert(views[k as int] == current@);
        let mut listed_here = false;
        let mut j: usize = 0;
        while j < parts.len()
            invariant
                parts@.map_values(|p: String| p@) == listed,
                0 <= j <= parts@.len(),
                listed_here == listed.subrange(0, j as int).contains(current@),
            decreases parts@.len() - j,
        {
            proof {
                assert(listed[j as int] == parts@[j as int]@);
                assert(listed.subrange(0, j + 1) =~= listed.subrange(0, j as int).push(listed[j as int]));
            }
            if parts[j] == current.0 {
                listed_here = true;
            }
            proof {
                let before = listed.subrange(0, j as int);
                let next = listed.subrange(0, j + 1);
                if listed[j as int] == current@ {
                    assert(next[j as int] == current@);
                } else if next.contains(current@) {
                    let m = choose|m: int| 0 <= m < next.len() && next[m] == current@;
                    assert(before[m] == current@);
                } else if before.contains(current@) {
                    let m = choose|m: int| 0 <= m < before.len() && before[m] == current@;
                    assert(next[m] == current@);
                }
            }
            j += 1;
        }
        assert(listed.subrange(0, parts@.len() as int) =~= listed);
        proof {
            let prefix = views.subrange(0, k + 1);
            assert(prefix.drop_last() =~= views.subrange(0, k as int));
            assert(prefix.last() == current@);
        }
        let ghost old_kept = id_views(kept@);
        if !listed_here {
            let copy = Identifier(current.0.clone());
            proof {
                assert(id_views(kept@.push(copy)) =~= old_kept.push(copy@));
            }
            kept.push(copy);
            proof {
                let nk = id_views(kept@);
                assert(nk == old_kept.push(current@));
                assert forall|a: int, b: int| 0 <= a < b < nk.len() implies text_lt(#[trigger] nk[a], #[trigger] nk[b]) by {
                    if b < old_kept.len() {
                        assert(nk[a] == old_kept[a] && nk[b] == old_kept[b]);
                    } else {
                        assert(nk[a] == old_kept[a]);
                        assert(text_lt(old_kept[a], views[k as int]));
                    }
                }
                assert forall|m: int, j2: int| 0 <= m < nk.len() && k + 1 <= j2 < views.len() implies text_lt(
                    #[trigger] nk[m],
                    #[trigger] views[j2],
                ) by {
                    if m < old_kept.len() {
                        assert(nk[m] == old_kept[m]);
                    } else {
                        assert(nk[m] == views[k as int]);
                    }
                }
            }
        }
        k += 1;
        assert(id_views(kept@) =~= without(views.subrange(0, k as int), listed));
    }
    assert(views.subrange(0, views.len() as int) =~= views);
    IdentifierCollection { ids: kept }
}

} // verus!
