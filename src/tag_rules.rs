use crate::text::{lemma_ascending_unique, lemma_insert_ascending, lemma_text_lt_total, strictly_ascending, text_less, text_lt};
use vstd::prelude::*;

verus! {

pub const GENERATE_SLIP: &'static str = "generate a packing slip for shipping";

pub const DUPLICATE_SLIP: &'static str = "create a duplicate packing slip for the royalty department";

pub const ACTIVATE_MEMBERSHIP: &'static str = "activate that membership";

pub const APPLY_UPGRADE: &'static str = "apply the upgrade";

pub const EMAIL_OWNER: &'static str = "e-mail the owner and inform them of the activation/upgrade";

pub const ADD_FIRST_AID_VIDEO: &'static str =
    "add a free \u{201c}First Aid\u{201d} video to the packing slip (the result of a court decision in 1997)";

pub const GENERATE_COMMISION: &'static str = "generate a commission payment to the agent";

pub const SKI_TITLE: &'static str = "Learning to Ski";

/// A set of tags, kept in ascending order without repeats.
#[derive(Debug)]
pub struct TagCollection {
    tags: Vec<String>,
}

impl TagCollection {
    #[verifier::type_invariant]
    spec fn sorted(self) -> bool {
        strictly_ascending(self.tags@.map_values(|s: String| s@))
    }

    /// The tags, in ascending order.
    pub closed spec fn view(&self) -> Seq<Seq<char>> {
        self.tags@.map_values(|s: String| s@)
    }

    /// An empty collection.
    pub fn new() -> (r: TagCollection)
        ensures
            r@ == Seq::<Seq<char>>::empty(),
    {
        let r = TagCollection { tags: Vec::new() };
        assert(r@ =~= Seq::<Seq<char>>::empty());
        r
    }

    /// Adds `tag`; gives whether it was new.
    pub fn insert(&mut self, tag: String) -> (r: bool)
        ensures
            r == !old(self)@.contains(tag@),
            forall|t: Seq<char>| final(self)@.contains(t) <==> (old(self)@.contains(t) || t == tag@),
    {
        proof {
            use_type_invariant(&*self);
        }
        let mut v: Vec<String> = Vec::new();
        std::mem::swap(&mut v, &mut self.tags);
        let ghost views = v@.map_values(|s: String| s@);
        let mut i: usize = 0;
        while i < v.len() && text_less(v[i].as_str(), tag.as_str())
            invariant
                views == v@.map_values(|s: String| s@),
                strictly_ascending(views),
                0 <= i <= v@.len(),
                forall|j: int| 0 <= j < i ==> text_lt(#[trigger] views[j], tag@),
            decreases v@.len() - i,
        {
            i += 1;
        }
        if i < v.len() && v[i] == tag {
            assert(views[i as int] == tag@);
            self.tags = v;
            return false;
        }
        proof {
            if i < v@.len() {
                lemma_text_lt_total(views[i as int], tag@);
            }
            lemma_insert_ascending(views, i as int, tag@);
            assert(v@.insert(i as int, tag).map_values(|s: String| s@) =~= views.insert(i as int, tag@));
            if views.contains(tag@) {
                let m = choose|m: int| 0 <= m < views.len() && views[m] == tag@;
                if m < i {
                    crate::text::lemma_text_lt_irreflexive(tag@);
                } else if m > i {
                    assert(text_lt(views[i as int], views[m]));
                    crate::text::lemma_text_lt_transitive(tag@, views[i as int], tag@);
                    crate::text::lemma_text_lt_irreflexive(tag@);
                }
            }
        }
        v.insert(i, tag);
        proof {
            let t = views.insert(i as int, tag@);
            assert forall|x: Seq<char>| t.contains(x) <==> (views.contains(x) || x == tag@) by {
                if t.contains(x) {
                    let m = choose|m: int| 0 <= m < t.len() && t[m] == x;
                    if m < i {
                        assert(views[m] == x);
                    } else if m > i {
                        assert(views[m - 1] == x);
                    }
                }
                if views.contains(x) {
                    let m = choose|m: int| 0 <= m < views.len() && views[m] == x;
                    if m < i {
                        assert(t[m] == x);
                    } else {
                        assert(t[m + 1] == x);
                    }
                }
                if x == tag@ {
                    assert(t[i as int] == x);
                }
            }
        }
        self.tags = v;
        true
    }

    /// The collection holding exactly `tags`.
    pub fn from_tags(tags: &[&str]) -> (r: TagCollection)
        ensures
            forall|t: Seq<char>| r@.contains(t) <==> exists|k: int| 0 <= k < tags@.len() && #[trigger] tags@[k]@ == t,
    {
        let mut r = TagCollection::new();
        let mut k: usize = 0;
        while k < tags.len()
            invariant
                0 <= k <= tags@.len(),
                forall|t: Seq<char>| r@.contains(t) <==> exists|j: int| 0 <= j < k && #[trigger] tags@[j]@ == t,
            decreases tags@.len() - k,
        {
            r.insert(tags[k].to_owned());
            proof {
                assert forall|t: Seq<char>| r@.contains(t) <==> exists|j: int| 0 <= j < k + 1 && #[trigger] tags@[j]@ == t by {
                    if exists|j: int| 0 <= j < k + 1 && #[trigger] tags@[j]@ == t {
                        let j = choose|j: int| 0 <= j < k + 1 && #[trigger] tags@[j]@ == t;
                        if j < k {
                            assert(exists|j2: int| 0 <= j2 < k && #[trigger] tags@[j2]@ == t);
                        }
                    }
                }
            }
            k += 1;
        }
        r
    }
}

/// A purchase described by its title and a set of tags.
#[derive(Debug)]
pub struct Purchase {
    pub title: String,
    pub identifiers: TagCollection,
}

/// The tags of a purchase, in ascending order.
pub open spec fn tags_of(p: Purchase) -> Seq<Seq<char>> {
    p.identifiers@
}

/// `step` if `cond` holds, else nothing.
pub open spec fn step_if(cond: bool, step: &str) -> Seq<Seq<char>> {
    if cond {
        seq![step@]
    } else {
        Seq::empty()
    }
}

/// The fixed processing steps for a purchase with title `title` and tags
/// `tags`, in order.
pub open spec fn fixed_steps(title: Seq<char>, tags: Seq<Seq<char>>) -> Seq<Seq<char>> {
    step_if(tags.contains("physical"@), GENERATE_SLIP) + step_if(tags.contains("book"@), DUPLICATE_SLIP)
        + step_if(tags.contains("membership"@), ACTIVATE_MEMBERSHIP) + step_if(
        tags.contains("membership_upgrade"@),
        APPLY_UPGRADE,
    ) + step_if(
        tags.contains("membership"@) || tags.contains("membership_upgrade"@),
        EMAIL_OWNER,
    ) + step_if(tags.contains("video"@) && title == SKI_TITLE@, ADD_FIRST_AID_VIDEO) + step_if(
        tags.contains("physical"@) || tags.contains("book"@),
        GENERATE_COMMISION,
    )
}

/// Appends `step` to `steps` when `cond` holds.
fn push_step_if(steps: &mut Vec<&'static str>, cond: bool, step: &'static str)
    ensures
        final(steps)@.map_values(|s: &str| s@) == old(steps)@.map_values(|s: &str| s@) + step_if(
            cond,
            step,
        ),
{
    if cond {
        steps.push(step);
    }
    assert(steps@.map_values(|s: &str| s@) =~= old(steps)@.map_values(|s: &str| s@) + step_if(
        cond,
        step,
    ));
}

impl Purchase {
    /// The processing steps that the fixed rules give for this purchase.
    pub fn get_processing_steps(&self) -> (r: Vec<&'static str>)
        ensures
            r@.map_values(|s: &str| s@) == fixed_steps(self.title@, tags_of(*self)),
    {
        let mut steps: Vec<&'static str> = Vec::new();
        let physical = self.has_tag("physical");
        let book = self.has_tag("book");
        let membership = self.has_tag("membership");
        let upgrade = self.has_tag("membership_upgrade");
        let video = self.has_tag("video");
        let ski = self.title == SKI_TITLE.to_owned();
        assert(steps@.map_values(|s: &str| s@) =~= Seq::<Seq<char>>::empty());
        push_step_if(&mut steps, physical, GENERATE_SLIP);
        push_step_if(&mut steps, book, DUPLICATE_SLIP);
        push_step_if(&mut steps, membership, ACTIVATE_MEMBERSHIP);
        push_step_if(&mut steps, upgrade, APPLY_UPGRADE);
        push_step_if(&mut steps, membership || upgrade, EMAIL_OWNER);
        push_step_if(&mut steps, video && ski, ADD_FIRST_AID_VIDEO);
        push_step_if(&mut steps, physical || book, GENERATE_COMMISION);
        steps
    }

    /// Whether this purchase carries the tag `value`.
    pub fn has_tag(&self, value: &str) -> (r: bool)
        ensures
            r == tags_of(*self).contains(value@),
    {
        let wanted = value.to_owned();
        let mut k: usize = 0;
        while k < self.identifiers.tags.len()
            invariant
                wanted@ == value@,
                0 <= k <= self.identifiers.tags@.len(),
                tags_of(*self) == self.identifiers.tags@.map_values(|s: String| s@),
                forall|j: int| 0 <= j < k ==> tags_of(*self)[j] != value@,
            decreases self.identifiers.tags@.len() - k,
        {
            if self.identifiers.tags[k] == wanted {
                assert(tags_of(*self)[k as int] == value@);
                return true;
            }
            k += 1;
        }
        false
    }

    /// Whether this purchase carries at least one of `values`.
    pub fn has_any_tags(&self, values: &[&str]) -> (r: bool)
        ensures
            r == exists|k: int| 0 <= k < values@.len() && tags_of(*self).contains(#[trigger] values@[k]@),
    {
        let mut k: usize = 0;
        while k < values.len()
            invariant
                0 <= k <= values@.len(),
                forall|j: int| 0 <= j < k ==> !tags_of(*self).contains(#[trigger] values@[j]@),
            decreases values@.len() - k,
        {
            if self.has_tag(values[k]) {
                return true;
            }
            k += 1;
        }
        false
    }

    /// Whether this purchase carries every one of `values`.
    pub fn has_all_tags(&self, values: &[&str]) -> (r: bool)
        ensures
            r == forall|k: int| 0 <= k < values@.len() ==> tags_of(*self).contains(#[trigger] values@[k]@),
    {
        let mut k: usize = 0;
        while k < values.len()
            invariant
                0 <= k <= values@.len(),
                forall|j: int| 0 <= j < k ==> tags_of(*self).contains(#[trigger] values@[j]@),
            decreases values@.len() - k,
        {
            if !self.has_tag(values[k]) {
                return false;
            }
            k += 1;
        }
        true
    }

    /// This purchase's tags, in ascending order, each once.
    pub fn get_all_tags(&self) -> (r: Vec<&str>)
        ensures
            r@.map_values(|s: &str| s@) == tags_of(*self),
            strictly_ascending(r@.map_values(|s: &str| s@)),
            r@.map_values(|s: &str| s@).no_duplicates(),
    {
        proof {
            use_type_invariant(&self.identifiers);
            lemma_ascending_unique(self.identifiers@);
        }
        let tags = &self.identifiers.tags;
        let mut all: Vec<&str> = Vec::new();
        let mut k: usize = 0;
        while k < tags.len()
            invariant
                tags_of(*self) == tags@.map_values(|s: String| s@),
                0 <= k <= tags@.len(),
                all@.map_values(|s: &str| s@) == tags_of(*self).subrange(0, k as int),
            decreases tags@.len() - k,
        {
            let tag = tags[k].as_str();
            proof {
                assert(all@.push(tag).map_values(|s: &str| s@) =~= all@.map_values(|s: &str| s@).push(tag@));
            }
            all.push(tag);
            k += 1;
            assert(all@.map_values(|s: &str| s@) =~= tags_of(*self).subrange(0, k as int));
        }
        assert(tags_of(*self).subrange(0, tags@.len() as int) =~= tags_of(*self));
        all
    }
}

} // verus!
