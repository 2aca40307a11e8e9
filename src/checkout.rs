use std::cmp::Ordering;
use vstd::prelude::*;

verus! {

/// The names of the entries are pairwise distinct.
pub open spec fn unique_names<T>(s: Seq<(String, T)>) -> bool {
    forall|i: int, j: int| 0 <= i < j < s.len() ==> s[i].0@ != s[j].0@
}

/// The entries as a map from name to value.
pub open spec fn entry_map<T>(s: Seq<(String, T)>) -> Map<Seq<char>, T> {
    Map::new(
        |k: Seq<char>| exists|i: int| 0 <= i < s.len() && #[trigger] s[i].0@ == k,
        |k: Seq<char>| s[choose|i: int| 0 <= i < s.len() && #[trigger] s[i].0@ == k].1,
    )
}

proof fn lemma_entry_at<T>(s: Seq<(String, T)>, i: int)
    requires
        unique_names(s),
        0 <= i < s.len(),
    ensures
        entry_map(s).contains_key(s[i].0@),
        entry_map(s)[s[i].0@] == s[i].1,
{
    let k = s[i].0@;
    assert(s[i].0@ == k);
    let j = choose|j: int| 0 <= j < s.len() && #[trigger] s[j].0@ == k;
    if j != i {
        if j < i {
            assert(s[j].0@ != s[i].0@);
        } else {
            assert(s[i].0@ != s[j].0@);
        }
    }
}

proof fn lemma_entry_update<T>(s: Seq<(String, T)>, i: int, v: T)
    requires
        unique_names(s),
        0 <= i < s.len(),
    ensures
        unique_names(s.update(i, (s[i].0, v))),
        entry_map(s.update(i, (s[i].0, v))) == entry_map(s).insert(s[i].0@, v),
{
    let t = s.update(i, (s[i].0, v));
    assert forall|a: int, b: int| 0 <= a < b < t.len() implies t[a].0@ != t[b].0@ by {
        assert(t[a].0@ == s[a].0@);
        assert(t[b].0@ == s[b].0@);
    }
    assert forall|k: Seq<char>| #[trigger] entry_map(t).contains_key(k) == entry_map(s).insert(s[i].0@, v).contains_key(k) by {
        if entry_map(s).contains_key(k) {
            let j = choose|j: int| 0 <= j < s.len() && #[trigger] s[j].0@ == k;
            assert(t[j].0@ == k);
        }
        if entry_map(t).contains_key(k) {
            let j = choose|j: int| 0 <= j < t.len() && #[trigger] t[j].0@ == k;
            assert(s[j].0@ == k);
        }
        assert(t[i].0@ == s[i].0@);
    }
    assert forall|k: Seq<char>| entry_map(t).contains_key(k) implies entry_map(t)[k] == entry_map(s).insert(s[i].0@, v)[k] by {
        let j = choose|j: int| 0 <= j < t.len() && #[trigger] t[j].0@ == k;
        lemma_entry_at(t, j);
        if j != i {
            assert(s[j].0@ == k);
            lemma_entry_at(s, j);
        }
    }
    assert(entry_map(t) =~= entry_map(s).insert(s[i].0@, v));
}

proof fn lemma_entry_push<T>(s: Seq<(String, T)>, name: String, v: T)
    requires
        unique_names(s),
        !entry_map(s).contains_key(name@),
    ensures
        unique_names(s.push((name, v))),
        entry_map(s.push((name, v))) == entry_map(s).insert(name@, v),
{
    let t = s.push((name, v));
    assert forall|a: int, b: int| 0 <= a < b < t.len() implies t[a].0@ != t[b].0@ by {
        if b == s.len() {
            assert(s[a].0@ == t[a].0@);
            if s[a].0@ == name@ {
                assert(entry_map(s).contains_key(name@));
            }
        } else {
            assert(t[a] == s[a] && t[b] == s[b]);
        }
    }
    assert forall|k: Seq<char>| #[trigger] entry_map(t).contains_key(k) == entry_map(s).insert(name@, v).contains_key(k) by {
        if entry_map(s).contains_key(k) {
            let j = choose|j: int| 0 <= j < s.len() && #[trigger] s[j].0@ == k;
            assert(t[j].0@ == k);
        }
        if entry_map(t).contains_key(k) && k != name@ {
            let j = choose|j: int| 0 <= j < t.len() && #[trigger] t[j].0@ == k;
            assert(s[j].0@ == k);
        }
        assert(t[s.len() as int].0@ == name@);
    }
    assert forall|k: Seq<char>| entry_map(t).contains_key(k) implies entry_map(t)[k] == entry_map(s).insert(name@, v)[k] by {
        let j = choose|j: int| 0 <= j < t.len() && #[trigger] t[j].0@ == k;
        lemma_entry_at(t, j);
        if j < s.len() {
            assert(s[j] == t[j]);
            lemma_entry_at(s, j);
        }
    }
    assert(entry_map(t) =~= entry_map(s).insert(name@, v));
}

proof fn lemma_entry_remove<T>(s: Seq<(String, T)>, i: int)
    requires
        unique_names(s),
        0 <= i < s.len(),
    ensures
        unique_names(s.remove(i)),
        entry_map(s.remove(i)) == entry_map(s).remove(s[i].0@),
{
    let t = s.remove(i);
    assert forall|a: int, b: int| 0 <= a < b < t.len() implies t[a].0@ != t[b].0@ by {
        let sa = if a < i { a } else { a + 1 };
        let sb = if b < i { b } else { b + 1 };
        assert(t[a] == s[sa] && t[b] == s[sb]);
    }
    assert forall|k: Seq<char>| #[trigger] entry_map(t).contains_key(k) == entry_map(s).remove(s[i].0@).contains_key(k) by {
        if entry_map(s).contains_key(k) && k != s[i].0@ {
            let j = choose|j: int| 0 <= j < s.len() && #[trigger] s[j].0@ == k;
            let tj = if j < i { j } else { j - 1 };
            assert(t[tj] == s[j]);
        }
        if entry_map(t).contains_key(k) {
            let j = choose|j: int| 0 <= j < t.len() && #[trigger] t[j].0@ == k;
            let sj = if j < i { j } else { j + 1 };
            assert(t[j] == s[sj]);
            assert(sj != i);
        }
    }
    assert forall|k: Seq<char>| entry_map(t).contains_key(k) implies entry_map(t)[k] == entry_map(s).remove(s[i].0@)[k] by {
        let j = choose|j: int| 0 <= j < t.len() && #[trigger] t[j].0@ == k;
        lemma_entry_at(t, j);
        let sj = if j < i { j } else { j + 1 };
        assert(t[j] == s[sj]);
        lemma_entry_at(s, sj);
    }
    assert(entry_map(t) =~= entry_map(s).remove(s[i].0@));
}

/// The position of the entry named `name`, if there is one.
fn position_of<T>(s: &Vec<(String, T)>, name: &String) -> (r: Option<usize>)
    requires
        unique_names(s@),
    ensures
        r matches Some(i) ==> i < s@.len() && s@[i as int].0@ == name@ && entry_map(s@).contains_key(name@)
            && entry_map(s@)[name@] == s@[i as int].1,
        r is None ==> !entry_map(s@).contains_key(name@),
{
    let mut i: usize = 0;
    while i < s.len()
        invariant
            unique_names(s@),
            0 <= i <= s@.len(),
            forall|j: int| 0 <= j < i ==> s@[j].0@ != name@,
        decreases s@.len() - i,
    {
        if s[i].0 == *name {
            proof {
                lemma_entry_at(s@, i as int);
            }
            return Some(i);
        }
        i += 1;
    }
    proof {
        if entry_map(s@).contains_key(name@) {
            let j = choose|j: int| 0 <= j < s@.len() && #[trigger] s@[j].0@ == name@;
            assert(s@[j].0@ == name@);
        }
    }
    None
}

/// An amount of money in the smallest unit.
#[derive(Debug, Clone, Copy, PartialEq, Eq, Structural)]
pub struct UnsignedMoneyValue(pub usize);

/// A price for buying a number of items together.
#[derive(Debug, Clone, Copy, PartialEq, Eq, Structural)]
pub struct Deal {
    pub item_amount: usize,
    pub price_for_amount: UnsignedMoneyValue,
}

/// The price of one item, and a deal if there is one.
#[derive(Debug, Clone, Copy, PartialEq, Eq, Structural)]
pub struct ItemPrice {
    pub unit: UnsignedMoneyValue,
    pub special: Option<Deal>,
}

/// How many of an item the store has.
#[derive(Debug, Clone, Copy, PartialEq, Eq, Structural)]
pub enum StockType {
    Unlimited,
    Limited(usize),
}

/// The order of stock sizes: an unlimited stock exceeds every limited one,
/// and limited ones compare by their amounts.
pub open spec fn stock_order(a: StockType, b: StockType) -> Ordering {
    match (a, b) {
        (StockType::Unlimited, StockType::Unlimited) => Ordering::Equal,
        (StockType::Unlimited, StockType::Limited(_)) => Ordering::Greater,
        (StockType::Limited(_), StockType::Unlimited) => Ordering::Less,
        (StockType::Limited(x), StockType::Limited(y)) => if x < y {
            Ordering::Less
        } else if x == y {
            Ordering::Equal
        } else {
            Ordering::Greater
        },
    }
}

impl PartialOrd for StockType {
    fn partial_cmp(&self, other: &StockType) -> (r: Option<Ordering>)
        ensures
            r == Some(stock_order(*self, *other)),
    {
        match (self, other) {
            (StockType::Unlimited, StockType::Unlimited) => Some(Ordering::Equal),
            (StockType::Unlimited, StockType::Limited(_)) => Some(Ordering::Greater),
            (StockType::Limited(_), StockType::Unlimited) => Some(Ordering::Less),
            (StockType::Limited(x), StockType::Limited(y)) => if *x < *y {
                Some(Ordering::Less)
            } else if *x == *y {
                Some(Ordering::Equal)
            } else {
                Some(Ordering::Greater)
            },
        }
    }
}

impl vstd::std_specs::cmp::PartialOrdSpecImpl for StockType {
    open spec fn obeys_partial_cmp_spec() -> bool {
        true
    }

    open spec fn partial_cmp_spec(&self, other: &StockType) -> Option<Ordering> {
        Some(stock_order(*self, *other))
    }
}

/// What the store knows of an item: its stock and its price.
#[derive(Debug, Clone, Copy, PartialEq, Eq, Structural)]
pub struct ItemData {
    pub stock: StockType,
    pub price: ItemPrice,
}

impl ItemData {
    /// An item in unlimited stock at `cost` a piece, with no deal.
    pub fn basic(cost: usize) -> (r: ItemData)
        ensures
            r == basic_item(cost),
    {
        ItemData {
            stock: StockType::Unlimited,
            price: ItemPrice { unit: UnsignedMoneyValue(cost), special: None },
        }
    }
}

/// An item in unlimited stock at `cost` a piece, with no deal.
pub open spec fn basic_item(cost: usize) -> ItemData {
    ItemData {
        stock: StockType::Unlimited,
        price: ItemPrice { unit: UnsignedMoneyValue(cost), special: None },
    }
}

/// What went wrong with a query, as a value.
pub enum Failure {
    NoContainer,
    MissingItem(Seq<char>),
    MissingStock(Seq<char>, nat),
}

/// Why a query on the store failed.
#[derive(Debug)]
pub enum QueryError {
    /// No checkout is active.
    NoContainer,
    /// The item is not there.
    MissingItem(String),
    /// The item is there, but this many too few of it.
    MissingStock(String, usize),
}

impl View for QueryError {
    type V = Failure;

    open spec fn view(&self) -> Failure {
        match self {
            QueryError::NoContainer => Failure::NoContainer,
            QueryError::MissingItem(name) => Failure::MissingItem(name@),
            QueryError::MissingStock(name, n) => Failure::MissingStock(name@, *n as nat),
        }
    }
}

/// The items being checked out, with how many of each.
#[derive(Debug)]
pub struct Checkout {
    items: Vec<(String, usize)>,
}

impl Checkout {
    /// The checked-out items and their amounts, in the order first scanned.
    pub closed spec fn entries(&self) -> Seq<(Seq<char>, usize)> {
        self.items@.map_values(|e: (String, usize)| (e.0@, e.1))
    }

    /// How many of each item are checked out.
    pub closed spec fn view(&self) -> Map<Seq<char>, usize> {
        entry_map(self.items@)
    }

    /// The checkout's invariant: each item appears once.
    pub closed spec fn wf(&self) -> bool {
        unique_names(self.items@)
    }

    /// How many of `item` are checked out.
    pub fn amount_of(&self, item: &str) -> (r: usize)
        requires
            self.wf(),
        ensures
            r == amount_in(self@, item@),
    {
        match position_of(&self.items, &item.to_owned()) {
            Some(i) => self.items[i].1,
            None => 0,
        }
    }
}

/// How many of `item` the amounts `c` hold; none if it is absent.
pub open spec fn amount_in(c: Map<Seq<char>, usize>, item: Seq<char>) -> nat {
    if c.contains_key(item) {
        c[item] as nat
    } else {
        0
    }
}

/// The outcome of scanning `amount` more of `item`: the new checkout, or why
/// the scan fails.
pub open spec fn scan_result(
    skus: Map<Seq<char>, ItemData>,
    checkout: Option<Map<Seq<char>, usize>>,
    item: Seq<char>,
    amount: nat,
) -> Result<Map<Seq<char>, usize>, Failure> {
    match checkout {
        None => Err(Failure::NoContainer),
        Some(c) => if !skus.contains_key(item) {
            Err(Failure::MissingItem(item))
        } else {
            let combined = amount_in(c, item) + amount;
            match skus[item].stock {
                StockType::Limited(n) => if n < combined {
                    Err(Failure::MissingStock(item, (combined - n) as nat))
                } else {
                    Ok(c.insert(item, combined as usize))
                },
                StockType::Unlimited => Ok(c.insert(item, combined as usize)),
            }
        },
    }
}

/// The outcome of taking `amount` of `item` out of the checkout.
pub open spec fn unscan_result(checkout: Option<Map<Seq<char>, usize>>, item: Seq<char>, amount: nat) -> Result<
    Map<Seq<char>, usize>,
    Failure,
> {
    match checkout {
        None => Err(Failure::NoContainer),
        Some(c) => if !c.contains_key(item) {
            Err(Failure::MissingItem(item))
        } else if c[item] < amount {
            Err(Failure::MissingStock(item, (amount - c[item]) as nat))
        } else if c[item] == amount {
            Ok(c.remove(item))
        } else {
            Ok(c.insert(item, (c[item] - amount) as usize))
        },
    }
}

/// The price of the first `n` checkout entries at unit prices, or the first
/// of them that the store does not know.
pub open spec fn price_result(entries: Seq<(Seq<char>, usize)>, skus: Map<Seq<char>, ItemData>, n: int) -> Result<
    nat,
    Failure,
>
    decreases n,
{
    if n <= 0 {
        Ok(0)
    } else {
        match price_result(entries, skus, n - 1) {
            Err(e) => Err(e),
            Ok(total) => {
                let (name, amount) = entries[n - 1];
                if skus.contains_key(name) {
                    Ok((total + amount * skus[name].price.unit.0) as nat)
                } else {
                    Err(Failure::MissingItem(name))
                }
            },
        }
    }
}

/// A failure in the first `k` entries stays the outcome; a total of all
/// entries bounds the totals of the shorter prefixes.
proof fn lemma_price_prefix(entries: Seq<(Seq<char>, usize)>, skus: Map<Seq<char>, ItemData>, k: int, n: int)
    requires
        0 <= k <= n,
    ensures
        price_result(entries, skus, k) is Err ==> price_result(entries, skus, n) == price_result(entries, skus, k),
        price_result(entries, skus, n) matches Ok(t) ==> price_result(entries, skus, k) matches Ok(u) && u <= t,
    decreases n - k,
{
    if k < n {
        lemma_price_prefix(entries, skus, k, n - 1);
    }
}

/// A store: the items it sells and the checkout in progress, if any.
#[derive(Debug)]
pub struct Store {
    stock_keeping_units: Vec<(String, ItemData)>,
    active_checkout: Option<Checkout>,
}

/// The stock built from `(name, cost)` pairs, a later pair for a name
/// replacing an earlier one.
pub open spec fn priced_skus(pairs: Seq<(Seq<char>, usize)>) -> Map<Seq<char>, ItemData>
    decreases pairs.len(),
{
    if pairs.len() == 0 {
        Map::empty()
    } else {
        priced_skus(pairs.drop_last()).insert(pairs.last().0, basic_item(pairs.last().1))
    }
}

impl Store {
    /// The items the store sells.
    pub closed spec fn skus(&self) -> Map<Seq<char>, ItemData> {
        entry_map(self.stock_keeping_units@)
    }

    /// The amounts in the active checkout, if one is active.
    pub closed spec fn checkout(&self) -> Option<Map<Seq<char>, usize>> {
        match self.active_checkout {
            Some(c) => Some(c@),
            None => None,
        }
    }

    /// The entries of the active checkout, in the order first scanned.
    pub closed spec fn checkout_entries(&self) -> Seq<(Seq<char>, usize)> {
        match self.active_checkout {
            Some(c) => c.entries(),
            None => Seq::empty(),
        }
    }

    /// The store's invariant: each item is listed once, in the stock and in
    /// the checkout.
    pub closed spec fn wf(&self) -> bool {
        &&& unique_names(self.stock_keeping_units@)
        &&& self.active_checkout matches Some(c) ==> c.wf()
    }

    /// A store selling each named item in unlimited stock at its cost; a
    /// later pair for a name replaces an earlier one.
    pub fn from_prices(items: Vec<(String, usize)>) -> (r: Store)
        ensures
            r.wf(),
            r.skus() == priced_skus(items@.map_values(|e: (String, usize)| (e.0@, e.1))),
            r.checkout() is None,
    {
        let ghost pairs = items@.map_values(|e: (String, usize)| (e.0@, e.1));
        let mut skus: Vec<(String, ItemData)> = Vec::new();
        let mut k: usize = 0;
        while k < items.len()
            invariant
                pairs == items@.map_values(|e: (String, usize)| (e.0@, e.1)),
                0 <= k <= items@.len(),
                unique_names(skus@),
                entry_map(skus@) == priced_skus(pairs.subrange(0, k as int)),
            decreases items@.len() - k,
        {
            let name = items[k].0.clone();
            let data = ItemData::basic(items[k].1);
            proof {
                let next = pairs.subrange(0, k + 1);
                assert(next.drop_last() =~= pairs.subrange(0, k as int));
                assert(next.last() == (name@, items@[k as int].1));
            }
            match position_of(&skus, &name) {
                Some(i) => {
                    proof {
                        lemma_entry_update(skus@, i as int, data);
                    }
                    let old_name = skus[i].0.clone();
                    assert(skus@.update(i as int, (old_name, data)) == skus@.update(i as int, (skus@[i as int].0, data))) by {
                        assert(old_name@ == skus@[i as int].0@);
                    };
                    skus.set(i, (old_name, data));
                },
                None => {
                    proof {
                        lemma_entry_push(skus@, name, data);
                    }
                    skus.push((name, data));
                },
            }
            k += 1;
        }
        assert(pairs.subrange(0, items@.len() as int) =~= pairs);
        Store { stock_keeping_units: skus, active_checkout: None }
    }

    /// An empty store with no checkout.
    pub fn new() -> (r: Store)
        ensures
            r.wf(),
            r.skus() == Map::<Seq<char>, ItemData>::empty(),
            r.checkout() is None,
    {
        let r = Store { stock_keeping_units: Vec::new(), active_checkout: None };
        assert(entry_map(r.stock_keeping_units@) =~= Map::<Seq<char>, ItemData>::empty());
        r
    }

    /// Starts a new, empty checkout, replacing any active one.
    pub fn begin_checkout(&mut self)
        requires
            old(self).wf(),
        ensures
            final(self).wf(),
            final(self).skus() == old(self).skus(),
            final(self).checkout() == Some(Map::<Seq<char>, usize>::empty()),
            final(self).checkout_entries() == Seq::<(Seq<char>, usize)>::empty(),
    {
        let c = Checkout { items: Vec::new() };
        assert(entry_map(c.items@) =~= Map::<Seq<char>, usize>::empty());
        assert(c.entries() =~= Seq::<(Seq<char>, usize)>::empty());
        self.active_checkout = Some(c);
    }

    /// Ends the active checkout and hands it over.
    pub fn complete_checkout(&mut self) -> (r: Option<Checkout>)
        requires
            old(self).wf(),
        ensures
            final(self).wf(),
            final(self).skus() == old(self).skus(),
            final(self).checkout() is None,
            r is None <==> old(self).checkout() is None,
            r matches Some(c) ==> c.wf() && old(self).checkout() == Some(c@) && old(self).checkout_entries()
                == c.entries(),
    {
        self.active_checkout.take()
    }

    /// Starts selling `item`; if it is already sold, nothing changes and the
    /// name is handed back.
    pub fn add_item(&mut self, item: String, data: ItemData) -> (r: Option<String>)
        requires
            old(self).wf(),
        ensures
            final(self).wf(),
            final(self).checkout() == old(self).checkout(),
            final(self).checkout_entries() == old(self).checkout_entries(),
            old(self).skus().contains_key(item@) ==> r == Some(item) && final(self).skus() == old(self).skus(),
            !old(self).skus().contains_key(item@) ==> r is None && final(self).skus() == old(self).skus().insert(
                item@,
                data,
            ),
    {
        match position_of(&self.stock_keeping_units, &item) {
            Some(_) => Some(item),
            None => {
                proof {
                    lemma_entry_push(self.stock_keeping_units@, item, data);
                }
                self.stock_keeping_units.push((item, data));
                None
            },
        }
    }

    /// Stops selling `item`, handing back its name and data if it was sold.
    pub fn remove_item(&mut self, item: &str) -> (r: Option<(String, ItemData)>)
        requires
            old(self).wf(),
        ensures
            final(self).wf(),
            final(self).checkout() == old(self).checkout(),
            final(self).checkout_entries() == old(self).checkout_entries(),
            final(self).skus() == old(self).skus().remove(item@),
            r is None <==> !old(self).skus().contains_key(item@),
            r matches Some(e) ==> e.0@ == item@ && e.1 == old(self).skus()[item@],
    {
        match position_of(&self.stock_keeping_units, &item.to_owned()) {
            Some(i) => {
                proof {
                    lemma_entry_remove(self.stock_keeping_units@, i as int);
                }
                Some(self.stock_keeping_units.remove(i))
            },
            None => {
                assert(self.skus().remove(item@) =~= self.skus());
                None
            },
        }
    }

    /// Scans `amount` more of `item` into the active checkout, if the item
    /// is sold and its stock holds the new total.
    pub fn scan_multiple(&mut self, item: &str, amount: usize) -> (r: Result<(), QueryError>)
        requires
            old(self).wf(),
            old(self).checkout() matches Some(c) ==> amount_in(c, item@) + amount <= usize::MAX,
        ensures
            final(self).wf(),
            final(self).skus() == old(self).skus(),
            match scan_result(old(self).skus(), old(self).checkout(), item@, amount as nat) {
                Ok(c) => r is Ok && final(self).checkout() == Some(c),
                Err(e) => r matches Err(q) && q@ == e && final(self).checkout() == old(self).checkout(),
            },
    {
        let name = item.to_owned();
        let mut checkout = match self.active_checkout.take() {
            Some(c) => c,
            None => {
                return Err(QueryError::NoContainer);
            },
        };
        let si = match position_of(&self.stock_keeping_units, &name) {
            Some(i) => i,
            None => {
                self.active_checkout = Some(checkout);
                return Err(QueryError::MissingItem(name));
            },
        };
        let ci = position_of(&checkout.items, &name);
        let current = match ci {
            Some(i) => checkout.items[i].1,
            None => 0,
        };
        let combined = current + amount;
        if let StockType::Limited(stock) = self.stock_keeping_units[si].1.stock {
            if stock < combined {
                self.active_checkout = Some(checkout);
                return Err(QueryError::MissingStock(name, combined - stock));
            }
        }
        match ci {
            Some(i) => {
                let entry_name = checkout.items[i].0.clone();
                proof {
                    lemma_entry_update(checkout.items@, i as int, combined);
                    assert(checkout.items@.update(i as int, (entry_name, combined)) == checkout.items@.update(
                        i as int,
                        (checkout.items@[i as int].0, combined),
                    )) by {
                        assert(entry_name@ == checkout.items@[i as int].0@);
                    }
                }
                checkout.items.set(i, (entry_name, combined));
            },
            None => {
                proof {
                    lemma_entry_push(checkout.items@, name, combined);
                }
                checkout.items.push((name, combined));
            },
        }
        self.active_checkout = Some(checkout);
        Ok(())
    }

    /// Scans one more of `item`.
    pub fn scan(&mut self, item: &str) -> (r: Result<(), QueryError>)
        requires
            old(self).wf(),
            old(self).checkout() matches Some(c) ==> amount_in(c, item@) + 1 <= usize::MAX,
        ensures
            final(self).wf(),
            final(self).skus() == old(self).skus(),
            match scan_result(old(self).skus(), old(self).checkout(), item@, 1) {
                Ok(c) => r is Ok && final(self).checkout() == Some(c),
                Err(e) => r matches Err(q) && q@ == e && final(self).checkout() == old(self).checkout(),
            },
    {
        self.scan_multiple(item, 1)
    }

    /// Takes `amount` of `item` out of the active checkout; the entry goes
    /// when none are left.
    pub fn unscan_multiple(&mut self, item: &str, amount: usize) -> (r: Result<(), QueryError>)
        requires
            old(self).wf(),
        ensures
            final(self).wf(),
            final(self).skus() == old(self).skus(),
            match unscan_result(old(self).checkout(), item@, amount as nat) {
                Ok(c) => r is Ok && final(self).checkout() == Some(c),
                Err(e) => r matches Err(q) && q@ == e && final(self).checkout() == old(self).checkout(),
            },
    {
        let name = item.to_owned();
        let mut checkout = match self.active_checkout.take() {
            Some(c) => c,
            None => {
                return Err(QueryError::NoContainer);
            },
        };
        let i = match position_of(&checkout.items, &name) {
            Some(i) => i,
            None => {
                self.active_checkout = Some(checkout);
                return Err(QueryError::MissingItem(name));
            },
        };
        let have = checkout.items[i].1;
        if have < amount {
            self.active_checkout = Some(checkout);
            return Err(QueryError::MissingStock(name, amount - have));
        } else if have == amount {
            proof {
                lemma_entry_remove(checkout.items@, i as int);
            }
            checkout.items.remove(i);
        } else {
            let entry_name = checkout.items[i].0.clone();
            proof {
                lemma_entry_update(checkout.items@, i as int, (have - amount) as usize);
                assert(checkout.items@.update(i as int, (entry_name, (have - amount) as usize))
                    == checkout.items@.update(i as int, (checkout.items@[i as int].0, (have - amount) as usize))) by {
                    assert(entry_name@ == checkout.items@[i as int].0@);
                }
            }
            checkout.items.set(i, (entry_name, have - amount));
        }
        self.active_checkout = Some(checkout);
        Ok(())
    }

    /// Takes one of `item` out of the active checkout.
    pub fn unscan(&mut self, item: &str) -> (r: Result<(), QueryError>)
        requires
            old(self).wf(),
        ensures
            final(self).wf(),
            final(self).skus() == old(self).skus(),
            match unscan_result(old(self).checkout(), item@, 1) {
                Ok(c) => r is Ok && final(self).checkout() == Some(c),
                Err(e) => r matches Err(q) && q@ == e && final(self).checkout() == old(self).checkout(),
            },
    {
        self.unscan_multiple(item, 1)
    }

    /// The price of the active checkout at unit prices.
    pub fn get_checkout_price(&self) -> (r: Result<UnsignedMoneyValue, QueryError>)
        requires
            self.wf(),
            price_result(self.checkout_entries(), self.skus(), self.checkout_entries().len() as int) matches Ok(
                t,
            ) ==> t <= usize::MAX,
        ensures
            self.checkout() is None ==> (r matches Err(q) && q@ == Failure::NoContainer),
            self.checkout() is Some ==> match price_result(
                self.checkout_entries(),
                self.skus(),
                self.checkout_entries().len() as int,
            ) {
                Ok(t) => r matches Ok(v) && v.0 == t,
                Err(e) => r matches Err(q) && q@ == e,
            },
    {
        let checkout = match &self.active_checkout {
            Some(c) => c,
            None => {
                return Err(QueryError::NoContainer);
            },
        };
        let ghost entries = self.checkout_entries();
        let ghost n = entries.len() as int;
        let mut k: usize = 0;
        while k < checkout.items.len()
            invariant
                self.wf(),
                self.active_checkout == Some(*checkout),
                entries == self.checkout_entries(),
                entries == checkout.items@.map_values(|e: (String, usize)| (e.0@, e.1)),
                n == entries.len(),
                0 <= k <= n,
                price_result(entries, self.skus(), k as int) is Ok,
            decreases n - k,
        {
            let name = &checkout.items[k].0;
            assert(entries[k as int].0 == name@);
            if position_of(&self.stock_keeping_units, name).is_none() {
                proof {
                    lemma_price_prefix(entries, self.skus(), k + 1, n);
                }
                return Err(QueryError::MissingItem(name.clone()));
            }
            k += 1;
        }
        let mut total: usize = 0;
        let mut k: usize = 0;
        while k < checkout.items.len()
            invariant
                self.wf(),
                self.active_checkout == Some(*checkout),
                entries == self.checkout_entries(),
                entries == checkout.items@.map_values(|e: (String, usize)| (e.0@, e.1)),
                n == entries.len(),
                0 <= k <= n,
                price_result(entries, self.skus(), n) matches Ok(t) && t <= usize::MAX,
                price_result(entries, self.skus(), k as int) == Ok::<nat, Failure>(total as nat),
            decreases n - k,
        {
            let name = &checkout.items[k].0;
            let amount = checkout.items[k].1;
            assert(entries[k as int] == (name@, amount));
            proof {
                lemma_price_prefix(entries, self.skus(), k + 1, n);
            }
            match position_of(&self.stock_keeping_units, name) {
                Some(i) => {
                    let unit = self.stock_keeping_units[i].1.price.unit.0;
                    total = total + amount * unit;
                },
                None => {
                    return Err(QueryError::MissingItem(name.clone()));
                },
            }
            k += 1;
        }
        Ok(UnsignedMoneyValue(total))
    }

    /// Takes every one of `item` out of the active checkout, giving how many
    /// there were.
    pub fn unscan_all(&mut self, item: &str) -> (r: Result<usize, QueryError>)
        requires
            old(self).wf(),
        ensures
            final(self).wf(),
            final(self).skus() == old(self).skus(),
            match old(self).checkout() {
                None => r matches Err(q) && q@ == Failure::NoContainer && final(self).checkout() is None,
                Some(c) => if c.contains_key(item@) {
                    r == Ok::<usize, QueryError>(c[item@]) && final(self).checkout() == Some(c.remove(item@))
                } else {
                    r matches Err(q) && q@ == Failure::MissingItem(item@) && final(self).checkout() == Some(c)
                },
            },
    {
        let name = item.to_owned();
        let mut checkout = match self.active_checkout.take() {
            Some(c) => c,
            None => {
                return Err(QueryError::NoContainer);
            },
        };
        match position_of(&checkout.items, &name) {
            Some(i) => {
                proof {
                    lemma_entry_remove(checkout.items@, i as int);
                }
                let (_, amount) = checkout.items.remove(i);
                self.active_checkout = Some(checkout);
                Ok(amount)
            },
            None => {
                self.active_checkout = Some(checkout);
                Err(QueryError::MissingItem(name))
            },
        }
    }
}

} // verus!
