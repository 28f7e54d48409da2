//! The price-level index: for every item and side, the identifiers of the
//! orders that rest on the book, kept in matching priority.
//!
//! The model of one item and side is a sequence of entries, best price
//! first and, among entries at one price, the earlier arrival first. A price
//! level is the run of entries that share a price.

use vstd::prelude::*;
use std::collections::HashMap;
use crate::amount::Amount;
use crate::dto::OrderSide;

verus! {

/// One order resting on the book: the price it rests at and its identifier.
#[derive(Debug, Clone, Copy, PartialEq, Eq)]
pub struct Resting {
    pub price: Amount,
    pub id: u128,
}

/// Whether price `a` is strictly worse than price `b` for an order that
/// rests on `side`: a higher ask, a lower bid.
pub open spec fn worse(side: OrderSide, a: Amount, b: Amount) -> bool {
    match side {
        OrderSide::Sell => a.units > b.units,
        OrderSide::Buy => a.units < b.units,
    }
}

/// Where a new entry at `price` lands in `seq`, searching from `from`: in
/// front of the first entry whose price is strictly worse, so behind all
/// entries at the same price.
pub open spec fn landing(seq: Seq<Resting>, side: OrderSide, price: Amount, from: int) -> int
    decreases seq.len() - from,
{
    if from >= seq.len() || worse(side, seq[from].price, price) {
        from
    } else {
        landing(seq, side, price, from + 1)
    }
}

/// Whether entries are in price priority for `side`: no entry has a worse
/// price than one behind it.
pub open spec fn ordered(seq: Seq<Resting>, side: OrderSide) -> bool {
    forall|i: int, j: int| 0 <= i < j < seq.len() ==> !worse(side, #[trigger] seq[i].price, #[trigger] seq[j].price)
}

/// Whether every entry of `sub` is one of the first `n` entries of `seq`.
pub open spec fn drawn(sub: Seq<Resting>, seq: Seq<Resting>, n: int) -> bool {
    forall|a: int| 0 <= a < sub.len() ==> exists|j: int| 0 <= j < n && j < seq.len() && seq[j] == #[trigger] sub[a]
}

/// Whether an entry is the one that rests at `price` under `id`.
pub open spec fn is_entry(e: Resting, price: Amount, id: u128) -> bool {
    e.price == price && e.id == id
}

/// `seq` without the entries that rest at `price` under `id`.
pub open spec fn without(seq: Seq<Resting>, price: Amount, id: u128) -> Seq<Resting> {
    seq.filter(|e: Resting| !is_entry(e, price, id))
}

/// The model of the index: per side, a map from item to the item's entries
/// in matching priority. An item without entries has no key.
pub struct IndexView {
    pub buy: Map<u128, Seq<Resting>>,
    pub sell: Map<u128, Seq<Resting>>,
}

impl IndexView {
    /// The index that holds nothing.
    pub open spec fn empty() -> IndexView {
        IndexView { buy: Map::empty(), sell: Map::empty() }
    }

    /// The per-item map of one side.
    pub open spec fn side(self, side: OrderSide) -> Map<u128, Seq<Resting>> {
        match side {
            OrderSide::Buy => self.buy,
            OrderSide::Sell => self.sell,
        }
    }

    /// The entries of one item and side in matching priority; empty where
    /// the item has none.
    pub open spec fn resting(self, item: u128, side: OrderSide) -> Seq<Resting> {
        if self.side(side).contains_key(item) {
            self.side(side)[item]
        } else {
            Seq::empty()
        }
    }

    /// The index with the entries of one item and side replaced; an empty
    /// sequence drops the item's key.
    pub open spec fn put(self, item: u128, side: OrderSide, entries: Seq<Resting>) -> IndexView {
        let m = if entries.len() == 0 {
            self.side(side).remove(item)
        } else {
            self.side(side).insert(item, entries)
        };
        match side {
            OrderSide::Buy => IndexView { buy: m, sell: self.sell },
            OrderSide::Sell => IndexView { buy: self.buy, sell: m },
        }
    }

    /// The index after an order is appended to its price level.
    pub open spec fn insert(self, item: u128, side: OrderSide, price: Amount, id: u128) -> IndexView {
        let seq = self.resting(item, side);
        self.put(item, side, seq.insert(landing(seq, side, price, 0), Resting { price, id }))
    }

    /// The index after an order is taken out of its price level.
    pub open spec fn remove(self, item: u128, side: OrderSide, price: Amount, id: u128) -> IndexView {
        self.put(item, side, without(self.resting(item, side), price, id))
    }

    /// The best resting price of one item and side: the price of the entry
    /// that matches first.
    pub open spec fn best(self, item: u128, side: OrderSide) -> Option<Amount> {
        let seq = self.resting(item, side);
        if seq.len() > 0 {
            Some(seq[0].price)
        } else {
            None
        }
    }

    /// Whether every item and side has its entries in price priority: the
    /// invariant of the index, which [`PriceLevelIndex::new`] sets up and
    /// inserting and removing orders keep.
    pub open spec fn well_ordered(self) -> bool {
        forall|item: u128, side: OrderSide| ordered(#[trigger] self.resting(item, side), side)
    }

    /// Whether an order rests under `id` on the given item and side.
    pub open spec fn holds(self, item: u128, side: OrderSide, id: u128) -> bool {
        exists|i: int| 0 <= i < self.resting(item, side).len() && #[trigger] self.resting(item, side)[i].id == id
    }
}

/// The model of one side's map.
pub open spec fn side_view(m: HashMap<u128, Vec<Resting>>) -> Map<u128, Seq<Resting>> {
    Map::new(|item: u128| m@.contains_key(item), |item: u128| m@[item]@)
}

/// The price-level index of a book.
pub struct PriceLevelIndex {
    buy: HashMap<u128, Vec<Resting>>,
    sell: HashMap<u128, Vec<Resting>>,
}

impl View for PriceLevelIndex {
    type V = IndexView;

    closed spec fn view(&self) -> IndexView {
        IndexView { buy: side_view(self.buy), sell: side_view(self.sell) }
    }
}

/// Whether price `a` is strictly worse than `b` on `side`.
fn is_worse(side: OrderSide, a: Amount, b: Amount) -> (r: bool)
    ensures
        r == worse(side, a, b),
{
    match side {
        OrderSide::Sell => a.units > b.units,
        OrderSide::Buy => a.units < b.units,
    }
}

/// Copies the entries of one item out of a side's map.
fn side_entries(m: &HashMap<u128, Vec<Resting>>, item: u128) -> (r: Vec<Resting>)
    ensures
        r@ == if side_view(*m).contains_key(item) { side_view(*m)[item] } else { Seq::empty() },
{
    let mut out: Vec<Resting> = Vec::new();
    match m.get(&item) {
        Some(v) => {
            let mut i: usize = 0;
            while i < v.len()
                invariant
                    0 <= i <= v.len(),
                    out@ == v@.take(i as int),
                decreases v.len() - i,
            {
                out.push(v[i]);
                i += 1;
                assert(out@ =~= v@.take(i as int));
            }
            assert(v@.take(v.len() as int) =~= v@);
        },
        None => {},
    }
    out
}

/// Takes the entries of one item out of a side's map.
fn side_take(m: &mut HashMap<u128, Vec<Resting>>, item: u128) -> (r: Vec<Resting>)
    ensures
        r@ == if side_view(*old(m)).contains_key(item) { side_view(*old(m))[item] } else { Seq::empty() },
        side_view(*final(m)) == side_view(*old(m)).remove(item),
{
    let taken = m.remove(&item);
    assert(side_view(*m) =~= side_view(*old(m)).remove(item));
    match taken {
        Some(entries) => entries,
        None => Vec::new(),
    }
}

/// Replaces the entries of one item in a side's map.
fn side_put(m: &mut HashMap<u128, Vec<Resting>>, item: u128, entries: Vec<Resting>)
    ensures
        side_view(*final(m)) == if entries@.len() == 0 {
            side_view(*old(m)).remove(item)
        } else {
            side_view(*old(m)).insert(item, entries@)
        },
{
    if entries.len() == 0 {
        m.remove(&item);
        assert(side_view(*m) =~= side_view(*old(m)).remove(item));
    } else {
        m.insert(item, entries);
        assert(side_view(*m) =~= side_view(*old(m)).insert(item, entries@));
    }
}

impl PriceLevelIndex {
    /// An index without entries.
    pub fn new() -> (r: PriceLevelIndex)
        ensures
            r@ == IndexView::empty(),
            r@.well_ordered(),
    {
        let r = PriceLevelIndex { buy: HashMap::new(), sell: HashMap::new() };
        assert(r@.buy =~= Map::<u128, Seq<Resting>>::empty());
        assert(r@.sell =~= Map::<u128, Seq<Resting>>::empty());
        r
    }

    /// The entries of one item and side in matching priority: best price
    /// first, and within a price the earlier arrival first.
    pub fn walk(&self, item: u128, side: OrderSide) -> (r: Vec<Resting>)
        ensures
            r@ == self@.resting(item, side),
    {
        match side {
            OrderSide::Buy => side_entries(&self.buy, item),
            OrderSide::Sell => side_entries(&self.sell, item),
        }
    }

    /// Takes the entries of one item and side out of the index.
    fn take(&mut self, item: u128, side: OrderSide) -> (r: Vec<Resting>)
        ensures
            r@ == old(self)@.resting(item, side),
            final(self)@ == old(self)@.put(item, side, Seq::empty()),
            old(self)@.well_ordered() ==> final(self)@.well_ordered(),
    {
        proof {
            lemma_put_well_ordered(old(self)@, item, side, Seq::empty());
        }
        match side {
            OrderSide::Buy => side_take(&mut self.buy, item),
            OrderSide::Sell => side_take(&mut self.sell, item),
        }
    }

    /// Replaces the entries of one item and side; with no entries the item
    /// leaves the side's map.
    pub fn replace(&mut self, item: u128, side: OrderSide, entries: Vec<Resting>)
        ensures
            final(self)@ == old(self)@.put(item, side, entries@),
            old(self)@.well_ordered() && ordered(entries@, side) ==> final(self)@.well_ordered(),
    {
        proof {
            lemma_put_well_ordered(old(self)@, item, side, entries@);
        }
        match side {
            OrderSide::Buy => side_put(&mut self.buy, item, entries),
            OrderSide::Sell => side_put(&mut self.sell, item, entries),
        }
    }

    /// Appends an order to the level of its price, behind the orders that
    /// already rest there; the level is created where there was none.
    pub fn insert(&mut self, item: u128, side: OrderSide, price: Amount, id: u128)
        ensures
            final(self)@ == old(self)@.insert(item, side, price, id),
            old(self)@.well_ordered() ==> final(self)@.well_ordered(),
    {
        proof {
            if old(self)@.well_ordered() {
                lemma_insert_ordered(old(self)@.resting(item, side), side, Resting { price, id });
            }
        }
        let mut entries = self.take(item, side);
        let ghost seq = entries@;
        let mut i: usize = 0;
        while i < entries.len() && !is_worse(side, entries[i].price, price)
            invariant
                0 <= i <= entries.len(),
                entries@ == seq,
                landing(seq, side, price, 0) == landing(seq, side, price, i as int),
            decreases entries.len() - i,
        {
            i += 1;
        }
        entries.insert(i, Resting { price, id });
        self.replace(item, side, entries);
        proof {
            let put = old(self)@.insert(item, side, price, id);
            assert(self@.buy =~= put.buy);
            assert(self@.sell =~= put.sell);
        }
    }

    /// Takes an order out of the level of the given price; a level left
    /// empty is dropped, and so is the map of an item left without levels.
    pub fn remove(&mut self, item: u128, side: OrderSide, price: Amount, id: u128)
        ensures
            final(self)@ == old(self)@.remove(item, side, price, id),
            old(self)@.well_ordered() ==> final(self)@.well_ordered(),
    {
        proof {
            if old(self)@.well_ordered() {
                lemma_without_ordered(old(self)@.resting(item, side), price, id, side);
            }
        }
        let entries = self.take(item, side);
        let ghost keep = |e: Resting| !is_entry(e, price, id);
        let mut kept: Vec<Resting> = Vec::new();
        let mut i: usize = 0;
        assert(entries@.take(0).filter(keep) =~= Seq::<Resting>::empty()) by {
            reveal(Seq::filter);
        }
        while i < entries.len()
            invariant
                0 <= i <= entries.len(),
                keep == |e: Resting| !is_entry(e, price, id),
                kept@ == entries@.take(i as int).filter(keep),
            decreases entries.len() - i,
        {
            let e = entries[i];
            proof {
                reveal(Seq::filter);
                assert(entries@.take(i + 1).drop_last() =~= entries@.take(i as int));
            }
            if !(e.price.units == price.units && e.id == id) {
                kept.push(e);
            }
            i += 1;
        }
        assert(entries@.take(entries.len() as int) =~= entries@);
        self.replace(item, side, kept);
        proof {
            let put = old(self)@.remove(item, side, price, id);
            assert(self@.buy =~= put.buy);
            assert(self@.sell =~= put.sell);
        }
    }

    /// The best resting price of one item and side, if any order rests
    /// there: the highest bid, the lowest ask.
    pub fn best(&self, item: u128, side: OrderSide) -> (r: Option<Amount>)
        ensures
            r == self@.best(item, side),
            self@.well_ordered() ==> forall|i: int|
                0 <= i < self@.resting(item, side).len() ==> r is Some && !worse(
                    side,
                    r->0,
                    #[trigger] self@.resting(item, side)[i].price,
                ),
    {
        proof {
            if self@.well_ordered() {
                lemma_first_is_best(self@.resting(item, side), side);
            }
        }
        let m = match side {
            OrderSide::Buy => &self.buy,
            OrderSide::Sell => &self.sell,
        };
        match m.get(&item) {
            Some(v) => if v.len() > 0 {
                Some(v[0].price)
            } else {
                None
            },
            None => None,
        }
    }
}

/// Where a new entry lands: behind every entry whose price is not worse
/// than its own, and in front of one whose price is.
pub proof fn lemma_landing(seq: Seq<Resting>, side: OrderSide, price: Amount, from: int)
    requires
        0 <= from <= seq.len(),
    ensures
        from <= landing(seq, side, price, from) <= seq.len(),
        forall|j: int| from <= j < landing(seq, side, price, from) ==> !worse(side, #[trigger] seq[j].price, price),
        landing(seq, side, price, from) < seq.len() ==> worse(
            side,
            seq[landing(seq, side, price, from)].price,
            price,
        ),
    decreases seq.len() - from,
{
    if from >= seq.len() || worse(side, seq[from].price, price) {
    } else {
        lemma_landing(seq, side, price, from + 1);
    }
}

/// Inserting an entry where it lands keeps the entries in price priority.
pub proof fn lemma_insert_ordered(seq: Seq<Resting>, side: OrderSide, e: Resting)
    requires
        ordered(seq, side),
    ensures
        ordered(seq.insert(landing(seq, side, e.price, 0), e), side),
{
    let p = landing(seq, side, e.price, 0);
    lemma_landing(seq, side, e.price, 0);
    let grown = seq.insert(p, e);
    assert forall|i: int, j: int| 0 <= i < j < grown.len() implies !worse(
        side,
        #[trigger] grown[i].price,
        #[trigger] grown[j].price,
    ) by {
        if j < p {
            assert(grown[i] == seq[i] && grown[j] == seq[j]);
        } else if j == p {
            assert(grown[i] == seq[i] && grown[j] == e);
        } else if i < p {
            assert(grown[i] == seq[i] && grown[j] == seq[j - 1]);
        } else if i == p {
            assert(grown[i] == e && grown[j] == seq[j - 1]);
            if j - 1 > p {
                assert(!worse(side, seq[p].price, seq[j - 1].price));
            }
        } else {
            assert(grown[i] == seq[i - 1] && grown[j] == seq[j - 1]);
        }
    }
}

/// A sequence that grows by the next entry of the one it is drawn from is
/// drawn from it still.
pub proof fn lemma_push_is_drawn(sub: Seq<Resting>, seq: Seq<Resting>, n: int)
    requires
        0 <= n < seq.len(),
        drawn(sub, seq, n),
    ensures
        drawn(sub.push(seq[n]), seq, n + 1),
        drawn(sub, seq, n + 1),
{
    let grown = sub.push(seq[n]);
    assert forall|a: int| 0 <= a < grown.len() implies exists|j: int|
        0 <= j < n + 1 && j < seq.len() && seq[j] == #[trigger] grown[a] by {
        if a < sub.len() {
            let j = choose|j: int| 0 <= j < n && j < seq.len() && seq[j] == sub[a];
            assert(seq[j] == grown[a]);
        } else {
            assert(seq[n] == grown[a]);
        }
    }
    assert forall|a: int| 0 <= a < sub.len() implies exists|j: int|
        0 <= j < n + 1 && j < seq.len() && seq[j] == #[trigger] sub[a] by {
        let j = choose|j: int| 0 <= j < n && j < seq.len() && seq[j] == sub[a];
        assert(seq[j] == sub[a]);
    }
}

/// A sequence that grows by the next entry of the one it is drawn from
/// stays in price priority.
pub proof fn lemma_push_ordered(sub: Seq<Resting>, seq: Seq<Resting>, n: int, side: OrderSide)
    requires
        0 <= n < seq.len(),
        drawn(sub, seq, n),
        ordered(seq, side),
        ordered(sub, side),
    ensures
        ordered(sub.push(seq[n]), side),
        drawn(sub.push(seq[n]), seq, n + 1),
        drawn(sub, seq, n + 1),
{
    lemma_push_is_drawn(sub, seq, n);
    let grown = sub.push(seq[n]);
    assert forall|i: int, j: int| 0 <= i < j < grown.len() implies !worse(
        side,
        #[trigger] grown[i].price,
        #[trigger] grown[j].price,
    ) by {
        if j < sub.len() {
            assert(grown[i] == sub[i] && grown[j] == sub[j]);
        } else {
            let k = choose|k: int| 0 <= k < n && k < seq.len() && seq[k] == sub[i];
            assert(grown[i] == seq[k] && grown[j] == seq[n]);
        }
    }
}

/// Taking an order out of a level leaves the entries in price priority.
pub proof fn lemma_without_ordered(seq: Seq<Resting>, price: Amount, id: u128, side: OrderSide)
    requires
        ordered(seq, side),
    ensures
        ordered(without(seq, price, id), side),
        drawn(without(seq, price, id), seq, seq.len() as int),
    decreases seq.len(),
{
    reveal(Seq::filter);
    if seq.len() > 0 {
        let front = seq.drop_last();
        let n = seq.len() - 1;
        assert forall|i: int, j: int| 0 <= i < j < front.len() implies !worse(
            side,
            #[trigger] front[i].price,
            #[trigger] front[j].price,
        ) by {
            assert(front[i] == seq[i] && front[j] == seq[j]);
        }
        lemma_without_ordered(front, price, id, side);
        let sub = without(front, price, id);
        assert forall|a: int| 0 <= a < sub.len() implies exists|j: int|
            0 <= j < n && j < seq.len() && seq[j] == #[trigger] sub[a] by {
            let j = choose|j: int| 0 <= j < front.len() && front[j] == sub[a];
            assert(seq[j] == sub[a]);
        }
        assert(drawn(sub, seq, n));
        lemma_push_ordered(sub, seq, n, side);
        assert(seq[n] == seq.last());
    }
}

/// Among entries in price priority none has a better price than the first.
pub proof fn lemma_first_is_best(seq: Seq<Resting>, side: OrderSide)
    requires
        ordered(seq, side),
    ensures
        forall|i: int| 0 <= i < seq.len() ==> !worse(side, seq[0].price, #[trigger] seq[i].price),
{
    assert forall|i: int| 0 <= i < seq.len() implies !worse(side, seq[0].price, #[trigger] seq[i].price) by {
        if i > 0 {
            assert(!worse(side, seq[0].price, seq[i].price));
        }
    }
}

/// The entries of an item and side after the entries of one item and side
/// are replaced: the new entries there, the old ones everywhere else.
pub proof fn lemma_put_resting(
    index: IndexView,
    item: u128,
    side: OrderSide,
    entries: Seq<Resting>,
    other_item: u128,
    other_side: OrderSide,
)
    ensures
        index.put(item, side, entries).resting(other_item, other_side) == if other_item == item
            && other_side == side {
            entries
        } else {
            index.resting(other_item, other_side)
        },
{
    if other_item == item && other_side == side && entries.len() == 0 {
        assert(entries =~= Seq::<Resting>::empty());
    }
}

/// Replacing the entries of one item and side by entries in price priority
/// keeps the index well ordered.
pub proof fn lemma_put_well_ordered(index: IndexView, item: u128, side: OrderSide, entries: Seq<Resting>)
    ensures
        index.well_ordered() && ordered(entries, side) ==> index.put(item, side, entries).well_ordered(),
{
    if index.well_ordered() && ordered(entries, side) {
        assert forall|other_item: u128, other_side: OrderSide|
            ordered(#[trigger] index.put(item, side, entries).resting(other_item, other_side), other_side) by {
            lemma_put_resting(index, item, side, entries, other_item, other_side);
            assert(ordered(index.resting(other_item, other_side), other_side));
        }
    }
}

} // verus!
