//! A two-sided order book of price levels, updated by level diffs.
use vstd::prelude::*;
use std::collections::BTreeMap;
use crate::fixed::{self, Fixed};

verus! {

broadcast use {vstd::std_specs::btree::group_btree_axioms, vstd::laws_cmp::group_laws_cmp};

#[derive(Clone, Copy, PartialEq, Eq, Structural, Debug)]
pub enum Side {
    Bid,
    Ask,
}

/// A price and the quantity resting at it.
#[derive(Clone, Copy, PartialEq, Eq, Structural, Debug)]
pub struct Level {
    pub price: Fixed,
    pub quantity: Fixed,
}

/// Level updates for both sides; a zero quantity removes a level.
#[derive(Clone, PartialEq, Eq, Debug, Default)]
pub struct BookDiff {
    pub bids: Vec<Level>,
    pub asks: Vec<Level>,
}

impl BookDiff {
    pub fn is_empty(&self) -> (r: bool)
        ensures
            r == (self.bids@.len() == 0 && self.asks@.len() == 0),
    {
        self.bids.len() == 0 && self.asks.len() == 0
    }
}

/// Why a level update was refused.
#[derive(Clone, Copy, PartialEq, Eq, Structural, Debug)]
pub enum BookError {
    InvalidPrice(Fixed),
    InvalidQuantity(Fixed),
}

/// One side of a book: price (raw units) to quantity (raw units).
pub type SideMap = Map<i128, i128>;

/// What refuses a level: a price that is not positive, or a negative quantity.
pub open spec fn level_error(l: Level) -> Option<BookError> {
    if l.price.0 <= 0 {
        Some(BookError::InvalidPrice(l.price))
    } else if l.quantity.0 < 0 {
        Some(BookError::InvalidQuantity(l.quantity))
    } else {
        None
    }
}

/// The effect of one accepted level: zero removes the price, anything else sets it.
pub open spec fn apply_level_spec(m: SideMap, l: Level) -> SideMap {
    if l.quantity.0 == 0 {
        m.remove(l.price.0)
    } else {
        m.insert(l.price.0, l.quantity.0)
    }
}

/// Applies levels in order until one is refused; the levels before it stay applied.
pub open spec fn apply_levels(m: SideMap, levels: Seq<Level>) -> (SideMap, Option<BookError>)
    decreases levels.len(),
{
    if levels.len() == 0 {
        (m, None)
    } else {
        match level_error(levels[0]) {
            Some(e) => (m, Some(e)),
            None => apply_levels(apply_level_spec(m, levels[0]), levels.drop_first()),
        }
    }
}

/// A diff applied to a book: the bid levels, then, unless one was refused, the ask levels.
pub open spec fn apply_diff_spec(
    bids: SideMap,
    asks: SideMap,
    diff_bids: Seq<Level>,
    diff_asks: Seq<Level>,
) -> (SideMap, SideMap, Option<BookError>) {
    let (b, bid_error) = apply_levels(bids, diff_bids);
    match bid_error {
        Some(e) => (b, asks, Some(e)),
        None => {
            let (a, ask_error) = apply_levels(asks, diff_asks);
            (b, a, ask_error)
        },
    }
}

/// A side in which every price and every quantity is positive.
pub open spec fn side_well_formed(m: SideMap) -> bool {
    forall|k: i128| #[trigger] m.contains_key(k) ==> k > 0 && m[k] > 0
}

/// Both sides of a book hold positive prices and positive quantities only;
/// every book this library produces is so.
pub open spec fn book_well_formed(bids: SideMap, asks: SideMap) -> bool {
    side_well_formed(bids) && side_well_formed(asks)
}

/// The best entry of a side: the highest price for bids, the lowest for asks.
pub open spec fn is_best(m: SideMap, side: Side, l: Level) -> bool {
    &&& m.contains_key(l.price.0)
    &&& m[l.price.0] == l.quantity.0
    &&& forall|k: i128| #[trigger]
        m.contains_key(k) ==> match side {
            Side::Bid => k <= l.price.0,
            Side::Ask => l.price.0 <= k,
        }
}

/// `a` comes strictly before `b` in best-first order.
pub open spec fn better(side: Side, a: i128, b: i128) -> bool {
    match side {
        Side::Bid => a > b,
        Side::Ask => a < b,
    }
}

/// Levels that do not name a price leave it as it was, whether or not one of
/// them is refused.
proof fn lemma_apply_levels_untouched(m: SideMap, levels: Seq<Level>, k: i128)
    requires
        forall|i: int| 0 <= i < levels.len() ==> (#[trigger] levels[i]).price.0 != k,
    ensures
        entry_at(apply_levels(m, levels).0, k) == entry_at(m, k),
    decreases levels.len(),
{
    if levels.len() > 0 && level_error(levels[0]) is None {
        let rest = levels.drop_first();
        assert forall|i: int| 0 <= i < rest.len() implies (#[trigger] rest[i]).price.0 != k by {
            assert(rest[i] == levels[i + 1]);
        }
        assert(levels[0].price.0 != k);
        lemma_apply_levels_untouched(apply_level_spec(m, levels[0]), rest, k);
    }
}

/// A diff changes only the prices it names, on the side that names them,
/// whether it is accepted or refused part way: a price no bid level names
/// keeps its bid entry, and a price no ask level names keeps its ask entry.
pub proof fn lemma_apply_diff_untouched(
    bids: SideMap,
    asks: SideMap,
    diff_bids: Seq<Level>,
    diff_asks: Seq<Level>,
    k: i128,
)
    ensures
        (forall|i: int| 0 <= i < diff_bids.len() ==> (#[trigger] diff_bids[i]).price.0 != k)
            ==> entry_at(apply_diff_spec(bids, asks, diff_bids, diff_asks).0, k) == entry_at(bids, k),
        (forall|i: int| 0 <= i < diff_asks.len() ==> (#[trigger] diff_asks[i]).price.0 != k)
            ==> entry_at(apply_diff_spec(bids, asks, diff_bids, diff_asks).1, k) == entry_at(asks, k),
{
    if forall|i: int| 0 <= i < diff_bids.len() ==> (#[trigger] diff_bids[i]).price.0 != k {
        lemma_apply_levels_untouched(bids, diff_bids, k);
    }
    if forall|i: int| 0 <= i < diff_asks.len() ==> (#[trigger] diff_asks[i]).price.0 != k {
        lemma_apply_levels_untouched(asks, diff_asks, k);
    }
}

/// Every level applied in order, none refused.
pub open spec fn apply_all(m: SideMap, levels: Seq<Level>) -> SideMap
    decreases levels.len(),
{
    if levels.len() == 0 {
        m
    } else {
        apply_all(apply_level_spec(m, levels[0]), levels.drop_first())
    }
}

/// Levels none of which is refused are all applied.
pub proof fn lemma_apply_levels_all_accepted(m: SideMap, levels: Seq<Level>)
    requires
        forall|i: int| 0 <= i < levels.len() ==> level_error(#[trigger] levels[i]) is None,
    ensures
        apply_levels(m, levels) == (apply_all(m, levels), None::<BookError>),
    decreases levels.len(),
{
    if levels.len() > 0 {
        assert(level_error(levels[0]) is None);
        assert forall|i: int| 0 <= i < levels.drop_first().len() implies level_error(
            #[trigger] levels.drop_first()[i],
        ) is None by {
            assert(levels.drop_first()[i] == levels[i + 1]);
        }
        lemma_apply_levels_all_accepted(apply_level_spec(m, levels[0]), levels.drop_first());
    }
}

/// The first refused level ends the update with its error; exactly the levels
/// before it are applied.
pub proof fn lemma_apply_levels_first_refused(m: SideMap, levels: Seq<Level>, j: int)
    requires
        0 <= j < levels.len(),
        level_error(levels[j]) is Some,
        forall|i: int| 0 <= i < j ==> level_error(#[trigger] levels[i]) is None,
    ensures
        apply_levels(m, levels) == (apply_all(m, levels.take(j)), level_error(levels[j])),
    decreases j,
{
    if j == 0 {
        assert(levels.take(0) =~= Seq::<Level>::empty());
    } else {
        assert(level_error(levels[0]) is None);
        let rest = levels.drop_first();
        assert forall|i: int| 0 <= i < j - 1 implies level_error(#[trigger] rest[i]) is None by {
            assert(rest[i] == levels[i + 1]);
        }
        assert(rest[j - 1] == levels[j]);
        lemma_apply_levels_first_refused(apply_level_spec(m, levels[0]), rest, j - 1);
        assert(levels.take(j).drop_first() =~= rest.take(j - 1));
        assert(levels.take(j)[0] == levels[0]);
    }
}

/// A diff none of whose levels is refused is applied whole: the bid levels to
/// the bids, the ask levels to the asks.
pub proof fn lemma_apply_diff_all_accepted(
    bids: SideMap,
    asks: SideMap,
    diff_bids: Seq<Level>,
    diff_asks: Seq<Level>,
)
    requires
        forall|i: int|
            0 <= i < (diff_bids + diff_asks).len() ==> level_error(
                #[trigger] (diff_bids + diff_asks)[i],
            ) is None,
    ensures
        apply_diff_spec(bids, asks, diff_bids, diff_asks) == (
            apply_all(bids, diff_bids),
            apply_all(asks, diff_asks),
            None::<BookError>,
        ),
{
    let all = diff_bids + diff_asks;
    assert forall|i: int| 0 <= i < diff_bids.len() implies level_error(
        #[trigger] diff_bids[i],
    ) is None by {
        assert(all[i] == diff_bids[i]);
    }
    assert forall|i: int| 0 <= i < diff_asks.len() implies level_error(
        #[trigger] diff_asks[i],
    ) is None by {
        assert(all[diff_bids.len() + i] == diff_asks[i]);
    }
    lemma_apply_levels_all_accepted(bids, diff_bids);
    lemma_apply_levels_all_accepted(asks, diff_asks);
}

/// Take a diff's bid levels followed by its ask levels. If one of them is
/// refused, the first refused level `j` decides the error (a price that is not
/// positive before a negative quantity), and exactly the levels before it are
/// applied: a refused bid leaves the asks untouched.
pub proof fn lemma_apply_diff_first_refused(
    bids: SideMap,
    asks: SideMap,
    diff_bids: Seq<Level>,
    diff_asks: Seq<Level>,
    j: int,
)
    requires
        0 <= j < (diff_bids + diff_asks).len(),
        level_error((diff_bids + diff_asks)[j]) is Some,
        forall|i: int| 0 <= i < j ==> level_error(#[trigger] (diff_bids + diff_asks)[i]) is None,
    ensures
        apply_diff_spec(bids, asks, diff_bids, diff_asks) == if j < diff_bids.len() {
            (apply_all(bids, diff_bids.take(j)), asks, level_error((diff_bids + diff_asks)[j]))
        } else {
            (
                apply_all(bids, diff_bids),
                apply_all(asks, diff_asks.take(j - diff_bids.len())),
                level_error((diff_bids + diff_asks)[j]),
            )
        },
{
    let all = diff_bids + diff_asks;
    if j < diff_bids.len() {
        assert(all[j] == diff_bids[j]);
        assert forall|i: int| 0 <= i < j implies level_error(#[trigger] diff_bids[i]) is None by {
            assert(all[i] == diff_bids[i]);
        }
        lemma_apply_levels_first_refused(bids, diff_bids, j);
    } else {
        let k = j - diff_bids.len();
        assert(all[j] == diff_asks[k]);
        assert forall|i: int| 0 <= i < diff_bids.len() implies level_error(
            #[trigger] diff_bids[i],
        ) is None by {
            assert(all[i] == diff_bids[i]);
        }
        assert forall|i: int| 0 <= i < k implies level_error(#[trigger] diff_asks[i]) is None by {
            assert(all[diff_bids.len() + i] == diff_asks[i]);
        }
        lemma_apply_levels_all_accepted(bids, diff_bids);
        lemma_apply_levels_first_refused(asks, diff_asks, k);
    }
}

/// The `limit` best levels of a side, best first.
pub open spec fn is_top_levels(m: SideMap, side: Side, limit: nat, r: Seq<Level>) -> bool {
    &&& r.len() == if limit < m.dom().len() {
        limit
    } else {
        m.dom().len()
    }
    &&& forall|i: int|
        0 <= i < r.len() ==> #[trigger] m.contains_key(r[i].price.0) && m[r[i].price.0]
            == r[i].quantity.0
    &&& forall|i: int, j: int|
        0 <= i < j < r.len() ==> better(side, #[trigger] r[i].price.0, #[trigger] r[j].price.0)
    &&& forall|k: i128|
        #[trigger] m.contains_key(k) && !(exists|i: int| 0 <= i < r.len() && r[i].price.0 == k)
            ==> forall|i: int| 0 <= i < r.len() ==> better(side, #[trigger] r[i].price.0, k)
}

/// The order book: bids and asks, each a map from price to quantity.
#[derive(PartialEq, Eq, Debug)]
pub struct OrderBook {
    bids: BTreeMap<i128, i128>,
    asks: BTreeMap<i128, i128>,
}

impl Clone for OrderBook {
    fn clone(&self) -> (r: Self)
        ensures
            r.bids() == self.bids(),
            r.asks() == self.asks(),
            book_well_formed(r.bids(), r.asks()),
    {
        proof {
            use_type_invariant(self);
        }
        OrderBook { bids: self.bids.clone(), asks: self.asks.clone() }
    }
}

impl Default for OrderBook {
    fn default() -> (r: Self)
        ensures
            r.bids() == Map::<i128, i128>::empty(),
            r.asks() == Map::<i128, i128>::empty(),
            book_well_formed(r.bids(), r.asks()),
    {
        OrderBook::new()
    }
}

/// The entries of a map in increasing key order, as `iter` walks them: every
/// entry once, keys strictly increasing.
proof fn lemma_iter_order(m: &BTreeMap<i128, i128>, all: Seq<(&i128, &i128)>)
    requires
        all == vstd::std_specs::iter::IteratorSpec::remaining(&vstd::std_specs::btree::spec_btree_map_iter(m)),
        vstd::std_specs::btree::increasing_seq(all.map_values(|kv: (&i128, &i128)| *kv.0)),
    ensures
        all.len() == m@.dom().len(),
        forall|i: int|
            0 <= i < all.len() ==> #[trigger] m@.contains_key(*all[i].0) && m@[*all[i].0] == *all[i].1,
        forall|i: int, j: int| 0 <= i < j < all.len() ==> *(#[trigger] all[i]).0 < *(#[trigger] all[j]).0,
        forall|k: i128| #[trigger]
            m@.contains_key(k) ==> exists|i: int| 0 <= i < all.len() && *all[i].0 == k,
{
    let keys = all.map_values(|kv: (&i128, &i128)| *kv.0);
    assert(vstd::laws_cmp::obeys_cmp::<i128>());
    assert forall|i: int, j: int| 0 <= i < j < all.len() implies *(#[trigger] all[i]).0 < *(
    #[trigger] all[j]).0 by {
        assert(keys[i] == *all[i].0);
        assert(keys[j] == *all[j].0);
        assert(vstd::std_specs::cmp::OrdSpec::cmp_spec(&keys[i], &keys[j]) is Less);
    }
    assert forall|k: i128| #[trigger] m@.contains_key(k) implies exists|i: int|
        0 <= i < all.len() && *all[i].0 == k by {
        assert(all.contains((&k, &m@[k])));
        let i = choose|i: int| 0 <= i < all.len() && all[i] == (&k, &m@[k]);
        assert(*all[i].0 == k);
    }
}

/// The lowest entry of a map: the first one its iterator gives.
fn first_entry(m: &BTreeMap<i128, i128>) -> (r: Option<(i128, i128)>)
    ensures
        match r {
            None => m@.dom().len() == 0,
            Some((k, v)) => m@.contains_key(k) && m@[k] == v && forall|j: i128| #[trigger]
                m@.contains_key(j) ==> k <= j,
        },
{
    let iter = m.iter();
    let ghost all = vstd::std_specs::iter::IteratorSpec::remaining(&iter);
    proof {
        assert(vstd::laws_cmp::obeys_cmp::<i128>());
        lemma_iter_order(m, all);
    }
    for kv in it: iter
        invariant
            it.seq() == all,
            it.index() == 0,
            all.len() == m@.dom().len(),
            forall|i: int|
                0 <= i < all.len() ==> #[trigger] m@.contains_key(*all[i].0) && m@[*all[i].0]
                    == *all[i].1,
            forall|i: int, j: int|
                0 <= i < j < all.len() ==> *(#[trigger] all[i]).0 < *(#[trigger] all[j]).0,
            forall|k: i128| #[trigger]
                m@.contains_key(k) ==> exists|i: int| 0 <= i < all.len() && *all[i].0 == k,
    {
        proof {
            assert forall|j: i128| #[trigger] m@.contains_key(j) implies *kv.0 <= j by {
                let i = choose|i: int| 0 <= i < all.len() && *all[i].0 == j;
                if i > 0 {
                    assert(*all[0].0 < *all[i].0);
                }
            }
        }
        return Some((*kv.0, *kv.1));
    }
    None
}

/// The highest entry of a map (std's `BTreeMap::last_key_value`, whose key is
/// the maximum). The contract claims exactly that: `None` for an empty map,
/// else an entry of the map whose key no other key exceeds.
#[verifier::external_body]
fn last_entry(m: &BTreeMap<i128, i128>) -> (r: Option<(i128, i128)>)
    ensures
        match r {
            None => m@.dom().len() == 0,
            Some((k, v)) => m@.contains_key(k) && m@[k] == v && forall|j: i128| #[trigger]
                m@.contains_key(j) ==> j <= k,
        },
{
    m.last_key_value().map(|(k, v)| (*k, *v))
}

/// The entries of a map in increasing key order.
fn sorted_entries(m: &BTreeMap<i128, i128>) -> (v: Vec<(i128, i128)>)
    ensures
        v@.len() == m@.dom().len(),
        forall|i: int|
            0 <= i < v@.len() ==> #[trigger] m@.contains_key(v@[i].0) && m@[v@[i].0] == v@[i].1,
        forall|i: int, j: int| 0 <= i < j < v@.len() ==> (#[trigger] v@[i]).0 < (#[trigger] v@[j]).0,
        forall|k: i128| #[trigger]
            m@.contains_key(k) ==> exists|i: int| 0 <= i < v@.len() && v@[i].0 == k,
{
    let iter = m.iter();
    let ghost all = vstd::std_specs::iter::IteratorSpec::remaining(&iter);
    proof {
        assert(vstd::laws_cmp::obeys_cmp::<i128>());
        lemma_iter_order(m, all);
    }
    let mut v: Vec<(i128, i128)> = Vec::new();
    for kv in it: iter
        invariant
            it.seq() == all,
            v@.len() == it.index(),
            forall|i: int| 0 <= i < it.index() ==> (#[trigger] v@[i]) == (*all[i].0, *all[i].1),
            forall|i: int, j: int|
                0 <= i < j < all.len() ==> *(#[trigger] all[i]).0 < *(#[trigger] all[j]).0,
            forall|k: i128| #[trigger]
                m@.contains_key(k) ==> exists|i: int| 0 <= i < all.len() && *all[i].0 == k,
            all.len() == m@.dom().len(),
            forall|i: int| 0 <= i < all.len() ==> #[trigger] m@.contains_key(*all[i].0) && m@[*all[i].0] == *all[i].1,
    {
        v.push((*kv.0, *kv.1));
    }
    assert forall|k: i128| #[trigger] m@.contains_key(k) implies exists|i: int|
        0 <= i < v@.len() && v@[i].0 == k by {
        let i = choose|i: int| 0 <= i < all.len() && *all[i].0 == k;
        assert(v@[i].0 == k);
    }
    v
}

impl OrderBook {
    #[verifier::type_invariant]
    spec fn well_formed(self) -> bool {
        side_well_formed(self.bids@) && side_well_formed(self.asks@)
    }

    /// The bid side as a map from price to quantity.
    pub closed spec fn bids(&self) -> SideMap {
        self.bids@
    }

    /// The ask side as a map from price to quantity.
    pub closed spec fn asks(&self) -> SideMap {
        self.asks@
    }

    pub open spec fn side(&self, side: Side) -> SideMap {
        match side {
            Side::Bid => self.bids(),
            Side::Ask => self.asks(),
        }
    }

    /// Applies bid levels, then (unless one was refused) ask levels.
    pub fn apply_levels(&mut self, bids: &Vec<Level>, asks: &Vec<Level>) -> (r: Result<(), BookError>)
        ensures
            ({
                let (b, a, error) = apply_diff_spec(old(self).bids(), old(self).asks(), bids@, asks@);
                &&& final(self).bids() == b
                &&& final(self).asks() == a
                &&& r == match error {
                    Some(e) => Err::<(), BookError>(e),
                    None => Ok::<(), BookError>(()),
                }
            }),
            book_well_formed(final(self).bids(), final(self).asks()),
    {
        proof {
            use_type_invariant(&*self);
        }
        let mut bid_side = BTreeMap::new();
        std::mem::swap(&mut bid_side, &mut self.bids);
        let bid_error = Self::apply_side(&mut bid_side, bids);
        self.bids = bid_side;
        if let Some(e) = bid_error {
            return Err(e);
        }
        let mut ask_side = BTreeMap::new();
        std::mem::swap(&mut ask_side, &mut self.asks);
        let ask_error = Self::apply_side(&mut ask_side, asks);
        self.asks = ask_side;
        match ask_error {
            Some(e) => Err(e),
            None => Ok(()),
        }
    }

    /// An empty book.
    pub fn new() -> (r: OrderBook)
        ensures
            r.bids() == Map::<i128, i128>::empty(),
            r.asks() == Map::<i128, i128>::empty(),
            book_well_formed(r.bids(), r.asks()),
    {
        OrderBook { bids: BTreeMap::new(), asks: BTreeMap::new() }
    }

    fn apply_side(m: &mut BTreeMap<i128, i128>, levels: &Vec<Level>) -> (r: Option<BookError>)
        requires
            side_well_formed(old(m)@),
        ensures
            (final(m)@, r) == apply_levels(old(m)@, levels@),
            side_well_formed(final(m)@),
    {
        let mut i: usize = 0;
        assert(levels@.skip(0) =~= levels@);
        while i < levels.len()
            invariant
                0 <= i <= levels.len(),
                apply_levels(old(m)@, levels@) == apply_levels(m@, levels@.skip(i as int)),
                side_well_formed(m@),
            decreases levels.len() - i,
        {
            let level = levels[i];
            proof {
                assert(levels@.skip(i as int)[0] == level);
                assert(levels@.skip(i as int).drop_first() =~= levels@.skip(i + 1));
            }
            if level.price.0 <= 0 {
                return Some(BookError::InvalidPrice(level.price));
            }
            if level.quantity.0 < 0 {
                return Some(BookError::InvalidQuantity(level.quantity));
            }
            if level.quantity.0 == 0 {
                m.remove(&level.price.0);
            } else {
                m.insert(level.price.0, level.quantity.0);
            }
            i += 1;
        }
        assert(levels@.skip(i as int) =~= Seq::<Level>::empty());
        None
    }

    /// Applies the bid levels, then the ask levels, in order. The first refused
    /// level ends the update with its error; the levels before it stay applied.
    pub fn apply_diff(&mut self, diff: &BookDiff) -> (r: Result<(), BookError>)
        ensures
            ({
                let (bids, asks, error) = apply_diff_spec(
                    old(self).bids(),
                    old(self).asks(),
                    diff.bids@,
                    diff.asks@,
                );
                &&& final(self).bids() == bids
                &&& final(self).asks() == asks
                &&& r == match error {
                    Some(e) => Err::<(), BookError>(e),
                    None => Ok::<(), BookError>(()),
                }
            }),
            book_well_formed(final(self).bids(), final(self).asks()),
    {
        self.apply_levels(&diff.bids, &diff.asks)
    }

    /// The best level of a side: the highest bid or the lowest ask.
    pub fn best(&self, side: Side) -> (r: Option<Level>)
        ensures
            match r {
                None => self.side(side).dom().len() == 0,
                Some(l) => is_best(self.side(side), side, l),
            },
            r is Some <==> self.side(side).dom().len() > 0,
            r matches Some(l) ==> l.price.0 == best_price(self.side(side), side),
    {
        proof {
            OrderBook::lemma_sides_are_finite(self);
        }
        let entry = match side {
            Side::Bid => last_entry(&self.bids),
            Side::Ask => first_entry(&self.asks),
        };
        match entry {
            Some((price, quantity)) => {
                let l = Level { price: Fixed(price), quantity: Fixed(quantity) };
                proof {
                    lemma_best_unique(self.side(side), side, l);
                    vstd::set_lib::lemma_set_empty_equivalency_len(self.side(side).dom());
                    if self.side(side).dom().len() == 0 {
                        assert(!Set::<i128>::empty().contains(price));
                    }
                }
                Some(l)
            },
            None => None,
        }
    }

    /// Both sides of a book are finite maps.
    pub proof fn lemma_sides_are_finite(b: &OrderBook)
        ensures
            b.bids().dom().finite(),
            b.asks().dom().finite(),
    {
    }

    pub fn best_bid(&self) -> (r: Option<Level>)
        ensures
            match r {
                None => self.bids().dom().len() == 0,
                Some(l) => is_best(self.bids(), Side::Bid, l),
            },
            r is Some <==> self.bids().dom().len() > 0,
            r matches Some(l) ==> l.price.0 == best_price(self.bids(), Side::Bid),
    {
        self.best(Side::Bid)
    }

    pub fn best_ask(&self) -> (r: Option<Level>)
        ensures
            match r {
                None => self.asks().dom().len() == 0,
                Some(l) => is_best(self.asks(), Side::Ask, l),
            },
            r is Some <==> self.asks().dom().len() > 0,
            r matches Some(l) ==> l.price.0 == best_price(self.asks(), Side::Ask),
    {
        self.best(Side::Ask)
    }

    pub fn bids_len(&self) -> (n: usize)
        ensures
            n == self.bids().dom().len(),
    {
        self.bids.len()
    }

    pub fn asks_len(&self) -> (n: usize)
        ensures
            n == self.asks().dom().len(),
    {
        self.asks.len()
    }

    pub fn is_empty(&self) -> (r: bool)
        ensures
            r == (self.bids().dom().len() == 0 && self.asks().dom().len() == 0),
    {
        self.bids.len() == 0 && self.asks.len() == 0
    }

    /// The `limit` best levels of a side, best first: bids by descending
    /// price, asks by ascending price.
    pub fn levels(&self, side: Side, limit: usize) -> (r: Vec<Level>)
        ensures
            is_top_levels(self.side(side), side, limit as nat, r@),
            r@ == top_levels(self.side(side), side, limit as nat),
    {
        let m = match side {
            Side::Bid => &self.bids,
            Side::Ask => &self.asks,
        };
        let entries = sorted_entries(m);
        let n = entries.len();
        let count = if limit < n {
            limit
        } else {
            n
        };
        let ghost pos = |j: int|
            match side {
                Side::Ask => j,
                Side::Bid => n - 1 - j,
            };
        let mut out: Vec<Level> = Vec::new();
        let mut i: usize = 0;
        while i < count
            invariant
                0 <= i <= count <= n == entries@.len(),
                count <= limit,
                out@.len() == i,
                pos == (|j: int|
                    match side {
                        Side::Ask => j,
                        Side::Bid => n - 1 - j,
                    }),
                forall|j: int|
                    0 <= j < i ==> (#[trigger] out@[j]).price.0 == entries@[pos(j)].0
                        && out@[j].quantity.0 == entries@[pos(j)].1,
                forall|j: int|
                    0 <= j < n ==> #[trigger] m@.contains_key(entries@[j].0) && m@[entries@[j].0]
                        == entries@[j].1,
            decreases count - i,
        {
            let idx = match side {
                Side::Ask => i,
                Side::Bid => n - 1 - i,
            };
            let (price, quantity) = entries[idx];
            out.push(Level { price: Fixed(price), quantity: Fixed(quantity) });
            i += 1;
        }
        let ghost r = out@;
        let ghost mm = m@;
        assert(mm == self.side(side));
        assert forall|j: int| 0 <= j < r.len() implies #[trigger] mm.contains_key(r[j].price.0)
            && mm[r[j].price.0] == r[j].quantity.0 by {
            let q = pos(j);
            assert(0 <= q < n);
            assert(out@[j].price.0 == entries@[q].0);
            assert(m@.contains_key(entries@[q].0));
            assert(m@[entries@[q].0] == entries@[q].1);
        }
        assert forall|a: int, b: int| 0 <= a < b < r.len() implies better(
            side,
            #[trigger] r[a].price.0,
            #[trigger] r[b].price.0,
        ) by {
            match side {
                Side::Ask => {
                    assert(entries@[a].0 < entries@[b].0);
                },
                Side::Bid => {
                    assert(entries@[n - 1 - b].0 < entries@[n - 1 - a].0);
                },
            }
        }
        assert forall|k: i128| #[trigger] mm.contains_key(k) && !(exists|j: int| 0 <= j < r.len() && r[j].price.0 == k)
            implies forall|j: int| 0 <= j < r.len() ==> better(side, #[trigger] r[j].price.0, k) by {
            let p = choose|p: int| 0 <= p < entries@.len() && entries@[p].0 == k;
            assert forall|j: int| 0 <= j < r.len() implies better(side, #[trigger] r[j].price.0, k) by {
                match side {
                    Side::Ask => {
                        if p < count {
                            assert(r[p].price.0 == k);
                        }
                        assert(entries@[j].0 < entries@[p].0);
                    },
                    Side::Bid => {
                        if p >= n - count {
                            assert(r[n - 1 - p].price.0 == k);
                        }
                        assert(entries@[p].0 < entries@[n - 1 - j].0);
                    },
                }
            }
        }
        proof {
            assert(is_top_levels(self.side(side), side, limit as nat, r));
            let t = top_levels(self.side(side), side, limit as nat);
            lemma_top_levels_unique(self.side(side), side, limit as nat, r, t);
        }
        out
    }

    /// The midpoint of the best bid and the best ask, rounded to eight places;
    /// `None` when a side is empty or the arithmetic overflows.
    pub fn mid(&self) -> (r: Option<Fixed>)
        ensures
            r == (if self.bids().dom().len() == 0 || self.asks().dom().len() == 0 {
                None
            } else {
                mid_spec(self.bids(), self.asks())
            }),
    {
        let bid = match self.best_bid() {
            Some(b) => b,
            None => {
                return None;
            },
        };
        let ask = match self.best_ask() {
            Some(a) => a,
            None => {
                return None;
            },
        };
        proof {
            lemma_best_unique(self.bids(), Side::Bid, bid);
            lemma_best_unique(self.asks(), Side::Ask, ask);
        }
        match bid.price.checked_add(ask.price) {
            Some(sum) => sum.checked_div(Fixed::from_units(2)),
            None => None,
        }
    }

    /// The best ask minus the best bid; `None` when a side is empty or the
    /// difference overflows.
    pub fn spread(&self) -> (r: Option<Fixed>)
        ensures
            r == (if self.bids().dom().len() == 0 || self.asks().dom().len() == 0 {
                None
            } else {
                spread_spec(self.bids(), self.asks())
            }),
    {
        let bid = match self.best_bid() {
            Some(b) => b,
            None => {
                return None;
            },
        };
        let ask = match self.best_ask() {
            Some(a) => a,
            None => {
                return None;
            },
        };
        proof {
            lemma_best_unique(self.bids(), Side::Bid, bid);
            lemma_best_unique(self.asks(), Side::Ask, ask);
        }
        ask.price.checked_sub(bid.price)
    }

    /// Whether the best bid is at or above the best ask.
    pub fn is_crossed(&self) -> (r: bool)
        ensures
            r == (self.bids().dom().len() > 0 && self.asks().dom().len() > 0 && best_price(
                self.bids(),
                Side::Bid,
            ) >= best_price(self.asks(), Side::Ask)),
    {
        match (self.best_bid(), self.best_ask()) {
            (Some(bid), Some(ask)) => {
                proof {
                    lemma_best_unique(self.bids(), Side::Bid, bid);
                    lemma_best_unique(self.asks(), Side::Ask, ask);
                }
                bid.price.0 >= ask.price.0
            },
            _ => false,
        }
    }
}

/// The best price of a non-empty side.
pub open spec fn best_price(m: SideMap, side: Side) -> i128 {
    choose|p: i128|
        m.contains_key(p) && forall|k: i128| #[trigger]
            m.contains_key(k) ==> match side {
                Side::Bid => k <= p,
                Side::Ask => p <= k,
            }
}

/// The midpoint of two non-empty sides.
pub open spec fn mid_spec(bids: SideMap, asks: SideMap) -> Option<Fixed> {
    let b = best_price(bids, Side::Bid) as int;
    let a = best_price(asks, Side::Ask) as int;
    if !fixed::fits_i128(b + a) {
        None
    } else {
        fixed::lift(fixed::spec_div(b + a, 2 * fixed::SCALE))
    }
}

/// The spread of two non-empty sides.
pub open spec fn spread_spec(bids: SideMap, asks: SideMap) -> Option<Fixed> {
    let b = best_price(bids, Side::Bid) as int;
    let a = best_price(asks, Side::Ask) as int;
    if fixed::fits_i128(a - b) {
        Some(Fixed((a - b) as i128))
    } else {
        None
    }
}

/// A best level is the one at `best_price`.
pub proof fn lemma_best_unique(m: SideMap, side: Side, l: Level)
    requires
        is_best(m, side, l),
    ensures
        best_price(m, side) == l.price.0,
{
    let p = best_price(m, side);
    assert(m.contains_key(l.price.0));
    assert(m.contains_key(p) && forall|k: i128| #[trigger]
        m.contains_key(k) ==> match side {
            Side::Bid => k <= p,
            Side::Ask => p <= k,
        });
}


/// The entry at `k`, if any.
pub open spec fn entry_at(m: SideMap, k: i128) -> Option<i128> {
    if m.contains_key(k) {
        Some(m[k])
    } else {
        None
    }
}

/// What a level leaves at its price: nothing for a zero quantity.
pub open spec fn level_entry(l: Level) -> Option<i128> {
    if l.quantity.0 == 0 {
        None
    } else {
        Some(l.quantity.0)
    }
}

/// The entry the last level at price `k` leaves, if any level has that price.
pub open spec fn last_write(levels: Seq<Level>, k: i128) -> Option<Option<i128>>
    decreases levels.len(),
{
    if levels.len() == 0 {
        None
    } else {
        match last_write(levels.drop_first(), k) {
            Some(e) => Some(e),
            None => if levels[0].price.0 == k {
                Some(level_entry(levels[0]))
            } else {
                None
            },
        }
    }
}

/// Whether levels are refused does not depend on the side they are applied to.
proof fn lemma_error_independent(m1: SideMap, m2: SideMap, levels: Seq<Level>)
    ensures
        apply_levels(m1, levels).1 == apply_levels(m2, levels).1,
    decreases levels.len(),
{
    if levels.len() > 0 && level_error(levels[0]) is None {
        lemma_error_independent(
            apply_level_spec(m1, levels[0]),
            apply_level_spec(m2, levels[0]),
            levels.drop_first(),
        );
    }
}

/// After accepted levels, each price holds what the last level at that price
/// left, and prices no level touched hold what they held before.
proof fn lemma_apply_levels_entry(m: SideMap, levels: Seq<Level>, k: i128)
    requires
        apply_levels(m, levels).1 is None,
    ensures
        entry_at(apply_levels(m, levels).0, k) == match last_write(levels, k) {
            Some(e) => e,
            None => entry_at(m, k),
        },
    decreases levels.len(),
{
    if levels.len() > 0 {
        lemma_apply_levels_entry(apply_level_spec(m, levels[0]), levels.drop_first(), k);
    }
}

/// Applying the same accepted levels again leaves the side unchanged.
proof fn lemma_apply_levels_idempotent(m: SideMap, levels: Seq<Level>)
    requires
        apply_levels(m, levels).1 is None,
    ensures
        apply_levels(apply_levels(m, levels).0, levels) == apply_levels(m, levels),
{
    let m1 = apply_levels(m, levels).0;
    lemma_error_independent(m, m1, levels);
    let m2 = apply_levels(m1, levels).0;
    assert forall|k: i128| entry_at(m2, k) == entry_at(m1, k) by {
        lemma_apply_levels_entry(m, levels, k);
        lemma_apply_levels_entry(m1, levels, k);
    }
    assert(m2 =~= m1) by {
        assert forall|k: i128| #[trigger] m2.contains_key(k) == m1.contains_key(k) by {
            assert(entry_at(m2, k) == entry_at(m1, k));
        }
        assert forall|k: i128| #[trigger] m2.contains_key(k) implies m2[k] == m1[k] by {
            assert(entry_at(m2, k) == entry_at(m1, k));
        }
    }
}

/// A diff that was accepted changes nothing when it is applied a second time.
pub proof fn lemma_apply_diff_idempotent(
    bids: SideMap,
    asks: SideMap,
    diff_bids: Seq<Level>,
    diff_asks: Seq<Level>,
)
    requires
        apply_diff_spec(bids, asks, diff_bids, diff_asks).2 is None,
    ensures
        ({
            let (b, a, e) = apply_diff_spec(bids, asks, diff_bids, diff_asks);
            apply_diff_spec(b, a, diff_bids, diff_asks) == (b, a, e)
        }),
{
    lemma_apply_levels_idempotent(bids, diff_bids);
    lemma_apply_levels_idempotent(asks, diff_asks);
}

/// An empty diff is accepted and changes nothing.
pub proof fn lemma_empty_diff_changes_nothing(bids: SideMap, asks: SideMap)
    ensures
        apply_diff_spec(bids, asks, Seq::empty(), Seq::empty()) == (bids, asks, None::<BookError>),
{
}

/// After an accepted diff, a price holds the quantity of the last level for it
/// (none if that quantity was zero); prices the diff does not name are untouched.
pub proof fn lemma_apply_diff_entries(
    bids: SideMap,
    asks: SideMap,
    diff_bids: Seq<Level>,
    diff_asks: Seq<Level>,
    k: i128,
)
    requires
        apply_diff_spec(bids, asks, diff_bids, diff_asks).2 is None,
    ensures
        ({
            let (b, a, e) = apply_diff_spec(bids, asks, diff_bids, diff_asks);
            &&& entry_at(b, k) == match last_write(diff_bids, k) {
                Some(x) => x,
                None => entry_at(bids, k),
            }
            &&& entry_at(a, k) == match last_write(diff_asks, k) {
                Some(x) => x,
                None => entry_at(asks, k),
            }
        }),
{
    lemma_apply_levels_entry(bids, diff_bids, k);
    lemma_apply_levels_entry(asks, diff_asks, k);
}


/// The `limit` best levels of a side, best first (see `is_top_levels`, which
/// has exactly one solution: `lemma_top_levels_unique`).
pub open spec fn top_levels(m: SideMap, side: Side, limit: nat) -> Seq<Level> {
    choose|r: Seq<Level>| is_top_levels(m, side, limit, r)
}

proof fn lemma_top_level_not_better(
    m: SideMap,
    side: Side,
    limit: nat,
    r1: Seq<Level>,
    r2: Seq<Level>,
    i: int,
)
    requires
        is_top_levels(m, side, limit, r1),
        is_top_levels(m, side, limit, r2),
        0 <= i < r1.len(),
        forall|j: int| 0 <= j < i ==> r1[j].price.0 == r2[j].price.0,
    ensures
        !better(side, r1[i].price.0, r2[i].price.0),
{
    let k = r1[i].price.0;
    if !better(side, r1[i].price.0, r2[i].price.0) {
        return;
    }
    assert(m.contains_key(k));
    if exists|j: int| 0 <= j < r2.len() && r2[j].price.0 == k {
        let j = choose|j: int| 0 <= j < r2.len() && r2[j].price.0 == k;
        if j < i {
            assert(r1[j].price.0 == r2[j].price.0);
            assert(better(side, r1[j].price.0, r1[i].price.0));
        } else if j > i {
            assert(better(side, r2[i].price.0, r2[j].price.0));
        }
    } else {
        assert(better(side, r2[i].price.0, k));
    }
}

proof fn lemma_top_levels_prefix(
    m: SideMap,
    side: Side,
    limit: nat,
    r1: Seq<Level>,
    r2: Seq<Level>,
    n: int,
)
    requires
        is_top_levels(m, side, limit, r1),
        is_top_levels(m, side, limit, r2),
        0 <= n <= r1.len(),
    ensures
        forall|j: int| 0 <= j < n ==> r1[j].price.0 == r2[j].price.0,
    decreases n,
{
    if n > 0 {
        lemma_top_levels_prefix(m, side, limit, r1, r2, n - 1);
        let i = n - 1;
        if r1[i].price.0 != r2[i].price.0 {
            if better(side, r1[i].price.0, r2[i].price.0) {
                lemma_top_level_not_better(m, side, limit, r1, r2, i);
            } else {
                lemma_top_level_not_better(m, side, limit, r2, r1, i);
            }
        }
    }
}

/// The best levels of a side are determined by the side.
pub proof fn lemma_top_levels_unique(m: SideMap, side: Side, limit: nat, r1: Seq<Level>, r2: Seq<Level>)
    requires
        is_top_levels(m, side, limit, r1),
        is_top_levels(m, side, limit, r2),
    ensures
        r1 == r2,
{
    lemma_top_levels_prefix(m, side, limit, r1, r2, r1.len() as int);
    assert forall|j: int| 0 <= j < r1.len() implies r1[j] == r2[j] by {
        assert(m.contains_key(r1[j].price.0));
        assert(m.contains_key(r2[j].price.0));
    }
    assert(r1 =~= r2);
}


proof fn lemma_apply_levels_keeps_side(m: SideMap, levels: Seq<Level>)
    requires
        side_well_formed(m),
    ensures
        side_well_formed(apply_levels(m, levels).0),
    decreases levels.len(),
{
    if levels.len() > 0 && level_error(levels[0]) is None {
        let m1 = apply_level_spec(m, levels[0]);
        assert(side_well_formed(m1));
        lemma_apply_levels_keeps_side(m1, levels.drop_first());
    }
}

/// Level updates keep a book well formed: whatever a diff holds, and whether
/// or not one of its levels is refused, both sides keep positive prices and
/// positive quantities only.
pub proof fn lemma_apply_diff_keeps_book_well_formed(
    bids: SideMap,
    asks: SideMap,
    diff_bids: Seq<Level>,
    diff_asks: Seq<Level>,
)
    requires
        book_well_formed(bids, asks),
    ensures
        ({
            let (b, a, _) = apply_diff_spec(bids, asks, diff_bids, diff_asks);
            book_well_formed(b, a)
        }),
{
    lemma_apply_levels_keeps_side(bids, diff_bids);
    lemma_apply_levels_keeps_side(asks, diff_asks);
}


/// The best levels up to a smaller limit are the first ones of the best
/// levels up to a larger limit, so `levels(side, n)` is a prefix of
/// `levels(side, m)` for `n <= m`.
pub proof fn lemma_top_levels_prefix_of_longer(
    m: SideMap,
    side: Side,
    limit: nat,
    larger: nat,
    r: Seq<Level>,
    longer: Seq<Level>,
)
    requires
        limit <= larger,
        is_top_levels(m, side, limit, r),
        is_top_levels(m, side, larger, longer),
    ensures
        r == longer.take(r.len() as int),
{
    let t = longer.take(r.len() as int);
    assert forall|k: i128|
        #[trigger] m.contains_key(k) && !(exists|i: int| 0 <= i < t.len() && t[i].price.0 == k)
        implies forall|i: int| 0 <= i < t.len() ==> better(side, #[trigger] t[i].price.0, k) by {
        if exists|j: int| 0 <= j < longer.len() && longer[j].price.0 == k {
            let j = choose|j: int| 0 <= j < longer.len() && longer[j].price.0 == k;
            assert(j >= t.len()) by {
                if j < t.len() {
                    assert(t[j].price.0 == k);
                }
            }
            assert forall|i: int| 0 <= i < t.len() implies better(side, #[trigger] t[i].price.0, k) by {
                assert(t[i] == longer[i]);
                assert(better(side, longer[i].price.0, longer[j].price.0));
            }
        } else {
            assert forall|i: int| 0 <= i < t.len() implies better(side, #[trigger] t[i].price.0, k) by {
                assert(t[i] == longer[i]);
            }
        }
    }
    assert(is_top_levels(m, side, limit, t));
    lemma_top_levels_unique(m, side, limit, r, t);
}

/// The single best level of a side is its best entry: `levels(side, 1)` is
/// empty exactly when the side is, and otherwise holds `best(side)`.
pub proof fn lemma_one_top_level_is_best(m: SideMap, side: Side, r: Seq<Level>)
    requires
        is_top_levels(m, side, 1, r),
    ensures
        r.len() == 0 <==> m.dom().len() == 0,
        r.len() == 1 ==> is_best(m, side, r[0]),
{
    if r.len() == 1 {
        assert forall|k: i128| #[trigger] m.contains_key(k) implies match side {
            Side::Bid => k <= r[0].price.0,
            Side::Ask => r[0].price.0 <= k,
        } by {
            if k != r[0].price.0 {
                assert(!(exists|i: int| 0 <= i < r.len() && r[i].price.0 == k));
                assert(better(side, r[0].price.0, k));
            }
        }
    }
}


/// A book is crossed exactly when it has a best bid and a best ask and the
/// bid's price is at or above the ask's: `is_crossed` agrees with comparing
/// what `best_bid` and `best_ask` return.
pub proof fn lemma_crossed_by_best_levels(bids: SideMap, asks: SideMap, bid: Option<Level>, ask: Option<Level>)
    requires
        bid is Some <==> bids.dom().len() > 0,
        bid matches Some(l) ==> l.price.0 == best_price(bids, Side::Bid),
        ask is Some <==> asks.dom().len() > 0,
        ask matches Some(l) ==> l.price.0 == best_price(asks, Side::Ask),
    ensures
        (bids.dom().len() > 0 && asks.dom().len() > 0 && best_price(bids, Side::Bid) >= best_price(
            asks,
            Side::Ask,
        )) == match (bid, ask) {
            (Some(x), Some(y)) => x.price.0 >= y.price.0,
            _ => false,
        },
{
}

} // verus!
