//! Putting sibling fragments in a fixed order, each distinct one once: by
//! rank, and those of one rank by their canonical code.

use crate::fragment::{Fragment, Shape};
use crate::code::{code, encode, lemma_code_tells_apart};
use crate::text::{chars_lt, lemma_lex_lt_asymmetric, lemma_lex_lt_irreflexive, lemma_lex_lt_total,
    lemma_lex_lt_transitive, lex_lt};
use vstd::prelude::*;

verus! {

/// What siblings are ordered by: a 64-bit hash, or a text.
#[derive(Debug, PartialEq, Eq)]
pub enum SortKey {
    Hash(u64),
    Text(Vec<char>),
}

/// The mathematical value of a [`SortKey`].
pub enum Rank {
    Hash(u64),
    Text(Seq<char>),
}

impl View for SortKey {
    type V = Rank;

    open spec fn view(&self) -> Rank {
        match self {
            SortKey::Hash(h) => Rank::Hash(*h),
            SortKey::Text(t) => Rank::Text(t@),
        }
    }
}

/// The order of ranks: hashes by size, texts lexicographically, and any hash
/// before any text.
pub open spec fn rank_lt(a: Rank, b: Rank) -> bool {
    match (a, b) {
        (Rank::Hash(x), Rank::Hash(y)) => x < y,
        (Rank::Text(s), Rank::Text(t)) => lex_lt(s, t),
        (Rank::Hash(_), Rank::Text(_)) => true,
        (Rank::Text(_), Rank::Hash(_)) => false,
    }
}

/// The order of ranked shapes: by rank, and shapes of one rank by their
/// canonical code. Of two different pairs one comes before the other.
pub open spec fn pair_lt(a: (Rank, Shape), b: (Rank, Shape)) -> bool {
    rank_lt(a.0, b.0) || (a.0 == b.0 && lex_lt(code(a.1), code(b.1)))
}

/// Where a new pair goes in a list of pairs: behind the last one that does
/// not come after it.
pub open spec fn landing(list: Seq<(Rank, Shape)>, pair: (Rank, Shape)) -> int
    decreases list.len(),
{
    if list.len() == 0 {
        0
    } else if pair_lt(pair, list.last()) {
        landing(list.drop_last(), pair)
    } else {
        list.len() as int
    }
}

/// The list with one more ranked shape: unchanged if the pair is in it
/// already, else with the pair in its place.
pub open spec fn placed(list: Seq<(Rank, Shape)>, rank: Rank, item: Shape) -> Seq<(Rank, Shape)> {
    if list.contains((rank, item)) {
        list
    } else {
        list.insert(landing(list, (rank, item)), (rank, item))
    }
}

/// The distinct pairs of a list in their order: by rank, and those of one
/// rank by canonical code.
pub open spec fn arranged(list: Seq<(Rank, Shape)>) -> Seq<(Rank, Shape)>
    decreases list.len(),
{
    if list.len() == 0 {
        Seq::empty()
    } else {
        placed(arranged(list.drop_last()), list.last().0, list.last().1)
    }
}

/// The shapes of a list of ranked shapes.
pub open spec fn shapes_of(list: Seq<(Rank, Shape)>) -> Seq<Shape> {
    Seq::new(list.len(), |i: int| list[i].1)
}

/// The ranked shapes of a list of keyed fragments, pair by pair.
pub open spec fn ranked(list: Seq<(SortKey, Fragment)>) -> Seq<(Rank, Shape)> {
    Seq::new(list.len(), |i: int| (list[i].0@, list[i].1@))
}

/// Whether each pair of a list comes before every later one.
pub open spec fn in_order(list: Seq<(Rank, Shape)>) -> bool {
    forall|i: int, j: int| 0 <= i < j < list.len() ==> pair_lt(#[trigger] list[i], #[trigger] list[j])
}

/// The landing place is an index into the list or its length.
pub proof fn lemma_landing_bounds(list: Seq<(Rank, Shape)>, pair: (Rank, Shape))
    ensures
        0 <= landing(list, pair) <= list.len(),
    decreases list.len(),
{
    if list.len() > 0 && pair_lt(pair, list.last()) {
        lemma_landing_bounds(list.drop_last(), pair);
    }
}

/// The order of ranks never holds in both directions.
pub proof fn lemma_rank_lt_asymmetric(a: Rank, b: Rank)
    requires
        rank_lt(a, b),
    ensures
        !rank_lt(b, a),
        a != b,
{
    match (a, b) {
        (Rank::Text(s), Rank::Text(t)) => {
            lemma_lex_lt_asymmetric(s, t);
            lemma_lex_lt_irreflexive(s);
        },
        _ => {},
    }
}

/// A rank that comes before another comes before any third rank, or the
/// third comes before the other.
pub proof fn lemma_rank_lt_between(a: Rank, b: Rank, c: Rank)
    requires
        rank_lt(a, c),
    ensures
        rank_lt(a, b) || rank_lt(b, c),
{
    match (a, b, c) {
        (Rank::Text(s), Rank::Text(t), Rank::Text(u)) => {
            lemma_lex_lt_total(s, t);
            if lex_lt(t, s) {
                lemma_lex_lt_transitive(t, s, u);
            }
        },
        _ => {},
    }
}

/// Of two different ranks, one comes before the other.
pub proof fn lemma_rank_lt_total(a: Rank, b: Rank)
    ensures
        a == b || rank_lt(a, b) || rank_lt(b, a),
{
    match (a, b) {
        (Rank::Text(s), Rank::Text(t)) => {
            lemma_lex_lt_total(s, t);
        },
        _ => {},
    }
}

/// The order of pairs never holds in both directions, and no pair comes
/// before itself.
pub proof fn lemma_pair_lt_asymmetric(a: (Rank, Shape), b: (Rank, Shape))
    requires
        pair_lt(a, b),
    ensures
        !pair_lt(b, a),
        a != b,
{
    if rank_lt(a.0, b.0) {
        lemma_rank_lt_asymmetric(a.0, b.0);
    } else {
        lemma_lex_lt_asymmetric(code(a.1), code(b.1));
        lemma_lex_lt_irreflexive(code(a.1));
        if rank_lt(b.0, a.0) {
            lemma_rank_lt_asymmetric(b.0, a.0);
        }
    }
}

/// Of two different pairs, one comes before the other.
pub proof fn lemma_pair_lt_total(a: (Rank, Shape), b: (Rank, Shape))
    ensures
        a == b || pair_lt(a, b) || pair_lt(b, a),
{
    lemma_rank_lt_total(a.0, b.0);
    if a.0 == b.0 && a.1 != b.1 {
        if code(a.1) == code(b.1) {
            lemma_code_tells_apart(a.1, b.1);
        }
        lemma_lex_lt_total(code(a.1), code(b.1));
    }
}

/// The order of pairs is transitive.
pub proof fn lemma_pair_lt_transitive(a: (Rank, Shape), b: (Rank, Shape), c: (Rank, Shape))
    requires
        pair_lt(a, b),
        pair_lt(b, c),
    ensures
        pair_lt(a, c),
{
    if rank_lt(a.0, b.0) {
        if rank_lt(b.0, c.0) {
            lemma_rank_lt_between(a.0, c.0, b.0);
            if rank_lt(c.0, b.0) {
                lemma_rank_lt_asymmetric(b.0, c.0);
            }
        }
    } else if !rank_lt(b.0, c.0) {
        lemma_lex_lt_transitive(code(a.1), code(b.1), code(c.1));
    }
}

/// In a list in order, every pair before the landing place comes before the
/// new pair or is the new pair, and every pair from the landing place on
/// comes after it.
pub proof fn lemma_landing_splits(list: Seq<(Rank, Shape)>, pair: (Rank, Shape))
    requires
        in_order(list),
    ensures
        forall|i: int|
            0 <= i < landing(list, pair) ==> !pair_lt(pair, #[trigger] list[i]),
        forall|i: int|
            landing(list, pair) <= i < list.len() ==> pair_lt(pair, #[trigger] list[i]),
    decreases list.len(),
{
    lemma_landing_bounds(list, pair);
    if list.len() > 0 {
        let front = list.drop_last();
        let last = list.last();
        if pair_lt(pair, last) {
            assert forall|i: int, j: int| 0 <= i < j < front.len() implies pair_lt(
                #[trigger] front[i],
                #[trigger] front[j],
            ) by {
                assert(pair_lt(list[i], list[j]));
            }
            lemma_landing_splits(front, pair);
            lemma_landing_bounds(front, pair);
            let at = landing(list, pair);
            assert forall|i: int| 0 <= i < at implies !pair_lt(pair, #[trigger] list[i]) by {
                assert(list[i] == front[i]);
            }
            assert forall|i: int| at <= i < list.len() implies pair_lt(
                pair,
                #[trigger] list[i],
            ) by {
                if i < front.len() {
                    assert(list[i] == front[i]);
                }
            }
        } else {
            assert forall|i: int| 0 <= i < list.len() implies !pair_lt(
                pair,
                #[trigger] list[i],
            ) by {
                if i < list.len() - 1 {
                    assert(pair_lt(list[i], list[list.len() - 1]));
                    if pair_lt(pair, list[i]) {
                        lemma_pair_lt_transitive(pair, list[i], last);
                    }
                }
            }
        }
    }
}

/// Placing a pair adds that pair and no other, and keeps a list in order.
pub proof fn lemma_placed(list: Seq<(Rank, Shape)>, rank: Rank, item: Shape)
    ensures
        forall|pair: (Rank, Shape)|
            placed(list, rank, item).contains(pair) <==> (list.contains(pair) || pair == (
                rank,
                item,
            )),
        in_order(list) ==> in_order(placed(list, rank, item)),
{
    let new = (rank, item);
    if !list.contains(new) {
        lemma_landing_bounds(list, new);
        let at = landing(list, new);
        let after = list.insert(at, new);
        assert(after[at] == new);
        assert forall|pair: (Rank, Shape)| after.contains(pair) implies list.contains(pair) || pair
            == new by {
            let p = choose|p: int| 0 <= p < after.len() && after[p] == pair;
            if p < at {
                assert(list[p] == pair);
            } else if p > at {
                assert(list[p - 1] == pair);
            }
        }
        assert forall|pair: (Rank, Shape)| list.contains(pair) implies after.contains(pair) by {
            let p = choose|p: int| 0 <= p < list.len() && list[p] == pair;
            if p < at {
                assert(after[p] == pair);
            } else {
                assert(after[p + 1] == pair);
            }
        }
        if in_order(list) {
            lemma_landing_splits(list, new);
            assert forall|i: int, j: int| 0 <= i < j < after.len() implies pair_lt(
                #[trigger] after[i],
                #[trigger] after[j],
            ) by {
                if i < at {
                    assert(after[i] == list[i]);
                } else if i > at {
                    assert(after[i] == list[i - 1]);
                }
                if j < at {
                    assert(after[j] == list[j]);
                } else if j > at {
                    assert(after[j] == list[j - 1]);
                }
                if j == at {
                    assert(!pair_lt(new, list[i]));
                    assert(list.contains(list[i]));
                    lemma_pair_lt_total(list[i], new);
                } else if i < at && j > at {
                    assert(pair_lt(list[i], list[j - 1]));
                }
            }
        }
    }
}

/// A list in order holds no pair twice.
pub proof fn lemma_in_order_is_distinct(list: Seq<(Rank, Shape)>)
    requires
        in_order(list),
    ensures
        list.no_duplicates(),
{
    assert forall|i: int, j: int|
        0 <= i < list.len() && 0 <= j < list.len() && i != j implies list[i] != list[j] by {
        if i < j {
            lemma_pair_lt_asymmetric(list[i], list[j]);
        } else {
            lemma_pair_lt_asymmetric(list[j], list[i]);
        }
    }
}

/// The arranged list holds the pairs of the list it was made from, each
/// once, in their order.
pub proof fn lemma_arranged(list: Seq<(Rank, Shape)>)
    ensures
        in_order(arranged(list)),
        arranged(list).no_duplicates(),
        forall|pair: (Rank, Shape)| arranged(list).contains(pair) <==> list.contains(pair),
        list.len() > 0 ==> arranged(list).len() > 0,
    decreases list.len(),
{
    if list.len() > 0 {
        let front = list.drop_last();
        let last = list.last();
        lemma_arranged(front);
        lemma_placed(arranged(front), last.0, last.1);
        assert forall|pair: (Rank, Shape)| list.contains(pair) implies front.contains(pair) || pair
            == last by {
            let p = choose|p: int| 0 <= p < list.len() && list[p] == pair;
            if p < front.len() {
                assert(front[p] == pair);
            }
        }
        assert forall|pair: (Rank, Shape)| front.contains(pair) implies list.contains(pair) by {
            let p = choose|p: int| 0 <= p < front.len() && front[p] == pair;
            assert(list[p] == pair);
        }
        assert(list[list.len() - 1] == last);
        assert(arranged(list).contains((last.0, last.1)));
    }
    lemma_in_order_is_distinct(arranged(list));
}

/// Two lists in order that hold the same pairs are the same list.
pub proof fn lemma_lists_in_order_agree(a: Seq<(Rank, Shape)>, b: Seq<(Rank, Shape)>)
    requires
        in_order(a),
        in_order(b),
        forall|pair: (Rank, Shape)| #[trigger] a.contains(pair) ==> b.contains(pair),
        forall|pair: (Rank, Shape)| #[trigger] b.contains(pair) ==> a.contains(pair),
    ensures
        a == b,
    decreases a.len(),
{
    if a.len() == 0 {
        if b.len() > 0 {
            assert(b.contains(b[0]));
            assert(a.contains(b[0]));
        }
        assert(a =~= b);
    } else {
        let top = a.last();
        assert(a[a.len() - 1] == top);
        assert(a.contains(top));
        assert(b.contains(top));
        let q = choose|q: int| 0 <= q < b.len() && b[q] == top;
        if q < b.len() - 1 {
            let other = b[b.len() - 1];
            assert(pair_lt(b[q], b[b.len() - 1]));
            assert(b.contains(other));
            assert(a.contains(other));
            let p = choose|p: int| 0 <= p < a.len() && a[p] == other;
            lemma_pair_lt_asymmetric(top, other);
            if p < a.len() - 1 {
                assert(pair_lt(a[p], a[a.len() - 1]));
            }
        }
        assert(b.last() == top);
        let front_a = a.drop_last();
        let front_b = b.drop_last();
        assert forall|pair: (Rank, Shape)| #[trigger] front_a.contains(pair) implies front_b.contains(
            pair,
        ) by {
            let i = choose|i: int| 0 <= i < front_a.len() && front_a[i] == pair;
            assert(a[i] == pair);
            assert(pair_lt(a[i], a[a.len() - 1]));
            assert(a.contains(pair));
            assert(b.contains(pair));
            let k = choose|k: int| 0 <= k < b.len() && b[k] == pair;
            if k == b.len() - 1 {
                lemma_pair_lt_asymmetric(pair, top);
            }
            assert(front_b[k] == pair);
        }
        assert forall|pair: (Rank, Shape)| #[trigger] front_b.contains(pair) implies front_a.contains(
            pair,
        ) by {
            let i = choose|i: int| 0 <= i < front_b.len() && front_b[i] == pair;
            assert(b[i] == pair);
            assert(pair_lt(b[i], b[b.len() - 1]));
            assert(b.contains(pair));
            assert(a.contains(pair));
            let k = choose|k: int| 0 <= k < a.len() && a[k] == pair;
            if k == a.len() - 1 {
                lemma_pair_lt_asymmetric(pair, top);
            }
            assert(front_a[k] == pair);
        }
        assert forall|i: int, j: int| 0 <= i < j < front_a.len() implies pair_lt(
            #[trigger] front_a[i],
            #[trigger] front_a[j],
        ) by {
            assert(pair_lt(a[i], a[j]));
        }
        assert forall|i: int, j: int| 0 <= i < j < front_b.len() implies pair_lt(
            #[trigger] front_b[i],
            #[trigger] front_b[j],
        ) by {
            assert(pair_lt(b[i], b[j]));
        }
        lemma_lists_in_order_agree(front_a, front_b);
        assert(a =~= front_a.push(top));
        assert(b =~= front_b.push(top));
    }
}

/// The arranged list depends on the pairs it is made from alone, not on
/// their order nor on how often each occurs.
pub proof fn lemma_arranged_of_the_same_pairs(a: Seq<(Rank, Shape)>, b: Seq<(Rank, Shape)>)
    requires
        forall|pair: (Rank, Shape)| #[trigger] a.contains(pair) ==> b.contains(pair),
        forall|pair: (Rank, Shape)| #[trigger] b.contains(pair) ==> a.contains(pair),
    ensures
        arranged(a) == arranged(b),
{
    lemma_arranged(a);
    lemma_arranged(b);
    assert forall|pair: (Rank, Shape)| #[trigger] arranged(a).contains(pair) implies arranged(
        b,
    ).contains(pair) by {
        assert(a.contains(pair));
    }
    assert forall|pair: (Rank, Shape)| #[trigger] arranged(b).contains(pair) implies arranged(
        a,
    ).contains(pair) by {
        assert(b.contains(pair));
    }
    lemma_lists_in_order_agree(arranged(a), arranged(b));
}

/// Whether two texts are the same.
pub fn chars_eq(a: &Vec<char>, b: &Vec<char>) -> (r: bool)
    ensures
        r == (a@ == b@),
{
    if a.len() != b.len() {
        return false;
    }
    let mut i: usize = 0;
    while i < a.len()
        invariant
            a.len() == b.len(),
            i <= a.len(),
            forall|j: int| 0 <= j < i ==> a@[j] == b@[j],
        decreases a.len() - i,
    {
        if a[i] != b[i] {
            return false;
        }
        i += 1;
    }
    assert(a@ =~= b@);
    true
}

impl SortKey {
    /// Whether two keys are the same.
    pub fn same(&self, other: &SortKey) -> (r: bool)
        ensures
            r == (self@ == other@),
    {
        match (self, other) {
            (SortKey::Hash(x), SortKey::Hash(y)) => *x == *y,
            (SortKey::Text(s), SortKey::Text(t)) => chars_eq(s, t),
            _ => false,
        }
    }

    /// Whether this key comes strictly before the other.
    pub fn before(&self, other: &SortKey) -> (r: bool)
        ensures
            r == rank_lt(self@, other@),
    {
        match (self, other) {
            (SortKey::Hash(x), SortKey::Hash(y)) => *x < *y,
            (SortKey::Text(s), SortKey::Text(t)) => chars_lt(s, t),
            (SortKey::Hash(_), SortKey::Text(_)) => true,
            (SortKey::Text(_), SortKey::Hash(_)) => false,
        }
    }
}

/// Whether the list holds the pair of `key` and a fragment of the shape of `item`.
pub fn holds_pair(list: &Vec<(SortKey, Fragment)>, key: &SortKey, item: &Fragment) -> (r: bool)
    ensures
        r == ranked(list@).contains((key@, item@)),
{
    let mut i: usize = 0;
    while i < list.len()
        invariant
            i <= list.len(),
            forall|j: int| 0 <= j < i ==> ranked(list@)[j] != (key@, item@),
        decreases list.len() - i,
    {
        if list[i].0.same(key) && list[i].1.same(item) {
            assert(ranked(list@)[i as int] == (key@, item@));
            return true;
        }
        i += 1;
    }
    false
}

/// Whether the first keyed fragment comes before the second: by key, and
/// with the same key by canonical code.
pub fn comes_before(key: &SortKey, item: &Fragment, other_key: &SortKey, other: &Fragment) -> (r:
    bool)
    ensures
        r == pair_lt((key@, item@), (other_key@, other@)),
{
    if key.before(other_key) {
        true
    } else if other_key.before(key) {
        proof {
            lemma_rank_lt_asymmetric(other_key@, key@);
        }
        false
    } else {
        proof {
            lemma_rank_lt_total(key@, other_key@);
        }
        let left = encode(item);
        let right = encode(other);
        chars_lt(&left, &right)
    }
}

/// Finds where a new keyed fragment goes in the list.
pub fn find_landing(list: &Vec<(SortKey, Fragment)>, key: &SortKey, item: &Fragment) -> (r: usize)
    ensures
        r as int == landing(ranked(list@), (key@, item@)),
        r <= list.len(),
{
    let ghost pairs = ranked(list@);
    let mut j: usize = list.len();
    assert(pairs.take(j as int) =~= pairs);
    while j > 0
        invariant
            j <= list.len(),
            pairs == ranked(list@),
            landing(pairs, (key@, item@)) == landing(pairs.take(j as int), (key@, item@)),
        decreases j,
    {
        assert(pairs.take(j as int).last() == (list@[j - 1].0@, list@[j - 1].1@));
        assert(pairs.take(j as int).drop_last() =~= pairs.take(j - 1));
        if !comes_before(key, item, &list[j - 1].0, &list[j - 1].1) {
            return j;
        }
        j -= 1;
    }
    0
}

/// Puts a keyed fragment in its place, unless the same pair is there already.
pub fn place(list: &mut Vec<(SortKey, Fragment)>, key: SortKey, item: Fragment)
    ensures
        ranked(final(list)@) == placed(ranked(old(list)@), key@, item@),
{
    let ghost before = ranked(list@);
    if !holds_pair(list, &key, &item) {
        let at = find_landing(list, &key, &item);
        list.insert(at, (key, item));
        assert(ranked(list@) =~= before.insert(at as int, (key@, item@)));
    }
}

/// Puts keyed fragments in order and keeps each distinct pair once. The
/// outcome depends on the pairs alone, not on the order they come in.
pub fn arrange(keyed: Vec<(SortKey, Fragment)>) -> (r: Vec<(SortKey, Fragment)>)
    ensures
        ranked(r@) == arranged(ranked(keyed@)),
        in_order(ranked(r@)),
        ranked(r@).no_duplicates(),
        forall|pair: (Rank, Shape)| ranked(r@).contains(pair) <==> ranked(keyed@).contains(pair),
{
    proof {
        lemma_arranged(ranked(keyed@));
    }
    let ghost all = ranked(keyed@);
    let ghost pairs = keyed@;
    let mut out: Vec<(SortKey, Fragment)> = Vec::new();
    assert(all.take(0) =~= Seq::<(Rank, Shape)>::empty());
    assert(ranked(out@) =~= Seq::<(Rank, Shape)>::empty());
    for pair in it: keyed
        invariant
            it.seq() == pairs,
            all == ranked(pairs),
            ranked(out@) == arranged(all.take(it.index() as int)),
    {
        proof {
            let done = it.index() as int;
            assert((pair.0@, pair.1@) == all[done]);
            assert(all.take(done + 1).drop_last() =~= all.take(done));
            assert(all.take(done + 1).last() == all[done]);
        }
        place(&mut out, pair.0, pair.1);
    }
    assert(all.take(all.len() as int) =~= all);
    out
}

} // verus!
