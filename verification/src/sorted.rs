//! Lists of named rows kept in the order of their names.

use crate::text::{lemma_lex_lt_asymmetric, lemma_lex_lt_irreflexive, lemma_lex_lt_total,
    lemma_lex_lt_transitive, lex_lt, str_lt};
use vstd::prelude::*;

verus! {

/// Where a name belongs in a list of names: `(index, true)` if the name stands
/// at `index`, `(index, false)` if it is absent and would go in at `index`.
///
/// The list is read from its end: names that come after `name` are passed
/// over, and the search stops at the first name that does not.
pub open spec fn slot(keys: Seq<Seq<char>>, name: Seq<char>) -> (int, bool)
    decreases keys.len(),
{
    if keys.len() == 0 {
        (0, false)
    } else if keys.last() == name {
        (keys.len() - 1, true)
    } else if lex_lt(name, keys.last()) {
        slot(keys.drop_last(), name)
    } else {
        (keys.len() as int, false)
    }
}

/// Each name comes strictly before the next.
pub open spec fn strictly_sorted(keys: Seq<Seq<char>>) -> bool {
    forall|i: int, j: int| 0 <= i < j < keys.len() ==> lex_lt(#[trigger] keys[i], #[trigger] keys[j])
}

/// The list of names once `name` has its place in it: as it was if the name
/// was found, else with the name put in at its slot.
pub open spec fn slotted(keys: Seq<Seq<char>>, name: Seq<char>) -> Seq<Seq<char>> {
    if slot(keys, name).1 {
        keys
    } else {
        keys.insert(slot(keys, name).0, name)
    }
}

/// The first `n` names of a list as a set: in the order of the names, each once.
pub open spec fn name_set(list: Seq<Seq<char>>, n: nat) -> Seq<Seq<char>>
    decreases n,
{
    if n == 0 || n > list.len() {
        Seq::empty()
    } else {
        slotted(name_set(list, (n - 1) as nat), list[n - 1])
    }
}

/// The names of a list of rows.
pub open spec fn row_names<V>(rows: Seq<(String, V)>) -> Seq<Seq<char>> {
    Seq::new(rows.len(), |i: int| rows[i].0@)
}

/// The slot is an index into the list, or its length when the name is absent.
pub proof fn lemma_slot_bounds(keys: Seq<Seq<char>>, name: Seq<char>)
    ensures
        0 <= slot(keys, name).0 <= keys.len(),
        slot(keys, name).1 ==> slot(keys, name).0 < keys.len() && keys[slot(keys, name).0] == name,
    decreases keys.len(),
{
    if keys.len() > 0 && keys.last() != name && lex_lt(name, keys.last()) {
        lemma_slot_bounds(keys.drop_last(), name);
    }
}

/// In a sorted list a name is found exactly when it is there.
pub proof fn lemma_slot_finds(keys: Seq<Seq<char>>, name: Seq<char>)
    requires
        strictly_sorted(keys),
    ensures
        slot(keys, name).1 == keys.contains(name),
    decreases keys.len(),
{
    lemma_slot_bounds(keys, name);
    if keys.len() > 0 {
        let last = keys.last();
        let front = keys.drop_last();
        if last != name {
            if lex_lt(name, last) {
                lemma_slot_finds(front, name);
                if keys.contains(name) {
                    let p = choose|p: int| 0 <= p < keys.len() && keys[p] == name;
                    assert(front[p] == name);
                }
                if front.contains(name) {
                    let p = choose|p: int| 0 <= p < front.len() && front[p] == name;
                    assert(keys[p] == name);
                }
            } else {
                lemma_lex_lt_total(name, last);
                if keys.contains(name) {
                    let p = choose|p: int| 0 <= p < keys.len() && keys[p] == name;
                    assert(lex_lt(keys[p], keys[keys.len() - 1]));
                    lemma_lex_lt_asymmetric(name, last);
                }
            }
        }
    }
}

/// In a sorted list that lacks a name, every name before its slot comes
/// before it and every name from its slot on comes after it.
pub proof fn lemma_slot_splits(keys: Seq<Seq<char>>, name: Seq<char>)
    requires
        strictly_sorted(keys),
        !slot(keys, name).1,
    ensures
        forall|i: int| 0 <= i < slot(keys, name).0 ==> lex_lt(#[trigger] keys[i], name),
        forall|i: int| slot(keys, name).0 <= i < keys.len() ==> lex_lt(name, #[trigger] keys[i]),
    decreases keys.len(),
{
    lemma_slot_bounds(keys, name);
    if keys.len() > 0 {
        let last = keys.last();
        let front = keys.drop_last();
        if lex_lt(name, last) {
            lemma_slot_splits(front, name);
            lemma_slot_bounds(front, name);
            assert forall|i: int| 0 <= i < slot(keys, name).0 implies lex_lt(
                #[trigger] keys[i],
                name,
            ) by {
                assert(keys[i] == front[i]);
            }
            assert forall|i: int| slot(keys, name).0 <= i < keys.len() implies lex_lt(
                name,
                #[trigger] keys[i],
            ) by {
                if i < front.len() {
                    assert(keys[i] == front[i]);
                }
            }
        } else {
            lemma_lex_lt_total(name, last);
            assert forall|i: int| 0 <= i < keys.len() implies lex_lt(#[trigger] keys[i], name) by {
                if i < keys.len() - 1 {
                    assert(lex_lt(keys[i], keys[keys.len() - 1]));
                    lemma_lex_lt_transitive(keys[i], last, name);
                }
            }
        }
    }
}

/// A name that a sorted list lacks can go in at its slot, and the list stays sorted.
pub proof fn lemma_insert_keeps_sorted(keys: Seq<Seq<char>>, name: Seq<char>)
    requires
        strictly_sorted(keys),
        !slot(keys, name).1,
    ensures
        strictly_sorted(keys.insert(slot(keys, name).0, name)),
{
    lemma_slot_bounds(keys, name);
    lemma_slot_splits(keys, name);
    let at = slot(keys, name).0;
    let after = keys.insert(at, name);
    assert forall|i: int, j: int| 0 <= i < j < after.len() implies lex_lt(
        #[trigger] after[i],
        #[trigger] after[j],
    ) by {
        if i < at {
            assert(after[i] == keys[i]);
        } else if i > at {
            assert(after[i] == keys[i - 1]);
        }
        if j < at {
            assert(after[j] == keys[j]);
        } else if j > at {
            assert(after[j] == keys[j - 1]);
        }
        if i < at && j > at {
            lemma_lex_lt_transitive(keys[i], name, keys[j - 1]);
        }
    }
}

/// The names of a sorted list are all different.
pub proof fn lemma_sorted_is_distinct(keys: Seq<Seq<char>>)
    requires
        strictly_sorted(keys),
    ensures
        keys.no_duplicates(),
{
    assert forall|i: int, j: int| 0 <= i < keys.len() && 0 <= j < keys.len() && i != j implies keys[i]
        != keys[j] by {
        if i < j {
            assert(lex_lt(keys[i], keys[j]));
            lemma_lex_lt_irreflexive(keys[i]);
        } else {
            assert(lex_lt(keys[j], keys[i]));
            lemma_lex_lt_irreflexive(keys[i]);
        }
    }
}

/// Giving a name its place adds that name and no other, and keeps a sorted list sorted.
pub proof fn lemma_slotted(keys: Seq<Seq<char>>, name: Seq<char>)
    ensures
        forall|other: Seq<char>|
            slotted(keys, name).contains(other) <==> (keys.contains(other) || other == name),
        strictly_sorted(keys) ==> strictly_sorted(slotted(keys, name)),
{
    lemma_slot_bounds(keys, name);
    let at = slot(keys, name).0;
    if slot(keys, name).1 {
        assert(keys[at] == name);
    } else {
        let after = keys.insert(at, name);
        assert(after[at] == name);
        assert forall|other: Seq<char>| after.contains(other) implies keys.contains(other) || other
            == name by {
            let p = choose|p: int| 0 <= p < after.len() && after[p] == other;
            if p < at {
                assert(keys[p] == other);
            } else if p > at {
                assert(keys[p - 1] == other);
            }
        }
        assert forall|other: Seq<char>| keys.contains(other) implies after.contains(other) by {
            let p = choose|p: int| 0 <= p < keys.len() && keys[p] == other;
            if p < at {
                assert(after[p] == other);
            } else {
                assert(after[p + 1] == other);
            }
        }
        if strictly_sorted(keys) {
            lemma_insert_keeps_sorted(keys, name);
        }
    }
}

/// Two sorted lists that hold the same names are the same list.
pub proof fn lemma_sorted_lists_agree(a: Seq<Seq<char>>, b: Seq<Seq<char>>)
    requires
        strictly_sorted(a),
        strictly_sorted(b),
        forall|name: Seq<char>| #[trigger] a.contains(name) ==> b.contains(name),
        forall|name: Seq<char>| #[trigger] b.contains(name) ==> a.contains(name),
    ensures
        a == b,
    decreases a.len(),
{
    if a.len() == 0 {
        if b.len() > 0 {
            assert(b.contains(b[0]));
            assert(a.contains(b[0]));
        }
        assert(a =~= b);
    } else {
        let top = a.last();
        assert(a[a.len() - 1] == top);
        assert(a.contains(top));
        assert(b.contains(top));
        let q = choose|q: int| 0 <= q < b.len() && b[q] == top;
        if q < b.len() - 1 {
            let other = b[b.len() - 1];
            assert(lex_lt(b[q], b[b.len() - 1]));
            assert(b.contains(other));
            assert(a.contains(other));
            let p = choose|p: int| 0 <= p < a.len() && a[p] == other;
            lemma_lex_lt_asymmetric(top, other);
            if p < a.len() - 1 {
                assert(lex_lt(a[p], a[a.len() - 1]));
            }
        }
        assert(b.last() == top);
        let front_a = a.drop_last();
        let front_b = b.drop_last();
        assert forall|name: Seq<char>| #[trigger] front_a.contains(name) implies front_b.contains(
            name,
        ) by {
            let i = choose|i: int| 0 <= i < front_a.len() && front_a[i] == name;
            assert(a[i] == name);
            assert(lex_lt(a[i], a[a.len() - 1]));
            assert(a.contains(name));
            assert(b.contains(name));
            let k = choose|k: int| 0 <= k < b.len() && b[k] == name;
            if k == b.len() - 1 {
                lemma_lex_lt_irreflexive(name);
            }
            assert(front_b[k] == name);
        }
        assert forall|name: Seq<char>| #[trigger] front_b.contains(name) implies front_a.contains(
            name,
        ) by {
            let i = choose|i: int| 0 <= i < front_b.len() && front_b[i] == name;
            assert(b[i] == name);
            assert(lex_lt(b[i], b[b.len() - 1]));
            assert(b.contains(name));
            assert(a.contains(name));
            let k = choose|k: int| 0 <= k < a.len() && a[k] == name;
            if k == a.len() - 1 {
                lemma_lex_lt_irreflexive(name);
            }
            assert(front_a[k] == name);
        }
        assert forall|i: int, j: int| 0 <= i < j < front_a.len() implies lex_lt(
            #[trigger] front_a[i],
            #[trigger] front_a[j],
        ) by {
            assert(lex_lt(a[i], a[j]));
        }
        assert forall|i: int, j: int| 0 <= i < j < front_b.len() implies lex_lt(
            #[trigger] front_b[i],
            #[trigger] front_b[j],
        ) by {
            assert(lex_lt(b[i], b[j]));
        }
        lemma_sorted_lists_agree(front_a, front_b);
        assert(a =~= front_a.push(top));
        assert(b =~= front_b.push(top));
    }
}

/// The set of the first `n` names of a list stands in the order of the
/// names, each once, and holds those names and no other.
pub proof fn lemma_name_set(list: Seq<Seq<char>>, n: nat)
    requires
        n <= list.len(),
    ensures
        strictly_sorted(name_set(list, n)),
        forall|name: Seq<char>| #[trigger] name_set(list, n).contains(name) ==> list.contains(name),
        forall|i: int| 0 <= i < n ==> name_set(list, n).contains(#[trigger] list[i]),
    decreases n,
{
    if n > 0 {
        let before = name_set(list, (n - 1) as nat);
        lemma_name_set(list, (n - 1) as nat);
        lemma_slotted(before, list[n - 1]);
        assert forall|name: Seq<char>| #[trigger]
            name_set(list, n).contains(name) implies list.contains(name) by {
            if !before.contains(name) {
                assert(list[n - 1] == name);
            }
        }
        assert forall|i: int| 0 <= i < n implies name_set(list, n).contains(#[trigger] list[i]) by {
            if i < n - 1 {
                assert(before.contains(list[i]));
            }
            assert(slotted(before, list[n - 1]).contains(list[i]) <==> (before.contains(list[i])
                || list[i] == list[n - 1]));
        }
    } else {
        assert(name_set(list, n) =~= Seq::<Seq<char>>::empty());
    }
}

/// Finds where `name` belongs among the rows.
pub fn find_slot<V>(rows: &Vec<(String, V)>, name: &String) -> (r: (usize, bool))
    ensures
        (r.0 as int, r.1) == slot(row_names(rows@), name@),
        r.0 <= rows.len(),
        r.1 ==> r.0 < rows.len() && rows@[r.0 as int].0@ == name@,
{
    let ghost keys = row_names(rows@);
    proof {
        lemma_slot_bounds(keys, name@);
    }
    let mut j: usize = rows.len();
    assert(keys.take(j as int) =~= keys);
    while j > 0
        invariant
            j <= rows.len(),
            keys == row_names(rows@),
            slot(keys, name@) == slot(keys.take(j as int), name@),
        decreases j,
    {
        let ghost head = keys.take(j as int);
        assert(head.last() == rows@[j - 1].0@);
        assert(head.drop_last() =~= keys.take(j - 1));
        if rows[j - 1].0 == *name {
            return (j - 1, true);
        }
        if !str_lt(name.as_str(), rows[j - 1].0.as_str()) {
            return (j, false);
        }
        j -= 1;
    }
    (0, false)
}

} // verus!
