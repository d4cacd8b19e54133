//! Reconciling sibling fragments: unions of distinct shapes and the merge of
//! object fragments into one.

use crate::fragment::{entries, lemma_shapes_push, names, optional_names, shapes, Fragment,
    Shape};
use crate::sorted::{find_slot, lemma_name_set, lemma_slot_bounds, lemma_slot_finds, lemma_slotted,
    lemma_sorted_is_distinct, name_set, row_names, slot, slotted, strictly_sorted};
use vstd::prelude::*;

verus! {

/// The list with `item` added at its end, unless it is there already.
pub open spec fn add_distinct(list: Seq<Shape>, item: Shape) -> Seq<Shape> {
    if list.contains(item) {
        list
    } else {
        list.push(item)
    }
}

/// The distinct members of a list, each where it first occurs.
pub open spec fn distinct(list: Seq<Shape>) -> Seq<Shape>
    decreases list.len(),
{
    if list.len() == 0 {
        Seq::empty()
    } else {
        add_distinct(distinct(list.drop_last()), list.last())
    }
}

/// What a shape contributes to a union: its variants if it is a union itself,
/// else the shape alone.
pub open spec fn alternatives(item: Shape) -> Seq<Shape> {
    match item {
        Shape::Union(variants) => variants,
        _ => seq![item],
    }
}

/// The alternatives of every member of a list, in order.
pub open spec fn flattened(list: Seq<Shape>) -> Seq<Shape>
    decreases list.len(),
{
    if list.len() == 0 {
        Seq::empty()
    } else {
        flattened(list.drop_last()) + alternatives(list.last())
    }
}

/// The union of a list of shapes: unions among them are taken apart, what
/// occurs twice is kept once, and a union of one alternative is that alternative.
pub open spec fn union_of(list: Seq<Shape>) -> Shape {
    let variants = distinct(flattened(list));
    if variants.len() == 1 {
        variants[0]
    } else {
        Shape::Union(variants)
    }
}

/// The shape that stands for a list of observed shapes: the shape itself if
/// there is exactly one, else their union.
pub open spec fn reconciled(list: Seq<Shape>) -> Shape {
    if list.len() == 1 {
        list[0]
    } else {
        union_of(list)
    }
}

/// Adding a shape to a list without repetitions leaves it without
/// repetitions, and adds that shape and no other.
pub proof fn lemma_add_distinct(list: Seq<Shape>, item: Shape)
    ensures
        list.no_duplicates() ==> add_distinct(list, item).no_duplicates(),
        forall|other: Shape|
            add_distinct(list, item).contains(other) <==> (list.contains(other) || other == item),
{
    if !list.contains(item) {
        let after = list.push(item);
        assert(after[list.len() as int] == item);
        assert forall|other: Shape| list.contains(other) implies after.contains(other) by {
            let p = choose|p: int| 0 <= p < list.len() && list[p] == other;
            assert(after[p] == other);
        }
        if list.no_duplicates() {
            assert forall|i: int, j: int|
                0 <= i < after.len() && 0 <= j < after.len() && i != j implies after[i]
                != after[j] by {
                if i < list.len() && j < list.len() {
                    assert(list[i] != list[j]);
                } else if i < list.len() {
                    assert(list.contains(list[i]));
                } else {
                    assert(list.contains(list[j]));
                }
            }
        }
    }
}

/// The distinct members of a list are its members, none of them twice.
pub proof fn lemma_distinct(list: Seq<Shape>)
    ensures
        distinct(list).no_duplicates(),
        forall|other: Shape| distinct(list).contains(other) <==> list.contains(other),
    decreases list.len(),
{
    if list.len() > 0 {
        let front = list.drop_last();
        lemma_distinct(front);
        lemma_add_distinct(distinct(front), list.last());
        assert forall|other: Shape| list.contains(other) implies front.contains(other) || other
            == list.last() by {
            let p = choose|p: int| 0 <= p < list.len() && list[p] == other;
            if p < front.len() {
                assert(front[p] == other);
            }
        }
        assert forall|other: Shape| front.contains(other) implies list.contains(other) by {
            let p = choose|p: int| 0 <= p < front.len() && front[p] == other;
            assert(list[p] == other);
        }
        assert(list[list.len() - 1] == list.last());
    }
}

/// A list without repetitions is the list of its distinct members.
pub proof fn lemma_distinct_of_distinct(list: Seq<Shape>)
    requires
        list.no_duplicates(),
    ensures
        distinct(list) == list,
    decreases list.len(),
{
    if list.len() > 0 {
        let front = list.drop_last();
        assert forall|i: int, j: int|
            0 <= i < front.len() && 0 <= j < front.len() && i != j implies front[i]
            != front[j] by {
            assert(list[i] != list[j]);
        }
        lemma_distinct_of_distinct(front);
        if front.contains(list.last()) {
            let p = choose|p: int| 0 <= p < front.len() && front[p] == list.last();
            assert(list[p] == list[list.len() - 1]);
        }
        assert(front.push(list.last()) =~= list);
    }
}

/// A list that holds no union is its own flattening.
pub proof fn lemma_flattened_plain(list: Seq<Shape>)
    requires
        forall|i: int| 0 <= i < list.len() ==> !(#[trigger] list[i] is Union),
    ensures
        flattened(list) == list,
    decreases list.len(),
{
    if list.len() > 0 {
        let front = list.drop_last();
        assert forall|i: int| 0 <= i < front.len() implies !(#[trigger] front[i] is Union) by {
            assert(front[i] == list[i]);
        }
        lemma_flattened_plain(front);
        assert(!(list[list.len() - 1] is Union));
        assert(front + seq![list.last()] =~= list);
    }
}

/// What one distinct shape yields is that shape; what two or more distinct
/// shapes yield, none of them a union, is the union that lists exactly them.
pub proof fn lemma_union_collapse(list: Seq<Shape>)
    requires
        list.no_duplicates(),
        forall|i: int| 0 <= i < list.len() ==> !(#[trigger] list[i] is Union),
    ensures
        list.len() == 1 ==> reconciled(list) == list[0],
        list.len() >= 2 ==> reconciled(list) == Shape::Union(list),
        list.len() >= 2 ==> union_of(list) == Shape::Union(list),
{
    lemma_flattened_plain(list);
    lemma_distinct_of_distinct(list);
}

/// Whether `list` holds a fragment of the shape of `item`.
pub fn holds(list: &Vec<Fragment>, item: &Fragment) -> (r: bool)
    ensures
        r == shapes(list@).contains(item@),
{
    let mut i: usize = 0;
    while i < list.len()
        invariant
            i <= list.len(),
            forall|j: int| 0 <= j < i ==> list@[j]@ != item@,
        decreases list.len() - i,
    {
        if list[i].same(item) {
            assert(shapes(list@)[i as int] == item@);
            return true;
        }
        i += 1;
    }
    assert forall|j: int| 0 <= j < shapes(list@).len() implies shapes(list@)[j] != item@ by {
        assert(shapes(list@)[j] == list@[j]@);
    }
    false
}

/// Adds a copy of `item` to `list` unless a fragment of its shape is there already.
pub fn push_distinct(list: &mut Vec<Fragment>, item: &Fragment)
    ensures
        shapes(final(list)@) == add_distinct(shapes(old(list)@), item@),
{
    if !holds(list, item) {
        proof {
            lemma_shapes_push(list@, *item);
        }
        let copy = item.clone();
        proof {
            lemma_shapes_push(list@, copy);
        }
        list.push(copy);
    }
}

/// Builds the union of a list of fragments.
pub fn unite(list: &Vec<Fragment>) -> (r: Fragment)
    ensures
        r@ == union_of(shapes(list@)),
{
    let mut variants: Vec<Fragment> = Vec::new();
    let mut i: usize = 0;
    assert(shapes(list@).take(0) =~= Seq::<Shape>::empty());
    assert(shapes(variants@) =~= Seq::<Shape>::empty());
    while i < list.len()
        invariant
            i <= list.len(),
            shapes(variants@) == distinct(flattened(shapes(list@).take(i as int))),
        decreases list.len() - i,
    {
        let ghost done = flattened(shapes(list@).take(i as int));
        assert(shapes(list@).take(i + 1).drop_last() =~= shapes(list@).take(i as int));
        assert(shapes(list@).take(i + 1).last() == list@[i as int]@);
        match &list[i] {
            Fragment::Union(inner) => {
                let mut k: usize = 0;
                assert(done + shapes(inner@).take(0) =~= done);
                while k < inner.len()
                    invariant
                        k <= inner.len(),
                        shapes(variants@) == distinct(done + shapes(inner@).take(k as int)),
                    decreases inner.len() - k,
                {
                    let ghost part = done + shapes(inner@).take(k as int);
                    assert((done + shapes(inner@).take(k + 1)).drop_last() =~= part);
                    assert((done + shapes(inner@).take(k + 1)).last() == inner@[k as int]@);
                    push_distinct(&mut variants, &inner[k]);
                    k += 1;
                }
                assert(shapes(inner@).take(inner@.len() as int) =~= shapes(inner@));
            },
            other => {
                assert((done + seq![other@]).drop_last() =~= done);
                push_distinct(&mut variants, other);
            },
        }
        i += 1;
    }
    assert(shapes(list@).take(list@.len() as int) =~= shapes(list@));
    if variants.len() == 1 {
        let only = variants.pop().unwrap();
        only
    } else {
        Fragment::Union(variants)
    }
}

/// Builds the fragment that stands for a list of observed fragments.
pub fn reconcile(list: &Vec<Fragment>) -> (r: Fragment)
    ensures
        r@ == reconciled(shapes(list@)),
{
    if list.len() == 1 {
        list[0].clone()
    } else {
        unite(list)
    }
}

/// The properties of an object shape; any other shape has none.
pub open spec fn properties_of(item: Shape) -> Seq<(Seq<char>, Shape)> {
    match item {
        Shape::Object { properties, required } => properties,
        _ => Seq::empty(),
    }
}

/// The names an object shape guarantees; any other shape guarantees none.
pub open spec fn required_of(item: Shape) -> Seq<Seq<char>> {
    match item {
        Shape::Object { properties, required: Some(list) } => list,
        _ => Seq::empty(),
    }
}

/// Whether every shape is an object.
pub open spec fn all_objects(siblings: Seq<Shape>) -> bool {
    forall|i: int| 0 <= i < siblings.len() ==> #[trigger] siblings[i] is Object
}

/// The names of a table of observations, row by row.
pub open spec fn keys_of(table: Seq<(Seq<char>, Seq<Shape>)>) -> Seq<Seq<char>> {
    Seq::new(table.len(), |i: int| table[i].0)
}

/// The table after one more property has been seen: the shape joins the
/// row of its name unless it is there already, and a name seen for the first
/// time gets a row of its own, in the order of the names.
pub open spec fn noted(table: Seq<(Seq<char>, Seq<Shape>)>, name: Seq<char>, item: Shape) -> Seq<
    (Seq<char>, Seq<Shape>),
> {
    let (at, found) = slot(keys_of(table), name);
    if found {
        table.update(at, (name, add_distinct(table[at].1, item)))
    } else {
        table.insert(at, (name, seq![item]))
    }
}

/// The table after a list of properties has been seen, one after the other.
pub open spec fn noted_all(
    table: Seq<(Seq<char>, Seq<Shape>)>,
    properties: Seq<(Seq<char>, Shape)>,
) -> Seq<(Seq<char>, Seq<Shape>)>
    decreases properties.len(),
{
    if properties.len() == 0 {
        table
    } else {
        noted(noted_all(table, properties.drop_last()), properties.last().0, properties.last().1)
    }
}

/// For each property name that occurs among the siblings, in the order of the
/// names, the distinct shapes seen under it, each where it was first seen.
pub open spec fn observations(siblings: Seq<Shape>) -> Seq<(Seq<char>, Seq<Shape>)>
    decreases siblings.len(),
{
    if siblings.len() == 0 {
        Seq::empty()
    } else {
        noted_all(observations(siblings.drop_last()), properties_of(siblings.last()))
    }
}

/// The merged properties: each observed name with the shape that stands for
/// what was seen under it.
pub open spec fn settled(table: Seq<(Seq<char>, Seq<Shape>)>) -> Seq<(Seq<char>, Shape)> {
    Seq::new(table.len(), |i: int| (table[i].0, reconciled(table[i].1)))
}

/// Whether every list holds `name`.
pub open spec fn in_every(lists: Seq<Seq<Seq<char>>>, name: Seq<char>) -> bool {
    forall|i: int| 0 <= i < lists.len() ==> (#[trigger] lists[i]).contains(name)
}

/// The names among the first `n` of the first list that every list holds,
/// in the order of the names, each once.
pub open spec fn common_among(lists: Seq<Seq<Seq<char>>>, n: nat) -> Seq<Seq<char>>
    decreases n,
{
    if lists.len() == 0 || n == 0 || n > lists[0].len() {
        Seq::empty()
    } else if in_every(lists, lists[0][n - 1]) {
        slotted(common_among(lists, (n - 1) as nat), lists[0][n - 1])
    } else {
        common_among(lists, (n - 1) as nat)
    }
}

/// The names that every list holds, in the order of the names, each once.
/// No list, no name.
pub open spec fn common(lists: Seq<Seq<Seq<char>>>) -> Seq<Seq<char>> {
    if lists.len() == 0 {
        Seq::empty()
    } else {
        common_among(lists, lists[0].len())
    }
}

/// The names every list holds, or nothing at all if there is no such name.
pub open spec fn shared(lists: Seq<Seq<Seq<char>>>) -> Option<Seq<Seq<char>>> {
    if common(lists).len() == 0 {
        None
    } else {
        Some(common(lists))
    }
}

/// What a shape guarantees, as a set: in the order of the names, each once.
pub open spec fn required_set(item: Shape) -> Seq<Seq<char>> {
    name_set(required_of(item), required_of(item).len())
}

/// What each sibling guarantees, sibling by sibling, each as a set.
pub open spec fn required_lists(siblings: Seq<Shape>) -> Seq<Seq<Seq<char>>> {
    Seq::new(siblings.len(), |i: int| required_set(siblings[i]))
}

/// The one object shape that stands for a list of sibling object shapes.
pub open spec fn merged(siblings: Seq<Shape>) -> Shape {
    Shape::Object {
        properties: settled(observations(siblings)),
        required: shared(required_lists(siblings)),
    }
}

/// The merge of the siblings if all of them are objects, else nothing.
pub open spec fn merge_of(siblings: Seq<Shape>) -> Option<Shape> {
    if all_objects(siblings) {
        Some(merged(siblings))
    } else {
        None
    }
}

/// Whether some sibling has the property `name` with the shape `item`.
pub open spec fn seen_under(siblings: Seq<Shape>, name: Seq<char>, item: Shape) -> bool {
    exists|i: int|
        0 <= i < siblings.len() && #[trigger] properties_of(siblings[i]).contains((name, item))
}

/// Whether a table tells exactly what was seen: its names stand in order,
/// each once; the row of a name lists the shapes seen under that name, each
/// once and at least one; and every name under which something was seen has
/// a row.
pub open spec fn tells(
    table: Seq<(Seq<char>, Seq<Shape>)>,
    seen: spec_fn(Seq<char>, Shape) -> bool,
) -> bool {
    &&& strictly_sorted(keys_of(table))
    &&& forall|j: int|
        0 <= j < table.len() ==> (#[trigger] table[j]).1.no_duplicates() && table[j].1.len() > 0
    &&& forall|j: int, item: Shape|
        0 <= j < table.len() ==> ((#[trigger] table[j]).1.contains(item) <==> #[trigger] seen(
            table[j].0,
            item,
        ))
    &&& forall|name: Seq<char>, item: Shape| #[trigger]
        seen(name, item) ==> keys_of(table).contains(name)
}

/// Noting one property keeps the table truthful.
pub proof fn lemma_noted_tells(
    table: Seq<(Seq<char>, Seq<Shape>)>,
    seen: spec_fn(Seq<char>, Shape) -> bool,
    name: Seq<char>,
    item: Shape,
    after: spec_fn(Seq<char>, Shape) -> bool,
)
    requires
        tells(table, seen),
        forall|n: Seq<char>, s: Shape| #[trigger]
            after(n, s) <==> (seen(n, s) || (n == name && s == item)),
    ensures
        tells(noted(table, name, item), after),
{
    let keys = keys_of(table);
    let next = noted(table, name, item);
    let at = slot(keys, name).0;
    lemma_slot_bounds(keys, name);
    lemma_slot_finds(keys, name);
    lemma_slotted(keys, name);
    lemma_sorted_is_distinct(keys);
    assert(keys_of(next) =~= slotted(keys, name));
    if slot(keys, name).1 {
        assert(table[at].0 == keys[at]);
        lemma_add_distinct(table[at].1, item);
        assert forall|j: int| 0 <= j < next.len() implies (#[trigger] next[j]).1.no_duplicates()
            && next[j].1.len() > 0 by {
            if j != at {
                assert(next[j] == table[j]);
            }
        }
        assert forall|j: int, s: Shape| 0 <= j < next.len() implies ((#[trigger] next[j]).1.contains(
            s,
        ) <==> #[trigger] after(next[j].0, s)) by {
            if j != at {
                assert(next[j] == table[j]);
                assert(keys[j] != keys[at]);
                assert(table[j].1.contains(s) <==> seen(table[j].0, s));
            } else {
                assert(table[at].1.contains(s) <==> seen(table[at].0, s));
            }
        }
    } else {
        assert(!keys.contains(name));
        assert forall|j: int| 0 <= j < next.len() implies (#[trigger] next[j]).1.no_duplicates()
            && next[j].1.len() > 0 by {
            if j < at {
                assert(next[j] == table[j]);
            } else if j > at {
                assert(next[j] == table[j - 1]);
            }
        }
        assert forall|j: int, s: Shape| 0 <= j < next.len() implies ((#[trigger] next[j]).1.contains(
            s,
        ) <==> #[trigger] after(next[j].0, s)) by {
            if j < at {
                assert(next[j] == table[j]);
                assert(keys[j] == table[j].0);
                assert(keys.contains(keys[j]));
                assert(table[j].1.contains(s) <==> seen(table[j].0, s));
            } else if j > at {
                assert(next[j] == table[j - 1]);
                assert(keys[j - 1] == table[j - 1].0);
                assert(keys.contains(keys[j - 1]));
                assert(table[j - 1].1.contains(s) <==> seen(table[j - 1].0, s));
            } else {
                assert(next[j] == (name, seq![item]));
                if seen(name, s) {
                    assert(keys.contains(name));
                }
                if s == item {
                    assert(seq![item][0] == s);
                }
            }
        }
    }
    assert forall|n: Seq<char>, s: Shape| #[trigger] after(n, s) implies keys_of(next).contains(
        n,
    ) by {
        if seen(n, s) {
            assert(keys.contains(n));
        }
    }
}

/// Noting a list of properties keeps the table truthful.
pub proof fn lemma_noted_all_tells(
    table: Seq<(Seq<char>, Seq<Shape>)>,
    seen: spec_fn(Seq<char>, Shape) -> bool,
    properties: Seq<(Seq<char>, Shape)>,
    after: spec_fn(Seq<char>, Shape) -> bool,
)
    requires
        tells(table, seen),
        forall|n: Seq<char>, s: Shape| #[trigger]
            after(n, s) <==> (seen(n, s) || properties.contains((n, s))),
    ensures
        tells(noted_all(table, properties), after),
    decreases properties.len(),
{
    if properties.len() == 0 {
        assert forall|n: Seq<char>, s: Shape| #[trigger] after(n, s) <==> seen(n, s) by {}
        assert(tells(table, after));
    } else {
        let front = properties.drop_last();
        let last = properties.last();
        let between = |n: Seq<char>, s: Shape| seen(n, s) || front.contains((n, s));
        lemma_noted_all_tells(table, seen, front, between);
        assert forall|n: Seq<char>, s: Shape| #[trigger]
            after(n, s) <==> (between(n, s) || (n == last.0 && s == last.1)) by {
            if front.contains((n, s)) {
                let p = choose|p: int| 0 <= p < front.len() && front[p] == (n, s);
                assert(properties[p] == (n, s));
            }
            if properties.contains((n, s)) {
                let p = choose|p: int| 0 <= p < properties.len() && properties[p] == (n, s);
                if p < front.len() {
                    assert(front[p] == (n, s));
                }
            }
            if n == last.0 && s == last.1 {
                assert(properties[properties.len() - 1] == (n, s));
            }
        }
        lemma_noted_tells(noted_all(table, front), between, last.0, last.1, after);
    }
}

/// The observations tell exactly what was seen among the siblings.
pub proof fn lemma_observations_tell(siblings: Seq<Shape>)
    ensures
        tells(observations(siblings), |n: Seq<char>, s: Shape| seen_under(siblings, n, s)),
    decreases siblings.len(),
{
    let all = |n: Seq<char>, s: Shape| seen_under(siblings, n, s);
    if siblings.len() == 0 {
        assert(tells(observations(siblings), all));
    } else {
        let front = siblings.drop_last();
        let before = |n: Seq<char>, s: Shape| seen_under(front, n, s);
        lemma_observations_tell(front);
        assert forall|n: Seq<char>, s: Shape| #[trigger]
            all(n, s) <==> (before(n, s) || properties_of(siblings.last()).contains((n, s))) by {
            if seen_under(front, n, s) {
                let i = choose|i: int|
                    0 <= i < front.len() && #[trigger] properties_of(front[i]).contains((n, s));
                assert(properties_of(siblings[i]).contains((n, s)));
            }
            if seen_under(siblings, n, s) {
                let i = choose|i: int|
                    0 <= i < siblings.len() && #[trigger] properties_of(siblings[i]).contains(
                        (n, s),
                    );
                if i < front.len() {
                    assert(properties_of(front[i]).contains((n, s)));
                }
            }
            if properties_of(siblings.last()).contains((n, s)) {
                assert(properties_of(siblings[siblings.len() - 1]).contains((n, s)));
            }
        }
        lemma_noted_all_tells(observations(front), before, properties_of(siblings.last()), all);
    }
}

/// The common names among the first `n` of the first list stand in the
/// order of the names, and a name is among them exactly when it is one of
/// those `n` and every list holds it.
pub proof fn lemma_common_among(lists: Seq<Seq<Seq<char>>>, n: nat)
    requires
        lists.len() > 0,
        n <= lists[0].len(),
    ensures
        strictly_sorted(common_among(lists, n)),
        forall|name: Seq<char>| #[trigger]
            common_among(lists, n).contains(name) ==> in_every(lists, name),
        forall|i: int|
            0 <= i < n && in_every(lists, lists[0][i]) ==> common_among(lists, n).contains(
                #[trigger] lists[0][i],
            ),
    decreases n,
{
    if n > 0 {
        let before = common_among(lists, (n - 1) as nat);
        let last = lists[0][n - 1];
        lemma_common_among(lists, (n - 1) as nat);
        lemma_slotted(before, last);
        assert forall|name: Seq<char>| #[trigger]
            common_among(lists, n).contains(name) implies in_every(lists, name) by {
            if !before.contains(name) {
                assert(in_every(lists, last) && name == last);
            }
        }
        assert forall|i: int| 0 <= i < n && in_every(lists, lists[0][i]) implies common_among(
            lists,
            n,
        ).contains(#[trigger] lists[0][i]) by {
            if i < n - 1 {
                assert(before.contains(lists[0][i]));
            }
        }
    } else {
        assert(common_among(lists, n) =~= Seq::<Seq<char>>::empty());
    }
}

/// The common names stand in the order of the names, each once, and a name
/// is among them exactly when every list holds it.
pub proof fn lemma_common(lists: Seq<Seq<Seq<char>>>)
    requires
        lists.len() > 0,
    ensures
        strictly_sorted(common(lists)),
        forall|name: Seq<char>| common(lists).contains(name) <==> in_every(lists, name),
{
    lemma_common_among(lists, lists[0].len());
    assert forall|name: Seq<char>| in_every(lists, name) implies common(lists).contains(name) by {
        assert(lists[0].contains(name));
        let i = choose|i: int| 0 <= i < lists[0].len() && lists[0][i] == name;
        assert(common(lists).contains(lists[0][i]));
    }
}

/// The merge of one or more siblings guarantees a name exactly when every
/// sibling guarantees it, and lists what it guarantees in the order of the
/// names, each name once.
pub proof fn lemma_merged_required(siblings: Seq<Shape>, name: Seq<char>)
    requires
        siblings.len() > 0,
    ensures
        strictly_sorted(required_of(merged(siblings))),
        required_of(merged(siblings)).contains(name) <==> (forall|i: int|
            0 <= i < siblings.len() ==> required_of(#[trigger] siblings[i]).contains(name)),
{
    let lists = required_lists(siblings);
    lemma_common(lists);
    assert(required_of(merged(siblings)) =~= common(lists));
    assert forall|i: int| 0 <= i < siblings.len() implies ((#[trigger] lists[i]).contains(name)
        <==> required_of(siblings[i]).contains(name)) by {
        let own = required_of(siblings[i]);
        lemma_name_set(own, own.len());
        if own.contains(name) {
            let k = choose|k: int| 0 <= k < own.len() && own[k] == name;
            assert(lists[i].contains(own[k]));
        }
    }
    if in_every(lists, name) {
        assert forall|i: int| 0 <= i < siblings.len() implies required_of(
            #[trigger] siblings[i],
        ).contains(name) by {
            assert(lists[i].contains(name));
        }
    }
    if forall|i: int| 0 <= i < siblings.len() ==> required_of(#[trigger] siblings[i]).contains(name) {
        assert forall|i: int| 0 <= i < lists.len() implies (#[trigger] lists[i]).contains(name) by {
            assert(required_of(siblings[i]).contains(name));
        }
    }
}

/// The union-collapse law for the properties of merged objects: the row of a
/// name lists the shapes seen under it among the siblings, each once; a name
/// seen with one shape gets that shape, and a name seen with two or more,
/// none of them a union, gets the union that lists exactly them.
pub proof fn lemma_property_collapse(siblings: Seq<Shape>, j: int)
    requires
        0 <= j < observations(siblings).len(),
        forall|i: int, k: int|
            0 <= i < siblings.len() && 0 <= k < properties_of(siblings[i]).len() ==> !((
            #[trigger] properties_of(siblings[i])[k]).1 is Union),
    ensures
        settled(observations(siblings))[j].0 == observations(siblings)[j].0,
        observations(siblings)[j].1.no_duplicates(),
        observations(siblings)[j].1.len() >= 1,
        forall|shape: Shape|
            observations(siblings)[j].1.contains(shape) <==> seen_under(
                siblings,
                observations(siblings)[j].0,
                shape,
            ),
        observations(siblings)[j].1.len() == 1 ==> settled(observations(siblings))[j].1
            == observations(siblings)[j].1[0],
        observations(siblings)[j].1.len() >= 2 ==> settled(observations(siblings))[j].1
            == Shape::Union(observations(siblings)[j].1),
{
    let table = observations(siblings);
    let row = table[j];
    lemma_observations_tell(siblings);
    let seen = |n: Seq<char>, s: Shape| seen_under(siblings, n, s);
    assert(tells(table, seen));
    assert forall|shape: Shape| row.1.contains(shape) <==> seen_under(siblings, row.0, shape) by {
        assert(table[j].1.contains(shape) <==> seen(table[j].0, shape));
    }
    assert forall|m: int| 0 <= m < row.1.len() implies !(#[trigger] row.1[m] is Union) by {
        assert(row.1.contains(row.1[m]));
        assert(seen_under(siblings, row.0, row.1[m]));
        let i = choose|i: int|
            0 <= i < siblings.len() && #[trigger] properties_of(siblings[i]).contains(
                (row.0, row.1[m]),
            );
        let k = choose|k: int|
            0 <= k < properties_of(siblings[i]).len() && properties_of(siblings[i])[k] == (
                row.0,
                row.1[m],
            );
        assert(!(properties_of(siblings[i])[k].1 is Union));
    }
    lemma_union_collapse(row.1);
}

/// The shapes of a table of observed fragments, row by row.
pub open spec fn table_shapes(table: Seq<(String, Vec<Fragment>)>) -> Seq<(Seq<char>, Seq<Shape>)> {
    Seq::new(table.len(), |i: int| (table[i].0@, shapes(table[i].1@)))
}

/// The names in a list of lists, list by list.
pub open spec fn name_lists(lists: Seq<Vec<String>>) -> Seq<Seq<Seq<char>>> {
    Seq::new(lists.len(), |i: int| names(lists[i]@))
}

/// Notes one property in the table of observations.
pub fn note(table: &mut Vec<(String, Vec<Fragment>)>, name: &String, item: &Fragment)
    ensures
        table_shapes(final(table)@) == noted(table_shapes(old(table)@), name@, item@),
{
    let ghost before = table_shapes(table@);
    assert(row_names(table@) =~= keys_of(before));
    let (at, found) = find_slot(table, name);
    if found {
        push_distinct(&mut table[at].1, item);
        assert(table_shapes(table@) =~= before.update(
            at as int,
            (name@, add_distinct(before[at as int].1, item@)),
        ));
    } else {
        let mut seen: Vec<Fragment> = Vec::new();
        let copy = item.clone();
        proof {
            lemma_shapes_push(seen@, copy);
            assert(shapes(seen@) =~= Seq::<Shape>::empty());
        }
        seen.push(copy);
        assert(shapes(seen@) =~= seq![item@]);
        table.insert(at, (name.clone(), seen));
        assert(table_shapes(table@) =~= before.insert(at as int, (name@, seq![item@])));
    }
}

/// Settles every row of the table: one shape per observed name.
pub fn fill_properties(table: &Vec<(String, Vec<Fragment>)>) -> (r: Vec<(String, Fragment)>)
    ensures
        entries(r@) == settled(table_shapes(table@)),
{
    let mut properties: Vec<(String, Fragment)> = Vec::new();
    let mut i: usize = 0;
    while i < table.len()
        invariant
            i <= table.len(),
            properties@.len() == i,
            forall|j: int|
                0 <= j < i ==> properties@[j].0@ == table@[j].0@ && properties@[j].1@
                    == reconciled(shapes(table@[j].1@)),
        decreases table.len() - i,
    {
        let settled_shape = reconcile(&table[i].1);
        properties.push((table[i].0.clone(), settled_shape));
        i += 1;
    }
    assert(entries(properties@) =~= settled(table_shapes(table@)));
    properties
}

/// Whether `list` holds `name`.
pub fn holds_name(list: &Vec<String>, name: &String) -> (r: bool)
    ensures
        r == names(list@).contains(name@),
{
    let mut i: usize = 0;
    while i < list.len()
        invariant
            i <= list.len(),
            forall|j: int| 0 <= j < i ==> list@[j]@ != name@,
        decreases list.len() - i,
    {
        if list[i] == *name {
            assert(names(list@)[i as int] == name@);
            return true;
        }
        i += 1;
    }
    false
}

/// Whether every list holds `name`.
pub fn held_by_all(lists: &Vec<Vec<String>>, name: &String) -> (r: bool)
    ensures
        r == in_every(name_lists(lists@), name@),
{
    let mut i: usize = 0;
    while i < lists.len()
        invariant
            i <= lists.len(),
            forall|j: int| 0 <= j < i ==> (#[trigger] name_lists(lists@)[j]).contains(name@),
        decreases lists.len() - i,
    {
        if !holds_name(&lists[i], name) {
            assert(!name_lists(lists@)[i as int].contains(name@));
            return false;
        }
        i += 1;
    }
    true
}

/// The names of a list as a set: in the order of the names, each once.
pub fn sort_names(list: &Vec<String>) -> (r: Vec<String>)
    ensures
        names(r@) == name_set(names(list@), list@.len()),
        strictly_sorted(names(r@)),
{
    let ghost all = names(list@);
    let mut kept: Vec<(String, ())> = Vec::new();
    let mut i: usize = 0;
    assert(row_names(kept@) =~= name_set(all, 0));
    while i < list.len()
        invariant
            i <= list.len(),
            all == names(list@),
            row_names(kept@) == name_set(all, i as nat),
        decreases list.len() - i,
    {
        let ghost before = row_names(kept@);
        assert(all[i as int] == list@[i as int]@);
        let (at, found) = find_slot(&kept, &list[i]);
        if !found {
            kept.insert(at, (list[i].clone(), ()));
            assert(row_names(kept@) =~= before.insert(at as int, list@[i as int]@));
        }
        i += 1;
    }
    let ghost rows = kept@;
    let mut out: Vec<String> = Vec::new();
    for row in it: kept
        invariant
            it.seq() == rows,
            out@.len() == it.index(),
            forall|j: int| 0 <= j < it.index() ==> out@[j]@ == rows[j].0@,
    {
        out.push(row.0);
    }
    assert(names(out@) =~= row_names(rows));
    proof {
        lemma_name_set(all, all.len());
    }
    out
}

/// Adds what `item` guarantees to the sets collected so far: its names in
/// their order, each once.
pub fn collect_required(known_required: &mut Vec<Vec<String>>, item: &Fragment)
    ensures
        name_lists(final(known_required)@) == name_lists(old(known_required)@).push(
            required_set(item@),
        ),
        strictly_sorted(required_set(item@)),
        forall|name: Seq<char>| required_set(item@).contains(name) <==> required_of(item@).contains(name),
{
    let ghost before = name_lists(known_required@);
    let list = match item {
        Fragment::Object { properties, required: Some(list) } => sort_names(list),
        _ => {
            let none: Vec<String> = Vec::new();
            assert(names(none@) =~= Seq::<Seq<char>>::empty());
            none
        },
    };
    known_required.push(list);
    assert(name_lists(known_required@) =~= before.push(required_set(item@)));
    proof {
        let own = required_of(item@);
        lemma_name_set(own, own.len());
        assert forall|name: Seq<char>| own.contains(name) implies required_set(item@).contains(
            name,
        ) by {
            let k = choose|k: int| 0 <= k < own.len() && own[k] == name;
            assert(required_set(item@).contains(own[k]));
        }
    }
}

/// The names that every sibling guarantees, in the order of the names and
/// each once, or nothing if there is no such name.
pub fn fill_required(known_required: &Vec<Vec<String>>) -> (r: Option<Vec<String>>)
    ensures
        optional_names(r) == shared(name_lists(known_required@)),
        match r {
            Some(list) => {
                &&& list.len() > 0
                &&& strictly_sorted(names(list@))
                &&& forall|name: Seq<char>|
                    names(list@).contains(name) <==> in_every(name_lists(known_required@), name)
            },
            None => known_required.len() == 0 || forall|name: Seq<char>|
                !in_every(name_lists(known_required@), name),
        },
{
    let ghost lists = name_lists(known_required@);
    let mut kept: Vec<(String, ())> = Vec::new();
    if known_required.len() > 0 {
        let first = &known_required[0];
        let mut i: usize = 0;
        assert(row_names(kept@) =~= common_among(lists, 0));
        while i < first.len()
            invariant
                i <= first.len(),
                lists == name_lists(known_required@),
                known_required.len() > 0,
                *first == known_required@[0],
                row_names(kept@) == common_among(lists, i as nat),
            decreases first.len() - i,
        {
            let ghost before = row_names(kept@);
            assert(lists[0][i as int] == first@[i as int]@);
            if held_by_all(known_required, &first[i]) {
                let (at, found) = find_slot(&kept, &first[i]);
                if !found {
                    kept.insert(at, (first[i].clone(), ()));
                    assert(row_names(kept@) =~= before.insert(at as int, first@[i as int]@));
                }
            }
            i += 1;
        }
        proof {
            lemma_common(lists);
        }
    }
    let ghost rows = kept@;
    let mut common_required: Vec<String> = Vec::new();
    for row in it: kept
        invariant
            it.seq() == rows,
            common_required@.len() == it.index(),
            forall|j: int| 0 <= j < it.index() ==> common_required@[j]@ == rows[j].0@,
    {
        common_required.push(row.0);
    }
    assert(names(common_required@) =~= common(lists));
    if common_required.len() == 0 {
        assert forall|name: Seq<char>| known_required.len() > 0 implies !in_every(lists, name) by {
            assert(!common(lists).contains(name));
        }
        None
    } else {
        Some(common_required)
    }
}

/// Tries to merge sibling fragments into one object fragment. Succeeds
/// exactly when every sibling is an object.
pub fn try_merge(data: &Vec<Fragment>) -> (r: Option<Fragment>)
    ensures
        r is Some == all_objects(shapes(data@)),
        r is Some ==> r->0@ == merged(shapes(data@)),
{
    let ghost siblings = shapes(data@);
    let mut i: usize = 0;
    while i < data.len()
        invariant
            i <= data.len(),
            forall|j: int| 0 <= j < i ==> data@[j]@ is Object,
        decreases data.len() - i,
    {
        match &data[i] {
            Fragment::Object { properties, required } => {},
            _ => {
                assert(!(shapes(data@)[i as int] is Object));
                return None;
            },
        }
        i += 1;
    }
    assert(all_objects(siblings));
    let mut properties_types: Vec<(String, Vec<Fragment>)> = Vec::new();
    let mut known_required: Vec<Vec<String>> = Vec::new();
    let mut i: usize = 0;
    assert(siblings.take(0) =~= Seq::<Shape>::empty());
    assert(table_shapes(properties_types@) =~= observations(siblings.take(0)));
    assert(name_lists(known_required@) =~= required_lists(siblings.take(0)));
    while i < data.len()
        invariant
            i <= data.len(),
            siblings == shapes(data@),
            table_shapes(properties_types@) == observations(siblings.take(i as int)),
            name_lists(known_required@) == required_lists(siblings.take(i as int)),
        decreases data.len() - i,
    {
        let item = &data[i];
        let ghost table = observations(siblings.take(i as int));
        assert(siblings.take(i + 1).drop_last() =~= siblings.take(i as int));
        assert(siblings.take(i + 1).last() == item@);
        match item {
            Fragment::Object { properties, required } => {
                let mut k: usize = 0;
                assert(entries(properties@).take(0) =~= Seq::<(Seq<char>, Shape)>::empty());
                while k < properties.len()
                    invariant
                        k <= properties.len(),
                        table_shapes(properties_types@) == noted_all(
                            table,
                            entries(properties@).take(k as int),
                        ),
                    decreases properties.len() - k,
                {
                    assert(entries(properties@).take(k + 1).drop_last() =~= entries(
                        properties@,
                    ).take(k as int));
                    assert(entries(properties@).take(k + 1).last() == (
                        properties@[k as int].0@,
                        properties@[k as int].1@,
                    ));
                    note(&mut properties_types, &properties[k].0, &properties[k].1);
                    k += 1;
                }
                assert(entries(properties@).take(properties@.len() as int) =~= entries(
                    properties@,
                ));
            },
            _ => {},
        }
        collect_required(&mut known_required, item);
        assert(required_lists(siblings.take(i + 1)) =~= required_lists(
            siblings.take(i as int),
        ).push(required_set(item@)));
        i += 1;
    }
    assert(siblings.take(data@.len() as int) =~= siblings);
    let required = fill_required(&known_required);
    let properties = fill_properties(&properties_types);
    Some(Fragment::Object { properties, required })
}

} // verus!
