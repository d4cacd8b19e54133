//! What holds of every inference, proved from the definitions.

use crate::engine::{array_shape, child_shapes, filed, filed_all, infer_shape, items_shape,
    keyed_shapes, member_shapes, names_of, object_shape, rank_of, schema_document, settled_items,
    Keying};
use crate::fragment::Shape;
use crate::json::{Json, JsonModel};
use crate::keyed::{arranged, lemma_arranged, lemma_arranged_of_the_same_pairs, shapes_of, Rank};
use crate::merge::{all_objects, alternatives, common, distinct, flattened, in_every, keys_of,
    lemma_common, lemma_distinct, lemma_merged_required, lemma_observations_tell, lemma_property_collapse,
    lemma_union_collapse, merged, observations, properties_of, reconciled, required_lists,
    required_of, seen_under, settled, tells, union_of};
use crate::sorted::{lemma_name_set, lemma_slot_bounds, lemma_slotted, lemma_sorted_lists_agree,
    slot, slotted, strictly_sorted};
use vstd::prelude::*;

verus! {

/// Filing a member adds its name and no other, keeps the names in order, and
/// leaves every property one that was filed.
pub proof fn lemma_filed(properties: Seq<(Seq<char>, Shape)>, name: Seq<char>, item: Shape)
    ensures
        names_of(filed(properties, name, item)) == slotted(names_of(properties), name),
        forall|row: (Seq<char>, Shape)|
            filed(properties, name, item).contains(row) ==> (properties.contains(row) || row == (
                name,
                item,
            )),
{
    let keys = names_of(properties);
    let at = slot(keys, name).0;
    let next = filed(properties, name, item);
    lemma_slot_bounds(keys, name);
    assert(names_of(next) =~= slotted(keys, name));
    assert forall|row: (Seq<char>, Shape)| next.contains(row) implies (properties.contains(row)
        || row == (name, item)) by {
        let p = choose|p: int| 0 <= p < next.len() && next[p] == row;
        if slot(keys, name).1 {
            if p != at {
                assert(properties[p] == row);
            }
        } else {
            if p < at {
                assert(properties[p] == row);
            } else if p > at {
                assert(properties[p - 1] == row);
            }
        }
    }
}

/// The properties of an object stand in the order of their names, there is
/// one for each key of the object and for nothing else, and each is one of
/// the members.
pub proof fn lemma_filed_all(members: Seq<(Seq<char>, Shape)>, n: nat)
    requires
        n <= members.len(),
    ensures
        strictly_sorted(names_of(filed_all(members, n))),
        forall|name: Seq<char>|
            names_of(filed_all(members, n)).contains(name) <==> (exists|i: int|
                0 <= i < n && (#[trigger] members[i]).0 == name),
        forall|row: (Seq<char>, Shape)|
            filed_all(members, n).contains(row) ==> (exists|i: int|
                0 <= i < n && #[trigger] members[i] == row),
    decreases n,
{
    if n > 0 {
        let before = filed_all(members, (n - 1) as nat);
        let last = members[n - 1];
        lemma_filed_all(members, (n - 1) as nat);
        lemma_filed(before, last.0, last.1);
        lemma_slotted(names_of(before), last.0);
        assert forall|name: Seq<char>|
            names_of(filed_all(members, n)).contains(name) implies (exists|i: int|
            0 <= i < n && (#[trigger] members[i]).0 == name) by {
            if names_of(before).contains(name) {
                let i = choose|i: int| 0 <= i < n - 1 && (#[trigger] members[i]).0 == name;
                assert(members[i].0 == name);
            } else {
                assert(members[n - 1].0 == name);
            }
        }
        assert forall|name: Seq<char>|
            (exists|i: int|
                0 <= i < n && (#[trigger] members[i]).0 == name) implies names_of(
            filed_all(members, n),
        ).contains(name) by {
            let i = choose|i: int| 0 <= i < n && (#[trigger] members[i]).0 == name;
            if i < n - 1 {
                assert(0 <= i < n - 1 && members[i].0 == name);
                assert(names_of(before).contains(name));
            } else {
                assert(name == last.0);
            }
            assert(slotted(names_of(before), last.0).contains(name));
        }
        assert forall|row: (Seq<char>, Shape)|
            filed_all(members, n).contains(row) implies (exists|i: int|
            0 <= i < n && #[trigger] members[i] == row) by {
            if before.contains(row) {
                let i = choose|i: int| 0 <= i < n - 1 && #[trigger] members[i] == row;
                assert(members[i] == row);
            } else {
                assert(members[n - 1] == row);
            }
        }
    } else {
        assert(names_of(filed_all(members, n)) =~= Seq::<Seq<char>>::empty());
    }
}

/// No value is inferred to be a union: a union only ever stands for the
/// items of an array or for a property of merged objects.
pub proof fn lemma_inferred_is_no_union(value: JsonModel, detect_format: bool, keying: Keying)
    ensures
        !(infer_shape(value, detect_format, keying) is Union),
{
}

/// The distinct shapes among the siblings of an array, in the order in
/// which they are reconciled.
pub open spec fn distinct_siblings(children: Seq<Shape>, keying: Keying) -> Seq<Shape> {
    shapes_of(arranged(keyed_shapes(children, keying)))
}

/// The distinct siblings are the shapes of the elements, each once.
pub proof fn lemma_distinct_siblings(children: Seq<Shape>, keying: Keying)
    ensures
        distinct_siblings(children, keying).no_duplicates(),
        forall|shape: Shape| #[trigger]
            distinct_siblings(children, keying).contains(shape) ==> children.contains(shape),
        forall|shape: Shape| #[trigger]
            children.contains(shape) ==> distinct_siblings(children, keying).contains(shape),
        children.len() > 0 ==> distinct_siblings(children, keying).len() > 0,
{
    let keyed = keyed_shapes(children, keying);
    let pairs = arranged(keyed);
    let siblings = distinct_siblings(children, keying);
    lemma_arranged(keyed);
    assert forall|j: int| 0 <= j < pairs.len() implies (#[trigger] pairs[j]).0 == rank_of(
        pairs[j].1,
        keying,
    ) && children.contains(pairs[j].1) by {
        assert(pairs.contains(pairs[j]));
        assert(keyed.contains(pairs[j]));
        let p = choose|p: int| 0 <= p < keyed.len() && keyed[p] == pairs[j];
        assert(children[p] == pairs[j].1);
    }
    assert forall|i: int, j: int|
        0 <= i < siblings.len() && 0 <= j < siblings.len() && i != j implies siblings[i]
        != siblings[j] by {
        assert(pairs[i] != pairs[j]);
        assert(pairs[i].0 == rank_of(pairs[i].1, keying));
        assert(pairs[j].0 == rank_of(pairs[j].1, keying));
    }
    assert forall|shape: Shape| siblings.contains(shape) implies children.contains(shape) by {
        let j = choose|j: int| 0 <= j < siblings.len() && siblings[j] == shape;
        assert(children.contains(pairs[j].1));
    }
    assert forall|shape: Shape| children.contains(shape) implies siblings.contains(shape) by {
        let p = choose|p: int| 0 <= p < children.len() && children[p] == shape;
        assert(keyed[p] == (rank_of(shape, keying), shape));
        assert(keyed.contains((rank_of(shape, keying), shape)));
        assert(pairs.contains((rank_of(shape, keying), shape)));
        let j = choose|j: int| 0 <= j < pairs.len() && pairs[j] == (rank_of(shape, keying), shape);
        assert(siblings[j] == shape);
    }
}

/// Idempotence: values of the same content are inferred to the same shape
/// and the same document, however often and by whichever route.
pub proof fn lemma_idempotence(a: Json, b: Json, detect_format: bool, keying: Keying)
    requires
        a@ == b@,
    ensures
        infer_shape(a@, detect_format, keying) == infer_shape(b@, detect_format, keying),
        schema_document(a@, detect_format, keying) == schema_document(b@, detect_format, keying),
{
}

/// The leaves: null is inferred as null, a boolean as boolean, a number as
/// integer unless it was written as a float, and a string as string.
pub proof fn lemma_leaves(value: JsonModel, detect_format: bool, keying: Keying)
    ensures
        value is Null ==> infer_shape(value, detect_format, keying) == Shape::Null,
        value is Bool ==> infer_shape(value, detect_format, keying) == Shape::Boolean,
        value is Number && !(value->Number_0 is Float) ==> infer_shape(
            value,
            detect_format,
            keying,
        ) == Shape::Integer,
        value is Number && value->Number_0 is Float ==> infer_shape(value, detect_format, keying)
            == Shape::Number,
        value is String ==> infer_shape(value, detect_format, keying) is String,
        value is Array ==> infer_shape(value, detect_format, keying) is Array,
        value is Object ==> infer_shape(value, detect_format, keying) is Object,
{
}

/// The order of the elements of an array does not count: two lists that hold
/// the same shapes, in whatever order and however often, give the same
/// siblings in the same order, and so the same items.
pub proof fn lemma_order_of_elements_does_not_count(a: Seq<Shape>, b: Seq<Shape>, keying: Keying)
    requires
        forall|shape: Shape| #[trigger] a.contains(shape) ==> b.contains(shape),
        forall|shape: Shape| #[trigger] b.contains(shape) ==> a.contains(shape),
    ensures
        distinct_siblings(a, keying) == distinct_siblings(b, keying),
        items_shape(a, keying) == items_shape(b, keying),
        array_shape(a, keying) == array_shape(b, keying),
{
    let left = keyed_shapes(a, keying);
    let right = keyed_shapes(b, keying);
    assert forall|pair: (Rank, Shape)| #[trigger] left.contains(pair) implies right.contains(
        pair,
    ) by {
        let p = choose|p: int| 0 <= p < left.len() && left[p] == pair;
        assert(a[p] == pair.1);
        assert(a.contains(pair.1));
        assert(b.contains(pair.1));
        let q = choose|q: int| 0 <= q < b.len() && b[q] == pair.1;
        assert(right[q] == pair);
    }
    assert forall|pair: (Rank, Shape)| #[trigger] right.contains(pair) implies left.contains(
        pair,
    ) by {
        let p = choose|p: int| 0 <= p < right.len() && right[p] == pair;
        assert(b[p] == pair.1);
        assert(b.contains(pair.1));
        assert(a.contains(pair.1));
        let q = choose|q: int| 0 <= q < a.len() && a[q] == pair.1;
        assert(left[q] == pair);
    }
    lemma_arranged_of_the_same_pairs(left, right);
    if a.len() > 0 {
        assert(a.contains(a[0]));
        assert(b.contains(a[0]));
    }
    if b.len() > 0 {
        assert(b.contains(b[0]));
        assert(a.contains(b[0]));
    }
}

/// A permuted array is inferred to the same shape: the order of union
/// variants, of properties and of what is guaranteed does not depend on the
/// order of the elements.
pub proof fn lemma_permuted_array(
    a: Seq<JsonModel>,
    b: Seq<JsonModel>,
    detect_format: bool,
    keying: Keying,
)
    requires
        a.to_multiset() == b.to_multiset(),
    ensures
        infer_shape(JsonModel::Array(a), detect_format, keying) == infer_shape(
            JsonModel::Array(b),
            detect_format,
            keying,
        ),
        schema_document(JsonModel::Array(a), detect_format, keying) == schema_document(
            JsonModel::Array(b),
            detect_format,
            keying,
        ),
{
    a.to_multiset_ensures();
    b.to_multiset_ensures();
    let left = child_shapes(a, detect_format, keying);
    let right = child_shapes(b, detect_format, keying);
    assert forall|shape: Shape| #[trigger] left.contains(shape) implies right.contains(shape) by {
        let p = choose|p: int| 0 <= p < left.len() && left[p] == shape;
        assert(a.contains(a[p]));
        assert(b.to_multiset().count(a[p]) > 0);
        assert(b.contains(a[p]));
        let q = choose|q: int| 0 <= q < b.len() && b[q] == a[p];
        assert(right[q] == shape);
    }
    assert forall|shape: Shape| #[trigger] right.contains(shape) implies left.contains(shape) by {
        let p = choose|p: int| 0 <= p < right.len() && right[p] == shape;
        assert(b.contains(b[p]));
        assert(a.to_multiset().count(b[p]) > 0);
        assert(a.contains(b[p]));
        let q = choose|q: int| 0 <= q < a.len() && a[q] == b[p];
        assert(left[q] == shape);
    }
    lemma_order_of_elements_does_not_count(left, right, keying);
}

/// Whether a key always comes with the same shape.
pub open spec fn keys_agree(members: Seq<(Seq<char>, Shape)>) -> bool {
    forall|i: int, j: int|
        0 <= i < members.len() && 0 <= j < members.len() && (#[trigger] members[i]).0 == (
        #[trigger] members[j]).0 ==> members[i].1 == members[j].1
}

/// The order of the members of an object does not count: two lists that
/// hold the same members give the same object shape, provided no key comes
/// with two different shapes.
pub proof fn lemma_order_of_members_does_not_count(
    a: Seq<(Seq<char>, Shape)>,
    b: Seq<(Seq<char>, Shape)>,
)
    requires
        forall|row: (Seq<char>, Shape)| #[trigger] a.contains(row) ==> b.contains(row),
        forall|row: (Seq<char>, Shape)| #[trigger] b.contains(row) ==> a.contains(row),
        keys_agree(a),
    ensures
        object_shape(a) == object_shape(b),
{
    let left = filed_all(a, a.len());
    let right = filed_all(b, b.len());
    lemma_filed_all(a, a.len());
    lemma_filed_all(b, b.len());
    assert forall|name: Seq<char>| #[trigger] names_of(left).contains(name) implies names_of(
        right,
    ).contains(name) by {
        let i = choose|i: int| 0 <= i < a.len() && (#[trigger] a[i]).0 == name;
        assert(a.contains(a[i]));
        assert(b.contains(a[i]));
        let k = choose|k: int| 0 <= k < b.len() && b[k] == a[i];
        assert(b[k].0 == name);
    }
    assert forall|name: Seq<char>| #[trigger] names_of(right).contains(name) implies names_of(
        left,
    ).contains(name) by {
        let i = choose|i: int| 0 <= i < b.len() && (#[trigger] b[i]).0 == name;
        assert(b.contains(b[i]));
        assert(a.contains(b[i]));
        let k = choose|k: int| 0 <= k < a.len() && a[k] == b[i];
        assert(a[k].0 == name);
    }
    lemma_sorted_lists_agree(names_of(left), names_of(right));
    assert(left.len() == names_of(left).len() && right.len() == names_of(right).len());
    assert forall|m: int| 0 <= m < left.len() implies left[m] == right[m] by {
        assert(names_of(left)[m] == left[m].0);
        assert(names_of(right)[m] == right[m].0);
        assert(left.contains(left[m]));
        assert(right.contains(right[m]));
        let i = choose|i: int| 0 <= i < a.len() && #[trigger] a[i] == left[m];
        let k = choose|k: int| 0 <= k < b.len() && #[trigger] b[k] == right[m];
        assert(b.contains(b[k]));
        assert(a.contains(b[k]));
        let q = choose|q: int| 0 <= q < a.len() && a[q] == right[m];
        assert(a[i].0 == a[q].0);
    }
    assert(left =~= right);
}

/// Whether a value is an object with a member under the key `name`.
pub open spec fn has_key(value: JsonModel, name: Seq<char>) -> bool {
    value is Object && exists|j: int|
        0 <= j < value->Object_0.len() && (#[trigger] value->Object_0[j]).0 == name
}

/// The fragment of a single object guarantees exactly the keys of that object.
pub proof fn lemma_object_requires_its_keys(
    value: JsonModel,
    detect_format: bool,
    keying: Keying,
    name: Seq<char>,
)
    requires
        value is Object,
    ensures
        infer_shape(value, detect_format, keying) is Object,
        required_of(infer_shape(value, detect_format, keying)).contains(name) <==> has_key(
            value,
            name,
        ),
{
    let members = value->Object_0;
    let inferred = member_shapes(members, detect_format, keying);
    lemma_filed_all(inferred, inferred.len());
    let listed = names_of(filed_all(inferred, inferred.len()));
    assert(required_of(infer_shape(value, detect_format, keying)) == listed);
    if listed.contains(name) {
        let i = choose|i: int| 0 <= i < inferred.len() && (#[trigger] inferred[i]).0 == name;
        assert(members[i].0 == name);
    }
    if has_key(value, name) {
        let j = choose|j: int| 0 <= j < members.len() && (#[trigger] members[j]).0 == name;
        assert(inferred[j].0 == name);
    }
}

/// The required-intersection law: the items of an array of one or more
/// objects guarantee a property exactly when every one of the objects has it.
pub proof fn lemma_required_intersection(
    elements: Seq<JsonModel>,
    detect_format: bool,
    keying: Keying,
    name: Seq<char>,
)
    requires
        elements.len() > 0,
        forall|i: int| 0 <= i < elements.len() ==> #[trigger] elements[i] is Object,
    ensures
        required_of(
            items_shape(child_shapes(elements, detect_format, keying), keying),
        ).contains(name) <==> (forall|i: int|
            0 <= i < elements.len() ==> has_key(#[trigger] elements[i], name)),
{
    let children = child_shapes(elements, detect_format, keying);
    let siblings = distinct_siblings(children, keying);
    let items = items_shape(children, keying);
    lemma_distinct_siblings(children, keying);
    assert forall|i: int| 0 <= i < elements.len() implies (#[trigger] children[i]) is Object && (
    required_of(children[i]).contains(name) <==> has_key(elements[i], name)) by {
        lemma_object_requires_its_keys(elements[i], detect_format, keying, name);
    }
    assert forall|j: int| 0 <= j < siblings.len() implies #[trigger] siblings[j] is Object by {
        assert(siblings.contains(siblings[j]));
        let p = choose|p: int| 0 <= p < children.len() && children[p] == siblings[j];
        assert(children[p] is Object);
    }
    // Every sibling guarantees the name exactly when every element has the key.
    let every_sibling = forall|j: int|
        0 <= j < siblings.len() ==> required_of(#[trigger] siblings[j]).contains(name);
    let every_element = forall|i: int|
        0 <= i < elements.len() ==> has_key(#[trigger] elements[i], name);
    if every_sibling {
        assert forall|i: int| 0 <= i < elements.len() implies has_key(
            #[trigger] elements[i],
            name,
        ) by {
            assert(children.contains(children[i]));
            assert(siblings.contains(children[i]));
            let j = choose|j: int| 0 <= j < siblings.len() && siblings[j] == children[i];
            assert(required_of(siblings[j]).contains(name));
        }
    }
    if every_element {
        assert forall|j: int| 0 <= j < siblings.len() implies required_of(
            #[trigger] siblings[j],
        ).contains(name) by {
            assert(siblings.contains(siblings[j]));
            let p = choose|p: int| 0 <= p < children.len() && children[p] == siblings[j];
            assert(has_key(elements[p], name));
        }
    }
    if siblings.len() == 1 {
        assert(items == siblings[0]);
    } else {
        assert(all_objects(siblings));
        assert(items == merged(siblings));
        lemma_merged_required(siblings, name);
    }
}

/// The union-collapse law for the items of an array: the siblings that are
/// reconciled are the distinct shapes of the elements; one distinct shape
/// stands for the items as it is, never as a union; two or more that are not
/// all objects make the union that lists exactly them; two or more objects
/// are merged.
pub proof fn lemma_items_collapse(elements: Seq<JsonModel>, detect_format: bool, keying: Keying)
    requires
        elements.len() > 0,
    ensures
        ({
            let children = child_shapes(elements, detect_format, keying);
            let siblings = distinct_siblings(children, keying);
            let items = items_shape(children, keying);
            &&& infer_shape(JsonModel::Array(elements), detect_format, keying) == Shape::Array(
                Some(Box::new(items)),
            )
            &&& siblings.no_duplicates()
            &&& forall|shape: Shape| siblings.contains(shape) <==> children.contains(shape)
            &&& siblings.len() >= 1
            &&& siblings.len() == 1 ==> items == siblings[0] && !(items is Union)
            &&& siblings.len() >= 2 && !all_objects(siblings) ==> items == Shape::Union(siblings)
            &&& siblings.len() >= 2 && all_objects(siblings) ==> items == merged(siblings)
        }),
{
    let children = child_shapes(elements, detect_format, keying);
    let siblings = distinct_siblings(children, keying);
    lemma_distinct_siblings(children, keying);
    assert forall|j: int| 0 <= j < siblings.len() implies !(#[trigger] siblings[j] is Union) by {
        assert(siblings.contains(siblings[j]));
        let p = choose|p: int| 0 <= p < children.len() && children[p] == siblings[j];
        lemma_inferred_is_no_union(elements[p], detect_format, keying);
    }
    lemma_union_collapse(siblings);
}

/// Whether no string anywhere in a shape carries a format.
pub open spec fn format_free(shape: Shape) -> bool
    decreases shape,
{
    match shape {
        Shape::String(format) => format is None,
        Shape::Array(Some(items)) => format_free(*items),
        Shape::Object { properties, required } => forall|i: int|
            0 <= i < properties.len() ==> format_free((#[trigger] properties[i]).1),
        Shape::Union(variants) => forall|i: int|
            0 <= i < variants.len() ==> format_free(#[trigger] variants[i]),
        _ => true,
    }
}

/// Whether every shape of a list is free of formats.
pub open spec fn all_format_free(list: Seq<Shape>) -> bool {
    forall|i: int| 0 <= i < list.len() ==> format_free(#[trigger] list[i])
}

/// Taking unions apart brings no format in.
pub proof fn lemma_flattened_format_free(list: Seq<Shape>)
    requires
        all_format_free(list),
    ensures
        all_format_free(flattened(list)),
    decreases list.len(),
{
    if list.len() > 0 {
        let front = list.drop_last();
        let last = list.last();
        assert forall|i: int| 0 <= i < front.len() implies format_free(#[trigger] front[i]) by {
            assert(front[i] == list[i]);
        }
        lemma_flattened_format_free(front);
        assert(format_free(list[list.len() - 1]));
        let tail = alternatives(last);
        assert forall|i: int| 0 <= i < tail.len() implies format_free(#[trigger] tail[i]) by {
            match last {
                Shape::Union(variants) => {
                    assert(tail[i] == variants[i]);
                },
                _ => {
                    assert(tail[i] == last);
                },
            }
        }
        let whole = flattened(front) + tail;
        assert forall|i: int| 0 <= i < whole.len() implies format_free(#[trigger] whole[i]) by {
            if i < flattened(front).len() {
                assert(whole[i] == flattened(front)[i]);
            } else {
                assert(whole[i] == tail[i - flattened(front).len()]);
            }
        }
    }
}

/// What stands for shapes without formats has no format.
pub proof fn lemma_reconciled_format_free(list: Seq<Shape>)
    requires
        all_format_free(list),
    ensures
        format_free(union_of(list)),
        format_free(reconciled(list)),
{
    let variants = distinct(flattened(list));
    lemma_flattened_format_free(list);
    lemma_distinct(flattened(list));
    assert forall|i: int| 0 <= i < variants.len() implies format_free(#[trigger] variants[i]) by {
        assert(variants.contains(variants[i]));
        assert(flattened(list).contains(variants[i]));
        let p = choose|p: int| 0 <= p < flattened(list).len() && flattened(list)[p] == variants[i];
        assert(format_free(flattened(list)[p]));
    }
    if list.len() == 1 {
        assert(format_free(list[0]));
    }
}

/// The merge of shapes without formats has no format.
pub proof fn lemma_merged_format_free(siblings: Seq<Shape>)
    requires
        all_format_free(siblings),
    ensures
        format_free(merged(siblings)),
{
    let table = observations(siblings);
    let properties = settled(table);
    lemma_observations_tell(siblings);
    let seen = |n: Seq<char>, s: Shape| seen_under(siblings, n, s);
    assert(tells(table, seen));
    assert forall|j: int| 0 <= j < properties.len() implies format_free(
        (#[trigger] properties[j]).1,
    ) by {
        let row = table[j];
        assert forall|m: int| 0 <= m < row.1.len() implies format_free(#[trigger] row.1[m]) by {
            assert(table[j].1.contains(row.1[m]));
            assert(seen(table[j].0, row.1[m]));
            let i = choose|i: int|
                0 <= i < siblings.len() && #[trigger] properties_of(siblings[i]).contains(
                    (row.0, row.1[m]),
                );
            let k = choose|k: int|
                0 <= k < properties_of(siblings[i]).len() && properties_of(siblings[i])[k] == (
                    row.0,
                    row.1[m],
                );
            assert(format_free(siblings[i]));
            assert(format_free(properties_of(siblings[i])[k].1));
        }
        lemma_reconciled_format_free(row.1);
    }
}

/// The items of an array have no format if none of its elements has.
pub proof fn lemma_items_format_free(children: Seq<Shape>, keying: Keying)
    requires
        children.len() > 0,
        all_format_free(children),
    ensures
        format_free(items_shape(children, keying)),
{
    let siblings = distinct_siblings(children, keying);
    lemma_distinct_siblings(children, keying);
    assert forall|j: int| 0 <= j < siblings.len() implies format_free(#[trigger] siblings[j]) by {
        assert(siblings.contains(siblings[j]));
        let p = choose|p: int| 0 <= p < children.len() && children[p] == siblings[j];
        assert(format_free(children[p]));
    }
    lemma_merged_format_free(siblings);
    lemma_reconciled_format_free(siblings);
}

/// The format opt-out law: with the detection of formats switched off, no
/// string anywhere in the inferred fragment carries a format.
pub proof fn lemma_format_opt_out(value: JsonModel, keying: Keying)
    ensures
        format_free(infer_shape(value, false, keying)),
    decreases value,
{
    match value {
        JsonModel::Array(items) => {
            let children = child_shapes(items, false, keying);
            assert forall|i: int| 0 <= i < children.len() implies format_free(
                #[trigger] children[i],
            ) by {
                lemma_format_opt_out(items[i], keying);
            }
            if children.len() > 0 {
                lemma_items_format_free(children, keying);
            }
        },
        JsonModel::Object(members) => {
            let inferred = member_shapes(members, false, keying);
            let properties = filed_all(inferred, inferred.len());
            lemma_filed_all(inferred, inferred.len());
            assert forall|j: int| 0 <= j < properties.len() implies format_free(
                (#[trigger] properties[j]).1,
            ) by {
                assert(properties.contains(properties[j]));
                let i = choose|i: int|
                    0 <= i < inferred.len() && #[trigger] inferred[i] == properties[j];
                lemma_format_opt_out(members[i].1, keying);
            }
        },
        _ => {},
    }
}

/// Whether a shape keeps the rules of its kind, all the way down: the
/// properties of an object stand in the order of their names, each name once,
/// and what the object guarantees are names of its properties, in order; a
/// union has at least two variants, all different, none of them a union.
pub open spec fn well_formed(shape: Shape) -> bool
    decreases shape,
{
    match shape {
        Shape::Array(Some(items)) => well_formed(*items),
        Shape::Object { properties, required } => {
            &&& strictly_sorted(names_of(properties))
            &&& forall|i: int|
                0 <= i < properties.len() ==> well_formed((#[trigger] properties[i]).1)
            &&& match required {
                Some(list) => strictly_sorted(list) && forall|j: int|
                    0 <= j < list.len() ==> names_of(properties).contains(#[trigger] list[j]),
                None => true,
            }
        },
        Shape::Union(variants) => {
            &&& variants.len() >= 2
            &&& variants.no_duplicates()
            &&& forall|i: int|
                0 <= i < variants.len() ==> !(#[trigger] variants[i] is Union) && well_formed(
                    variants[i],
                )
        },
        _ => true,
    }
}

/// Whether a shape can be the sibling of others in an array: it is well
/// formed and no union, and if it is an object, none of its properties is a
/// union either.
pub open spec fn plain(shape: Shape) -> bool {
    &&& well_formed(shape)
    &&& !(shape is Union)
    &&& forall|k: int|
        0 <= k < properties_of(shape).len() ==> !((#[trigger] properties_of(shape)[k]).1 is Union)
}

/// The merge of plain object shapes is well formed.
pub proof fn lemma_merged_well_formed(siblings: Seq<Shape>)
    requires
        all_objects(siblings),
        forall|i: int| 0 <= i < siblings.len() ==> plain(#[trigger] siblings[i]),
    ensures
        well_formed(merged(siblings)),
{
    let table = observations(siblings);
    let properties = settled(table);
    lemma_observations_tell(siblings);
    let seen = |n: Seq<char>, s: Shape| seen_under(siblings, n, s);
    assert(tells(table, seen));
    assert(names_of(properties) =~= keys_of(table));
    assert forall|j: int| 0 <= j < properties.len() implies well_formed(
        (#[trigger] properties[j]).1,
    ) by {
        let row = table[j];
        assert forall|m: int| 0 <= m < row.1.len() implies !(#[trigger] row.1[m] is Union)
            && well_formed(row.1[m]) by {
            assert(table[j].1.contains(row.1[m]));
            assert(seen(table[j].0, row.1[m]));
            let i = choose|i: int|
                0 <= i < siblings.len() && #[trigger] properties_of(siblings[i]).contains(
                    (row.0, row.1[m]),
                );
            let k = choose|k: int|
                0 <= k < properties_of(siblings[i]).len() && properties_of(siblings[i])[k] == (
                    row.0,
                    row.1[m],
                );
            assert(plain(siblings[i]));
            assert(siblings[i] is Object);
            assert(well_formed(properties_of(siblings[i])[k].1));
        }
        assert(table[j].1.no_duplicates() && table[j].1.len() > 0);
        lemma_union_collapse(row.1);
    }
    let lists = required_lists(siblings);
    if siblings.len() > 0 && common(lists).len() > 0 {
        let first = siblings[0];
        assert(plain(first) && first is Object);
        lemma_name_set(required_of(first), required_of(first).len());
        lemma_common(lists);
        assert forall|j: int| 0 <= j < common(lists).len() implies names_of(properties).contains(
            #[trigger] common(lists)[j],
        ) by {
            let name = common(lists)[j];
            assert(common(lists).contains(name));
            assert(in_every(lists, name));
            assert(lists[0].contains(name));
            assert(required_of(first).contains(name));
            match first {
                Shape::Object { properties: own, required: Some(list) } => {
                    let q = choose|q: int| 0 <= q < list.len() && list[q] == name;
                    assert(names_of(own).contains(list[q]));
                    let k = choose|k: int| 0 <= k < names_of(own).len() && names_of(own)[k] == name;
                    assert(own[k] == (name, own[k].1));
                    assert(properties_of(siblings[0]).contains((name, own[k].1)));
                    assert(seen(name, own[k].1));
                },
                _ => {},
            }
        }
    }
}

/// Totality, with the rules of the data kept: whatever the value, the
/// inferred shape is well formed, it is no union, and if it is an object,
/// none of its properties is a union.
pub proof fn lemma_inferred_is_well_formed(value: JsonModel, detect_format: bool, keying: Keying)
    ensures
        plain(infer_shape(value, detect_format, keying)),
    decreases value,
{
    let shape = infer_shape(value, detect_format, keying);
    match value {
        JsonModel::Array(items) => {
            let children = child_shapes(items, detect_format, keying);
            if children.len() > 0 {
                let siblings = distinct_siblings(children, keying);
                lemma_distinct_siblings(children, keying);
                assert forall|j: int| 0 <= j < siblings.len() implies plain(
                    #[trigger] siblings[j],
                ) by {
                    assert(siblings.contains(siblings[j]));
                    let p = choose|p: int| 0 <= p < children.len() && children[p] == siblings[j];
                    lemma_inferred_is_well_formed(items[p], detect_format, keying);
                }
                let items = items_shape(children, keying);
                assert(items == settled_items(siblings));
                if siblings.len() == 1 {
                    assert(plain(siblings[0]));
                    assert(well_formed(items));
                } else if all_objects(siblings) {
                    lemma_merged_well_formed(siblings);
                    assert(well_formed(items));
                } else {
                    assert forall|j: int| 0 <= j < siblings.len() implies !(
                    #[trigger] siblings[j] is Union) by {
                        assert(plain(siblings[j]));
                    }
                    lemma_union_collapse(siblings);
                    assert forall|j: int| 0 <= j < siblings.len() implies !(
                    #[trigger] siblings[j] is Union) && well_formed(siblings[j]) by {
                        assert(plain(siblings[j]));
                    }
                    assert(items == Shape::Union(siblings));
                    assert(well_formed(items));
                }
                assert(shape == Shape::Array(Some(Box::new(items))));
                assert(well_formed(shape));
            }
            assert(properties_of(shape) =~= Seq::<(Seq<char>, Shape)>::empty());
        },
        JsonModel::Object(members) => {
            let inferred = member_shapes(members, detect_format, keying);
            let properties = filed_all(inferred, inferred.len());
            lemma_filed_all(inferred, inferred.len());
            assert forall|j: int| 0 <= j < properties.len() implies well_formed(
                (#[trigger] properties[j]).1,
            ) && !(properties[j].1 is Union) by {
                assert(properties.contains(properties[j]));
                let i = choose|i: int|
                    0 <= i < inferred.len() && #[trigger] inferred[i] == properties[j];
                lemma_inferred_is_well_formed(members[i].1, detect_format, keying);
            }
            assert forall|j: int| 0 <= j < names_of(properties).len() implies names_of(
                properties,
            ).contains(#[trigger] names_of(properties)[j]) by {}
        },
        _ => {
            assert(properties_of(shape) =~= Seq::<(Seq<char>, Shape)>::empty());
        },
    }
}

/// The union-collapse law for the properties of the items of an array: where
/// the distinct siblings are merged, the row of each property lists the shapes
/// seen under its name among them, each once; one shape stands for the
/// property as it is, and two or more make the union that lists exactly them.
pub proof fn lemma_merged_property_collapse(
    elements: Seq<JsonModel>,
    detect_format: bool,
    keying: Keying,
    j: int,
)
    requires
        0 <= j < observations(
            distinct_siblings(child_shapes(elements, detect_format, keying), keying),
        ).len(),
    ensures
        ({
            let siblings = distinct_siblings(
                child_shapes(elements, detect_format, keying),
                keying,
            );
            let row = observations(siblings)[j];
            let property = settled(observations(siblings))[j];
            &&& property.0 == row.0
            &&& row.1.no_duplicates()
            &&& row.1.len() >= 1
            &&& forall|shape: Shape| row.1.contains(shape) <==> seen_under(siblings, row.0, shape)
            &&& row.1.len() == 1 ==> property.1 == row.1[0] && !(property.1 is Union)
            &&& row.1.len() >= 2 ==> property.1 == Shape::Union(row.1)
        }),
{
    let children = child_shapes(elements, detect_format, keying);
    let siblings = distinct_siblings(children, keying);
    lemma_distinct_siblings(children, keying);
    assert forall|i: int, k: int|
        0 <= i < siblings.len() && 0 <= k < properties_of(siblings[i]).len() implies !((
    #[trigger] properties_of(siblings[i])[k]).1 is Union) by {
        assert(siblings.contains(siblings[i]));
        let p = choose|p: int| 0 <= p < children.len() && children[p] == siblings[i];
        lemma_inferred_is_well_formed(elements[p], detect_format, keying);
        assert(plain(siblings[i]));
    }
    lemma_property_collapse(siblings, j);
    let row = observations(siblings)[j];
    if row.1.len() == 1 {
        assert(row.1.contains(row.1[0]));
        assert(seen_under(siblings, row.0, row.1[0]));
        let i = choose|i: int|
            0 <= i < siblings.len() && #[trigger] properties_of(siblings[i]).contains(
                (row.0, row.1[0]),
            );
        let k = choose|k: int|
            0 <= k < properties_of(siblings[i]).len() && properties_of(siblings[i])[k] == (
                row.0,
                row.1[0],
            );
        assert(!(properties_of(siblings[i])[k].1 is Union));
    }
}

/// Whether `whole` stands for `part`: it is that shape, or a union that
/// lists it.
pub open spec fn stands_for(whole: Shape, part: Shape) -> bool {
    whole == part || (whole is Union && whole->Union_0.contains(part))
}

/// Whether the shape of the items of an array accounts for the shape of one
/// element: it stands for the element, or both are objects and every property
/// of the element is a property of the items whose shape stands for the
/// element's.
pub open spec fn accounts_for(items: Shape, child: Shape) -> bool {
    stands_for(items, child) || (items is Object && child is Object && forall|k: int|
        0 <= k < properties_of(child).len() ==> exists|j: int|
            0 <= j < properties_of(items).len() && (#[trigger] properties_of(items)[j]).0 == (
            #[trigger] properties_of(child)[k]).0 && stands_for(
                properties_of(items)[j].1,
                properties_of(child)[k].1,
            ))
}

/// Nothing is dropped: the items of an array account for the shape of every
/// one of its elements.
pub proof fn lemma_nothing_is_dropped(
    elements: Seq<JsonModel>,
    detect_format: bool,
    keying: Keying,
    i: int,
)
    requires
        0 <= i < elements.len(),
    ensures
        accounts_for(
            items_shape(child_shapes(elements, detect_format, keying), keying),
            infer_shape(elements[i], detect_format, keying),
        ),
{
    let children = child_shapes(elements, detect_format, keying);
    let siblings = distinct_siblings(children, keying);
    let items = items_shape(children, keying);
    let child = children[i];
    lemma_items_collapse(elements, detect_format, keying);
    assert(children.contains(child));
    assert(siblings.contains(child));
    let q = choose|q: int| 0 <= q < siblings.len() && siblings[q] == child;
    if siblings.len() == 1 {
        assert(items == siblings[0]);
        assert(stands_for(items, child));
    } else if !all_objects(siblings) {
        assert(items == Shape::Union(siblings));
        assert(items->Union_0.contains(child));
        assert(stands_for(items, child));
    } else {
        let table = observations(siblings);
        let merged_properties = settled(table);
        assert(siblings[q] is Object);
        assert(properties_of(items) == merged_properties);
        lemma_observations_tell(siblings);
        let seen = |n: Seq<char>, s: Shape| seen_under(siblings, n, s);
        assert(tells(table, seen));
        assert forall|k: int| 0 <= k < properties_of(child).len() implies exists|j: int|
            0 <= j < properties_of(items).len() && (#[trigger] properties_of(items)[j]).0 == (
            #[trigger] properties_of(child)[k]).0 && stands_for(
                properties_of(items)[j].1,
                properties_of(child)[k].1,
            ) by {
            let name = properties_of(child)[k].0;
            let part = properties_of(child)[k].1;
            assert(properties_of(siblings[q]).contains((name, part)));
            assert(seen(name, part));
            assert(keys_of(table).contains(name));
            let j = choose|j: int| 0 <= j < keys_of(table).len() && keys_of(table)[j] == name;
            assert(table[j].0 == name);
            assert(table[j].1.contains(part) <==> seen(table[j].0, part));
            lemma_merged_property_collapse(elements, detect_format, keying, j);
            let row = table[j];
            if row.1.len() == 1 {
                let m = choose|m: int| 0 <= m < row.1.len() && row.1[m] == part;
                assert(row.1[0] == part);
            }
            assert(merged_properties[j].0 == name);
            assert(stands_for(merged_properties[j].1, part));
        }
        assert(items is Object && child is Object);
        assert(accounts_for(items, child));
    }
}

} // verus!
