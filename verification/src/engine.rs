//! The inference itself: from a JSON value to its schema fragment.

use crate::document::{decorate, decorated, document, to_json};
use crate::format::{format_of, infer_format};
use crate::fragment::{entries, names, shapes, Fragment, Shape};
use crate::hashing::digest;
use crate::json::{array_model, members_model, Json, JsonModel, Number};
use crate::keyed::{arrange, arranged, ranked, shapes_of, Rank, SortKey};
use crate::laws::{lemma_inferred_is_well_formed, well_formed};
use crate::merge::{merge_of, try_merge, union_of, unite};
use crate::render::{render, rendered};
use crate::sorted::{find_slot, row_names, slot};
use crate::ValueWrapper;
use rayon::iter::{IntoParallelRefIterator, ParallelIterator};
use std::collections::hash_map::DefaultHasher;
use std::hash::Hasher;
use vstd::prelude::*;

verus! {

/// What the siblings of an array are ordered by. Siblings of one rank stand
/// in the order of their canonical codes, so the order is the same whatever
/// the order of the elements.
#[derive(Clone, Copy, Debug, PartialEq, Eq, Structural)]
pub enum Keying {
    /// By the hash of the sibling's schema document.
    Hash,
    /// By the canonical text of the sibling.
    Text,
}

/// The rank of a shape among its siblings.
pub open spec fn rank_of(shape: Shape, keying: Keying) -> Rank {
    match keying {
        Keying::Hash => Rank::Hash(digest(document(shape))),
        Keying::Text => Rank::Text(rendered(shape)),
    }
}

/// The names of a list of properties.
pub open spec fn names_of(properties: Seq<(Seq<char>, Shape)>) -> Seq<Seq<char>> {
    Seq::new(properties.len(), |i: int| properties[i].0)
}

/// The properties after one more member has been filed: under a name that
/// is there already the new shape replaces the old one, and a new name goes
/// in where the order of the names puts it.
pub open spec fn filed(properties: Seq<(Seq<char>, Shape)>, name: Seq<char>, item: Shape) -> Seq<
    (Seq<char>, Shape),
> {
    let (at, found) = slot(names_of(properties), name);
    if found {
        properties.update(at, (name, item))
    } else {
        properties.insert(at, (name, item))
    }
}

/// The properties made of the first `n` members.
pub open spec fn filed_all(members: Seq<(Seq<char>, Shape)>, n: nat) -> Seq<(Seq<char>, Shape)>
    decreases n,
{
    if n == 0 || n > members.len() {
        Seq::empty()
    } else {
        filed(filed_all(members, (n - 1) as nat), members[n - 1].0, members[n - 1].1)
    }
}

/// The shape of one object: a property for each member, in the order of the
/// names, and every one of them guaranteed.
pub open spec fn object_shape(members: Seq<(Seq<char>, Shape)>) -> Shape {
    let properties = filed_all(members, members.len());
    Shape::Object { properties, required: Some(names_of(properties)) }
}

/// Each shape with its rank.
pub open spec fn keyed_shapes(children: Seq<Shape>, keying: Keying) -> Seq<(Rank, Shape)> {
    Seq::new(children.len(), |i: int| (rank_of(children[i], keying), children[i]))
}

/// The shape that stands for a list of distinct sibling shapes: the shape
/// itself if there is one, the merge if all are objects, else the union.
pub open spec fn settled_items(siblings: Seq<Shape>) -> Shape {
    if siblings.len() == 1 {
        siblings[0]
    } else {
        match merge_of(siblings) {
            Some(one) => one,
            None => union_of(siblings),
        }
    }
}

/// The shape of the items of an array, given the shapes of its elements.
pub open spec fn items_shape(children: Seq<Shape>, keying: Keying) -> Shape {
    settled_items(shapes_of(arranged(keyed_shapes(children, keying))))
}

/// The shape of an array, given the shapes of its elements. Of the items
/// of an empty array nothing is said.
pub open spec fn array_shape(children: Seq<Shape>, keying: Keying) -> Shape {
    if children.len() == 0 {
        Shape::Array(None)
    } else {
        Shape::Array(Some(Box::new(items_shape(children, keying))))
    }
}

/// The shapes of the elements of an array.
pub open spec fn child_shapes(items: Seq<JsonModel>, detect_format: bool, keying: Keying) -> Seq<
    Shape,
>
    decreases items,
{
    Seq::new(
        items.len(),
        |i: int|
            if 0 <= i < items.len() {
                infer_shape(items[i], detect_format, keying)
            } else {
                Shape::Null
            },
    )
}

/// The shapes of the members of an object, each under its key.
pub open spec fn member_shapes(
    members: Seq<(Seq<char>, JsonModel)>,
    detect_format: bool,
    keying: Keying,
) -> Seq<(Seq<char>, Shape)>
    decreases members,
{
    Seq::new(
        members.len(),
        |i: int|
            if 0 <= i < members.len() {
                (members[i].0, infer_shape(members[i].1, detect_format, keying))
            } else {
                (Seq::empty(), Shape::Null)
            },
    )
}

/// The shape inferred for a JSON value.
pub open spec fn infer_shape(value: JsonModel, detect_format: bool, keying: Keying) -> Shape
    decreases value,
{
    match value {
        JsonModel::Null => Shape::Null,
        JsonModel::Bool(_) => Shape::Boolean,
        JsonModel::Number(n) => if n.spec_is_float() {
            Shape::Number
        } else {
            Shape::Integer
        },
        JsonModel::String(s) => Shape::String(
            if detect_format {
                format_of(s)
            } else {
                None
            },
        ),
        JsonModel::Array(items) => array_shape(child_shapes(items, detect_format, keying), keying),
        JsonModel::Object(members) => object_shape(member_shapes(members, detect_format, keying)),
    }
}

/// The schema document inferred for a JSON value: the document of its
/// shape, with the address of the schema dialect in front.
pub open spec fn schema_document(value: JsonModel, detect_format: bool, keying: Keying) -> JsonModel {
    decorated(document(infer_shape(value, detect_format, keying)))
}

/// Computes the key a fragment is ordered by.
pub fn sort_key(fragment: &Fragment, keying: Keying) -> (r: SortKey)
    ensures
        r@ == rank_of(fragment@, keying),
{
    match keying {
        Keying::Hash => {
            let doc = to_json(fragment);
            let mut hasher = DefaultHasher::new();
            ValueWrapper(&doc).hash(&mut hasher);
            SortKey::Hash(hasher.finish())
        },
        Keying::Text => SortKey::Text(render(fragment)),
    }
}

/// Infers the fragment of a string.
pub fn infer_string(string: &str, detect_format: bool) -> (r: Fragment)
    ensures
        r@ == Shape::String(
            if detect_format {
                format_of(string@)
            } else {
                None
            },
        ),
{
    if detect_format {
        Fragment::String(infer_format(string))
    } else {
        Fragment::String(None)
    }
}

/// Infers the fragment of a number.
pub fn infer_number(number: &Number) -> (r: Fragment)
    ensures
        r@ == (if number.spec_is_float() {
            Shape::Number
        } else {
            Shape::Integer
        }),
{
    if number.is_float() {
        Fragment::Number
    } else {
        Fragment::Integer
    }
}

/// Files one member among the properties of an object.
pub fn file_member(properties: &mut Vec<(String, Fragment)>, name: String, item: Fragment)
    ensures
        entries(final(properties)@) == filed(entries(old(properties)@), name@, item@),
{
    let ghost before = entries(properties@);
    assert(row_names(properties@) =~= names_of(before));
    let (at, found) = find_slot(properties, &name);
    if found {
        properties[at] = (name, item);
        assert(entries(properties@) =~= before.update(at as int, (name@, item@)));
    } else {
        properties.insert(at, (name, item));
        assert(entries(properties@) =~= before.insert(at as int, (name@, item@)));
    }
}

/// Settles what stands for a list of distinct sibling fragments.
pub fn settle_items(siblings: Vec<Fragment>) -> (r: Fragment)
    ensures
        r@ == settled_items(shapes(siblings@)),
{
    let mut siblings = siblings;
    if siblings.len() == 1 {
        let only = siblings.pop().unwrap();
        only
    } else {
        match try_merge(&siblings) {
            Some(one) => one,
            None => unite(&siblings),
        }
    }
}

/// Reconciles the keyed fragments of the elements of an array into the
/// fragment of their items.
pub fn reconcile_items(keyed: Vec<(SortKey, Fragment)>) -> (r: Fragment)
    ensures
        r@ == settled_items(shapes_of(arranged(ranked(keyed@)))),
{
    let ordered = arrange(keyed);
    let ghost pairs = ordered@;
    let mut siblings: Vec<Fragment> = Vec::new();
    for pair in it: ordered
        invariant
            it.seq() == pairs,
            siblings@.len() == it.index(),
            forall|j: int| 0 <= j < it.index() ==> siblings@[j]@ == pairs[j].1@,
    {
        siblings.push(pair.1);
    }
    assert(shapes(siblings@) =~= shapes_of(ranked(pairs)));
    settle_items(siblings)
}

/// Infers the fragment of a value together with the key it is ordered by.
pub fn keyed_fragment(value: &Json, detect_format: bool, keying: Keying) -> (r: (SortKey, Fragment))
    ensures
        r.1@ == infer_shape(value@, detect_format, keying),
        r.0@ == rank_of(r.1@, keying),
    decreases value, 1nat,
{
    let inferred = infer_value(value, detect_format, keying);
    (sort_key(&inferred, keying), inferred)
}

/// Infers the keyed fragments of the elements of an array on rayon's thread
/// pool: `par_iter` over the elements, `map` with [`keyed_fragment`], and
/// `collect` into a vector.
///
/// Trusted, not proved: rayon calls the closure once for each element, and
/// collecting into a vector keeps the order of the elements, so the result
/// holds, element by element, what `keyed_fragment` returns for it.
#[verifier::external_body]
fn keyed_fragments_in_parallel(items: &Vec<Json>, detect_format: bool, keying: Keying) -> (r: Vec<
    (SortKey, Fragment),
>)
    ensures
        ranked(r@) == keyed_shapes(
            child_shapes(array_model(items@), detect_format, keying),
            keying,
        ),
{
    items.par_iter().map(|item| keyed_fragment(item, detect_format, keying)).collect()
}

/// Infers the fragment of an array. The elements of an array of more than
/// eight are inferred in parallel; the outcome is the same either way.
pub fn infer_array(array: &Vec<Json>, detect_format: bool, keying: Keying) -> (r: Fragment)
    ensures
        r@ == array_shape(child_shapes(array_model(array@), detect_format, keying), keying),
    decreases array, 0nat,
{
    let ghost children = child_shapes(array_model(array@), detect_format, keying);
    if array.len() == 0 {
        return Fragment::Array(None);
    }
    let keyed = if array.len() > 8 {
        keyed_fragments_in_parallel(array, detect_format, keying)
    } else {
        let mut keyed: Vec<(SortKey, Fragment)> = Vec::new();
        let mut i: usize = 0;
        while i < array.len()
            invariant
                i <= array.len(),
                keyed@.len() == i,
                children == child_shapes(array_model(array@), detect_format, keying),
                forall|j: int|
                    0 <= j < i ==> keyed@[j].1@ == children[j] && keyed@[j].0@ == rank_of(
                        children[j],
                        keying,
                    ),
            decreases array.len() - i,
        {
            proof {
                assert(decreases_to!(*array => array[i as int]));
                assert(array_model(array@)[i as int] == array@[i as int]@);
            }
            keyed.push(keyed_fragment(&array[i], detect_format, keying));
            i += 1;
        }
        assert(ranked(keyed@) =~= keyed_shapes(children, keying));
        keyed
    };
    Fragment::Array(Some(Box::new(reconcile_items(keyed))))
}

/// Infers the fragment of an object.
pub fn infer_object(object: &Vec<(String, Json)>, detect_format: bool, keying: Keying) -> (r:
    Fragment)
    ensures
        r@ == object_shape(member_shapes(members_model(object@), detect_format, keying)),
    decreases object, 0nat,
{
    let ghost members = member_shapes(members_model(object@), detect_format, keying);
    let mut properties: Vec<(String, Fragment)> = Vec::new();
    let mut i: usize = 0;
    assert(entries(properties@) =~= filed_all(members, 0));
    while i < object.len()
        invariant
            i <= object.len(),
            members == member_shapes(members_model(object@), detect_format, keying),
            entries(properties@) == filed_all(members, i as nat),
        decreases object.len() - i,
    {
        proof {
            assert(decreases_to!(*object => object[i as int]));
            assert(members_model(object@)[i as int] == (
                object@[i as int].0@,
                object@[i as int].1@,
            ));
        }
        let inferred = infer_value(&object[i].1, detect_format, keying);
        file_member(&mut properties, object[i].0.clone(), inferred);
        i += 1;
    }
    let mut required: Vec<String> = Vec::new();
    let mut k: usize = 0;
    while k < properties.len()
        invariant
            k <= properties.len(),
            required@.len() == k,
            forall|j: int| 0 <= j < k ==> required@[j]@ == properties@[j].0@,
        decreases properties.len() - k,
    {
        required.push(properties[k].0.clone());
        k += 1;
    }
    assert(names(required@) =~= names_of(entries(properties@)));
    Fragment::Object { properties, required: Some(required) }
}

/// Infers the fragment of a JSON value. Every value has one, and it is
/// well formed.
pub fn infer_value(data: &Json, detect_format: bool, keying: Keying) -> (r: Fragment)
    ensures
        r@ == infer_shape(data@, detect_format, keying),
        well_formed(r@),
        !(r@ is Union),
    decreases data, 0nat,
{
    proof {
        lemma_inferred_is_well_formed(data@, detect_format, keying);
    }
    match data {
        Json::Null => Fragment::Null,
        Json::Bool(_) => Fragment::Boolean,
        Json::String(string) => infer_string(string.as_str(), detect_format),
        Json::Number(number) => infer_number(number),
        Json::Array(array) => {
            proof {
                assert(decreases_to!(*data => data->Array_0));
            }
            infer_array(array, detect_format, keying)
        },
        Json::Object(object) => {
            proof {
                assert(decreases_to!(*data => data->Object_0));
            }
            infer_object(object, detect_format, keying)
        },
    }
}

/// Infers the schema document of a JSON value.
pub fn infer_document(data: &Json, detect_format: bool, keying: Keying) -> (r: Json)
    ensures
        r@ == schema_document(data@, detect_format, keying),
{
    let fragment = infer_value(data, detect_format, keying);
    decorate(to_json(&fragment))
}

} // verus!
