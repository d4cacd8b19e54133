//! Schema fragments: what inference says about one value or one set of siblings.

use vstd::prelude::*;

verus! {

/// A recognised way of reading a string.
#[derive(Clone, Copy, Debug, PartialEq, Eq, Structural)]
pub enum Format {
    Integer,
    Date,
    DateTime,
}

impl Format {
    /// The keyword a schema document uses for this format.
    pub open spec fn spec_name(self) -> Seq<char> {
        match self {
            Format::Integer => "integer"@,
            Format::Date => "date"@,
            Format::DateTime => "date-time"@,
        }
    }

    /// The keyword a schema document uses for this format.
    pub fn name(self) -> (r: &'static str)
        ensures
            r@ == self.spec_name(),
    {
        match self {
            Format::Integer => "integer",
            Format::Date => "date",
            Format::DateTime => "date-time",
        }
    }
}

/// An inferred schema fragment.
///
/// `Array(None)` is the fragment of an empty array: nothing is said about its
/// items. An object without `required` guarantees no property.
#[derive(Debug, PartialEq, Eq)]
pub enum Fragment {
    Null,
    Boolean,
    Integer,
    Number,
    String(Option<Format>),
    Array(Option<Box<Fragment>>),
    Object { properties: Vec<(String, Fragment)>, required: Option<Vec<String>> },
    Union(Vec<Fragment>),
}

/// The mathematical value of a [`Fragment`].
pub enum Shape {
    Null,
    Boolean,
    Integer,
    Number,
    String(Option<Format>),
    Array(Option<Box<Shape>>),
    Object { properties: Seq<(Seq<char>, Shape)>, required: Option<Seq<Seq<char>>> },
    Union(Seq<Shape>),
}

/// The shapes of a list of fragments, element by element.
pub open spec fn shapes(items: Seq<Fragment>) -> Seq<Shape>
    decreases items, 0int,
{
    Seq::new(
        items.len(),
        |i: int|
            if 0 <= i < items.len() {
                items[i].view()
            } else {
                Shape::Null
            },
    )
}

/// The named shapes of a list of properties, entry by entry.
pub open spec fn entries(properties: Seq<(String, Fragment)>) -> Seq<(Seq<char>, Shape)>
    decreases properties, 0int,
{
    Seq::new(
        properties.len(),
        |i: int|
            if 0 <= i < properties.len() {
                (properties[i].0@, properties[i].1.view())
            } else {
                (Seq::empty(), Shape::Null)
            },
    )
}

/// The shape of a fragment held in a box.
pub open spec fn boxed_shape(item: Box<Fragment>) -> Shape
    decreases item, 1int,
{
    (*item).view()
}

/// The character sequences of a list of names.
pub open spec fn names(list: Seq<String>) -> Seq<Seq<char>> {
    Seq::new(list.len(), |i: int| list[i]@)
}

/// The names of an optional list.
pub open spec fn optional_names(list: Option<Vec<String>>) -> Option<Seq<Seq<char>>> {
    match list {
        Some(v) => Some(names(v@)),
        None => None,
    }
}

impl View for Fragment {
    type V = Shape;

    open spec fn view(&self) -> Shape
        decreases self, 0int,
    {
        match self {
            Fragment::Null => Shape::Null,
            Fragment::Boolean => Shape::Boolean,
            Fragment::Integer => Shape::Integer,
            Fragment::Number => Shape::Number,
            Fragment::String(format) => Shape::String(*format),
            Fragment::Array(None) => Shape::Array(None),
            Fragment::Array(Some(items)) => Shape::Array(Some(Box::new(boxed_shape(*items)))),
            Fragment::Object { properties, required } => Shape::Object {
                properties: entries(properties@),
                required: optional_names(*required),
            },
            Fragment::Union(variants) => Shape::Union(shapes(variants@)),
        }
    }
}

/// Pushing a fragment pushes its shape.
pub proof fn lemma_shapes_push(items: Seq<Fragment>, item: Fragment)
    ensures
        shapes(items.push(item)) == shapes(items).push(item@),
{
    assert(shapes(items.push(item)) =~= shapes(items).push(item@));
}

/// A copy of a list of names.
pub fn clone_names(list: &Vec<String>) -> (r: Vec<String>)
    ensures
        names(r@) == names(list@),
{
    let mut out: Vec<String> = Vec::new();
    let mut i: usize = 0;
    while i < list.len()
        invariant
            i <= list.len(),
            out@.len() == i,
            forall|j: int| 0 <= j < i ==> out@[j]@ == list@[j]@,
        decreases list.len() - i,
    {
        out.push(list[i].clone());
        i += 1;
    }
    assert(names(out@) =~= names(list@));
    out
}

/// Whether two lists hold the same names in the same order.
pub fn same_names(a: &Vec<String>, b: &Vec<String>) -> (r: bool)
    ensures
        r == (names(a@) == names(b@)),
{
    if a.len() != b.len() {
        assert(names(a@).len() != names(b@).len());
        return false;
    }
    let mut i: usize = 0;
    while i < a.len()
        invariant
            a.len() == b.len(),
            i <= a.len(),
            forall|j: int| 0 <= j < i ==> a@[j]@ == b@[j]@,
        decreases a.len() - i,
    {
        if a[i] != b[i] {
            assert(names(a@)[i as int] != names(b@)[i as int]);
            return false;
        }
        i += 1;
    }
    assert(names(a@) =~= names(b@));
    true
}

impl Clone for Fragment {
    fn clone(&self) -> (r: Self)
        ensures
            r@ == self@,
        decreases self,
    {
        match self {
            Fragment::Null => Fragment::Null,
            Fragment::Boolean => Fragment::Boolean,
            Fragment::Integer => Fragment::Integer,
            Fragment::Number => Fragment::Number,
            Fragment::String(format) => Fragment::String(*format),
            Fragment::Array(None) => Fragment::Array(None),
            Fragment::Array(Some(items)) => Fragment::Array(Some(Box::new((**items).clone()))),
            Fragment::Object { properties, required } => {
                let mut out: Vec<(String, Fragment)> = Vec::new();
                let mut i: usize = 0;
                while i < properties.len()
                    invariant
                        self is Object,
                        self->properties == *properties,
                        i <= properties.len(),
                        out@.len() == i,
                        forall|j: int|
                            0 <= j < i ==> out@[j].0@ == properties@[j].0@ && out@[j].1@
                                == properties@[j].1@,
                    decreases properties.len() - i,
                {
                    proof {
                        assert(decreases_to!(*self => self->properties));
                        assert(decreases_to!(*properties => properties[i as int]));
                    }
                    out.push((properties[i].0.clone(), properties[i].1.clone()));
                    i += 1;
                }
                assert(entries(out@) =~= entries(properties@));
                let required = match required {
                    Some(list) => Some(clone_names(list)),
                    None => None,
                };
                Fragment::Object { properties: out, required }
            },
            Fragment::Union(variants) => {
                let mut out: Vec<Fragment> = Vec::new();
                let mut i: usize = 0;
                while i < variants.len()
                    invariant
                        self is Union,
                        self->Union_0 == *variants,
                        i <= variants.len(),
                        out@.len() == i,
                        forall|j: int| 0 <= j < i ==> out@[j]@ == variants@[j]@,
                    decreases variants.len() - i,
                {
                    proof {
                        assert(decreases_to!(*self => self->Union_0));
                        assert(decreases_to!(*variants => variants[i as int]));
                    }
                    out.push(variants[i].clone());
                    i += 1;
                }
                assert(shapes(out@) =~= shapes(variants@));
                Fragment::Union(out)
            },
        }
    }
}

impl Fragment {
    /// Whether two fragments have the same content throughout.
    pub fn same(&self, other: &Fragment) -> (r: bool)
        ensures
            r == (self@ == other@),
        decreases self,
    {
        match (self, other) {
            (Fragment::Null, Fragment::Null) => true,
            (Fragment::Boolean, Fragment::Boolean) => true,
            (Fragment::Integer, Fragment::Integer) => true,
            (Fragment::Number, Fragment::Number) => true,
            (Fragment::String(a), Fragment::String(b)) => match (a, b) {
                (None, None) => true,
                (Some(x), Some(y)) => *x == *y,
                _ => false,
            },
            (Fragment::Array(a), Fragment::Array(b)) => match (a, b) {
                (None, None) => true,
                (Some(x), Some(y)) => (**x).same(&**y),
                _ => false,
            },
            (
                Fragment::Object { properties: pa, required: ra },
                Fragment::Object { properties: pb, required: rb },
            ) => {
                let required_same = match (ra, rb) {
                    (None, None) => true,
                    (Some(x), Some(y)) => same_names(x, y),
                    _ => false,
                };
                if !required_same || pa.len() != pb.len() {
                    assert(entries(pa@).len() == pa@.len() && entries(pb@).len() == pb@.len());
                    return false;
                }
                let mut i: usize = 0;
                while i < pa.len()
                    invariant
                        *self == (Fragment::Object { properties: *pa, required: *ra }),
                        *other == (Fragment::Object { properties: *pb, required: *rb }),
                        optional_names(*ra) == optional_names(*rb),
                        pa.len() == pb.len(),
                        i <= pa.len(),
                        forall|j: int|
                            0 <= j < i ==> pa@[j].0@ == pb@[j].0@ && pa@[j].1@ == pb@[j].1@,
                    decreases pa.len() - i,
                {
                    proof {
                        assert(decreases_to!(*self => self->properties));
                        assert(decreases_to!(*pa => pa[i as int]));
                    }
                    if pa[i].0 != pb[i].0 || !pa[i].1.same(&pb[i].1) {
                        assert(entries(pa@)[i as int] != entries(pb@)[i as int]);
                        return false;
                    }
                    i += 1;
                }
                assert(entries(pa@) =~= entries(pb@));
                true
            },
            (Fragment::Union(a), Fragment::Union(b)) => {
                if a.len() != b.len() {
                    assert(shapes(a@).len() != shapes(b@).len());
                    return false;
                }
                let mut i: usize = 0;
                while i < a.len()
                    invariant
                        *self == Fragment::Union(*a),
                        *other == Fragment::Union(*b),
                        a.len() == b.len(),
                        i <= a.len(),
                        forall|j: int| 0 <= j < i ==> a@[j]@ == b@[j]@,
                    decreases a.len() - i,
                {
                    proof {
                        assert(decreases_to!(*self => self->Union_0));
                        assert(decreases_to!(*a => a[i as int]));
                    }
                    if !a[i].same(&b[i]) {
                        assert(shapes(a@)[i as int] != shapes(b@)[i as int]);
                        return false;
                    }
                    i += 1;
                }
                assert(shapes(a@) =~= shapes(b@));
                true
            },
            _ => false,
        }
    }
}

} // verus!
