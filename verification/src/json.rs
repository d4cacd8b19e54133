//! The JSON value tree that inference reads and that schema documents are written in.

use vstd::prelude::*;

verus! {

/// A JSON number, kept in the encoding it was written in.
///
/// A whole number that fits `u64` is `PosInt`, a negative whole number that
/// fits `i64` is `NegInt`, and everything else is `Float`, which holds the
/// IEEE 754 bit pattern of the double.
#[derive(Clone, Copy, Debug, PartialEq, Eq)]
pub enum Number {
    PosInt(u64),
    NegInt(i64),
    Float(u64),
}

impl Number {
    /// Whether the number was written with a fraction or an exponent.
    pub open spec fn spec_is_float(self) -> bool {
        self is Float
    }

    /// Whether the number was written with a fraction or an exponent.
    #[verifier::when_used_as_spec(spec_is_float)]
    pub fn is_float(self) -> (r: bool)
        ensures
            r == self.spec_is_float(),
    {
        match self {
            Number::Float(_) => true,
            _ => false,
        }
    }
}

/// A JSON value. The members of an object are kept in the order they were given.
#[derive(Debug, PartialEq, Eq)]
pub enum Json {
    Null,
    Bool(bool),
    Number(Number),
    String(String),
    Array(Vec<Json>),
    Object(Vec<(String, Json)>),
}

/// The mathematical value of a [`Json`] tree.
pub enum JsonModel {
    Null,
    Bool(bool),
    Number(Number),
    String(Seq<char>),
    Array(Seq<JsonModel>),
    Object(Seq<(Seq<char>, JsonModel)>),
}

/// The models of a list of values, element by element.
pub open spec fn array_model(items: Seq<Json>) -> Seq<JsonModel>
    decreases items,
{
    Seq::new(
        items.len(),
        |i: int|
            if 0 <= i < items.len() {
                items[i].view()
            } else {
                JsonModel::Null
            },
    )
}

/// The models of a list of object members, member by member.
pub open spec fn members_model(members: Seq<(String, Json)>) -> Seq<(Seq<char>, JsonModel)>
    decreases members,
{
    Seq::new(
        members.len(),
        |i: int|
            if 0 <= i < members.len() {
                (members[i].0@, members[i].1.view())
            } else {
                (Seq::empty(), JsonModel::Null)
            },
    )
}

impl View for Json {
    type V = JsonModel;

    open spec fn view(&self) -> JsonModel
        decreases self,
    {
        match self {
            Json::Null => JsonModel::Null,
            Json::Bool(b) => JsonModel::Bool(*b),
            Json::Number(n) => JsonModel::Number(*n),
            Json::String(s) => JsonModel::String(s@),
            Json::Array(items) => JsonModel::Array(array_model(items@)),
            Json::Object(members) => JsonModel::Object(members_model(members@)),
        }
    }
}

impl Clone for Json {
    fn clone(&self) -> (r: Self)
        ensures
            r@ == self@,
        decreases self,
    {
        match self {
            Json::Null => Json::Null,
            Json::Bool(b) => Json::Bool(*b),
            Json::Number(n) => Json::Number(*n),
            Json::String(s) => Json::String(s.clone()),
            Json::Array(items) => {
                let mut out: Vec<Json> = Vec::new();
                let mut i: usize = 0;
                while i < items.len()
                    invariant
                        *self == Json::Array(*items),
                        i <= items.len(),
                        out@.len() == i,
                        forall|j: int| 0 <= j < i ==> out@[j]@ == items@[j]@,
                    decreases items.len() - i,
                {
                    proof {
                        assert(decreases_to!(*self => self->Array_0));
                        assert(decreases_to!(*items => items[i as int]));
                    }
                    out.push(items[i].clone());
                    i += 1;
                }
                assert(array_model(out@) =~= array_model(items@));
                Json::Array(out)
            },
            Json::Object(members) => {
                let mut out: Vec<(String, Json)> = Vec::new();
                let mut i: usize = 0;
                while i < members.len()
                    invariant
                        *self == Json::Object(*members),
                        i <= members.len(),
                        out@.len() == i,
                        forall|j: int|
                            0 <= j < i ==> out@[j].0@ == members@[j].0@ && out@[j].1@
                                == members@[j].1@,
                    decreases members.len() - i,
                {
                    proof {
                        assert(decreases_to!(*self => self->Object_0));
                        assert(decreases_to!(*members => members[i as int]));
                    }
                    out.push((members[i].0.clone(), members[i].1.clone()));
                    i += 1;
                }
                assert(members_model(out@) =~= members_model(members@));
                Json::Object(out)
            },
        }
    }
}

} // verus!
