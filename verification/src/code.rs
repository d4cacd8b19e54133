//! The canonical code of a shape: a text that tells any two shapes apart,
//! by which siblings of one rank are put in order.

use crate::fragment::{entries, names, shapes, Format, Fragment, Shape};
use vstd::prelude::*;

verus! {

/// The code of the characters of a name from the `i`-th on: each behind a
/// `1`, and a `0` at the end.
pub open spec fn name_code(name: Seq<char>, i: nat) -> Seq<char>
    decreases name.len() - i,
{
    if i >= name.len() {
        seq!['0']
    } else {
        seq!['1', name[i as int]] + name_code(name, i + 1)
    }
}

/// The code of the names of a list from the `i`-th on: each behind a `1`,
/// and a `0` at the end.
pub open spec fn names_code(list: Seq<Seq<char>>, i: nat) -> Seq<char>
    decreases list.len() - i,
{
    if i >= list.len() {
        seq!['0']
    } else {
        seq!['1'] + name_code(list[i as int], 0) + names_code(list, i + 1)
    }
}

/// The code of the shapes of a list from the `i`-th on: each behind a `1`,
/// and a `0` at the end.
pub open spec fn list_code(list: Seq<Shape>, i: nat) -> Seq<char>
    decreases list, list.len() - i,
{
    if i >= list.len() {
        seq!['0']
    } else {
        seq!['1'] + code(list[i as int]) + list_code(list, i + 1)
    }
}

/// The code of the properties of a list from the `i`-th on: each behind a
/// `1`, its name before its shape, and a `0` at the end.
pub open spec fn properties_code(properties: Seq<(Seq<char>, Shape)>, i: nat) -> Seq<char>
    decreases properties, properties.len() - i,
{
    if i >= properties.len() {
        seq!['0']
    } else {
        seq!['1'] + name_code(properties[i as int].0, 0) + code(properties[i as int].1)
            + properties_code(properties, i + 1)
    }
}

/// The code of what an object guarantees.
pub open spec fn required_code(required: Option<Seq<Seq<char>>>) -> Seq<char> {
    match required {
        None => seq!['0'],
        Some(list) => seq!['1'] + names_code(list, 0),
    }
}

/// The mark of a format in a code.
pub open spec fn format_mark(format: Option<Format>) -> char {
    match format {
        None => '0',
        Some(Format::Integer) => '1',
        Some(Format::Date) => '2',
        Some(Format::DateTime) => '3',
    }
}

/// The canonical code of a shape: a letter for its kind, then the codes of
/// its parts.
pub open spec fn code(shape: Shape) -> Seq<char>
    decreases shape, 0nat,
{
    match shape {
        Shape::Null => seq!['n'],
        Shape::Boolean => seq!['b'],
        Shape::Integer => seq!['i'],
        Shape::Number => seq!['f'],
        Shape::String(format) => seq!['s', format_mark(format)],
        Shape::Array(None) => seq!['a', '0'],
        Shape::Array(Some(items)) => seq!['a', '1'] + code(*items),
        Shape::Object { properties, required } => seq!['o'] + properties_code(properties, 0)
            + required_code(required),
        Shape::Union(variants) => seq!['u'] + list_code(variants, 0),
    }
}

/// What is left of two texts that begin alike is alike.
pub proof fn lemma_cut(head: Seq<char>, a: Seq<char>, b: Seq<char>)
    requires
        head + a == head + b,
    ensures
        a == b,
{
    assert((head + a).skip(head.len() as int) =~= a);
    assert((head + b).skip(head.len() as int) =~= b);
}

/// The code of a name ends where it ends: if two codes of names, each with
/// something behind it, make the same text, the names are the same and so is
/// what stands behind them.
pub proof fn lemma_name_code_parses(
    a: Seq<char>,
    i: nat,
    b: Seq<char>,
    j: nat,
    x: Seq<char>,
    y: Seq<char>,
)
    requires
        i <= a.len(),
        j <= b.len(),
        name_code(a, i) + x == name_code(b, j) + y,
    ensures
        a.skip(i as int) == b.skip(j as int),
        x == y,
    decreases a.len() - i,
{
    let left = name_code(a, i) + x;
    let right = name_code(b, j) + y;
    assert(left[0] == right[0]);
    if i >= a.len() {
        assert(left[0] == '0');
        assert(j >= b.len());
        lemma_cut(seq!['0'], x, y);
        assert(a.skip(i as int) =~= b.skip(j as int));
    } else {
        assert(left[0] == '1');
        assert(j < b.len());
        assert(left[1] == a[i as int] && right[1] == b[j as int]);
        let rest_a = name_code(a, i + 1) + x;
        let rest_b = name_code(b, j + 1) + y;
        assert(left =~= seq!['1', a[i as int]] + rest_a);
        assert(right =~= seq!['1', a[i as int]] + rest_b);
        lemma_cut(seq!['1', a[i as int]], rest_a, rest_b);
        lemma_name_code_parses(a, i + 1, b, j + 1, x, y);
        assert(a.skip(i as int) =~= seq![a[i as int]] + a.skip((i + 1) as int));
        assert(b.skip(j as int) =~= seq![b[j as int]] + b.skip((j + 1) as int));
    }
}

/// The code of a list of names ends where it ends.
pub proof fn lemma_names_code_parses(
    a: Seq<Seq<char>>,
    i: nat,
    b: Seq<Seq<char>>,
    j: nat,
    x: Seq<char>,
    y: Seq<char>,
)
    requires
        i <= a.len(),
        j <= b.len(),
        names_code(a, i) + x == names_code(b, j) + y,
    ensures
        a.skip(i as int) == b.skip(j as int),
        x == y,
    decreases a.len() - i,
{
    let left = names_code(a, i) + x;
    let right = names_code(b, j) + y;
    assert(left[0] == right[0]);
    if i >= a.len() {
        assert(left[0] == '0');
        assert(j >= b.len());
        lemma_cut(seq!['0'], x, y);
        assert(a.skip(i as int) =~= b.skip(j as int));
    } else {
        assert(left[0] == '1');
        assert(j < b.len());
        let rest_a = names_code(a, i + 1) + x;
        let rest_b = names_code(b, j + 1) + y;
        assert(left =~= seq!['1'] + (name_code(a[i as int], 0) + rest_a));
        assert(right =~= seq!['1'] + (name_code(b[j as int], 0) + rest_b));
        lemma_cut(seq!['1'], name_code(a[i as int], 0) + rest_a, name_code(b[j as int], 0) + rest_b);
        lemma_name_code_parses(a[i as int], 0, b[j as int], 0, rest_a, rest_b);
        assert(a[i as int].skip(0) =~= a[i as int] && b[j as int].skip(0) =~= b[j as int]);
        lemma_names_code_parses(a, i + 1, b, j + 1, x, y);
        assert(a.skip(i as int) =~= seq![a[i as int]] + a.skip((i + 1) as int));
        assert(b.skip(j as int) =~= seq![b[j as int]] + b.skip((j + 1) as int));
    }
}

/// The code of a list of shapes ends where it ends.
pub proof fn lemma_list_code_parses(
    a: Seq<Shape>,
    i: nat,
    b: Seq<Shape>,
    j: nat,
    x: Seq<char>,
    y: Seq<char>,
)
    requires
        i <= a.len(),
        j <= b.len(),
        list_code(a, i) + x == list_code(b, j) + y,
    ensures
        a.skip(i as int) == b.skip(j as int),
        x == y,
    decreases a, a.len() - i,
{
    let left = list_code(a, i) + x;
    let right = list_code(b, j) + y;
    assert(left[0] == right[0]);
    if i >= a.len() {
        assert(left[0] == '0');
        assert(j >= b.len());
        lemma_cut(seq!['0'], x, y);
        assert(a.skip(i as int) =~= b.skip(j as int));
    } else {
        assert(left[0] == '1');
        assert(j < b.len());
        let rest_a = list_code(a, i + 1) + x;
        let rest_b = list_code(b, j + 1) + y;
        assert(left =~= seq!['1'] + (code(a[i as int]) + rest_a));
        assert(right =~= seq!['1'] + (code(b[j as int]) + rest_b));
        lemma_cut(seq!['1'], code(a[i as int]) + rest_a, code(b[j as int]) + rest_b);
        lemma_code_parses(a[i as int], b[j as int], rest_a, rest_b);
        lemma_list_code_parses(a, i + 1, b, j + 1, x, y);
        assert(a.skip(i as int) =~= seq![a[i as int]] + a.skip((i + 1) as int));
        assert(b.skip(j as int) =~= seq![b[j as int]] + b.skip((j + 1) as int));
    }
}

/// The code of a list of properties ends where it ends.
pub proof fn lemma_properties_code_parses(
    a: Seq<(Seq<char>, Shape)>,
    i: nat,
    b: Seq<(Seq<char>, Shape)>,
    j: nat,
    x: Seq<char>,
    y: Seq<char>,
)
    requires
        i <= a.len(),
        j <= b.len(),
        properties_code(a, i) + x == properties_code(b, j) + y,
    ensures
        a.skip(i as int) == b.skip(j as int),
        x == y,
    decreases a, a.len() - i,
{
    let left = properties_code(a, i) + x;
    let right = properties_code(b, j) + y;
    assert(left[0] == right[0]);
    if i >= a.len() {
        assert(left[0] == '0');
        assert(j >= b.len());
        lemma_cut(seq!['0'], x, y);
        assert(a.skip(i as int) =~= b.skip(j as int));
    } else {
        assert(left[0] == '1');
        assert(j < b.len());
        let rest_a = properties_code(a, i + 1) + x;
        let rest_b = properties_code(b, j + 1) + y;
        let tail_a = code(a[i as int].1) + rest_a;
        let tail_b = code(b[j as int].1) + rest_b;
        assert(left =~= seq!['1'] + (name_code(a[i as int].0, 0) + tail_a));
        assert(right =~= seq!['1'] + (name_code(b[j as int].0, 0) + tail_b));
        lemma_cut(
            seq!['1'],
            name_code(a[i as int].0, 0) + tail_a,
            name_code(b[j as int].0, 0) + tail_b,
        );
        lemma_name_code_parses(a[i as int].0, 0, b[j as int].0, 0, tail_a, tail_b);
        assert(a[i as int].0.skip(0) =~= a[i as int].0 && b[j as int].0.skip(0) =~= b[j as int].0);
        lemma_code_parses(a[i as int].1, b[j as int].1, rest_a, rest_b);
        lemma_properties_code_parses(a, i + 1, b, j + 1, x, y);
        assert(a[i as int] == b[j as int]);
        assert(a.skip(i as int) =~= seq![a[i as int]] + a.skip((i + 1) as int));
        assert(b.skip(j as int) =~= seq![b[j as int]] + b.skip((j + 1) as int));
    }
}

/// The code of a shape ends where it ends: if two codes, each with
/// something behind it, make the same text, the shapes are the same and so
/// is what stands behind them.
pub proof fn lemma_code_parses(a: Shape, b: Shape, x: Seq<char>, y: Seq<char>)
    requires
        code(a) + x == code(b) + y,
    ensures
        a == b,
        x == y,
    decreases a, 0nat,
{
    let left = code(a) + x;
    let right = code(b) + y;
    assert(left[0] == right[0]);
    assert(left[0] == code(a)[0] && right[0] == code(b)[0]);
    match (a, b) {
        (Shape::Null, Shape::Null)
        | (Shape::Boolean, Shape::Boolean)
        | (Shape::Integer, Shape::Integer)
        | (Shape::Number, Shape::Number) => {
            lemma_cut(code(a), x, y);
        },
        (Shape::String(f), Shape::String(g)) => {
            assert(left[1] == format_mark(f) && right[1] == format_mark(g));
            lemma_cut(code(a), x, y);
        },
        (Shape::Array(p), Shape::Array(q)) => {
            assert(left[1] == code(a)[1] && right[1] == code(b)[1]);
            match (p, q) {
                (None, None) => {
                    lemma_cut(code(a), x, y);
                },
                (Some(inner_a), Some(inner_b)) => {
                    assert(left =~= seq!['a', '1'] + (code(*inner_a) + x));
                    assert(right =~= seq!['a', '1'] + (code(*inner_b) + y));
                    lemma_cut(seq!['a', '1'], code(*inner_a) + x, code(*inner_b) + y);
                    lemma_code_parses(*inner_a, *inner_b, x, y);
                },
                _ => {},
            }
        },
        (
            Shape::Object { properties: pa, required: ra },
            Shape::Object { properties: pb, required: rb },
        ) => {
            let tail_a = required_code(ra) + x;
            let tail_b = required_code(rb) + y;
            assert(left =~= seq!['o'] + (properties_code(pa, 0) + tail_a));
            assert(right =~= seq!['o'] + (properties_code(pb, 0) + tail_b));
            lemma_cut(seq!['o'], properties_code(pa, 0) + tail_a, properties_code(pb, 0) + tail_b);
            lemma_properties_code_parses(pa, 0, pb, 0, tail_a, tail_b);
            assert(pa.skip(0) =~= pa && pb.skip(0) =~= pb);
            assert(tail_a[0] == tail_b[0]);
            match (ra, rb) {
                (None, None) => {
                    lemma_cut(seq!['0'], x, y);
                },
                (Some(la), Some(lb)) => {
                    assert(tail_a =~= seq!['1'] + (names_code(la, 0) + x));
                    assert(tail_b =~= seq!['1'] + (names_code(lb, 0) + y));
                    lemma_cut(seq!['1'], names_code(la, 0) + x, names_code(lb, 0) + y);
                    lemma_names_code_parses(la, 0, lb, 0, x, y);
                    assert(la.skip(0) =~= la && lb.skip(0) =~= lb);
                },
                _ => {},
            }
        },
        (Shape::Union(va), Shape::Union(vb)) => {
            assert(left =~= seq!['u'] + (list_code(va, 0) + x));
            assert(right =~= seq!['u'] + (list_code(vb, 0) + y));
            lemma_cut(seq!['u'], list_code(va, 0) + x, list_code(vb, 0) + y);
            lemma_list_code_parses(va, 0, vb, 0, x, y);
            assert(va.skip(0) =~= va && vb.skip(0) =~= vb);
        },
        _ => {},
    }
}

/// The code tells shapes apart: shapes of the same code are the same shape.
pub proof fn lemma_code_tells_apart(a: Shape, b: Shape)
    requires
        code(a) == code(b),
    ensures
        a == b,
{
    assert(code(a) + Seq::<char>::empty() =~= code(a));
    assert(code(b) + Seq::<char>::empty() =~= code(b));
    lemma_code_parses(a, b, Seq::empty(), Seq::empty());
}

/// Appends the code of a name.
pub fn encode_name(name: &str, out: &mut Vec<char>)
    ensures
        final(out)@ == old(out)@ + name_code(name@, 0),
{
    let ghost start = out@;
    for c in it: name.chars()
        invariant
            it.seq() == name@,
            out@ + name_code(name@, it.index() as nat) == start + name_code(name@, 0),
    {
        let ghost before = out@;
        let ghost k = it.index() as nat;
        out.push('1');
        out.push(c);
        assert(name_code(name@, k) == seq!['1', c] + name_code(name@, k + 1));
        assert(out@ + name_code(name@, k + 1) =~= before + name_code(name@, k));
    }
    let ghost before = out@;
    out.push('0');
    assert(name_code(name@, name@.len()) == seq!['0']);
    assert(out@ =~= before + name_code(name@, name@.len()));
}

/// Appends the code of a list of names.
pub fn encode_names(list: &Vec<String>, out: &mut Vec<char>)
    ensures
        final(out)@ == old(out)@ + names_code(names(list@), 0),
{
    let ghost start = out@;
    let ghost all = names(list@);
    let mut i: usize = 0;
    while i < list.len()
        invariant
            i <= list.len(),
            all == names(list@),
            out@ + names_code(all, i as nat) == start + names_code(all, 0),
        decreases list.len() - i,
    {
        let ghost before = out@;
        out.push('1');
        encode_name(list[i].as_str(), out);
        assert(all[i as int] == list@[i as int]@);
        assert(names_code(all, i as nat) == seq!['1'] + name_code(all[i as int], 0) + names_code(
            all,
            (i + 1) as nat,
        ));
        assert(out@ + names_code(all, (i + 1) as nat) =~= before + names_code(all, i as nat));
        i += 1;
    }
    let ghost before = out@;
    out.push('0');
    assert(names_code(all, all.len()) == seq!['0']);
    assert(out@ =~= before + names_code(all, all.len()));
}

/// Appends the canonical code of a fragment.
pub fn encode_into(fragment: &Fragment, out: &mut Vec<char>)
    ensures
        final(out)@ == old(out)@ + code(fragment@),
    decreases fragment,
{
    let ghost start = out@;
    match fragment {
        Fragment::Null => {
            out.push('n');
            assert(out@ =~= start + code(fragment@));
        },
        Fragment::Boolean => {
            out.push('b');
            assert(out@ =~= start + code(fragment@));
        },
        Fragment::Integer => {
            out.push('i');
            assert(out@ =~= start + code(fragment@));
        },
        Fragment::Number => {
            out.push('f');
            assert(out@ =~= start + code(fragment@));
        },
        Fragment::String(format) => {
            out.push('s');
            let mark = match format {
                None => '0',
                Some(Format::Integer) => '1',
                Some(Format::Date) => '2',
                Some(Format::DateTime) => '3',
            };
            out.push(mark);
            assert(out@ =~= start + code(fragment@));
        },
        Fragment::Array(None) => {
            out.push('a');
            out.push('0');
            assert(out@ =~= start + code(fragment@));
        },
        Fragment::Array(Some(items)) => {
            out.push('a');
            out.push('1');
            encode_into(&**items, out);
            assert(out@ =~= start + code(fragment@));
        },
        Fragment::Object { properties, required } => {
            out.push('o');
            let ghost opened = out@;
            let ghost all = entries(properties@);
            let mut i: usize = 0;
            while i < properties.len()
                invariant
                    *fragment == (Fragment::Object { properties: *properties, required: *required }),
                    all == entries(properties@),
                    i <= properties.len(),
                    out@ + properties_code(all, i as nat) == opened + properties_code(all, 0),
                decreases properties.len() - i,
            {
                proof {
                    assert(decreases_to!(*fragment => fragment->properties));
                    assert(decreases_to!(*properties => properties[i as int]));
                }
                let ghost before = out@;
                out.push('1');
                encode_name(properties[i].0.as_str(), out);
                encode_into(&properties[i].1, out);
                assert(all[i as int] == (properties@[i as int].0@, properties@[i as int].1@));
                assert(properties_code(all, i as nat) == seq!['1'] + name_code(all[i as int].0, 0)
                    + code(all[i as int].1) + properties_code(all, (i + 1) as nat));
                assert(out@ + properties_code(all, (i + 1) as nat) =~= before + properties_code(
                    all,
                    i as nat,
                ));
                i += 1;
            }
            let ghost before = out@;
            out.push('0');
            assert(properties_code(all, all.len()) == seq!['0']);
            assert(out@ =~= opened + properties_code(all, 0));
            let ghost listed = out@;
            match required {
                None => {
                    out.push('0');
                    assert(out@ =~= listed + required_code(None));
                },
                Some(list) => {
                    out.push('1');
                    encode_names(list, out);
                    assert(out@ =~= listed + required_code(Some(names(list@))));
                },
            }
            assert(opened == start + seq!['o']);
            assert(out@ =~= start + (seq!['o'] + properties_code(all, 0) + required_code(
                fragment@->required,
            )));
        },
        Fragment::Union(variants) => {
            out.push('u');
            let ghost opened = out@;
            let ghost all = shapes(variants@);
            let mut i: usize = 0;
            while i < variants.len()
                invariant
                    *fragment == Fragment::Union(*variants),
                    all == shapes(variants@),
                    i <= variants.len(),
                    out@ + list_code(all, i as nat) == opened + list_code(all, 0),
                decreases variants.len() - i,
            {
                proof {
                    assert(decreases_to!(*fragment => fragment->Union_0));
                    assert(decreases_to!(*variants => variants[i as int]));
                }
                let ghost before = out@;
                out.push('1');
                encode_into(&variants[i], out);
                assert(all[i as int] == variants@[i as int]@);
                assert(list_code(all, i as nat) == seq!['1'] + code(all[i as int]) + list_code(
                    all,
                    (i + 1) as nat,
                ));
                assert(out@ + list_code(all, (i + 1) as nat) =~= before + list_code(all, i as nat));
                i += 1;
            }
            let ghost before = out@;
            out.push('0');
            assert(list_code(all, all.len()) == seq!['0']);
            assert(out@ =~= opened + list_code(all, 0));
            assert(opened == start + seq!['u']);
            assert(out@ =~= start + (seq!['u'] + list_code(all, 0)));
        },
    }
}

/// The canonical code of a fragment.
pub fn encode(fragment: &Fragment) -> (r: Vec<char>)
    ensures
        r@ == code(fragment@),
{
    let mut out: Vec<char> = Vec::new();
    encode_into(fragment, &mut out);
    assert(Seq::<char>::empty() + code(fragment@) =~= code(fragment@));
    out
}

} // verus!
