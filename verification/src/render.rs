//! The canonical text of a fragment: its schema document in compact JSON,
//! the members of every object in the order of their keys. The strings in it
//! are written by serde_json.

use crate::fragment::{entries, names, shapes, Fragment, Shape};
use crate::text::append_str;
use vstd::prelude::*;

verus! {

/// The lower-case hexadecimal digit for a number below sixteen.
pub open spec fn hex_digit(n: int) -> char {
    if n == 0 {
        '0'
    } else if n == 1 {
        '1'
    } else if n == 2 {
        '2'
    } else if n == 3 {
        '3'
    } else if n == 4 {
        '4'
    } else if n == 5 {
        '5'
    } else if n == 6 {
        '6'
    } else if n == 7 {
        '7'
    } else if n == 8 {
        '8'
    } else if n == 9 {
        '9'
    } else if n == 10 {
        'a'
    } else if n == 11 {
        'b'
    } else if n == 12 {
        'c'
    } else if n == 13 {
        'd'
    } else if n == 14 {
        'e'
    } else {
        'f'
    }
}

/// How one character of a string is written in JSON text: the quotation
/// mark and the backslash behind a backslash, a control character by its
/// short escape or as `\u00` and two hexadecimal digits, anything else as it is.
pub open spec fn escaped_char(c: char) -> Seq<char> {
    if c == '"' {
        seq!['\\', '"']
    } else if c == '\\' {
        seq!['\\', '\\']
    } else if c == '\u{8}' {
        seq!['\\', 'b']
    } else if c == '\u{c}' {
        seq!['\\', 'f']
    } else if c == '\n' {
        seq!['\\', 'n']
    } else if c == '\r' {
        seq!['\\', 'r']
    } else if c == '\t' {
        seq!['\\', 't']
    } else if (c as int) < 32 {
        seq!['\\', 'u', '0', '0', hex_digit(c as int / 16), hex_digit(c as int % 16)]
    } else {
        seq![c]
    }
}

/// The escaped characters of a string, one after the other.
pub open spec fn escaped(s: Seq<char>) -> Seq<char>
    decreases s.len(),
{
    if s.len() == 0 {
        Seq::empty()
    } else {
        escaped(s.drop_last()) + escaped_char(s.last())
    }
}

/// A string as JSON text, between quotation marks.
pub open spec fn quoted(s: Seq<char>) -> Seq<char> {
    seq!['"'] + escaped(s) + seq!['"']
}

/// The first `n` names as JSON strings, separated by commas.
pub open spec fn rendered_names(list: Seq<Seq<char>>, n: nat) -> Seq<char>
    decreases n,
{
    if n == 0 || n > list.len() {
        Seq::empty()
    } else if n == 1 {
        quoted(list[0])
    } else {
        rendered_names(list, (n - 1) as nat) + seq![','] + quoted(list[n - 1])
    }
}

/// The texts of the first `n` shapes, separated by commas.
pub open spec fn rendered_list(list: Seq<Shape>, n: nat) -> Seq<char>
    decreases list, n,
{
    if n == 0 || n > list.len() {
        Seq::empty()
    } else if n == 1 {
        rendered(list[0])
    } else {
        rendered_list(list, (n - 1) as nat) + seq![','] + rendered(list[n - 1])
    }
}

/// One property as a member of a JSON object: its name, a colon, its text.
pub open spec fn rendered_property(properties: Seq<(Seq<char>, Shape)>, i: int) -> Seq<char>
    decreases properties, 0nat,
{
    if 0 <= i < properties.len() {
        quoted(properties[i].0) + seq![':'] + rendered(properties[i].1)
    } else {
        Seq::empty()
    }
}

/// The first `n` properties as members of a JSON object, separated by commas.
pub open spec fn rendered_properties(properties: Seq<(Seq<char>, Shape)>, n: nat) -> Seq<char>
    decreases properties, n,
{
    if n == 0 || n > properties.len() {
        Seq::empty()
    } else if n == 1 {
        rendered_property(properties, 0)
    } else {
        rendered_properties(properties, (n - 1) as nat) + seq![','] + rendered_property(
            properties,
            n - 1,
        )
    }
}

/// The canonical text of a shape.
pub open spec fn rendered(shape: Shape) -> Seq<char>
    decreases shape, 0nat,
{
    match shape {
        Shape::Null => "{\"type\":\"null\"}"@,
        Shape::Boolean => "{\"type\":\"boolean\"}"@,
        Shape::Integer => "{\"type\":\"integer\"}"@,
        Shape::Number => "{\"type\":\"number\"}"@,
        Shape::String(None) => "{\"type\":\"string\"}"@,
        Shape::String(Some(format)) => "{\"format\":\""@ + format.spec_name()
            + "\",\"type\":\"string\"}"@,
        Shape::Array(None) => "{\"type\":\"array\"}"@,
        Shape::Array(Some(items)) => "{\"items\":"@ + rendered(*items) + ",\"type\":\"array\"}"@,
        Shape::Object { properties, required: None } => "{\"properties\":{"@ + rendered_properties(
            properties,
            properties.len(),
        ) + "},\"type\":\"object\"}"@,
        Shape::Object { properties, required: Some(list) } => "{\"properties\":{"@
            + rendered_properties(properties, properties.len()) + "},\"required\":["@
            + rendered_names(list, list.len()) + "],\"type\":\"object\"}"@,
        Shape::Union(variants) => "{\"anyOf\":["@ + rendered_list(variants, variants.len())
            + "]}"@,
    }
}

/// Calls serde_json's `to_string` on a string, which writes it as a JSON
/// string.
///
/// Trusted, not proved: serde_json puts the string between quotation marks,
/// writes the quotation mark and the backslash behind a backslash, a control
/// character below the space by its short escape or as `\u00` and two
/// lower-case hexadecimal digits, and every other character as it is. Writing
/// a string into memory cannot fail.
#[verifier::external_body]
fn quote(s: &str) -> (r: String)
    ensures
        r@ == quoted(s@),
{
    match serde_json::to_string(s) {
        Ok(text) => text,
        Err(_) => String::new(),
    }
}

/// Appends a string as JSON text, between quotation marks.
pub fn push_quoted(out: &mut Vec<char>, s: &str)
    ensures
        final(out)@ == old(out)@ + quoted(s@),
{
    let text = quote(s);
    append_str(out, text.as_str());
}

/// Appends the canonical text of a fragment.
pub fn render_into(fragment: &Fragment, out: &mut Vec<char>)
    ensures
        final(out)@ == old(out)@ + rendered(fragment@),
    decreases fragment,
{
    let ghost before = out@;
    match fragment {
        Fragment::Null => append_str(out, "{\"type\":\"null\"}"),
        Fragment::Boolean => append_str(out, "{\"type\":\"boolean\"}"),
        Fragment::Integer => append_str(out, "{\"type\":\"integer\"}"),
        Fragment::Number => append_str(out, "{\"type\":\"number\"}"),
        Fragment::String(None) => append_str(out, "{\"type\":\"string\"}"),
        Fragment::String(Some(format)) => {
            append_str(out, "{\"format\":\"");
            append_str(out, format.name());
            append_str(out, "\",\"type\":\"string\"}");
            assert(out@ =~= before + rendered(fragment@));
        },
        Fragment::Array(None) => append_str(out, "{\"type\":\"array\"}"),
        Fragment::Array(Some(items)) => {
            append_str(out, "{\"items\":");
            render_into(&**items, out);
            append_str(out, ",\"type\":\"array\"}");
            assert(out@ =~= before + rendered(fragment@));
        },
        Fragment::Object { properties, required } => {
            append_str(out, "{\"properties\":{");
            let ghost opened = out@;
            let ghost props = entries(properties@);
            let mut i: usize = 0;
            assert(out@ =~= opened + rendered_properties(props, 0));
            while i < properties.len()
                invariant
                    *fragment == (Fragment::Object { properties: *properties, required: *required }),
                    props == entries(properties@),
                    i <= properties.len(),
                    out@ == opened + rendered_properties(props, i as nat),
                decreases properties.len() - i,
            {
                proof {
                    assert(decreases_to!(*fragment => fragment->properties));
                    assert(decreases_to!(*properties => properties[i as int]));
                }
                let ghost so_far = rendered_properties(props, i as nat);
                let ghost this = rendered_property(props, i as int);
                assert(props[i as int] == (properties@[i as int].0@, properties@[i as int].1@));
                assert(this == quoted(props[i as int].0) + seq![':'] + rendered(props[i as int].1));
                if i > 0 {
                    out.push(',');
                }
                push_quoted(out, properties[i].0.as_str());
                out.push(':');
                render_into(&properties[i].1, out);
                if i > 0 {
                    assert(out@ =~= opened + (so_far + seq![','] + this));
                } else {
                    assert(so_far =~= Seq::<char>::empty());
                    assert(out@ =~= opened + this);
                }
                i += 1;
            }
            match required {
                Some(list) => {
                    append_str(out, "},\"required\":[");
                    let ghost listed = out@;
                    let ghost all = names(list@);
                    let mut k: usize = 0;
                    assert(out@ =~= listed + rendered_names(all, 0));
                    while k < list.len()
                        invariant
                            all == names(list@),
                            k <= list.len(),
                            out@ == listed + rendered_names(all, k as nat),
                        decreases list.len() - k,
                    {
                        if k > 0 {
                            out.push(',');
                        }
                        push_quoted(out, list[k].as_str());
                        assert(out@ =~= listed + rendered_names(all, (k + 1) as nat));
                        k += 1;
                    }
                    append_str(out, "],\"type\":\"object\"}");
                    assert(out@ =~= before + rendered(fragment@));
                },
                None => {
                    append_str(out, "},\"type\":\"object\"}");
                    assert(out@ =~= before + rendered(fragment@));
                },
            }
        },
        Fragment::Union(variants) => {
            append_str(out, "{\"anyOf\":[");
            let ghost opened = out@;
            let ghost all = shapes(variants@);
            let mut i: usize = 0;
            assert(out@ =~= opened + rendered_list(all, 0));
            while i < variants.len()
                invariant
                    *fragment == Fragment::Union(*variants),
                    all == shapes(variants@),
                    i <= variants.len(),
                    out@ == opened + rendered_list(all, i as nat),
                decreases variants.len() - i,
            {
                proof {
                    assert(decreases_to!(*fragment => fragment->Union_0));
                    assert(decreases_to!(*variants => variants[i as int]));
                }
                if i > 0 {
                    out.push(',');
                }
                render_into(&variants[i], out);
                assert(out@ =~= opened + rendered_list(all, (i + 1) as nat));
                i += 1;
            }
            append_str(out, "]}");
            assert(out@ =~= before + rendered(fragment@));
        },
    }
}

/// The canonical text of a fragment.
pub fn render(fragment: &Fragment) -> (r: Vec<char>)
    ensures
        r@ == rendered(fragment@),
{
    let mut out: Vec<char> = Vec::new();
    render_into(fragment, &mut out);
    assert(Seq::<char>::empty() + rendered(fragment@) =~= rendered(fragment@));
    out
}

} // verus!
