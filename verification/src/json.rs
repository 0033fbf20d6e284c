//! JSON text.

use crate::sorted::{
    ascending, inserted, lemma_inserted_last, lemma_value_of, value_of, SortedMap,
};
use crate::text::{joined, precedes};
use vstd::prelude::*;

verus! {

/// A hexadecimal digit, in lower case.
pub open spec fn hex_digit(n: int) -> char {
    if n < 10 {
        ('0' as int + n) as char
    } else {
        ('a' as int + n - 10) as char
    }
}

/// A character as it stands in a JSON string: the quotation mark, the backslash and the control
/// characters escaped, all others as they are.
pub open spec fn escaped(c: char) -> Seq<char> {
    if c == '"' {
        seq!['\\', '"']
    } else if c == '\\' {
        seq!['\\', '\\']
    } else if c as int == 0x08 {
        seq!['\\', 'b']
    } else if c as int == 0x09 {
        seq!['\\', 't']
    } else if c as int == 0x0a {
        seq!['\\', 'n']
    } else if c as int == 0x0c {
        seq!['\\', 'f']
    } else if c as int == 0x0d {
        seq!['\\', 'r']
    } else if (c as int) < 0x20 {
        seq!['\\', 'u', '0', '0', hex_digit(c as int / 16), hex_digit(c as int % 16)]
    } else {
        seq![c]
    }
}

/// The characters of a text as they stand in a JSON string.
pub open spec fn escaped_text(text: Seq<char>) -> Seq<char>
    decreases text.len(),
{
    if text.len() == 0 {
        Seq::empty()
    } else {
        escaped_text(text.drop_last()) + escaped(text.last())
    }
}

/// A text as a JSON string.
pub open spec fn json_string(text: Seq<char>) -> Seq<char> {
    seq!['"'] + escaped_text(text) + seq!['"']
}

/// Calls `serde_json::to_string` on a text. A text can always be written, and what comes back is
/// the text between quotation marks with `"`, `\` and the characters below U+0020 escaped: by a
/// letter where JSON has one, else as `\u00` and two hexadecimal digits in lower case.
#[verifier::external_body]
fn quoted(text: &str) -> (r: Option<String>)
    ensures
        r is Some,
        r->0@ == json_string(text@),
{
    serde_json::to_string(text).ok()
}

/// Appends a text as a JSON string.
pub fn push_string(out: &mut String, text: &str)
    ensures
        final(out)@ == old(out)@ + json_string(text@),
{
    if let Some(string) = quoted(text) {
        out.append(string.as_str());
    }
}

/// A text as a JSON string.
pub fn string(text: &str) -> (r: String)
    ensures
        r@ == json_string(text@),
{
    let mut r = String::new();
    push_string(&mut r, text);
    assert(r@ =~= json_string(text@));
    r
}

/// Rows with their values as texts.
pub open spec fn text_rows(rows: Seq<(Seq<char>, String)>) -> Seq<(Seq<char>, Seq<char>)> {
    Seq::new(rows.len(), |i: int| (rows[i].0, rows[i].1@))
}

/// A row put among others is put among their texts.
pub proof fn lemma_text_rows_inserted(
    rows: Seq<(Seq<char>, String)>,
    name: Seq<char>,
    value: String,
)
    ensures
        text_rows(inserted(rows, name, value)) == inserted(text_rows(rows), name, value@),
    decreases rows.len(),
{
    let plain = text_rows(rows);
    if rows.len() == 0 {
        assert(text_rows(inserted(rows, name, value)) =~= inserted(plain, name, value@));
    } else {
        let rest = rows.drop_first();
        lemma_text_rows_inserted(rest, name, value);
        assert(text_rows(rest) =~= plain.drop_first());
        assert(text_rows(inserted(rows, name, value)) =~= inserted(plain, name, value@));
    }
}

/// The value of a name among rows is the value among their texts.
pub proof fn lemma_text_rows_value(rows: Seq<(Seq<char>, String)>, name: Seq<char>)
    requires
        ascending(rows),
    ensures
        ascending(text_rows(rows)),
        value_of(text_rows(rows), name) == (match value_of(rows, name) {
            Some(value) => Some(value@),
            None => None,
        }),
{
    let plain = text_rows(rows);
    assert forall|i: int, j: int| 0 <= i < j < plain.len() implies precedes(
        #[trigger] plain[i].0,
        #[trigger] plain[j].0,
    ) by {
        assert(precedes(rows[i].0, rows[j].0));
    }
    if value_of(rows, name) is Some {
        let i = choose|i: int| 0 <= i < rows.len() && #[trigger] rows[i].0 == name;
        lemma_value_of(rows, i);
        assert(plain[i].0 == name);
        lemma_value_of(plain, i);
    } else if value_of(plain, name) is Some {
        let i = choose|i: int| 0 <= i < plain.len() && #[trigger] plain[i].0 == name;
        assert(rows[i].0 == name);
    }
}

/// The members of an object, each a name and the text of a value, with the text that stands
/// between a name and its value.
pub open spec fn members(rows: Seq<(Seq<char>, Seq<char>)>, colon: Seq<char>) -> Seq<Seq<char>> {
    Seq::new(rows.len(), |i: int| json_string(rows[i].0) + colon + rows[i].1)
}

/// An object without white space. The value of each name is given as text.
pub open spec fn object_text(rows: Seq<(Seq<char>, Seq<char>)>) -> Seq<char> {
    "{"@ + joined(members(rows, ":"@), ","@) + "}"@
}

/// Appends the members of an object with a separator between each two.
pub(crate) fn push_members(out: &mut String, map: &SortedMap<String>, colon: &str, separator: &str)
    ensures
        final(out)@ == old(out)@ + joined(
            members(text_rows(map.rows()), colon@),
            separator@,
        ),
{
    let count: usize = map.len();
    let ghost all = members(text_rows(map.rows()), colon@);
    let ghost start = out@;
    assert(out@ =~= start + joined(all.take(0), separator@));
    for i in 0..count
        invariant
            count == map.rows().len(),
            all == members(text_rows(map.rows()), colon@),
            out@ == start + joined(all.take(i as int), separator@),
    {
        if i > 0 {
            out.append(separator);
        }
        push_string(out, map.name(i).as_str());
        out.append(colon);
        out.append(map.value(i).as_str());
        assert(all.take(i + 1).drop_last() =~= all.take(i as int));
        assert(out@ =~= start + joined(all.take(i + 1), separator@));
    }
    assert(all.take(all.len() as int) =~= all);
}

/// Rows with their values as JSON strings.
pub open spec fn quoted_rows(rows: Seq<(Seq<char>, Seq<char>)>) -> Seq<(Seq<char>, Seq<char>)> {
    Seq::new(rows.len(), |i: int| (rows[i].0, json_string(rows[i].1)))
}

/// The rows of a map with their values as JSON strings.
pub(crate) fn quote_values(map: &SortedMap<String>) -> (r: SortedMap<String>)
    ensures
        text_rows(r.rows()) == quoted_rows(text_rows(map.rows())),
{
    let mut r: SortedMap<String> = SortedMap::new();
    let count: usize = map.len();
    let ghost all = quoted_rows(text_rows(map.rows()));
    for i in 0..count
        invariant
            count == map.rows().len(),
            ascending(map.rows()),
            all == quoted_rows(text_rows(map.rows())),
            text_rows(r.rows()) == all.take(i as int),
    {
        let name = map.name(i);
        let value = string(map.value(i).as_str());
        proof {
            lemma_text_rows_inserted(r.rows(), name@, value);
            lemma_inserted_last(all.take(i as int), name@, value@);
            assert(all.take(i + 1) =~= all.take(i as int).push((name@, value@)));
        }
        r.insert(name.clone(), value);
    }
    assert(all.take(all.len() as int) =~= all);
    r
}

/// An object without white space, from the texts of its values.
pub fn object(map: &SortedMap<String>) -> (r: String)
    ensures
        r@ == object_text(text_rows(map.rows())),
{
    let mut r = String::new();
    r.append("{");
    push_members(&mut r, map, ":", ",");
    r.append("}");
    assert(r@ =~= object_text(text_rows(map.rows())));
    r
}

} // verus!
