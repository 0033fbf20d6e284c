//! That what is written as text says what it is written for: read again, digit by digit and
//! character by character, it gives it back.

use crate::dtype::Dtype;
use crate::header::{
    concatenated, elements, entry_text, file_bytes, header_bytes, header_rows, offset, size,
    Contents, Head,
};
use crate::json::{escaped, escaped_text, hex_digit, json_string, members, object_text, quoted_rows};
use crate::matching::{lemma_split_last, split};
use crate::sorted::{ascending, inserted, lemma_inserted};
use crate::text::{decimal, digit, joined, joined_decimals, precedes};
use vstd::bytes::{
    lemma_auto_spec_u64_to_from_le_bytes, spec_u64_from_le_bytes, spec_u64_to_le_bytes,
};
use vstd::prelude::*;
use vstd::utf8::encode_utf8;

verus! {

/// The number that digits stand for, the most significant first.
pub open spec fn number(digits: Seq<char>) -> nat
    decreases digits.len(),
{
    if digits.len() == 0 {
        0
    } else {
        (10 * number(digits.drop_last()) + (digits.last() as int - '0' as int)) as nat
    }
}

/// Whether a text is made of digits.
pub open spec fn all_digits(text: Seq<char>) -> bool {
    forall|i: int| 0 <= i < text.len() ==> '0' <= #[trigger] text[i] <= '9'
}

/// A digit is the character for its number.
proof fn lemma_digit(n: nat)
    requires
        n < 10,
    ensures
        digit(n).len() == 1,
        digit(n)[0] as int == '0' as int + n,
        '0' <= digit(n)[0] <= '9',
{
    reveal_strlit("0");
    reveal_strlit("1");
    reveal_strlit("2");
    reveal_strlit("3");
    reveal_strlit("4");
    reveal_strlit("5");
    reveal_strlit("6");
    reveal_strlit("7");
    reveal_strlit("8");
    reveal_strlit("9");
}

/// A number in decimal is made of digits, has no leading zero unless it is zero, and is read as
/// the number.
pub proof fn law_decimal_is_read_as_its_number(n: nat)
    ensures
        decimal(n).len() > 0,
        all_digits(decimal(n)),
        number(decimal(n)) == n,
        n > 0 ==> decimal(n)[0] != '0',
        n == 0 ==> decimal(n).len() == 1,
    decreases n,
{
    let text = decimal(n);
    if n < 10 {
        lemma_digit(n);
        assert(text.drop_last().len() == 0);
        assert(number(text.drop_last()) == 0);
    } else {
        law_decimal_is_read_as_its_number(n / 10);
        lemma_digit(n % 10);
        assert(text.drop_last() =~= decimal(n / 10));
        assert forall|i: int| 0 <= i < text.len() implies '0' <= #[trigger] text[i] <= '9' by {
            if i < text.len() - 1 {
                assert(text[i] == decimal(n / 10)[i]);
            }
        }
        assert(text[0] == decimal(n / 10)[0]);
    }
}

/// Different numbers are written differently.
pub proof fn law_different_numbers_are_written_differently(a: nat, b: nat)
    requires
        a != b,
    ensures
        decimal(a) != decimal(b),
{
    law_decimal_is_read_as_its_number(a);
    law_decimal_is_read_as_its_number(b);
}

/// A text behind a separator is one more part; text without a separator lengthens the last part.
proof fn lemma_split_append(text: Seq<char>, part: Seq<char>, separator: char)
    requires
        !part.contains(separator),
    ensures
        ({
            let before = split(text, separator);
            split(text + part, separator) == before.update(before.len() - 1, before.last() + part)
        }),
    decreases part.len(),
{
    let before = split(text, separator);
    lemma_split_last(text, separator);
    if part.len() == 0 {
        assert(text + part =~= text);
        assert(before.last() + part =~= before.last());
        assert(before.update(before.len() - 1, before.last() + part) =~= before);
    } else {
        let front = part.drop_last();
        let whole = text + part;
        assert forall|i: int| 0 <= i < front.len() implies front[i] != separator by {
            assert(part[i] == front[i]);
        }
        lemma_split_append(text, front, separator);
        assert(whole.drop_last() =~= text + front);
        assert(part.contains(part.last()));
        assert((before.last() + front).push(part.last()) =~= before.last() + part);
        assert(split(whole, separator) =~= before.update(
            before.len() - 1,
            before.last() + part,
        ));
    }
}

/// Texts without a separator, joined by it, are the parts between the separators.
pub proof fn law_joined_texts_are_split_again(parts: Seq<Seq<char>>, separator: char)
    requires
        parts.len() > 0,
        forall|i: int| 0 <= i < parts.len() ==> !(#[trigger] parts[i]).contains(separator),
    ensures
        split(joined(parts, seq![separator]), separator) == parts,
    decreases parts.len(),
{
    let text = joined(parts, seq![separator]);
    let none = Seq::<char>::empty();
    if parts.len() == 1 {
        lemma_split_append(none, parts[0], separator);
        assert(none + parts[0] =~= parts[0]);
        assert(split(none, separator) =~= seq![none]);
        assert(split(text, separator) =~= parts);
    } else {
        let front = parts.drop_last();
        assert forall|i: int| 0 <= i < front.len() implies !(#[trigger] front[i]).contains(
            separator,
        ) by {
            assert(front[i] == parts[i]);
        }
        law_joined_texts_are_split_again(front, separator);
        let before = joined(front, seq![separator]) + seq![separator];
        assert(before.drop_last() =~= joined(front, seq![separator]));
        assert(before.last() == separator);
        assert(split(before, separator) =~= front.push(none));
        assert(!parts[parts.len() - 1].contains(separator));
        lemma_split_append(before, parts.last(), separator);
        assert(none + parts.last() =~= parts.last());
        assert(split(text, separator) =~= parts);
    }
}

/// The numbers of a shape, with a comma between each two, are read as the numbers of the shape, in
/// their order.
pub proof fn law_shape_is_read_as_its_numbers(shape: Seq<usize>)
    ensures
        shape.len() == 0 ==> joined_decimals(shape, ","@).len() == 0,
        shape.len() > 0 ==> ({
            let parts = split(joined_decimals(shape, ","@), ',');
            &&& parts.len() == shape.len()
            &&& forall|i: int|
                0 <= i < shape.len() ==> all_digits(#[trigger] parts[i]) && number(parts[i])
                    == shape[i]
        }),
{
    let parts = Seq::new(shape.len(), |i: int| decimal(shape[i] as nat));
    reveal_strlit(",");
    assert(","@ =~= seq![',']);
    if shape.len() > 0 {
        assert forall|i: int| 0 <= i < parts.len() implies !(#[trigger] parts[i]).contains(',') by {
            law_decimal_is_read_as_its_number(shape[i] as nat);
            assert forall|k: int| 0 <= k < parts[i].len() implies parts[i][k] != ',' by {
                assert('0' <= parts[i][k]);
            }
        }
        law_joined_texts_are_split_again(parts, ',');
        assert forall|i: int| 0 <= i < shape.len() implies all_digits(#[trigger] parts[i])
            && number(parts[i]) == shape[i] by {
            law_decimal_is_read_as_its_number(shape[i] as nat);
        }
    }
}

/// The number that a hexadecimal digit stands for.
pub open spec fn hex_value(c: char) -> int {
    if '0' <= c <= '9' {
        c as int - '0' as int
    } else if 'a' <= c <= 'f' {
        10 + c as int - 'a' as int
    } else {
        10 + c as int - 'A' as int
    }
}

/// Reads what is between the quotation marks of a JSON string, by the rules of JSON: a backslash
/// stands before an escaped character, and nothing else may be a quotation mark or a control
/// character.
pub open spec fn unescaped(text: Seq<char>) -> Option<Seq<char>>
    decreases text.len(),
{
    if text.len() == 0 {
        Some(Seq::empty())
    } else if text[0] == '"' || (text[0] as int) < 0x20 {
        None
    } else if text[0] != '\\' {
        match unescaped(text.skip(1)) {
            Some(rest) => Some(seq![text[0]] + rest),
            None => None,
        }
    } else if text.len() == 1 {
        None
    } else if text[1] == 'u' {
        if text.len() < 6 {
            None
        } else {
            let code = 0x1000 * hex_value(text[2]) + 0x100 * hex_value(text[3]) + 0x10 * hex_value(
                text[4],
            ) + hex_value(text[5]);
            match unescaped(text.skip(6)) {
                Some(rest) => Some(seq![code as char] + rest),
                None => None,
            }
        }
    } else {
        let c = if text[1] == 'b' {
            8 as char
        } else if text[1] == 't' {
            '\t'
        } else if text[1] == 'n' {
            '\n'
        } else if text[1] == 'f' {
            12 as char
        } else if text[1] == 'r' {
            '\r'
        } else {
            text[1]
        };
        match unescaped(text.skip(2)) {
            Some(rest) => Some(seq![c] + rest),
            None => None,
        }
    }
}

/// An escaped character is read as the character.
proof fn lemma_unescaped_one(c: char, rest: Seq<char>)
    ensures
        unescaped(escaped(c) + rest) == (match unescaped(rest) {
            Some(more) => Some(seq![c] + more),
            None => None,
        }),
{
    let text = escaped(c) + rest;
    assert(text.skip(escaped(c).len() as int) =~= rest);
    if escaped(c).len() == 6 {
        let high = c as int / 16;
        let low = c as int % 16;
        assert(high < 2);
        assert(hex_value(hex_digit(high)) == high);
        assert(hex_value(hex_digit(low)) == low);
        assert(16 * high + low == c as int);
    }
}

/// What stands in a JSON string before more is read as what it was written for, then the rest.
proof fn lemma_unescaped(text: Seq<char>, rest: Seq<char>)
    ensures
        unescaped(escaped_text(text) + rest) == (match unescaped(rest) {
            Some(more) => Some(text + more),
            None => None,
        }),
    decreases text.len(),
{
    if text.len() == 0 {
        assert(escaped_text(text) + rest =~= rest);
        if unescaped(rest) is Some {
            assert(text + unescaped(rest)->0 =~= unescaped(rest)->0);
        }
    } else {
        let front = text.drop_last();
        let last = escaped(text.last());
        lemma_unescaped(front, last + rest);
        lemma_unescaped_one(text.last(), rest);
        assert(escaped_text(text) + rest =~= escaped_text(front) + (last + rest));
        if unescaped(rest) is Some {
            let more = unescaped(rest)->0;
            assert(front + (seq![text.last()] + more) =~= text + more);
        }
    }
}

/// A text as a JSON string stands between quotation marks, and is read as the text.
pub proof fn law_json_string_is_read_as_its_text(text: Seq<char>)
    ensures
        ({
            let string = json_string(text);
            &&& string.len() >= 2
            &&& string[0] == '"'
            &&& string.last() == '"'
            &&& unescaped(string.subrange(1, string.len() - 1)) == Some(text)
        }),
{
    let string = json_string(text);
    let none = Seq::<char>::empty();
    lemma_unescaped(text, none);
    assert(escaped_text(text) + none =~= escaped_text(text));
    assert(string.subrange(1, string.len() - 1) =~= escaped_text(text));
    assert(text + none =~= text);
    assert(unescaped(none) == Some(none));
}

/// An object without members is a pair of braces, and one more member stands before the closing
/// brace, behind a comma if it is not the first: its name as a string, a colon and its value.
pub proof fn law_object_takes_one_more_member(
    rows: Seq<(Seq<char>, Seq<char>)>,
    name: Seq<char>,
    value: Seq<char>,
)
    ensures
        object_text(Seq::empty()) == "{}"@,
        ({
            let member = json_string(name) + ":"@ + value;
            object_text(rows.push((name, value))) == (if rows.len() == 0 {
                "{"@ + member + "}"@
            } else {
                object_text(rows).drop_last() + ","@ + member + "}"@
            })
        }),
{
    reveal_strlit("{");
    reveal_strlit("}");
    reveal_strlit("{}");
    let none = Seq::<(Seq<char>, Seq<char>)>::empty();
    assert(object_text(none) =~= "{}"@);
    let more = rows.push((name, value));
    let all = members(more, ":"@);
    let some = members(rows, ":"@);
    assert(all.drop_last() =~= some);
    if rows.len() > 0 {
        assert(object_text(rows).drop_last() =~= "{"@ + joined(some, ","@));
        assert(object_text(more) =~= object_text(rows).drop_last() + ","@ + all.last() + "}"@);
    } else {
        assert(all[0] == all.last());
        assert(object_text(more) =~= "{"@ + all.last() + "}"@);
    }
}

/// A shape has one element if it has no dimensions, and each dimension multiplies their number.
pub proof fn law_dimensions_multiply_the_elements(shape: Seq<usize>, dimension: usize)
    ensures
        elements(Seq::empty()) == 1,
        elements(shape.push(dimension)) == elements(shape) * dimension,
{
    assert(shape.push(dimension).drop_last() =~= shape);
}

/// Parts in a row: nothing of none, a part of itself, and of more what the one and the other give.
pub proof fn law_parts_follow_each_other(first: Seq<Seq<u8>>, second: Seq<Seq<u8>>, part: Seq<u8>)
    ensures
        concatenated(Seq::empty()).len() == 0,
        concatenated(seq![part]) == part,
        concatenated(first + second) == concatenated(first) + concatenated(second),
    decreases second.len(),
{
    let none = Seq::<Seq<u8>>::empty();
    assert(seq![part].drop_last() =~= none);
    assert(concatenated(none) + part =~= part);
    if second.len() == 0 {
        assert(first + second =~= first);
        assert(concatenated(first) + concatenated(second) =~= concatenated(first));
    } else {
        law_parts_follow_each_other(first, second.drop_last(), part);
        assert((first + second).drop_last() =~= first + second.drop_last());
        assert(concatenated(first + second) =~= concatenated(first) + concatenated(second));
    }
}

/// What a header says of a tensor, in the words of the format.
pub open spec fn said_of(head: Head, start: nat, end: nat) -> Seq<char> {
    "{\"data_offsets\":["@ + decimal(start) + ","@ + decimal(end) + "],\"dtype\":\""@ + (
    if head.dtype == Dtype::F16 {
        "F16"@
    } else if head.dtype == Dtype::BF16 {
        "BF16"@
    } else {
        "F32"@
    }) + "\",\"shape\":["@ + joined_decimals(head.shape, ","@) + "]}"@
}

/// A row that was put among others is there, with the others that have other names.
proof fn lemma_inserted_contains(
    rows: Seq<(Seq<char>, Seq<char>)>,
    name: Seq<char>,
    value: Seq<char>,
)
    requires
        forall|i: int| 0 <= i < rows.len() ==> #[trigger] rows[i].0 != name,
    ensures
        inserted(rows, name, value).len() == rows.len() + 1,
        inserted(rows, name, value).contains((name, value)),
        forall|row: (Seq<char>, Seq<char>)| #[trigger]
            inserted(rows, name, value).contains(row) ==> rows.contains(row) || row == (
            name,
            value,
            ),
        forall|row: (Seq<char>, Seq<char>)| #[trigger]
            rows.contains(row) ==> inserted(rows, name, value).contains(row),
    decreases rows.len(),
{
    let more = inserted(rows, name, value);
    if rows.len() == 0 {
        assert(more[0] == (name, value));
    } else if precedes(name, rows[0].0) {
        assert(rows[0].0 != name);
        assert(more[0] == (name, value));
        assert forall|row: (Seq<char>, Seq<char>)| #[trigger] rows.contains(row) implies
            more.contains(row) by {
            let i = choose|i: int| 0 <= i < rows.len() && rows[i] == row;
            assert(more[i + 1] == row);
        }
        assert forall|row: (Seq<char>, Seq<char>)| #[trigger] more.contains(row) implies
            rows.contains(row) || row == (name, value) by {
            let i = choose|i: int| 0 <= i < more.len() && more[i] == row;
            if i > 0 {
                assert(rows[i - 1] == row);
            }
        }
    } else {
        assert(rows[0].0 != name);
        let rest = rows.drop_first();
        let after = inserted(rest, name, value);
        assert forall|i: int| 0 <= i < rest.len() implies #[trigger] rest[i].0 != name by {
            assert(rest[i] == rows[i + 1]);
        }
        lemma_inserted_contains(rest, name, value);
        assert(more =~= seq![rows[0]] + after);
        let at = choose|i: int| 0 <= i < after.len() && after[i] == (name, value);
        assert(more[at + 1] == (name, value));
        assert forall|row: (Seq<char>, Seq<char>)| #[trigger] rows.contains(row) implies
            more.contains(row) by {
            let i = choose|i: int| 0 <= i < rows.len() && rows[i] == row;
            if i == 0 {
                assert(more[0] == row);
            } else {
                assert(rest[i - 1] == row);
                assert(rest.contains(row));
                let k = choose|k: int| 0 <= k < after.len() && after[k] == row;
                assert(more[k + 1] == row);
            }
        }
        assert forall|row: (Seq<char>, Seq<char>)| #[trigger] more.contains(row) implies
            rows.contains(row) || row == (name, value) by {
            let i = choose|i: int| 0 <= i < more.len() && more[i] == row;
            if i == 0 {
                assert(rows[0] == row);
            } else {
                assert(after[i - 1] == row);
                assert(after.contains(row));
                if rest.contains(row) {
                    let k = choose|k: int| 0 <= k < rest.len() && rest[k] == row;
                    assert(rows[k + 1] == row);
                }
            }
        }
    }
}

/// The offset of a tensor is the number of bytes of those before it.
pub(crate) proof fn lemma_offset_is_length(heads: Seq<Head>, data: Seq<Seq<u8>>, i: int)
    requires
        heads.len() == data.len(),
        0 <= i <= heads.len(),
        forall|k: int| 0 <= k < data.len() ==> (#[trigger] data[k]).len() == size(heads[k]),
    ensures
        offset(heads, i) == concatenated(data.take(i)).len(),
    decreases i,
{
    if i > 0 {
        lemma_offset_is_length(heads, data, i - 1);
        assert(data.take(i).drop_last() =~= data.take(i - 1));
        assert(data[i - 1].len() == size(heads[i - 1]));
    }
}

/// The rows of a header with the first tensors.
proof fn lemma_header_rows(
    heads: Seq<Head>,
    count: int,
    notes: Option<Seq<(Seq<char>, Seq<char>)>>,
)
    requires
        0 <= count <= heads.len(),
        forall|i: int, j: int|
            0 <= i < j < heads.len() ==> #[trigger] heads[i].name != #[trigger] heads[j].name,
        forall|i: int| 0 <= i < heads.len() ==> #[trigger] heads[i].name != "__metadata__"@,
    ensures
        ({
            let rows = header_rows(heads, count, notes);
            &&& rows.len() == count + (if notes is Some {
                1int
            } else {
                0int
            })
            &&& ascending(rows)
            &&& forall|i: int|
                0 <= i < count ==> rows.contains(
                    (#[trigger] heads[i].name, entry_text(heads[i], offset(heads, i))),
                )
            &&& notes matches Some(notes) ==> rows.contains(
                ("__metadata__"@, object_text(quoted_rows(notes))),
            )
            &&& forall|row: (Seq<char>, Seq<char>)| #[trigger]
                rows.contains(row) ==> row.0 == "__metadata__"@ || exists|i: int|
                    0 <= i < count && #[trigger] heads[i].name == row.0
        }),
    decreases count,
{
    let rows = header_rows(heads, count, notes);
    if count == 0 {
        if notes is Some {
            assert(rows[0] == ("__metadata__"@, object_text(quoted_rows(notes->0))));
        }
    } else {
        let before = header_rows(heads, count - 1, notes);
        let name = heads[count - 1].name;
        let value = entry_text(heads[count - 1], offset(heads, count - 1));
        lemma_header_rows(heads, count - 1, notes);
        assert forall|i: int| 0 <= i < before.len() implies #[trigger] before[i].0 != name by {
            assert(before.contains(before[i]));
            if before[i].0 != "__metadata__"@ {
                let k = choose|k: int|
                    0 <= k < count - 1 && #[trigger] heads[k].name == before[i].0;
                assert(heads[k].name != heads[count - 1].name);
            }
        }
        lemma_inserted_contains(before, name, value);
        lemma_inserted(before, name, value);
        assert forall|row: (Seq<char>, Seq<char>)| #[trigger] rows.contains(row) implies row.0
            == "__metadata__"@ || exists|i: int|
            0 <= i < count && #[trigger] heads[i].name == row.0 by {
            if before.contains(row) {
                if row.0 != "__metadata__"@ {
                    let k = choose|k: int|
                        0 <= k < count - 1 && #[trigger] heads[k].name == row.0;
                    assert(heads[k].name == row.0);
                }
            } else {
                assert(heads[count - 1].name == row.0);
            }
        }
    }
}

/// The header of an output is an object with a member for each tensor and one for the notes, if
/// there are any, in ascending order of the names. Of each tensor it says the element type and the
/// shape, and that its data lie, behind the header, where they do in the file.
#[verifier::rlimit(60)]
pub proof fn law_header_says_where_each_tensor_lies(contents: Contents)
    requires
        contents.heads.len() == contents.data.len(),
        forall|i: int|
            0 <= i < contents.heads.len() ==> contents.data[i].len() == size(
                #[trigger] contents.heads[i],
            ) && (contents.heads[i].dtype == Dtype::F16 || contents.heads[i].dtype == Dtype::BF16
                || contents.heads[i].dtype == Dtype::F32) && contents.heads[i].name
                != "__metadata__"@,
        forall|i: int, j: int|
            0 <= i < j < contents.heads.len() ==> #[trigger] contents.heads[i].name
                != #[trigger] contents.heads[j].name,
    ensures
        exists|rows: Seq<(Seq<char>, Seq<char>)>|
            header_bytes(contents.heads, contents.notes) == encode_utf8(
                #[trigger] object_text(rows),
            ) && ascending(rows) && rows.len() == contents.heads.len() + (if contents.notes
                is Some {
                1int
            } else {
                0int
            }) && (forall|i: int|
                0 <= i < contents.heads.len() ==> rows.contains(
                    (
                        #[trigger] contents.heads[i].name,
                        said_of(
                            contents.heads[i],
                            concatenated(contents.data.take(i)).len(),
                            concatenated(contents.data.take(i + 1)).len(),
                        ),
                    ),
                )) && (contents.notes matches Some(notes) ==> rows.contains(
                (
                    "__metadata__"@,
                    object_text(
                        Seq::new(notes.len(), |i: int| (notes[i].0, json_string(notes[i].1))),
                    ),
                ),
            )),
{
    let heads = contents.heads;
    let rows = header_rows(heads, heads.len() as int, contents.notes);
    lemma_header_rows(heads, heads.len() as int, contents.notes);
    assert forall|i: int| 0 <= i < heads.len() implies rows.contains(
        (
            #[trigger] heads[i].name,
            said_of(
                heads[i],
                concatenated(contents.data.take(i)).len(),
                concatenated(contents.data.take(i + 1)).len(),
            ),
        ),
    ) by {
        lemma_sizes(contents);
        lemma_offset_is_length(heads, contents.data, i);
        lemma_offset_is_length(heads, contents.data, i + 1);
        assert(size(heads[i]) == contents.data[i].len());
        assert(entry_text(heads[i], offset(heads, i)) =~= said_of(
            heads[i],
            offset(heads, i),
            offset(heads, i + 1),
        ));
        assert(rows.contains((heads[i].name, entry_text(heads[i], offset(heads, i)))));
    }
    if contents.notes is Some {
        let notes = contents.notes->0;
        assert(quoted_rows(notes) =~= Seq::new(
            notes.len(),
            |i: int| (notes[i].0, json_string(notes[i].1)),
        ));
    }
    assert(header_bytes(heads, contents.notes) == encode_utf8(object_text(rows)));
}

/// The data have the sizes of their tensors.
proof fn lemma_sizes(contents: Contents)
    requires
        contents.heads.len() == contents.data.len(),
        forall|i: int|
            0 <= i < contents.heads.len() ==> contents.data[i].len() == size(
                #[trigger] contents.heads[i],
            ),
    ensures
        forall|i: int|
            0 <= i < contents.data.len() ==> (#[trigger] contents.data[i]).len() == size(
                contents.heads[i],
            ),
{
    assert forall|i: int| 0 <= i < contents.data.len() implies (#[trigger] contents.data[i]).len()
        == size(contents.heads[i]) by {
        assert(contents.heads[i].name == contents.heads[i].name);
    }
}

/// A file is the length of its header in eight bytes, least significant first, the header, and the
/// data of its tensors in a row.
pub proof fn law_file_is_length_header_and_data(contents: Contents)
    requires
        header_bytes(contents.heads, contents.notes).len() <= u64::MAX,
    ensures
        ({
            let bytes = file_bytes(contents);
            let header = header_bytes(contents.heads, contents.notes);
            let data = concatenated(contents.data);
            &&& bytes.len() == 8 + header.len() + data.len()
            &&& spec_u64_from_le_bytes(bytes.subrange(0, 8)) == header.len()
            &&& bytes.subrange(8, 8 + header.len() as int) == header
            &&& bytes.skip(8 + header.len() as int) == data
        }),
{
    let bytes = file_bytes(contents);
    let header = header_bytes(contents.heads, contents.notes);
    lemma_auto_spec_u64_to_from_le_bytes();
    let length = spec_u64_to_le_bytes(header.len() as u64);
    assert(bytes.subrange(0, 8) =~= length);
    assert(bytes.subrange(8, 8 + header.len() as int) =~= header);
    assert(bytes.skip(8 + header.len() as int) =~= concatenated(contents.data));
}

/// One text comes before another if and only if, behind what they begin with in common, it has
/// ended and the other has not, or it has the smaller character.
pub proof fn law_order_is_by_the_first_difference(a: Seq<char>, b: Seq<char>)
    ensures
        precedes(a, b) <==> exists|k: int|
            0 <= k <= a.len() && k < b.len() && #[trigger] a.take(k) == b.take(k) && (k == a.len()
                || a[k] < b[k]),
    decreases a.len(),
{
    if a.len() > 0 && b.len() > 0 && a[0] == b[0] {
        let x = a.drop_first();
        let y = b.drop_first();
        law_order_is_by_the_first_difference(x, y);
        if precedes(x, y) {
            let k = choose|k: int|
                0 <= k <= x.len() && k < y.len() && #[trigger] x.take(k) == y.take(k) && (k
                    == x.len() || x[k] < y[k]);
            assert forall|i: int| 0 <= i < k + 1 implies #[trigger] a[i] == b[i] by {
                if i > 0 {
                    assert(x.take(k)[i - 1] == y.take(k)[i - 1]);
                    assert(a[i] == x[i - 1] && b[i] == y[i - 1]);
                }
            }
            assert(a.take(k + 1) =~= b.take(k + 1));
        }
        if exists|k: int|
            0 <= k <= a.len() && k < b.len() && #[trigger] a.take(k) == b.take(k) && (k == a.len()
                || a[k] < b[k]) {
            let k = choose|k: int|
                0 <= k <= a.len() && k < b.len() && #[trigger] a.take(k) == b.take(k) && (k
                    == a.len() || a[k] < b[k]);
            assert(k > 0);
            assert forall|i: int| 0 <= i < k - 1 implies #[trigger] x[i] == y[i] by {
                assert(a.take(k)[i + 1] == b.take(k)[i + 1]);
            }
            assert(x.take(k - 1) =~= y.take(k - 1));
        }
    } else {
        assert(a.take(0) =~= b.take(0));
        if exists|k: int|
            0 <= k <= a.len() && k < b.len() && #[trigger] a.take(k) == b.take(k) && (k == a.len()
                || a[k] < b[k]) {
            let k = choose|k: int|
                0 <= k <= a.len() && k < b.len() && #[trigger] a.take(k) == b.take(k) && (k
                    == a.len() || a[k] < b[k]);
            if k > 0 {
                assert(a.take(k)[0] == b.take(k)[0]);
            }
        }
    }
}

} // verus!
