//! The header of a safetensors file.

use crate::dtype::{
    dtype_byte_size, dtype_to_string, header_name, mergeable, stored_size, unsupported, Dtype,
};
use crate::error::{Fault, Result};
use crate::json::{
    lemma_text_rows_inserted, object, object_text, quote_values, quoted_rows, text_rows,
};
use crate::sorted::{inserted, SortedMap};
use crate::text::{decimal, joined_decimals, push_decimal, push_decimals};
use vstd::bytes::{spec_u64_to_le_bytes, u64_to_le_bytes};
use vstd::prelude::*;
use vstd::slice::slice_to_vec;
use vstd::utf8::encode_utf8;

verus! {

/// What a header says of a tensor, apart from its place.
pub struct Head {
    pub name: Seq<char>,
    pub dtype: Dtype,
    pub shape: Seq<usize>,
}

/// What a file holds: its tensors in order, each with its data, and the notes under
/// `__metadata__`, if there are any, in the order of their names.
pub struct Contents {
    pub heads: Seq<Head>,
    pub data: Seq<Seq<u8>>,
    pub notes: Option<Seq<(Seq<char>, Seq<char>)>>,
}

/// The number of elements of a shape.
pub open spec fn elements(shape: Seq<usize>) -> nat
    decreases shape.len(),
{
    if shape.len() == 0 {
        1
    } else {
        elements(shape.drop_last()) * shape.last() as nat
    }
}

/// Whether the elements of a shape can be counted, dimension by dimension.
pub open spec fn fits(shape: Seq<usize>) -> bool {
    forall|k: int| 0 <= k <= shape.len() ==> elements(#[trigger] shape.take(k)) <= usize::MAX
}

/// The bytes that a tensor takes.
pub open spec fn size(head: Head) -> nat {
    elements(head.shape) * stored_size(head.dtype)
}

/// Whether the bytes that a tensor takes can be counted.
pub open spec fn sizable(head: Head) -> bool {
    fits(head.shape) && size(head) <= usize::MAX
}

/// Where a tensor starts when the tensors before it follow each other from the start.
pub open spec fn offset(heads: Seq<Head>, i: int) -> nat
    decreases i,
{
    if i <= 0 {
        0
    } else {
        offset(heads, i - 1) + size(heads[i - 1])
    }
}

/// The bytes that tensors take together.
pub open spec fn total_size(heads: Seq<Head>) -> nat {
    offset(heads, heads.len() as int)
}

/// What the header says of a tensor that starts at an offset.
pub open spec fn entry_text(head: Head, start: nat) -> Seq<char> {
    "{\"data_offsets\":["@ + decimal(start) + ","@ + decimal(start + size(head)) + "],\"dtype\":\""@
        + header_name(head.dtype) + "\",\"shape\":["@ + joined_decimals(head.shape, ","@) + "]}"@
}

/// The name under which a header holds the notes.
pub open spec fn notes_name() -> Seq<char> {
    "__metadata__"@
}

/// The rows of a header with the notes and the first `count` tensors, in the order of the names.
pub open spec fn header_rows(
    heads: Seq<Head>,
    count: int,
    notes: Option<Seq<(Seq<char>, Seq<char>)>>,
) -> Seq<(Seq<char>, Seq<char>)>
    decreases count,
{
    if count <= 0 {
        match notes {
            Some(notes) => seq![(notes_name(), object_text(quoted_rows(notes)))],
            None => Seq::empty(),
        }
    } else {
        inserted(
            header_rows(heads, count - 1, notes),
            heads[count - 1].name,
            entry_text(heads[count - 1], offset(heads, count - 1)),
        )
    }
}

/// The header for tensors that follow each other.
pub open spec fn header_text(
    heads: Seq<Head>,
    notes: Option<Seq<(Seq<char>, Seq<char>)>>,
) -> Seq<char> {
    object_text(header_rows(heads, heads.len() as int, notes))
}

/// The bytes of the header for tensors that follow each other.
pub open spec fn header_bytes(
    heads: Seq<Head>,
    notes: Option<Seq<(Seq<char>, Seq<char>)>>,
) -> Seq<u8> {
    encode_utf8(header_text(heads, notes))
}

/// Parts in a row.
pub open spec fn concatenated(parts: Seq<Seq<u8>>) -> Seq<u8>
    decreases parts.len(),
{
    if parts.len() == 0 {
        Seq::empty()
    } else {
        concatenated(parts.drop_last()) + parts.last()
    }
}

/// What comes before the data in a file: the length of the header in eight bytes, least
/// significant byte first, and the header.
pub open spec fn preamble(
    heads: Seq<Head>,
    notes: Option<Seq<(Seq<char>, Seq<char>)>>,
) -> Seq<u8> {
    let header = header_bytes(heads, notes);
    spec_u64_to_le_bytes(header.len() as u64) + header
}

/// The bytes of a file with these contents.
pub open spec fn file_bytes(contents: Contents) -> Seq<u8> {
    preamble(contents.heads, contents.notes) + concatenated(contents.data)
}

/// What keeps a header from being written: the first tensor, from a place on, of a type that is
/// not merged.
pub open spec fn header_fault(heads: Seq<Head>, from: int) -> Option<Fault>
    decreases heads.len() - from,
{
    if from < 0 || from >= heads.len() {
        None
    } else if !mergeable(heads[from].dtype) {
        Some(unsupported("unknown"@, heads[from].dtype))
    } else {
        header_fault(heads, from + 1)
    }
}

/// An element type, a shape and a place in a file.
#[derive(Debug)]
pub struct TensorInfo {
    pub dtype: Dtype,
    pub shape: Vec<usize>,
    /// Absolute byte offset (not relative to the data section).
    pub data_start: usize,
    pub data_end: usize,
}

/// What is said of named tensors, apart from their places.
pub open spec fn heads_of(tensors: Seq<(String, TensorInfo)>) -> Seq<Head> {
    Seq::new(
        tensors.len(),
        |i: int|
            Head {
                name: tensors[i].0@,
                dtype: tensors[i].1.dtype,
                shape: tensors[i].1.shape@,
            },
    )
}

/// Counts the elements of a shape, if they can be counted.
pub(crate) fn checked_elements(shape: &[usize]) -> (r: Option<usize>)
    ensures
        r is Some <==> fits(shape@),
        r matches Some(count) ==> count == elements(shape@),
{
    let mut r: usize = 1;
    assert(shape@.take(0).len() == 0);
    for i in 0..shape.len()
        invariant
            r == elements(shape@.take(i as int)),
            forall|k: int| 0 <= k <= i ==> elements(#[trigger] shape@.take(k)) <= usize::MAX,
    {
        assert(shape@.take(i + 1).drop_last() =~= shape@.take(i as int));
        assert(elements(shape@.take(i + 1)) == r * shape@[i as int]);
        r = match r.checked_mul(shape[i]) {
            Some(count) => count,
            None => {
                return None;
            },
        };
    }
    assert(shape@.take(shape@.len() as int) =~= shape@);
    Some(r)
}

/// Counts the elements of a shape.
pub(crate) fn count_elements(shape: &[usize]) -> (r: usize)
    requires
        fits(shape@),
    ensures
        r == elements(shape@),
{
    let mut r: usize = 1;
    assert(shape@.take(0).len() == 0);
    for i in 0..shape.len()
        invariant
            fits(shape@),
            r == elements(shape@.take(i as int)),
    {
        assert(shape@.take(i + 1).drop_last() =~= shape@.take(i as int));
        assert(elements(shape@.take(i + 1)) == r * shape@[i as int]);
        r = r * shape[i];
    }
    assert(shape@.take(shape@.len() as int) =~= shape@);
    r
}

/// Tensors start no later than the end of all.
pub proof fn lemma_offset_within(heads: Seq<Head>, i: int, j: int)
    requires
        0 <= i <= j,
    ensures
        offset(heads, i) <= offset(heads, j),
    decreases j,
{
    if i < j {
        lemma_offset_within(heads, i, j - 1);
    }
}

/// Writes what the header says of a tensor that starts at an offset.
fn entry(info: &TensorInfo, start: usize, end: usize) -> (r: String)
    requires
        end == start + elements(info.shape@) * stored_size(info.dtype),
    ensures
        forall|head: Head|
            head.dtype == info.dtype && head.shape == info.shape@ ==> r@ == #[trigger] entry_text(
                head,
                start as nat,
            ),
{
    let mut r = String::new();
    r.append("{\"data_offsets\":[");
    push_decimal(&mut r, start as u64);
    r.append(",");
    push_decimal(&mut r, end as u64);
    r.append("],\"dtype\":\"");
    r.append(dtype_to_string(info.dtype));
    r.append("\",\"shape\":[");
    push_decimals(&mut r, info.shape.as_slice(), ",");
    r.append("]}");
    proof {
        assert forall|head: Head| head.dtype == info.dtype && head.shape == info.shape@ implies r@
            == #[trigger] entry_text(head, start as nat) by {
            assert(r@ =~= entry_text(head, start as nat));
        }
    }
    r
}

/// Returns the serialized header bytes and the total data section size.
pub fn build_output_header(
    tensors: &Vec<(String, TensorInfo)>,
    notes: &Option<SortedMap<String>>,
) -> (r: Result<(Vec<u8>, usize)>)
    requires
        forall|i: int| 0 <= i < tensors@.len() ==> sizable(#[trigger] heads_of(tensors@)[i]),
        total_size(heads_of(tensors@)) <= usize::MAX,
    ensures
        match r {
            Ok((bytes, total)) => header_fault(heads_of(tensors@), 0) is None && bytes@
                == header_bytes(heads_of(tensors@), notes_of(*notes)) && total == total_size(
                heads_of(tensors@),
            ),
            Err(error) => header_fault(heads_of(tensors@), 0) == Some(error@),
        },
{
    let ghost heads = heads_of(tensors@);
    let ghost plain_notes = notes_of(*notes);
    let mut header_map: SortedMap<String> = SortedMap::new();
    if let Some(notes) = notes {
        let object = object(&quote_values(notes));
        proof {
            lemma_text_rows_inserted(header_map.rows(), notes_name(), object);
            assert(text_rows(header_map.rows()) =~= Seq::empty());
        }
        header_map.insert("__metadata__".to_owned(), object);
        assert(text_rows(header_map.rows()) =~= header_rows(heads, 0, plain_notes));
    } else {
        assert(text_rows(header_map.rows()) =~= header_rows(heads, 0, plain_notes));
    }
    let mut current_offset: usize = 0;
    for i in 0..tensors.len()
        invariant
            heads == heads_of(tensors@),
            forall|k: int| 0 <= k < tensors@.len() ==> sizable(#[trigger] heads[k]),
            total_size(heads) <= usize::MAX,
            current_offset == offset(heads, i as int),
            text_rows(header_map.rows()) == header_rows(heads, i as int, plain_notes),
            header_fault(heads, 0) == header_fault(heads, i as int),
    {
        let info = &tensors[i].1;
        proof {
            assert(sizable(heads[i as int]));
            lemma_offset_within(heads, i + 1, heads.len() as int);
        }
        let elem_size = match dtype_byte_size(info.dtype) {
            Ok(elem_size) => elem_size,
            Err(error) => {
                return Err(error);
            },
        };
        let byte_size: usize = count_elements(info.shape.as_slice()) * elem_size;
        let end: usize = current_offset + byte_size;
        let entry = entry(info, current_offset, end);
        proof {
            assert(entry@ == entry_text(heads[i as int], current_offset as nat));
            lemma_text_rows_inserted(header_map.rows(), tensors@[i as int].0@, entry);
        }
        header_map.insert(tensors[i].0.clone(), entry);
        current_offset = end;
    }
    let text = object(&header_map);
    Ok((slice_to_vec(text.as_str().as_bytes()), current_offset))
}

/// Notes as rows.
pub open spec fn notes_of(notes: Option<SortedMap<String>>) -> Option<
    Seq<(Seq<char>, Seq<char>)>,
> {
    match notes {
        Some(notes) => Some(text_rows(notes.rows())),
        None => None,
    }
}

/// Puts the length of a header before it.
pub(crate) fn framed(header: &Vec<u8>) -> (r: Vec<u8>)
    ensures
        r@ == spec_u64_to_le_bytes(header@.len() as u64) + header@,
{
    let mut r = u64_to_le_bytes(header.len() as u64);
    r.extend_from_slice(header.as_slice());
    r
}

} // verus!
