//! Safetensors files in memory.

use crate::dtype::{
    dtype_name, dtype_named, element_size, lemma_dtype_names_differ, mergeable, Dtype,
};
use crate::error::{Fault, Result, SurgeryError};
use crate::header::{
    build_output_header, checked_elements, concatenated, file_bytes, framed, header_bytes,
    header_fault, heads_of, lemma_offset_within, notes_name, notes_of, offset, preamble, sizable,
    size, total_size, Contents, Head, TensorInfo,
};
use crate::json::{lemma_text_rows_value, text_rows};
use crate::sorted::{ascending, lemma_same_rows, value_of, SortedMap};
use crate::text::same_text;
use vstd::bytes::{spec_u64_from_le_bytes, spec_u64_to_le_bytes, u64_from_le_bytes};
use vstd::prelude::*;
use vstd::slice::slice_subrange;

verus! {

/// The bytes that a header has at most.
pub const MAX_HEADER_SIZE: usize = 100_000_000;

/// What a header says of a tensor: its element type, its shape, and where its data start and end
/// behind the header.
pub struct Entry {
    pub dtype: Dtype,
    pub shape: Seq<usize>,
    pub start: nat,
    pub end: nat,
}

/// A header that was read: its length, what it says of each tensor, and its notes.
pub struct Header {
    pub length: nat,
    pub tensors: Map<Seq<char>, Entry>,
    pub notes: Option<Map<Seq<char>, Seq<char>>>,
}

/// The header of a file, if the bytes are a file of this format.
pub uninterp spec fn header_of(bytes: Seq<u8>) -> Option<Header>;

/// What a header says of its tensors, if it is the text of a header.
pub uninterp spec fn declared(header: Seq<u8>) -> Option<Map<Seq<char>, Entry>>;

/// The length that a file declares for its header.
pub open spec fn declared_length(bytes: Seq<u8>) -> int {
    spec_u64_from_le_bytes(bytes.subrange(0, 8)) as int
}

/// Whether a file holds as many bytes as it declares for its header.
pub open spec fn has_header(bytes: Seq<u8>) -> bool {
    bytes.len() >= 8 && 8 + declared_length(bytes) <= bytes.len()
}

/// Whether a tensor ends no earlier than it starts, with as many bytes as its shape and its element
/// type ask for.
pub open spec fn well_sized(entry: Entry) -> bool {
    let head = Head { name: Seq::empty(), dtype: entry.dtype, shape: entry.shape };
    entry.start <= entry.end && sizable(head) && entry.end - entry.start == size(head)
}

/// Whether a tensor starts with the data, or where one that is not empty ends.
pub open spec fn adjoins(tensors: Map<Seq<char>, Entry>, entry: Entry) -> bool {
    entry.start == 0 || exists|name: Seq<char>| #[trigger]
        tensors.contains_key(name) && tensors[name].start < entry.start && tensors[name].end
            == entry.start
}

/// Whether one of two tensors ends before the other starts.
pub open spec fn apart(a: Entry, b: Entry) -> bool {
    a.end <= b.start || b.end <= a.start
}

/// Whether tensors have the sizes that they ask for and follow each other from the start of the
/// data, without gap and overlap.
pub open spec fn seamless(tensors: Map<Seq<char>, Entry>) -> bool {
    &&& forall|name: Seq<char>| #[trigger]
        tensors.contains_key(name) ==> well_sized(tensors[name]) && adjoins(tensors, tensors[name])
    &&& forall|a: Seq<char>, b: Seq<char>| #[trigger]
        tensors.contains_key(a) && #[trigger] tensors.contains_key(b) && a != b ==> apart(
            tensors[a],
            tensors[b],
        )
}

/// Whether a file declares tensors that follow each other, one of which ends where it cannot be
/// counted from the start of the file.
pub open spec fn oversized(bytes: Seq<u8>) -> bool {
    &&& has_header(bytes)
    &&& declared_length(bytes) <= MAX_HEADER_SIZE
    &&& declared(bytes.subrange(8, 8 + declared_length(bytes))) matches Some(tensors) && seamless(
        tensors,
    ) && exists|name: Seq<char>| #[trigger]
        tensors.contains_key(name) && tensors[name].end + 8 + declared_length(bytes) > usize::MAX
}

/// A row of a header as it was read: the name of a tensor, the name of its element type, its
/// shape, and where its data start and end behind the header.
pub struct HeaderRow {
    pub name: String,
    pub dtype: String,
    pub shape: Vec<usize>,
    pub start: usize,
    pub end: usize,
}

/// A header as it was read: its length, its rows in no particular order, and its notes.
pub struct RawHeader {
    pub length: usize,
    pub rows: Vec<HeaderRow>,
    pub notes: Option<Vec<(String, String)>>,
}

/// The bytes that the tensors of some rows take together.
pub open spec fn rows_size(rows: Seq<HeaderRow>) -> int
    decreases rows.len(),
{
    if rows.len() == 0 {
        0
    } else {
        rows_size(rows.drop_last()) + (rows.last().end - rows.last().start)
    }
}

/// Whether a row says of a tensor what an entry says.
pub open spec fn row_matches(row: HeaderRow, entry: Entry) -> bool {
    &&& row.dtype@ == dtype_name(entry.dtype)
    &&& row.shape@ == entry.shape
    &&& row.start == entry.start
    &&& row.end == entry.end
}

/// Whether rows are those of a header, each tensor in one row.
pub open spec fn rows_match(rows: Seq<HeaderRow>, tensors: Map<Seq<char>, Entry>) -> bool {
    &&& forall|i: int|
        0 <= i < rows.len() ==> tensors.contains_key(#[trigger] rows[i].name@) && row_matches(
            rows[i],
            tensors[rows[i].name@],
        )
    &&& forall|i: int, j: int|
        0 <= i < j < rows.len() ==> #[trigger] rows[i].name@ != #[trigger] rows[j].name@
    &&& forall|name: Seq<char>| #[trigger]
        tensors.contains_key(name) ==> exists|i: int|
            0 <= i < rows.len() && #[trigger] rows[i].name@ == name
}

/// Whether pairs are the notes of a header.
pub open spec fn pairs_match(
    pairs: Seq<(String, String)>,
    notes: Map<Seq<char>, Seq<char>>,
) -> bool {
    &&& forall|i: int|
        0 <= i < pairs.len() ==> notes.contains_key(#[trigger] pairs[i].0@)
            && notes[pairs[i].0@] == pairs[i].1@
    &&& forall|name: Seq<char>| #[trigger]
        notes.contains_key(name) ==> exists|i: int|
            0 <= i < pairs.len() && #[trigger] pairs[i].0@ == name
}

/// Whether pairs, if there are any, are the notes of a header.
pub open spec fn notes_match(
    pairs: Option<Vec<(String, String)>>,
    notes: Option<Map<Seq<char>, Seq<char>>>,
) -> bool {
    match (pairs, notes) {
        (Some(pairs), Some(notes)) => pairs_match(pairs@, notes),
        (None, None) => true,
        _ => false,
    }
}

/// Whether what was read is a header.
pub open spec fn raw_matches(raw: RawHeader, header: Option<Header>) -> bool {
    header matches Some(header) && raw.length == header.length && rows_match(
        raw.rows@,
        header.tensors,
    ) && notes_match(raw.notes, header.notes)
}

/// What holds of every row of a header: the data lie behind the header, they are as many bytes
/// as the shape and the element type ask for, and the name is not that of the notes.
pub open spec fn row_sound(row: HeaderRow, available: int) -> bool {
    &&& row.start <= row.end <= available
    &&& row.name@ != notes_name()
    &&& forall|head: Head|
        #![trigger sizable(head)]
        dtype_name(head.dtype) == row.dtype@ && head.shape == row.shape@ ==> sizable(head)
            && row.end - row.start == size(head)
}

/// Whether a text is the name of an element type.
pub open spec fn names_dtype(name: Seq<char>) -> bool {
    exists|dtype: Dtype| #[trigger] dtype_name(dtype) == name
}

/// What holds of every header that was read: it has the length that the file declares, its rows
/// are sound, name element types and have names that differ, and the data of its tensors fill
/// what is behind it.
pub open spec fn raw_sound(raw: RawHeader, bytes: Seq<u8>) -> bool {
    let available = bytes.len() - 8 - raw.length;
    &&& has_header(bytes)
    &&& raw.length == declared_length(bytes)
    &&& rows_size(raw.rows@) == available
    &&& forall|i: int| 0 <= i < raw.rows@.len() ==> row_sound(#[trigger] raw.rows@[i], available)
    &&& forall|i: int| 0 <= i < raw.rows@.len() ==> names_dtype(#[trigger] raw.rows@[i].dtype@)
    &&& forall|i: int, j: int|
        0 <= i < j < raw.rows@.len() ==> #[trigger] raw.rows@[i].name@
            != #[trigger] raw.rows@[j].name@
}

/// Whether contents can be written as a file: the names differ from each other and from that of
/// the notes, each tensor is of a type that is merged and has as many bytes as its shape asks
/// for, the notes are in order, and the header is not longer than the format allows.
pub open spec fn writable(contents: Contents) -> bool {
    &&& contents.heads.len() == contents.data.len()
    &&& forall|i: int|
        0 <= i < contents.heads.len() ==> mergeable((#[trigger] contents.heads[i]).dtype)
            && sizable(contents.heads[i]) && contents.data[i].len() == size(contents.heads[i])
            && contents.heads[i].name != notes_name()
    &&& forall|i: int, j: int|
        0 <= i < j < contents.heads.len() ==> #[trigger] contents.heads[i].name
            != #[trigger] contents.heads[j].name
    &&& contents.notes matches Some(notes) ==> ascending(notes)
    &&& header_bytes(contents.heads, contents.notes).len() <= MAX_HEADER_SIZE
}

/// The header of a file with these contents.
pub open spec fn written_header(contents: Contents) -> Header {
    Header {
        length: header_bytes(contents.heads, contents.notes).len(),
        tensors: Map::new(
            |name: Seq<char>|
                exists|i: int|
                    0 <= i < contents.heads.len() && #[trigger] contents.heads[i].name == name,
            |name: Seq<char>|
                {
                    let i = choose|i: int|
                        0 <= i < contents.heads.len() && #[trigger] contents.heads[i].name == name;
                    Entry {
                        dtype: contents.heads[i].dtype,
                        shape: contents.heads[i].shape,
                        start: offset(contents.heads, i),
                        end: offset(contents.heads, i + 1),
                    }
                },
        ),
        notes: match contents.notes {
            Some(notes) => Some(
                Map::new(
                    |name: Seq<char>| value_of(notes, name) is Some,
                    |name: Seq<char>| value_of(notes, name)->0,
                ),
            ),
            None => None,
        },
    }
}

/// An error of the safetensors crate.
#[verifier::external_type_specification]
#[verifier::external_body]
pub struct ExSafeTensorError(safetensors::SafeTensorError);

/// Formats an error of the safetensors crate with its `Display`. Nothing is claimed of the text:
/// it may name any of several tensors at fault.
#[verifier::external_body]
fn error_text(error: &safetensors::SafeTensorError) -> (r: String) {
    format!("{error}")
}

/// Reads a header, if it is UTF-8, with `serde_json::from_str` as `safetensors::tensor::Metadata`
/// and lists the tensors, in no particular order and each once, with each element type by the name
/// that its `Debug` gives. The result is named. Of a header that this crate writes, for tensors
/// whose sizes can be added up, the offsets are read back, so that none ends behind the last
/// tensor.
#[verifier::external_body]
fn declared_rows(header: &[u8]) -> (r: Option<Vec<HeaderRow>>)
    ensures
        r is Some <==> declared(header@) is Some,
        r matches Some(rows) ==> rows_match(rows@, declared(header@)->0),
        forall|contents: Contents|
            writable(contents) && total_size(contents.heads) <= usize::MAX
                && #[trigger] header_bytes(contents.heads, contents.notes) == header@ ==> (
            r matches Some(rows) && forall|i: int|
                0 <= i < rows@.len() ==> (#[trigger] rows@[i]).end <= total_size(contents.heads)),
{
    let text = core::str::from_utf8(header).ok()?;
    let metadata: safetensors::tensor::Metadata = serde_json::from_str(text).ok()?;
    let mut rows: Vec<HeaderRow> = Vec::new();
    for (name, info) in metadata.tensors() {
        let dtype = format!("{:?}", info.dtype);
        let (start, end) = info.data_offsets;
        rows.push(HeaderRow { name, dtype, shape: info.shape.clone(), start, end });
    }
    Some(rows)
}

/// Calls `safetensors::SafeTensors::read_metadata` and lists the tensors, in no particular order,
/// and the notes, with each element type by the name that its `Debug` gives. The result is named,
/// for a machine of a given word size. The length of the header is the one that the file declares.
/// Every tensor lies behind the header, has the bytes that its shape and its element type ask for,
/// and a name of its own that is not `__metadata__`; together they fill what is behind the header.
/// Of a file that this crate writes, what was written is read back. The offsets must be such that
/// the end of the data can be counted from the start of the file, for `read_metadata` adds to it
/// without a check; or else such that it refuses them before, because the tensors do not have
/// their sizes or do not follow each other.
#[verifier::external_body]
fn read_header(bytes: &[u8]) -> (r: core::result::Result<RawHeader, safetensors::SafeTensorError>)
    requires
        !oversized(bytes@),
    ensures
        r is Ok <==> header_of(bytes@) is Some,
        r matches Ok(raw) ==> raw_matches(raw, header_of(bytes@)),
        r matches Ok(raw) ==> raw_sound(raw, bytes@),
        forall|contents: Contents|
            writable(contents) && #[trigger] file_bytes(contents) == bytes@ ==> r is Ok
                && raw_matches(r->Ok_0, Some(written_header(contents))),
{
    let (length, metadata) = safetensors::SafeTensors::read_metadata(bytes)?;
    let mut rows: Vec<HeaderRow> = Vec::new();
    for (name, info) in metadata.tensors() {
        let dtype = format!("{:?}", info.dtype);
        let (start, end) = info.data_offsets;
        rows.push(HeaderRow { name, dtype, shape: info.shape.clone(), start, end });
    }
    let notes = metadata.metadata().clone().map(|notes| notes.into_iter().collect());
    Ok(RawHeader { length, rows, notes })
}

/// Whether contents are those that a header describes: each of its tensors once, in the order in
/// which their data start, with the data that lie at its place.
pub open spec fn lists(bytes: Seq<u8>, header: Header, contents: Contents) -> bool {
    let heads = contents.heads;
    &&& heads.len() == contents.data.len()
    &&& forall|i: int|
        0 <= i < heads.len() ==> header.tensors.contains_key(#[trigger] heads[i].name)
            && describes(bytes, header, heads[i], contents.data[i])
    &&& forall|i: int, j: int|
        0 <= i < j < heads.len() ==> #[trigger] heads[i].name != #[trigger] heads[j].name
            && header.tensors[heads[i].name].start <= header.tensors[heads[j].name].start
    &&& forall|name: Seq<char>| #[trigger]
        header.tensors.contains_key(name) ==> exists|i: int|
            0 <= i < heads.len() && #[trigger] heads[i].name == name
    &&& match (header.notes, contents.notes) {
        (Some(map), Some(rows)) => ascending(rows) && forall|name: Seq<char>| #[trigger]
            value_of(rows, name) == (if map.contains_key(name) {
                Some(map[name])
            } else {
                None
            }),
        (None, None) => true,
        _ => false,
    }
}

/// Whether the data of tensors lie, counted from the start of the file, where a header has them.
pub open spec fn located(header: Header, heads: Seq<Head>, places: Seq<(usize, usize)>) -> bool {
    &&& places.len() == heads.len()
    &&& forall|i: int|
        0 <= i < heads.len() ==> (#[trigger] places[i]).0 == 8 + header.length
            + header.tensors[heads[i].name].start && places[i].1 == 8 + header.length
            + header.tensors[heads[i].name].end
}

/// Whether a header says of a tensor what is said of it here, and its data are these.
pub open spec fn describes(bytes: Seq<u8>, header: Header, head: Head, data: Seq<u8>) -> bool {
    let entry = header.tensors[head.name];
    &&& head.dtype == entry.dtype
    &&& head.shape == entry.shape
    &&& data == bytes.subrange(8int + header.length + entry.start, 8int + header.length + entry.end)
}

/// What holds of the contents of every file: each tensor has the bytes that its shape and its
/// element type ask for, the sizes can be added up, the names differ from each other and from
/// that of the notes, and the notes are in order.
pub open spec fn sound(contents: Contents) -> bool {
    let heads = contents.heads;
    &&& heads.len() == contents.data.len()
    &&& forall|i: int|
        0 <= i < heads.len() ==> sizable(#[trigger] heads[i]) && contents.data[i].len() == size(
            heads[i],
        ) && heads[i].name != notes_name()
    &&& forall|i: int, j: int|
        0 <= i < j < heads.len() ==> #[trigger] heads[i].name != #[trigger] heads[j].name
    &&& total_size(heads) <= usize::MAX
    &&& contents.notes matches Some(notes) ==> ascending(notes)
}

/// The place of the first tensor of a name, from a place on.
pub open spec fn position(heads: Seq<Head>, name: Seq<char>, from: int) -> Option<int>
    decreases heads.len() - from,
{
    if from < 0 || from >= heads.len() {
        None
    } else if heads[from].name == name {
        Some(from)
    } else {
        position(heads, name, from + 1)
    }
}

/// The tensor of a name, and its data.
pub open spec fn tensor_named(contents: Contents, name: Seq<char>) -> Option<(Head, Seq<u8>)> {
    match position(contents.heads, name, 0) {
        Some(i) => Some((contents.heads[i], contents.data[i])),
        None => None,
    }
}

/// The error for a tensor that a file does not have.
pub open spec fn not_found(name: Seq<char>) -> Fault {
    Fault::TensorNotFound { name, location: "file"@ }
}

/// A place that was found is within the tensors and has the name, and names that differ have one
/// place.
pub proof fn lemma_position(heads: Seq<Head>, name: Seq<char>, from: int)
    requires
        0 <= from,
    ensures
        match position(heads, name, from) {
            Some(i) => from <= i < heads.len() && heads[i].name == name,
            None => forall|i: int| from <= i < heads.len() ==> #[trigger] heads[i].name != name,
        },
    decreases heads.len() - from,
{
    if from < heads.len() && heads[from].name != name {
        lemma_position(heads, name, from + 1);
    }
}

/// What is put among tensors adds its size to theirs.
proof fn lemma_offset_insert(heads: Seq<Head>, at: int, head: Head, i: int)
    requires
        0 <= at <= heads.len(),
        0 <= i <= heads.len() + 1,
    ensures
        i <= at ==> offset(heads.insert(at, head), i) == offset(heads, i),
        i > at ==> offset(heads.insert(at, head), i) == offset(heads, i - 1) + size(head),
    decreases i,
{
    if i > 0 {
        lemma_offset_insert(heads, at, head, i - 1);
    }
}

/// Whether a tensor of a file is the one of a row of its header.
spec fn is_row(tensor: (String, TensorInfo), row: HeaderRow, data_offset: int) -> bool {
    &&& tensor.0@ == row.name@
    &&& dtype_name(tensor.1.dtype) == row.dtype@
    &&& tensor.1.shape@ == row.shape@
    &&& tensor.1.data_start == data_offset + row.start
    &&& tensor.1.data_end == data_offset + row.end
}

/// Whether tensors are ordered by where their data start.
spec fn in_order(tensors: Seq<(String, TensorInfo)>) -> bool {
    forall|i: int, j: int|
        0 <= i < j < tensors.len() ==> (#[trigger] tensors[i]).1.data_start <= (
        #[trigger] tensors[j]).1.data_start
}

/// Puts a tensor among others that are ordered by where their data start.
fn insert_in_order(tensors: &mut Vec<(String, TensorInfo)>, tensor: (String, TensorInfo)) -> (at:
    Ghost<int>)
    requires
        in_order(old(tensors)@),
    ensures
        0 <= at@ <= old(tensors)@.len(),
        final(tensors)@ == old(tensors)@.insert(at@, tensor),
        in_order(final(tensors)@),
{
    let mut at: usize = tensors.len();
    while at > 0 && tensors[at - 1].1.data_start > tensor.1.data_start
        invariant
            at <= tensors@.len(),
            in_order(tensors@),
            forall|i: int|
                at <= i < tensors@.len() ==> (#[trigger] tensors@[i]).1.data_start
                    > tensor.1.data_start,
        decreases at,
    {
        at = at - 1;
    }
    tensors.insert(at, tensor);
    Ghost(at as int)
}

/// Whether a tensor of a file has its data within the file, as many bytes as its shape and its
/// element type ask for.
spec fn info_sound(head: Head, info: TensorInfo, count: nat) -> bool {
    &&& info.data_start <= info.data_end <= count
    &&& sizable(head)
    &&& info.data_end - info.data_start == size(head)
    &&& head.name != notes_name()
}

/// A safetensors file in memory, with what its header says of the tensors.
pub struct MappedSafetensors<'a> {
    bytes: &'a [u8],
    /// Ordered by appearance in the file.
    tensors: Vec<(String, TensorInfo)>,
    notes: Option<SortedMap<String>>,
}

impl<'a> View for MappedSafetensors<'a> {
    type V = Contents;

    closed spec fn view(&self) -> Contents {
        Contents {
            heads: heads_of(self.tensors@),
            data: data_of(self.bytes@, self.tensors@),
            notes: notes_of(self.notes),
        }
    }
}

/// The data of tensors.
spec fn data_of(bytes: Seq<u8>, tensors: Seq<(String, TensorInfo)>) -> Seq<Seq<u8>> {
    Seq::new(
        tensors.len(),
        |i: int|
            bytes.subrange(tensors[i].1.data_start as int, tensors[i].1.data_end as int),
    )
}

/// Where the data of tensors lie.
spec fn places_of(tensors: Seq<(String, TensorInfo)>) -> Seq<(usize, usize)> {
    Seq::new(tensors.len(), |i: int| (tensors[i].1.data_start, tensors[i].1.data_end))
}

/// Whether some tensor is the one of a row.
spec fn has_tensor(
    tensors: Seq<(String, TensorInfo)>,
    row: HeaderRow,
    data_offset: int,
) -> bool {
    exists|j: int| 0 <= j < tensors.len() && is_row(#[trigger] tensors[j], row, data_offset)
}

/// Whether a tensor is the one of some row, from a place on.
spec fn has_row(
    tensor: (String, TensorInfo),
    rows: Seq<HeaderRow>,
    from: int,
    data_offset: int,
) -> bool {
    exists|i: int| from <= i < rows.len() && is_row(tensor, #[trigger] rows[i], data_offset)
}

/// Whether tensors are those of the rows of a header, from a place on.
spec fn holds_rows(
    tensors: Seq<(String, TensorInfo)>,
    rows: Seq<HeaderRow>,
    from: int,
    data_offset: int,
) -> bool {
    &&& forall|i: int|
        from <= i < rows.len() ==> #[trigger] has_tensor(tensors, rows[i], data_offset)
    &&& forall|j: int|
        0 <= j < tensors.len() ==> #[trigger] has_row(tensors[j], rows, from, data_offset)
    &&& forall|i: int, j: int|
        0 <= i < j < tensors.len() ==> (#[trigger] tensors[i]).0@ != (#[trigger] tensors[j]).0@
}

/// Tensors stay those of their rows when the tensor of one more row is put among them.
proof fn lemma_holds_one_more(
    tensors: Seq<(String, TensorInfo)>,
    rows: Seq<HeaderRow>,
    from: int,
    data_offset: int,
    at: int,
    tensor: (String, TensorInfo),
)
    requires
        0 < from <= rows.len(),
        0 <= at <= tensors.len(),
        forall|i: int, j: int|
            0 <= i < j < rows.len() ==> #[trigger] rows[i].name@ != #[trigger] rows[j].name@,
        holds_rows(tensors, rows, from, data_offset),
        is_row(tensor, rows[from - 1], data_offset),
    ensures
        holds_rows(tensors.insert(at, tensor), rows, from - 1, data_offset),
{
    let more = tensors.insert(at, tensor);
    assert forall|i: int| from - 1 <= i < rows.len() implies #[trigger] has_tensor(
        more,
        rows[i],
        data_offset,
    ) by {
        if i == from - 1 {
            assert(is_row(more[at], rows[i], data_offset));
        } else {
            assert(has_tensor(tensors, rows[i], data_offset));
            let j = choose|j: int|
                0 <= j < tensors.len() && is_row(#[trigger] tensors[j], rows[i], data_offset);
            if j < at {
                assert(is_row(more[j], rows[i], data_offset));
            } else {
                assert(is_row(more[j + 1], rows[i], data_offset));
            }
        }
    }
    assert forall|j: int| 0 <= j < more.len() implies #[trigger] has_row(
        more[j],
        rows,
        from - 1,
        data_offset,
    ) by {
        if j == at {
            assert(is_row(more[j], rows[from - 1], data_offset));
        } else {
            let k = if j < at {
                j
            } else {
                j - 1
            };
            assert(more[j] == tensors[k]);
            assert(has_row(tensors[k], rows, from, data_offset));
            let i = choose|i: int|
                from <= i < rows.len() && is_row(tensors[k], #[trigger] rows[i], data_offset);
            assert(is_row(more[j], rows[i], data_offset));
        }
    }
    assert forall|k: int| 0 <= k < tensors.len() implies (#[trigger] tensors[k]).0@
        != tensor.0@ by {
        assert(has_row(tensors[k], rows, from, data_offset));
        let i = choose|i: int|
            from <= i < rows.len() && is_row(tensors[k], #[trigger] rows[i], data_offset);
        assert(rows[from - 1].name@ != rows[i].name@);
    }
    assert forall|i: int, j: int| 0 <= i < j < more.len() implies (#[trigger] more[i]).0@ != (
    #[trigger] more[j]).0@ by {
        let a = if i < at {
            i
        } else {
            i - 1
        };
        let b = if j < at {
            j
        } else {
            j - 1
        };
        if i != at && j != at {
            assert(tensors[a].0@ != tensors[b].0@);
        } else if i == at {
            assert(tensors[b].0@ != tensor.0@);
        } else {
            assert(tensors[a].0@ != tensor.0@);
        }
    }
}

/// Turns the rows of a header into tensors, ordered by where their data start.
fn tensors_of(rows: Vec<HeaderRow>, data_offset: usize, count: usize) -> (r: Vec<
    (String, TensorInfo),
>)
    requires
        data_offset <= count,
        rows_size(rows@) == count - data_offset,
        forall|i: int, j: int|
            0 <= i < j < rows@.len() ==> #[trigger] rows@[i].name@ != #[trigger] rows@[j].name@,
        forall|i: int|
            0 <= i < rows@.len() ==> row_sound(#[trigger] rows@[i], count - data_offset)
                && names_dtype(rows@[i].dtype@),
    ensures
        holds_rows(r@, rows@, 0, data_offset as int),
        in_order(r@),
        total_size(heads_of(r@)) == count - data_offset,
        forall|i: int|
            0 <= i < r@.len() ==> info_sound(
                heads_of(r@)[i],
                (#[trigger] r@[i]).1,
                count as nat,
            ),
{
    let ghost all = rows@;
    let mut rows = rows;
    let mut tensors: Vec<(String, TensorInfo)> = Vec::new();
    assert(all.take(all.len() as int) =~= all);
    while rows.len() > 0
        invariant
            data_offset <= count,
            rows@.len() <= all.len(),
            rows@ == all.take(rows@.len() as int),
            forall|i: int, j: int|
                0 <= i < j < all.len() ==> #[trigger] all[i].name@ != #[trigger] all[j].name@,
            forall|i: int|
                0 <= i < all.len() ==> row_sound(#[trigger] all[i], count - data_offset)
                    && names_dtype(all[i].dtype@),
            holds_rows(tensors@, all, rows@.len() as int, data_offset as int),
            in_order(tensors@),
            total_size(heads_of(tensors@)) + rows_size(rows@) == count - data_offset,
            forall|i: int|
                0 <= i < tensors@.len() ==> info_sound(
                    heads_of(tensors@)[i],
                    (#[trigger] tensors@[i]).1,
                    count as nat,
                ),
        decreases rows@.len(),
    {
        let ghost left = rows@;
        match rows.pop() {
            Some(row) => {
                let ghost here = left.len() - 1;
                assert(row == all[here]);
                assert(rows@ =~= left.drop_last());
                assert(rows@ =~= all.take(here));
                let dtype = match dtype_named(row.dtype.as_str()) {
                    Some(dtype) => dtype,
                    None => Dtype::U8,
                };
                let info = TensorInfo {
                    dtype,
                    shape: row.shape,
                    data_start: data_offset + row.start,
                    data_end: data_offset + row.end,
                };
                let ghost head = Head { name: row.name@, dtype, shape: row.shape@ };
                let ghost before = tensors@;
                let ghost tensor = (row.name, info);
                let at = insert_in_order(&mut tensors, (row.name, info));
                proof {
                    assert(sizable(head));
                    lemma_holds_one_more(
                        before,
                        all,
                        left.len() as int,
                        data_offset as int,
                        at@,
                        tensor,
                    );
                    assert(heads_of(tensors@) =~= heads_of(before).insert(at@, head));
                    lemma_offset_insert(
                        heads_of(before),
                        at@,
                        head,
                        before.len() as int + 1,
                    );
                    assert forall|i: int| 0 <= i < tensors@.len() implies info_sound(
                        heads_of(tensors@)[i],
                        (#[trigger] tensors@[i]).1,
                        count as nat,
                    ) by {
                        if i < at@ {
                            assert(tensors@[i] == before[i]);
                        } else if i > at@ {
                            assert(tensors@[i] == before[i - 1]);
                        }
                    }
                }
            },
            None => {},
        }
    }
    tensors
}

/// Notes that were read, as rows.
fn notes_rows(pairs: Vec<(String, String)>) -> (r: SortedMap<String>)
    ensures
        ascending(r.rows()),
        forall|notes: Map<Seq<char>, Seq<char>>, name: Seq<char>|
            pairs_match(pairs@, notes) ==> #[trigger] value_of(
                text_rows(r.rows()),
                name,
            ) == (if #[trigger] notes.contains_key(name) {
                Some(notes[name])
            } else {
                None
            }),
{
    let mut r: SortedMap<String> = SortedMap::new();
    for i in 0..pairs.len()
        invariant
            forall|name: Seq<char>|
                (#[trigger] r.find(name)) matches Some(value) ==> exists|k: int|
                    0 <= k < i && #[trigger] pairs@[k].0@ == name && pairs@[k].1@ == value@,
            forall|k: int| 0 <= k < i ==> r.find(#[trigger] pairs@[k].0@) is Some,
    {
        let ghost before = r;
        let name = pairs[i].0.clone();
        let value = pairs[i].1.clone();
        r.insert(name, value);
        proof {
            assert forall|other: Seq<char>|
                (#[trigger] r.find(other)) matches Some(value) implies exists|k: int|
                0 <= k < i + 1 && #[trigger] pairs@[k].0@ == other && pairs@[k].1@
                    == r.find(other)->0@ by {
                if other == name@ {
                    assert(pairs@[i as int].0@ == other);
                } else {
                    assert(r.find(other) == before.find(other));
                }
            }
            assert forall|k: int| 0 <= k < i + 1 implies r.find(
                #[trigger] pairs@[k].0@,
            ) is Some by {
                if pairs@[k].0@ != name@ {
                    assert(r.find(pairs@[k].0@) == before.find(pairs@[k].0@));
                }
            }
        }
    }
    let count: usize = r.len();
    proof {
        assert forall|notes: Map<Seq<char>, Seq<char>>, name: Seq<char>|
            pairs_match(pairs@, notes) implies #[trigger] value_of(
            text_rows(r.rows()),
            name,
        ) == (if #[trigger] notes.contains_key(name) {
            Some(notes[name])
        } else {
            None
        }) by {
            lemma_text_rows_value(r.rows(), name);
            assert(r.find(name) == value_of(r.rows(), name));
            if notes.contains_key(name) {
                let k = choose|k: int| 0 <= k < pairs@.len() && #[trigger] pairs@[k].0@ == name;
                assert(r.find(pairs@[k].0@) is Some);
            }
        }
    }
    r
}

/// Whether notes are those that were read.
spec fn notes_listed(
    pairs: Option<Vec<(String, String)>>,
    notes: Option<SortedMap<String>>,
) -> bool {
    match (pairs, notes) {
        (Some(pairs), Some(rows)) => ascending(rows.rows()) && forall|
            notes: Map<Seq<char>, Seq<char>>,
            name: Seq<char>,
        |
            pairs_match(pairs@, notes) ==> #[trigger] value_of(
                text_rows(rows.rows()),
                name,
            ) == (if #[trigger] notes.contains_key(name) {
                Some(notes[name])
            } else {
                None
            }),
        (None, None) => true,
        _ => false,
    }
}

/// The tensors of the rows of a header are those that the header describes.
proof fn lemma_lists(
    bytes: Seq<u8>,
    raw: RawHeader,
    header: Header,
    tensors: Seq<(String, TensorInfo)>,
    notes: Option<SortedMap<String>>,
)
    requires
        raw_matches(raw, Some(header)),
        holds_rows(tensors, raw.rows@, 0, 8 + raw.length),
        in_order(tensors),
        notes_listed(raw.notes, notes),
    ensures
        lists(
            bytes,
            header,
            (Contents {
                heads: heads_of(tensors),
                data: data_of(bytes, tensors),
                notes: notes_of(notes),
            }),
        ),
        located(header, heads_of(tensors), places_of(tensors)),
{
    let rows = raw.rows@;
    let heads = heads_of(tensors);
    let data = data_of(bytes, tensors);
    let off = 8 + raw.length;
    assert forall|i: int| 0 <= i < heads.len() implies header.tensors.contains_key(
        #[trigger] heads[i].name,
    ) && describes(bytes, header, heads[i], data[i]) && tensors[i].1.data_start == off
        + header.tensors[heads[i].name].start && tensors[i].1.data_end == off
        + header.tensors[heads[i].name].end by {
        assert(has_row(tensors[i], rows, 0, off));
        let k = choose|k: int| 0 <= k < rows.len() && is_row(tensors[i], #[trigger] rows[k], off);
        assert(header.tensors.contains_key(rows[k].name@));
        lemma_dtype_names_differ(heads[i].dtype, header.tensors[rows[k].name@].dtype);
    }
    assert forall|i: int, j: int| 0 <= i < j < heads.len() implies #[trigger] heads[i].name
        != #[trigger] heads[j].name && header.tensors[heads[i].name].start
        <= header.tensors[heads[j].name].start by {
        assert(tensors[i].0@ != tensors[j].0@);
        assert(header.tensors.contains_key(heads[i].name));
        assert(header.tensors.contains_key(heads[j].name));
    }
    assert forall|name: Seq<char>| #[trigger] header.tensors.contains_key(name) implies exists|
        i: int,
    | 0 <= i < heads.len() && #[trigger] heads[i].name == name by {
        let k = choose|k: int| 0 <= k < rows.len() && #[trigger] rows[k].name@ == name;
        assert(has_tensor(tensors, rows[k], off));
        let j = choose|j: int|
            0 <= j < tensors.len() && is_row(#[trigger] tensors[j], rows[k], off);
        assert(heads[j].name == name);
    }
    assert forall|i: int| 0 <= i < heads.len() implies (#[trigger] places_of(tensors)[i]).0 == off
        + header.tensors[heads[i].name].start && places_of(tensors)[i].1 == off
        + header.tensors[heads[i].name].end by {
        assert(header.tensors.contains_key(heads[i].name));
    }
    if notes is Some {
        lemma_text_rows_value(notes->0.rows(), Seq::empty());
        let map = header.notes->0;
        assert(pairs_match(raw.notes->0@, map));
        assert forall|name: Seq<char>| #[trigger]
            value_of(text_rows(notes->0.rows()), name) == (if map.contains_key(name) {
                Some(map[name])
            } else {
                None
            }) by {
        }
    }
}

/// The data of a tensor lie where the sizes of those before it add up to.
pub(crate) proof fn lemma_data_part(heads: Seq<Head>, data: Seq<Seq<u8>>, count: int, k: int)
    requires
        heads.len() == data.len(),
        0 <= k < count <= data.len(),
        forall|i: int| 0 <= i < data.len() ==> (#[trigger] data[i]).len() == size(heads[i]),
    ensures
        concatenated(data.take(count)).len() == offset(heads, count),
        offset(heads, k + 1) <= offset(heads, count),
        concatenated(data.take(count)).subrange(
            offset(heads, k) as int,
            offset(heads, k + 1) as int,
        ) == data[k],
    decreases count,
{
    let all = data.take(count);
    assert(all.drop_last() =~= data.take(count - 1));
    let before = concatenated(data.take(count - 1));
    lemma_offset_within(heads, k + 1, count);
    if k < count - 1 {
        lemma_data_part(heads, data, count - 1, k);
        assert(concatenated(all).subrange(
            offset(heads, k) as int,
            offset(heads, k + 1) as int,
        ) =~= before.subrange(offset(heads, k) as int, offset(heads, k + 1) as int));
    } else {
        if count > 1 {
            lemma_data_part(heads, data, count - 1, 0);
        } else {
            assert(data.take(0) =~= Seq::empty());
        }
        assert(concatenated(all).subrange(
            offset(heads, k) as int,
            offset(heads, k + 1) as int,
        ) =~= data[k]);
    }
}

/// Whether two contents have the same tensors, each with the same element type, shape and data,
/// and the same notes.
pub open spec fn same_contents(a: Contents, b: Contents) -> bool {
    &&& forall|name: Seq<char>| #[trigger] tensor_named(a, name) == tensor_named(b, name)
    &&& a.notes == b.notes
}

/// What a file was written with is what its header describes: every tensor with its element
/// type, shape and data, and the notes.
pub proof fn law_written_file_describes_its_contents(
    bytes: Seq<u8>,
    written: Contents,
    read: Contents,
)
    requires
        writable(written),
        bytes == file_bytes(written),
        lists(bytes, written_header(written), read),
    ensures
        same_contents(read, written),
{
    let header = written_header(written);
    let heads = written.heads;
    let front = preamble(heads, written.notes);
    vstd::bytes::lemma_auto_spec_u64_to_from_le_bytes();
    assert(front.len() == 8 + header.length);
    assert forall|name: Seq<char>| #[trigger] tensor_named(read, name) == tensor_named(
        written,
        name,
    ) by {
        lemma_position(read.heads, name, 0);
        lemma_position(heads, name, 0);
        if position(heads, name, 0) is Some {
            let k = position(heads, name, 0)->0;
            assert(heads[k].name == name);
            assert(header.tensors.contains_key(name));
            let i = choose|i: int|
                0 <= i < read.heads.len() && #[trigger] read.heads[i].name == name;
            assert(read.heads[i].name == name);
            let j = position(read.heads, name, 0)->0;
            let chosen = choose|i: int| 0 <= i < heads.len() && #[trigger] heads[i].name == name;
            assert(heads[chosen].name == heads[k].name);
            assert(chosen == k);
            assert(describes(bytes, header, read.heads[j], read.data[j]));
            lemma_data_part(heads, written.data, heads.len() as int, k);
            assert(written.data.take(heads.len() as int) =~= written.data);
            let all = concatenated(written.data);
            assert(bytes.subrange(
                8int + header.length + offset(heads, k),
                8int + header.length + offset(heads, k + 1),
            ) =~= all.subrange(offset(heads, k) as int, offset(heads, k + 1) as int));
            assert(read.heads[j].name == heads[k].name);
        } else if position(read.heads, name, 0) is Some {
            let j = position(read.heads, name, 0)->0;
            assert(header.tensors.contains_key(read.heads[j].name));
            let k = choose|k: int| 0 <= k < heads.len() && #[trigger] heads[k].name == name;
            assert(heads[k].name == name);
        }
    }
    if written.notes is Some {
        let a = read.notes->0;
        let b = written.notes->0;
        let map = header.notes->0;
        assert forall|name: Seq<char>| #[trigger] value_of(a, name) == value_of(b, name) by {
            assert(map.contains_key(name) <==> value_of(b, name) is Some);
        }
        lemma_same_rows(a, b);
    }
}

/// What is said of a file whose header cannot be read begins with this.
pub open spec fn unreadable() -> Seq<char> {
    "failed to parse safetensors header: "@
}

/// Whether a fault says that the header of a file cannot be read.
pub open spec fn header_unreadable(fault: Fault) -> bool {
    fault matches Fault::Safetensors(text) && unreadable().is_prefix_of(text)
}

/// Whether a fault gives the reason for which `read_metadata` refuses a file, in the words of the
/// error that it gives.
pub closed spec fn refused(bytes: &[u8], fault: Fault) -> bool {
    exists|error: safetensors::SafeTensorError, text: String| #[trigger]
        call_ensures(read_header, (bytes,), Err(error)) && #[trigger] call_ensures(
            error_text,
            (&error,),
            text,
        ) && fault == Fault::Safetensors(unreadable() + text@)
}

/// Whether a fault says that a file cannot be read, and why: its data would end where it cannot be
/// counted, or `read_metadata` refuses it.
pub open spec fn open_failed(bytes: &[u8], fault: Fault) -> bool {
    &&& header_unreadable(fault)
    &&& if oversized(bytes@) {
        fault == Fault::Safetensors(unreadable() + "MetadataIncompleteBuffer"@)
    } else {
        header_of(bytes@) is None && refused(bytes, fault)
    }
}

/// The error for a file whose header cannot be read.
fn unreadable_error(reason: &str) -> (r: SurgeryError)
    ensures
        r@ == Fault::Safetensors(unreadable() + reason@),
        header_unreadable(r@),
{
    let mut text = String::new();
    text.append("failed to parse safetensors header: ");
    text.append(reason);
    proof {
        assert(text@ =~= unreadable() + reason@);
        assert(text@.subrange(0, unreadable().len() as int) =~= unreadable());
    }
    SurgeryError::Safetensors(text)
}

/// Whether a tensor of a header ends no earlier than it starts, with as many bytes as its shape and
/// its element type ask for.
fn is_well_sized(row: &HeaderRow) -> (r: bool)
    ensures
        forall|entry: Entry| #[trigger] row_matches(*row, entry) ==> r == well_sized(entry),
{
    let dtype = match dtype_named(row.dtype.as_str()) {
        Some(dtype) => dtype,
        None => {
            return false;
        },
    };
    proof {
        assert forall|entry: Entry| #[trigger] row_matches(*row, entry) implies entry.dtype
            == dtype by {
            lemma_dtype_names_differ(entry.dtype, dtype);
        }
    }
    if row.end < row.start {
        return false;
    }
    match checked_elements(row.shape.as_slice()) {
        Some(count) => match count.checked_mul(element_size(dtype)) {
            Some(size) => size == row.end - row.start,
            None => false,
        },
        None => false,
    }
}

/// Whether the tensors of a header have the sizes that they ask for and follow each other from the
/// start of the data.
fn are_seamless(rows: &Vec<HeaderRow>, tensors: Ghost<Map<Seq<char>, Entry>>) -> (r: bool)
    requires
        rows_match(rows@, tensors@),
    ensures
        r == seamless(tensors@),
{
    for i in 0..rows.len()
        invariant
            rows_match(rows@, tensors@),
            forall|k: int|
                0 <= k < i ==> well_sized(tensors@[#[trigger] rows@[k].name@]) && adjoins(
                    tensors@,
                    tensors@[rows@[k].name@],
                ),
            forall|k: int, m: int|
                0 <= k < i && 0 <= m < rows@.len() && m != k ==> apart(
                    tensors@[#[trigger] rows@[k].name@],
                    tensors@[#[trigger] rows@[m].name@],
                ),
    {
        let row = &rows[i];
        let ghost entry = tensors@[row.name@];
        assert(tensors@.contains_key(rows@[i as int].name@));
        assert(row_matches(*row, entry));
        if !is_well_sized(row) {
            return false;
        }
        let mut found = row.start == 0;
        for m in 0..rows.len()
            invariant
                rows_match(rows@, tensors@),
                i < rows@.len(),
                *row == rows@[i as int],
                entry == tensors@[row.name@],
                row_matches(*row, entry),
                found ==> adjoins(tensors@, entry),
                !found ==> entry.start != 0 && forall|k: int|
                    0 <= k < m ==> !(tensors@[#[trigger] rows@[k].name@].start < entry.start
                        && tensors@[rows@[k].name@].end == entry.start),
                forall|k: int|
                    0 <= k < m && k != i ==> apart(entry, tensors@[#[trigger] rows@[k].name@]),
        {
            let other = &rows[m];
            assert(tensors@.contains_key(rows@[m as int].name@));
            if m != i && row.end > other.start && other.end > row.start {
                proof {
                    if i < m {
                        assert(rows@[i as int].name@ != rows@[m as int].name@);
                    } else {
                        assert(rows@[m as int].name@ != rows@[i as int].name@);
                    }
                    assert(!apart(tensors@[row.name@], tensors@[other.name@]));
                }
                return false;
            }
            if other.end == row.start && other.start < row.start {
                found = true;
            }
        }
        if !found {
            proof {
                if adjoins(tensors@, entry) {
                    let name = choose|name: Seq<char>| #[trigger]
                        tensors@.contains_key(name) && tensors@[name].start < entry.start
                            && tensors@[name].end == entry.start;
                    let k = choose|k: int|
                        0 <= k < rows@.len() && #[trigger] rows@[k].name@ == name;
                    assert(rows@[k].name@ == name);
                }
            }
            return false;
        }
    }
    proof {
        assert forall|name: Seq<char>| #[trigger] tensors@.contains_key(name) implies well_sized(
            tensors@[name],
        ) && adjoins(tensors@, tensors@[name]) by {
            let k = choose|k: int| 0 <= k < rows@.len() && #[trigger] rows@[k].name@ == name;
            assert(well_sized(tensors@[rows@[k].name@]));
        }
        assert forall|a: Seq<char>, b: Seq<char>| #[trigger]
            tensors@.contains_key(a) && #[trigger] tensors@.contains_key(b) && a
                != b implies apart(tensors@[a], tensors@[b]) by {
            let k = choose|k: int| 0 <= k < rows@.len() && #[trigger] rows@[k].name@ == a;
            let m = choose|m: int| 0 <= m < rows@.len() && #[trigger] rows@[m].name@ == b;
            assert(apart(tensors@[rows@[k].name@], tensors@[rows@[m].name@]));
        }
    }
    true
}

/// Whether a file declares tensors that follow each other, one of which ends where it cannot be
/// counted from the start of the file.
fn is_oversized(bytes: &[u8]) -> (r: bool)
    ensures
        r == oversized(bytes@),
        r ==> forall|contents: Contents| #[trigger] file_bytes(contents) == bytes@ ==> !writable(
            contents,
        ),
{
    let count: usize = bytes.len();
    if count < 8 {
        return false;
    }
    let length: u64 = u64_from_le_bytes(slice_subrange(bytes, 0, 8));
    if length > (count - 8) as u64 || length > MAX_HEADER_SIZE as u64 {
        return false;
    }
    let length: usize = length as usize;
    let header = slice_subrange(bytes, 8, 8 + length);
    let rows = match declared_rows(header) {
        Some(rows) => rows,
        None => {
            return false;
        },
    };
    let ghost tensors = declared(header@)->0;
    let limit: usize = usize::MAX - 8 - length;
    for i in 0..rows.len()
        invariant
            has_header(bytes@),
            length == declared_length(bytes@) <= MAX_HEADER_SIZE,
            8 + length <= count == bytes@.len(),
            header@ == bytes@.subrange(8, 8 + length),
            limit == usize::MAX - 8 - length,
            declared(header@) == Some(tensors),
            rows_match(rows@, tensors),
            forall|k: int| 0 <= k < i ==> tensors[#[trigger] rows@[k].name@].end <= limit,
            forall|contents: Contents|
                writable(contents) && total_size(contents.heads) <= usize::MAX
                    && #[trigger] header_bytes(contents.heads, contents.notes)
                    == header@ ==> forall|i: int|
                    0 <= i < rows@.len() ==> (#[trigger] rows@[i]).end <= total_size(
                        contents.heads,
                    ),
    {
        let row = &rows[i];
        assert(tensors.contains_key(rows@[i as int].name@));
        if row.end > limit {
            if !are_seamless(&rows, Ghost(tensors)) {
                return false;
            }
            proof {
                assert(tensors.contains_key(row.name@));
                assert(tensors[row.name@].end + 8 + declared_length(bytes@) > usize::MAX);
                assert forall|contents: Contents| #[trigger]
                    file_bytes(contents) == bytes@ implies !writable(contents) by {
                    if writable(contents) {
                        lemma_written_parts(contents);
                        assert(header_bytes(contents.heads, contents.notes) =~= header@);
                        assert(rows@[i as int].end <= total_size(contents.heads));
                    }
                }
            }
            return true;
        }
    }
    proof {
        assert forall|name: Seq<char>| #[trigger]
            tensors.contains_key(name) implies tensors[name].end + 8 + length <= usize::MAX by {
            let k = choose|k: int| 0 <= k < rows@.len() && #[trigger] rows@[k].name@ == name;
            assert(tensors[rows@[k].name@].end <= limit);
        }
    }
    false
}

/// The length, the header and the data of a file that was written.
proof fn lemma_written_parts(contents: Contents)
    requires
        writable(contents),
    ensures
        ({
            let bytes = file_bytes(contents);
            let header = header_bytes(contents.heads, contents.notes);
            &&& bytes.len() == 8 + header.len() + total_size(contents.heads)
            &&& declared_length(bytes) == header.len()
            &&& bytes.subrange(8, 8 + header.len() as int) == header
        }),
{
    let bytes = file_bytes(contents);
    let header = header_bytes(contents.heads, contents.notes);
    vstd::bytes::lemma_auto_spec_u64_to_from_le_bytes();
    let length = spec_u64_to_le_bytes(header.len() as u64);
    assert(bytes.subrange(0, 8) =~= length);
    assert(bytes.subrange(8, 8 + header.len() as int) =~= header);
    let count = contents.heads.len() as int;
    if count > 0 {
        lemma_data_part(contents.heads, contents.data, count, 0);
    }
    assert(contents.data.take(count) =~= contents.data);
}

impl<'a> MappedSafetensors<'a> {
    #[verifier::type_invariant]
    spec fn within(self) -> bool {
        &&& forall|i: int|
            0 <= i < self.tensors@.len() ==> info_sound(
                heads_of(self.tensors@)[i],
                (#[trigger] self.tensors@[i]).1,
                self.bytes@.len(),
            )
        &&& forall|i: int, j: int|
            0 <= i < j < self.tensors@.len() ==> (#[trigger] self.tensors@[i]).0@ != (
            #[trigger] self.tensors@[j]).0@
        &&& total_size(heads_of(self.tensors@)) <= usize::MAX
        &&& self.notes matches Some(notes) ==> ascending(notes.rows())
    }

    /// The bytes of the file.
    pub closed spec fn bytes(&self) -> Seq<u8> {
        self.bytes@
    }

    /// Where the data of the tensors start and end in the file.
    pub closed spec fn places(&self) -> Seq<(usize, usize)> {
        places_of(self.tensors@)
    }

    /// Reads the header of a file. A file that was written with some contents is read as having
    /// them.
    pub fn open(bytes: &'a [u8]) -> (r: Result<MappedSafetensors<'a>>)
        ensures
            match r {
                Ok(file) => file.bytes() == bytes@ && !oversized(bytes@) && header_of(
                    bytes@,
                ) is Some && lists(
                    bytes@,
                    header_of(bytes@)->0,
                    file@,
                ) && located(header_of(bytes@)->0, file@.heads, file.places()) && sound(file@)
                    && 8 + (header_of(bytes@)->0).length + total_size(file@.heads)
                    == bytes@.len(),
                Err(error) => open_failed(bytes, error@),
            },
            forall|written: Contents|
                writable(written) && #[trigger] file_bytes(written) == bytes@ ==> r is Ok
                    && same_contents(r->Ok_0@, written) && lists(
                    bytes@,
                    written_header(written),
                    r->Ok_0@,
                ),
    {
        if is_oversized(bytes) {
            return Err(unreadable_error("MetadataIncompleteBuffer"));
        }
        let raw = match read_header(bytes) {
            Ok(raw) => raw,
            Err(error) => {
                let text = error_text(&error);
                let unreadable = unreadable_error(text.as_str());
                assert(refused(bytes, unreadable@));
                return Err(unreadable);
            },
        };
        let ghost whole = raw;
        let file = MappedSafetensors::from_header(bytes, raw);
        proof {
            assert(raw_matches(whole, header_of(bytes@)));
            assert forall|written: Contents|
                writable(written) && #[trigger] file_bytes(written)
                    == bytes@ implies same_contents(file@, written) && lists(
                bytes@,
                written_header(written),
                file@,
            ) by {
                assert(raw_matches(whole, Some(written_header(written))));
                law_written_file_describes_its_contents(bytes@, written, file@);
            }
        }
        Ok(file)
    }

    /// A file with the tensors of a header that was read from it, ordered by where their data
    /// start.
    pub fn from_header(bytes: &'a [u8], raw: RawHeader) -> (r: MappedSafetensors<'a>)
        requires
            raw_sound(raw, bytes@),
        ensures
            r.bytes() == bytes@,
            forall|header: Header| #[trigger]
                raw_matches(raw, Some(header)) ==> lists(bytes@, header, r@) && located(
                    header,
                    r@.heads,
                    r.places(),
                ),
            sound(r@),
            8 + raw.length + total_size(r@.heads) == bytes@.len(),
    {
        let count: usize = bytes.len();
        let ghost whole = raw;
        let tensors = tensors_of(raw.rows, 8 + raw.length, count);
        let notes = match raw.notes {
            Some(pairs) => Some(notes_rows(pairs)),
            None => None,
        };
        let file = MappedSafetensors { bytes, tensors, notes };
        proof {
            assert(notes_listed(whole.notes, notes));
            lemma_sound(file);
            assert forall|header: Header| #[trigger]
                raw_matches(whole, Some(header)) implies lists(bytes@, header, file@) && located(
                header,
                file@.heads,
                file.places(),
            ) by {
                lemma_lists(bytes@, whole, header, tensors@, notes);
            }
        }
        file
    }

    /// The number of tensors.
    pub fn len(&self) -> (r: usize)
        ensures
            r == self@.heads.len(),
            sound(self@),
    {
        proof {
            use_type_invariant(self);
            lemma_sound(*self);
        }
        self.tensors.len()
    }

    /// The bytes that the tensors take together.
    pub fn data_size(&self) -> (r: usize)
        ensures
            r == total_size(self@.heads),
    {
        proof {
            use_type_invariant(self);
            lemma_sound(*self);
        }
        let mut r: usize = 0;
        for i in 0..self.tensors.len()
            invariant
                sound(self@),
                self@.heads.len() == self.tensors@.len(),
                r == offset(self@.heads, i as int),
                forall|k: int|
                    0 <= k < self.tensors@.len() ==> info_sound(
                        self@.heads[k],
                        (#[trigger] self.tensors@[k]).1,
                        self.bytes@.len(),
                    ),
        {
            proof {
                lemma_offset_within(self@.heads, i + 1, self@.heads.len() as int);
                assert(info_sound(
                    self@.heads[i as int],
                    self.tensors@[i as int].1,
                    self.bytes@.len(),
                ));
            }
            let info = &self.tensors[i].1;
            r = r + (info.data_end - info.data_start);
        }
        r
    }

    /// The name of the tensor at a place.
    pub fn name(&self, i: usize) -> (r: &String)
        requires
            i < self@.heads.len(),
        ensures
            r@ == self@.heads[i as int].name,
    {
        &self.tensors[i].0
    }

    /// What the header says of the tensor at a place.
    pub fn info(&self, i: usize) -> (r: &TensorInfo)
        requires
            i < self@.heads.len(),
        ensures
            r.dtype == self@.heads[i as int].dtype,
            r.shape@ == self@.heads[i as int].shape,
            (r.data_start, r.data_end) == self.places()[i as int],
            r.data_start <= r.data_end <= self.bytes().len(),
            self.bytes().subrange(r.data_start as int, r.data_end as int) == self@.data[i as int],
    {
        proof {
            use_type_invariant(self);
            assert(info_sound(
                heads_of(self.tensors@)[i as int],
                self.tensors@[i as int].1,
                self.bytes@.len(),
            ));
        }
        &self.tensors[i].1
    }

    /// The data of the tensor at a place.
    pub fn data(&self, i: usize) -> (r: &'a [u8])
        requires
            i < self@.heads.len(),
        ensures
            r@ == self@.data[i as int],
    {
        proof {
            use_type_invariant(self);
            assert(info_sound(
                heads_of(self.tensors@)[i as int],
                self.tensors@[i as int].1,
                self.bytes@.len(),
            ));
        }
        let info = &self.tensors[i].1;
        slice_subrange(self.bytes, info.data_start, info.data_end)
    }

    /// The place of the tensor of a name.
    fn place_of(&self, name: &str) -> (r: Result<usize>)
        ensures
            match r {
                Ok(i) => position(self@.heads, name@, 0) == Some(i as int) && i
                    < self@.heads.len(),
                Err(error) => position(self@.heads, name@, 0) is None && error@ == not_found(
                    name@,
                ),
            },
    {
        for i in 0..self.tensors.len()
            invariant
                position(self@.heads, name@, 0) == position(self@.heads, name@, i as int),
        {
            if same_text(self.tensors[i].0.as_str(), name) {
                return Ok(i);
            }
        }
        Err(
            SurgeryError::TensorNotFound { name: name.to_owned(), location: "file".to_owned() },
        )
    }

    /// The data of the tensor of a name.
    pub fn tensor_data(&self, name: &str) -> (r: Result<&'a [u8]>)
        ensures
            match r {
                Ok(data) => tensor_named(self@, name@) matches Some(tensor) && data@ == tensor.1,
                Err(error) => tensor_named(self@, name@) is None && error@ == not_found(name@),
            },
    {
        match self.place_of(name) {
            Ok(i) => Ok(self.data(i)),
            Err(error) => Err(error),
        }
    }

    /// What the header says of the tensor of a name.
    pub fn tensor_info(&self, name: &str) -> (r: Result<&TensorInfo>)
        ensures
            match r {
                Ok(info) => tensor_named(self@, name@) matches Some(tensor) && info.dtype
                    == tensor.0.dtype && info.shape@ == tensor.0.shape && (
                info.data_start,
                info.data_end,
                ) == self.places()[position(self@.heads, name@, 0)->0] && info.data_start
                    <= info.data_end <= self.bytes().len() && self.bytes().subrange(
                    info.data_start as int,
                    info.data_end as int,
                ) == tensor.1,
                Err(error) => tensor_named(self@, name@) is None && error@ == not_found(name@),
            },
    {
        match self.place_of(name) {
            Ok(i) => Ok(self.info(i)),
            Err(error) => Err(error),
        }
    }

    /// The header for an output with the same tensors and notes, framed by its length.
    pub(crate) fn output_preamble(&self) -> (r: Result<Vec<u8>>)
        ensures
            match r {
                Ok(bytes) => header_fault(self@.heads, 0) is None && bytes@ == preamble(
                    self@.heads,
                    self@.notes,
                ),
                Err(error) => header_fault(self@.heads, 0) == Some(error@),
            },
    {
        proof {
            use_type_invariant(self);
            lemma_sound(*self);
        }
        match build_output_header(&self.tensors, &self.notes) {
            Ok((header, _)) => Ok(framed(&header)),
            Err(error) => Err(error),
        }
    }
}

/// The contents of every file are sound.
proof fn lemma_sound(file: MappedSafetensors)
    requires
        file.within(),
    ensures
        sound(file@),
{
    let heads = file@.heads;
    assert forall|i: int| 0 <= i < heads.len() implies sizable(#[trigger] heads[i])
        && file@.data[i].len() == size(heads[i]) && heads[i].name != notes_name() by {
        assert(info_sound(heads[i], file.tensors@[i].1, file.bytes@.len()));
    }
    assert forall|i: int, j: int| 0 <= i < j < heads.len() implies #[trigger] heads[i].name
        != #[trigger] heads[j].name by {
        assert(file.tensors@[i].0@ != file.tensors@[j].0@);
    }
    if file.notes is Some {
        lemma_text_rows_value(file.notes->0.rows(), Seq::empty());
    }
}

} // verus!
