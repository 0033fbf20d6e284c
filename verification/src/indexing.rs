//! What the index of a sharded model holds and how it is written, and where a base model is found.

use crate::error::{Fault, IoErrorKind, Result, SurgeryError};
use crate::json::{json_string, members, quoted_rows};
use crate::shard::{
    index_text, resolve_base_model, rows_for, BaseModelSource, PathProbe, ShardStep, ShardedMerge,
};
use crate::sorted::{ascending, inserted, lemma_inserted_rows};
use crate::text::joined;
use vstd::prelude::*;

verus! {

/// Whether the pair at a place is the last of its name.
pub open spec fn last_of_its_name(pairs: Seq<(Seq<char>, Seq<char>)>, k: int) -> bool {
    &&& 0 <= k < pairs.len()
    &&& forall|l: int| k < l < pairs.len() ==> (#[trigger] pairs[l]).0 != pairs[k].0
}

/// The rows of an index are in order.
proof fn lemma_rows_ascend(pairs: Seq<(Seq<char>, Seq<char>)>)
    ensures
        ascending(rows_for(pairs)),
    decreases pairs.len(),
{
    if pairs.len() > 0 {
        lemma_rows_ascend(pairs.drop_last());
        lemma_inserted_rows(rows_for(pairs.drop_last()), pairs.last().0, pairs.last().1);
    }
}

/// The last pair of a name has its row.
proof fn lemma_last_pair_has_its_row(pairs: Seq<(Seq<char>, Seq<char>)>, k: int)
    requires
        last_of_its_name(pairs, k),
    ensures
        rows_for(pairs).contains(pairs[k]),
    decreases pairs.len(),
{
    let front = pairs.drop_last();
    let before = rows_for(front);
    let end = pairs.len() - 1;
    lemma_rows_ascend(front);
    lemma_inserted_rows(before, pairs[end].0, pairs[end].1);
    if k < end {
        assert(pairs[end].0 != pairs[k].0);
        assert forall|l: int| k < l < front.len() implies (#[trigger] front[l]).0
            != front[k].0 by {
            assert(pairs[l].0 != pairs[k].0);
        }
        lemma_last_pair_has_its_row(front, k);
        let i = choose|i: int| 0 <= i < before.len() && before[i] == front[k];
        assert(rows_for(pairs).contains(before[i]));
    }
}

/// A row that is not the one that was put among others was there, under another name.
proof fn lemma_other_row(
    rows: Seq<(Seq<char>, Seq<char>)>,
    name: Seq<char>,
    value: Seq<char>,
    row: (Seq<char>, Seq<char>),
)
    requires
        ascending(rows),
        inserted(rows, name, value).contains(row),
        row != (name, value),
    ensures
        rows.contains(row),
        row.0 != name,
{
    let more = inserted(rows, name, value);
    let j = choose|j: int| 0 <= j < more.len() && more[j] == row;
    lemma_inserted_rows(rows, name, value);
    assert(more[j] == (name, value) || rows.contains(more[j]) && more[j].0 != name);
}

/// A row comes from the last pair of its name.
proof fn lemma_row_is_a_last_pair(
    pairs: Seq<(Seq<char>, Seq<char>)>,
    row: (Seq<char>, Seq<char>),
) -> (k: int)
    requires
        rows_for(pairs).contains(row),
    ensures
        last_of_its_name(pairs, k),
        pairs[k] == row,
    decreases pairs.len(),
{
    let front = pairs.drop_last();
    let end = pairs.len() - 1;
    if row == pairs[end] {
        end
    } else {
        lemma_rows_ascend(front);
        lemma_other_row(rows_for(front), pairs[end].0, pairs[end].1, row);
        let k = lemma_row_is_a_last_pair(front, row);
        assert forall|l: int| k < l < pairs.len() implies (#[trigger] pairs[l]).0
            != pairs[k].0 by {
            if l < end {
                assert(front[l].0 != front[k].0);
            }
        }
        k
    }
}

/// The rows of an index are the pairs of the weight map in ascending order of the names, and of two
/// pairs with one name the later.
pub proof fn law_index_has_the_last_pair_of_each_name(pairs: Seq<(Seq<char>, Seq<char>)>)
    ensures
        ascending(rows_for(pairs)),
        forall|k: int| #[trigger]
            last_of_its_name(pairs, k) ==> rows_for(pairs).contains(pairs[k]),
        forall|row: (Seq<char>, Seq<char>)| #[trigger]
            rows_for(pairs).contains(row) ==> exists|k: int| #[trigger]
                last_of_its_name(pairs, k) && pairs[k] == row,
{
    lemma_rows_ascend(pairs);
    assert forall|k: int| #[trigger] last_of_its_name(pairs, k) implies rows_for(pairs).contains(
        pairs[k],
    ) by {
        lemma_last_pair_has_its_row(pairs, k);
    }
    assert forall|row: (Seq<char>, Seq<char>)| #[trigger]
        rows_for(pairs).contains(row) implies exists|k: int| #[trigger]
        last_of_its_name(pairs, k) && pairs[k] == row by {
        let k = lemma_row_is_a_last_pair(pairs, row);
        assert(last_of_its_name(pairs, k));
    }
}

/// The text of an index with one row holds its name and its file, each as a JSON string, in the
/// weight map, and one more row stands behind a comma on a line of its own.
pub proof fn law_index_text_takes_one_more_row(
    rows: Seq<(Seq<char>, Seq<char>)>,
    name: Seq<char>,
    file: Seq<char>,
)
    ensures
        ({
            let row = json_string(name) + ": "@ + json_string(file);
            let end = "\n  }\n}"@;
            let text = index_text(rows);
            let more = index_text(rows.push((name, file)));
            if rows.len() == 0 {
                more == "{\n  \"metadata\": {},\n  \"weight_map\": {\n    "@ + row + end
            } else {
                more == text.take(text.len() - end.len()) + ",\n    "@ + row + end
            }
        }),
{
    let row = json_string(name) + ": "@ + json_string(file);
    let end = "\n  }\n}"@;
    let start = "{\n  \"metadata\": {},\n  \"weight_map\": {\n    "@;
    let some = members(quoted_rows(rows), ": "@);
    let all = members(quoted_rows(rows.push((name, file))), ": "@);
    assert(all.drop_last() =~= some);
    assert(all.last() == row);
    let text = index_text(rows);
    let more = index_text(rows.push((name, file)));
    if rows.len() == 0 {
        assert(joined(all, ",\n    "@) == row);
        assert(more =~= start + row + end);
    } else {
        assert(joined(all, ",\n    "@) == joined(some, ",\n    "@) + ",\n    "@ + row);
        assert(text.take(text.len() - end.len()) =~= start + joined(some, ",\n    "@));
        assert(more =~= text.take(text.len() - end.len()) + ",\n    "@ + row + end);
    }
}

/// A path to a file is the base model. Else, in a directory, `model.safetensors` is it, whether or
/// not there is an index, and the index only if that is missing. Else nothing is found, and it is
/// said of which path.
pub proof fn law_base_model_is_found(path: &str, probe: PathProbe, r: Result<BaseModelSource>)
    requires
        call_ensures(resolve_base_model, (path, &probe), r),
    ensures
        r == Ok::<BaseModelSource, SurgeryError>(BaseModelSource::SingleFile)
            <==> probe.is_file,
        r == Ok::<BaseModelSource, SurgeryError>(BaseModelSource::DirectoryFile)
            <==> !probe.is_file && probe.is_dir && probe.has_model,
        r == Ok::<BaseModelSource, SurgeryError>(BaseModelSource::Sharded)
            <==> !probe.is_file && probe.is_dir && !probe.has_model && probe.has_index,
        r matches Err(error) ==> error@ matches Fault::Io { kind, message } && kind
            == IoErrorKind::NotFound && exists|before: Seq<char>, after: Seq<char>|
            message == #[trigger] (before + path@ + after),
{
}

/// A merge of a sharded model surveys all files before it maps the names, and maps the names before
/// it writes files, which it does until all are written. Files are surveyed and written in the
/// order in which they stand.
pub proof fn law_files_are_surveyed_before_they_are_written(
    merge: &ShardedMerge,
    r: ShardStep<'_>,
)
    requires
        call_ensures(ShardedMerge::next_step, (merge,), r),
        0 <= merge.surveyed() <= merge.filenames().len(),
        0 <= merge.written() <= merge.filenames().len(),
    ensures
        r is Survey <==> merge.surveyed() < merge.filenames().len(),
        r matches ShardStep::Survey(file) ==> file@ == merge.filenames()[merge.surveyed()],
        r is Write ==> merge.mapping() is Some && merge.surveyed() == merge.filenames().len(),
        r matches ShardStep::Write(file) ==> file@ == merge.filenames()[merge.written()],
        r is Finish ==> merge.written() == merge.filenames().len() && merge.mapping() is Some,
        r is MapNames <==> merge.surveyed() == merge.filenames().len() && merge.mapping() is None,
{
}

} // verus!
