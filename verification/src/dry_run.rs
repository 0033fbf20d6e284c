//! A look at a merge before it is done.

use crate::config::{AdapterConfig, Settings};
use crate::error::Result;
use crate::header::{concatenated, total_size, Contents};
use crate::io::{
    actions_of, faultless, forewarned, law_output_has_the_size_of_the_base, map_names,
    mapping_fault, merge_task, names_of, opened, outputs, replacement_fits, tensor_names,
    unreadable_file,
};
use crate::mapped::{open_failed, sound, MappedSafetensors};
use crate::names::maps_names;
use crate::numerics::Numerics;
use crate::process::{lemma_mapped_plan, plan_for, planned_action, Plan};
use crate::sink::{tell, Sink};
use crate::stats::{apply_action, law_counts_add_up, tallies, times, MergeStats, TensorAction};
use crate::text::plain;
use vstd::prelude::*;

verus! {

/// Pre-merge analysis returned by [`dry_run_info`].
#[derive(Clone, Copy, PartialEq, Eq, Structural, Debug)]
pub struct DryRunInfo {
    pub base_tensor_count: usize,
    pub lora_target_count: usize,
    pub replacement_count: usize,
    pub bias_merge_count: usize,
    pub passthrough_count: usize,
    pub estimated_output_bytes: u64,
    pub is_sharded: bool,
    pub shard_count: usize,
}

/// The names of the tensors of several files, file by file.
pub open spec fn all_names(files: Seq<Contents>) -> Seq<Seq<char>>
    decreases files.len(),
{
    if files.len() == 0 {
        Seq::empty()
    } else {
        all_names(files.drop_last()) + names_of(files.last().heads)
    }
}

/// The bytes that the tensors of several files take together.
pub open spec fn all_sizes(files: Seq<Contents>) -> nat
    decreases files.len(),
{
    if files.len() == 0 {
        0
    } else {
        all_sizes(files.drop_last()) + total_size(files.last().heads)
    }
}

/// What is to be done with the tensors of a base model.
pub open spec fn name_plans<T>(
    names: Seq<Seq<char>>,
    adapter: Contents,
    settings: Settings<T>,
) -> Seq<Plan> {
    Seq::new(
        names.len(),
        |i: int| plan_for(names, names_of(adapter.heads), settings, names[i]),
    )
}

/// Whether an analysis is that of merging an adapter into a base model of these files.
pub open spec fn predicts<T>(
    info: DryRunInfo,
    files: Seq<Contents>,
    adapter: Contents,
    settings: Settings<T>,
    is_sharded: bool,
) -> bool {
    let actions = actions_of(name_plans(all_names(files), adapter, settings));
    &&& info.base_tensor_count == actions.len()
    &&& info.lora_target_count == times(actions, TensorAction::Merged)
    &&& info.replacement_count == times(actions, TensorAction::Replaced)
    &&& info.bias_merge_count == times(actions, TensorAction::BiasMerged)
    &&& info.passthrough_count == times(actions, TensorAction::Copied)
    &&& info.estimated_output_bytes == all_sizes(files)
    &&& info.is_sharded == is_sharded
    &&& info.shard_count == files.len()
}

/// What comes of looking at a merge. The sink is told of what would be skipped, and nothing else
/// happens to it. It fails if the names cannot be mapped.
pub open spec fn dry_run_result<T, S: Sink>(
    files: Seq<Contents>,
    adapter: Contents,
    settings: Settings<T>,
    is_sharded: bool,
    writer: S,
    r: (S, Result<DryRunInfo>),
) -> bool {
    let fault = mapping_fault(all_names(files), names_of(adapter.heads), settings);
    &&& forewarned(all_names(files), names_of(adapter.heads), writer, r.0)
    &&& match r.1 {
        Ok(info) => fault is None && predicts(info, files, adapter, settings, is_sharded),
        Err(error) => fault == Some(error@),
    }
}

/// What several files in memory hold.
pub open spec fn contents_of(files: Seq<MappedSafetensors>) -> Seq<Contents> {
    Seq::new(files.len(), |i: int| files[i]@)
}

/// The counts of an analysis add up to the number of base tensors.
pub proof fn law_dry_run_counts_add_up<T>(
    info: DryRunInfo,
    files: Seq<Contents>,
    adapter: Contents,
    settings: Settings<T>,
    is_sharded: bool,
)
    requires
        predicts(info, files, adapter, settings, is_sharded),
    ensures
        info.lora_target_count + info.replacement_count + info.bias_merge_count
            + info.passthrough_count == info.base_tensor_count,
{
    law_counts_add_up(actions_of(name_plans(all_names(files), adapter, settings)));
}

/// A merge does what the look at it said: its statistics are the counts of the analysis.
pub proof fn law_dry_run_predicts_merge<T>(
    info: DryRunInfo,
    stats: MergeStats,
    base: Contents,
    adapter: Contents,
    settings: Settings<T>,
    is_sharded: bool,
    low_memory: bool,
)
    requires
        predicts(info, seq![base], adapter, settings, is_sharded),
        tallies(stats, actions_of(merge_task(base, adapter, settings, low_memory).plans)),
    ensures
        stats.tensors_merged == info.lora_target_count,
        stats.tensors_replaced == info.replacement_count,
        stats.biases_merged == info.bias_merge_count,
        stats.tensors_copied == info.passthrough_count,
{
    let names = names_of(base.heads);
    assert(seq![base].drop_last() =~= Seq::<Contents>::empty());
    reveal_with_fuel(all_names, 2);
    assert(all_names(seq![base]) =~= names);
    assert(name_plans(names, adapter, settings) =~= merge_task(
        base,
        adapter,
        settings,
        low_memory,
    ).plans);
}

/// A merge writes as many bytes of data as the look at it estimated, if what replaces a tensor
/// fits.
pub proof fn law_dry_run_estimates_the_output<N: Numerics>(
    num: &N,
    info: DryRunInfo,
    base: Contents,
    adapter: Contents,
    settings: Settings<N::Single>,
    is_sharded: bool,
    low_memory: bool,
    out: Seq<Seq<u8>>,
)
    requires
        predicts(info, seq![base], adapter, settings, is_sharded),
        sound(base),
        ({
            let task = merge_task(base, adapter, settings, low_memory);
            &&& faultless(task)
            &&& outputs(num, task, out)
            &&& forall|i: int| 0 <= i < out.len() ==> #[trigger] replacement_fits(task, i)
        }),
    ensures
        info.estimated_output_bytes == concatenated(out).len(),
{
    assert(seq![base].drop_last() =~= Seq::<Contents>::empty());
    reveal_with_fuel(all_sizes, 2);
    law_output_has_the_size_of_the_base(
        num,
        merge_task(base, adapter, settings, low_memory),
        out,
    );
}

/// Looks at a merge of an adapter into the files of a base model, all in memory.
pub fn inspect<T, S: Sink>(
    files: &Vec<MappedSafetensors>,
    is_sharded: bool,
    adapter: &MappedSafetensors,
    config: &AdapterConfig<T>,
    writer: S,
) -> (r: (S, Result<DryRunInfo>))
    requires
        all_sizes(contents_of(files@)) <= u64::MAX,
    ensures
        dry_run_result(contents_of(files@), adapter@, config@, is_sharded, writer, r),
{
    let ghost contents = contents_of(files@);
    let ghost all = all_names(contents);
    let mut names: Vec<&str> = Vec::new();
    let mut bytes: u64 = 0;
    assert(plain(names@) =~= all_names(contents.take(0)));
    for i in 0..files.len()
        invariant
            contents == contents_of(files@),
            all_sizes(contents) <= u64::MAX,
            plain(names@) == all_names(contents.take(i as int)),
            bytes == all_sizes(contents.take(i as int)),
    {
        let file = &files[i];
        let mut more = tensor_names(file);
        let ghost before = names@;
        let ghost added = more@;
        names.append(&mut more);
        proof {
            assert(plain(names@) =~= plain(before) + plain(added));
            assert(contents.take(i + 1).drop_last() =~= contents.take(i as int));
            lemma_sizes_within(contents, i + 1);
        }
        bytes = bytes + file.data_size() as u64;
    }
    assert(contents.take(contents.len() as int) =~= contents);
    let adapter_names = tensor_names(adapter);
    let (warnings, mapping) = map_names(names.as_slice(), adapter_names.as_slice(), config);
    let sink = tell(&warnings, writer);
    let mapping = match mapping {
        Ok(mapping) => mapping,
        Err(error) => {
            return (sink, Err(error));
        },
    };
    let ghost plans = name_plans(all, adapter@, config@);
    let ghost actions = actions_of(plans);
    let mut stats = MergeStats::new();
    assert(actions.take(0) =~= Seq::empty());
    for i in 0..names.len()
        invariant
            plain(names@) == all,
            plans == name_plans(all, adapter@, config@),
            actions == actions_of(plans),
            maps_names(&mapping, all, names_of(adapter@.heads), config@.modules_to_save),
            tallies(stats, actions.take(i as int)),
    {
        let name: &str = names[i];
        let action = planned_action(&mapping, config.bias(), name);
        proof {
            assert(plain(names@)[i as int] == name@);
            lemma_mapped_plan(&mapping, all, names_of(adapter@.heads), config@, name@);
            assert(action == actions[i as int]);
            law_counts_add_up(actions.take(i as int));
            assert(actions.take(i as int).push(action) =~= actions.take(i + 1));
        }
        apply_action(&mut stats, action);
    }
    assert(actions.take(actions.len() as int) =~= actions);
    let info = DryRunInfo {
        base_tensor_count: names.len(),
        lora_target_count: stats.tensors_merged,
        replacement_count: stats.tensors_replaced,
        bias_merge_count: stats.biases_merged,
        passthrough_count: stats.tensors_copied,
        estimated_output_bytes: bytes,
        is_sharded,
        shard_count: files.len(),
    };
    (sink, Ok(info))
}

/// The sizes of some files are within those of all.
proof fn lemma_sizes_within(files: Seq<Contents>, count: int)
    requires
        0 <= count <= files.len(),
    ensures
        all_sizes(files.take(count)) <= all_sizes(files),
    decreases files.len() - count,
{
    if count < files.len() {
        lemma_sizes_within(files, count + 1);
        assert(files.take(count + 1).drop_last() =~= files.take(count));
    } else {
        assert(files.take(count) =~= files);
    }
}

/// The bytes of several files.
pub open spec fn all_lengths(files: Seq<&[u8]>) -> nat
    decreases files.len(),
{
    if files.len() == 0 {
        0
    } else {
        all_lengths(files.drop_last()) + files.last()@.len()
    }
}

/// Whether files can be read, with these contents.
pub open spec fn all_opened(files: Seq<&[u8]>, contents: Seq<Contents>) -> bool {
    &&& files.len() == contents.len()
    &&& forall|i: int| 0 <= i < files.len() ==> opened(files[i]@, #[trigger] contents[i])
}

/// Whether some of several files cannot be read.
pub open spec fn some_unreadable(files: Seq<&[u8]>) -> bool {
    exists|i: int| 0 <= i < files.len() && unreadable_file(#[trigger] files[i]@)
}

/// Whether a file is the first of several that cannot be read.
pub open spec fn first_unreadable(files: Seq<&[u8]>, i: int) -> bool {
    &&& unreadable_file(files[i]@)
    &&& forall|k: int| 0 <= k < i ==> !unreadable_file(#[trigger] files[k]@)
}

/// Inspects a base model and adapter without writing output. The base model is given by the
/// bytes of its files: one, or the shards in the order of their names. The sink is only told of
/// what would be skipped.
pub fn dry_run_info<T, S: Sink>(
    base_files: &[&[u8]],
    is_sharded: bool,
    adapter_weights: &[u8],
    config: &AdapterConfig<T>,
    writer: S,
) -> (r: (S, Result<DryRunInfo>))
    requires
        all_lengths(base_files@) <= u64::MAX,
    ensures
        some_unreadable(base_files@) ==> r.0 == writer && r.1 is Err && exists|i: int|
            0 <= i < base_files@.len() && first_unreadable(base_files@, i) && open_failed(
                #[trigger] base_files@[i],
                r.1->Err_0@,
            ),
        !some_unreadable(base_files@) && unreadable_file(adapter_weights@) ==> r.0 == writer
            && r.1 is Err && open_failed(adapter_weights, r.1->Err_0@),
        !some_unreadable(base_files@) && !unreadable_file(adapter_weights@) ==> exists|
            files: Seq<Contents>,
            adapter: Contents,
        | #[trigger]
            all_opened(base_files@, files) && #[trigger] opened(adapter_weights@, adapter)
                && dry_run_result(files, adapter, config@, is_sharded, writer, r),
{
    let mut files: Vec<MappedSafetensors> = Vec::new();
    for i in 0..base_files.len()
        invariant
            all_opened(base_files@.take(i as int), contents_of(files@)),
            all_sizes(contents_of(files@)) <= all_lengths(base_files@.take(i as int)),
            forall|k: int| 0 <= k < i ==> !unreadable_file(#[trigger] base_files@[k]@),
    {
        let file = match MappedSafetensors::open(base_files[i]) {
            Ok(file) => file,
            Err(error) => {
                assert(first_unreadable(base_files@, i as int));
                return (writer, Err(error));
            },
        };
        let ghost before = contents_of(files@);
        let ghost some = base_files@.take(i as int);
        files.push(file);
        proof {
            let now = contents_of(files@);
            let more = base_files@.take(i + 1);
            assert(now =~= before.push(file@));
            assert(more =~= some.push(base_files@[i as int]));
            assert(now.drop_last() =~= before);
            assert(more.drop_last() =~= some);
            assert forall|k: int| 0 <= k < more.len() implies opened(
                more[k]@,
                #[trigger] now[k],
            ) by {
                if k < i {
                    assert(opened(some[k]@, before[k]));
                }
            }
        }
    }
    assert(base_files@.take(base_files@.len() as int) =~= base_files@);
    let adapter = match MappedSafetensors::open(adapter_weights) {
        Ok(adapter) => adapter,
        Err(error) => {
            return (writer, Err(error));
        },
    };
    proof {
        assert(all_opened(base_files@, contents_of(files@)));
        assert(opened(adapter_weights@, adapter@));
    }
    inspect(&files, is_sharded, &adapter, config, writer)
}

} // verus!
