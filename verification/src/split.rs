//! That a base model may be spread over several files.

use crate::config::Settings;
use crate::dry_run::{all_names, all_sizes, name_plans, predicts, DryRunInfo};
use crate::dtype::mergeable;
use crate::header::{concatenated, header_fault, Contents, Head};
use crate::io::{
    actions_of, fault_at, faultless, law_mapping_gives_each_tensor_its_plan,
    law_output_has_the_size_of_the_base, lemma_all_mergeable, mapped_task, mapping_fault,
    merge_task, names_of, outputs, plans_for, replacement_fits, Task,
};
use crate::mapped::{lemma_position, position, sound, tensor_named};
use crate::names::{
    listed, lora_pair_for, maps_names, names_module, some_target_matches, NameMapping,
};
use crate::numerics::Numerics;
use crate::process::{action_of, plan_for, tensor_output};
use crate::stats::{tallies, times, MergeStats, TensorAction};
use vstd::prelude::*;

verus! {

/// Whether files are a model that is spread over them: each tensor of the model is in one of them,
/// and nothing else is.
pub open spec fn splits(model: Contents, files: Seq<Contents>) -> bool {
    &&& all_names(files).no_duplicates()
    &&& forall|name: Seq<char>| #[trigger]
        listed(all_names(files), name) <==> listed(names_of(model.heads), name)
    &&& forall|f: int, j: int|
        0 <= f < files.len() && 0 <= j < files[f].heads.len() ==> holds(
            model,
            #[trigger] files[f].heads[j],
            files[f].data[j],
        )
}

/// Whether a model has a tensor with these data.
pub open spec fn holds(model: Contents, head: Head, data: Seq<u8>) -> bool {
    tensor_named(model, head.name) == Some((head, data))
}

/// The task of merging an adapter into one of the files of a base model.
pub open spec fn shard_task<T>(
    files: Seq<Contents>,
    f: int,
    adapter: Contents,
    settings: Settings<T>,
    low_memory: bool,
) -> Task<T> {
    Task {
        base: files[f],
        adapter,
        settings,
        plans: plans_for(all_names(files), files[f].heads, adapter, settings),
        low_memory,
    }
}

/// Merging a file by the mapping of the names of all files is the task of merging that file.
pub proof fn law_each_file_is_merged_by_all_names<T>(
    mapping: &NameMapping,
    files: Seq<Contents>,
    f: int,
    adapter: Contents,
    settings: Settings<T>,
    low_memory: bool,
)
    requires
        0 <= f < files.len(),
        maps_names(
            mapping,
            all_names(files),
            names_of(adapter.heads),
            settings.modules_to_save,
        ),
    ensures
        mapped_task(files[f], adapter, settings, mapping, low_memory) == shard_task(
            files,
            f,
            adapter,
            settings,
            low_memory,
        ),
{
    law_mapping_gives_each_tensor_its_plan(
        mapping,
        all_names(files),
        files[f],
        adapter,
        settings,
        low_memory,
    );
}

/// What is done with the tensors of the first `count` files of a base model.
pub open spec fn shard_actions<T>(
    files: Seq<Contents>,
    count: int,
    adapter: Contents,
    settings: Settings<T>,
) -> Seq<TensorAction>
    decreases count,
{
    if count <= 0 {
        Seq::empty()
    } else {
        shard_actions(files, count - 1, adapter, settings) + actions_of(
            plans_for(all_names(files), files[count - 1].heads, adapter, settings),
        )
    }
}

/// What is done with tensors of these names.
spec fn name_actions<T>(
    all: Seq<Seq<char>>,
    names: Seq<Seq<char>>,
    adapter: Contents,
    settings: Settings<T>,
) -> Seq<TensorAction> {
    Seq::new(
        names.len(),
        |i: int| action_of(plan_for(all, names_of(adapter.heads), settings, names[i])),
    )
}

/// What is done with the tensors of some files is what is done with the names.
proof fn lemma_shard_actions<T>(
    files: Seq<Contents>,
    count: int,
    adapter: Contents,
    settings: Settings<T>,
)
    requires
        0 <= count <= files.len(),
    ensures
        shard_actions(files, count, adapter, settings) == name_actions(
            all_names(files),
            all_names(files.take(count)),
            adapter,
            settings,
        ),
    decreases count,
{
    if count > 0 {
        lemma_shard_actions(files, count - 1, adapter, settings);
        assert(files.take(count).drop_last() =~= files.take(count - 1));
        assert(files.take(count).last() == files[count - 1]);
    }
    assert(shard_actions(files, count, adapter, settings) =~= name_actions(
        all_names(files),
        all_names(files.take(count)),
        adapter,
        settings,
    ));
}

/// The names of some files are those of their tensors.
proof fn lemma_listed_in_file(files: Seq<Contents>, name: Seq<char>)
    ensures
        listed(all_names(files), name) <==> exists|f: int, j: int|
            0 <= f < files.len() && 0 <= j < files[f].heads.len()
                && #[trigger] files[f].heads[j].name == name,
    decreases files.len(),
{
    let all = all_names(files);
    if files.len() > 0 {
        let front = files.drop_last();
        let last = files.last().heads;
        lemma_listed_in_file(front, name);
        if listed(all, name) {
            let k = choose|k: int| 0 <= k < all.len() && #[trigger] all[k] == name;
            let first = all_names(front);
            if k < first.len() {
                assert(first[k] == name);
                let (f, j) = choose|f: int, j: int|
                    0 <= f < front.len() && 0 <= j < front[f].heads.len()
                        && #[trigger] front[f].heads[j].name == name;
                assert(files[f].heads[j].name == name);
            } else {
                assert(files[files.len() - 1].heads[k - first.len()].name == name);
            }
        }
        if exists|f: int, j: int|
            0 <= f < files.len() && 0 <= j < files[f].heads.len()
                && #[trigger] files[f].heads[j].name == name {
            let (f, j) = choose|f: int, j: int|
                0 <= f < files.len() && 0 <= j < files[f].heads.len()
                    && #[trigger] files[f].heads[j].name == name;
            if f < front.len() {
                assert(front[f].heads[j].name == name);
                let k = choose|k: int|
                    0 <= k < all_names(front).len() && #[trigger] all_names(front)[k] == name;
                assert(all[k] == name);
            } else {
                assert(names_of(last)[j] == name);
                assert(all[all_names(front).len() + j] == name);
            }
        }
    }
}

/// Plans depend only on which names a base model has.
proof fn lemma_same_plan<T>(
    first: Seq<Seq<char>>,
    second: Seq<Seq<char>>,
    adapter: Seq<Seq<char>>,
    settings: Settings<T>,
    name: Seq<char>,
)
    requires
        listed(first, name) <==> listed(second, name),
    ensures
        plan_for(first, adapter, settings, name) == plan_for(second, adapter, settings, name),
        lora_pair_for(first, adapter, name) == lora_pair_for(second, adapter, name),
{
}

/// The names of a model that is spread over files can be mapped if and only if those of the model
/// in one file can, and if not, for the same reason: so a file without any target is no fault as
/// long as some other has one.
pub proof fn law_sharding_maps_the_same_names<T>(
    model: Contents,
    files: Seq<Contents>,
    adapter: Contents,
    settings: Settings<T>,
)
    requires
        splits(model, files),
    ensures
        mapping_fault(all_names(files), names_of(adapter.heads), settings) == mapping_fault(
            names_of(model.heads),
            names_of(adapter.heads),
            settings,
        ),
{
    let a = all_names(files);
    let b = names_of(model.heads);
    let adapter = names_of(adapter.heads);
    let modules = settings.target_modules;
    assert forall|name: Seq<char>| #[trigger] lora_pair_for(a, adapter, name) == lora_pair_for(
        b,
        adapter,
        name,
    ) by {
        assert(listed(a, name) <==> listed(b, name));
        lemma_same_plan(a, b, adapter, settings, name);
    }
    if some_target_matches(a, adapter, modules) {
        let name = choose|name: Seq<char>|
            (#[trigger] lora_pair_for(a, adapter, name)) is Some && names_module(name, modules);
        assert(lora_pair_for(b, adapter, name) is Some);
    }
    if some_target_matches(b, adapter, modules) {
        let name = choose|name: Seq<char>|
            (#[trigger] lora_pair_for(b, adapter, name)) is Some && names_module(name, modules);
        assert(lora_pair_for(a, adapter, name) is Some);
    }
}

/// A tensor of a model that is spread over files fails for the reason for which it fails in one
/// file, and what may be written for it is the same.
pub proof fn law_sharding_treats_a_tensor_the_same<N: Numerics>(
    num: &N,
    model: Contents,
    files: Seq<Contents>,
    adapter: Contents,
    settings: Settings<N::Single>,
    low_memory: bool,
    f: int,
    j: int,
    out: Seq<u8>,
)
    requires
        splits(model, files),
        0 <= f < files.len(),
        0 <= j < files[f].heads.len(),
    ensures
        ({
            let shard = shard_task(files, f, adapter, settings, low_memory);
            let whole = merge_task(model, adapter, settings, low_memory);
            let i = position(model.heads, files[f].heads[j].name, 0)->0;
            &&& 0 <= i < model.heads.len()
            &&& whole.base.heads[i] == shard.base.heads[j]
            &&& whole.base.data[i] == shard.base.data[j]
            &&& whole.plans[i] == shard.plans[j]
            &&& fault_at(whole, i) == fault_at(shard, j)
            &&& tensor_output(
                num,
                settings,
                low_memory,
                whole.plans[i],
                whole.base.heads[i],
                whole.base.data[i],
                adapter,
                out,
            ) <==> tensor_output(
                num,
                settings,
                low_memory,
                shard.plans[j],
                shard.base.heads[j],
                shard.base.data[j],
                adapter,
                out,
            )
        }),
{
    let name = files[f].heads[j].name;
    assert(holds(model, files[f].heads[j], files[f].data[j]));
    lemma_position(model.heads, name, 0);
    assert(listed(all_names(files), name) <==> listed(names_of(model.heads), name));
    lemma_same_plan(
        all_names(files),
        names_of(model.heads),
        names_of(adapter.heads),
        settings,
        name,
    );
}

/// A tensor of a model is in one of the files.
proof fn lemma_in_some_file(model: Contents, files: Seq<Contents>, i: int) -> (place: (int, int))
    requires
        sound(model),
        splits(model, files),
        0 <= i < model.heads.len(),
    ensures
        0 <= place.0 < files.len(),
        0 <= place.1 < files[place.0].heads.len(),
        files[place.0].heads[place.1].name == model.heads[i].name,
        position(model.heads, model.heads[i].name, 0) == Some(i),
{
    let name = model.heads[i].name;
    assert(names_of(model.heads)[i] == name);
    assert(listed(all_names(files), name));
    lemma_listed_in_file(files, name);
    lemma_position(model.heads, name, 0);
    let k = position(model.heads, name, 0)->0;
    assert(model.heads[k].name == model.heads[i].name);
    choose|f: int, j: int|
        0 <= f < files.len() && 0 <= j < files[f].heads.len()
            && #[trigger] files[f].heads[j].name == name
}

/// A header can be written if all its tensors are of types that are merged.
proof fn lemma_header_written(heads: Seq<Head>, from: int)
    requires
        0 <= from,
        forall|i: int| 0 <= i < heads.len() ==> mergeable((#[trigger] heads[i]).dtype),
    ensures
        header_fault(heads, from) is None,
    decreases heads.len() - from,
{
    if from < heads.len() {
        lemma_header_written(heads, from + 1);
    }
}

/// Nothing keeps the files that a model is spread over from being merged if and only if nothing
/// keeps the model in one file from it.
pub proof fn law_sharding_fails_no_more_and_no_less<N: Numerics>(
    num: &N,
    model: Contents,
    files: Seq<Contents>,
    adapter: Contents,
    settings: Settings<N::Single>,
    low_memory: bool,
)
    requires
        sound(model),
        splits(model, files),
    ensures
        (forall|f: int|
            0 <= f < files.len() ==> faultless(
                #[trigger] shard_task(files, f, adapter, settings, low_memory),
            )) <==> faultless(merge_task(model, adapter, settings, low_memory)),
{
    let whole = merge_task(model, adapter, settings, low_memory);
    if faultless(whole) {
        assert forall|f: int| 0 <= f < files.len() implies faultless(
            #[trigger] shard_task(files, f, adapter, settings, low_memory),
        ) by {
            let shard = shard_task(files, f, adapter, settings, low_memory);
            assert forall|j: int| 0 <= j < files[f].heads.len() implies mergeable(
                (#[trigger] files[f].heads[j]).dtype,
            ) && fault_at(shard, j) is None by {
                law_sharding_treats_a_tensor_the_same(
                    num,
                    model,
                    files,
                    adapter,
                    settings,
                    low_memory,
                    f,
                    j,
                    Seq::empty(),
                );
                let i = position(model.heads, files[f].heads[j].name, 0)->0;
                lemma_all_mergeable(model.heads, 0, i);
                assert(fault_at(whole, i) is None);
            }
            lemma_header_written(files[f].heads, 0);
            assert forall|j: int| 0 <= j < files[f].heads.len() implies (
            #[trigger] fault_at(shard, j)) is None by {
                assert(mergeable(files[f].heads[j].dtype));
            }
        }
    }
    if forall|f: int|
        0 <= f < files.len() ==> faultless(
            #[trigger] shard_task(files, f, adapter, settings, low_memory),
        ) {
        assert forall|i: int| 0 <= i < model.heads.len() implies mergeable(
            (#[trigger] model.heads[i]).dtype,
        ) && fault_at(whole, i) is None by {
            let (f, j) = lemma_in_some_file(model, files, i);
            let shard = shard_task(files, f, adapter, settings, low_memory);
            assert(faultless(shard));
            assert(fault_at(shard, j) is None);
            lemma_all_mergeable(files[f].heads, 0, j);
            law_sharding_treats_a_tensor_the_same(
                num,
                model,
                files,
                adapter,
                settings,
                low_memory,
                f,
                j,
                Seq::empty(),
            );
        }
        lemma_header_written(model.heads, 0);
        assert forall|i: int| 0 <= i < model.heads.len() implies (
        #[trigger] fault_at(whole, i)) is None by {
            assert(mergeable(model.heads[i].dtype));
        }
    }
}

/// Whether what was written for the tensors of some files is what was written for them in one.
pub open spec fn agree(
    model: Contents,
    files: Seq<Contents>,
    parts: Seq<Seq<Seq<u8>>>,
    whole: Seq<Seq<u8>>,
) -> bool {
    &&& parts.len() == files.len()
    &&& whole.len() == model.heads.len()
    &&& forall|f: int| 0 <= f < files.len() ==> (#[trigger] parts[f]).len() == files[f].heads.len()
    &&& forall|f: int, j: int|
        0 <= f < files.len() && 0 <= j < files[f].heads.len() ==> parts[f][j] == whole[position(
            model.heads,
            (#[trigger] files[f].heads[j]).name,
            0,
        )->0]
}

/// The files that a model is spread over may be written with some bytes for each tensor if and
/// only if the model in one file may be written with the same bytes for each.
pub proof fn law_sharding_writes_the_same_tensors<N: Numerics>(
    num: &N,
    model: Contents,
    files: Seq<Contents>,
    adapter: Contents,
    settings: Settings<N::Single>,
    low_memory: bool,
    parts: Seq<Seq<Seq<u8>>>,
    whole: Seq<Seq<u8>>,
)
    requires
        sound(model),
        splits(model, files),
        agree(model, files, parts, whole),
    ensures
        (forall|f: int|
            0 <= f < files.len() ==> outputs(
                num,
                #[trigger] shard_task(files, f, adapter, settings, low_memory),
                parts[f],
            )) <==> outputs(num, merge_task(model, adapter, settings, low_memory), whole),
{
    let task = merge_task(model, adapter, settings, low_memory);
    if outputs(num, task, whole) {
        assert forall|f: int| 0 <= f < files.len() implies outputs(
            num,
            #[trigger] shard_task(files, f, adapter, settings, low_memory),
            parts[f],
        ) by {
            let shard = shard_task(files, f, adapter, settings, low_memory);
            assert(parts[f].len() == files[f].heads.len());
            assert forall|j: int| 0 <= j < parts[f].len() implies #[trigger] tensor_output(
                num,
                shard.settings,
                shard.low_memory,
                shard.plans[j],
                shard.base.heads[j],
                shard.base.data[j],
                shard.adapter,
                parts[f][j],
            ) by {
                law_sharding_treats_a_tensor_the_same(
                    num,
                    model,
                    files,
                    adapter,
                    settings,
                    low_memory,
                    f,
                    j,
                    parts[f][j],
                );
                let i = position(model.heads, files[f].heads[j].name, 0)->0;
                assert(tensor_output(
                    num,
                    task.settings,
                    task.low_memory,
                    task.plans[i],
                    task.base.heads[i],
                    task.base.data[i],
                    task.adapter,
                    whole[i],
                ));
            }
        }
    }
    if forall|f: int|
        0 <= f < files.len() ==> outputs(
            num,
            #[trigger] shard_task(files, f, adapter, settings, low_memory),
            parts[f],
        ) {
        assert forall|i: int| 0 <= i < whole.len() implies #[trigger] tensor_output(
            num,
            task.settings,
            task.low_memory,
            task.plans[i],
            task.base.heads[i],
            task.base.data[i],
            task.adapter,
            whole[i],
        ) by {
            let (f, j) = lemma_in_some_file(model, files, i);
            let shard = shard_task(files, f, adapter, settings, low_memory);
            assert(outputs(num, shard, parts[f]));
            law_sharding_treats_a_tensor_the_same(
                num,
                model,
                files,
                adapter,
                settings,
                low_memory,
                f,
                j,
                parts[f][j],
            );
            assert(tensor_output(
                num,
                shard.settings,
                shard.low_memory,
                shard.plans[j],
                shard.base.heads[j],
                shard.base.data[j],
                shard.adapter,
                parts[f][j],
            ));
        }
    }
}

/// An action among others counts once.
proof fn lemma_times_remove(actions: Seq<TensorAction>, k: int, action: TensorAction)
    requires
        0 <= k < actions.len(),
    ensures
        times(actions, action) == times(actions.remove(k), action) + (if actions[k] == action {
            1nat
        } else {
            0nat
        }),
    decreases actions.len(),
{
    if k == actions.len() - 1 {
        assert(actions.remove(k) =~= actions.drop_last());
    } else {
        lemma_times_remove(actions.drop_last(), k, action);
        assert(actions.remove(k).drop_last() =~= actions.drop_last().remove(k));
    }
}

/// The same names, in another order, give the same counts.
proof fn lemma_same_times<T>(
    all: Seq<Seq<char>>,
    first: Seq<Seq<char>>,
    second: Seq<Seq<char>>,
    adapter: Contents,
    settings: Settings<T>,
    action: TensorAction,
)
    requires
        first.no_duplicates(),
        second.no_duplicates(),
        forall|name: Seq<char>| #[trigger] listed(first, name) <==> listed(second, name),
    ensures
        times(name_actions(all, first, adapter, settings), action) == times(
            name_actions(all, second, adapter, settings),
            action,
        ),
    decreases first.len(),
{
    if first.len() == 0 {
        if second.len() > 0 {
            assert(listed(second, second[0]));
            assert(listed(first, second[0]));
        }
        assert(second =~= first);
    } else {
        let name = first.last();
        assert(first[first.len() - 1] == name);
        assert(listed(first, name));
        assert(listed(second, name));
        let k = choose|k: int| 0 <= k < second.len() && #[trigger] second[k] == name;
        let a = first.drop_last();
        let b = second.remove(k);
        assert forall|other: Seq<char>| #[trigger] listed(a, other) <==> listed(b, other) by {
            assert(listed(first, other) <==> listed(second, other));
            if listed(a, other) {
                let m = choose|m: int| 0 <= m < a.len() && #[trigger] a[m] == other;
                assert(first[m] == other);
                assert(listed(second, other));
                let n = choose|n: int| 0 <= n < second.len() && #[trigger] second[n] == other;
                assert(b[if n < k { n } else { n - 1 }] == other);
            }
            if listed(b, other) {
                let n = choose|n: int| 0 <= n < b.len() && #[trigger] b[n] == other;
                assert(second[if n < k { n } else { n + 1 }] == other);
                assert(listed(first, other));
                let m = choose|m: int| 0 <= m < first.len() && #[trigger] first[m] == other;
                assert(a[m] == other);
            }
        }
        lemma_same_times(all, a, b, adapter, settings, action);
        let x = name_actions(all, first, adapter, settings);
        let y = name_actions(all, second, adapter, settings);
        assert(x.drop_last() =~= name_actions(all, a, adapter, settings));
        assert(y.remove(k) =~= name_actions(all, b, adapter, settings));
        lemma_times_remove(y, k, action);
    }
}

/// The statistics of a merge of the files that a model is spread over are those of a merge of the
/// model in one file.
pub proof fn law_sharding_counts_the_same<T>(
    stats: MergeStats,
    model: Contents,
    files: Seq<Contents>,
    adapter: Contents,
    settings: Settings<T>,
    low_memory: bool,
)
    requires
        sound(model),
        splits(model, files),
    ensures
        tallies(stats, shard_actions(files, files.len() as int, adapter, settings)) <==> tallies(
            stats,
            actions_of(merge_task(model, adapter, settings, low_memory).plans),
        ),
{
    let all = all_names(files);
    let names = names_of(model.heads);
    let plans = merge_task(model, adapter, settings, low_memory).plans;
    lemma_shard_actions(files, files.len() as int, adapter, settings);
    assert(files.take(files.len() as int) =~= files);
    assert forall|i: int| 0 <= i < plans.len() implies #[trigger] plans[i] == plan_for(
        all,
        names_of(adapter.heads),
        settings,
        names[i],
    ) by {
        assert(listed(all, names[i]) <==> listed(names, names[i]));
        lemma_same_plan(all, names, names_of(adapter.heads), settings, names[i]);
    }
    assert(actions_of(plans) =~= name_actions(all, names, adapter, settings));
    assert(names.no_duplicates()) by {
        assert forall|i: int, j: int| 0 <= i < names.len() && 0 <= j < names.len() && i
            != j implies names[i] != names[j] by {
            if i < j {
                assert(model.heads[i].name != model.heads[j].name);
            } else {
                assert(model.heads[j].name != model.heads[i].name);
            }
        }
    }
    lemma_same_times(all, all, names, adapter, settings, TensorAction::Copied);
    lemma_same_times(all, all, names, adapter, settings, TensorAction::Merged);
    lemma_same_times(all, all, names, adapter, settings, TensorAction::Replaced);
    lemma_same_times(all, all, names, adapter, settings, TensorAction::BiasMerged);
}

/// A merge of a sharded model does what the look at it said: its statistics are the counts of the
/// analysis.
pub proof fn law_dry_run_predicts_sharded_merge<T>(
    info: DryRunInfo,
    stats: MergeStats,
    files: Seq<Contents>,
    adapter: Contents,
    settings: Settings<T>,
    is_sharded: bool,
)
    requires
        predicts(info, files, adapter, settings, is_sharded),
        tallies(stats, shard_actions(files, files.len() as int, adapter, settings)),
    ensures
        stats.tensors_merged == info.lora_target_count,
        stats.tensors_replaced == info.replacement_count,
        stats.biases_merged == info.bias_merge_count,
        stats.tensors_copied == info.passthrough_count,
{
    let all = all_names(files);
    lemma_shard_actions(files, files.len() as int, adapter, settings);
    assert(files.take(files.len() as int) =~= files);
    assert(actions_of(name_plans(all, adapter, settings)) =~= name_actions(
        all,
        all,
        adapter,
        settings,
    ));
}

/// The bytes of data that are written for the tensors of some files.
pub open spec fn all_written(parts: Seq<Seq<Seq<u8>>>) -> nat
    decreases parts.len(),
{
    if parts.len() == 0 {
        0
    } else {
        all_written(parts.drop_last()) + concatenated(parts.last()).len()
    }
}

/// What is written for the first files has the sizes of the first files.
proof fn lemma_all_written<N: Numerics>(
    num: &N,
    files: Seq<Contents>,
    adapter: Contents,
    settings: Settings<N::Single>,
    low_memory: bool,
    parts: Seq<Seq<Seq<u8>>>,
    count: int,
)
    requires
        0 <= count <= files.len() == parts.len(),
        forall|f: int| 0 <= f < files.len() ==> sound(#[trigger] files[f]),
        forall|f: int|
            0 <= f < files.len() ==> faultless(
                #[trigger] shard_task(files, f, adapter, settings, low_memory),
            ) && outputs(num, shard_task(files, f, adapter, settings, low_memory), parts[f]),
        forall|f: int, i: int|
            0 <= f < files.len() && 0 <= i < files[f].heads.len() ==> #[trigger] replacement_fits(
                shard_task(files, f, adapter, settings, low_memory),
                i,
            ),
    ensures
        all_written(parts.take(count)) == all_sizes(files.take(count)),
    decreases count,
{
    if count > 0 {
        let f = count - 1;
        lemma_all_written(num, files, adapter, settings, low_memory, parts, f);
        assert(parts.take(count).drop_last() =~= parts.take(f));
        assert(files.take(count).drop_last() =~= files.take(f));
        let task = shard_task(files, f, adapter, settings, low_memory);
        assert(sound(files[f]) && faultless(task));
        law_output_has_the_size_of_the_base(num, task, parts[f]);
    }
}

/// A merge of a sharded model writes as many bytes of data as the look at it estimated, if what
/// replaces a tensor fits.
pub proof fn law_dry_run_estimates_the_sharded_output<N: Numerics>(
    num: &N,
    info: DryRunInfo,
    files: Seq<Contents>,
    adapter: Contents,
    settings: Settings<N::Single>,
    is_sharded: bool,
    low_memory: bool,
    parts: Seq<Seq<Seq<u8>>>,
)
    requires
        predicts(info, files, adapter, settings, is_sharded),
        files.len() == parts.len(),
        forall|f: int| 0 <= f < files.len() ==> sound(#[trigger] files[f]),
        forall|f: int|
            0 <= f < files.len() ==> faultless(
                #[trigger] shard_task(files, f, adapter, settings, low_memory),
            ) && outputs(num, shard_task(files, f, adapter, settings, low_memory), parts[f]),
        forall|f: int, i: int|
            0 <= f < files.len() && 0 <= i < files[f].heads.len() ==> #[trigger] replacement_fits(
                shard_task(files, f, adapter, settings, low_memory),
                i,
            ),
    ensures
        info.estimated_output_bytes == all_written(parts),
{
    lemma_all_written(num, files, adapter, settings, low_memory, parts, files.len() as int);
    assert(parts.take(files.len() as int) =~= parts);
    assert(files.take(files.len() as int) =~= files);
}

} // verus!
