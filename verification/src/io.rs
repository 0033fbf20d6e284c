//! Merging of an adapter into the files of a base model.

use crate::config::{AdapterConfig, Settings};
use crate::dtype::mergeable;
use crate::error::{Fault, Result, SurgeryError};
use crate::header::{
    concatenated, elements, file_bytes, header_bytes, header_fault, notes_name, preamble, sizable,
    size, total_size, Contents, Head,
};
use crate::mapped::{
    header_of, lemma_data_part, lemma_position, lists, open_failed, oversized, position,
    same_contents, sound, tensor_named, writable, MappedSafetensors, MAX_HEADER_SIZE,
};
use crate::names::{
    adapter_prefix, build_name_mapping, listed, lora_a_name, lora_b_name, maps_names,
    some_target_matches, unpaired_factors, warned, NameMapping,
};
use crate::numerics::Numerics;
use crate::process::{
    action_of, converts, lemma_mapped_plan, mapped_plan, plan_for, process_tensor, tensor_broke,
    tensor_fault, tensor_output, wrote_tensor, Plan,
};
use crate::shard::{begun, ShardIndex, ShardedMerge};
use crate::sink::{
    happened, lemma_ran_concat, lemma_ran_push, lemma_wrote_once, ran, reported, tell, told,
    written, wrote, Event, Report, Sink,
};
use crate::stats::{apply_action, law_counts_add_up, tallies, MergeStats, TensorAction};
use crate::text::{joined, plain, texts};
use vstd::prelude::*;

verus! {

/// The names of tensors.
pub open spec fn names_of(heads: Seq<Head>) -> Seq<Seq<char>> {
    Seq::new(heads.len(), |i: int| heads[i].name)
}

/// A merge: what is to be done with the tensors of a file, given what an adapter holds.
pub struct Task<T> {
    pub base: Contents,
    pub adapter: Contents,
    pub settings: Settings<T>,
    pub plans: Seq<Plan>,
    pub low_memory: bool,
}

/// Whether output bytes are what the plans make of the tensors.
pub open spec fn outputs<N: Numerics>(
    num: &N,
    task: Task<N::Single>,
    out: Seq<Seq<u8>>,
) -> bool {
    &&& out.len() == task.base.heads.len()
    &&& forall|i: int|
        0 <= i < out.len() ==> #[trigger] tensor_output(
            num,
            task.settings,
            task.low_memory,
            task.plans[i],
            task.base.heads[i],
            task.base.data[i],
            task.adapter,
            out[i],
        )
}

/// Whether output bytes are what the plans make of the first `count` tensors.
pub open spec fn outputs_front<N: Numerics>(
    num: &N,
    task: Task<N::Single>,
    count: int,
    out: Seq<Seq<u8>>,
) -> bool {
    &&& out.len() == count
    &&& forall|i: int|
        0 <= i < count ==> #[trigger] tensor_output(
            num,
            task.settings,
            task.low_memory,
            task.plans[i],
            task.base.heads[i],
            task.base.data[i],
            task.adapter,
            out[i],
        )
}

/// What keeps a tensor from being written.
pub open spec fn fault_at<T>(task: Task<T>, i: int) -> Option<Fault> {
    tensor_fault(
        task.plans[i],
        task.base.heads[i],
        task.base.data[i],
        task.adapter,
        task.settings.fan_in_fan_out,
    )
}

/// The actions that plans stand for.
pub open spec fn actions_of(plans: Seq<Plan>) -> Seq<TensorAction> {
    Seq::new(plans.len(), |i: int| action_of(plans[i]))
}

/// The reports of progress for tensors that follow `done` others, of `total` in all: each when
/// what comes before the data, and the output of the tensors before, was written, and no more.
pub open spec fn reports(
    done: int,
    count: int,
    total: int,
    front: nat,
    out: Seq<Seq<u8>>,
) -> Seq<Report> {
    Seq::new(
        count as nat,
        |i: int|
            Report {
                current: done + i,
                total,
                written: front + concatenated(out.take(i)).len(),
            },
    )
}

/// Whether writing the file that the plans make of a base file, with a report before each tensor,
/// can take a sink from one state to another.
pub open spec fn wrote_file<N: Numerics, S: Sink>(
    num: &N,
    task: Task<N::Single>,
    done: int,
    total: int,
    before: S,
    after: S,
) -> bool {
    exists|events: Seq<Event>, out: Seq<Seq<u8>>| #[trigger]
        ran(before, events, after) && #[trigger] outputs(num, task, out) && written(events)
            == file_bytes(
            Contents { heads: task.base.heads, data: out, notes: task.base.notes },
        ) && reported(events) == reports(
            done,
            out.len() as int,
            total,
            preamble(task.base.heads, task.base.notes).len(),
            out,
        )
}

/// Whether writing the first `count` tensors of the file that the plans make of a base file, with
/// what comes before the data and a report before each tensor, can take a sink from one state to
/// another.
pub open spec fn wrote_front<N: Numerics, S: Sink>(
    num: &N,
    task: Task<N::Single>,
    count: int,
    done: int,
    total: int,
    before: S,
    after: S,
) -> bool {
    let front = preamble(task.base.heads, task.base.notes);
    exists|events: Seq<Event>, out: Seq<Seq<u8>>| #[trigger]
        ran(before, events, after) && #[trigger] outputs_front(num, task, count, out) && written(
            events,
        ) == front + concatenated(out) && reported(events) == reports(
            done,
            count,
            total,
            front.len(),
            out,
        )
}

/// Whether a write of what comes before the data can fail with an error and leave a sink in some
/// state.
pub open spec fn front_failed<T, S: Sink>(
    task: Task<T>,
    before: S,
    error: SurgeryError,
    after: S,
) -> bool {
    exists|bytes: &[u8]|
        bytes@ == preamble(task.base.heads, task.base.notes) && #[trigger] call_ensures(
            S::write,
            (before, bytes),
            (after, Err(error)),
        )
}

/// Whether writing a file can fail with an error and leave a sink in some state: the header cannot
/// be written, and the sink was left alone, or the sink refused what comes before the data, or
/// some tensor failed.
pub open spec fn file_failed<N: Numerics, S: Sink>(
    num: &N,
    task: Task<N::Single>,
    done: int,
    total: int,
    before: S,
    error: SurgeryError,
    after: S,
) -> bool {
    ||| header_fault(task.base.heads, 0) == Some(error@) && after == before
    ||| header_fault(task.base.heads, 0) is None && (front_failed(task, before, error, after)
        || exists|i: int|
        0 <= i < task.base.heads.len() && #[trigger] tensor_failed(
            num,
            task,
            i,
            done,
            total,
            before,
            error,
            after,
        ))
}

/// Whether a tensor can fail with an error, when those before it were written, and leave a sink in
/// some state. A tensor that cannot be written leaves it as the report before the tensor did.
pub open spec fn tensor_failed<N: Numerics, S: Sink>(
    num: &N,
    task: Task<N::Single>,
    i: int,
    done: int,
    total: int,
    before: S,
    error: SurgeryError,
    after: S,
) -> bool {
    &&& forall|j: int| 0 <= j < i ==> (#[trigger] fault_at(task, j)) is None
    &&& exists|middle: S, reached: S|
        wrote_front(num, task, i, done, total, before, middle) && #[trigger] happened(
            middle,
            Event::Progress(done + i, total),
            reached,
        ) && (fault_at(task, i) == Some(error@) && after == reached || (fault_at(task, i) is None
            && tensor_broke(
            num,
            task.settings,
            task.low_memory,
            task.plans[i],
            task.base.heads[i],
            task.adapter,
            reached,
            error,
            after,
        )))
}

/// Nothing keeps a file from being written.
pub open spec fn faultless<T>(task: Task<T>) -> bool {
    &&& header_fault(task.base.heads, 0) is None
    &&& forall|i: int|
        0 <= i < task.base.heads.len() ==> (#[trigger] fault_at(task, i)) is None
}

/// The task of merging an adapter into a file by a name mapping.
pub open spec fn mapped_task<T>(
    base: Contents,
    adapter: Contents,
    settings: Settings<T>,
    mapping: &NameMapping,
    low_memory: bool,
) -> Task<T> {
    Task {
        base,
        adapter,
        settings,
        plans: Seq::new(
            base.heads.len(),
            |i: int| mapped_plan(mapping, settings.bias, base.heads[i].name),
        ),
        low_memory,
    }
}

/// What was written in one part more.
proof fn lemma_concatenated_push(parts: Seq<Seq<u8>>, part: Seq<u8>)
    ensures
        concatenated(parts.push(part)) == concatenated(parts) + part,
{
    assert(parts.push(part).drop_last() =~= parts);
}

/// Merges the tensors of a file, one at a time, and writes the header and the tensors. The file
/// may be one of several: `done` tensors came before, of `total` in all.
pub fn write_tensors<N: Numerics, S: Sink>(
    base: &MappedSafetensors,
    adapter: &MappedSafetensors,
    config: &AdapterConfig<N::Single>,
    name_mapping: &NameMapping,
    low_memory: bool,
    done: usize,
    total: usize,
    stats: MergeStats,
    num: &N,
    writer: S,
) -> (r: (S, Result<MergeStats>))
    requires
        done + base@.heads.len() <= usize::MAX,
        exists|actions: Seq<TensorAction>|
            actions.len() == done && #[trigger] tallies(stats, actions),
    ensures
        ({
            let task = mapped_task(base@, adapter@, config@, name_mapping, low_memory);
            match r.1 {
                Ok(new) => faultless(task) && wrote_file(
                    num,
                    task,
                    done as int,
                    total as int,
                    writer,
                    r.0,
                ) && forall|actions: Seq<TensorAction>| #[trigger]
                    tallies(stats, actions) ==> tallies(new, actions + actions_of(task.plans)),
                Err(error) => file_failed(
                    num,
                    task,
                    done as int,
                    total as int,
                    writer,
                    error,
                    r.0,
                ),
            }
        }),
{
    let ghost task = mapped_task(base@, adapter@, config@, name_mapping, low_memory);
    let ghost heads = base@.heads;
    let count: usize = base.len();
    let front = match base.output_preamble() {
        Ok(front) => front,
        Err(error) => {
            return (writer, Err(error));
        },
    };
    let bytes = front.as_slice();
    let (first_sink, outcome) = writer.write(bytes);
    let mut sink = first_sink;
    if let Err(error) = outcome {
        assert(front_failed(task, writer, error, sink));
        return (sink, Err(error));
    }
    let mut stats = stats;
    let ghost first = stats;
    let ghost mut events: Seq<Event> = Seq::empty();
    let ghost mut out: Seq<Seq<u8>> = Seq::empty();
    proof {
        lemma_wrote_once(writer, bytes, sink, outcome);
        events = choose|e: Seq<Event>| #[trigger]
            ran(writer, e, sink) && written(e) == bytes@ && reported(e).len() == 0;
        assert(bytes@ + concatenated(out) =~= bytes@);
        assert(reported(events) =~= reports(done as int, 0, total as int, front@.len(), out));
        assert forall|actions: Seq<TensorAction>| #[trigger]
            tallies(first, actions) implies tallies(
            stats,
            actions + actions_of(task.plans.take(0)),
        ) by {
            assert(actions + actions_of(task.plans.take(0)) =~= actions);
        }
    }
    for i in 0..count
        invariant
            task == mapped_task(base@, adapter@, config@, name_mapping, low_memory),
            heads == base@.heads,
            count == heads.len(),
            sound(base@),
            done + count <= usize::MAX,
            header_fault(heads, 0) is None,
            front@ == preamble(heads, base@.notes),
            ran(writer, events, sink),
            written(events) == front@ + concatenated(out),
            reported(events) == reports(
                done as int,
                i as int,
                total as int,
                front@.len(),
                out,
            ),
            out.len() == i,
            forall|k: int|
                0 <= k < i ==> #[trigger] tensor_output(
                    num,
                    task.settings,
                    task.low_memory,
                    task.plans[k],
                    heads[k],
                    base@.data[k],
                    adapter@,
                    out[k],
                ),
            forall|k: int| 0 <= k < i ==> (#[trigger] fault_at(task, k)) is None,
            exists|actions: Seq<TensorAction>|
                actions.len() == done && #[trigger] tallies(first, actions),
            forall|actions: Seq<TensorAction>| #[trigger]
                tallies(first, actions) ==> tallies(
                    stats,
                    actions + actions_of(task.plans.take(i as int)),
                ),
    {
        let ghost before = sink;
        sink = sink.progress(done + i, total);
        let ghost reached = sink;
        let name = base.name(i);
        let info = base.info(i);
        let data = base.data(i);
        proof {
            assert(sizable(heads[i as int]));
            assert(Head { name: name@, dtype: info.dtype, shape: info.shape@ } == heads[i as int]);
        }
        let (after, outcome) = process_tensor(
            name.as_str(),
            info,
            data,
            adapter,
            config,
            name_mapping,
            low_memory,
            num,
            sink,
        );
        sink = after;
        let action = match outcome {
            Ok(action) => action,
            Err(error) => {
                proof {
                    assert(outputs_front(num, task, i as int, out));
                    assert(wrote_front(
                        num,
                        task,
                        i as int,
                        done as int,
                        total as int,
                        writer,
                        before,
                    ));
                    assert(happened(
                        before,
                        Event::Progress(done + i as int, total as int),
                        reached,
                    ));
                    assert(tensor_failed(
                        num,
                        task,
                        i as int,
                        done as int,
                        total as int,
                        writer,
                        error,
                        sink,
                    ));
                }
                return (sink, Err(error));
            },
        };
        proof {
            let plan = task.plans[i as int];
            let report = Event::Progress((done + i) as int, total as int);
            assert(happened(before, report, reached));
            lemma_ran_push(writer, events, before, report, reached);
            let part = choose|part: Seq<u8>| #[trigger]
                wrote(reached, part, sink) && tensor_output(
                    num,
                    task.settings,
                    low_memory,
                    plan,
                    heads[i as int],
                    base@.data[i as int],
                    adapter@,
                    part,
                );
            assert(wrote_tensor(
                num,
                task.settings,
                low_memory,
                plan,
                heads[i as int],
                base@.data[i as int],
                adapter@,
                reached,
                sink,
            ));
            let more = choose|e: Seq<Event>| #[trigger]
                ran(reached, e, sink) && written(e) == part && reported(e).len() == 0;
            assert(wrote(reached, part, sink));
            let shown = events.push(report);
            lemma_ran_concat(writer, shown, reached, more, sink);
            lemma_concatenated_push(out, part);
            assert(written(shown + more) =~= front@ + concatenated(out.push(part)));
            let longer = out.push(part);
            assert(out.take(i as int) =~= out);
            assert forall|k: int| 0 <= k <= i implies #[trigger] longer.take(k) == out.take(k) by {
                assert(longer.take(k) =~= out.take(k));
            }
            assert(reported(shown + more) =~= reports(
                done as int,
                i + 1,
                total as int,
                front@.len(),
                longer,
            ));
            events = shown + more;
            out = longer;
            assert(task.plans.take(i + 1) =~= task.plans.take(i as int).push(plan));
        }
        let ghost counted = stats;
        proof {
            let actions = choose|actions: Seq<TensorAction>|
                actions.len() == done && #[trigger] tallies(first, actions);
            law_counts_add_up(actions + actions_of(task.plans.take(i as int)));
        }
        apply_action(&mut stats, action);
        proof {
            assert forall|actions: Seq<TensorAction>| #[trigger]
                tallies(first, actions) implies tallies(
                stats,
                actions + actions_of(task.plans.take(i + 1)),
            ) by {
                let all = actions + actions_of(task.plans.take(i as int));
                assert(tallies(counted, all));
                assert(all.push(action) =~= actions + actions_of(task.plans.take(i + 1)));
            }
        }
    }
    proof {
        assert(task.plans.take(count as int) =~= task.plans);
        assert(outputs(num, task, out));
        assert(wrote_file(num, task, done as int, total as int, writer, sink));
    }
    (sink, Ok(stats))
}

/// The names of the tensors of a file.
pub(crate) fn tensor_names<'b>(file: &'b MappedSafetensors) -> (r: Vec<&'b str>)
    ensures
        plain(r@) == names_of(file@.heads),
        sound(file@),
{
    let count: usize = file.len();
    let mut r: Vec<&'b str> = Vec::new();
    for i in 0..count
        invariant
            count == file@.heads.len(),
            plain(r@) == names_of(file@.heads).take(i as int),
    {
        let ghost before = r@;
        r.push(file.name(i).as_str());
        assert(plain(r@) =~= plain(before).push(file@.heads[i as int].name));
        assert(names_of(file@.heads).take(i + 1) =~= names_of(file@.heads).take(i as int).push(
            file@.heads[i as int].name,
        ));
    }
    assert(names_of(file@.heads).take(count as int) =~= names_of(file@.heads));
    r
}

/// What keeps the names of a base model and of an adapter from being mapped: there are target
/// modules, and none of them names a base tensor that the adapter has both factors for.
pub open spec fn mapping_fault<T>(
    base: Seq<Seq<char>>,
    adapter: Seq<Seq<char>>,
    settings: Settings<T>,
) -> Option<Fault> {
    if settings.target_modules.len() > 0 && !some_target_matches(
        base,
        adapter,
        settings.target_modules,
    ) {
        Some(
            Fault::MissingAdapterTensor {
                module: joined(texts(settings.target_modules), ", "@),
            },
        )
    } else {
        None
    }
}

/// Maps the names of a base model to those of an adapter. Low-rank factors without their partners
/// are told of whether or not the names can be mapped.
pub(crate) fn map_names<T>(
    base_names: &[&str],
    adapter_names: &[&str],
    config: &AdapterConfig<T>,
) -> (r: (Vec<String>, Result<NameMapping>))
    ensures
        ({
            let fault = mapping_fault(plain(base_names@), plain(adapter_names@), config@);
            match r.1 {
                Ok(mapping) => fault is None && maps_names(
                    &mapping,
                    plain(base_names@),
                    plain(adapter_names@),
                    config@.modules_to_save,
                ),
                Err(error) => fault == Some(error@),
            }
        }),
        warned(plain(base_names@), plain(adapter_names@), texts(r.0@)),
{
    let mapping = build_name_mapping(
        base_names,
        adapter_names,
        config.target_modules(),
        config.modules_to_save(),
    );
    (unpaired_factors(base_names, adapter_names), mapping)
}

/// The task of merging an adapter into a file, as the names of the tensors have it.
pub open spec fn merge_task<T>(
    base: Contents,
    adapter: Contents,
    settings: Settings<T>,
    low_memory: bool,
) -> Task<T> {
    Task {
        base,
        adapter,
        settings,
        plans: plans_for(names_of(base.heads), base.heads, adapter, settings),
        low_memory,
    }
}

/// What is to be done with the tensors of a file, one of those that make up a base model with
/// tensors of these names.
pub open spec fn plans_for<T>(
    base: Seq<Seq<char>>,
    heads: Seq<Head>,
    adapter: Contents,
    settings: Settings<T>,
) -> Seq<Plan> {
    Seq::new(
        heads.len(),
        |i: int| plan_for(base, names_of(adapter.heads), settings, heads[i].name),
    )
}

/// The plans by a name mapping are those that the names give.
pub proof fn law_mapping_gives_each_tensor_its_plan<T>(
    mapping: &NameMapping,
    base: Seq<Seq<char>>,
    file: Contents,
    adapter: Contents,
    settings: Settings<T>,
    low_memory: bool,
)
    requires
        maps_names(mapping, base, names_of(adapter.heads), settings.modules_to_save),
    ensures
        mapped_task(file, adapter, settings, mapping, low_memory).plans == plans_for(
            base,
            file.heads,
            adapter,
            settings,
        ),
{
    let plans = mapped_task(file, adapter, settings, mapping, low_memory).plans;
    assert forall|i: int| 0 <= i < plans.len() implies #[trigger] plans[i] == plans_for(
        base,
        file.heads,
        adapter,
        settings,
    )[i] by {
        lemma_mapped_plan(
            mapping,
            base,
            names_of(adapter.heads),
            settings,
            file.heads[i].name,
        );
    }
    assert(plans =~= plans_for(base, file.heads, adapter, settings));
}

/// Whether writing the file that a merge makes of a base file, with a report before each tensor
/// and one at the end, can take a sink from one state to another.
pub open spec fn wrote_model<N: Numerics, S: Sink>(
    num: &N,
    task: Task<N::Single>,
    before: S,
    after: S,
) -> bool {
    exists|events: Seq<Event>, out: Seq<Seq<u8>>| #[trigger]
        ran(before, events, after) && #[trigger] outputs(num, task, out) && written(events)
            == file_bytes(
            Contents { heads: task.base.heads, data: out, notes: task.base.notes },
        ) && reported(events) == reports(
            0,
            out.len() + 1int,
            out.len() as int,
            preamble(task.base.heads, task.base.notes).len(),
            out,
        )
}

/// Reports that all tensors are done.
fn report_end<S: Sink>(count: usize, sink: S) -> (r: S)
    ensures
        happened(sink, Event::Progress(count as int, count as int), r),
{
    sink.progress(count, count)
}

/// Merges an adapter into a base model of one file, both in memory. Processes one tensor at a
/// time, keeping memory bounded regardless of model size.
pub fn merge_mapped<N: Numerics, S: Sink>(
    base: &MappedSafetensors,
    adapter: &MappedSafetensors,
    config: &AdapterConfig<N::Single>,
    low_memory: bool,
    num: &N,
    writer: S,
) -> (r: (S, Result<MergeStats>))
    ensures
        merge_result(num, base@, adapter@, config@, low_memory, writer, r),
{
    let base_names = tensor_names(base);
    let adapter_names = tensor_names(adapter);
    let (warnings, mapping) = map_names(base_names.as_slice(), adapter_names.as_slice(), config);
    let told_sink = tell(&warnings, writer);
    let ghost start = told_sink;
    assert(forewarned(
        names_of(base@.heads),
        names_of(adapter@.heads),
        writer,
        start,
    ));
    let mapping = match mapping {
        Ok(mapping) => mapping,
        Err(error) => {
            return (told_sink, Err(error));
        },
    };
    let count: usize = base.len();
    let ghost task = merge_task(base@, adapter@, config@, low_memory);
    let stats = MergeStats::new();
    proof {
        law_mapping_gives_each_tensor_its_plan(
            &mapping,
            names_of(base@.heads),
            base@,
            adapter@,
            config@,
            low_memory,
        );
        assert(mapped_task(base@, adapter@, config@, &mapping, low_memory) == task);
        assert(tallies(stats, Seq::empty()));
    }
    let (sink, outcome) = write_tensors(
        base,
        adapter,
        config,
        &mapping,
        low_memory,
        0,
        count,
        stats,
        num,
        told_sink,
    );
    let stats = match outcome {
        Ok(stats) => stats,
        Err(error) => {
            return (sink, Err(error));
        },
    };
    let ghost middle = sink;
    let sink = report_end(count, sink);
    proof {
        let (events, out) = choose|events: Seq<Event>, out: Seq<Seq<u8>>| #[trigger]
            ran(start, events, middle) && #[trigger] outputs(num, task, out) && written(events)
                == file_bytes(
                Contents { heads: task.base.heads, data: out, notes: task.base.notes },
            ) && reported(events) == reports(
                0,
                out.len() as int,
                count as int,
                preamble(task.base.heads, task.base.notes).len(),
                out,
            );
        let last = Event::Progress(count as int, count as int);
        lemma_ran_push(start, events, middle, last, sink);
        let all = events.push(last);
        assert(out.take(out.len() as int) =~= out);
        assert(reported(all) =~= reports(
            0,
            out.len() + 1int,
            out.len() as int,
            preamble(task.base.heads, task.base.notes).len(),
            out,
        ));
        assert(wrote_model(num, task, start, sink));
        assert(Seq::<TensorAction>::empty() + actions_of(task.plans) =~= actions_of(task.plans));
    }
    (sink, Ok(stats))
}

/// Whether being told of the low-rank factors without their partners, and nothing else, can take a
/// sink from one state to another.
pub open spec fn forewarned<S: Sink>(
    base: Seq<Seq<char>>,
    adapter: Seq<Seq<char>>,
    before: S,
    after: S,
) -> bool {
    exists|warnings: Seq<Seq<char>>| #[trigger]
        warned(base, adapter, warnings) && told(before, warnings, after)
}

/// What comes of merging an adapter into a base model of one file. The sink is told of what is
/// skipped. Then it fails if the names cannot be mapped, and does nothing more to the sink, or if
/// the file cannot be written.
pub open spec fn merge_result<N: Numerics, S: Sink>(
    num: &N,
    base: Contents,
    adapter: Contents,
    settings: Settings<N::Single>,
    low_memory: bool,
    writer: S,
    r: (S, Result<MergeStats>),
) -> bool {
    let task = merge_task(base, adapter, settings, low_memory);
    let fault = mapping_fault(names_of(base.heads), names_of(adapter.heads), settings);
    let total = base.heads.len() as int;
    exists|start: S| #[trigger]
        forewarned(names_of(base.heads), names_of(adapter.heads), writer, start) && match r.1 {
            Ok(stats) => {
                &&& fault is None
                &&& faultless(task)
                &&& wrote_model(num, task, start, r.0)
                &&& tallies(stats, actions_of(task.plans))
            },
            Err(error) => fault == Some(error@) && r.0 == start || (fault is None && file_failed(
                num,
                task,
                0,
                total,
                start,
                error,
                r.0,
            )),
        }
}

/// Whether a file is one that can be read, with these contents.
pub open spec fn opened(bytes: Seq<u8>, contents: Contents) -> bool {
    &&& !unreadable_file(bytes)
    &&& lists(bytes, header_of(bytes)->0, contents)
    &&& sound(contents)
}

/// Whether a file cannot be read.
pub open spec fn unreadable_file(bytes: Seq<u8>) -> bool {
    oversized(bytes) || header_of(bytes) is None
}

/// What comes of merging an adapter into a base model of one file, each given by its bytes. It
/// fails, and leaves the sink alone, if one of them cannot be read, and says why of the first that
/// cannot; if both can, it depends on what they hold.
pub open spec fn write_result<N: Numerics, S: Sink>(
    num: &N,
    base_model: &[u8],
    adapter_weights: &[u8],
    settings: Settings<N::Single>,
    low_memory: bool,
    writer: S,
    r: (S, Result<MergeStats>),
) -> bool {
    if unreadable_file(base_model@) {
        r.0 == writer && (r.1 matches Err(error) && open_failed(base_model, error@))
    } else if unreadable_file(adapter_weights@) {
        r.0 == writer && (r.1 matches Err(error) && open_failed(adapter_weights, error@))
    } else {
        exists|base: Contents, adapter: Contents| #[trigger]
            opened(base_model@, base) && #[trigger] opened(adapter_weights@, adapter)
                && merge_result(num, base, adapter, settings, low_memory, writer, r)
    }
}

/// Merges an adapter into a base model of one file, each given by its bytes, and writes the
/// result. Processes one tensor at a time, keeping memory bounded regardless of model size.
pub fn merge_and_write<N: Numerics, S: Sink>(
    base_model: &[u8],
    adapter_weights: &[u8],
    config: &AdapterConfig<N::Single>,
    low_memory: bool,
    num: &N,
    writer: S,
) -> (r: (S, Result<MergeStats>))
    ensures
        write_result(num, base_model, adapter_weights, config@, low_memory, writer, r),
{
    let base = match MappedSafetensors::open(base_model) {
        Ok(base) => base,
        Err(error) => {
            return (writer, Err(error));
        },
    };
    let adapter = match MappedSafetensors::open(adapter_weights) {
        Ok(adapter) => adapter,
        Err(error) => {
            return (writer, Err(error));
        },
    };
    proof {
        assert(opened(base_model@, base@));
        assert(opened(adapter_weights@, adapter@));
    }
    merge_mapped(&base, &adapter, config, low_memory, num, writer)
}

/// A base model: the bytes of a single file, or the index of a sharded set.
pub enum BaseModel<'a> {
    SingleFile(&'a [u8]),
    Sharded(&'a ShardIndex),
}

/// Where a merge has come to: a base model of a single file is merged; a sharded one is merged
/// file by file, and the merge tells which.
pub enum MergeOutcome {
    Merged(MergeStats),
    Sharded(ShardedMerge),
}

/// Merges a LoRA adapter into a base model, writing the result to the sink.
///
/// When `low_memory` is true, the merge uses tiled computation to reduce peak
/// memory at the cost of speed. When false, the full delta matrix is materialized
/// for faster merging.
///
/// A base model of a single file is merged at once. For a sharded one the merge is begun; the
/// sink comes back as it was.
pub fn merge_adapter<N: Numerics, S: Sink>(
    base_model: BaseModel<'_>,
    adapter_weights: &[u8],
    config: &AdapterConfig<N::Single>,
    low_memory: bool,
    num: &N,
    writer: S,
) -> (r: (S, Result<MergeOutcome>))
    ensures
        match base_model {
            BaseModel::SingleFile(bytes) => match r.1 {
                Ok(MergeOutcome::Merged(stats)) => write_result(
                    num,
                    bytes,
                    adapter_weights,
                    config@,
                    low_memory,
                    writer,
                    (r.0, Ok(stats)),
                ),
                Ok(MergeOutcome::Sharded(_)) => false,
                Err(error) => write_result(
                    num,
                    bytes,
                    adapter_weights,
                    config@,
                    low_memory,
                    writer,
                    (r.0, Err(error)),
                ),
            },
            BaseModel::Sharded(index) => r.0 == writer && (r.1 matches Ok(
                MergeOutcome::Sharded(merge),
            ) && begun(&merge, index@)),
        },
{
    match base_model {
        BaseModel::SingleFile(bytes) => {
            let (sink, outcome) = merge_and_write(
                bytes,
                adapter_weights,
                config,
                low_memory,
                num,
                writer,
            );
            match outcome {
                Ok(stats) => (sink, Ok(MergeOutcome::Merged(stats))),
                Err(error) => (sink, Err(error)),
            }
        },
        BaseModel::Sharded(index) => (
            writer,
            Ok(MergeOutcome::Sharded(ShardedMerge::begin(index))),
        ),
    }
}

/// A header that can be written has tensors of types that are merged.
pub(crate) proof fn lemma_all_mergeable(heads: Seq<Head>, from: int, i: int)
    requires
        header_fault(heads, from) is None,
        0 <= from <= i < heads.len(),
    ensures
        mergeable(heads[i].dtype),
    decreases i - from,
{
    if from < i {
        lemma_all_mergeable(heads, from + 1, i);
    }
}

/// Whether what replaces a tensor takes as many bytes as the tensor: it has as many elements, if it
/// is converted, else as many bytes.
pub open spec fn replacement_fits<T>(task: Task<T>, i: int) -> bool {
    let head = task.base.heads[i];
    task.plans[i] matches Plan::Replace(source) ==> (tensor_named(
        task.adapter,
        source,
    ) matches Some(x) ==> if converts(x.0, head) {
        elements(x.0.shape) == elements(head.shape)
    } else {
        x.1.len() == size(head)
    })
}

/// What is written for a tensor has as many bytes as the tensor, unless something that does not
/// fit replaces it.
pub proof fn law_output_has_the_size_of_its_tensor<N: Numerics>(
    num: &N,
    task: Task<N::Single>,
    out: Seq<Seq<u8>>,
    i: int,
)
    requires
        sound(task.base),
        faultless(task),
        outputs(num, task, out),
        0 <= i < out.len(),
        replacement_fits(task, i),
    ensures
        out[i].len() == task.base.data[i].len() == size(task.base.heads[i]),
{
    assert(tensor_output(
        num,
        task.settings,
        task.low_memory,
        task.plans[i],
        task.base.heads[i],
        task.base.data[i],
        task.adapter,
        out[i],
    ));
    assert(fault_at(task, i) is None);
    assert(sizable(task.base.heads[i]));
}

/// The output of a merge is a file that can be read again, with the base's names, element types,
/// shapes and notes, if what replaces a tensor fits and the header is not longer than the format
/// allows.
pub proof fn law_output_is_a_file<N: Numerics>(
    num: &N,
    task: Task<N::Single>,
    out: Seq<Seq<u8>>,
)
    requires
        sound(task.base),
        faultless(task),
        outputs(num, task, out),
        forall|i: int| 0 <= i < out.len() ==> #[trigger] replacement_fits(task, i),
        header_bytes(task.base.heads, task.base.notes).len() <= MAX_HEADER_SIZE,
    ensures
        writable(Contents { heads: task.base.heads, data: out, notes: task.base.notes }),
{
    let heads = task.base.heads;
    assert forall|i: int| 0 <= i < heads.len() implies mergeable((#[trigger] heads[i]).dtype)
        && sizable(heads[i]) && out[i].len() == size(heads[i]) && heads[i].name
        != notes_name() by {
        lemma_all_mergeable(heads, 0, i);
        assert(replacement_fits(task, i));
        law_output_has_the_size_of_its_tensor(num, task, out, i);
    }
}

/// Tensors that the adapter has nothing for come out bit by bit as they were.
pub proof fn law_passthrough_is_identical<N: Numerics>(
    num: &N,
    task: Task<N::Single>,
    out: Seq<Seq<u8>>,
    name: Seq<char>,
)
    requires
        sound(task.base),
        outputs(num, task, out),
        position(task.base.heads, name, 0) matches Some(i) ==> task.plans[i] == Plan::Copy,
    ensures
        tensor_named(
            Contents { heads: task.base.heads, data: out, notes: task.base.notes },
            name,
        ) == tensor_named(task.base, name),
{
    lemma_position(task.base.heads, name, 0);
    if position(task.base.heads, name, 0) is Some {
        let i = position(task.base.heads, name, 0)->0;
        assert(tensor_output(
            num,
            task.settings,
            task.low_memory,
            task.plans[i],
            task.base.heads[i],
            task.base.data[i],
            task.adapter,
            out[i],
        ));
    }
}

/// A tensor whose name neither has factors or a bias in the adapter, nor is one to be replaced,
/// is copied.
pub proof fn law_untouched_tensors_are_copied<T>(
    base: Contents,
    adapter: Contents,
    settings: Settings<T>,
    low_memory: bool,
    i: int,
)
    requires
        0 <= i < base.heads.len(),
        ({
            let names = names_of(adapter.heads);
            let name = base.heads[i].name;
            &&& !names.contains(adapter_prefix() + name)
            &&& !(names.contains(lora_a_name(name)) && names.contains(lora_b_name(name)))
        }),
    ensures
        merge_task(base, adapter, settings, low_memory).plans[i] == Plan::Copy,
{
    let names = names_of(adapter.heads);
    let name = base.heads[i].name;
    assert forall|other: Seq<char>| #[trigger] listed(names, other) implies names.contains(
        other,
    ) by {
        let k = choose|k: int| 0 <= k < names.len() && #[trigger] names[k] == other;
        assert(names[k] == other);
    }
}

/// Every tensor of the base is counted once in the statistics of a merge.
pub proof fn law_every_tensor_is_counted_once<T>(
    stats: MergeStats,
    base: Contents,
    adapter: Contents,
    settings: Settings<T>,
    low_memory: bool,
)
    requires
        tallies(stats, actions_of(merge_task(base, adapter, settings, low_memory).plans)),
    ensures
        stats.tensors_copied + stats.tensors_merged + stats.tensors_replaced + stats.biases_merged
            == base.heads.len(),
{
    law_counts_add_up(actions_of(merge_task(base, adapter, settings, low_memory).plans));
}

/// The data of the output take as many bytes as the base's tensors, if what replaces a tensor fits.
pub proof fn law_output_has_the_size_of_the_base<N: Numerics>(
    num: &N,
    task: Task<N::Single>,
    out: Seq<Seq<u8>>,
)
    requires
        sound(task.base),
        faultless(task),
        outputs(num, task, out),
        forall|i: int| 0 <= i < out.len() ==> #[trigger] replacement_fits(task, i),
    ensures
        concatenated(out).len() == total_size(task.base.heads),
{
    let heads = task.base.heads;
    assert forall|i: int| 0 <= i < out.len() implies (#[trigger] out[i]).len() == size(
        heads[i],
    ) by {
        assert(replacement_fits(task, i));
        law_output_has_the_size_of_its_tensor(num, task, out, i);
    }
    if out.len() > 0 {
        lemma_data_part(heads, out, out.len() as int, 0);
    }
    assert(out.take(out.len() as int) =~= out);
}

/// What is read from the output of a merge has the base's names, element types, shapes and notes.
pub proof fn law_output_keeps_types_shapes_and_notes(
    base: Contents,
    out: Seq<Seq<u8>>,
    read: Contents,
    name: Seq<char>,
)
    requires
        out.len() == base.heads.len() == base.data.len(),
        same_contents(read, Contents { heads: base.heads, data: out, notes: base.notes }),
    ensures
        read.notes == base.notes,
        tensor_named(read, name) is Some <==> tensor_named(base, name) is Some,
        tensor_named(read, name) matches Some(tensor) ==> tensor.0 == (tensor_named(
            base,
            name,
        )->0).0,
{
    assert(tensor_named(read, name) == tensor_named(
        Contents { heads: base.heads, data: out, notes: base.notes },
        name,
    ));
}

} // verus!
