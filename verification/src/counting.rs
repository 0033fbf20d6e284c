//! What the counts, the reports and the warnings of a merge say of the tensors and their names.

use crate::config::{config_fault, BiasMode, Settings};
use crate::dry_run::{all_names, all_sizes, name_plans, predicts, DryRunInfo};
use crate::error::Result;
use crate::header::{concatenated, Contents};
use crate::io::{actions_of, merge_result, merge_task, names_of, reports};
use crate::mapped::sound;
use crate::matching::{
    ends_with, is_saved, law_biases_are_added_and_the_rest_is_copied,
    law_saved_modules_are_replaced, law_weights_with_both_factors_are_merged, lemma_ends_with,
    lemma_listed,
};
use crate::names::{lack_a, lack_b, skipped_warning, skipped_warnings, stem, warned};
use crate::numerics::Numerics;
use crate::process::{action_of, plan_for};
use crate::reading::lemma_offset_is_length;
use crate::sink::{reported, written, Event, Report, Sink};
use crate::stats::{tallies, times, MergeStats, TensorAction};
use crate::whole::has_factors;
use vstd::prelude::*;

verus! {

/// What is done with a base tensor, by its name.
pub open spec fn action_by_name<T>(
    base: Seq<Seq<char>>,
    adapter: Seq<Seq<char>>,
    settings: Settings<T>,
    name: Seq<char>,
) -> TensorAction {
    if is_saved(base, adapter, settings, name) {
        TensorAction::Replaced
    } else if has_factors(adapter, name) {
        TensorAction::Merged
    } else if settings.bias != BiasMode::NoBias && ends_with(name, ".bias"@) && adapter.contains(
        "base_model.model."@ + name,
    ) {
        TensorAction::BiasMerged
    } else {
        TensorAction::Copied
    }
}

/// How many of the names have an action.
pub open spec fn count_by_name<T>(
    base: Seq<Seq<char>>,
    adapter: Seq<Seq<char>>,
    settings: Settings<T>,
    action: TensorAction,
) -> nat {
    base.filter(|name: Seq<char>| action_by_name(base, adapter, settings, name) == action).len()
}

/// The action that a name gives is the one of its plan.
pub(crate) proof fn lemma_action_by_name<T>(
    base: Seq<Seq<char>>,
    adapter: Seq<Seq<char>>,
    settings: Settings<T>,
    name: Seq<char>,
)
    requires
        base.contains(name),
    ensures
        action_of(plan_for(base, adapter, settings, name)) == action_by_name(
            base,
            adapter,
            settings,
            name,
        ),
{
    law_saved_modules_are_replaced(base, adapter, settings, name);
    law_biases_are_added_and_the_rest_is_copied(base, adapter, settings, name);
    if !is_saved(base, adapter, settings, name) {
        if has_factors(adapter, name) {
            let front = choose|front: Seq<char>|
                name == #[trigger] (front + ".weight"@) && adapter.contains(
                    "base_model.model."@ + front + ".lora_A.weight"@,
                ) && adapter.contains("base_model.model."@ + front + ".lora_B.weight"@);
            law_weights_with_both_factors_are_merged(base, adapter, settings, front);
        } else if ends_with(name, ".weight"@) {
            let front = choose|front: Seq<char>| name == #[trigger] (front + ".weight"@);
            law_weights_with_both_factors_are_merged(base, adapter, settings, front);
        }
    }
}

/// An action is among others as often as names pass a test, if those and no others pass it that
/// have the action.
proof fn lemma_times_is_filter(
    names: Seq<Seq<char>>,
    actions: Seq<TensorAction>,
    action: TensorAction,
    test: spec_fn(Seq<char>) -> bool,
)
    requires
        names.len() == actions.len(),
        forall|i: int|
            0 <= i < names.len() ==> (#[trigger] actions[i] == action <==> test(names[i])),
    ensures
        times(actions, action) == names.filter(test).len(),
    decreases names.len(),
{
    reveal(Seq::filter);
    if names.len() > 0 {
        let last = names.len() - 1;
        assert(actions[last] == action <==> test(names[last]));
        assert forall|i: int| 0 <= i < last implies (#[trigger] actions.drop_last()[i] == action
            <==> test(names.drop_last()[i])) by {
            assert(actions[i] == actions.drop_last()[i]);
        }
        lemma_times_is_filter(names.drop_last(), actions.drop_last(), action, test);
    }
}

/// An action is among those of names as often as the names have it.
proof fn lemma_count_by_name<T>(
    base: Seq<Seq<char>>,
    adapter: Contents,
    settings: Settings<T>,
    action: TensorAction,
)
    ensures
        times(actions_of(name_plans(base, adapter, settings)), action) == count_by_name(
            base,
            names_of(adapter.heads),
            settings,
            action,
        ),
{
    let others = names_of(adapter.heads);
    let actions = actions_of(name_plans(base, adapter, settings));
    let test = |name: Seq<char>| action_by_name(base, others, settings, name) == action;
    assert forall|i: int| 0 <= i < base.len() implies (#[trigger] actions[i] == action <==> test(
        base[i],
    )) by {
        lemma_action_by_name(base, others, settings, base[i]);
    }
    lemma_times_is_filter(base, actions, action, test);
}

/// The counts of an analysis are those of the base tensors by their names: how many are in a module
/// to save, how many more have both factors, how many more are biases that the adapter has, and how
/// many are left.
pub proof fn law_analysis_counts_the_names<T>(
    info: DryRunInfo,
    files: Seq<Contents>,
    adapter: Contents,
    settings: Settings<T>,
    is_sharded: bool,
)
    requires
        predicts(info, files, adapter, settings, is_sharded),
    ensures
        ({
            let names = all_names(files);
            let others = names_of(adapter.heads);
            &&& info.base_tensor_count == names.len()
            &&& info.replacement_count == count_by_name(
                names,
                others,
                settings,
                TensorAction::Replaced,
            )
            &&& info.lora_target_count == count_by_name(
                names,
                others,
                settings,
                TensorAction::Merged,
            )
            &&& info.bias_merge_count == count_by_name(
                names,
                others,
                settings,
                TensorAction::BiasMerged,
            )
            &&& info.passthrough_count == count_by_name(
                names,
                others,
                settings,
                TensorAction::Copied,
            )
            &&& info.shard_count == files.len()
            &&& info.is_sharded == is_sharded
        }),
{
    let names = all_names(files);
    lemma_count_by_name(names, adapter, settings, TensorAction::Replaced);
    lemma_count_by_name(names, adapter, settings, TensorAction::Merged);
    lemma_count_by_name(names, adapter, settings, TensorAction::BiasMerged);
    lemma_count_by_name(names, adapter, settings, TensorAction::Copied);
}

/// The statistics of a merge are the counts of the base tensors by their names.
pub proof fn law_statistics_count_the_names<N: Numerics, S: Sink>(
    num: &N,
    base: Contents,
    adapter: Contents,
    settings: Settings<N::Single>,
    low_memory: bool,
    writer: S,
    r: (S, Result<MergeStats>),
)
    requires
        merge_result(num, base, adapter, settings, low_memory, writer, r),
        r.1 is Ok,
    ensures
        ({
            let names = names_of(base.heads);
            let others = names_of(adapter.heads);
            let stats = r.1->Ok_0;
            &&& stats.tensors_replaced == count_by_name(
                names,
                others,
                settings,
                TensorAction::Replaced,
            )
            &&& stats.tensors_merged == count_by_name(
                names,
                others,
                settings,
                TensorAction::Merged,
            )
            &&& stats.biases_merged == count_by_name(
                names,
                others,
                settings,
                TensorAction::BiasMerged,
            )
            &&& stats.tensors_copied == count_by_name(
                names,
                others,
                settings,
                TensorAction::Copied,
            )
        }),
{
    let names = names_of(base.heads);
    assert(merge_task(base, adapter, settings, low_memory).plans =~= name_plans(
        names,
        adapter,
        settings,
    ));
    lemma_count_by_name(names, adapter, settings, TensorAction::Replaced);
    lemma_count_by_name(names, adapter, settings, TensorAction::Merged);
    lemma_count_by_name(names, adapter, settings, TensorAction::BiasMerged);
    lemma_count_by_name(names, adapter, settings, TensorAction::Copied);
}

/// Statistics count each action as often as it is among the actions, whatever their order.
pub proof fn law_statistics_are_counts(stats: MergeStats, actions: Seq<TensorAction>)
    requires
        tallies(stats, actions),
    ensures
        stats.tensors_copied == actions.to_multiset().count(TensorAction::Copied),
        stats.tensors_merged == actions.to_multiset().count(TensorAction::Merged),
        stats.tensors_replaced == actions.to_multiset().count(TensorAction::Replaced),
        stats.biases_merged == actions.to_multiset().count(TensorAction::BiasMerged),
{
    lemma_times_is_multiplicity(actions, TensorAction::Copied);
    lemma_times_is_multiplicity(actions, TensorAction::Merged);
    lemma_times_is_multiplicity(actions, TensorAction::Replaced);
    lemma_times_is_multiplicity(actions, TensorAction::BiasMerged);
}

/// How often an action is among others is how often it is in their multiset.
proof fn lemma_times_is_multiplicity(actions: Seq<TensorAction>, action: TensorAction)
    ensures
        times(actions, action) == actions.to_multiset().count(action),
    decreases actions.len(),
{
    broadcast use vstd::seq_lib::group_to_multiset_ensures;

    if actions.len() > 0 {
        let front = actions.drop_last();
        lemma_times_is_multiplicity(front, action);
        assert(front.push(actions.last()) =~= actions);
    }
}

/// The names of several files are those of each, one file after the other, and the bytes are those
/// of the data of all.
pub proof fn law_files_are_taken_together(files: Seq<Contents>)
    requires
        forall|f: int| 0 <= f < files.len() ==> sound(#[trigger] files[f]),
    ensures
        all_names(files) == Seq::new(files.len(), |f: int| names_of(files[f].heads)).flatten_alt(),
        all_sizes(files) == concatenated(
            Seq::new(files.len(), |f: int| concatenated(files[f].data)),
        ).len(),
    decreases files.len(),
{
    let names = Seq::new(files.len(), |f: int| names_of(files[f].heads));
    let data = Seq::new(files.len(), |f: int| concatenated(files[f].data));
    if files.len() > 0 {
        let front = files.drop_last();
        let last = files.last();
        assert(sound(files[files.len() - 1]));
        assert forall|f: int| 0 <= f < front.len() implies sound(#[trigger] front[f]) by {
            assert(sound(files[f]));
        }
        law_files_are_taken_together(front);
        assert(names.drop_last() =~= Seq::new(front.len(), |f: int| names_of(front[f].heads)));
        assert(data.drop_last() =~= Seq::new(front.len(), |f: int| concatenated(front[f].data)));
        lemma_offset_is_length(last.heads, last.data, last.heads.len() as int);
        assert(last.data.take(last.data.len() as int) =~= last.data);
    }
}

/// The reports of progress count up by one from what was done before, each of the same total. The
/// first comes when what stands before the data was written, and between two of them one tensor is.
pub proof fn law_progress_goes_on_tensor_by_tensor(
    done: int,
    total: int,
    front: nat,
    out: Seq<Seq<u8>>,
)
    ensures
        ({
            let all = reports(done, out.len() + 1int, total, front, out);
            &&& all.len() == out.len() + 1
            &&& all[0].current == done
            &&& all[0].written == front
            &&& forall|i: int| 0 <= i < all.len() ==> (#[trigger] all[i]).total == total
            &&& forall|i: int|
                0 <= i < out.len() ==> all[i + 1].current == all[i].current + 1 && all[i
                    + 1].written == all[i].written + (#[trigger] out[i]).len()
            &&& all.last().current == done + out.len()
            &&& all.last().written == front + concatenated(out).len()
        }),
{
    let all = reports(done, out.len() + 1int, total, front, out);
    assert(out.take(0).len() == 0);
    assert forall|i: int| 0 <= i < out.len() implies all[i + 1].current == all[i].current + 1
        && all[i + 1].written == all[i].written + (#[trigger] out[i]).len() by {
        assert(out.take(i + 1).drop_last() =~= out.take(i));
    }
    assert(out.take(out.len() as int) =~= out);
}

/// What was written in two runs of events is what was written in the one and then in the other, and
/// the reports are those of the one and then of the other, behind what the first wrote. A write
/// adds its bytes and a report itself.
pub proof fn law_events_follow_each_other(
    first: Seq<Event>,
    second: Seq<Event>,
    bytes: Seq<u8>,
    current: int,
    total: int,
)
    ensures
        written(first + second) == written(first) + written(second),
        reported(first + second).len() == reported(first).len() + reported(second).len(),
        written(seq![Event::Write(bytes)]) == bytes,
        reported(seq![Event::Write(bytes)]).len() == 0,
        written(seq![Event::Progress(current, total)]).len() == 0,
        reported(seq![Event::Progress(current, total)]) == seq![
            Report { current, total, written: 0 },
        ],
        forall|i: int|
            0 <= i < reported(first).len() ==> #[trigger] reported(first + second)[i] == reported(
                first,
            )[i],
        forall|i: int|
            0 <= i < reported(second).len() ==> {
                let report = #[trigger] reported(second)[i];
                let shifted = reported(first + second)[reported(first).len() + i];
                &&& shifted.current == report.current
                &&& shifted.total == report.total
                &&& shifted.written == written(first).len() + report.written
            },
    decreases second.len(),
{
    let one = seq![Event::Write(bytes)];
    assert(one.drop_last() =~= Seq::<Event>::empty());
    assert(written(Seq::<Event>::empty()) + bytes =~= bytes);
    let other = seq![Event::Progress(current, total)];
    assert(other.drop_last() =~= Seq::<Event>::empty());
    reveal_with_fuel(reported, 2);
    assert(reported(other) =~= seq![Report { current, total, written: 0 }]);
    if second.len() == 0 {
        assert(first + second =~= first);
        assert(written(first) + written(second) =~= written(first));
    } else {
        let front = second.drop_last();
        law_events_follow_each_other(first, front, bytes, current, total);
        assert((first + second).drop_last() =~= first + front);
        assert(written(first + second) =~= written(first) + written(second));
        assert forall|i: int| 0 <= i < reported(second).len() implies {
            let report = #[trigger] reported(second)[i];
            let shifted = reported(first + second)[reported(first).len() + i];
            &&& shifted.current == report.current
            &&& shifted.total == report.total
            &&& shifted.written == written(first).len() + report.written
        } by {
            if i < reported(front).len() {
                assert(reported(second)[i] == reported(front)[i]);
                assert(reported(first + second)[reported(first).len() + i] == reported(
                    first + front,
                )[reported(first).len() + i]);
            }
        }
        assert forall|i: int| 0 <= i < reported(first).len() implies #[trigger] reported(
            first + second,
        )[i] == reported(first)[i] by {
            assert(reported(first + front)[i] == reported(first)[i]);
        }
    }
}

/// A configuration is valid if and only if it is one of LoRA with a rank.
pub proof fn law_configuration_is_valid(rank: u32, peft_type: Seq<char>)
    ensures
        config_fault(rank, peft_type) is None <==> rank >= 1 && peft_type == "LORA"@,
{
}

/// Whether a text is the warning that a factor of a base weight is skipped, as it has no partner.
pub open spec fn is_warning(
    base: Seq<Seq<char>>,
    adapter: Seq<Seq<char>>,
    factor: Seq<char>,
    partner: Seq<char>,
    text: Seq<char>,
) -> bool {
    exists|front: Seq<char>|
        base.contains(#[trigger] (front + ".weight"@)) && adapter.contains(
            "base_model.model."@ + front + "."@ + factor + ".weight"@,
        ) && !adapter.contains("base_model.model."@ + front + "."@ + partner + ".weight"@) && text
            == "warning: adapter has "@ + factor + " for '"@ + (front + ".weight"@)
            + "' but no matching "@ + partner + " (skipped)"@
}

/// The names of factors, put together.
proof fn lemma_factor_name(front: Seq<char>)
    ensures
        "base_model.model."@ + front + "."@ + "lora_A"@ + ".weight"@ == "base_model.model."@ + front
            + ".lora_A.weight"@,
        "base_model.model."@ + front + "."@ + "lora_B"@ + ".weight"@ == "base_model.model."@ + front
            + ".lora_B.weight"@,
{
    reveal_strlit(".");
    reveal_strlit("lora_A");
    reveal_strlit("lora_B");
    reveal_strlit(".weight");
    reveal_strlit(".lora_A.weight");
    reveal_strlit(".lora_B.weight");
    assert("."@ + "lora_A"@ + ".weight"@ =~= ".lora_A.weight"@);
    assert("."@ + "lora_B"@ + ".weight"@ =~= ".lora_B.weight"@);
    assert("base_model.model."@ + front + "."@ + "lora_A"@ + ".weight"@ =~= "base_model.model."@
        + front + ("."@ + "lora_A"@ + ".weight"@));
    assert("base_model.model."@ + front + "."@ + "lora_B"@ + ".weight"@ =~= "base_model.model."@
        + front + ("."@ + "lora_B"@ + ".weight"@));
}

/// Warnings of different factors or names differ.
proof fn lemma_warnings_differ(
    factor: Seq<char>,
    partner: Seq<char>,
    name: Seq<char>,
    other_factor: Seq<char>,
    other_partner: Seq<char>,
    other: Seq<char>,
)
    requires
        factor.len() == other_factor.len(),
        partner.len() == other_partner.len(),
        skipped_warning(factor, name, partner) == skipped_warning(
            other_factor,
            other,
            other_partner,
        ),
    ensures
        factor == other_factor,
        name == other,
{
    let text = skipped_warning(factor, name, partner);
    let same = skipped_warning(other_factor, other, other_partner);
    let start = "warning: adapter has "@.len() as int;
    let middle = start + factor.len() + " for '"@.len();
    assert(text.len() == middle + name.len() + "' but no matching "@.len() + partner.len()
        + " (skipped)"@.len());
    assert(same.len() == middle + other.len() + "' but no matching "@.len() + partner.len()
        + " (skipped)"@.len());
    assert(name.len() == other.len());
    assert(text.subrange(start, start + factor.len()) =~= factor);
    assert(same.subrange(start, start + factor.len()) =~= other_factor);
    assert(text.subrange(middle, middle + name.len()) =~= name);
    assert(same.subrange(middle, middle + name.len()) =~= other);
}

/// There is one warning for each low-rank factor of a base weight whose partner the adapter lacks,
/// of either kind, and there is no other.
pub proof fn law_each_factor_without_partner_is_warned_of(
    base: Seq<Seq<char>>,
    adapter: Seq<Seq<char>>,
    warnings: Seq<Seq<char>>,
)
    requires
        warned(base, adapter, warnings),
    ensures
        forall|text: Seq<char>| #[trigger]
            warnings.contains(text) <==> is_warning(base, adapter, "lora_A"@, "lora_B"@, text)
                || is_warning(base, adapter, "lora_B"@, "lora_A"@, text),
        warnings.no_duplicates(),
{
    let (first, second) = choose|first: Seq<Seq<char>>, second: Seq<Seq<char>>| #[trigger]
        lack_b(base, adapter, first) && #[trigger] lack_a(base, adapter, second) && warnings
            == skipped_warnings("lora_A"@, first, "lora_B"@) + skipped_warnings(
            "lora_B"@,
            second,
            "lora_A"@,
        );
    let one = skipped_warnings("lora_A"@, first, "lora_B"@);
    let two = skipped_warnings("lora_B"@, second, "lora_A"@);
    assert forall|text: Seq<char>| #[trigger] warnings.contains(text) <==> is_warning(
        base,
        adapter,
        "lora_A"@,
        "lora_B"@,
        text,
    ) || is_warning(base, adapter, "lora_B"@, "lora_A"@, text) by {
        if warnings.contains(text) {
            let k = choose|k: int| 0 <= k < warnings.len() && warnings[k] == text;
            let name = if k < first.len() {
                first[k]
            } else {
                second[k - first.len()]
            };
            if k < first.len() {
                assert(first.contains(name));
                assert(text == one[k]);
            } else {
                assert(second.contains(name));
                assert(text == two[k - first.len()]);
            }
            let front = stem(name);
            lemma_ends_with(name, ".weight"@);
            assert(name =~= front + ".weight"@);
            lemma_factor_name(front);
            lemma_listed(base, name);
            lemma_listed(adapter, "base_model.model."@ + front + ".lora_A.weight"@);
            lemma_listed(adapter, "base_model.model."@ + front + ".lora_B.weight"@);
            assert(base.contains(front + ".weight"@));
            if k < first.len() {
                assert(is_warning(base, adapter, "lora_A"@, "lora_B"@, text));
            } else {
                assert(is_warning(base, adapter, "lora_B"@, "lora_A"@, text));
            }
        }
        if is_warning(base, adapter, "lora_A"@, "lora_B"@, text) {
            let front = choose|front: Seq<char>|
                base.contains(#[trigger] (front + ".weight"@)) && adapter.contains(
                    "base_model.model."@ + front + "."@ + "lora_A"@ + ".weight"@,
                ) && !adapter.contains(
                    "base_model.model."@ + front + "."@ + "lora_B"@ + ".weight"@,
                ) && text == "warning: adapter has "@ + "lora_A"@ + " for '"@ + (front
                    + ".weight"@) + "' but no matching "@ + "lora_B"@ + " (skipped)"@;
            let name = front + ".weight"@;
            lemma_factor_name(front);
            lemma_ends_with(name, ".weight"@);
            assert(stem(name) =~= front);
            lemma_listed(base, name);
            lemma_listed(adapter, "base_model.model."@ + front + ".lora_A.weight"@);
            lemma_listed(adapter, "base_model.model."@ + front + ".lora_B.weight"@);
            assert(first.contains(name));
            let k = choose|k: int| 0 <= k < first.len() && first[k] == name;
            assert(one[k] == text);
            assert(warnings[k] == text);
        }
        if is_warning(base, adapter, "lora_B"@, "lora_A"@, text) {
            let front = choose|front: Seq<char>|
                base.contains(#[trigger] (front + ".weight"@)) && adapter.contains(
                    "base_model.model."@ + front + "."@ + "lora_B"@ + ".weight"@,
                ) && !adapter.contains(
                    "base_model.model."@ + front + "."@ + "lora_A"@ + ".weight"@,
                ) && text == "warning: adapter has "@ + "lora_B"@ + " for '"@ + (front
                    + ".weight"@) + "' but no matching "@ + "lora_A"@ + " (skipped)"@;
            let name = front + ".weight"@;
            lemma_factor_name(front);
            lemma_ends_with(name, ".weight"@);
            assert(stem(name) =~= front);
            lemma_listed(base, name);
            lemma_listed(adapter, "base_model.model."@ + front + ".lora_A.weight"@);
            lemma_listed(adapter, "base_model.model."@ + front + ".lora_B.weight"@);
            assert(second.contains(name));
            let k = choose|k: int| 0 <= k < second.len() && second[k] == name;
            assert(two[k] == text);
            assert(warnings[one.len() + k] == text);
        }
    }
    assert forall|i: int, j: int|
        0 <= i < warnings.len() && 0 <= j < warnings.len() && i != j implies warnings[i]
        != warnings[j] by {
        let count = first.len() as int;
        reveal_strlit("lora_A");
        reveal_strlit("lora_B");
        let a = "lora_A"@;
        let b = "lora_B"@;
        assert(a[5] != b[5]);
        if warnings[i] == warnings[j] {
            if i < count && j < count {
                lemma_warnings_differ(a, b, first[i], a, b, first[j]);
            } else if i < count {
                lemma_warnings_differ(a, b, first[i], b, a, second[j - count]);
            } else if j < count {
                lemma_warnings_differ(b, a, second[i - count], a, b, first[j]);
            } else {
                lemma_warnings_differ(b, a, second[i - count], b, a, second[j - count]);
            }
        }
    }
}

} // verus!
