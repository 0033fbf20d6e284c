//! What comes of calling the functions of the library.

use crate::config::{AdapterConfig, BiasMode, Settings};
use crate::convert::{
    bits_at, bytes_to_f32, bytes_to_f64, element_bytes, f32_to_bytes, f64_to_bytes,
    law_bits_of_element_bytes, piece, stores_double,
};
use crate::counting::{
    action_by_name, count_by_name, is_warning, law_analysis_counts_the_names,
    law_each_factor_without_partner_is_warned_of, law_files_are_taken_together,
    law_statistics_are_counts, law_statistics_count_the_names, lemma_action_by_name,
};
use crate::delta::dimensioned;
use crate::dry_run::{all_names, all_opened, dry_run_info, dry_run_result, DryRunInfo};
use crate::dtype::{dtype_byte_size, stored_size, Dtype};
use crate::error::{Fault, Result, SurgeryError};
use crate::formula::{
    change, exact, law_merge_adds_the_scaled_product, lemma_little_endian, lemma_named, weight,
    Model,
};
use crate::header::{
    concatenated, file_bytes, offset, preamble, sizable, size, Contents, Head, TensorInfo,
};
use crate::indexing::{law_index_has_the_last_pair_of_each_name, last_of_its_name};
use crate::io::{
    fault_at, forewarned, mapped_task, merge_adapter, merge_mapped, merge_result, names_of, opened,
    outputs, reports, unreadable_file, BaseModel, MergeOutcome,
};
use crate::mapped::{
    lemma_position, lists, position, same_contents, sound, tensor_named, writable, written_header,
    MappedSafetensors,
};
use crate::matching::{
    law_names_are_refused_without_a_target, law_segments_stand_between_dots,
    law_weights_with_both_factors_are_merged, some_target, split,
};
use crate::merge::{merge_bias, streaming_lora_merge_write};
use crate::names::{
    build_name_mapping, has_path_segment, lack_a, lack_b, maps_names, warned, NameMapping,
};
use crate::numerics::{lemma_place_within, Matrix, Numerics};
use crate::process::{
    lemma_mapped_plan, mapped_plan, planned_action, process_tensor, tensor_output,
};
use crate::reading::{all_digits, law_decimal_is_read_as_its_number, number};
use crate::refusing::{accepted, is_merged, law_merge_succeeds_unless_refused};
use crate::rounding::{
    element, law_each_weight_is_rounded_once, lemma_rounds_single, made, rounds_single, value,
};
use crate::shard::{names_file, rows_for, text_pairs, ShardIndex, ShardedMerge};
use crate::sink::{happened, ran, reported, steady, told, written, wrote, Event, Sink};
use crate::sorted::lemma_value_of;
use crate::stats::{MergeStats, TensorAction};
use crate::text::{decimal, joined, joined_decimals, plain, precedes, texts};
use crate::tiling::{determined, row_wise};
use crate::whole::{
    determined_singles, law_low_memory_changes_no_model, law_model_is_made_by_name,
    counts_up, lemma_made_by_name, made_by_name,
};
use vstd::prelude::*;

verus! {

/// A configuration is valid if and only if it is one of LoRA with a rank, and is taken as it is
/// given.
pub proof fn law_configuration_is_taken_as_given<T>(
    r: u32,
    lora_alpha: T,
    target_modules: Vec<String>,
    fan_in_fan_out: bool,
    bias: BiasMode,
    modules_to_save: Option<Vec<String>>,
    peft_type: &str,
    config: Result<AdapterConfig<T>>,
)
    requires
        call_ensures(
            AdapterConfig::<T>::from_fields,
            (
                r,
                lora_alpha,
                target_modules,
                fan_in_fan_out,
                bias,
                modules_to_save,
                peft_type,
            ),
            config,
        ),
    ensures
        config is Ok <==> r >= 1 && peft_type@ == "LORA"@,
        config matches Ok(config) ==> config@.rank == r && config@.alpha == lora_alpha
            && config@.target_modules == target_modules@ && config@.fan_in_fan_out
            == fan_in_fan_out && config@.bias == bias && (config@.modules_to_save is Some
            <==> modules_to_save is Some) && (modules_to_save matches Some(modules)
            ==> config@.modules_to_save == Some(modules@)),
{
}

/// The scaling of a configuration is its alpha divided by its rank.
pub proof fn law_scaling_is_alpha_over_rank<N: Numerics>(
    config: &AdapterConfig<N::Single>,
    num: &N,
    r: N::Single,
)
    requires
        call_ensures(AdapterConfig::<N::Single>::scaling::<N>, (config, num), r),
    ensures
        call_ensures(N::quotient, (num, &config@.alpha, config@.rank), r),
{
}

/// A name has a segment if and only if that is one of its parts between dots.
pub proof fn law_segment_is_a_part_between_dots(name: &str, segment: &str, r: bool)
    requires
        call_ensures(has_path_segment, (name, segment), r),
    ensures
        r <==> split(name@, '.').contains(segment@),
{
    law_segments_stand_between_dots(name@, segment@);
}

/// The elements of types that are merged take two bytes or four, and those of others are refused.
pub proof fn law_merged_elements_take_two_bytes_or_four(dtype: Dtype, r: Result<usize>)
    requires
        call_ensures(dtype_byte_size, (dtype,), r),
    ensures
        r matches Ok(size) ==> size == (if dtype == Dtype::F32 {
            4int
        } else {
            2int
        }),
        r is Ok <==> is_merged(dtype),
{
}

/// Merging factors into a tensor adds the scaled product to each weight.
pub proof fn law_streamed_merge_adds_the_scaled_product<N: Numerics, S: Sink, R>(
    m: Model<N, R>,
    base_bytes: &[u8],
    lora_a: &Matrix<N::Double>,
    lora_b: &Matrix<N::Double>,
    scaling: &N::Double,
    fan_in_fan_out: bool,
    base_shape: &[usize],
    dtype: Dtype,
    low_memory: bool,
    num: &N,
    writer: S,
    r: (S, Result<()>),
)
    requires
        exact(num, m),
        lora_a@.values.len() == lora_a@.rows * lora_a@.cols,
        lora_b@.values.len() == lora_b@.rows * lora_b@.cols,
        call_ensures(
            streaming_lora_merge_write::<N, S>,
            (
                base_bytes,
                lora_a,
                lora_b,
                scaling,
                fan_in_fan_out,
                base_shape,
                dtype,
                low_memory,
                num,
                writer,
            ),
            r,
        ),
        r.1 is Ok,
    ensures
        base_shape@.len() == 2,
        is_merged(dtype),
        exists|out: Seq<u8>| #[trigger]
            wrote(writer, out, r.0) && out.len() == base_bytes@.len() && forall|i: int, j: int|
                0 <= i < base_shape@[0] && 0 <= j < base_shape@[1] ==> #[trigger] weight(
                    m,
                    dtype,
                    out,
                    i * base_shape@[1] + j,
                ) == (m.plus)(
                    weight(m, dtype, base_bytes@, i * base_shape@[1] + j),
                    (m.times)(
                        change(
                            m,
                            lora_a@,
                            lora_b@,
                            fan_in_fan_out,
                            base_shape@[0] as int,
                            base_shape@[1] as int,
                            i,
                            j,
                        ),
                        (m.double)(*scaling),
                    ),
                ),
{
    law_merge_adds_the_scaled_product(
        num,
        m,
        base_bytes@,
        *lora_a,
        *lora_b,
        *scaling,
        fan_in_fan_out,
        base_shape@,
        dtype,
        low_memory,
        writer,
        r,
    );
}

/// Merging factors into a tensor makes each weight in the same steps, for all element types.
pub proof fn law_streamed_merge_rounds_each_weight_once<N: Numerics, S: Sink>(
    base_bytes: &[u8],
    lora_a: &Matrix<N::Double>,
    lora_b: &Matrix<N::Double>,
    scaling: &N::Double,
    fan_in_fan_out: bool,
    base_shape: &[usize],
    dtype: Dtype,
    low_memory: bool,
    num: &N,
    writer: S,
    r: (S, Result<()>),
)
    requires
        lora_a@.values.len() == lora_a@.rows * lora_a@.cols,
        lora_b@.values.len() == lora_b@.rows * lora_b@.cols,
        call_ensures(
            streaming_lora_merge_write::<N, S>,
            (
                base_bytes,
                lora_a,
                lora_b,
                scaling,
                fan_in_fan_out,
                base_shape,
                dtype,
                low_memory,
                num,
                writer,
            ),
            r,
        ),
        r.1 is Ok,
    ensures
        exists|out: Seq<u8>| #[trigger]
            wrote(writer, out, r.0) && out.len() == base_bytes@.len() && forall|i: int, j: int|
                0 <= i < base_shape@[0] && 0 <= j < base_shape@[1] ==> #[trigger] made(
                    num,
                    dtype,
                    base_bytes@,
                    lora_a@,
                    lora_b@,
                    *scaling,
                    fan_in_fan_out,
                    base_shape@,
                    out,
                    i,
                    j,
                ),
{
    law_each_weight_is_rounded_once(
        num,
        base_bytes@,
        *lora_a,
        *lora_b,
        *scaling,
        fan_in_fan_out,
        base_shape@,
        dtype,
        low_memory,
        writer,
        r,
    );
}

/// A base model of one file that cannot be read is refused, and so is an adapter that cannot, and
/// the sink is left alone.
pub proof fn law_unreadable_files_are_refused<N: Numerics, S: Sink>(
    bytes: &[u8],
    adapter_weights: &[u8],
    config: &AdapterConfig<N::Single>,
    low_memory: bool,
    num: &N,
    writer: S,
    r: (S, Result<MergeOutcome>),
)
    requires
        call_ensures(
            merge_adapter::<N, S>,
            (BaseModel::SingleFile(bytes), adapter_weights, config, low_memory, num, writer),
            r,
        ),
        unreadable_file(bytes@) || unreadable_file(adapter_weights@),
    ensures
        r.1 is Err,
        r.0 == writer,
{
}

/// Merging an adapter into a base model of one file, if it succeeds, writes a file of the base's
/// tensors, in its order, of its types and shapes and with its notes, each of which holds what is
/// to be made of it by its name. The reports count up to the number of tensors, and the statistics
/// count what was done, by the names.
pub proof fn law_merge_makes_the_model_by_name<N: Numerics, S: Sink, R>(
    m: Model<N, R>,
    bytes: &[u8],
    adapter_weights: &[u8],
    config: &AdapterConfig<N::Single>,
    low_memory: bool,
    num: &N,
    writer: S,
    r: (S, Result<MergeOutcome>),
)
    requires
        exact(num, m),
        call_ensures(
            merge_adapter::<N, S>,
            (BaseModel::SingleFile(bytes), adapter_weights, config, low_memory, num, writer),
            r,
        ),
        r.1 is Ok,
    ensures
        r.1->Ok_0 is Merged,
        exists|
            base: Contents,
            adapter: Contents,
            start: S,
            events: Seq<Event>,
            out: Seq<Seq<u8>>,
        | #[trigger]
            opened(bytes@, base) && #[trigger] opened(adapter_weights@, adapter) && forewarned(
                names_of(base.heads),
                names_of(adapter.heads),
                writer,
                start,
            ) && #[trigger] ran(start, events, r.0) && written(events) == #[trigger] file_bytes(
                Contents { heads: base.heads, data: out, notes: base.notes },
            ) && out.len() == base.heads.len() && (forall|i: int|
                0 <= i < out.len() ==> made_by_name(
                    num,
                    m,
                    names_of(base.heads),
                    base.heads[i],
                    base.data[i],
                    adapter,
                    config@,
                    #[trigger] out[i],
                )) && counts_up(reported(events), out.len()) && counts_by_name(
                r.1->Ok_0->Merged_0,
                names_of(base.heads),
                names_of(adapter.heads),
                config@,
            ),
{
    let stats = r.1->Ok_0->Merged_0;
    let same: (S, Result<MergeStats>) = (r.0, Ok(stats));
    let (base, adapter) = choose|base: Contents, adapter: Contents| #[trigger]
        opened(bytes@, base) && #[trigger] opened(adapter_weights@, adapter)
            && merge_result(num, base, adapter, config@, low_memory, writer, same);
    law_model_is_made_by_name(num, m, base, adapter, config@, low_memory, writer, same);
    law_statistics_count_the_names(num, base, adapter, config@, low_memory, writer, same);
    let (start, events, out) = choose|start: S, events: Seq<Event>, out: Seq<Seq<u8>>|
        forewarned(names_of(base.heads), names_of(adapter.heads), writer, start) && #[trigger] ran(
            start,
            events,
            r.0,
        ) && written(events) == #[trigger] file_bytes(
            Contents { heads: base.heads, data: out, notes: base.notes },
        ) && out.len() == base.heads.len() && (forall|i: int|
            0 <= i < out.len() ==> made_by_name(
                num,
                m,
                names_of(base.heads),
                base.heads[i],
                base.data[i],
                adapter,
                config@,
                #[trigger] out[i],
            )) && counts_up(reported(events), out.len());
    assert(opened(bytes@, base) && opened(adapter_weights@, adapter));
    assert(ran(start, events, r.0));
}

/// Whether statistics are the counts of base tensors by their names.
pub open spec fn counts_by_name<T>(
    stats: MergeStats,
    names: Seq<Seq<char>>,
    others: Seq<Seq<char>>,
    settings: Settings<T>,
) -> bool {
    &&& stats.tensors_replaced == count_by_name(names, others, settings, TensorAction::Replaced)
    &&& stats.tensors_merged == count_by_name(names, others, settings, TensorAction::Merged)
    &&& stats.biases_merged == count_by_name(names, others, settings, TensorAction::BiasMerged)
    &&& stats.tensors_copied == count_by_name(names, others, settings, TensorAction::Copied)
}

/// If no write fails and products have their dimensions, merging an adapter into a base model of
/// one file, where both can be read, fails only for a reason: no target module matches, a tensor of
/// the base is of a type that is not merged, or what is to be made of one cannot be made.
pub proof fn law_merge_fails_only_for_a_reason<N: Numerics, S: Sink>(
    bytes: &[u8],
    adapter_weights: &[u8],
    config: &AdapterConfig<N::Single>,
    low_memory: bool,
    num: &N,
    writer: S,
    r: (S, Result<MergeOutcome>),
)
    requires
        steady::<S>(),
        dimensioned(num),
        call_ensures(
            merge_adapter::<N, S>,
            (BaseModel::SingleFile(bytes), adapter_weights, config, low_memory, num, writer),
            r,
        ),
        !unreadable_file(bytes@),
        !unreadable_file(adapter_weights@),
    ensures
        exists|base: Contents, adapter: Contents| #[trigger]
            opened(bytes@, base) && #[trigger] opened(adapter_weights@, adapter) && (r.1 is Ok
                <==> {
                &&& config@.target_modules.len() == 0 || some_target(
                    names_of(base.heads),
                    names_of(adapter.heads),
                    config@.target_modules,
                )
                &&& forall|i: int|
                    0 <= i < base.heads.len() ==> is_merged((#[trigger] base.heads[i]).dtype)
                &&& forall|i: int|
                    0 <= i < base.heads.len() ==> #[trigger] accepted(base, adapter, config@, i)
            }),
{
    let same: (S, Result<MergeStats>) = match r.1 {
        Ok(MergeOutcome::Merged(stats)) => (r.0, Ok(stats)),
        Ok(_) => arbitrary(),
        Err(error) => (r.0, Err(error)),
    };
    let (base, adapter) = choose|base: Contents, adapter: Contents| #[trigger]
        opened(bytes@, base) && #[trigger] opened(adapter_weights@, adapter)
            && merge_result(num, base, adapter, config@, low_memory, writer, same);
    law_merge_succeeds_unless_refused(num, base, adapter, config@, low_memory, writer, same);
    assert(opened(bytes@, base) && opened(adapter_weights@, adapter));
}

/// Merging an adapter into a base model with `low_memory` writes, reports and counts what it does
/// without, if the arithmetic has one result each and products go row by row.
pub proof fn law_merge_is_the_same_with_low_memory<N: Numerics, S: Sink>(
    base: &MappedSafetensors<'_>,
    adapter: &MappedSafetensors<'_>,
    config: &AdapterConfig<N::Single>,
    num: &N,
    first: S,
    tiled: (S, Result<MergeStats>),
    second: S,
    whole: (S, Result<MergeStats>),
)
    requires
        determined(num),
        determined_singles(num),
        row_wise(num),
        call_ensures(merge_mapped::<N, S>, (base, adapter, config, true, num, first), tiled),
        call_ensures(merge_mapped::<N, S>, (base, adapter, config, false, num, second), whole),
        tiled.1 is Ok,
        whole.1 is Ok,
    ensures
        tiled.1->Ok_0 == whole.1->Ok_0,
        exists|s: S, e: Seq<Event>, t: S, f: Seq<Event>| #[trigger]
            ran(s, e, tiled.0) && #[trigger] ran(t, f, whole.0) && forewarned(
                names_of(base@.heads),
                names_of(adapter@.heads),
                first,
                s,
            ) && forewarned(names_of(base@.heads), names_of(adapter@.heads), second, t) && written(
                e,
            ) == written(f) && reported(e) == reported(f),
{
    law_low_memory_changes_no_model(num, base@, adapter@, config@, first, tiled, second, whole);
}

/// A file that was written with some contents, if they can be written, is opened, and has each of
/// the tensors under its name, with its type, shape and data.
pub proof fn law_written_files_are_read_back(
    bytes: &[u8],
    contents: Contents,
    i: int,
    r: Result<MappedSafetensors<'_>>,
)
    requires
        call_ensures(MappedSafetensors::open, (bytes,), r),
        writable(contents),
        bytes@ == file_bytes(contents),
        0 <= i < contents.heads.len(),
    ensures
        r is Ok,
        names_of((r->Ok_0)@.heads).contains(contents.heads[i].name),
        forall|k: int|
            0 <= k < (r->Ok_0)@.heads.len() && (#[trigger] (r->Ok_0)@.heads[k]).name
                == contents.heads[i].name ==> (r->Ok_0)@.heads[k] == contents.heads[i] && (
            r->Ok_0)@.data[k] == contents.data[i],
        (r->Ok_0)@.notes == contents.notes,
{
    let file = (r->Ok_0)@;
    let name = contents.heads[i].name;
    assert(same_contents(file, contents));
    lemma_position(contents.heads, name, 0);
    let p = position(contents.heads, name, 0)->0;
    assert(contents.heads[p].name == contents.heads[i].name);
    assert(p == i);
    assert(tensor_named(file, name) == Some((contents.heads[i], contents.data[i])));
    lemma_position(file.heads, name, 0);
    let q = position(file.heads, name, 0)->0;
    assert(names_of(file.heads)[q] == name);
    assert forall|k: int|
        0 <= k < file.heads.len() && (#[trigger] file.heads[k]).name
            == name implies file.heads[k] == contents.heads[i] && file.data[k]
        == contents.data[i] by {
        lemma_named(file, k);
    }
}

/// A file that was written with some contents, none of which is empty, has its tensors in the order
/// in which they were written.
pub proof fn law_written_files_keep_their_order(
    bytes: &[u8],
    contents: Contents,
    r: Result<MappedSafetensors<'_>>,
    i: int,
    j: int,
    k: int,
    l: int,
)
    requires
        call_ensures(MappedSafetensors::open, (bytes,), r),
        writable(contents),
        bytes@ == file_bytes(contents),
        0 <= i < j < contents.heads.len(),
        contents.data[i].len() > 0,
        0 <= k < (r->Ok_0)@.heads.len(),
        0 <= l < (r->Ok_0)@.heads.len(),
        (r->Ok_0)@.heads[k].name == contents.heads[i].name,
        (r->Ok_0)@.heads[l].name == contents.heads[j].name,
    ensures
        k < l,
{
    let file = (r->Ok_0)@;
    let heads = contents.heads;
    let header = written_header(contents);
    assert(lists(bytes@, header, file));
    assert(header.tensors.contains_key(file.heads[k].name));
    assert(header.tensors.contains_key(file.heads[l].name));
    let p = choose|p: int|
        0 <= p < heads.len() && #[trigger] heads[p].name == file.heads[k].name;
    let q = choose|q: int|
        0 <= q < heads.len() && #[trigger] heads[q].name == file.heads[l].name;
    assert(heads[p].name == heads[i].name && heads[q].name == heads[j].name);
    assert(p == i && q == j);
    lemma_offsets_grow(heads, i + 1, j);
    assert(size(heads[i]) > 0);
    assert(header.tensors[file.heads[k].name].start < header.tensors[file.heads[l].name].start);
}

/// A tensor starts no earlier than those before it.
proof fn lemma_offsets_grow(heads: Seq<Head>, i: int, j: int)
    requires
        0 <= i <= j,
    ensures
        offset(heads, i) <= offset(heads, j),
    decreases j - i,
{
    if i < j {
        lemma_offsets_grow(heads, i, j - 1);
    }
}

/// Whether a text lists numbers, each in decimal, with a comma and a blank between each two.
pub open spec fn lists_numbers(text: Seq<char>, numbers: Seq<usize>) -> bool {
    exists|parts: Seq<Seq<char>>|
        text == #[trigger] joined(parts, ", "@) && parts.len() == numbers.len() && forall|i: int|
            0 <= i < numbers.len() ==> all_digits(#[trigger] parts[i]) && number(parts[i])
                == numbers[i]
}

/// Numbers that are joined are listed.
proof fn lemma_lists_numbers(numbers: Seq<usize>)
    ensures
        lists_numbers(joined_decimals(numbers, ", "@), numbers),
{
    let parts = Seq::new(numbers.len(), |i: int| decimal(numbers[i] as nat));
    assert forall|i: int| 0 <= i < numbers.len() implies all_digits(#[trigger] parts[i]) && number(
        parts[i],
    ) == numbers[i] by {
        law_decimal_is_read_as_its_number(numbers[i] as nat);
    }
    assert(joined_decimals(numbers, ", "@) == joined(parts, ", "@));
}

/// What is said of a shape that is not the one that was expected names the tensor, then the shape
/// that was expected, and then the one that was found.
pub proof fn law_message_tells_expected_and_found(error: &SurgeryError, r: String)
    requires
        call_ensures(SurgeryError::message, (error,), r),
        error is ShapeMismatch,
    ensures
        exists|wanted: Seq<char>, found: Seq<char>| #[trigger]
            lists_numbers(wanted, error->expected@) && #[trigger] lists_numbers(
                found,
                error->ShapeMismatch_got@,
            ) && r@ == "shape mismatch for tensor '"@ + error->ShapeMismatch_name@
                + "': expected ["@ + wanted + "], got ["@ + found + "]"@,
{
    lemma_lists_numbers(error->expected@);
    lemma_lists_numbers(error->ShapeMismatch_got@);
}

/// What is done with a tensor is told by its name, the names of all base tensors and those of the
/// adapter's.
pub proof fn law_mapping_tells_what_is_done(
    base_names: &[&str],
    adapter_names: &[&str],
    target_modules: &[String],
    modules_to_save: Option<&[String]>,
    outcome: Result<NameMapping>,
    mode: &BiasMode,
    name: &str,
    r: TensorAction,
)
    requires
        call_ensures(
            build_name_mapping,
            (base_names, adapter_names, target_modules, modules_to_save),
            outcome,
        ),
        outcome is Ok,
        call_ensures(planned_action, (&outcome->Ok_0, mode, name), r),
        plain(base_names@).contains(name@),
    ensures
        ({
            let settings = Settings::<()> {
                rank: 1,
                alpha: (),
                target_modules: target_modules@,
                fan_in_fan_out: false,
                bias: *mode,
                modules_to_save: match modules_to_save {
                    Some(modules) => Some(modules@),
                    None => None,
                },
            };
            r == action_by_name(plain(base_names@), plain(adapter_names@), settings, name@)
        }),
{
    let settings = Settings::<()> {
        rank: 1,
        alpha: (),
        target_modules: target_modules@,
        fan_in_fan_out: false,
        bias: *mode,
        modules_to_save: match modules_to_save {
            Some(modules) => Some(modules@),
            None => None,
        },
    };
    lemma_mapped_plan(
        &outcome->Ok_0,
        plain(base_names@),
        plain(adapter_names@),
        settings,
        name@,
    );
    lemma_action_by_name(plain(base_names@), plain(adapter_names@), settings, name@);
}

/// The mapping between names gives a tensor the sources that the adapter has under the names that
/// belong to it: both factors or none, the same name behind the prefix for a bias, and for what
/// replaces it.
pub proof fn law_mapping_gives_the_sources(
    base_names: &[&str],
    adapter_names: &[&str],
    target_modules: &[String],
    modules_to_save: Option<&[String]>,
    outcome: Result<NameMapping>,
    front: Seq<char>,
)
    requires
        call_ensures(
            build_name_mapping,
            (base_names, adapter_names, target_modules, modules_to_save),
            outcome,
        ),
        plain(base_names@).contains(front + ".weight"@),
    ensures
        ({
            let others = plain(adapter_names@);
            let a = "base_model.model."@ + front + ".lora_A.weight"@;
            let b = "base_model.model."@ + front + ".lora_B.weight"@;
            outcome matches Ok(mapping) ==> mapping.lora(front + ".weight"@) == (
            if others.contains(a) && others.contains(b) {
                Some((a, b))
            } else {
                None
            })
        }),
        outcome is Ok <==> target_modules@.len() == 0 || some_target(
            plain(base_names@),
            plain(adapter_names@),
            target_modules@,
        ),
{
    let settings = Settings::<()> {
        rank: 1,
        alpha: (),
        target_modules: target_modules@,
        fan_in_fan_out: false,
        bias: BiasMode::NoBias,
        modules_to_save: None,
    };
    law_names_are_refused_without_a_target(plain(base_names@), plain(adapter_names@), settings);
    law_weights_with_both_factors_are_merged(
        plain(base_names@),
        plain(adapter_names@),
        settings,
        front,
    );
}

/// Each element of a matrix that was read is the number that the bytes in its place stand for.
pub proof fn law_reading_goes_element_by_element<N: Numerics>(
    bytes: &[u8],
    dtype: Dtype,
    shape: &[usize],
    name: &str,
    num: &N,
    single: Result<Matrix<N::Single>>,
    double: Result<Matrix<N::Double>>,
    i: int,
    j: int,
)
    requires
        call_ensures(bytes_to_f32::<N>, (bytes, dtype, shape, name, num), single),
        call_ensures(bytes_to_f64::<N>, (bytes, dtype, shape, name, num), double),
        0 <= i < shape@[0],
        0 <= j < shape@[1],
    ensures
        single is Ok <==> double is Ok,
        single is Ok <==> shape@.len() == 2 && is_merged(dtype) && bytes@.len() == shape@[0]
            * shape@[1] * (if dtype == Dtype::F32 {
            4int
        } else {
            2int
        }),
        single matches Ok(matrix) ==> matrix@.rows == shape@[0] && matrix@.cols == shape@[1]
            && call_ensures(
            N::single,
            (num, dtype, element(dtype, bytes@, i * shape@[1] + j) as u32),
            value(matrix@, i, j),
        ),
        double matches Ok(matrix) ==> matrix@.rows == shape@[0] && matrix@.cols == shape@[1]
            && call_ensures(
            N::double,
            (num, dtype, element(dtype, bytes@, i * shape@[1] + j) as u32),
            value(matrix@, i, j),
        ),
{
    if single is Ok {
        let rows = shape@[0] as int;
        let cols = shape@[1] as int;
        let at = i * cols + j;
        let size = stored_size(dtype);
        lemma_place_within(i, rows, cols, j + 1);
        assert((at + 1) * size <= rows * cols * size) by (nonlinear_arith)
            requires
                at + 1 <= rows * cols,
        ;
        lemma_little_endian(bytes@, dtype, at);
        let x = (single->Ok_0)@.values[at];
        let y = (double->Ok_0)@.values[at];
    }
}

/// Each number of a matrix that was written is rounded to the element in its place.
pub proof fn law_writing_goes_element_by_element<N: Numerics>(
    array: &Matrix<N::Single>,
    dtype: Dtype,
    num: &N,
    r: Result<Vec<u8>>,
    i: int,
)
    requires
        call_ensures(f32_to_bytes::<N>, (array, dtype, num), r),
        0 <= i < array@.values.len(),
    ensures
        r is Ok <==> is_merged(dtype),
        r matches Ok(bytes) ==> bytes@.len() == array@.values.len() * (if dtype == Dtype::F32 {
            4int
        } else {
            2int
        }) && rounds_single(num, dtype, array@.values[i], element(dtype, bytes@, i)),
{
    if r is Ok {
        lemma_rounds_single(num, dtype, array@.values, (r->Ok_0)@, i);
    }
}

/// Looking at a merge counts the base tensors of all files by their names, as a merge does, and the
/// bytes of their data.
pub proof fn law_dry_run_counts_the_names<T, S: Sink>(
    base_files: &[&[u8]],
    is_sharded: bool,
    adapter_weights: &[u8],
    config: &AdapterConfig<T>,
    writer: S,
    r: (S, Result<DryRunInfo>),
)
    requires
        call_ensures(
            dry_run_info::<T, S>,
            (base_files, is_sharded, adapter_weights, config, writer),
            r,
        ),
        r.1 is Ok,
    ensures
        exists|files: Seq<Contents>, adapter: Contents| #[trigger]
            all_opened(base_files@, files) && #[trigger] opened(adapter_weights@, adapter) && ({
                let info = r.1->Ok_0;
                let names = all_names(files);
                let others = names_of(adapter.heads);
                &&& info.base_tensor_count == names.len()
                &&& info.replacement_count == count_by_name(
                    names,
                    others,
                    config@,
                    TensorAction::Replaced,
                )
                &&& info.lora_target_count == count_by_name(
                    names,
                    others,
                    config@,
                    TensorAction::Merged,
                )
                &&& info.bias_merge_count == count_by_name(
                    names,
                    others,
                    config@,
                    TensorAction::BiasMerged,
                )
                &&& info.passthrough_count == count_by_name(
                    names,
                    others,
                    config@,
                    TensorAction::Copied,
                )
                &&& info.is_sharded == is_sharded
                &&& info.shard_count == base_files@.len()
                &&& info.estimated_output_bytes == concatenated(
                    Seq::new(files.len(), |f: int| concatenated(files[f].data)),
                ).len()
            }),
{
    let (files, adapter) = choose|files: Seq<Contents>, adapter: Contents| #[trigger]
        all_opened(base_files@, files) && #[trigger] opened(adapter_weights@, adapter)
            && dry_run_result(files, adapter, config@, is_sharded, writer, r);
    law_analysis_counts_the_names(r.1->Ok_0, files, adapter, config@, is_sharded);
    assert forall|f: int| 0 <= f < files.len() implies sound(#[trigger] files[f]) by {
        assert(opened(base_files@[f]@, files[f]));
    }
    law_files_are_taken_together(files);
    assert(all_opened(base_files@, files) && opened(adapter_weights@, adapter));
}

/// Each number of a matrix in double precision that was written is rounded to the element in its
/// place.
pub proof fn law_writing_doubles_goes_element_by_element<N: Numerics>(
    array: &Matrix<N::Double>,
    dtype: Dtype,
    num: &N,
    r: Result<Vec<u8>>,
    i: int,
)
    requires
        call_ensures(f64_to_bytes::<N>, (array, dtype, num), r),
        0 <= i < array@.values.len(),
    ensures
        r is Ok <==> is_merged(dtype),
        r matches Ok(bytes) ==> bytes@.len() == array@.values.len() * (if dtype == Dtype::F32 {
            4int
        } else {
            2int
        }) && exists|bits: u32| #[trigger]
            call_ensures(N::double_bits, (num, dtype, &array@.values[i]), bits) && element(
                dtype,
                bytes@,
                i,
            ) == (if dtype == Dtype::F32 {
                bits as nat
            } else {
                (bits % 0x1_0000) as nat
            }),
{
    if r is Ok {
        let out = (r->Ok_0)@;
        let size = stored_size(dtype);
        lemma_place_within(i, array@.values.len() as int, size as int, size as int);
        let part = piece(out, size, i);
        assert(stores_double(num, dtype, array@.values[i], part));
        let bits = choose|bits: u32| #[trigger]
            call_ensures(N::double_bits, (num, dtype, &array@.values[i]), bits) && part
                == element_bytes(bits, size);
        law_bits_of_element_bytes(bits, size);
        assert(bits_at(part, size, 0) == bits_at(out, size, i));
        lemma_little_endian(out, dtype, i);
    }
}

/// Processing a tensor with the mapping of all names writes what is to be made of it by its name,
/// and tells what that was.
pub proof fn law_tensor_is_processed_by_name<N: Numerics, S: Sink, R>(
    m: Model<N, R>,
    base_names: &[&str],
    adapter_names: &[&str],
    target_modules: &[String],
    modules_to_save: Option<&[String]>,
    mapping: NameMapping,
    name: &str,
    info: &TensorInfo,
    base_data: &[u8],
    adapter: &MappedSafetensors<'_>,
    config: &AdapterConfig<N::Single>,
    low_memory: bool,
    num: &N,
    writer: S,
    r: (S, Result<TensorAction>),
)
    requires
        exact(num, m),
        sound(adapter@),
        call_ensures(
            build_name_mapping,
            (base_names, adapter_names, target_modules, modules_to_save),
            Ok(mapping),
        ),
        plain(adapter_names@) == names_of(adapter@.heads),
        config@.modules_to_save == (match modules_to_save {
            Some(modules) => Some(modules@),
            None => None,
        }),
        plain(base_names@).contains(name@),
        sizable(Head { name: name@, dtype: info.dtype, shape: info.shape@ }),
        call_ensures(
            process_tensor::<N, S>,
            (name, info, base_data, adapter, config, &mapping, low_memory, num, writer),
            r,
        ),
        r.1 is Ok,
    ensures
        r.1->Ok_0 == action_by_name(
            plain(base_names@),
            names_of(adapter@.heads),
            config@,
            name@,
        ),
        exists|out: Seq<u8>| #[trigger]
            wrote(writer, out, r.0) && made_by_name(
                num,
                m,
                plain(base_names@),
                Head { name: name@, dtype: info.dtype, shape: info.shape@ },
                base_data@,
                adapter@,
                config@,
                out,
            ),
{
    let names = plain(base_names@);
    let others = names_of(adapter@.heads);
    let head = Head { name: name@, dtype: info.dtype, shape: info.shape@ };
    lemma_mapped_plan(&mapping, names, others, config@, name@);
    lemma_action_by_name(names, others, config@, name@);
    let out = choose|out: Seq<u8>| #[trigger]
        wrote(writer, out, r.0) && tensor_output(
            num,
            config@,
            low_memory,
            mapped_plan(&mapping, config@.bias, name@),
            head,
            base_data@,
            adapter@,
            out,
        );
    lemma_made_by_name(
        num,
        m,
        names,
        head,
        base_data@,
        adapter@,
        config@,
        low_memory,
        out,
    );
}

/// Writing a file of a sharded model, if the names of all its files were mapped, writes each of its
/// tensors as is to be made of it by its name and the names of the tensors of all files. The
/// reports go on from what was done before, and count up to it.
pub proof fn law_shard_is_made_by_name<N: Numerics, S: Sink, R>(
    m: Model<N, R>,
    merge: ShardedMerge,
    shard: &MappedSafetensors<'_>,
    adapter: &MappedSafetensors<'_>,
    config: &AdapterConfig<N::Single>,
    low_memory: bool,
    num: &N,
    writer: S,
    r: (S, Result<ShardedMerge>),
)
    requires
        exact(num, m),
        sound(shard@),
        sound(adapter@),
        merge.mapping() is Some,
        maps_names(
            &merge.mapping()->0,
            merge.names(),
            names_of(adapter@.heads),
            config@.modules_to_save,
        ),
        forall|i: int|
            0 <= i < shard@.heads.len() ==> merge.names().contains(
                (#[trigger] shard@.heads[i]).name,
            ),
        call_ensures(
            ShardedMerge::write::<N, S>,
            (merge, shard, adapter, config, low_memory, num, writer),
            r,
        ),
        r.1 is Ok,
    ensures
        r.1->Ok_0.written() == merge.written() + 1,
        r.1->Ok_0.actions().len() == merge.actions().len() + shard@.heads.len(),
        r.1->Ok_0.names() == merge.names(),
        r.1->Ok_0.filenames() == merge.filenames(),
        forall|i: int|
            0 <= i < shard@.heads.len() ==> #[trigger] r.1->Ok_0.actions()[merge.actions().len()
                + i] == action_by_name(
                merge.names(),
                names_of(adapter@.heads),
                config@,
                shard@.heads[i].name,
            ),
        exists|events: Seq<Event>, out: Seq<Seq<u8>>| #[trigger]
            ran(writer, events, r.0) && written(events) == #[trigger] file_bytes(
                Contents { heads: shard@.heads, data: out, notes: shard@.notes },
            ) && out.len() == shard@.heads.len() && (forall|i: int|
                0 <= i < out.len() ==> made_by_name(
                    num,
                    m,
                    merge.names(),
                    shard@.heads[i],
                    shard@.data[i],
                    adapter@,
                    config@,
                    #[trigger] out[i],
                )) && reported(events).len() == out.len() && (forall|i: int|
                0 <= i < out.len() ==> (#[trigger] reported(events)[i]).current
                    == merge.actions().len() + i && reported(events)[i].total
                    == merge.names().len()),
{
    let mapping = merge.mapping()->0;
    let names = merge.names();
    let others = names_of(adapter@.heads);
    let task = mapped_task(shard@, adapter@, config@, &mapping, low_memory);
    let (events, out) = choose|events: Seq<Event>, out: Seq<Seq<u8>>| #[trigger]
        ran(writer, events, r.0) && #[trigger] outputs(num, task, out) && written(events)
            == file_bytes(
            Contents { heads: task.base.heads, data: out, notes: task.base.notes },
        ) && reported(events) == reports(
            merge.actions().len() as int,
            out.len() as int,
            names.len() as int,
            preamble(task.base.heads, task.base.notes).len(),
            out,
        );
    assert forall|i: int| 0 <= i < out.len() implies made_by_name(
        num,
        m,
        names,
        shard@.heads[i],
        shard@.data[i],
        adapter@,
        config@,
        #[trigger] out[i],
    ) by {
        assert(fault_at(task, i) is None);
        assert(tensor_output(
            num,
            task.settings,
            task.low_memory,
            task.plans[i],
            task.base.heads[i],
            task.base.data[i],
            task.adapter,
            out[i],
        ));
        lemma_mapped_plan(&mapping, names, others, config@, shard@.heads[i].name);
        lemma_made_by_name(
            num,
            m,
            names,
            shard@.heads[i],
            shard@.data[i],
            adapter@,
            config@,
            low_memory,
            out[i],
        );
    }
    assert forall|i: int|
        0 <= i < shard@.heads.len() implies #[trigger] r.1->Ok_0.actions()[merge.actions().len()
        + i] == action_by_name(names, others, config@, shard@.heads[i].name) by {
        lemma_mapped_plan(&mapping, names, others, config@, shard@.heads[i].name);
        lemma_action_by_name(names, others, config@, shard@.heads[i].name);
    }
    assert(ran(writer, events, r.0));
}

/// A sharded model is merged file by file: each file that a row of the index names, and no other,
/// once, in ascending order. The sink is left alone at first.
pub proof fn law_sharded_merge_takes_each_file_once<N: Numerics, S: Sink>(
    index: &ShardIndex,
    adapter_weights: &[u8],
    config: &AdapterConfig<N::Single>,
    low_memory: bool,
    num: &N,
    writer: S,
    r: (S, Result<MergeOutcome>),
)
    requires
        call_ensures(
            merge_adapter::<N, S>,
            (BaseModel::Sharded(index), adapter_weights, config, low_memory, num, writer),
            r,
        ),
    ensures
        r.0 == writer,
        r.1 is Ok,
        r.1->Ok_0 is Sharded,
        ({
            let files = r.1->Ok_0->Sharded_0.filenames();
            let named = Seq::new(index@.len(), |i: int| index@[i].1);
            &&& forall|file: Seq<char>| #[trigger] files.contains(file) <==> named.contains(file)
            &&& forall|k: int, l: int|
                0 <= k < l < files.len() ==> precedes(#[trigger] files[k], #[trigger] files[l])
        }),
{
    let files = r.1->Ok_0->Sharded_0.filenames();
    let named = Seq::new(index@.len(), |i: int| index@[i].1);
    assert forall|file: Seq<char>| #[trigger] files.contains(file) <==> named.contains(file) by {
        if names_file(index@, file) {
            let i = choose|i: int| 0 <= i < index@.len() && #[trigger] index@[i].1 == file;
            assert(named[i] == file);
        }
        if named.contains(file) {
            let i = choose|i: int| 0 <= i < named.len() && named[i] == file;
            assert(index@[i].1 == file);
        }
    }
}

/// The index of a weight map finds for each name the file of the last pair of that name, and only
/// for names of the map.
pub proof fn law_index_finds_the_files(
    pairs: Vec<(String, String)>,
    index: ShardIndex,
    name: &str,
    r: Option<&str>,
)
    requires
        call_ensures(ShardIndex::from_weight_map, (pairs,), Ok(index)),
        call_ensures(ShardIndex::file_of, (&index, name), r),
    ensures
        r is Some <==> exists|k: int|
            0 <= k < pairs@.len() && (#[trigger] pairs@[k]).0@ == name@,
        r matches Some(file) ==> exists|k: int|
            0 <= k < pairs@.len() && (#[trigger] pairs@[k]).0@ == name@ && pairs@[k].1@ == file@
                && forall|l: int| k < l < pairs@.len() ==> (#[trigger] pairs@[l]).0@ != name@,
{
    let all = text_pairs(pairs@);
    let rows = rows_for(all);
    law_index_has_the_last_pair_of_each_name(all);
    if r is Some {
        let i = choose|i: int| 0 <= i < rows.len() && #[trigger] rows[i].0 == name@;
        lemma_value_of(rows, i);
        assert(rows.contains(rows[i]));
        let k = choose|k: int| #[trigger] last_of_its_name(all, k) && all[k] == rows[i];
        assert(pairs@[k].0@ == name@ && pairs@[k].1@ == r->0@);
        assert forall|l: int| k < l < pairs@.len() implies (#[trigger] pairs@[l]).0@ != name@ by {
            assert(all[l].0 != all[k].0);
        }
    } else if exists|k: int| 0 <= k < pairs@.len() && (#[trigger] pairs@[k]).0@ == name@ {
        let k = choose|k: int| 0 <= k < pairs@.len() && (#[trigger] pairs@[k]).0@ == name@;
        let last = lemma_last_of_a_name(all, k);
        assert(rows.contains(all[last]));
        let i = choose|i: int| 0 <= i < rows.len() && rows[i] == all[last];
        assert(rows[i].0 == name@);
    }
}

/// Each name has a last pair.
proof fn lemma_last_of_a_name(pairs: Seq<(Seq<char>, Seq<char>)>, k: int) -> (last: int)
    requires
        0 <= k < pairs.len(),
    ensures
        last_of_its_name(pairs, last),
        pairs[last].0 == pairs[k].0,
    decreases pairs.len() - k,
{
    if last_of_its_name(pairs, k) {
        k
    } else {
        let l = choose|l: int| k < l < pairs.len() && (#[trigger] pairs[l]).0 == pairs[k].0;
        lemma_last_of_a_name(pairs, l)
    }
}

/// A file is surveyed by noting the names of its tensors behind those of the files before. At the
/// end all of them are reported as done, and the statistics are the counts of what was done.
pub proof fn law_sharded_merge_counts_all_files<S: Sink>(
    merge: ShardedMerge,
    shard: &MappedSafetensors<'_>,
    next: ShardedMerge,
    writer: S,
    r: (S, MergeStats),
)
    requires
        call_ensures(ShardedMerge::survey, (merge, shard), next),
        call_ensures(ShardedMerge::finish::<S>, (merge, writer), r),
    ensures
        next.names().len() == merge.names().len() + shard@.heads.len(),
        forall|i: int|
            0 <= i < merge.names().len() ==> #[trigger] next.names()[i] == merge.names()[i],
        forall|i: int|
            0 <= i < shard@.heads.len() ==> next.names()[merge.names().len() + i] == (
            #[trigger] shard@.heads[i]).name,
        next.surveyed() == merge.surveyed() + 1,
        next.filenames() == merge.filenames(),
        happened(
            writer,
            Event::Progress(merge.names().len() as int, merge.names().len() as int),
            r.0,
        ),
        r.1.tensors_copied == merge.actions().to_multiset().count(TensorAction::Copied),
        r.1.tensors_merged == merge.actions().to_multiset().count(TensorAction::Merged),
        r.1.tensors_replaced == merge.actions().to_multiset().count(TensorAction::Replaced),
        r.1.biases_merged == merge.actions().to_multiset().count(TensorAction::BiasMerged),
{
    law_statistics_are_counts(r.1, merge.actions());
}

/// The names of all files of a sharded model are mapped to those of an adapter: the sink is told of
/// the factors without partners among them, and it fails if and only if there are target modules
/// none of which matches.
pub proof fn law_sharded_merge_maps_all_names<T, S: Sink>(
    merge: ShardedMerge,
    adapter: &MappedSafetensors<'_>,
    config: &AdapterConfig<T>,
    writer: S,
    r: (S, Result<ShardedMerge>),
)
    requires
        call_ensures(ShardedMerge::map_names::<T, S>, (merge, adapter, config, writer), r),
    ensures
        r.1 is Ok <==> config@.target_modules.len() == 0 || some_target(
            merge.names(),
            names_of(adapter@.heads),
            config@.target_modules,
        ),
        r.1 matches Ok(next) ==> next.names() == merge.names() && next.filenames()
            == merge.filenames() && next.mapping() is Some && maps_names(
            &next.mapping()->0,
            merge.names(),
            names_of(adapter@.heads),
            config@.modules_to_save,
        ),
        exists|warnings: Seq<Seq<char>>| #[trigger]
            told(writer, warnings, r.0) && warnings.no_duplicates() && forall|text: Seq<char>|
                #[trigger] warnings.contains(text) <==> is_warning(
                    merge.names(),
                    names_of(adapter@.heads),
                    "lora_A"@,
                    "lora_B"@,
                    text,
                ) || is_warning(
                    merge.names(),
                    names_of(adapter@.heads),
                    "lora_B"@,
                    "lora_A"@,
                    text,
                ),
{
    let names = merge.names();
    let others = names_of(adapter@.heads);
    law_names_are_refused_without_a_target(names, others, config@);
    let warnings = choose|warnings: Seq<Seq<char>>| #[trigger]
        warned(names, others, warnings) && told(writer, warnings, r.0);
    law_each_factor_without_partner_is_warned_of(names, others, warnings);
    assert(told(writer, warnings, r.0));
}

/// The warnings of a name mapping are of the factors without partners.
pub proof fn law_mapping_warns_of_factors_without_partners(
    base_names: &[&str],
    adapter_names: &[&str],
    target_modules: &[String],
    modules_to_save: Option<&[String]>,
    mapping: NameMapping,
    warnings: Vec<String>,
)
    requires
        call_ensures(
            build_name_mapping,
            (base_names, adapter_names, target_modules, modules_to_save),
            Ok(mapping),
        ),
        call_ensures(NameMapping::warnings, (&mapping,), warnings),
    ensures
        texts(warnings@).no_duplicates(),
        forall|text: Seq<char>| #[trigger]
            texts(warnings@).contains(text) <==> is_warning(
                plain(base_names@),
                plain(adapter_names@),
                "lora_A"@,
                "lora_B"@,
                text,
            ) || is_warning(
                plain(base_names@),
                plain(adapter_names@),
                "lora_B"@,
                "lora_A"@,
                text,
            ),
{
    assert(lack_b(plain(base_names@), plain(adapter_names@), mapping.without_b()));
    assert(lack_a(plain(base_names@), plain(adapter_names@), mapping.without_a()));
    law_each_factor_without_partner_is_warned_of(
        plain(base_names@),
        plain(adapter_names@),
        texts(warnings@),
    );
}

/// A file gives for a name the data and the header's words of the tensor that has it, and is said
/// not to have it if none has.
pub proof fn law_tensors_are_found_by_name(
    file: &MappedSafetensors<'_>,
    name: &str,
    data: Result<&[u8]>,
    info: Result<&TensorInfo>,
)
    requires
        sound(file@),
        call_ensures(MappedSafetensors::tensor_data, (file, name), data),
        call_ensures(MappedSafetensors::tensor_info, (file, name), info),
    ensures
        data is Ok <==> names_of(file@.heads).contains(name@),
        info is Ok <==> names_of(file@.heads).contains(name@),
        forall|i: int|
            0 <= i < file@.heads.len() && (#[trigger] file@.heads[i]).name == name@ ==> (
            data->Ok_0)@ == file@.data[i] && info->Ok_0.dtype == file@.heads[i].dtype
                && info->Ok_0.shape@ == file@.heads[i].shape && file.bytes().subrange(
                info->Ok_0.data_start as int,
                info->Ok_0.data_end as int,
            ) == file@.data[i],
        data matches Err(error) ==> error@ matches Fault::TensorNotFound { name: missing, location }
            && missing == name@,
{
    let names = names_of(file@.heads);
    lemma_position(file@.heads, name@, 0);
    if names.contains(name@) {
        let i = choose|i: int| 0 <= i < names.len() && names[i] == name@;
        assert(file@.heads[i].name == name@);
    }
    if position(file@.heads, name@, 0) is Some {
        assert(names[position(file@.heads, name@, 0)->0] == name@);
    }
    assert forall|i: int| 0 <= i < file@.heads.len() && (#[trigger] file@.heads[i]).name
        == name@ implies tensor_named(file@, name@) == Some((file@.heads[i], file@.data[i])) by {
        lemma_named(file@, i);
    }
}

/// The bits of an element are in the name of its type: eight times the bytes that it takes.
pub proof fn law_elements_take_the_bits_of_their_names(dtype: Dtype, r: &'static str)
    requires
        call_ensures(Dtype::name, (&dtype,), r),
    ensures
        r@.len() >= 2,
        dtype == Dtype::BOOL ==> r@ == "BOOL"@ && stored_size(dtype) == 1,
        dtype != Dtype::BOOL ==> ({
            let text = if r@[0] == 'B' {
                r@.skip(2)
            } else {
                r@.skip(1)
            };
            ||| all_digits(text) && number(text) == 8 * stored_size(dtype)
            ||| text.len() == 6 && text[0] == '8' && text[1] == '_' && stored_size(dtype) == 1
        }),
{
    reveal_strlit("BOOL");
    reveal_strlit("U8");
    reveal_strlit("I8");
    reveal_strlit("F8_E5M2");
    reveal_strlit("F8_E4M3");
    reveal_strlit("I16");
    reveal_strlit("U16");
    reveal_strlit("F16");
    reveal_strlit("BF16");
    reveal_strlit("I32");
    reveal_strlit("U32");
    reveal_strlit("F32");
    reveal_strlit("F64");
    reveal_strlit("I64");
    reveal_strlit("U64");
    reveal_with_fuel(number, 3);
    let text = if r@[0] == 'B' {
        r@.skip(2)
    } else {
        r@.skip(1)
    };
    assert(text.drop_last().drop_last().len() == 0 || text.len() != 2);
}

/// Looking at a merge, where all files can be read, fails if and only if there are target modules
/// none of which matches, and the sink is told of the factors without partners and of nothing else.
pub proof fn law_dry_run_fails_only_without_a_target<T, S: Sink>(
    base_files: &[&[u8]],
    is_sharded: bool,
    adapter_weights: &[u8],
    config: &AdapterConfig<T>,
    writer: S,
    r: (S, Result<DryRunInfo>),
)
    requires
        call_ensures(
            dry_run_info::<T, S>,
            (base_files, is_sharded, adapter_weights, config, writer),
            r,
        ),
        forall|i: int| 0 <= i < base_files@.len() ==> !unreadable_file(#[trigger] base_files@[i]@),
        !unreadable_file(adapter_weights@),
    ensures
        exists|files: Seq<Contents>, adapter: Contents, warnings: Seq<Seq<char>>| #[trigger]
            all_opened(base_files@, files) && #[trigger] opened(adapter_weights@, adapter)
                && #[trigger] told(writer, warnings, r.0) && (r.1 is Ok
                <==> config@.target_modules.len() == 0 || some_target(
                all_names(files),
                names_of(adapter.heads),
                config@.target_modules,
            )) && warnings.no_duplicates() && forall|text: Seq<char>| #[trigger]
                warnings.contains(text) <==> is_warning(
                    all_names(files),
                    names_of(adapter.heads),
                    "lora_A"@,
                    "lora_B"@,
                    text,
                ) || is_warning(
                    all_names(files),
                    names_of(adapter.heads),
                    "lora_B"@,
                    "lora_A"@,
                    text,
                ),
{
    let (files, adapter) = choose|files: Seq<Contents>, adapter: Contents| #[trigger]
        all_opened(base_files@, files) && #[trigger] opened(adapter_weights@, adapter)
            && dry_run_result(files, adapter, config@, is_sharded, writer, r);
    let names = all_names(files);
    let others = names_of(adapter.heads);
    law_names_are_refused_without_a_target(names, others, config@);
    let warnings = choose|warnings: Seq<Seq<char>>| #[trigger]
        warned(names, others, warnings) && told(writer, warnings, r.0);
    law_each_factor_without_partner_is_warned_of(names, others, warnings);
    assert(all_opened(base_files@, files) && opened(adapter_weights@, adapter));
    assert(told(writer, warnings, r.0));
}

/// Biases are added place by place if and only if they have the same rows and columns.
pub proof fn law_biases_are_added_place_by_place<N: Numerics>(
    base_bias: &Matrix<N::Single>,
    adapter_bias: &Matrix<N::Single>,
    num: &N,
    r: Result<Matrix<N::Single>>,
    i: int,
)
    requires
        call_ensures(merge_bias::<N>, (base_bias, adapter_bias, num), r),
        0 <= i < base_bias@.values.len(),
    ensures
        r is Ok <==> base_bias@.rows == adapter_bias@.rows && base_bias@.cols == adapter_bias@.cols,
        r matches Ok(merged) ==> merged@.rows == base_bias@.rows && merged@.cols == base_bias@.cols
            && merged@.values.len() == base_bias@.values.len() && call_ensures(
            N::sum,
            (num, &base_bias@.values[i], &adapter_bias@.values[i]),
            merged@.values[i],
        ),
{
    if r is Ok {
        let x = (r->Ok_0)@.values[i];
    }
}

} // verus!
