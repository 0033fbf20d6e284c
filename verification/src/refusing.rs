//! What a merge refuses, and that it does all else.

use crate::config::{BiasMode, Settings};
use crate::delta::{dimensioned, lora_fault, product_failed, Dims};
use crate::dtype::{dtype_name, stored_size, Dtype};
use crate::error::{Fault, Result, SurgeryError};
use crate::formula::lemma_named;
use crate::header::{elements, header_fault, size, Contents, Head};
use crate::io::{
    fault_at, faultless, file_failed, forewarned, mapping_fault, merge_result, merge_task, names_of,
    tensor_failed,
};
use crate::mapped::{lemma_position, position, sound, tensor_named};
use crate::matching::{
    ends_with, is_saved, law_biases_are_added_and_the_rest_is_copied,
    law_names_are_refused_without_a_target, law_saved_modules_are_replaced,
    law_weights_with_both_factors_are_merged, some_target,
};
use crate::merge::{tile_end, tile_height};
use crate::numerics::{Matrix, Numerics};
use crate::process::{
    factor_layout, factors_failed, plan_for, reads_factor, shape_dims, tensor_broke, tensor_fault,
    Plan,
};
use crate::sink::{happened, steady, Event, Sink};
use crate::stats::MergeStats;
use crate::tiling::lemma_no_product_fails;
use crate::whole::has_factors;
use vstd::prelude::*;

verus! {

/// Whether tensors of a type are merged.
pub open spec fn is_merged(dtype: Dtype) -> bool {
    dtype == Dtype::F16 || dtype == Dtype::BF16 || dtype == Dtype::F32
}

/// Whether two factors can be merged into a tensor: all three are matrices of types that are
/// merged, and `B @ A` has the tensor's dimensions; or, with `fan_in_fan_out` in its place, the
/// transposed product or `B @ A^T` has.
pub open spec fn factors_fit(head: Head, a: Head, b: Head, fan_in_fan_out: bool) -> bool {
    &&& head.shape.len() == 2 && a.shape.len() == 2 && b.shape.len() == 2
    &&& is_merged(head.dtype) && is_merged(a.dtype) && is_merged(b.dtype)
    &&& if fan_in_fan_out {
        ||| b.shape[1] == a.shape[0] && b.shape[0] == head.shape[1] && a.shape[1] == head.shape[0]
        ||| b.shape[1] == a.shape[1] && b.shape[0] == head.shape[0] && a.shape[0] == head.shape[1]
    } else {
        b.shape[1] == a.shape[0] && b.shape[0] == head.shape[0] && a.shape[1] == head.shape[1]
    }
}

/// The number of elements of a matrix.
proof fn lemma_matrix_elements(shape: Seq<usize>)
    requires
        shape.len() == 2,
    ensures
        elements(shape) == shape[0] * shape[1],
{
    let row = shape.drop_last();
    let none = row.drop_last();
    assert(none.len() == 0);
    assert(elements(none) == 1);
    assert(row.last() == shape[0]);
    assert(elements(row) == elements(none) * row.last() as nat);
    assert(1 * row.last() as nat == row.last() as nat) by (nonlinear_arith);
    assert(shape.last() == shape[1]);
    assert(elements(shape) == elements(row) * shape.last() as nat);
}

/// Two factors are merged into a tensor if and only if they can be.
pub proof fn law_factors_are_refused_unless_they_fit(
    head: Head,
    data: Seq<u8>,
    adapter: Contents,
    a: int,
    b: int,
    fan_in_fan_out: bool,
)
    requires
        sound(adapter),
        data.len() == size(head),
        0 <= a < adapter.heads.len(),
        0 <= b < adapter.heads.len(),
    ensures
        tensor_fault(
            Plan::Merge(adapter.heads[a].name, adapter.heads[b].name),
            head,
            data,
            adapter,
            fan_in_fan_out,
        ) is None <==> factors_fit(head, adapter.heads[a], adapter.heads[b], fan_in_fan_out),
{
    lemma_named(adapter, a);
    lemma_named(adapter, b);
    if head.shape.len() == 2 {
        lemma_matrix_elements(head.shape);
    }
    if adapter.heads[a].shape.len() == 2 {
        lemma_matrix_elements(adapter.heads[a].shape);
    }
    if adapter.heads[b].shape.len() == 2 {
        lemma_matrix_elements(adapter.heads[b].shape);
    }
}

/// Whether a bias can be added to another: both are rows or matrices of types that are merged, and
/// of the same shape, where a matrix of one row is as good as the row.
pub open spec fn biases_fit(head: Head, other: Head) -> bool {
    &&& is_merged(head.dtype) && is_merged(other.dtype)
    &&& head.shape.len() == 1 || head.shape.len() == 2
    &&& {
        ||| head.shape == other.shape
        ||| head.shape.len() == 1 && other.shape == seq![1usize, head.shape[0]]
        ||| other.shape.len() == 1 && head.shape == seq![1usize, other.shape[0]]
    }
}

/// A bias is added to another if and only if it can be.
pub proof fn law_biases_are_refused_unless_they_fit(
    head: Head,
    data: Seq<u8>,
    adapter: Contents,
    source: int,
    fan_in_fan_out: bool,
)
    requires
        sound(adapter),
        data.len() == size(head),
        0 <= source < adapter.heads.len(),
    ensures
        tensor_fault(
            Plan::AddBias(adapter.heads[source].name),
            head,
            data,
            adapter,
            fan_in_fan_out,
        ) is None <==> biases_fit(head, adapter.heads[source]),
{
    lemma_named(adapter, source);
    let other = adapter.heads[source];
    lemma_row_elements(head.shape);
    lemma_row_elements(other.shape);
    assert(adapter.data[source].len() == size(other));
    if head.shape.len() == 1 && other.shape.len() == 1 {
        assert(seq![1usize, head.shape[0]] == seq![1usize, other.shape[0]] ==> head.shape
            =~= other.shape) by {
            if seq![1usize, head.shape[0]] == seq![1usize, other.shape[0]] {
                assert(seq![1usize, head.shape[0]][1] == seq![1usize, other.shape[0]][1]);
            }
        }
    }
}

/// The number of elements of a row or a matrix.
proof fn lemma_row_elements(shape: Seq<usize>)
    ensures
        shape.len() == 1 ==> elements(shape) == shape[0] && 1 * shape[0] == shape[0],
        shape.len() == 2 ==> elements(shape) == shape[0] * shape[1],
{
    if shape.len() == 1 {
        assert(elements(shape.drop_last()) == 1);
        assert(elements(shape) == elements(shape.drop_last()) * shape.last() as nat);
        assert(1 * shape.last() as nat == shape.last() as nat) by (nonlinear_arith);
    }
    if shape.len() == 2 {
        lemma_matrix_elements(shape);
    }
}

/// A plan with a tensor that the adapter does not have is refused, and the tensor is named.
pub proof fn law_missing_tensors_are_named(
    plan: Plan,
    missing: Seq<char>,
    head: Head,
    data: Seq<u8>,
    adapter: Contents,
    fan_in_fan_out: bool,
)
    requires
        !names_of(adapter.heads).contains(missing),
        match plan {
            Plan::Replace(source) => source == missing,
            Plan::AddBias(source) => source == missing,
            Plan::Merge(a, b) => a == missing || b == missing && names_of(adapter.heads).contains(
                a,
            ),
            Plan::Copy => false,
        },
    ensures
        tensor_fault(plan, head, data, adapter, fan_in_fan_out) matches Some(
            Fault::TensorNotFound { name, location },
        ) && name == missing,
{
    let names = names_of(adapter.heads);
    lemma_position(adapter.heads, missing, 0);
    if position(adapter.heads, missing, 0) is Some {
        assert(names[position(adapter.heads, missing, 0)->0] == missing);
    }
    match plan {
        Plan::Merge(a, b) => {
            lemma_position(adapter.heads, a, 0);
            if names.contains(a) {
                let k = choose|k: int| 0 <= k < names.len() && names[k] == a;
                assert(adapter.heads[k].name == a);
            }
        },
        _ => {},
    }
}

/// What is copied is never refused, and what replaces a tensor only if the adapter does not have
/// it.
pub proof fn law_replacements_and_copies_are_accepted(
    head: Head,
    data: Seq<u8>,
    adapter: Contents,
    source: Seq<char>,
    fan_in_fan_out: bool,
)
    ensures
        tensor_fault(Plan::Copy, head, data, adapter, fan_in_fan_out) is None,
        names_of(adapter.heads).contains(source) ==> tensor_fault(
            Plan::Replace(source),
            head,
            data,
            adapter,
            fan_in_fan_out,
        ) is None,
{
    let names = names_of(adapter.heads);
    lemma_position(adapter.heads, source, 0);
    if names.contains(source) {
        let k = choose|k: int| 0 <= k < names.len() && names[k] == source;
        assert(adapter.heads[k].name == source);
    }
}

/// A file can be written if and only if all its tensors are of types that are merged.
pub proof fn law_headers_are_refused_for_other_types(heads: Seq<Head>)
    ensures
        header_fault(heads, 0) is None <==> forall|i: int|
            0 <= i < heads.len() ==> is_merged((#[trigger] heads[i]).dtype),
{
    lemma_header_fault(heads, 0);
}

/// What is said of a file that cannot be written names the type of the first tensor that is not
/// merged.
pub proof fn law_refusal_names_the_first_other_type(heads: Seq<Head>, i: int)
    requires
        0 <= i < heads.len(),
        !is_merged(heads[i].dtype),
        forall|k: int| 0 <= k < i ==> is_merged((#[trigger] heads[k]).dtype),
    ensures
        header_fault(heads, 0) matches Some(Fault::UnsupportedDtype { name, dtype }) && dtype
            == dtype_name(heads[i].dtype),
{
    lemma_first_other_type(heads, 0, i);
}

/// What is said of the tensors from a place on names the type of the first that is not merged.
proof fn lemma_first_other_type(heads: Seq<Head>, from: int, i: int)
    requires
        0 <= from <= i < heads.len(),
        !is_merged(heads[i].dtype),
        forall|k: int| 0 <= k < i ==> is_merged((#[trigger] heads[k]).dtype),
    ensures
        header_fault(heads, from) matches Some(Fault::UnsupportedDtype { name, dtype }) && dtype
            == dtype_name(heads[i].dtype),
    decreases i - from,
{
    if from < i {
        assert(is_merged(heads[from].dtype));
        lemma_first_other_type(heads, from + 1, i);
    }
}

/// A header cannot be written for the tensors from a place on if one is of another type.
proof fn lemma_header_fault(heads: Seq<Head>, from: int)
    requires
        0 <= from,
    ensures
        header_fault(heads, from) is None <==> forall|i: int|
            from <= i < heads.len() ==> is_merged((#[trigger] heads[i]).dtype),
    decreases heads.len() - from,
{
    if from < heads.len() {
        lemma_header_fault(heads, from + 1);
        if header_fault(heads, from) is None {
            assert forall|i: int| from <= i < heads.len() implies is_merged(
                (#[trigger] heads[i]).dtype,
            ) by {
                if i > from {
                    assert(from + 1 <= i);
                }
            }
        }
    }
}

/// What is said of factors that do not fit names two numbers, or two shapes, that differ: what the
/// base asks for, and what there is.
pub proof fn law_refusal_shows_a_difference(
    count: usize,
    shape: Seq<usize>,
    dtype: Dtype,
    a: (usize, usize),
    b: (usize, usize),
    fan_in_fan_out: bool,
)
    requires
        is_merged(dtype),
        shape.len() == 2 ==> shape[0] * shape[1] * stored_size(dtype) <= usize::MAX,
    ensures
        ({
            let dims_a = Dims { rows: a.0 as nat, cols: a.1 as nat };
            let dims_b = Dims { rows: b.0 as nat, cols: b.1 as nat };
            let fault = lora_fault(count as nat, shape, dtype, dims_a, dims_b, fan_in_fan_out);
            let rows = if fan_in_fan_out {
                shape[1]
            } else {
                shape[0]
            };
            let cols = if fan_in_fan_out {
                shape[0]
            } else {
                shape[1]
            };
            &&& fault is Some ==> (fault->0 is ShapeMismatch && fault->0->expected
                != fault->0->ShapeMismatch_got)
            &&& fault is Some && shape.len() == 2 ==> {
                ||| fault->0->expected == seq![rows] && fault->0->ShapeMismatch_got == seq![b.0]
                ||| fault->0->expected == seq![cols] && fault->0->ShapeMismatch_got == seq![a.1]
                ||| fault->0->expected == seq![b.1] && fault->0->ShapeMismatch_got == seq![a.0]
                ||| fault->0->expected == seq![
                    (shape[0] * shape[1] * stored_size(dtype)) as usize,
                ] && fault->0->ShapeMismatch_got == seq![count]
            }
        }),
{
    let dims_a = Dims { rows: a.0 as nat, cols: a.1 as nat };
    let dims_b = Dims { rows: b.0 as nat, cols: b.1 as nat };
    let fault = lora_fault(count as nat, shape, dtype, dims_a, dims_b, fan_in_fan_out);
    if fault is Some {
        let expected = fault->0->expected;
        let got = fault->0->ShapeMismatch_got;
        if shape.len() != 2 {
            assert(expected.len() == 2);
        } else {
            assert(expected[0] != got[0]);
        }
    }
}

/// With `low_memory` no more than a fixed number of rows is merged at a time, and each row is in
/// one of the tiles, which follow each other.
pub proof fn law_tiles_are_bounded(rows: nat, row: int)
    requires
        0 <= row < rows,
    ensures
        exists|tile: int|
            0 <= #[trigger] (tile * tile_height(rows, true)) <= row < tile_end(
                rows,
                tile_height(rows, true),
                tile * tile_height(rows, true),
            ) <= tile * tile_height(rows, true) + 512,
{
    let tile = row / 512;
    assert(0 <= tile * tile_height(rows, true) <= row < tile_end(
        rows,
        tile_height(rows, true),
        tile * tile_height(rows, true),
    ));
}

/// Whether what is to be made of a base tensor, by its name, can be made of it.
pub open spec fn accepted<T>(
    base: Contents,
    adapter: Contents,
    settings: Settings<T>,
    i: int,
) -> bool {
    let head = base.heads[i];
    let names = names_of(base.heads);
    let others = names_of(adapter.heads);
    let source = "base_model.model."@ + head.name;
    if is_saved(names, others, settings, head.name) {
        true
    } else if has_factors(others, head.name) {
        forall|front: Seq<char>, a: int, b: int|
            0 <= a < adapter.heads.len() && 0 <= b < adapter.heads.len() && head.name
                == #[trigger] (front + ".weight"@) && (#[trigger] adapter.heads[a]).name
                == "base_model.model."@ + front + ".lora_A.weight"@ && (
            #[trigger] adapter.heads[b]).name == "base_model.model."@ + front + ".lora_B.weight"@
                ==> factors_fit(
                head,
                adapter.heads[a],
                adapter.heads[b],
                settings.fan_in_fan_out,
            )
    } else if settings.bias != BiasMode::NoBias && ends_with(head.name, ".bias"@)
        && others.contains(source) {
        forall|k: int|
            0 <= k < adapter.heads.len() && (#[trigger] adapter.heads[k]).name == source
                ==> biases_fit(head, adapter.heads[k])
    } else {
        true
    }
}

/// Nothing keeps a tensor from being written if and only if what is to be made of it can be made.
proof fn lemma_accepted<T>(
    base: Contents,
    adapter: Contents,
    settings: Settings<T>,
    low_memory: bool,
    i: int,
)
    requires
        sound(base),
        sound(adapter),
        0 <= i < base.heads.len(),
    ensures
        fault_at(merge_task(base, adapter, settings, low_memory), i) is None <==> accepted(
            base,
            adapter,
            settings,
            i,
        ),
{
    let head = base.heads[i];
    let data = base.data[i];
    let names = names_of(base.heads);
    let others = names_of(adapter.heads);
    let source = "base_model.model."@ + head.name;
    let flag = settings.fan_in_fan_out;
    let plan = plan_for(names, others, settings, head.name);
    assert(names[i] == head.name);
    assert(data.len() == size(head));
    law_saved_modules_are_replaced(names, others, settings, head.name);
    law_biases_are_added_and_the_rest_is_copied(names, others, settings, head.name);
    law_replacements_and_copies_are_accepted(head, data, adapter, source, flag);
    if is_saved(names, others, settings, head.name) {
    } else if has_factors(others, head.name) {
        let front = choose|front: Seq<char>|
            head.name == #[trigger] (front + ".weight"@) && others.contains(
                "base_model.model."@ + front + ".lora_A.weight"@,
            ) && others.contains("base_model.model."@ + front + ".lora_B.weight"@);
        let first = "base_model.model."@ + front + ".lora_A.weight"@;
        let second = "base_model.model."@ + front + ".lora_B.weight"@;
        let a = choose|a: int| 0 <= a < others.len() && others[a] == first;
        let b = choose|b: int| 0 <= b < others.len() && others[b] == second;
        law_weights_with_both_factors_are_merged(names, others, settings, front);
        law_factors_are_refused_unless_they_fit(head, data, adapter, a, b, flag);
        assert(adapter.heads[a].name == first && adapter.heads[b].name == second);
        if fault_at(merge_task(base, adapter, settings, low_memory), i) is None {
            assert forall|other: Seq<char>, x: int, y: int|
                0 <= x < adapter.heads.len() && 0 <= y < adapter.heads.len() && head.name
                    == #[trigger] (other + ".weight"@) && (#[trigger] adapter.heads[x]).name
                    == "base_model.model."@ + other + ".lora_A.weight"@ && (
                #[trigger] adapter.heads[y]).name == "base_model.model."@ + other
                    + ".lora_B.weight"@ implies factors_fit(
                head,
                adapter.heads[x],
                adapter.heads[y],
                flag,
            ) by {
                assert(others[x] == adapter.heads[x].name);
                assert(others[y] == adapter.heads[y].name);
                law_weights_with_both_factors_are_merged(names, others, settings, other);
                law_factors_are_refused_unless_they_fit(head, data, adapter, x, y, flag);
            }
        }
    } else {
        if ends_with(head.name, ".weight"@) {
            let front = choose|front: Seq<char>| head.name == #[trigger] (front + ".weight"@);
            law_weights_with_both_factors_are_merged(names, others, settings, front);
        }
        if settings.bias != BiasMode::NoBias && ends_with(head.name, ".bias"@) && others.contains(
            source,
        ) {
            let k = choose|k: int| 0 <= k < others.len() && others[k] == source;
            assert(adapter.heads[k].name == source);
            law_biases_are_refused_unless_they_fit(head, data, adapter, k, flag);
            if fault_at(merge_task(base, adapter, settings, low_memory), i) is None {
                assert forall|x: int|
                    0 <= x < adapter.heads.len() && (#[trigger] adapter.heads[x]).name
                        == source implies biases_fit(head, adapter.heads[x]) by {
                    law_biases_are_refused_unless_they_fit(head, data, adapter, x, flag);
                }
            }
        }
    }
}

/// No tensor breaks off if no write fails and products have their dimensions.
proof fn lemma_nothing_breaks<N: Numerics, S: Sink>(
    num: &N,
    settings: Settings<N::Single>,
    low_memory: bool,
    plan: Plan,
    head: Head,
    data: Seq<u8>,
    adapter: Contents,
    before: S,
    error: SurgeryError,
    after: S,
)
    requires
        steady::<S>(),
        dimensioned(num),
        tensor_fault(plan, head, data, adapter, settings.fan_in_fan_out) is None,
    ensures
        !tensor_broke(num, settings, low_memory, plan, head, adapter, before, error, after),
{
    if factors_failed(num, settings, plan, head, adapter, error@) {
        match plan {
            Plan::Merge(a, b) => {
                let p = tensor_named(adapter, a)->0;
                let q = tensor_named(adapter, b)->0;
                let layout = factor_layout(head, p, q, settings.fan_in_fan_out);
                let (x, y) = choose|x: Matrix<N::Double>, y: Matrix<N::Double>| #[trigger]
                    reads_factor(num, p, x) && #[trigger] reads_factor(num, q, y)
                        && product_failed(
                        num,
                        x@,
                        y@,
                        layout,
                        head.shape[1] as nat,
                        error@,
                    );
                lemma_no_product_fails(
                    num,
                    x@,
                    y@,
                    layout,
                    shape_dims(head.shape),
                    settings.fan_in_fan_out,
                    error@,
                );
            },
            _ => {},
        }
    }
}

/// If no write fails and products have their dimensions, a merge succeeds if and only if there are
/// no target modules or one of them has a weight with both factors, all base tensors are of types
/// that are merged, and what is to be made of each by its name can be made of it.
pub proof fn law_merge_succeeds_unless_refused<N: Numerics, S: Sink>(
    num: &N,
    base: Contents,
    adapter: Contents,
    settings: Settings<N::Single>,
    low_memory: bool,
    writer: S,
    r: (S, Result<MergeStats>),
)
    requires
        sound(base),
        sound(adapter),
        steady::<S>(),
        dimensioned(num),
        merge_result(num, base, adapter, settings, low_memory, writer, r),
    ensures
        r.1 is Ok <==> {
            &&& settings.target_modules.len() == 0 || some_target(
                names_of(base.heads),
                names_of(adapter.heads),
                settings.target_modules,
            )
            &&& forall|i: int|
                0 <= i < base.heads.len() ==> is_merged((#[trigger] base.heads[i]).dtype)
            &&& forall|i: int|
                0 <= i < base.heads.len() ==> #[trigger] accepted(base, adapter, settings, i)
        },
{
    let task = merge_task(base, adapter, settings, low_memory);
    let names = names_of(base.heads);
    let others = names_of(adapter.heads);
    law_names_are_refused_without_a_target(names, others, settings);
    law_headers_are_refused_for_other_types(base.heads);
    let start = choose|start: S| #[trigger]
        forewarned(names, others, writer, start) && match r.1 {
            Ok(stats) => {
                &&& mapping_fault(names, others, settings) is None
                &&& faultless(task)
            },
            Err(error) => mapping_fault(names, others, settings) == Some(error@) || (mapping_fault(
                names,
                others,
                settings,
            ) is None && file_failed(
                num,
                task,
                0,
                base.heads.len() as int,
                start,
                error,
                r.0,
            )),
        };
    match r.1 {
        Ok(_) => {
            assert forall|i: int| 0 <= i < base.heads.len() implies #[trigger] accepted(
                base,
                adapter,
                settings,
                i,
            ) by {
                assert(fault_at(task, i) is None);
                lemma_accepted(base, adapter, settings, low_memory, i);
            }
        },
        Err(error) => {
            if mapping_fault(names, others, settings) is None && header_fault(base.heads, 0)
                is None {
                let i = choose|i: int|
                    0 <= i < base.heads.len() && #[trigger] tensor_failed(
                        num,
                        task,
                        i,
                        0,
                        base.heads.len() as int,
                        start,
                        error,
                        r.0,
                    );
                lemma_accepted(base, adapter, settings, low_memory, i);
                if fault_at(task, i) is None {
                    let (middle, reached) = choose|middle: S, reached: S| #[trigger]
                        happened(
                            middle,
                            Event::Progress(0 + i, base.heads.len() as int),
                            reached,
                        ) && tensor_broke(
                            num,
                            settings,
                            low_memory,
                            task.plans[i],
                            base.heads[i],
                            adapter,
                            reached,
                            error,
                            r.0,
                        );
                    lemma_nothing_breaks(
                        num,
                        settings,
                        low_memory,
                        task.plans[i],
                        base.heads[i],
                        base.data[i],
                        adapter,
                        reached,
                        error,
                        r.0,
                    );
                }
            }
        },
    }
}

/// If no write fails and products have their dimensions, a merge that fails does so for the first
/// reason that there is: the names, then the type of a tensor, then the first tensor that cannot be
/// made.
pub proof fn law_merge_fails_for_the_first_reason<N: Numerics, S: Sink>(
    num: &N,
    base: Contents,
    adapter: Contents,
    settings: Settings<N::Single>,
    low_memory: bool,
    writer: S,
    r: (S, Result<MergeStats>),
)
    requires
        steady::<S>(),
        dimensioned(num),
        merge_result(num, base, adapter, settings, low_memory, writer, r),
        r.1 is Err,
    ensures
        ({
            let error = (r.1->Err_0)@;
            let names = names_of(base.heads);
            let others = names_of(adapter.heads);
            let task = merge_task(base, adapter, settings, low_memory);
            if settings.target_modules.len() > 0 && !some_target(
                names,
                others,
                settings.target_modules,
            ) {
                error is MissingAdapterTensor
            } else if exists|i: int|
                0 <= i < base.heads.len() && !is_merged((#[trigger] base.heads[i]).dtype) {
                error is UnsupportedDtype
            } else {
                exists|i: int|
                    0 <= i < base.heads.len() && #[trigger] fault_at(task, i) == Some(error)
                        && forall|j: int| 0 <= j < i ==> (#[trigger] fault_at(task, j)) is None
            }
        }),
{
    let error = r.1->Err_0;
    let task = merge_task(base, adapter, settings, low_memory);
    let names = names_of(base.heads);
    let others = names_of(adapter.heads);
    let count = base.heads.len() as int;
    law_names_are_refused_without_a_target(names, others, settings);
    law_headers_are_refused_for_other_types(base.heads);
    if mapping_fault(names, others, settings) is None {
        if header_fault(base.heads, 0) is Some {
            lemma_header_fault_kind(base.heads, 0);
        } else {
            let start = choose|start: S| #[trigger]
                forewarned(names, others, writer, start) && file_failed(
                    num,
                    task,
                    0,
                    count,
                    start,
                    error,
                    r.0,
                );
            let i = choose|i: int|
                0 <= i < count && #[trigger] tensor_failed(
                    num,
                    task,
                    i,
                    0,
                    count,
                    start,
                    error,
                    r.0,
                );
            if fault_at(task, i) is None {
                let (middle, reached) = choose|middle: S, reached: S| #[trigger]
                    happened(middle, Event::Progress(0 + i, count), reached) && tensor_broke(
                        num,
                        settings,
                        low_memory,
                        task.plans[i],
                        base.heads[i],
                        adapter,
                        reached,
                        error,
                        r.0,
                    );
                lemma_nothing_breaks(
                    num,
                    settings,
                    low_memory,
                    task.plans[i],
                    base.heads[i],
                    base.data[i],
                    adapter,
                    reached,
                    error,
                    r.0,
                );
            }
            assert(fault_at(task, i) == Some(error@));
        }
    }
}

/// What keeps a header from being written is the type of a tensor.
proof fn lemma_header_fault_kind(heads: Seq<Head>, from: int)
    requires
        0 <= from,
    ensures
        header_fault(heads, from) matches Some(fault) ==> fault is UnsupportedDtype,
    decreases heads.len() - from,
{
    if from < heads.len() {
        lemma_header_fault_kind(heads, from + 1);
    }
}

} // verus!
