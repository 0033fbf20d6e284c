//! That a merge of a whole model is the same in tiles and at once, and what it makes of each
//! tensor.

use crate::config::{BiasMode, Settings};
use crate::convert::{lemma_same_pieces, piece, single_values, stores_all, stores_single};
use crate::dtype::{stored_size, Dtype};
use crate::error::Result;
use crate::formula::{
    adds_change, exact, law_bias_is_added, law_merged_tensor_is_base_plus_change,
    law_replacement_is_written, lemma_named, weight, Model,
};
use crate::header::{elements, file_bytes, preamble, sizable, Contents, Head};
use crate::io::{
    fault_at, faultless, forewarned, merge_result, merge_task, names_of, outputs, reports,
    wrote_model, Task,
};
use crate::mapped::{sound, tensor_named};
use crate::matching::{
    ends_with, is_saved, law_biases_are_added_and_the_rest_is_copied,
    law_saved_modules_are_replaced, law_weights_with_both_factors_are_merged,
};
use crate::merge::{merged_tensor, sums};
use crate::numerics::{Matrix, Numerics};
use crate::process::{
    bias_output, converts, factor_layout, lemma_countable, merge_output, plan_for, reads_factor,
    shape_dims, tensor_fault, tensor_output, Plan,
};
use crate::sink::{ran, reported, written, Event, Report, Sink};
use crate::stats::MergeStats;
use crate::tiling::{determined, lemma_tiles_change_nothing, row_wise};
use vstd::prelude::*;

verus! {

/// Whether the arithmetic in single precision has one result each.
pub open spec fn determined_singles<N: Numerics>(num: &N) -> bool {
    &&& forall|dtype: Dtype, bits: u32, x: N::Single, y: N::Single| #[trigger]
        call_ensures(N::single, (num, dtype, bits), x) && #[trigger] call_ensures(
            N::single,
            (num, dtype, bits),
            y,
        ) ==> x == y
    &&& forall|left: N::Single, right: N::Single, x: N::Single, y: N::Single| #[trigger]
        call_ensures(N::sum, (num, &left, &right), x) && #[trigger] call_ensures(
            N::sum,
            (num, &left, &right),
            y,
        ) ==> x == y
    &&& forall|dtype: Dtype, value: N::Single, x: u32, y: u32| #[trigger]
        call_ensures(N::single_bits, (num, dtype, &value), x) && #[trigger] call_ensures(
            N::single_bits,
            (num, dtype, &value),
            y,
        ) ==> x == y
    &&& forall|alpha: N::Single, rank: u32, x: N::Single, y: N::Single| #[trigger]
        call_ensures(N::quotient, (num, &alpha, rank), x) && #[trigger] call_ensures(
            N::quotient,
            (num, &alpha, rank),
            y,
        ) ==> x == y
    &&& forall|value: N::Single, x: N::Double, y: N::Double| #[trigger]
        call_ensures(N::widened, (num, &value), x) && #[trigger] call_ensures(
            N::widened,
            (num, &value),
            y,
        ) ==> x == y
}

/// Elements are read as the same numbers each time.
proof fn lemma_same_singles<N: Numerics>(
    num: &N,
    dtype: Dtype,
    bytes: Seq<u8>,
    x: Seq<N::Single>,
    y: Seq<N::Single>,
)
    requires
        determined_singles(num),
        single_values(num, dtype, bytes, x),
        single_values(num, dtype, bytes, y),
        x.len() == y.len(),
    ensures
        x == y,
{
    assert forall|i: int| 0 <= i < x.len() implies x[i] == y[i] by {
        let a = x[i];
        let b = y[i];
    }
    assert(x =~= y);
}

/// Factors are read as the same matrices each time.
proof fn lemma_same_factor<N: Numerics>(
    num: &N,
    tensor: (Head, Seq<u8>),
    x: Matrix<N::Double>,
    y: Matrix<N::Double>,
)
    requires
        determined(num),
        reads_factor(num, tensor, x),
        reads_factor(num, tensor, y),
    ensures
        x@ == y@,
{
    assert(x@.rows == y@.rows && x@.cols == y@.cols);
    assert forall|i: int| 0 <= i < x@.values.len() implies x@.values[i] == y@.values[i] by {
        let a = x@.values[i];
        let b = y@.values[i];
    }
    assert(x@.values =~= y@.values);
}

/// Numbers are written as the same bytes each time.
proof fn lemma_same_stored<N: Numerics>(
    num: &N,
    dtype: Dtype,
    values: Seq<N::Single>,
    x: Seq<u8>,
    y: Seq<u8>,
)
    requires
        determined_singles(num),
        stored_size(dtype) == 2 || stored_size(dtype) == 4,
        stores_all(num, dtype, values, x),
        stores_all(num, dtype, values, y),
    ensures
        x == y,
{
    let size = stored_size(dtype);
    assert forall|i: int| 0 <= i < values.len() implies #[trigger] piece(x, size, i) == piece(
        y,
        size,
        i,
    ) by {
        assert(stores_single(num, dtype, values[i], piece(x, size, i)));
        assert(stores_single(num, dtype, values[i], piece(y, size, i)));
    }
    lemma_same_pieces(x, y, size, values.len() as int);
}

/// With arithmetic that has one result each and products that go row by row, what is written for a
/// tensor with `low_memory` is what is written for it without, whatever is done with it.
pub proof fn law_low_memory_changes_no_tensor<N: Numerics>(
    num: &N,
    settings: Settings<N::Single>,
    plan: Plan,
    head: Head,
    data: Seq<u8>,
    adapter: Contents,
    tiled: Seq<u8>,
    whole: Seq<u8>,
)
    requires
        determined(num),
        determined_singles(num),
        row_wise(num),
        tensor_fault(plan, head, data, adapter, settings.fan_in_fan_out) is None,
        tensor_output(num, settings, true, plan, head, data, adapter, tiled),
        tensor_output(num, settings, false, plan, head, data, adapter, whole),
    ensures
        tiled == whole,
{
    match plan {
        Plan::Replace(source) => {
            let x = tensor_named(adapter, source)->0;
            if converts(x.0, head) {
                let first = choose|values: Seq<N::Single>| #[trigger]
                    single_values(num, x.0.dtype, x.1, values) && values.len()
                        == elements(x.0.shape) && stores_all(
                        num,
                        head.dtype,
                        values,
                        tiled,
                    );
                let second = choose|values: Seq<N::Single>| #[trigger]
                    single_values(num, x.0.dtype, x.1, values) && values.len()
                        == elements(x.0.shape) && stores_all(
                        num,
                        head.dtype,
                        values,
                        whole,
                    );
                lemma_same_singles(num, x.0.dtype, x.1, first, second);
                lemma_same_stored(num, head.dtype, first, tiled, whole);
            }
        },
        Plan::Merge(a, b) => {
            lemma_same_merge(num, settings, head, data, adapter, a, b, tiled, whole);
        },
        Plan::AddBias(source) => {
            let x = tensor_named(adapter, source)->0;
            lemma_same_bias(num, head, data, x, tiled, whole);
        },
        Plan::Copy => {},
    }
}

/// Biases are added with the same result each time.
proof fn lemma_same_bias<N: Numerics>(
    num: &N,
    head: Head,
    data: Seq<u8>,
    x: (Head, Seq<u8>),
    first: Seq<u8>,
    second: Seq<u8>,
)
    requires
        determined_singles(num),
        stored_size(head.dtype) == 2 || stored_size(head.dtype) == 4,
        bias_output(num, head, data, x, first),
        bias_output(num, head, data, x, second),
    ensures
        first == second,
{
    let (a, b, c) = choose|
        base: Matrix<N::Single>,
        other: Matrix<N::Single>,
        merged: Matrix<N::Single>,
    |
        single_values(num, head.dtype, data, base@.values) && single_values(
            num,
            x.0.dtype,
            x.1,
            other@.values,
        ) && #[trigger] sums(num, base@.values, other@.values, merged@.values)
            && base@.values.len() == elements(head.shape) && other@.values.len()
            == base@.values.len() && stores_all(num, head.dtype, merged@.values, first);
    let (d, e, f) = choose|
        base: Matrix<N::Single>,
        other: Matrix<N::Single>,
        merged: Matrix<N::Single>,
    |
        single_values(num, head.dtype, data, base@.values) && single_values(
            num,
            x.0.dtype,
            x.1,
            other@.values,
        ) && #[trigger] sums(num, base@.values, other@.values, merged@.values)
            && base@.values.len() == elements(head.shape) && other@.values.len()
            == base@.values.len() && stores_all(num, head.dtype, merged@.values, second);
    lemma_same_singles(num, head.dtype, data, a@.values, d@.values);
    lemma_same_singles(num, x.0.dtype, x.1, b@.values, e@.values);
    assert forall|i: int| 0 <= i < c@.values.len() implies c@.values[i] == f@.values[i] by {
        let p = c@.values[i];
        let q = f@.values[i];
        assert(call_ensures(N::sum, (num, &a@.values[i], &b@.values[i]), p));
        assert(call_ensures(N::sum, (num, &a@.values[i], &b@.values[i]), q));
    }
    assert(c@.values =~= f@.values);
    lemma_same_stored(num, head.dtype, c@.values, first, second);
}

/// Factors are merged with the same result in tiles and at once.
proof fn lemma_same_merge<N: Numerics>(
    num: &N,
    settings: Settings<N::Single>,
    head: Head,
    data: Seq<u8>,
    adapter: Contents,
    a: Seq<char>,
    b: Seq<char>,
    tiled: Seq<u8>,
    whole: Seq<u8>,
)
    requires
        determined(num),
        determined_singles(num),
        row_wise(num),
        tensor_fault(Plan::Merge(a, b), head, data, adapter, settings.fan_in_fan_out) is None,
        merge_output(
            num,
            settings,
            true,
            head,
            data,
            tensor_named(adapter, a)->0,
            tensor_named(adapter, b)->0,
            tiled,
        ),
        merge_output(
            num,
            settings,
            false,
            head,
            data,
            tensor_named(adapter, a)->0,
            tensor_named(adapter, b)->0,
            whole,
        ),
    ensures
        tiled == whole,
{
    let x = tensor_named(adapter, a)->0;
    let y = tensor_named(adapter, b)->0;
    let layout = factor_layout(head, x, y, settings.fan_in_fan_out);
    let (a1, b1, q1, s1) = choose|
        p: Matrix<N::Double>,
        q: Matrix<N::Double>,
        quotient: N::Single,
        scaling: N::Double,
    | #[trigger]
        reads_factor(num, x, p) && #[trigger] reads_factor(num, y, q) && call_ensures(
            N::quotient,
            (num, &settings.alpha, settings.rank),
            quotient,
        ) && #[trigger] call_ensures(N::widened, (num, &quotient), scaling) && merged_tensor(
            num,
            data,
            p@,
            q@,
            scaling,
            layout,
            shape_dims(head.shape),
            head.dtype,
            true,
            tiled,
        );
    let (a2, b2, q2, s2) = choose|
        p: Matrix<N::Double>,
        q: Matrix<N::Double>,
        quotient: N::Single,
        scaling: N::Double,
    | #[trigger]
        reads_factor(num, x, p) && #[trigger] reads_factor(num, y, q) && call_ensures(
            N::quotient,
            (num, &settings.alpha, settings.rank),
            quotient,
        ) && #[trigger] call_ensures(N::widened, (num, &quotient), scaling) && merged_tensor(
            num,
            data,
            p@,
            q@,
            scaling,
            layout,
            shape_dims(head.shape),
            head.dtype,
            false,
            whole,
        );
    lemma_same_factor(num, x, a1, a2);
    lemma_same_factor(num, y, b1, b2);
    assert(q1 == q2);
    assert(s1 == s2);
    lemma_tiles_change_nothing(
        num,
        data,
        a1,
        b1,
        s1,
        settings.fan_in_fan_out,
        head.shape,
        head.dtype,
        tiled,
        whole,
    );
}

/// With `low_memory` the tensors of a file come out as they do without, if the arithmetic has one
/// result each and products go row by row.
pub proof fn law_low_memory_changes_no_output<N: Numerics>(
    num: &N,
    task: Task<N::Single>,
    other: Task<N::Single>,
    tiled: Seq<Seq<u8>>,
    whole: Seq<Seq<u8>>,
)
    requires
        determined(num),
        determined_singles(num),
        row_wise(num),
        task == (Task { low_memory: true, ..other }),
        !other.low_memory,
        faultless(task),
        outputs(num, task, tiled),
        outputs(num, other, whole),
    ensures
        tiled == whole,
{
    assert forall|i: int| 0 <= i < tiled.len() implies tiled[i] == whole[i] by {
        assert(tensor_output(
            num,
            task.settings,
            task.low_memory,
            task.plans[i],
            task.base.heads[i],
            task.base.data[i],
            task.adapter,
            tiled[i],
        ));
        assert(tensor_output(
            num,
            other.settings,
            other.low_memory,
            other.plans[i],
            other.base.heads[i],
            other.base.data[i],
            other.adapter,
            whole[i],
        ));
        assert(fault_at(task, i) is None);
        law_low_memory_changes_no_tensor(
            num,
            task.settings,
            task.plans[i],
            task.base.heads[i],
            task.base.data[i],
            task.adapter,
            tiled[i],
            whole[i],
        );
    }
    assert(tiled =~= whole);
}

/// A whole merge with `low_memory` writes the bytes, makes the reports and gives the statistics
/// that it does without, if the arithmetic has one result each and products go row by row.
pub proof fn law_low_memory_changes_no_model<N: Numerics, S: Sink>(
    num: &N,
    base: Contents,
    adapter: Contents,
    settings: Settings<N::Single>,
    first: S,
    tiled: (S, Result<MergeStats>),
    second: S,
    whole: (S, Result<MergeStats>),
)
    requires
        determined(num),
        determined_singles(num),
        row_wise(num),
        merge_result(num, base, adapter, settings, true, first, tiled),
        merge_result(num, base, adapter, settings, false, second, whole),
        tiled.1 is Ok,
        whole.1 is Ok,
    ensures
        tiled.1->Ok_0 == whole.1->Ok_0,
        exists|s: S, e: Seq<Event>, t: S, f: Seq<Event>| #[trigger]
            ran(s, e, tiled.0) && #[trigger] ran(t, f, whole.0) && forewarned(
                names_of(base.heads),
                names_of(adapter.heads),
                first,
                s,
            ) && forewarned(names_of(base.heads), names_of(adapter.heads), second, t) && written(e)
                == written(f) && reported(e) == reported(f),
{
    let x = merge_task(base, adapter, settings, true);
    let y = merge_task(base, adapter, settings, false);
    let names = names_of(base.heads);
    let others = names_of(adapter.heads);
    let s = choose|s: S| #[trigger]
        forewarned(names, others, first, s) && wrote_model(num, x, s, tiled.0);
    let t = choose|t: S| #[trigger]
        forewarned(names, others, second, t) && wrote_model(num, y, t, whole.0);
    let (e, out) = lemma_events(num, x, s, tiled.0);
    let (f, all) = lemma_events(num, y, t, whole.0);
    law_low_memory_changes_no_output(num, x, y, out, all);
    assert(ran(s, e, tiled.0) && ran(t, f, whole.0));
}

/// What happened to a sink that a model was written to.
proof fn lemma_events<N: Numerics, S: Sink>(
    num: &N,
    task: Task<N::Single>,
    before: S,
    after: S,
) -> (r: (Seq<Event>, Seq<Seq<u8>>))
    requires
        wrote_model(num, task, before, after),
    ensures
        ran(before, r.0, after),
        outputs(num, task, r.1),
        written(r.0) == file_bytes(
            Contents { heads: task.base.heads, data: r.1, notes: task.base.notes },
        ),
        reported(r.0) == reports(
            0,
            r.1.len() + 1int,
            r.1.len() as int,
            preamble(task.base.heads, task.base.notes).len(),
            r.1,
        ),
{
    choose|events: Seq<Event>, out: Seq<Seq<u8>>| #[trigger]
        ran(before, events, after) && #[trigger] outputs(num, task, out) && written(events)
            == file_bytes(
            Contents { heads: task.base.heads, data: out, notes: task.base.notes },
        ) && reported(events) == reports(
            0,
            out.len() + 1int,
            out.len() as int,
            preamble(task.base.heads, task.base.notes).len(),
            out,
        )
}

/// Whether bytes hold the tensor of an adapter as a tensor of another type: its own bytes, if it is
/// of that type or one of the two types is not merged, and else the same numbers.
pub open spec fn holds_as<N: Numerics, R>(
    m: Model<N, R>,
    from: Dtype,
    data: Seq<u8>,
    to: Dtype,
    out: Seq<u8>,
) -> bool {
    let from_merged = from == Dtype::F16 || from == Dtype::BF16 || from == Dtype::F32;
    let to_merged = to == Dtype::F16 || to == Dtype::BF16 || to == Dtype::F32;
    if from == to || !from_merged || !to_merged {
        out == data
    } else {
        let from_size = if from == Dtype::F32 {
            4int
        } else {
            2int
        };
        let to_size = if to == Dtype::F32 {
            4int
        } else {
            2int
        };
        &&& out.len() * from_size == data.len() * to_size
        &&& forall|i: int|
            0 <= i && i * to_size < out.len() ==> #[trigger] weight(m, to, out, i) == weight(
                m,
                from,
                data,
                i,
            )
    }
}

/// Whether bytes hold, number by number, the sums of a base tensor's numbers and an adapter's.
pub open spec fn holds_sums<N: Numerics, R>(
    m: Model<N, R>,
    head: Head,
    data: Seq<u8>,
    other: Head,
    more: Seq<u8>,
    out: Seq<u8>,
) -> bool {
    &&& out.len() == data.len()
    &&& forall|i: int|
        0 <= i && i * (if head.dtype == Dtype::F32 {
            4int
        } else {
            2int
        }) < data.len() ==> #[trigger] weight(m, head.dtype, out, i) == (m.plus)(
            weight(m, head.dtype, data, i),
            weight(m, other.dtype, more, i),
        )
}

/// Whether a name is that of a weight that both factors are there for.
pub open spec fn has_factors(adapter: Seq<Seq<char>>, name: Seq<char>) -> bool {
    exists|front: Seq<char>|
        name == #[trigger] (front + ".weight"@) && adapter.contains(
            "base_model.model."@ + front + ".lora_A.weight"@,
        ) && adapter.contains("base_model.model."@ + front + ".lora_B.weight"@)
}

/// Whether bytes hold what a merge is to make of a base tensor, by its name and those of all base
/// tensors: a tensor in a module to save becomes the adapter's; else a weight with both factors has
/// `alpha / r` times their product added; else a bias, if the mode lets biases be merged, has the
/// adapter's added; and else nothing is changed.
pub open spec fn made_by_name<N: Numerics, R>(
    num: &N,
    m: Model<N, R>,
    names: Seq<Seq<char>>,
    head: Head,
    data: Seq<u8>,
    adapter: Contents,
    settings: Settings<N::Single>,
    out: Seq<u8>,
) -> bool {
    let others = names_of(adapter.heads);
    let source = "base_model.model."@ + head.name;
    if is_saved(names, others, settings, head.name) {
        forall|k: int|
            0 <= k < adapter.heads.len() && (#[trigger] adapter.heads[k]).name == source
                ==> holds_as(m, adapter.heads[k].dtype, adapter.data[k], head.dtype, out)
    } else if has_factors(others, head.name) {
        forall|front: Seq<char>, a: int, b: int|
            0 <= a < adapter.heads.len() && 0 <= b < adapter.heads.len() && head.name
                == #[trigger] (front + ".weight"@) && (#[trigger] adapter.heads[a]).name
                == "base_model.model."@ + front + ".lora_A.weight"@ && (
            #[trigger] adapter.heads[b]).name == "base_model.model."@ + front + ".lora_B.weight"@
                ==> exists|quotient: N::Single| #[trigger]
                call_ensures(N::quotient, (num, &settings.alpha, settings.rank), quotient)
                    && adds_change(
                    m,
                    (adapter.heads[a], adapter.data[a]),
                    (adapter.heads[b], adapter.data[b]),
                    settings.fan_in_fan_out,
                    head,
                    data,
                    (m.single)(quotient),
                    out,
                )
    } else if settings.bias != BiasMode::NoBias && ends_with(head.name, ".bias"@)
        && others.contains(source) {
        forall|k: int|
            0 <= k < adapter.heads.len() && (#[trigger] adapter.heads[k]).name == source
                ==> holds_sums(m, head, data, adapter.heads[k], adapter.data[k], out)
    } else {
        out == data
    }
}

/// What the plan that a tensor's name gives makes of it is what is to be made of it by its name.
pub(crate) proof fn lemma_made_by_name<N: Numerics, R>(
    num: &N,
    m: Model<N, R>,
    names: Seq<Seq<char>>,
    head: Head,
    data: Seq<u8>,
    adapter: Contents,
    settings: Settings<N::Single>,
    low_memory: bool,
    out: Seq<u8>,
)
    requires
        exact(num, m),
        sizable(head),
        sound(adapter),
        names.contains(head.name),
        ({
            let plan = plan_for(names, names_of(adapter.heads), settings, head.name);
            &&& tensor_fault(plan, head, data, adapter, settings.fan_in_fan_out) is None
            &&& tensor_output(num, settings, low_memory, plan, head, data, adapter, out)
        }),
    ensures
        made_by_name(num, m, names, head, data, adapter, settings, out),
{
    let others = names_of(adapter.heads);
    let source = "base_model.model."@ + head.name;
    law_saved_modules_are_replaced(names, others, settings, head.name);
    law_biases_are_added_and_the_rest_is_copied(names, others, settings, head.name);
    if is_saved(names, others, settings, head.name) {
        assert forall|k: int|
            0 <= k < adapter.heads.len() && (#[trigger] adapter.heads[k]).name == source implies
            holds_as(m, adapter.heads[k].dtype, adapter.data[k], head.dtype, out) by {
            law_replacement_is_written(
                num,
                m,
                settings,
                low_memory,
                k,
                head,
                data,
                adapter,
                out,
            );
        }
    } else if has_factors(others, head.name) {
        assert forall|front: Seq<char>, a: int, b: int|
            0 <= a < adapter.heads.len() && 0 <= b < adapter.heads.len() && head.name
                == #[trigger] (front + ".weight"@) && (#[trigger] adapter.heads[a]).name
                == "base_model.model."@ + front + ".lora_A.weight"@ && (
            #[trigger] adapter.heads[b]).name == "base_model.model."@ + front
                + ".lora_B.weight"@ implies exists|quotient: N::Single| #[trigger]
            call_ensures(N::quotient, (num, &settings.alpha, settings.rank), quotient)
                && adds_change(
                m,
                (adapter.heads[a], adapter.data[a]),
                (adapter.heads[b], adapter.data[b]),
                settings.fan_in_fan_out,
                head,
                data,
                (m.single)(quotient),
                out,
            ) by {
            assert(others[a] == adapter.heads[a].name);
            assert(others[b] == adapter.heads[b].name);
            law_weights_with_both_factors_are_merged(names, others, settings, front);
            law_merged_tensor_is_base_plus_change(
                num,
                m,
                settings,
                low_memory,
                a,
                b,
                head,
                data,
                adapter,
                out,
            );
        }
    } else {
        if ends_with(head.name, ".weight"@) {
            let front = choose|front: Seq<char>| head.name == #[trigger] (front + ".weight"@);
            law_weights_with_both_factors_are_merged(names, others, settings, front);
        }
        if settings.bias != BiasMode::NoBias && ends_with(head.name, ".bias"@) && others.contains(
            source,
        ) {
            assert forall|k: int|
                0 <= k < adapter.heads.len() && (#[trigger] adapter.heads[k]).name
                    == source implies holds_sums(
                m,
                head,
                data,
                adapter.heads[k],
                adapter.data[k],
                out,
            ) by {
                lemma_sums(num, m, settings, low_memory, k, head, data, adapter, out);
            }
        }
    }
}

/// What is written for a bias that another is added to holds the sums.
proof fn lemma_sums<N: Numerics, R>(
    num: &N,
    m: Model<N, R>,
    settings: Settings<N::Single>,
    low_memory: bool,
    source: int,
    head: Head,
    data: Seq<u8>,
    adapter: Contents,
    out: Seq<u8>,
)
    requires
        exact(num, m),
        sound(adapter),
        sizable(head),
        0 <= source < adapter.heads.len(),
        ({
            let plan = Plan::AddBias(adapter.heads[source].name);
            &&& tensor_fault(plan, head, data, adapter, settings.fan_in_fan_out) is None
            &&& tensor_output(num, settings, low_memory, plan, head, data, adapter, out)
        }),
    ensures
        holds_sums(m, head, data, adapter.heads[source], adapter.data[source], out),
{
    lemma_named(adapter, source);
    lemma_countable(head);
    assert forall|i: int|
        0 <= i && i * (if head.dtype == Dtype::F32 {
            4int
        } else {
            2int
        }) < data.len() implies #[trigger] weight(m, head.dtype, out, i) == (m.plus)(
        weight(m, head.dtype, data, i),
        weight(m, adapter.heads[source].dtype, adapter.data[source], i),
    ) by {
        law_bias_is_added(num, m, settings, low_memory, source, head, data, adapter, out, i);
    }
}

/// Whether reports say of some tensors in turn how many were done before, of how many in all, and
/// at last that all are done.
pub open spec fn counts_up(all: Seq<Report>, count: nat) -> bool {
    &&& all.len() == count + 1
    &&& forall|i: int|
        0 <= i <= count ==> (#[trigger] all[i]).current == i && all[i].total == count
}

/// A merge that succeeds writes a file of the base's tensors, in its order, of its types and
/// shapes and with its notes, and each tensor holds what is to be made of it by its name. It
/// reports before each tensor how many are done, and at last that all are.
pub proof fn law_model_is_made_by_name<N: Numerics, S: Sink, R>(
    num: &N,
    m: Model<N, R>,
    base: Contents,
    adapter: Contents,
    settings: Settings<N::Single>,
    low_memory: bool,
    writer: S,
    r: (S, Result<MergeStats>),
)
    requires
        exact(num, m),
        sound(base),
        sound(adapter),
        merge_result(num, base, adapter, settings, low_memory, writer, r),
        r.1 is Ok,
    ensures
        exists|start: S, events: Seq<Event>, out: Seq<Seq<u8>>|
            forewarned(names_of(base.heads), names_of(adapter.heads), writer, start) && #[trigger]
            ran(start, events, r.0) && written(events) == #[trigger] file_bytes(
                Contents { heads: base.heads, data: out, notes: base.notes },
            ) && out.len() == base.heads.len() && (forall|i: int|
                0 <= i < out.len() ==> made_by_name(
                    num,
                    m,
                    names_of(base.heads),
                    base.heads[i],
                    base.data[i],
                    adapter,
                    settings,
                    #[trigger] out[i],
                )) && counts_up(reported(events), out.len()),
{
    let task = merge_task(base, adapter, settings, low_memory);
    let names = names_of(base.heads);
    let others = names_of(adapter.heads);
    let start = choose|start: S| #[trigger]
        forewarned(names, others, writer, start) && wrote_model(num, task, start, r.0);
    let (events, out) = lemma_events(num, task, start, r.0);
    assert forall|i: int| 0 <= i < out.len() implies made_by_name(
        num,
        m,
        names,
        base.heads[i],
        base.data[i],
        adapter,
        settings,
        #[trigger] out[i],
    ) by {
        assert(fault_at(task, i) is None);
        assert(tensor_output(
            num,
            task.settings,
            task.low_memory,
            task.plans[i],
            task.base.heads[i],
            task.base.data[i],
            task.adapter,
            out[i],
        ));
        assert(names[i] == base.heads[i].name);
        lemma_made_by_name(
            num,
            m,
            names,
            base.heads[i],
            base.data[i],
            adapter,
            settings,
            low_memory,
            out[i],
        );
    }
    assert(ran(start, events, r.0));
}

} // verus!
