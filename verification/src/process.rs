//! What becomes of each tensor of a base model.

use crate::config::{AdapterConfig, BiasMode, Settings};
use crate::dtype::{is_mergeable, mergeable, stored_size};
use crate::error::{Fault, Result, SurgeryError};
use crate::header::{count_elements, elements, sizable, size, Contents, Head, TensorInfo};
use crate::mapped::{
    lemma_position, not_found, position, sound, tensor_named, MappedSafetensors,
};
use crate::convert::{
    bytes_to_f32, bytes_to_f64, check_matrix, countable, double_values, f32_to_bytes, matrix_fault,
    single_values, stores_all,
};
use crate::delta::{delta_layout, dims, lora_fault, product_failed, DeltaLayout, Dims};
use crate::merge::{
    merge_bias, merge_broke, merged_tensor, streaming_lora_merge_write, sums, wrote_merged,
};
use crate::names::{bias_for, lora_pair_for, maps_names, replacement_for, NameMapping};
use crate::numerics::{Matrix, Numerics};
use crate::sink::{broke, lemma_wrote_nothing, lemma_wrote_once, wrote, wrote_some, Sink};
use crate::stats::TensorAction;
use vstd::prelude::*;
use vstd::slice::slice_to_vec;

verus! {

/// What is to be done with a base tensor, with the names of the adapter tensors that it takes.
pub enum Plan {
    /// Put an adapter tensor in its place.
    Replace(Seq<char>),
    /// Merge two low-rank factors into it.
    Merge(Seq<char>, Seq<char>),
    /// Add an adapter bias to it.
    AddBias(Seq<char>),
    /// Leave it as it is.
    Copy,
}

/// What is to be done with a base tensor: the first of replacement, low-rank merge, and bias, if
/// the mode lets biases be merged, that there is something for.
pub open spec fn plan_of(
    replacement: Option<Seq<char>>,
    pair: Option<(Seq<char>, Seq<char>)>,
    mode: BiasMode,
    bias: Option<Seq<char>>,
) -> Plan {
    if replacement is Some {
        Plan::Replace(replacement->0)
    } else if pair is Some {
        Plan::Merge((pair->0).0, (pair->0).1)
    } else if mode != BiasMode::NoBias && bias is Some {
        Plan::AddBias(bias->0)
    } else {
        Plan::Copy
    }
}

/// What is to be done with a base tensor, by its name, the names of all base tensors and those of
/// all adapter tensors.
pub open spec fn plan_for<T>(
    base: Seq<Seq<char>>,
    adapter: Seq<Seq<char>>,
    settings: Settings<T>,
    name: Seq<char>,
) -> Plan {
    plan_of(
        replacement_for(base, adapter, settings.modules_to_save, name),
        lora_pair_for(base, adapter, name),
        settings.bias,
        bias_for(base, adapter, name),
    )
}

/// What is to be done with a base tensor, by a name mapping.
pub open spec fn mapped_plan(mapping: &NameMapping, mode: BiasMode, name: Seq<char>) -> Plan {
    plan_of(mapping.replaced_by(name), mapping.lora(name), mode, mapping.bias(name))
}

/// The name of what is done.
pub open spec fn action_of(plan: Plan) -> TensorAction {
    match plan {
        Plan::Replace(_) => TensorAction::Replaced,
        Plan::Merge(_, _) => TensorAction::Merged,
        Plan::AddBias(_) => TensorAction::BiasMerged,
        Plan::Copy => TensorAction::Copied,
    }
}

/// The mapping between the names of a base model and those of an adapter gives each tensor the
/// plan that the names give it.
pub proof fn lemma_mapped_plan<T>(
    mapping: &NameMapping,
    base: Seq<Seq<char>>,
    adapter: Seq<Seq<char>>,
    settings: Settings<T>,
    name: Seq<char>,
)
    requires
        maps_names(mapping, base, adapter, settings.modules_to_save),
    ensures
        mapped_plan(mapping, settings.bias, name) == plan_for(base, adapter, settings, name),
{
    assert(mapping.replaced_by(name) == replacement_for(
        base,
        adapter,
        settings.modules_to_save,
        name,
    ));
    assert(mapping.lora(name) == lora_pair_for(base, adapter, name));
    assert(mapping.bias(name) == bias_for(base, adapter, name));
}

/// Tells what is done with a tensor.
pub fn planned_action(mapping: &NameMapping, mode: &BiasMode, name: &str) -> (r: TensorAction)
    ensures
        r == action_of(mapped_plan(mapping, *mode, name@)),
{
    if mapping.replacement(name).is_some() {
        TensorAction::Replaced
    } else if mapping.is_lora_target(name) {
        TensorAction::Merged
    } else if matches!(mode, BiasMode::LoraOnly | BiasMode::All) && mapping.bias_source(
        name,
    ).is_some() {
        TensorAction::BiasMerged
    } else {
        TensorAction::Copied
    }
}

/// A shape of one dimension as that of a single row.
pub open spec fn as_matrix(shape: Seq<usize>) -> Seq<usize> {
    if shape.len() == 1 {
        seq![1, shape[0]]
    } else {
        shape
    }
}

/// The dimensions of a shape of two dimensions.
pub open spec fn shape_dims(shape: Seq<usize>) -> Dims {
    Dims { rows: shape[0] as nat, cols: shape[1] as nat }
}

/// What keeps a bias from being added: the two have other shapes.
pub open spec fn bias_fault(base: Seq<usize>, adapter: Seq<usize>) -> Option<Fault> {
    if base == adapter {
        None
    } else {
        Some(Fault::ShapeMismatch { name: "bias"@, expected: base, got: adapter })
    }
}

/// What keeps two low-rank factors from being merged into a base tensor: one of them is missing,
/// the tensor or one of them is no matrix that can be merged, or they do not fit the tensor.
pub open spec fn merge_fault(
    a: Seq<char>,
    b: Seq<char>,
    head: Head,
    data: Seq<u8>,
    adapter: Contents,
    fan_in_fan_out: bool,
) -> Option<Fault> {
    match (tensor_named(adapter, a), tensor_named(adapter, b)) {
        (None, _) => Some(not_found(a)),
        (_, None) => Some(not_found(b)),
        (Some(x), Some(y)) => {
            let base_fault = matrix_fault(data.len(), head.dtype, head.shape, head.name);
            let x_fault = matrix_fault(x.1.len(), x.0.dtype, x.0.shape, a);
            let y_fault = matrix_fault(y.1.len(), y.0.dtype, y.0.shape, b);
            if base_fault is Some {
                base_fault
            } else if x_fault is Some {
                x_fault
            } else if y_fault is Some {
                y_fault
            } else {
                lora_fault(
                    data.len(),
                    head.shape,
                    head.dtype,
                    shape_dims(x.0.shape),
                    shape_dims(y.0.shape),
                    fan_in_fan_out,
                )
            }
        },
    }
}

/// What keeps an adapter bias from being added to a base bias: it is missing, one of the two is
/// no row or matrix that can be merged, or their shapes differ.
pub open spec fn add_bias_fault(
    source: Seq<char>,
    head: Head,
    data: Seq<u8>,
    adapter: Contents,
) -> Option<Fault> {
    match tensor_named(adapter, source) {
        None => Some(not_found(source)),
        Some(x) => {
            let base = as_matrix(head.shape);
            let other = as_matrix(x.0.shape);
            let base_fault = matrix_fault(data.len(), head.dtype, base, head.name);
            let other_fault = matrix_fault(x.1.len(), x.0.dtype, other, source);
            if base_fault is Some {
                base_fault
            } else if other_fault is Some {
                other_fault
            } else {
                bias_fault(base, other)
            }
        },
    }
}

/// What keeps an adapter tensor from being put in the place of a base tensor: it is missing.
pub open spec fn replace_fault(source: Seq<char>, adapter: Contents) -> Option<Fault> {
    match tensor_named(adapter, source) {
        None => Some(not_found(source)),
        Some(_) => None,
    }
}

/// What keeps a plan from being carried out.
pub open spec fn tensor_fault(
    plan: Plan,
    head: Head,
    data: Seq<u8>,
    adapter: Contents,
    fan_in_fan_out: bool,
) -> Option<Fault> {
    match plan {
        Plan::Replace(source) => replace_fault(source, adapter),
        Plan::Merge(a, b) => merge_fault(a, b, head, data, adapter, fan_in_fan_out),
        Plan::AddBias(source) => add_bias_fault(source, head, data, adapter),
        Plan::Copy => None,
    }
}

/// Whether a matrix is what a tensor of the adapter stands for.
pub open spec fn reads_factor<N: Numerics>(
    num: &N,
    tensor: (Head, Seq<u8>),
    matrix: Matrix<N::Double>,
) -> bool {
    &&& dims(matrix@) == shape_dims(tensor.0.shape)
    &&& matrix@.values.len() == matrix@.rows * matrix@.cols
    &&& double_values(num, tensor.0.dtype, tensor.1, matrix@.values)
}

/// How the change to a base tensor comes from two factors.
pub open spec fn factor_layout(
    head: Head,
    x: (Head, Seq<u8>),
    y: (Head, Seq<u8>),
    fan_in_fan_out: bool,
) -> DeltaLayout {
    delta_layout(
        shape_dims(head.shape),
        shape_dims(x.0.shape),
        shape_dims(y.0.shape),
        fan_in_fan_out,
    )->0
}

/// Whether output bytes are a base tensor with two factors merged into it, scaled by alpha over
/// rank.
pub open spec fn merge_output<N: Numerics>(
    num: &N,
    settings: Settings<N::Single>,
    low_memory: bool,
    head: Head,
    data: Seq<u8>,
    x: (Head, Seq<u8>),
    y: (Head, Seq<u8>),
    out: Seq<u8>,
) -> bool {
    exists|
        a: Matrix<N::Double>,
        b: Matrix<N::Double>,
        quotient: N::Single,
        scaling: N::Double,
    | #[trigger]
        reads_factor(num, x, a) && #[trigger] reads_factor(num, y, b) && call_ensures(
            N::quotient,
            (num, &settings.alpha, settings.rank),
            quotient,
        ) && #[trigger] call_ensures(N::widened, (num, &quotient), scaling) && merged_tensor(
            num,
            data,
            a@,
            b@,
            scaling,
            factor_layout(head, x, y, settings.fan_in_fan_out),
            shape_dims(head.shape),
            head.dtype,
            low_memory,
            out,
        )
}

/// Whether output bytes stand, element by element, for the sums of two tensors.
pub open spec fn bias_output<N: Numerics>(
    num: &N,
    head: Head,
    data: Seq<u8>,
    x: (Head, Seq<u8>),
    out: Seq<u8>,
) -> bool {
    exists|base: Matrix<N::Single>, other: Matrix<N::Single>, merged: Matrix<N::Single>|
        single_values(num, head.dtype, data, base@.values) && single_values(
            num,
            x.0.dtype,
            x.1,
            other@.values,
        ) && #[trigger] sums(num, base@.values, other@.values, merged@.values)
            && base@.values.len() == elements(head.shape) && other@.values.len()
            == base@.values.len() && stores_all(
            num,
            head.dtype,
            merged@.values,
            out,
        )
}

/// Whether an adapter tensor has to be converted to take the place of a base tensor, and can be:
/// the two are of different types, and both types are merged.
pub open spec fn converts(x: Head, head: Head) -> bool {
    x.dtype != head.dtype && mergeable(x.dtype) && mergeable(head.dtype)
}

/// Whether output bytes are an adapter tensor that takes the place of a base tensor: its elements
/// in the type of the base, if they can be converted to it, else its bytes as they are.
pub open spec fn replace_output<N: Numerics>(
    num: &N,
    head: Head,
    x: (Head, Seq<u8>),
    out: Seq<u8>,
) -> bool {
    if converts(x.0, head) {
        exists|values: Seq<N::Single>| #[trigger]
            single_values(num, x.0.dtype, x.1, values) && values.len() == elements(x.0.shape)
                && stores_all(num, head.dtype, values, out)
    } else {
        out == x.1
    }
}

/// Whether output bytes are what a plan makes of a tensor.
pub open spec fn tensor_output<N: Numerics>(
    num: &N,
    settings: Settings<N::Single>,
    low_memory: bool,
    plan: Plan,
    head: Head,
    data: Seq<u8>,
    adapter: Contents,
    out: Seq<u8>,
) -> bool {
    match plan {
        Plan::Replace(source) => replace_output(num, head, tensor_named(adapter, source)->0, out),
        Plan::Merge(a, b) => merge_output(
            num,
            settings,
            low_memory,
            head,
            data,
            tensor_named(adapter, a)->0,
            tensor_named(adapter, b)->0,
            out,
        ),
        Plan::AddBias(source) => bias_output(
            num,
            head,
            data,
            tensor_named(adapter, source)->0,
            out,
        ),
        Plan::Copy => out == data,
    }
}

/// Whether an error says that the product of the factors of a merge has other dimensions than the
/// base tensor.
pub open spec fn factors_failed<N: Numerics>(
    num: &N,
    settings: Settings<N::Single>,
    plan: Plan,
    head: Head,
    adapter: Contents,
    error: Fault,
) -> bool {
    plan matches Plan::Merge(a, b) && exists|x: Matrix<N::Double>, y: Matrix<N::Double>| #[trigger]
        reads_factor(num, tensor_named(adapter, a)->0, x) && #[trigger] reads_factor(
            num,
            tensor_named(adapter, b)->0,
            y,
        ) && product_failed(
            num,
            x@,
            y@,
            factor_layout(
                head,
                tensor_named(adapter, a)->0,
                tensor_named(adapter, b)->0,
                settings.fan_in_fan_out,
            ),
            head.shape[1] as nat,
            error,
        )
}

/// Whether writing output bytes for a tensor, and nothing else, can take a sink from one state to
/// another.
pub open spec fn wrote_tensor<N: Numerics, S: Sink>(
    num: &N,
    settings: Settings<N::Single>,
    low_memory: bool,
    plan: Plan,
    head: Head,
    data: Seq<u8>,
    adapter: Contents,
    before: S,
    after: S,
) -> bool {
    exists|out: Seq<u8>| #[trigger]
        wrote(before, out, after) && tensor_output(
            num,
            settings,
            low_memory,
            plan,
            head,
            data,
            adapter,
            out,
        )
}

/// Whether carrying out a plan that nothing keeps from it can fail with an error and leave a sink
/// in some state: the product of two factors has other dimensions than the base tensor, or a
/// write failed.
pub open spec fn tensor_broke<N: Numerics, S: Sink>(
    num: &N,
    settings: Settings<N::Single>,
    low_memory: bool,
    plan: Plan,
    head: Head,
    adapter: Contents,
    before: S,
    error: SurgeryError,
    after: S,
) -> bool {
    ||| factors_failed(num, settings, plan, head, adapter, error@) && wrote_some(before, after) && (
    !low_memory ==> after == before)
    ||| broke(before, error, after)
}

/// What comes of carrying out a plan. What cannot be carried out leaves the sink alone.
pub open spec fn tensor_outcome<N: Numerics, S: Sink, T>(
    num: &N,
    settings: Settings<N::Single>,
    low_memory: bool,
    plan: Plan,
    head: Head,
    data: Seq<u8>,
    adapter: Contents,
    writer: S,
    r: (S, Result<T>),
) -> bool {
    let fault = tensor_fault(plan, head, data, adapter, settings.fan_in_fan_out);
    match r.1 {
        Ok(_) => fault is None && wrote_tensor(
            num,
            settings,
            low_memory,
            plan,
            head,
            data,
            adapter,
            writer,
            r.0,
        ),
        Err(error) => fault == Some(error@) && r.0 == writer || (fault is None && tensor_broke(
            num,
            settings,
            low_memory,
            plan,
            head,
            adapter,
            writer,
            error,
            r.0,
        )),
    }
}

/// The bytes of a matrix of a shape that can be sized can be counted.
pub(crate) proof fn lemma_countable(head: Head)
    requires
        sizable(head),
    ensures
        countable(head.dtype, head.shape),
        countable(head.dtype, as_matrix(head.shape)),
        head.shape.len() == 2 ==> elements(head.shape) == head.shape[0] * head.shape[1],
        head.shape.len() == 1 ==> elements(head.shape) == 1 * head.shape[0],
{
    reveal_with_fuel(elements, 3);
    let shape = head.shape;
    let size = stored_size(head.dtype);
    assert(shape.take(shape.len() as int) =~= shape);
    assert(elements(shape) <= usize::MAX);
    assert(elements(shape) * 1 == elements(shape)) by (nonlinear_arith);
    if shape.len() == 2 {
        assert(1 * shape[0] as nat * shape[1] as nat == shape[0] * shape[1]) by (nonlinear_arith);
        assert(elements(shape) == shape[0] * shape[1]);
    }
    if shape.len() == 1 {
        assert(elements(shape) == 1 * shape[0] as nat);
        let row = as_matrix(shape);
        assert(row[0] * row[1] == shape[0]);
    }
}

/// A tensor that was found by its name can be sized.
proof fn lemma_named_sizable(contents: Contents, name: Seq<char>)
    requires
        sound(contents),
    ensures
        tensor_named(contents, name) matches Some(tensor) ==> sizable(tensor.0)
            && tensor.1.len() == size(tensor.0) && countable(tensor.0.dtype, tensor.0.shape)
            && countable(tensor.0.dtype, as_matrix(tensor.0.shape)),
{
    lemma_position(contents.heads, name, 0);
    if position(contents.heads, name, 0) is Some {
        lemma_countable(contents.heads[position(contents.heads, name, 0)->0]);
    }
}

/// Merges two low-rank factors into a tensor.
fn merge_factors<N: Numerics, S: Sink>(
    name: &str,
    info: &TensorInfo,
    base_data: &[u8],
    lora_a_name: &str,
    lora_b_name: &str,
    adapter: &MappedSafetensors,
    config: &AdapterConfig<N::Single>,
    low_memory: bool,
    num: &N,
    writer: S,
) -> (r: (S, Result<()>))
    requires
        sizable(Head { name: name@, dtype: info.dtype, shape: info.shape@ }),
    ensures
        tensor_outcome(
            num,
            config@,
            low_memory,
            Plan::Merge(lora_a_name@, lora_b_name@),
            Head { name: name@, dtype: info.dtype, shape: info.shape@ },
            base_data@,
            adapter@,
            writer,
            r,
        ),
{
    let count: usize = adapter.len();
    let ghost head = Head { name: name@, dtype: info.dtype, shape: info.shape@ };
    let ghost plan = Plan::Merge(lora_a_name@, lora_b_name@);
    let lora_a_info = match adapter.tensor_info(lora_a_name) {
        Ok(info) => info,
        Err(error) => {
            return (writer, Err(error));
        },
    };
    let lora_b_info = match adapter.tensor_info(lora_b_name) {
        Ok(info) => info,
        Err(error) => {
            return (writer, Err(error));
        },
    };
    let lora_a_data = match adapter.tensor_data(lora_a_name) {
        Ok(data) => data,
        Err(error) => {
            return (writer, Err(error));
        },
    };
    let lora_b_data = match adapter.tensor_data(lora_b_name) {
        Ok(data) => data,
        Err(error) => {
            return (writer, Err(error));
        },
    };
    proof {
        lemma_countable(head);
        lemma_named_sizable(adapter@, lora_a_name@);
        lemma_named_sizable(adapter@, lora_b_name@);
    }
    let ghost x = tensor_named(adapter@, lora_a_name@)->0;
    let ghost y = tensor_named(adapter@, lora_b_name@)->0;
    if let Err(error) = check_matrix(base_data.len(), info.dtype, info.shape.as_slice(), name) {
        return (writer, Err(error));
    }
    let lora_a = match bytes_to_f64(
        lora_a_data,
        lora_a_info.dtype,
        lora_a_info.shape.as_slice(),
        lora_a_name,
        num,
    ) {
        Ok(matrix) => matrix,
        Err(error) => {
            return (writer, Err(error));
        },
    };
    let lora_b = match bytes_to_f64(
        lora_b_data,
        lora_b_info.dtype,
        lora_b_info.shape.as_slice(),
        lora_b_name,
        num,
    ) {
        Ok(matrix) => matrix,
        Err(error) => {
            return (writer, Err(error));
        },
    };
    let quotient = config.scaling(num);
    let scaling = num.widened(&quotient);
    let r = streaming_lora_merge_write(
        base_data,
        &lora_a,
        &lora_b,
        &scaling,
        config.fan_in_fan_out(),
        info.shape.as_slice(),
        info.dtype,
        low_memory,
        num,
        writer,
    );
    proof {
        assert(reads_factor(num, x, lora_a));
        assert(reads_factor(num, y, lora_b));
        let layout = factor_layout(head, x, y, config@.fan_in_fan_out);
        let shape = shape_dims(head.shape);
        assert(call_ensures(N::widened, (num, &quotient), scaling));
        if r.1 is Ok {
            let after = r.0;
            let out = choose|out: Seq<u8>| #[trigger]
                wrote(writer, out, after) && merged_tensor(
                    num,
                    base_data@,
                    lora_a@,
                    lora_b@,
                    scaling,
                    layout,
                    shape,
                    info.dtype,
                    low_memory,
                    out,
                );
            assert(wrote_merged(
                num,
                base_data@,
                lora_a@,
                lora_b@,
                scaling,
                layout,
                shape,
                info.dtype,
                low_memory,
                writer,
                after,
            ));
            assert(merge_output(num, config@, low_memory, head, base_data@, x, y, out));
            assert(wrote_tensor(
                num,
                config@,
                low_memory,
                plan,
                head,
                base_data@,
                adapter@,
                writer,
                after,
            ));
        } else {
            let error = r.1->Err_0;
            if !(tensor_fault(plan, head, base_data@, adapter@, config@.fan_in_fan_out)
                == Some(error@)) {
                assert(merge_broke(
                    num,
                    lora_a@,
                    lora_b@,
                    layout,
                    shape.cols,
                    low_memory,
                    writer,
                    error,
                    r.0,
                ));
                assert(tensor_broke(
                    num,
                    config@,
                    low_memory,
                    plan,
                    head,
                    adapter@,
                    writer,
                    error,
                    r.0,
                ));
            }
        }
    }
    r
}

/// The shape of a bias as that of a matrix: one of one dimension becomes a single row.
fn matrix_shape(shape: &Vec<usize>) -> (r: Vec<usize>)
    ensures
        r@ == as_matrix(shape@),
{
    if shape.len() == 1 {
        let r: Vec<usize> = vec![1, shape[0]];
        assert(r@ =~= as_matrix(shape@));
        r
    } else {
        slice_to_vec(shape.as_slice())
    }
}

/// Adds an adapter bias to a tensor.
fn add_bias<N: Numerics, S: Sink>(
    name: &str,
    info: &TensorInfo,
    base_data: &[u8],
    source: &str,
    adapter: &MappedSafetensors,
    settings: Ghost<Settings<N::Single>>,
    low_memory: Ghost<bool>,
    num: &N,
    writer: S,
) -> (r: (S, Result<()>))
    requires
        sizable(Head { name: name@, dtype: info.dtype, shape: info.shape@ }),
    ensures
        tensor_outcome(
            num,
            settings@,
            low_memory@,
            Plan::AddBias(source@),
            Head { name: name@, dtype: info.dtype, shape: info.shape@ },
            base_data@,
            adapter@,
            writer,
            r,
        ),
{
    let count: usize = adapter.len();
    let ghost head = Head { name: name@, dtype: info.dtype, shape: info.shape@ };
    let ghost plan = Plan::AddBias(source@);
    let source_info = match adapter.tensor_info(source) {
        Ok(info) => info,
        Err(error) => {
            return (writer, Err(error));
        },
    };
    let source_data = match adapter.tensor_data(source) {
        Ok(data) => data,
        Err(error) => {
            return (writer, Err(error));
        },
    };
    proof {
        lemma_countable(head);
        lemma_named_sizable(adapter@, source@);
    }
    let ghost x = tensor_named(adapter@, source@)->0;
    let base_shape = matrix_shape(&info.shape);
    let source_shape = matrix_shape(&source_info.shape);
    let base = match bytes_to_f32(base_data, info.dtype, base_shape.as_slice(), name, num) {
        Ok(matrix) => matrix,
        Err(error) => {
            return (writer, Err(error));
        },
    };
    let other = match bytes_to_f32(
        source_data,
        source_info.dtype,
        source_shape.as_slice(),
        source,
        num,
    ) {
        Ok(matrix) => matrix,
        Err(error) => {
            return (writer, Err(error));
        },
    };
    let merged = match merge_bias(&base, &other, num) {
        Ok(merged) => merged,
        Err(error) => {
            proof {
                assert(seq![base@.rows as usize, base@.cols as usize] =~= base_shape@);
                assert(seq![other@.rows as usize, other@.cols as usize] =~= source_shape@);
            }
            return (writer, Err(error));
        },
    };
    assert(base_shape@ =~= source_shape@);
    let bytes = match f32_to_bytes(&merged, info.dtype, num) {
        Ok(bytes) => bytes,
        Err(error) => {
            return (writer, Err(error));
        },
    };
    let out = bytes.as_slice();
    proof {
        assert(base@.values.len() == elements(head.shape));
        assert(bias_output(num, head, base_data@, x, bytes@));
        assert(tensor_output(
            num,
            settings@,
            low_memory@,
            plan,
            head,
            base_data@,
            adapter@,
            bytes@,
        ));
    }
    write_plain(out, writer)
}

/// Puts an adapter tensor in the place of a tensor.
fn replace_tensor<N: Numerics, S: Sink>(
    name: &str,
    info: &TensorInfo,
    base_data: Ghost<Seq<u8>>,
    source: &str,
    adapter: &MappedSafetensors,
    settings: Ghost<Settings<N::Single>>,
    low_memory: Ghost<bool>,
    num: &N,
    writer: S,
) -> (r: (S, Result<()>))
    requires
        sizable(Head { name: name@, dtype: info.dtype, shape: info.shape@ }),
    ensures
        tensor_outcome(
            num,
            settings@,
            low_memory@,
            Plan::Replace(source@),
            Head { name: name@, dtype: info.dtype, shape: info.shape@ },
            base_data@,
            adapter@,
            writer,
            r,
        ),
{
    let all: usize = adapter.len();
    let ghost head = Head { name: name@, dtype: info.dtype, shape: info.shape@ };
    let source_info = match adapter.tensor_info(source) {
        Ok(info) => info,
        Err(error) => {
            return (writer, Err(error));
        },
    };
    let source_data = match adapter.tensor_data(source) {
        Ok(data) => data,
        Err(error) => {
            return (writer, Err(error));
        },
    };
    let ghost x = tensor_named(adapter@, source@)->0;
    proof {
        lemma_named_sizable(adapter@, source@);
    }
    if source_info.dtype == info.dtype || !is_mergeable(source_info.dtype) || !is_mergeable(
        info.dtype,
    ) {
        assert(replace_output(num, head, x, source_data@));
        return write_plain(source_data, writer);
    }
    let count: usize = count_elements(source_info.shape.as_slice());
    let shape: Vec<usize> = vec![1, count];
    proof {
        let each = stored_size(source_info.dtype);
        assert(1 * count * each == count * each) by (nonlinear_arith);
        assert(count * 1 == count) by (nonlinear_arith);
        assert(count <= usize::MAX);
    }
    let matrix = match bytes_to_f32(
        source_data,
        source_info.dtype,
        shape.as_slice(),
        source,
        num,
    ) {
        Ok(matrix) => matrix,
        Err(error) => {
            return (writer, Err(error));
        },
    };
    let bytes = match f32_to_bytes(&matrix, info.dtype, num) {
        Ok(bytes) => bytes,
        Err(error) => {
            return (writer, Err(error));
        },
    };
    assert(single_values(num, x.0.dtype, x.1, matrix@.values));
    assert(replace_output(num, head, x, bytes@));
    write_plain(bytes.as_slice(), writer)
}

/// Writes bytes as they are.
fn write_plain<S: Sink>(bytes: &[u8], writer: S) -> (r: (S, Result<()>))
    ensures
        match r.1 {
            Ok(_) => wrote(writer, bytes@, r.0),
            Err(error) => broke(writer, error, r.0),
        },
{
    let (sink, outcome) = writer.write(bytes);
    proof {
        lemma_wrote_nothing(writer);
        if outcome is Ok {
            lemma_wrote_once(writer, bytes, sink, outcome);
        }
    }
    (sink, outcome)
}

/// What was done, if it was done.
fn done_as<S>(r: (S, Result<()>), action: TensorAction) -> (done: (S, Result<TensorAction>))
    ensures
        done.0 == r.0,
        match r.1 {
            Ok(_) => done.1 == Ok::<TensorAction, SurgeryError>(action),
            Err(error) => done.1 == Err::<TensorAction, SurgeryError>(error),
        },
{
    match r.1 {
        Ok(_) => (r.0, Ok(action)),
        Err(error) => (r.0, Err(error)),
    }
}

/// Processes a single tensor: merge, replace, bias-merge, or pass-through.
/// Returns which category the tensor fell into.
pub fn process_tensor<N: Numerics, S: Sink>(
    name: &str,
    info: &TensorInfo,
    base_data: &[u8],
    adapter: &MappedSafetensors,
    config: &AdapterConfig<N::Single>,
    name_mapping: &NameMapping,
    low_memory: bool,
    num: &N,
    writer: S,
) -> (r: (S, Result<TensorAction>))
    requires
        sizable(Head { name: name@, dtype: info.dtype, shape: info.shape@ }),
    ensures
        tensor_outcome(
            num,
            config@,
            low_memory,
            mapped_plan(name_mapping, config@.bias, name@),
            Head { name: name@, dtype: info.dtype, shape: info.shape@ },
            base_data@,
            adapter@,
            writer,
            r,
        ),
        r.1 matches Ok(action) ==> action == action_of(
            mapped_plan(name_mapping, config@.bias, name@),
        ),
{
    let ghost head = Head { name: name@, dtype: info.dtype, shape: info.shape@ };
    if let Some(source) = name_mapping.replacement(name) {
        let r = replace_tensor(
            name,
            info,
            Ghost(base_data@),
            source,
            adapter,
            Ghost(config@),
            Ghost(low_memory),
            num,
            writer,
        );
        return done_as(r, TensorAction::Replaced);
    }
    if let Some(pair) = name_mapping.lora_pair(name) {
        let r = merge_factors(
            name,
            info,
            base_data,
            pair.0.as_str(),
            pair.1.as_str(),
            adapter,
            config,
            low_memory,
            num,
            writer,
        );
        return done_as(r, TensorAction::Merged);
    }
    if matches!(config.bias(), BiasMode::LoraOnly | BiasMode::All) {
        if let Some(source) = name_mapping.bias_source(name) {
            let r = add_bias(
                name,
                info,
                base_data,
                source,
                adapter,
                Ghost(config@),
                Ghost(low_memory),
                num,
                writer,
            );
            return done_as(r, TensorAction::BiasMerged);
        }
    }
    let r = write_plain(base_data, writer);
    assert(tensor_output(
        num,
        config@,
        low_memory,
        Plan::Copy,
        head,
        base_data@,
        adapter@,
        base_data@,
    ));
    done_as(r, TensorAction::Copied)
}

} // verus!
