# safetensors-surgery

Merges PEFT LoRA adapters into safetensors base models, one tensor at a time, so that memory stays
bounded by the largest tensor. The library is written in [Verus](https://github.com/verus-lang/verus):
what each function does is stated in its contract and proved.

For each weight that the adapter has both factors for, the output holds
`base + (alpha / r) * (B @ A)`, computed in double precision and rounded once to the element type of
the base. Modules to save are replaced, converted to the element type of the base; biases are added if the
adapter's configuration asks for it; and all other tensors come out bit by bit as they were. Names, element types, shapes and the notes under `__metadata__` are kept.

## Layout

- `src/`: the library.
  - `config`: what an adapter's configuration says, and when it is valid.
  - `names`: which adapter tensors belong to which base tensor.
  - `header`, `json`: the header of a file as text, and the bytes of a file.
  - `mapped`: a file in memory, and what its header says of its tensors.
  - `numerics`: matrices, and the arithmetic that a merge asks of its caller.
  - `convert`, `delta`, `merge`, `tiling`: bytes to numbers and back, the change that two factors
    make, the merge of a tensor, and that a merge in tiles is the same merge.
  - `process`, `io`: what becomes of a tensor, and of a file.
  - `shard`, `split`: models that are spread over several files, merged one file at a time, and that
    the merge is the one of the model in a single file.
  - `dry_run`: a look at a merge before it is done.
  - `sink`: where the output goes and who is told of the progress and of what is skipped.
  - `stats`, `error`, `dtype`, `sorted`, `text`: what the others are built on.
- `app/`: the command-line program: files, memory maps, floating-point arithmetic, progress bar.
- `tests/`: tests of the library.

## What is trusted

The header of a file is read by the `safetensors` crate, and texts become JSON strings by
`serde_json`. What is claimed of these calls stands above the functions that make them, in
`src/mapped.rs` and `src/json.rs`. Arithmetic and output are traits without promises: contracts
speak of whatever the caller's arithmetic gives and of the bytes that the caller's sink is handed.

## Use

```sh
safetensors-surgery merge --base-model ./Mistral-7B-v0.1 --adapter ./my-lora-adapter \
  --output ./merged-model.safetensors
```

The base model is a `.safetensors` file, a directory with `model.safetensors`, or a directory with
`model.safetensors.index.json`; in the last case the output is a directory too. `--low-memory` merges
512 rows at a time, and `--dry-run` prints what would be done.
