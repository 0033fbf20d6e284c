//! Which adapter tensors belong to which base tensor, in terms of the names alone.

use crate::config::{BiasMode, Settings};
use crate::io::mapping_fault;
use crate::names::{
    listed, lora_pair_for, names_module, path_segment, segment_at, some_target_matches, stem,
};
use crate::process::{plan_for, Plan};
use crate::text::{joined, texts};
use vstd::prelude::*;

verus! {

/// The parts of a text between the separators.
pub open spec fn split(text: Seq<char>, separator: char) -> Seq<Seq<char>>
    decreases text.len(),
{
    if text.len() == 0 {
        seq![Seq::empty()]
    } else {
        let before = split(text.drop_last(), separator);
        if text.last() == separator {
            before.push(Seq::empty())
        } else {
            before.update(before.len() - 1, before.last().push(text.last()))
        }
    }
}

/// There is a last part: what is behind the last separator.
pub(crate) proof fn lemma_split_last(text: Seq<char>, separator: char)
    ensures
        split(text, separator).len() > 0,
        ({
            let last = split(text, separator).last();
            let from = text.len() - last.len();
            &&& 0 <= from
            &&& last == text.subrange(from, text.len() as int)
            &&& !last.contains(separator)
            &&& from == 0 || text[from - 1] == separator
        }),
    decreases text.len(),
{
    if text.len() > 0 {
        let front = text.drop_last();
        lemma_split_last(front, separator);
        let before = split(front, separator).last();
        let last = split(text, separator).last();
        let from = text.len() - last.len();
        assert(last =~= text.subrange(from, text.len() as int));
        if text.last() != separator {
            assert forall|k: int| 0 <= k < last.len() implies last[k] != separator by {
                if k < before.len() {
                    assert(before[k] == last[k]);
                }
            }
        }
    } else {
        assert(split(text, separator).last() =~= text.subrange(0, 0));
    }
}

/// A segment that ends a name is the last part, and one that does not is a part before the last.
proof fn lemma_segment_is_part(name: Seq<char>, segment: Seq<char>, i: int)
    requires
        !segment.contains('.'),
        segment_at(name, segment, i),
    ensures
        ({
            let parts = split(name, '.');
            if i + segment.len() == name.len() {
                parts.last() == segment
            } else {
                exists|k: int| 0 <= k < parts.len() - 1 && #[trigger] parts[k] == segment
            }
        }),
    decreases name.len(),
{
    let parts = split(name, '.');
    let end = i + segment.len();
    lemma_split_last(name, '.');
    if end == name.len() {
        let last = parts.last();
        let from = name.len() - last.len();
        if from < i {
            assert(last[i - 1 - from] == name[i - 1]);
            assert(last.contains('.'));
        }
        if from > i {
            assert(segment[from - 1 - i] == name.subrange(i, end)[from - 1 - i]);
            assert(segment[from - 1 - i] == name[from - 1]);
            assert(segment.contains('.'));
        }
        assert(last =~= segment);
    } else {
        let front = name.drop_last();
        let before = split(front, '.');
        assert(front.subrange(i, end) =~= name.subrange(i, end));
        assert(segment_at(front, segment, i));
        lemma_segment_is_part(front, segment, i);
        lemma_split_last(front, '.');
        if end == front.len() {
            assert(name.last() == '.');
            assert(parts[before.len() - 1] == segment);
        } else {
            let k = choose|k: int| 0 <= k < before.len() - 1 && #[trigger] before[k] == segment;
            assert(parts[k] == segment);
        }
    }
}

/// A part of a name is a segment: the last one ends it, and any other stands before a dot.
proof fn lemma_part_is_segment(name: Seq<char>, k: int) -> (i: int)
    requires
        0 <= k < split(name, '.').len(),
    ensures
        !split(name, '.')[k].contains('.'),
        segment_at(name, split(name, '.')[k], i),
        k == split(name, '.').len() - 1 ==> i + split(name, '.')[k].len() == name.len(),
        k < split(name, '.').len() - 1 ==> i + split(name, '.')[k].len() < name.len() && name[i
            + split(name, '.')[k].len()] == '.',
    decreases name.len(),
{
    let parts = split(name, '.');
    let part = parts[k];
    lemma_split_last(name, '.');
    if k == parts.len() - 1 {
        let i = name.len() - part.len();
        assert(name.subrange(i, i + part.len()) =~= part);
        i
    } else {
        let front = name.drop_last();
        let before = split(front, '.');
        lemma_split_last(front, '.');
        assert(before[k] == part);
        let i = lemma_part_is_segment(front, k);
        let end = i + part.len();
        assert(name.subrange(i, end) =~= front.subrange(i, end));
        i
    }
}

/// A module is a path segment of a name if and only if it is one of the parts between the dots.
pub proof fn law_segments_stand_between_dots(name: Seq<char>, segment: Seq<char>)
    ensures
        path_segment(name, segment) <==> split(name, '.').contains(segment),
{
    let parts = split(name, '.');
    lemma_split_last(name, '.');
    if path_segment(name, segment) {
        let i = choose|i: int| #[trigger] segment_at(name, segment, i);
        lemma_segment_is_part(name, segment, i);
        if i + segment.len() == name.len() {
            assert(parts[parts.len() - 1] == segment);
        }
    }
    if parts.contains(segment) {
        let k = choose|k: int| 0 <= k < parts.len() && parts[k] == segment;
        let i = lemma_part_is_segment(name, k);
        assert(segment_at(name, segment, i));
    }
}

/// Whether one of the modules of a list, wherever it stands in it, is one of the parts of a name.
pub open spec fn some_module_in(name: Seq<char>, modules: Seq<String>) -> bool {
    exists|j: int| 0 <= j < modules.len() && split(name, '.').contains((#[trigger] modules[j])@)
}

/// A list of modules names a tensor if and only if some module of it does, at whatever place.
pub proof fn law_every_module_of_a_list_counts(name: Seq<char>, modules: Seq<String>)
    ensures
        names_module(name, modules) <==> some_module_in(name, modules),
{
    if names_module(name, modules) {
        let j = choose|j: int|
            0 <= j < modules.len() && path_segment(name, #[trigger] modules[j]@);
        law_segments_stand_between_dots(name, modules[j]@);
        assert(split(name, '.').contains(modules[j]@));
    }
    if some_module_in(name, modules) {
        let j = choose|j: int|
            0 <= j < modules.len() && split(name, '.').contains((#[trigger] modules[j])@);
        law_segments_stand_between_dots(name, modules[j]@);
        assert(path_segment(name, modules[j]@));
    }
}

/// The order of a list of modules does not matter, and modules added to it take nothing away.
pub proof fn law_more_modules_match_no_less(
    name: Seq<char>,
    some: Seq<String>,
    more: Seq<String>,
)
    requires
        forall|module: String| #[trigger] some.contains(module) ==> more.contains(module),
    ensures
        names_module(name, some) ==> names_module(name, more),
{
    law_every_module_of_a_list_counts(name, some);
    law_every_module_of_a_list_counts(name, more);
    if some_module_in(name, some) {
        let j = choose|j: int|
            0 <= j < some.len() && split(name, '.').contains((#[trigger] some[j])@);
        assert(some.contains(some[j]));
        let k = choose|k: int| 0 <= k < more.len() && more[k] == some[j];
        assert(split(name, '.').contains(more[k]@));
    }
}

/// A list holds what it contains.
pub(crate) proof fn lemma_listed(names: Seq<Seq<char>>, name: Seq<char>)
    ensures
        listed(names, name) <==> names.contains(name),
{
    if names.contains(name) {
        let i = choose|i: int| 0 <= i < names.len() && names[i] == name;
        assert(names[i] == name);
    }
}

/// A text with an ending.
proof fn lemma_ending(front: Seq<char>, ending: Seq<char>)
    ensures
        ending.is_suffix_of(front + ending),
        (front + ending).subrange(0, (front + ending).len() - ending.len()) == front,
{
    let whole = front + ending;
    assert(whole.subrange(whole.len() - ending.len(), whole.len() as int) =~= ending);
    assert(whole.subrange(0, whole.len() - ending.len()) =~= front);
}

/// Whether a name ends with a text.
pub open spec fn ends_with(name: Seq<char>, ending: Seq<char>) -> bool {
    exists|front: Seq<char>| name == #[trigger] (front + ending)
}

/// A name ends with a text if the text is its end.
pub(crate) proof fn lemma_ends_with(name: Seq<char>, ending: Seq<char>)
    ensures
        ends_with(name, ending) <==> ending.is_suffix_of(name),
{
    if ends_with(name, ending) {
        let front = choose|front: Seq<char>| name == #[trigger] (front + ending);
        lemma_ending(front, ending);
    }
    if ending.is_suffix_of(name) {
        let front = name.subrange(0, name.len() - ending.len());
        assert(name =~= front + ending);
    }
}

/// Whether a base tensor is replaced: the adapter has a tensor of its name behind the prefix, it is
/// in a module to save, and its name is not that of a low-rank factor.
pub open spec fn is_saved<T>(
    base: Seq<Seq<char>>,
    adapter: Seq<Seq<char>>,
    settings: Settings<T>,
    name: Seq<char>,
) -> bool {
    &&& base.contains(name)
    &&& adapter.contains("base_model.model."@ + name)
    &&& settings.modules_to_save matches Some(modules) && some_module_in(name, modules)
    &&& !ends_with(name, ".lora_A.weight"@)
    &&& !ends_with(name, ".lora_B.weight"@)
}

/// A base tensor is replaced, by the adapter's tensor of the same name behind the prefix, if and
/// only if it is in a module to save, whichever of them, and the adapter has that tensor.
pub proof fn law_saved_modules_are_replaced<T>(
    base: Seq<Seq<char>>,
    adapter: Seq<Seq<char>>,
    settings: Settings<T>,
    name: Seq<char>,
)
    ensures
        is_saved(base, adapter, settings, name) ==> plan_for(base, adapter, settings, name)
            == Plan::Replace("base_model.model."@ + name),
        !is_saved(base, adapter, settings, name) ==> !(plan_for(
            base,
            adapter,
            settings,
            name,
        ) is Replace),
{
    lemma_listed(base, name);
    lemma_listed(adapter, "base_model.model."@ + name);
    lemma_ends_with(name, ".lora_A.weight"@);
    lemma_ends_with(name, ".lora_B.weight"@);
    if settings.modules_to_save is Some {
        law_every_module_of_a_list_counts(name, settings.modules_to_save->0);
    }
}

/// A base weight that is not replaced is merged with its two low-rank factors if and only if the
/// adapter has both.
pub proof fn law_weights_with_both_factors_are_merged<T>(
    base: Seq<Seq<char>>,
    adapter: Seq<Seq<char>>,
    settings: Settings<T>,
    front: Seq<char>,
)
    requires
        base.contains(front + ".weight"@),
        !is_saved(base, adapter, settings, front + ".weight"@),
    ensures
        ({
            let a = "base_model.model."@ + front + ".lora_A.weight"@;
            let b = "base_model.model."@ + front + ".lora_B.weight"@;
            let plan = plan_for(base, adapter, settings, front + ".weight"@);
            if adapter.contains(a) && adapter.contains(b) {
                plan == Plan::Merge(a, b)
            } else {
                !(plan is Merge)
            }
        }),
{
    let name = front + ".weight"@;
    law_saved_modules_are_replaced(base, adapter, settings, name);
    lemma_listed(base, name);
    lemma_ending(front, ".weight"@);
    assert(stem(name) == front);
    lemma_listed(adapter, "base_model.model."@ + front + ".lora_A.weight"@);
    lemma_listed(adapter, "base_model.model."@ + front + ".lora_B.weight"@);
}

/// A base tensor that is neither replaced nor merged has an adapter bias added if and only if the
/// mode lets biases be merged, it is a bias, and the adapter has a tensor of its name behind the
/// prefix. What is left is copied.
pub proof fn law_biases_are_added_and_the_rest_is_copied<T>(
    base: Seq<Seq<char>>,
    adapter: Seq<Seq<char>>,
    settings: Settings<T>,
    name: Seq<char>,
)
    requires
        base.contains(name),
    ensures
        ({
            let plan = plan_for(base, adapter, settings, name);
            let source = "base_model.model."@ + name;
            plan is Replace || plan is Merge || plan == (if settings.bias != BiasMode::NoBias
                && ends_with(name, ".bias"@) && adapter.contains(source) {
                Plan::AddBias(source)
            } else {
                Plan::Copy
            })
        }),
        !ends_with(name, ".weight"@) ==> !(plan_for(base, adapter, settings, name) is Merge),
{
    lemma_listed(base, name);
    lemma_listed(adapter, "base_model.model."@ + name);
    lemma_ends_with(name, ".bias"@);
    lemma_ends_with(name, ".weight"@);
}

/// Whether some base weight that the adapter has both factors for is in a target module.
pub open spec fn some_target(
    base: Seq<Seq<char>>,
    adapter: Seq<Seq<char>>,
    modules: Seq<String>,
) -> bool {
    exists|front: Seq<char>|
        base.contains(#[trigger] (front + ".weight"@)) && adapter.contains(
            "base_model.model."@ + front + ".lora_A.weight"@,
        ) && adapter.contains("base_model.model."@ + front + ".lora_B.weight"@) && some_module_in(
            front + ".weight"@,
            modules,
        )
}

/// The names are refused if and only if there are target modules, and none of them, at whatever
/// place, has a base weight that the adapter has both factors for. What is said then names them
/// all.
pub proof fn law_names_are_refused_without_a_target<T>(
    base: Seq<Seq<char>>,
    adapter: Seq<Seq<char>>,
    settings: Settings<T>,
)
    ensures
        mapping_fault(base, adapter, settings) is Some <==> settings.target_modules.len() > 0
            && !some_target(base, adapter, settings.target_modules),
        mapping_fault(base, adapter, settings) matches Some(fault) ==> fault
            is MissingAdapterTensor && fault->module == joined(
            texts(settings.target_modules),
            ", "@,
        ),
{
    let modules = settings.target_modules;
    if some_target_matches(base, adapter, modules) {
        let name = choose|name: Seq<char>|
            (#[trigger] lora_pair_for(base, adapter, name)) is Some && names_module(name, modules);
        let front = stem(name);
        assert(name =~= front + ".weight"@);
        lemma_listed(base, name);
        lemma_listed(adapter, "base_model.model."@ + front + ".lora_A.weight"@);
        lemma_listed(adapter, "base_model.model."@ + front + ".lora_B.weight"@);
        law_every_module_of_a_list_counts(name, modules);
        assert(base.contains(front + ".weight"@));
    }
    if some_target(base, adapter, modules) {
        let front = choose|front: Seq<char>|
            base.contains(#[trigger] (front + ".weight"@)) && adapter.contains(
                "base_model.model."@ + front + ".lora_A.weight"@,
            ) && adapter.contains("base_model.model."@ + front + ".lora_B.weight"@)
                && some_module_in(front + ".weight"@, modules);
        let name = front + ".weight"@;
        lemma_ending(front, ".weight"@);
        assert(stem(name) == front);
        lemma_listed(base, name);
        lemma_listed(adapter, "base_model.model."@ + front + ".lora_A.weight"@);
        lemma_listed(adapter, "base_model.model."@ + front + ".lora_B.weight"@);
        law_every_module_of_a_list_counts(name, modules);
        assert(lora_pair_for(base, adapter, name) is Some);
    }
}

} // verus!
