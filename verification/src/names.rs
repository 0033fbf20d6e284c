//! Tensor name mapping between base model and PEFT adapter conventions.

use crate::error::{Fault, Result, SurgeryError};
use crate::sorted::{ascending, lemma_value_of, SortedMap};
use crate::text::{
    characters, join, joined, lemma_precedes_irreflexive, plain, precedes, strip_prefix,
    strip_suffix, texts,
};
use vstd::prelude::*;

verus! {

/// What adapter tensor names start with.
pub open spec fn adapter_prefix() -> Seq<char> {
    "base_model.model."@
}

/// Whether `segment` stands in `name` between dots or the ends, with no dot in it.
pub open spec fn path_segment(name: Seq<char>, segment: Seq<char>) -> bool {
    &&& !segment.contains('.')
    &&& exists|i: int| #[trigger] segment_at(name, segment, i)
}

/// Whether `segment` stands in `name` at `i`, between dots or the ends.
pub open spec fn segment_at(name: Seq<char>, segment: Seq<char>, i: int) -> bool {
    &&& 0 <= i
    &&& i + segment.len() <= name.len()
    &&& name.subrange(i, i + segment.len()) == segment
    &&& i == 0 || name[i - 1] == '.'
    &&& i + segment.len() == name.len() || name[i + segment.len()] == '.'
}

/// Whether a list of names holds a name.
pub open spec fn listed(names: Seq<Seq<char>>, name: Seq<char>) -> bool {
    exists|i: int| 0 <= i < names.len() && #[trigger] names[i] == name
}

/// A weight's name without `.weight`.
pub open spec fn stem(weight: Seq<char>) -> Seq<char> {
    weight.subrange(0, weight.len() - ".weight"@.len())
}

/// The adapter's name for the first low-rank factor of a base weight.
pub open spec fn lora_a_name(weight: Seq<char>) -> Seq<char> {
    adapter_prefix() + stem(weight) + ".lora_A.weight"@
}

/// The adapter's name for the second low-rank factor of a base weight.
pub open spec fn lora_b_name(weight: Seq<char>) -> Seq<char> {
    adapter_prefix() + stem(weight) + ".lora_B.weight"@
}

/// Whether a name is that of a weight of the base model.
pub open spec fn base_weight(base: Seq<Seq<char>>, name: Seq<char>) -> bool {
    listed(base, name) && ".weight"@.is_suffix_of(name)
}

/// The adapter tensors to merge into a base tensor: both low-rank factors, if the adapter has
/// them both.
pub open spec fn lora_pair_for(
    base: Seq<Seq<char>>,
    adapter: Seq<Seq<char>>,
    name: Seq<char>,
) -> Option<(Seq<char>, Seq<char>)> {
    if base_weight(base, name) && listed(adapter, lora_a_name(name)) && listed(
        adapter,
        lora_b_name(name),
    ) {
        Some((lora_a_name(name), lora_b_name(name)))
    } else {
        None
    }
}

/// Whether some module of a list is a path segment of a name.
pub open spec fn names_module(name: Seq<char>, modules: Seq<String>) -> bool {
    exists|j: int| 0 <= j < modules.len() && path_segment(name, #[trigger] modules[j]@)
}

/// The adapter tensor that replaces a base tensor: the one of the same name behind the prefix,
/// if the name has a module to save as a path segment and is not that of a low-rank factor.
pub open spec fn replacement_for(
    base: Seq<Seq<char>>,
    adapter: Seq<Seq<char>>,
    saved: Option<Seq<String>>,
    name: Seq<char>,
) -> Option<Seq<char>> {
    if listed(base, name) && listed(adapter, adapter_prefix() + name)
        && !".lora_A.weight"@.is_suffix_of(name) && !".lora_B.weight"@.is_suffix_of(name) && (
    saved matches Some(modules) && names_module(name, modules)) {
        Some(adapter_prefix() + name)
    } else {
        None
    }
}

/// The adapter tensor to add to a base bias: the one of the same name behind the prefix.
pub open spec fn bias_for(base: Seq<Seq<char>>, adapter: Seq<Seq<char>>, name: Seq<char>) -> Option<
    Seq<char>,
> {
    if listed(base, name) && ".bias"@.is_suffix_of(name) && listed(
        adapter,
        adapter_prefix() + name,
    ) {
        Some(adapter_prefix() + name)
    } else {
        None
    }
}

/// Whether some base tensor with both low-rank factors has some module of a list as a path
/// segment.
pub open spec fn some_target_matches(
    base: Seq<Seq<char>>,
    adapter: Seq<Seq<char>>,
    modules: Seq<String>,
) -> bool {
    exists|name: Seq<char>|
        (#[trigger] lora_pair_for(base, adapter, name)) is Some && names_module(name, modules)
}

/// Checks if `name` contains `segment` as an exact dot-delimited path segment.
pub fn has_path_segment(name: &str, segment: &str) -> (r: bool)
    ensures
        r == path_segment(name@, segment@),
{
    let n = characters(name);
    let s = characters(segment);
    let mut k: usize = 0;
    while k < s.len()
        invariant
            s@ == segment@,
            k <= s.len(),
            forall|i: int| 0 <= i < k ==> s[i] != '.',
        decreases s.len() - k,
    {
        if s[k] == '.' {
            assert(segment@[k as int] == '.');
            return false;
        }
        k = k + 1;
    }
    assert(!segment@.contains('.'));
    if s.len() > n.len() {
        return false;
    }
    let mut i: usize = 0;
    while i <= n.len() - s.len()
        invariant
            n@ == name@,
            s@ == segment@,
            s.len() <= n.len(),
            i <= n.len() - s.len() + 1,
            !segment@.contains('.'),
            forall|j: int| 0 <= j < i ==> !#[trigger] segment_at(name@, segment@, j),
        decreases n.len() - i,
    {
        if (i == 0 || n[i - 1] == '.') && (i + s.len() == n.len() || n[i + s.len()] == '.')
            && occurs_at(&n, &s, i) {
            assert(segment_at(name@, segment@, i as int));
            return true;
        }
        assert(!segment_at(name@, segment@, i as int));
        if i == n.len() - s.len() {
            return false;
        }
        i = i + 1;
    }
    false
}

/// Whether `part` stands in `whole` at `i`.
fn occurs_at(whole: &Vec<char>, part: &Vec<char>, i: usize) -> (r: bool)
    requires
        i + part.len() <= whole.len(),
    ensures
        r == (whole@.subrange(i as int, i + part.len()) == part@),
{
    let mut k: usize = 0;
    while k < part.len()
        invariant
            i + part.len() <= whole.len(),
            k <= part.len(),
            forall|j: int| 0 <= j < k ==> whole[i + j] == part[j],
        decreases part.len() - k,
    {
        if whole[i + k] != part[k] {
            assert(whole@.subrange(i as int, i + part.len())[k as int] != part@[k as int]);
            return false;
        }
        k = k + 1;
    }
    assert(whole@.subrange(i as int, i + part.len()) =~= part@);
    true
}

/// The adapter's name for a low-rank factor of a base tensor, by the ending of factor names, if
/// the base tensor is a weight and the adapter has that factor.
pub open spec fn factor_for(
    base: Seq<Seq<char>>,
    adapter: Seq<Seq<char>>,
    ending: Seq<char>,
    name: Seq<char>,
) -> Option<Seq<char>> {
    if base_weight(base, name) && listed(adapter, adapter_prefix() + stem(name) + ending) {
        Some(adapter_prefix() + stem(name) + ending)
    } else {
        None
    }
}

/// Whether a map gives each name what a function gives it.
pub open spec fn records(
    map: &SortedMap<String>,
    wanted: spec_fn(Seq<char>) -> Option<Seq<char>>,
) -> bool {
    forall|name: Seq<char>|
        match #[trigger] map.find(name) {
            Some(value) => wanted(name) == Some(value@),
            None => wanted(name) is None,
        }
}

proof fn lemma_listed_push(names: Seq<Seq<char>>, last: Seq<char>)
    ensures
        forall|name: Seq<char>| #[trigger]
            listed(names.push(last), name) <==> listed(names, name) || last == name,
{
    let more = names.push(last);
    assert forall|name: Seq<char>| #[trigger]
        listed(more, name) <==> listed(names, name) || last == name by {
        if listed(names, name) {
            let i = choose|i: int| 0 <= i < names.len() && #[trigger] names[i] == name;
            assert(more[i] == name);
        }
        assert(more[names.len() as int] == last);
        if listed(more, name) {
            let i = choose|i: int| 0 <= i < more.len() && #[trigger] more[i] == name;
            if i < names.len() {
                assert(names[i] == name);
            }
        }
    }
}

proof fn lemma_same_front(front: Seq<char>, a: Seq<char>, b: Seq<char>)
    requires
        front + a == front + b,
    ensures
        a == b,
{
    assert((front + a).len() == front.len() + a.len());
    assert((front + b).len() == front.len() + b.len());
    assert forall|i: int| 0 <= i < a.len() implies a[i] == b[i] by {
        assert((front + a)[front.len() + i] == a[i]);
        assert((front + b)[front.len() + i] == b[i]);
    }
    assert(a =~= b);
}

proof fn lemma_same_end(a: Seq<char>, b: Seq<char>, end: Seq<char>)
    requires
        a + end == b + end,
    ensures
        a == b,
{
    assert((a + end).len() == a.len() + end.len());
    assert((b + end).len() == b.len() + end.len());
    assert forall|i: int| 0 <= i < a.len() implies a[i] == b[i] by {
        assert((a + end)[i] == a[i]);
        assert((b + end)[i] == b[i]);
    }
    assert(a =~= b);
}

/// The base weight that a low-rank factor belongs to, by the ending of the factor's name
/// without the prefix.
fn weight_of_factor(stripped: &str, ending: &str) -> (r: Option<String>)
    ensures
        r is Some <==> ending@.is_suffix_of(stripped@),
        r matches Some(weight) ==> ".weight"@.is_suffix_of(weight@) && stem(weight@) + ending@
            == stripped@,
        forall|name: Seq<char>|
            ".weight"@.is_suffix_of(name) && #[trigger] stem(name) + ending@ == stripped@
                ==> r is Some && r->0@ == name,
{
    let part = strip_suffix(stripped, ending);
    let r = match part {
        Some(part) => {
            let mut weight = String::new();
            weight.append(part);
            weight.append(".weight");
            Some(weight)
        },
        None => None,
    };
    proof {
        if r is Some {
            let weight = r->0@;
            assert(weight =~= part->0@ + ".weight"@);
            assert(weight.subrange(
                weight.len() - ".weight"@.len(),
                weight.len() as int,
            ) =~= ".weight"@);
            assert(stem(weight) =~= part->0@);
        }
        assert forall|name: Seq<char>|
            ".weight"@.is_suffix_of(name) && #[trigger] stem(name) + ending@
                == stripped@ implies r is Some && r->0@ == name by {
            assert(stripped@.subrange(
                stripped@.len() - ending@.len(),
                stripped@.len() as int,
            ) =~= ending@);
            lemma_same_end(stem(name), part->0@, ending@);
            assert(name =~= stem(name) + ".weight"@);
        }
    }
    r
}

/// Whether some module of a list is a path segment of a name.
fn mentions_module(name: &str, modules: &[String]) -> (r: bool)
    ensures
        r == names_module(name@, modules@),
{
    for i in 0..modules.len()
        invariant
            forall|j: int| 0 <= j < i ==> !path_segment(name@, #[trigger] modules@[j]@),
    {
        if has_path_segment(name, modules[i].as_str()) {
            return true;
        }
    }
    false
}

/// Maps base model tensor names to their corresponding adapter tensor names.
#[derive(Debug)]
pub struct NameMapping {
    /// base name -> (lora_A adapter name, lora_B adapter name)
    lora_targets: SortedMap<(String, String)>,
    /// base name -> adapter name, for full module replacements
    replacements: SortedMap<String>,
    /// base bias name -> adapter bias name
    biases: SortedMap<String>,
    /// base names whose lora_A has no lora_B
    only_a: Vec<String>,
    /// base names whose lora_B has no lora_A
    only_b: Vec<String>,
}

impl NameMapping {
    /// The (lora_A, lora_B) adapter names for a base tensor.
    pub closed spec fn lora(&self, name: Seq<char>) -> Option<(Seq<char>, Seq<char>)> {
        match self.lora_targets.find(name) {
            Some(pair) => Some((pair.0@, pair.1@)),
            None => None,
        }
    }

    /// The adapter tensor that replaces a base tensor.
    pub closed spec fn replaced_by(&self, name: Seq<char>) -> Option<Seq<char>> {
        match self.replacements.find(name) {
            Some(source) => Some(source@),
            None => None,
        }
    }

    /// The adapter bias to add to a base bias.
    pub closed spec fn bias(&self, name: Seq<char>) -> Option<Seq<char>> {
        match self.biases.find(name) {
            Some(source) => Some(source@),
            None => None,
        }
    }

    /// The base tensors whose lora_A has no lora_B.
    pub closed spec fn without_b(&self) -> Seq<Seq<char>> {
        texts(self.only_a@)
    }

    /// The base tensors whose lora_B has no lora_A.
    pub closed spec fn without_a(&self) -> Seq<Seq<char>> {
        texts(self.only_b@)
    }

    /// Returns the (lora_A, lora_B) adapter names for a base tensor, if it is a LoRA target.
    #[must_use]
    pub fn lora_pair(&self, base_name: &str) -> (r: Option<&(String, String)>)
        ensures
            r is Some <==> self.lora(base_name@) is Some,
            r matches Some(pair) ==> self.lora(base_name@) == Some((pair.0@, pair.1@)),
    {
        self.lora_targets.get(base_name)
    }

    /// Returns true if the base tensor has matching LoRA adapter weights.
    #[must_use]
    pub fn is_lora_target(&self, base_name: &str) -> (r: bool)
        ensures
            r == (self.lora(base_name@) is Some),
    {
        self.lora_targets.contains(base_name)
    }

    /// Returns the adapter tensor name if this base tensor should be fully replaced.
    #[must_use]
    pub fn replacement(&self, base_name: &str) -> (r: Option<&str>)
        ensures
            r is Some <==> self.replaced_by(base_name@) is Some,
            r matches Some(source) ==> self.replaced_by(base_name@) == Some(source@),
    {
        match self.replacements.get(base_name) {
            Some(source) => Some(source.as_str()),
            None => None,
        }
    }

    /// Returns the adapter bias tensor name for a base bias tensor.
    #[must_use]
    pub fn bias_source(&self, base_name: &str) -> (r: Option<&str>)
        ensures
            r is Some <==> self.bias(base_name@) is Some,
            r matches Some(source) ==> self.bias(base_name@) == Some(source@),
    {
        match self.biases.get(base_name) {
            Some(source) => Some(source.as_str()),
            None => None,
        }
    }

    /// Says of each low-rank factor without its partner that it is skipped.
    pub fn warnings(&self) -> (r: Vec<String>)
        ensures
            texts(r@) == mapping_warnings(self),
    {
        let mut r: Vec<String> = Vec::new();
        push_skipped(&mut r, "lora_A", &self.only_a, "lora_B");
        push_skipped(&mut r, "lora_B", &self.only_b, "lora_A");
        assert(texts(r@) =~= skipped_warnings("lora_A"@, self.without_b(), "lora_B"@)
            + skipped_warnings("lora_B"@, self.without_a(), "lora_A"@));
        r
    }
}

/// The warning for a low-rank factor without its partner.
pub open spec fn skipped_warning(
    factor: Seq<char>,
    name: Seq<char>,
    partner: Seq<char>,
) -> Seq<char> {
    "warning: adapter has "@ + factor + " for '"@ + name + "' but no matching "@ + partner
        + " (skipped)"@
}

/// The warnings for low-rank factors without their partners.
pub open spec fn skipped_warnings(
    factor: Seq<char>,
    names: Seq<Seq<char>>,
    partner: Seq<char>,
) -> Seq<Seq<char>> {
    Seq::new(names.len(), |i: int| skipped_warning(factor, names[i], partner))
}

/// The warnings for a name mapping.
pub open spec fn mapping_warnings(mapping: &NameMapping) -> Seq<Seq<char>> {
    skipped_warnings("lora_A"@, mapping.without_b(), "lora_B"@) + skipped_warnings(
        "lora_B"@,
        mapping.without_a(),
        "lora_A"@,
    )
}

fn push_skipped(out: &mut Vec<String>, factor: &str, names: &Vec<String>, partner: &str)
    ensures
        texts(final(out)@) == texts(old(out)@) + skipped_warnings(
            factor@,
            texts(names@),
            partner@,
        ),
{
    let ghost start = texts(out@);
    let ghost all = skipped_warnings(factor@, texts(names@), partner@);
    assert(texts(out@) =~= start + all.take(0));
    for i in 0..names.len()
        invariant
            all == skipped_warnings(factor@, texts(names@), partner@),
            texts(out@) == start + all.take(i as int),
    {
        let mut text = String::new();
        text.append("warning: adapter has ");
        text.append(factor);
        text.append(" for '");
        text.append(names[i].as_str());
        text.append("' but no matching ");
        text.append(partner);
        text.append(" (skipped)");
        assert(text@ =~= skipped_warning(factor@, names@[i as int]@, partner@));
        let ghost before = out@;
        out.push(text);
        assert(texts(out@) =~= texts(before).push(text@));
        assert(start + all.take(i + 1) =~= (start + all.take(i as int)).push(all[i as int]));
    }
    assert(all.take(all.len() as int) =~= all);
}

/// The names of a list, as a set.
fn name_set(names: &[&str]) -> (r: SortedMap<()>)
    ensures
        forall|name: Seq<char>| (#[trigger] r.find(name)) is Some <==> listed(plain(names@), name),
{
    let mut r: SortedMap<()> = SortedMap::new();
    for i in 0..names.len()
        invariant
            forall|name: Seq<char>|
                (#[trigger] r.find(name)) is Some <==> listed(plain(names@).take(i as int), name),
    {
        let ghost before = r;
        let text: &str = names[i];
        r.insert(text.to_owned(), ());
        proof {
            lemma_listed_push(plain(names@).take(i as int), names@[i as int]@);
            assert(plain(names@).take(i as int).push(names@[i as int]@) =~= plain(names@).take(
                i + 1,
            ));
            assert forall|name: Seq<char>| (#[trigger] r.find(name)) is Some <==> listed(
                plain(names@).take(i + 1),
                name,
            ) by {
                assert(name != text@ ==> r.find(name) == before.find(name));
            }
        }
    }
    assert(plain(names@).take(names@.len() as int) =~= plain(names@));
    r
}

/// What one more adapter name adds to the factors of one kind: nothing, unless it is the factor
/// of a base weight.
proof fn lemma_factor_step(
    base: Seq<Seq<char>>,
    done: Seq<Seq<char>>,
    next: Seq<char>,
    ending: Seq<char>,
    name: Seq<char>,
)
    ensures
        next != adapter_prefix() + stem(name) + ending || !base_weight(base, name) ==> factor_for(
            base,
            done.push(next),
            ending,
            name,
        ) == factor_for(base, done, ending, name),
        next == adapter_prefix() + stem(name) + ending && base_weight(base, name) ==> factor_for(
            base,
            done.push(next),
            ending,
            name,
        ) == Some(next),
{
    lemma_listed_push(done, next);
    assert(listed(done.push(next), adapter_prefix() + stem(name) + ending) <==> listed(
        done,
        adapter_prefix() + stem(name) + ending,
    ) || next == adapter_prefix() + stem(name) + ending);
}

/// Reads an adapter name as the factor of one kind of a base weight, and records it.
fn record_factor(
    map: &mut SortedMap<String>,
    base: &SortedMap<()>,
    stripped: &str,
    adapter_name: &str,
    ending: &str,
    base_names: Ghost<Seq<Seq<char>>>,
    done: Ghost<Seq<Seq<char>>>,
) -> (r: bool)
    requires
        forall|name: Seq<char>|
            (#[trigger] base.find(name)) is Some <==> listed(base_names@, name),
        adapter_name@ == adapter_prefix() + stripped@,
        records(old(map), |name: Seq<char>| factor_for(base_names@, done@, ending@, name)),
    ensures
        r == ending@.is_suffix_of(stripped@),
        records(
            final(map),
            |name: Seq<char>| factor_for(base_names@, done@.push(adapter_name@), ending@, name),
        ),
{
    let ghost before = *map;
    let weight = weight_of_factor(stripped, ending);
    let ghost found = weight;
    proof {
        assert forall|name: Seq<char>|
            base_weight(base_names@, name) && adapter_name@ == adapter_prefix() + stem(name)
                + ending@ implies found is Some && #[trigger] stem(name) == stem(found->0@) && name
            == found->0@ by {
            assert(adapter_prefix() + stem(name) + ending@ =~= adapter_prefix() + (stem(name)
                + ending@));
            lemma_same_front(adapter_prefix(), stem(name) + ending@, stripped@);
        }
        if found is Some {
            assert(adapter_prefix() + stem(found->0@) + ending@ =~= adapter_prefix() + (stem(
                found->0@,
            ) + ending@));
        }
    }
    let r = weight.is_some();
    if let Some(weight) = weight {
        if base.contains(weight.as_str()) {
            map.insert(weight, adapter_name.to_owned());
        }
    }
    proof {
        let wanted = |name: Seq<char>| factor_for(base_names@, done@, ending@, name);
        let next = |name: Seq<char>|
            factor_for(base_names@, done@.push(adapter_name@), ending@, name);
        assert forall|name: Seq<char>|
            match #[trigger] map.find(name) {
                Some(value) => next(name) == Some(value@),
                None => next(name) is None,
            } by {
            lemma_factor_step(base_names@, done@, adapter_name@, ending@, name);
            assert(match before.find(name) {
                Some(value) => wanted(name) == Some(value@),
                None => wanted(name) is None,
            });
            if found is Some && name == found->0@ {
                assert(base.find(name) is Some <==> listed(base_names@, name));
            }
        }
    }
    r
}

/// What one more adapter name adds to what is found under the prefix: nothing, unless it is the
/// name behind the prefix.
proof fn lemma_source_step(
    base: Seq<Seq<char>>,
    done: Seq<Seq<char>>,
    next: Seq<char>,
    saved: Option<Seq<String>>,
    name: Seq<char>,
)
    ensures
        next != adapter_prefix() + name ==> replacement_for(base, done.push(next), saved, name)
            == replacement_for(base, done, saved, name) && bias_for(base, done.push(next), name)
            == bias_for(base, done, name),
        next == adapter_prefix() + name ==> listed(done.push(next), adapter_prefix() + name),
{
    lemma_listed_push(done, next);
    assert(listed(done.push(next), adapter_prefix() + name) <==> listed(
        done,
        adapter_prefix() + name,
    ) || next == adapter_prefix() + name);
}

/// A name without the prefix adds nothing to any of the maps.
proof fn lemma_foreign_name(
    base: Seq<Seq<char>>,
    done: Seq<Seq<char>>,
    next: Seq<char>,
    saved: Option<Seq<String>>,
    name: Seq<char>,
)
    requires
        !adapter_prefix().is_prefix_of(next),
    ensures
        factor_for(base, done.push(next), ".lora_A.weight"@, name) == factor_for(
            base,
            done,
            ".lora_A.weight"@,
            name,
        ),
        factor_for(base, done.push(next), ".lora_B.weight"@, name) == factor_for(
            base,
            done,
            ".lora_B.weight"@,
            name,
        ),
        replacement_for(base, done.push(next), saved, name) == replacement_for(
            base,
            done,
            saved,
            name,
        ),
        bias_for(base, done.push(next), name) == bias_for(base, done, name),
{
    assert forall|rest: Seq<char>| next != #[trigger] (adapter_prefix() + rest) by {
        let whole = adapter_prefix() + rest;
        if next == whole {
            assert(whole.subrange(0, adapter_prefix().len() as int) =~= adapter_prefix());
        }
    }
    assert(adapter_prefix() + stem(name) + ".lora_A.weight"@ =~= adapter_prefix() + (stem(name)
        + ".lora_A.weight"@));
    assert(adapter_prefix() + stem(name) + ".lora_B.weight"@ =~= adapter_prefix() + (stem(name)
        + ".lora_B.weight"@));
    lemma_factor_step(base, done, next, ".lora_A.weight"@, name);
    lemma_factor_step(base, done, next, ".lora_B.weight"@, name);
    lemma_source_step(base, done, next, saved, name);
}

/// A slice of modules as a sequence.
pub open spec fn saved_modules(modules: Option<&[String]>) -> Option<Seq<String>> {
    match modules {
        Some(modules) => Some(modules@),
        None => None,
    }
}

/// Whether a mapping is the one between the names of a base model and those of an adapter.
pub open spec fn maps_names(
    mapping: &NameMapping,
    base: Seq<Seq<char>>,
    adapter: Seq<Seq<char>>,
    saved: Option<Seq<String>>,
) -> bool {
    &&& forall|name: Seq<char>| #[trigger]
        mapping.lora(name) == lora_pair_for(base, adapter, name)
    &&& forall|name: Seq<char>| #[trigger]
        mapping.replaced_by(name) == replacement_for(base, adapter, saved, name)
    &&& forall|name: Seq<char>| #[trigger] mapping.bias(name) == bias_for(base, adapter, name)
    &&& lack_b(base, adapter, mapping.without_b())
    &&& lack_a(base, adapter, mapping.without_a())
}

/// Whether names are those of the base weights that an adapter has the first low-rank factor for,
/// but not the second.
pub open spec fn lack_b(
    base: Seq<Seq<char>>,
    adapter: Seq<Seq<char>>,
    names: Seq<Seq<char>>,
) -> bool {
    &&& names.no_duplicates()
    &&& forall|name: Seq<char>| #[trigger]
        names.contains(name) <==> base_weight(base, name) && listed(adapter, lora_a_name(name))
            && !listed(adapter, lora_b_name(name))
}

/// Whether names are those of the base weights that an adapter has the second low-rank factor for,
/// but not the first.
pub open spec fn lack_a(
    base: Seq<Seq<char>>,
    adapter: Seq<Seq<char>>,
    names: Seq<Seq<char>>,
) -> bool {
    &&& names.no_duplicates()
    &&& forall|name: Seq<char>| #[trigger]
        names.contains(name) <==> base_weight(base, name) && listed(adapter, lora_b_name(name))
            && !listed(adapter, lora_a_name(name))
}

/// Whether warnings are those for the names of a base model and of an adapter: one for each
/// low-rank factor without its partner.
pub open spec fn warned(
    base: Seq<Seq<char>>,
    adapter: Seq<Seq<char>>,
    warnings: Seq<Seq<char>>,
) -> bool {
    exists|first: Seq<Seq<char>>, second: Seq<Seq<char>>| #[trigger]
        lack_b(base, adapter, first) && #[trigger] lack_a(base, adapter, second) && warnings
            == skipped_warnings("lora_A"@, first, "lora_B"@) + skipped_warnings(
            "lora_B"@,
            second,
            "lora_A"@,
        )
}

/// Says of each low-rank factor without its partner that it is skipped, whether or not some
/// target module matches.
pub fn unpaired_factors(base_tensor_names: &[&str], adapter_tensor_names: &[&str]) -> (r: Vec<
    String,
>)
    ensures
        warned(plain(base_tensor_names@), plain(adapter_tensor_names@), texts(r@)),
{
    match build_name_mapping(base_tensor_names, adapter_tensor_names, &[], None) {
        Ok(mapping) => {
            let r = mapping.warnings();
            assert(lack_b(
                plain(base_tensor_names@),
                plain(adapter_tensor_names@),
                mapping.without_b(),
            ));
            r
        },
        Err(_) => Vec::new(),
    }
}

/// The names that one map has and another has not, in ascending order.
fn names_missing(map: &SortedMap<String>, other: &SortedMap<String>) -> (r: Vec<String>)
    ensures
        forall|name: Seq<char>| #[trigger]
            texts(r@).contains(name) <==> map.find(name) is Some && other.find(name) is None,
        texts(r@).no_duplicates(),
{
    let mut r: Vec<String> = Vec::new();
    let n: usize = map.len();
    for i in 0..n
        invariant
            n == map.rows().len(),
            ascending(map.rows()),
            forall|k: int|
                0 <= k < r@.len() ==> other.find(#[trigger] r@[k]@) is None && exists|j: int|
                    0 <= j < i && map.rows()[j].0 == r@[k]@,
            forall|j: int|
                0 <= j < i && other.find(#[trigger] map.rows()[j].0) is None ==> texts(
                    r@,
                ).contains(map.rows()[j].0),
            texts(r@).no_duplicates(),
    {
        let name = map.name(i);
        if !other.contains(name.as_str()) {
            let ghost before = r@;
            proof {
                assert forall|k: int| 0 <= k < r@.len() implies #[trigger] r@[k]@ != name@ by {
                    let j = choose|j: int| 0 <= j < i && map.rows()[j].0 == r@[k]@;
                    assert(precedes(map.rows()[j].0, map.rows()[i as int].0));
                    lemma_precedes_irreflexive(name@);
                }
            }
            r.push(name.clone());
            proof {
                let new = texts(r@);
                assert(new =~= texts(before).push(name@));
                assert(new[before.len() as int] == name@);
                assert forall|j: int|
                    0 <= j < i + 1 && other.find(
                        #[trigger] map.rows()[j].0,
                    ) is None implies new.contains(map.rows()[j].0) by {
                    if j < i {
                        let k = choose|k: int|
                            0 <= k < texts(before).len() && texts(before)[k] == map.rows()[j].0;
                        assert(new[k] == map.rows()[j].0);
                    }
                }
                assert forall|k: int| 0 <= k < r@.len() implies other.find(
                    #[trigger] r@[k]@,
                ) is None && exists|j: int| 0 <= j < i + 1 && map.rows()[j].0 == r@[k]@ by {
                    if k < before.len() {
                        assert(r@[k] == before[k]);
                        let j = choose|j: int| 0 <= j < i && map.rows()[j].0 == before[k]@;
                        assert(map.rows()[j].0 == r@[k]@);
                    } else {
                        assert(map.rows()[i as int].0 == r@[k]@);
                    }
                }
            }
        }
    }
    proof {
        assert forall|name: Seq<char>| #[trigger]
            texts(r@).contains(name) <==> map.find(name) is Some && other.find(name) is None by {
            if texts(r@).contains(name) {
                let k = choose|k: int| 0 <= k < texts(r@).len() && texts(r@)[k] == name;
                assert(other.find(r@[k]@) is None);
                let j = choose|j: int| 0 <= j < n && map.rows()[j].0 == r@[k]@;
                lemma_value_of(map.rows(), j);
            }
            if map.find(name) is Some && other.find(name) is None {
                let j = choose|j: int|
                    0 <= j < map.rows().len() && #[trigger] map.rows()[j].0 == name;
                assert(other.find(map.rows()[j].0) is None);
            }
        }
    }
    r
}

/// Pairs the low-rank factors: a name has a pair if it has both.
fn pair_factors(a: &SortedMap<String>, b: &SortedMap<String>) -> (r: SortedMap<(String, String)>)
    ensures
        forall|name: Seq<char>|
            match #[trigger] r.find(name) {
                Some(pair) => a.find(name) is Some && b.find(name) is Some && pair.0@ == a.find(
                    name,
                )->0@ && pair.1@ == b.find(name)->0@,
                None => a.find(name) is None || b.find(name) is None,
            },
{
    let mut r: SortedMap<(String, String)> = SortedMap::new();
    let n: usize = a.len();
    for i in 0..n
        invariant
            n == a.rows().len(),
            ascending(a.rows()),
            forall|name: Seq<char>|
                (#[trigger] r.find(name)) matches Some(pair) ==> a.find(name) is Some && b.find(
                    name,
                ) is Some && pair.0@ == a.find(name)->0@ && pair.1@ == b.find(name)->0@,
            forall|j: int|
                0 <= j < i && b.find(#[trigger] a.rows()[j].0) is Some ==> r.find(
                    a.rows()[j].0,
                ) is Some,
    {
        let name = a.name(i);
        let source = a.value(i);
        proof {
            lemma_value_of(a.rows(), i as int);
        }
        if let Some(partner) = b.get(name.as_str()) {
            let ghost before = r;
            r.insert(name.clone(), (source.clone(), partner.clone()));
            proof {
                assert forall|other: Seq<char>|
                    (#[trigger] r.find(other)) matches Some(pair) ==> a.find(other) is Some
                        && b.find(other) is Some && pair.0@ == a.find(other)->0@ && pair.1@
                        == b.find(other)->0@ by {
                    if other != name@ {
                        assert(r.find(other) == before.find(other));
                    }
                }
                assert forall|j: int|
                    0 <= j < i + 1 && b.find(#[trigger] a.rows()[j].0) is Some implies r.find(
                    a.rows()[j].0,
                ) is Some by {
                    if a.rows()[j].0 != name@ {
                        assert(r.find(a.rows()[j].0) == before.find(a.rows()[j].0));
                    }
                }
            }
        }
    }
    proof {
        assert forall|name: Seq<char>|
            match #[trigger] r.find(name) {
                Some(pair) => a.find(name) is Some && b.find(name) is Some && pair.0@ == a.find(
                    name,
                )->0@ && pair.1@ == b.find(name)->0@,
                None => a.find(name) is None || b.find(name) is None,
            } by {
            if a.find(name) is Some && b.find(name) is Some {
                let j = choose|j: int| 0 <= j < a.rows().len() && #[trigger] a.rows()[j].0 == name;
                assert(b.find(a.rows()[j].0) is Some);
            }
        }
    }
    r
}

/// Whether a name of a map has some module of a list as a path segment.
fn some_name_matches(map: &SortedMap<(String, String)>, modules: &[String]) -> (r: bool)
    ensures
        r <==> exists|name: Seq<char>|
            (#[trigger] map.find(name)) is Some && names_module(name, modules@),
{
    let n: usize = map.len();
    for i in 0..n
        invariant
            n == map.rows().len(),
            ascending(map.rows()),
            forall|j: int|
                0 <= j < i ==> !names_module(#[trigger] map.rows()[j].0, modules@),
    {
        let name = map.name(i);
        if mentions_module(name.as_str(), modules) {
            proof {
                lemma_value_of(map.rows(), i as int);
                assert(map.find(name@) is Some);
            }
            return true;
        }
    }
    proof {
        assert forall|name: Seq<char>| (#[trigger] map.find(name)) is Some implies !names_module(
            name,
            modules@,
        ) by {
            let j = choose|j: int| 0 <= j < map.rows().len() && #[trigger] map.rows()[j].0 == name;
            assert(!names_module(map.rows()[j].0, modules@));
        }
    }
    false
}

/// Builds a name mapping by iterating adapter tensor names, stripping the
/// `base_model.model.` prefix and `.lora_A.weight` / `.lora_B.weight` suffixes,
/// and matching against base model tensor names.
///
/// It fails only if there are target modules and none of them names a base tensor with both
/// low-rank factors: a module without a match is skipped, so that an adapter may cover some of
/// the layers.
pub fn build_name_mapping(
    base_tensor_names: &[&str],
    adapter_tensor_names: &[&str],
    target_modules: &[String],
    modules_to_save: Option<&[String]>,
) -> (r: Result<NameMapping>)
    ensures
        match r {
            Ok(mapping) => (target_modules@.len() == 0 || some_target_matches(
                plain(base_tensor_names@),
                plain(adapter_tensor_names@),
                target_modules@,
            )) && maps_names(
                &mapping,
                plain(base_tensor_names@),
                plain(adapter_tensor_names@),
                saved_modules(modules_to_save),
            ),
            Err(error) => target_modules@.len() > 0 && !some_target_matches(
                plain(base_tensor_names@),
                plain(adapter_tensor_names@),
                target_modules@,
            ) && error@ == (Fault::MissingAdapterTensor {
                module: joined(texts(target_modules@), ", "@),
            }),
        },
{
    let base_set = name_set(base_tensor_names);
    let ghost base = plain(base_tensor_names@);
    let ghost adapter = plain(adapter_tensor_names@);
    let ghost saved = saved_modules(modules_to_save);

    let mut lora_a: SortedMap<String> = SortedMap::new();
    let mut lora_b: SortedMap<String> = SortedMap::new();
    let mut replacements: SortedMap<String> = SortedMap::new();
    let mut biases: SortedMap<String> = SortedMap::new();

    for i in 0..adapter_tensor_names.len()
        invariant
            base == plain(base_tensor_names@),
            adapter == plain(adapter_tensor_names@),
            saved == saved_modules(modules_to_save),
            forall|name: Seq<char>|
                (#[trigger] base_set.find(name)) is Some <==> listed(base, name),
            records(
                &lora_a,
                |name: Seq<char>| factor_for(base, adapter.take(i as int), ".lora_A.weight"@, name),
            ),
            records(
                &lora_b,
                |name: Seq<char>| factor_for(base, adapter.take(i as int), ".lora_B.weight"@, name),
            ),
            records(
                &replacements,
                |name: Seq<char>| replacement_for(base, adapter.take(i as int), saved, name),
            ),
            records(&biases, |name: Seq<char>| bias_for(base, adapter.take(i as int), name)),
    {
        let adapter_name: &str = adapter_tensor_names[i];
        let ghost done = adapter.take(i as int);
        let ghost old_a = lora_a;
        let ghost old_b = lora_b;
        let ghost old_replacements = replacements;
        let ghost old_biases = biases;
        assert(done.push(adapter_name@) =~= adapter.take(i + 1));

        if let Some(stripped) = strip_prefix(adapter_name, "base_model.model.") {
            proof {
                reveal_strlit(".lora_A.weight");
                reveal_strlit(".lora_B.weight");
            }
            let is_a = record_factor(
                &mut lora_a,
                &base_set,
                stripped,
                adapter_name,
                ".lora_A.weight",
                Ghost(base),
                Ghost(done),
            );
            let is_b = record_factor(
                &mut lora_b,
                &base_set,
                stripped,
                adapter_name,
                ".lora_B.weight",
                Ghost(base),
                Ghost(done),
            );
            let in_base = base_set.contains(stripped);
            if !is_a && !is_b {
                if let Some(modules) = modules_to_save {
                    if in_base && mentions_module(stripped, modules) {
                        replacements.insert(stripped.to_owned(), adapter_name.to_owned());
                    }
                }
            }
            if in_base && strip_suffix(stripped, ".bias").is_some() {
                biases.insert(stripped.to_owned(), adapter_name.to_owned());
            }
            proof {
                assert forall|name: Seq<char>|
                    match #[trigger] replacements.find(name) {
                        Some(value) => replacement_for(base, done.push(adapter_name@), saved, name)
                            == Some(value@),
                        None => replacement_for(
                            base,
                            done.push(adapter_name@),
                            saved,
                            name,
                        ) is None,
                    } by {
                    lemma_source_step(base, done, adapter_name@, saved, name);
                    assert(match old_replacements.find(name) {
                        Some(value) => replacement_for(base, done, saved, name) == Some(value@),
                        None => replacement_for(base, done, saved, name) is None,
                    });
                    if adapter_name@ == adapter_prefix() + name {
                        lemma_same_front(adapter_prefix(), name, stripped@);
                        assert(base_set.find(name) is Some <==> listed(base, name));
                    }
                }
                assert forall|name: Seq<char>|
                    match #[trigger] biases.find(name) {
                        Some(value) => bias_for(base, done.push(adapter_name@), name) == Some(
                            value@,
                        ),
                        None => bias_for(base, done.push(adapter_name@), name) is None,
                    } by {
                    lemma_source_step(base, done, adapter_name@, saved, name);
                    assert(match old_biases.find(name) {
                        Some(value) => bias_for(base, done, name) == Some(value@),
                        None => bias_for(base, done, name) is None,
                    });
                    if adapter_name@ == adapter_prefix() + name {
                        lemma_same_front(adapter_prefix(), name, stripped@);
                        assert(base_set.find(name) is Some <==> listed(base, name));
                    }
                }
            }
        } else {
            proof {
                assert forall|name: Seq<char>|
                    factor_for(base, done.push(adapter_name@), ".lora_A.weight"@, name)
                        == #[trigger] factor_for(base, done, ".lora_A.weight"@, name) by {
                    lemma_foreign_name(base, done, adapter_name@, saved, name);
                }
                assert forall|name: Seq<char>|
                    factor_for(base, done.push(adapter_name@), ".lora_B.weight"@, name)
                        == #[trigger] factor_for(base, done, ".lora_B.weight"@, name) by {
                    lemma_foreign_name(base, done, adapter_name@, saved, name);
                }
                assert forall|name: Seq<char>|
                    replacement_for(base, done.push(adapter_name@), saved, name)
                        == #[trigger] replacement_for(base, done, saved, name) by {
                    lemma_foreign_name(base, done, adapter_name@, saved, name);
                }
                assert forall|name: Seq<char>|
                    bias_for(base, done.push(adapter_name@), name) == #[trigger] bias_for(
                        base,
                        done,
                        name,
                    ) by {
                    lemma_foreign_name(base, done, adapter_name@, saved, name);
                }
                lemma_records_same(
                    &lora_a,
                    |name: Seq<char>| factor_for(base, done, ".lora_A.weight"@, name),
                    |name: Seq<char>|
                        factor_for(base, adapter.take(i + 1), ".lora_A.weight"@, name),
                );
                lemma_records_same(
                    &lora_b,
                    |name: Seq<char>| factor_for(base, done, ".lora_B.weight"@, name),
                    |name: Seq<char>|
                        factor_for(base, adapter.take(i + 1), ".lora_B.weight"@, name),
                );
                lemma_records_same(
                    &replacements,
                    |name: Seq<char>| replacement_for(base, done, saved, name),
                    |name: Seq<char>| replacement_for(base, adapter.take(i + 1), saved, name),
                );
                lemma_records_same(
                    &biases,
                    |name: Seq<char>| bias_for(base, done, name),
                    |name: Seq<char>| bias_for(base, adapter.take(i + 1), name),
                );
            }
        }
    }
    assert(adapter.take(adapter.len() as int) =~= adapter);

    let lora_targets = pair_factors(&lora_a, &lora_b);
    let only_a = names_missing(&lora_a, &lora_b);
    let only_b = names_missing(&lora_b, &lora_a);
    proof {
        assert forall|name: Seq<char>| #[trigger]
            lora_targets.find(name) is Some <==> lora_pair_for(base, adapter, name) is Some by {
            assert(lora_a.find(name) is Some <==> factor_for(
                base,
                adapter,
                ".lora_A.weight"@,
                name,
            ) is Some);
            assert(lora_b.find(name) is Some <==> factor_for(
                base,
                adapter,
                ".lora_B.weight"@,
                name,
            ) is Some);
        }
        assert((exists|name: Seq<char>|
            (#[trigger] lora_targets.find(name)) is Some && names_module(name, target_modules@))
            <==> some_target_matches(base, adapter, target_modules@)) by {
            if exists|name: Seq<char>|
                (#[trigger] lora_targets.find(name)) is Some && names_module(
                    name,
                    target_modules@,
                ) {
                let name = choose|name: Seq<char>|
                    (#[trigger] lora_targets.find(name)) is Some && names_module(
                        name,
                        target_modules@,
                    );
                assert(lora_pair_for(base, adapter, name) is Some);
            }
            if some_target_matches(base, adapter, target_modules@) {
                let name = choose|name: Seq<char>|
                    (#[trigger] lora_pair_for(base, adapter, name)) is Some && names_module(
                        name,
                        target_modules@,
                    );
                assert(lora_targets.find(name) is Some);
            }
        }
    }
    if target_modules.len() > 0 && !some_name_matches(&lora_targets, target_modules) {
        return Err(SurgeryError::MissingAdapterTensor { module: join(target_modules, ", ") });
    }
    let mapping = NameMapping { lora_targets, replacements, biases, only_a, only_b };
    proof {
        assert forall|name: Seq<char>| #[trigger]
            mapping.lora(name) == lora_pair_for(base, adapter, name) by {
            assert(match lora_a.find(name) {
                Some(value) => factor_for(base, adapter, ".lora_A.weight"@, name) == Some(value@),
                None => factor_for(base, adapter, ".lora_A.weight"@, name) is None,
            });
            assert(match lora_b.find(name) {
                Some(value) => factor_for(base, adapter, ".lora_B.weight"@, name) == Some(value@),
                None => factor_for(base, adapter, ".lora_B.weight"@, name) is None,
            });
            assert(lora_targets.find(name) is Some <==> lora_pair_for(base, adapter, name) is Some);
        }
        assert forall|name: Seq<char>| #[trigger]
            mapping.replaced_by(name) == replacement_for(base, adapter, saved, name) by {
            assert(match replacements.find(name) {
                Some(value) => replacement_for(base, adapter, saved, name) == Some(value@),
                None => replacement_for(base, adapter, saved, name) is None,
            });
        }
        assert forall|name: Seq<char>| #[trigger]
            mapping.bias(name) == bias_for(base, adapter, name) by {
            assert(match biases.find(name) {
                Some(value) => bias_for(base, adapter, name) == Some(value@),
                None => bias_for(base, adapter, name) is None,
            });
        }
        assert forall|name: Seq<char>| #[trigger]
            mapping.without_b().contains(name) <==> base_weight(base, name) && listed(
                adapter,
                lora_a_name(name),
            ) && !listed(adapter, lora_b_name(name)) by {
            assert(lora_a.find(name) is Some <==> factor_for(
                base,
                adapter,
                ".lora_A.weight"@,
                name,
            ) is Some);
            assert(lora_b.find(name) is Some <==> factor_for(
                base,
                adapter,
                ".lora_B.weight"@,
                name,
            ) is Some);
        }
        assert forall|name: Seq<char>| #[trigger]
            mapping.without_a().contains(name) <==> base_weight(base, name) && listed(
                adapter,
                lora_b_name(name),
            ) && !listed(adapter, lora_a_name(name)) by {
            assert(lora_a.find(name) is Some <==> factor_for(
                base,
                adapter,
                ".lora_A.weight"@,
                name,
            ) is Some);
            assert(lora_b.find(name) is Some <==> factor_for(
                base,
                adapter,
                ".lora_B.weight"@,
                name,
            ) is Some);
        }
    }
    Ok(mapping)
}

proof fn lemma_records_same(
    map: &SortedMap<String>,
    wanted: spec_fn(Seq<char>) -> Option<Seq<char>>,
    next: spec_fn(Seq<char>) -> Option<Seq<char>>,
)
    requires
        records(map, wanted),
        forall|name: Seq<char>| #[trigger] wanted(name) == next(name),
    ensures
        records(map, next),
{
    assert forall|name: Seq<char>|
        match #[trigger] map.find(name) {
            Some(value) => next(name) == Some(value@),
            None => next(name) is None,
        } by {
        assert(wanted(name) == next(name));
    }
}

} // verus!
