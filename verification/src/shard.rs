//! Base models that are spread over several files.

use crate::config::AdapterConfig;
use crate::error::{Fault, IoError, IoErrorKind, Result, SurgeryError};
use crate::io::{
    actions_of, faultless, file_failed, forewarned, map_names, mapped_task, mapping_fault,
    names_of, tensor_names, write_tensors, wrote_file,
};
use crate::json::{
    lemma_text_rows_inserted, lemma_text_rows_value, members, push_members, quote_values,
    quoted_rows, text_rows,
};
use crate::mapped::MappedSafetensors;
use crate::names::{maps_names, NameMapping};
use crate::numerics::Numerics;
use crate::sink::{happened, tell, Event, Sink};
use crate::sorted::{inserted, value_of, SortedMap};
use crate::stats::{tallies, MergeStats, TensorAction};
use crate::text::{joined, plain, precedes, texts};
use vstd::prelude::*;

verus! {

/// Pairs of texts.
pub open spec fn text_pairs(pairs: Seq<(String, String)>) -> Seq<(Seq<char>, Seq<char>)> {
    Seq::new(pairs.len(), |i: int| (pairs[i].0@, pairs[i].1@))
}

/// The rows for pairs: of two pairs with one name the later counts.
pub open spec fn rows_for(pairs: Seq<(Seq<char>, Seq<char>)>) -> Seq<(Seq<char>, Seq<char>)>
    decreases pairs.len(),
{
    if pairs.len() == 0 {
        Seq::empty()
    } else {
        inserted(rows_for(pairs.drop_last()), pairs.last().0, pairs.last().1)
    }
}

/// Which file each tensor of a sharded model is in (model.safetensors.index.json).
#[derive(Debug)]
pub struct ShardIndex {
    weight_map: SortedMap<String>,
}

impl View for ShardIndex {
    type V = Seq<(Seq<char>, Seq<char>)>;

    closed spec fn view(&self) -> Seq<(Seq<char>, Seq<char>)> {
        text_rows(self.weight_map.rows())
    }
}

/// Whether a file is one of those that rows name.
pub open spec fn names_file(rows: Seq<(Seq<char>, Seq<char>)>, file: Seq<char>) -> bool {
    exists|i: int| 0 <= i < rows.len() && #[trigger] rows[i].1 == file
}

/// Whether texts are in strictly ascending order.
pub open spec fn increasing(names: Seq<Seq<char>>) -> bool {
    forall|i: int, j: int|
        0 <= i < j < names.len() ==> precedes(#[trigger] names[i], #[trigger] names[j])
}

/// The text of an index file with a weight map, indented by two blanks.
pub open spec fn index_text(rows: Seq<(Seq<char>, Seq<char>)>) -> Seq<char> {
    "{\n  \"metadata\": {},\n  \"weight_map\": {\n    "@ + joined(
        members(quoted_rows(rows), ": "@),
        ",\n    "@,
    ) + "\n  }\n}"@
}

impl ShardIndex {
    #[verifier::type_invariant]
    spec fn nonempty(self) -> bool {
        self.weight_map.rows().len() > 0
    }

    /// An index from the pairs of a weight map. Rejects an empty one.
    pub fn from_weight_map(pairs: Vec<(String, String)>) -> (r: Result<ShardIndex>)
        ensures
            match r {
                Ok(index) => pairs@.len() > 0 && index@ == rows_for(text_pairs(pairs@)),
                Err(error) => pairs@.len() == 0 && error@ == Fault::ShardingError(
                    "weight_map is empty in index.json"@,
                ),
            },
    {
        if pairs.len() == 0 {
            return Err(
                SurgeryError::ShardingError("weight_map is empty in index.json".to_owned()),
            );
        }
        let mut weight_map: SortedMap<String> = SortedMap::new();
        let ghost all = text_pairs(pairs@);
        assert(text_rows(weight_map.rows()) =~= rows_for(all.take(0)));
        for i in 0..pairs.len()
            invariant
                all == text_pairs(pairs@),
                text_rows(weight_map.rows()) == rows_for(all.take(i as int)),
                i > 0 ==> weight_map.rows().len() > 0,
        {
            proof {
                lemma_text_rows_inserted(
                    weight_map.rows(),
                    pairs@[i as int].0@,
                    pairs@[i as int].1,
                );
                assert(all.take(i + 1).drop_last() =~= all.take(i as int));
            }
            weight_map.insert(pairs[i].0.clone(), pairs[i].1.clone());
        }
        assert(all.take(all.len() as int) =~= all);
        Ok(ShardIndex { weight_map })
    }

    /// The number of tensors.
    pub fn len(&self) -> (r: usize)
        ensures
            r == self@.len(),
            r > 0,
    {
        proof {
            use_type_invariant(self);
        }
        self.weight_map.len()
    }

    /// The file that a tensor is in.
    pub fn file_of(&self, name: &str) -> (r: Option<&str>)
        ensures
            match r {
                Some(file) => value_of(self@, name@) == Some(file@),
                None => value_of(self@, name@) is None,
            },
    {
        let count: usize = self.weight_map.len();
        proof {
            lemma_text_rows_value(self.weight_map.rows(), name@);
        }
        match self.weight_map.get(name) {
            Some(file) => Some(file.as_str()),
            None => None,
        }
    }

    /// Returns the unique shard filenames in sorted order.
    pub fn shard_filenames(&self) -> (r: Vec<String>)
        ensures
            increasing(texts(r@)),
            forall|file: Seq<char>| #[trigger]
                texts(r@).contains(file) <==> names_file(self@, file),
    {
        let mut files: SortedMap<()> = SortedMap::new();
        let count: usize = self.weight_map.len();
        for i in 0..count
            invariant
                count == self@.len() == self.weight_map.rows().len(),
                forall|file: Seq<char>|
                    (#[trigger] files.find(file)) is Some <==> exists|k: int|
                        0 <= k < i && #[trigger] self@[k].1 == file,
        {
            let ghost before = files;
            let file = self.weight_map.value(i).clone();
            let ghost text = file@;
            files.insert(file, ());
            proof {
                assert(self@[i as int].1 == text);
                assert forall|other: Seq<char>|
                    (#[trigger] files.find(other)) is Some <==> exists|k: int|
                        0 <= k < i + 1 && #[trigger] self@[k].1 == other by {
                    if other != text {
                        assert(files.find(other) == before.find(other));
                        if files.find(other) is Some {
                            let k = choose|k: int| 0 <= k < i && #[trigger] self@[k].1 == other;
                            assert(self@[k].1 == other);
                        }
                    }
                }
            }
        }
        let mut r: Vec<String> = Vec::new();
        let found: usize = files.len();
        for i in 0..found
            invariant
                found == files.rows().len(),
                r@.len() == i,
                forall|k: int| 0 <= k < i ==> (#[trigger] r@[k])@ == files.rows()[k].0,
        {
            r.push(files.name(i).clone());
        }
        proof {
            let names = texts(r@);
            assert forall|i: int, j: int| 0 <= i < j < names.len() implies precedes(
                #[trigger] names[i],
                #[trigger] names[j],
            ) by {
                assert(r@[i]@ == files.rows()[i].0);
                assert(r@[j]@ == files.rows()[j].0);
            }
            assert forall|file: Seq<char>| #[trigger] names.contains(file) <==> names_file(
                self@,
                file,
            ) by {
                if names.contains(file) {
                    let k = choose|k: int| 0 <= k < names.len() && names[k] == file;
                    assert(r@[k]@ == files.rows()[k].0);
                    assert(files.rows()[k].0 == file);
                    assert(files.find(file) is Some);
                }
                if names_file(self@, file) {
                    assert(files.find(file) is Some);
                    let k = choose|k: int|
                        0 <= k < files.rows().len() && #[trigger] files.rows()[k].0 == file;
                    assert(r@[k]@ == file);
                    assert(names[k] == file);
                }
            }
        }
        r
    }
}

/// Writes the text of a `model.safetensors.index.json`, preserving the original weight map.
pub fn write_output_index(index: &ShardIndex) -> (r: String)
    ensures
        r@ == index_text(index@),
{
    let values = quote_values(&index.weight_map);
    let mut r = String::new();
    r.append("{\n  \"metadata\": {},\n  \"weight_map\": {\n    ");
    push_members(&mut r, &values, ": ", ",\n    ");
    r.append("\n  }\n}");
    assert(r@ =~= index_text(index@));
    r
}

/// What is found at the path of a base model.
#[derive(Clone, Copy, PartialEq, Eq, Structural, Debug)]
pub struct PathProbe {
    /// The path is that of a file.
    pub is_file: bool,
    /// The path is that of a directory.
    pub is_dir: bool,
    /// The directory has a file `model.safetensors`.
    pub has_model: bool,
    /// The directory has a file `model.safetensors.index.json`.
    pub has_index: bool,
}

/// Resolved base model source: either a single file or a sharded set.
#[derive(Clone, Copy, PartialEq, Eq, Structural, Debug)]
pub enum BaseModelSource {
    /// The path itself.
    SingleFile,
    /// `model.safetensors` in the directory.
    DirectoryFile,
    /// The files that `model.safetensors.index.json` in the directory names.
    Sharded,
}

/// What is said of a path at which there is no base model.
pub open spec fn no_model(path: Seq<char>, is_dir: bool) -> Fault {
    Fault::Io {
        kind: IoErrorKind::NotFound,
        message: if is_dir {
            "directory '"@ + path
                + "' contains neither model.safetensors nor model.safetensors.index.json"@
        } else {
            "base model path '"@ + path + "' does not exist"@
        },
    }
}

/// Resolves a base model path to either a single file or sharded model.
///
/// - If `path` is a file, uses it directly.
/// - If `path` is a directory containing `model.safetensors`, uses that file.
/// - If `path` is a directory containing `model.safetensors.index.json`, uses sharded mode.
pub fn resolve_base_model(path: &str, probe: &PathProbe) -> (r: Result<BaseModelSource>)
    ensures
        r matches Ok(source) ==> source == (if probe.is_file {
            BaseModelSource::SingleFile
        } else if probe.has_model {
            BaseModelSource::DirectoryFile
        } else {
            BaseModelSource::Sharded
        }),
        r is Err <==> !probe.is_file && !(probe.is_dir && (probe.has_model || probe.has_index)),
        r matches Err(error) ==> error@ == no_model(path@, probe.is_dir),
{
    if probe.is_file {
        return Ok(BaseModelSource::SingleFile);
    }
    let mut message = String::new();
    if probe.is_dir {
        if probe.has_model {
            return Ok(BaseModelSource::DirectoryFile);
        }
        if probe.has_index {
            return Ok(BaseModelSource::Sharded);
        }
        message.append("directory '");
        message.append(path);
        message.append(
            "' contains neither model.safetensors nor model.safetensors.index.json",
        );
    } else {
        message.append("base model path '");
        message.append(path);
        message.append("' does not exist");
    }
    proof {
        assert(message@ =~= no_model(path@, probe.is_dir)->message);
    }
    Err(SurgeryError::Io(IoError { kind: IoErrorKind::NotFound, message }))
}

/// What a merge of a sharded model asks for next.
#[derive(Debug)]
pub enum ShardStep<'a> {
    /// The header of this file.
    Survey(&'a str),
    /// The adapter and its configuration, to map the names.
    MapNames,
    /// This file, to be merged and written.
    Write(&'a str),
    /// Nothing but to finish.
    Finish,
}

/// A merge of a sharded model. Its files are opened one at a time: first each of them is surveyed
/// for the names of its tensors, then, with the names mapped, each of them is merged and written.
pub struct ShardedMerge {
    filenames: Vec<String>,
    surveyed: usize,
    names: Vec<String>,
    mapping: Option<NameMapping>,
    written: usize,
    done: usize,
    stats: MergeStats,
    actions: Ghost<Seq<TensorAction>>,
}

/// Whether a merge is at its beginning, with the files that the rows of an index name, each once,
/// in ascending order.
pub open spec fn begun(merge: &ShardedMerge, rows: Seq<(Seq<char>, Seq<char>)>) -> bool {
    &&& increasing(merge.filenames())
    &&& forall|file: Seq<char>| #[trigger]
        merge.filenames().contains(file) <==> names_file(rows, file)
    &&& merge.surveyed() == 0
    &&& merge.names() == Seq::<Seq<char>>::empty()
    &&& merge.mapping() is None
    &&& merge.written() == 0
    &&& merge.actions() == Seq::<TensorAction>::empty()
}

impl ShardedMerge {
    #[verifier::type_invariant]
    spec fn consistent(self) -> bool {
        &&& self.surveyed <= self.filenames@.len()
        &&& self.written <= self.filenames@.len()
        &&& self.done == self.actions@.len()
        &&& tallies(self.stats, self.actions@)
    }

    /// The files, in order.
    pub closed spec fn filenames(&self) -> Seq<Seq<char>> {
        texts(self.filenames@)
    }

    /// How many files were surveyed.
    pub closed spec fn surveyed(&self) -> int {
        self.surveyed as int
    }

    /// The names of the tensors of the files that were surveyed.
    pub closed spec fn names(&self) -> Seq<Seq<char>> {
        texts(self.names@)
    }

    /// The name mapping.
    pub closed spec fn mapping(&self) -> Option<NameMapping> {
        self.mapping
    }

    /// How many files were written.
    pub closed spec fn written(&self) -> int {
        self.written as int
    }

    /// What was done with the tensors so far.
    pub closed spec fn actions(&self) -> Seq<TensorAction> {
        self.actions@
    }

    /// Begins with the files that an index names.
    pub fn begin(index: &ShardIndex) -> (r: ShardedMerge)
        ensures
            begun(&r, index@),
    {
        let r = ShardedMerge {
            filenames: index.shard_filenames(),
            surveyed: 0,
            names: Vec::new(),
            mapping: None,
            written: 0,
            done: 0,
            stats: MergeStats::new(),
            actions: Ghost(Seq::empty()),
        };
        assert(r.names() =~= Seq::<Seq<char>>::empty());
        r
    }

    /// What is to be done next.
    pub fn next_step(&self) -> (r: ShardStep<'_>)
        ensures
            match r {
                ShardStep::Survey(file) => self.surveyed() < self.filenames().len() && file@
                    == self.filenames()[self.surveyed()],
                ShardStep::MapNames => self.surveyed() == self.filenames().len()
                    && self.mapping() is None,
                ShardStep::Write(file) => self.surveyed() == self.filenames().len()
                    && self.mapping() is Some && self.written() < self.filenames().len() && file@
                    == self.filenames()[self.written()],
                ShardStep::Finish => self.surveyed() == self.filenames().len()
                    && self.mapping() is Some && self.written() == self.filenames().len(),
            },
    {
        proof {
            use_type_invariant(self);
        }
        if self.surveyed < self.filenames.len() {
            return ShardStep::Survey(self.filenames[self.surveyed].as_str());
        }
        if self.mapping.is_none() {
            return ShardStep::MapNames;
        }
        if self.written < self.filenames.len() {
            return ShardStep::Write(self.filenames[self.written].as_str());
        }
        ShardStep::Finish
    }

    /// Takes note of the names of the tensors of the next file.
    pub fn survey(self, shard: &MappedSafetensors) -> (r: ShardedMerge)
        requires
            self.surveyed() < self.filenames().len(),
        ensures
            r.filenames() == self.filenames(),
            r.surveyed() == self.surveyed() + 1,
            r.names() == self.names() + names_of(shard@.heads),
            r.mapping() == self.mapping(),
            r.written() == self.written(),
            r.actions() == self.actions(),
    {
        proof {
            use_type_invariant(&self);
        }
        let ghost before = self.names();
        let ghost all = names_of(shard@.heads);
        let files: usize = self.filenames.len();
        let count: usize = shard.len();
        let ShardedMerge {
            filenames,
            surveyed,
            names: old_names,
            mapping,
            written,
            done,
            stats,
            actions,
        } = self;
        let mut names = old_names;
        assert(texts(names@) =~= before + all.take(0));
        for i in 0..count
            invariant
                count == shard@.heads.len(),
                all == names_of(shard@.heads),
                texts(names@) == before + all.take(i as int),
        {
            let ghost last = names@;
            names.push(shard.name(i).clone());
            assert(texts(names@) =~= texts(last).push(all[i as int]));
            assert(before + all.take(i + 1) =~= (before + all.take(i as int)).push(all[i as int]));
        }
        assert(all.take(all.len() as int) =~= all);
        ShardedMerge {
            filenames,
            surveyed: surveyed + 1,
            names,
            mapping,
            written,
            done,
            stats,
            actions,
        }
    }

    /// Maps the names that were noted to those of an adapter. The sink is told of what is skipped.
    pub fn map_names<T, S: Sink>(
        self,
        adapter: &MappedSafetensors,
        config: &AdapterConfig<T>,
        writer: S,
    ) -> (r: (S, Result<ShardedMerge>))
        ensures
            forewarned(self.names(), names_of(adapter@.heads), writer, r.0),
            ({
                let fault = mapping_fault(self.names(), names_of(adapter@.heads), config@);
                match r.1 {
                    Ok(new) => fault is None && new.filenames() == self.filenames()
                        && new.surveyed() == self.surveyed() && new.names() == self.names()
                        && new.mapping() is Some && maps_names(
                        &new.mapping()->0,
                        self.names(),
                        names_of(adapter@.heads),
                        config@.modules_to_save,
                    ) && new.written() == self.written() && new.actions() == self.actions(),
                    Err(error) => fault == Some(error@),
                }
            }),
    {
        proof {
            use_type_invariant(&self);
        }
        let adapter_names = tensor_names(adapter);
        let mut base_names: Vec<&str> = Vec::new();
        for i in 0..self.names.len()
            invariant
                plain(base_names@) == self.names().take(i as int),
        {
            let ghost before = base_names@;
            base_names.push(self.names[i].as_str());
            assert(plain(base_names@) =~= plain(before).push(self.names()[i as int]));
            assert(self.names().take(i + 1) =~= self.names().take(i as int).push(
                self.names()[i as int],
            ));
        }
        assert(self.names().take(self.names().len() as int) =~= self.names());
        let (warnings, mapping) = map_names(
            base_names.as_slice(),
            adapter_names.as_slice(),
            config,
        );
        let sink = tell(&warnings, writer);
        match mapping {
            Ok(mapping) => (sink, Ok(ShardedMerge { mapping: Some(mapping), ..self })),
            Err(error) => (sink, Err(error)),
        }
    }

    /// The number of tensors in all.
    pub fn total(&self) -> (r: usize)
        ensures
            r == self.names().len(),
    {
        self.names.len()
    }

    /// The number of tensors that were written.
    pub fn done(&self) -> (r: usize)
        ensures
            r == self.actions().len(),
    {
        proof {
            use_type_invariant(self);
        }
        self.done
    }

    /// Merges the next file and writes it.
    pub fn write<N: Numerics, S: Sink>(
        self,
        shard: &MappedSafetensors,
        adapter: &MappedSafetensors,
        config: &AdapterConfig<N::Single>,
        low_memory: bool,
        num: &N,
        writer: S,
    ) -> (r: (S, Result<ShardedMerge>))
        requires
            self.mapping() is Some,
            self.written() < self.filenames().len(),
            self.actions().len() + shard@.heads.len() <= usize::MAX,
        ensures
            ({
                let task = mapped_task(
                    shard@,
                    adapter@,
                    config@,
                    &self.mapping()->0,
                    low_memory,
                );
                match r.1 {
                    Ok(new) => faultless(task) && wrote_file(
                        num,
                        task,
                        self.actions().len() as int,
                        self.names().len() as int,
                        writer,
                        r.0,
                    ) && new.filenames() == self.filenames() && new.surveyed() == self.surveyed()
                        && new.names() == self.names() && new.mapping() == self.mapping()
                        && new.written() == self.written() + 1 && new.actions() == self.actions()
                        + actions_of(task.plans),
                    Err(error) => file_failed(
                        num,
                        task,
                        self.actions().len() as int,
                        self.names().len() as int,
                        writer,
                        error,
                        r.0,
                    ),
                }
            }),
    {
        proof {
            use_type_invariant(&self);
        }
        let ghost mapped = self.mapping()->0;
        let ghost before = self.actions();
        let files: usize = self.filenames.len();
        let count: usize = shard.len();
        let ShardedMerge {
            filenames,
            surveyed,
            names,
            mapping,
            written,
            done,
            stats,
            actions,
        } = self;
        match mapping {
            Some(mapping) => {
                let (sink, outcome) = write_tensors(
                    shard,
                    adapter,
                    config,
                    &mapping,
                    low_memory,
                    done,
                    names.len(),
                    stats,
                    num,
                    writer,
                );
                let stats = match outcome {
                    Ok(stats) => stats,
                    Err(error) => {
                        return (sink, Err(error));
                    },
                };
                let ghost task = mapped_task(shard@, adapter@, config@, &mapped, low_memory);
                let new = ShardedMerge {
                    filenames,
                    surveyed,
                    names,
                    mapping: Some(mapping),
                    written: written + 1,
                    done: done + count,
                    stats,
                    actions: Ghost(before + actions_of(task.plans)),
                };
                (sink, Ok(new))
            },
            None => (
                writer,
                Err(SurgeryError::ShardingError("names are not mapped".to_owned())),
            ),
        }
    }

    /// Reports that all tensors are done, and gives the statistics.
    pub fn finish<S: Sink>(self, writer: S) -> (r: (S, MergeStats))
        ensures
            happened(
                writer,
                Event::Progress(self.names().len() as int, self.names().len() as int),
                r.0,
            ),
            tallies(r.1, self.actions()),
    {
        proof {
            use_type_invariant(&self);
        }
        let total: usize = self.names.len();
        (writer.progress(total, total), self.stats)
    }
}

} // verus!
