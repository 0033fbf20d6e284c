//! Where the output goes and who is told of the progress and of what is skipped.

use crate::error::{Result, SurgeryError};
use crate::text::texts;
use vstd::prelude::*;

verus! {

/// A destination for output bytes that is also told how far the work has come. Each operation
/// hands the destination on, so that what happened to it can be followed.
pub trait Sink: Sized {
    /// Takes bytes behind those that it has taken so far, or says why not.
    fn write(self, bytes: &[u8]) -> (r: (Self, Result<()>));

    /// Is told that `current` of `total` tensors are done.
    fn progress(self, current: usize, total: usize) -> (r: Self);

    /// Is told of something that was skipped.
    fn warn(self, text: &str) -> (r: Self);
}

/// Something that happened to a sink.
pub enum Event {
    Write(Seq<u8>),
    Progress(int, int),
}

/// Whether an event can take a sink from one state to another.
pub open spec fn happened<S: Sink>(before: S, event: Event, after: S) -> bool {
    match event {
        Event::Write(bytes) => exists|b: &[u8], outcome: Result<()>|
            b@ == bytes && outcome is Ok && #[trigger] call_ensures(
                S::write,
                (before, b),
                (after, outcome),
            ),
        Event::Progress(current, total) => exists|c: usize, t: usize|
            c == current && t == total && #[trigger] call_ensures(
                S::progress,
                (before, c, t),
                after,
            ),
    }
}

/// Whether events, one after the other, can take a sink from one state to another.
pub open spec fn ran<S: Sink>(before: S, events: Seq<Event>, after: S) -> bool
    decreases events.len(),
{
    if events.len() == 0 {
        before == after
    } else {
        exists|middle: S|
            ran(before, events.drop_last(), middle) && #[trigger] happened(
                middle,
                events.last(),
                after,
            )
    }
}

/// The bytes that were written, in order.
pub open spec fn written(events: Seq<Event>) -> Seq<u8>
    decreases events.len(),
{
    if events.len() == 0 {
        Seq::empty()
    } else {
        match events.last() {
            Event::Write(bytes) => written(events.drop_last()) + bytes,
            Event::Progress(_, _) => written(events.drop_last()),
        }
    }
}

/// A report of progress, and how many bytes were written before it.
pub struct Report {
    pub current: int,
    pub total: int,
    pub written: nat,
}

/// The reports of progress, in order.
pub open spec fn reported(events: Seq<Event>) -> Seq<Report>
    decreases events.len(),
{
    if events.len() == 0 {
        Seq::empty()
    } else {
        let before = events.drop_last();
        match events.last() {
            Event::Write(_) => reported(before),
            Event::Progress(current, total) => reported(before).push(
                Report { current, total, written: written(before).len() },
            ),
        }
    }
}

/// Whether writing, and nothing else, can take a sink from one state to another, with these
/// bytes in all.
pub open spec fn wrote<S: Sink>(before: S, bytes: Seq<u8>, after: S) -> bool {
    exists|events: Seq<Event>| #[trigger]
        ran(before, events, after) && written(events) == bytes && reported(events).len() == 0
}

/// Whether writing some bytes, and nothing else, can take a sink from one state to another.
pub open spec fn wrote_some<S: Sink>(before: S, after: S) -> bool {
    exists|bytes: Seq<u8>| #[trigger] wrote(before, bytes, after)
}

/// Whether writing some bytes, and then failing to write more with an error, can take a sink from
/// one state to another.
pub open spec fn broke<S: Sink>(before: S, error: SurgeryError, after: S) -> bool {
    exists|taken: Seq<u8>, middle: S, bytes: &[u8]| #[trigger]
        wrote(before, taken, middle) && #[trigger] call_ensures(
            S::write,
            (middle, bytes),
            (after, Err(error)),
        )
}

/// Whether no write to this kind of sink fails.
pub open spec fn steady<S: Sink>() -> bool {
    forall|before: S, bytes: &[u8], after: S, outcome: Result<()>| #[trigger]
        call_ensures(S::write, (before, bytes), (after, outcome)) ==> outcome is Ok
}

/// Whether being told of what was skipped, text by text, can take a sink from one state to another.
pub open spec fn told<S: Sink>(before: S, warnings: Seq<Seq<char>>, after: S) -> bool
    decreases warnings.len(),
{
    if warnings.len() == 0 {
        before == after
    } else {
        exists|middle: S, text: &str|
            text@ == warnings.last() && told(before, warnings.drop_last(), middle)
                && #[trigger] call_ensures(S::warn, (middle, text), after)
    }
}

/// Tells a sink of what was skipped.
pub(crate) fn tell<S: Sink>(warnings: &Vec<String>, sink: S) -> (r: S)
    ensures
        told(sink, texts(warnings@), r),
{
    let ghost before = sink;
    let ghost all = texts(warnings@);
    let mut sink = sink;
    for i in 0..warnings.len()
        invariant
            all == texts(warnings@),
            told(before, all.take(i as int), sink),
    {
        let ghost last = sink;
        let text = warnings[i].as_str();
        sink = sink.warn(text);
        proof {
            let more = all.take(i + 1);
            assert(more.drop_last() =~= all.take(i as int));
            assert(text@ == more.last() && call_ensures(S::warn, (last, text), sink));
        }
    }
    assert(all.take(all.len() as int) =~= all);
    sink
}

/// One more event adds its bytes or its report.
pub proof fn lemma_ran_push<S: Sink>(
    before: S,
    events: Seq<Event>,
    middle: S,
    event: Event,
    after: S,
)
    requires
        ran(before, events, middle),
        happened(middle, event, after),
    ensures
        ran(before, events.push(event), after),
        match event {
            Event::Write(bytes) => written(events.push(event)) == written(events) + bytes
                && reported(events.push(event)) == reported(events),
            Event::Progress(current, total) => written(events.push(event)) == written(events)
                && reported(events.push(event)) == reported(events).push(
                Report { current, total, written: written(events).len() },
            ),
        },
{
    let all = events.push(event);
    assert(all.drop_last() =~= events);
    assert(all.last() == event);
    assert(ran(before, all.drop_last(), middle) && happened(middle, all.last(), after));
}

/// Two runs in a row are one run.
pub proof fn lemma_ran_concat<S: Sink>(
    before: S,
    first: Seq<Event>,
    middle: S,
    second: Seq<Event>,
    after: S,
)
    requires
        ran(before, first, middle),
        ran(middle, second, after),
    ensures
        ran(before, first + second, after),
        written(first + second) == written(first) + written(second),
        reported(second).len() == 0 ==> reported(first + second) == reported(first),
    decreases second.len(),
{
    let both = first + second;
    if second.len() == 0 {
        assert(both =~= first);
        assert(written(both) =~= written(first) + written(second));
    } else {
        let last = choose|s: S|
            ran(middle, second.drop_last(), s) && #[trigger] happened(s, second.last(), after);
        lemma_ran_concat(before, first, middle, second.drop_last(), last);
        assert(both.drop_last() =~= first + second.drop_last());
        assert(both.last() == second.last());
        assert(ran(before, both.drop_last(), last) && happened(last, both.last(), after));
        assert(written(both) =~= written(first) + written(second));
    }
}

/// One write writes its bytes.
pub proof fn lemma_wrote_once<S: Sink>(before: S, bytes: &[u8], after: S, outcome: Result<()>)
    requires
        call_ensures(S::write, (before, bytes), (after, outcome)),
        outcome is Ok,
    ensures
        wrote(before, bytes@, after),
{
    let empty = Seq::<Event>::empty();
    let event = Event::Write(bytes@);
    assert(ran(before, empty, before));
    assert(happened(before, event, after));
    lemma_ran_push(before, empty, before, event, after);
    assert(written(empty.push(event)) =~= bytes@);
}

/// Nothing was written to a sink that was left alone.
pub proof fn lemma_wrote_nothing<S: Sink>(sink: S)
    ensures
        wrote(sink, Seq::empty(), sink),
{
    assert(ran(sink, Seq::<Event>::empty(), sink));
}

/// What was written in two parts was written.
pub proof fn lemma_wrote_concat<S: Sink>(
    before: S,
    first: Seq<u8>,
    middle: S,
    second: Seq<u8>,
    after: S,
)
    requires
        wrote(before, first, middle),
        wrote(middle, second, after),
    ensures
        wrote(before, first + second, after),
{
    let e = choose|events: Seq<Event>| #[trigger]
        ran(before, events, middle) && written(events) == first && reported(events).len() == 0;
    let f = choose|events: Seq<Event>| #[trigger]
        ran(middle, events, after) && written(events) == second && reported(events).len() == 0;
    lemma_ran_concat(before, e, middle, f, after);
    assert(ran(before, e + f, after));
}

} // verus!
