//! The collector: what is done with each outcome as it arrives.
use vstd::prelude::*;
use vstd::string::StringExecFns;
use crate::grid::{write_views, CellLocation, CellWrite, Written};
use crate::registry::{waiting_under, Registry, TaskView};
use crate::worker::{reason_text, Reason, Settled, TranslationOutcome};

verus! {

/// What the collector does with one outcome.
#[derive(Clone, PartialEq, Eq, Debug)]
pub enum Collected {
    /// The writes to perform; each of them advances the progress by one.
    Writes(Vec<CellWrite>),
    /// The line to report. Nothing is written, and the run goes on.
    Report(String),
}

/// One write of `text` for each of `locations`, in their order.
pub open spec fn writes_for(locations: Seq<CellLocation>, text: Seq<char>) -> Seq<Written> {
    Seq::new(locations.len(), |i: int| (locations[i], text))
}

/// The writes that an outcome leads to: those of its translation to every
/// location that waits under its key, and none for a failure.
pub open spec fn collected(tasks: Seq<TaskView>, outcome: Settled) -> Seq<Written> {
    match outcome {
        Settled::Translated { key, text } => writes_for(waiting_under(tasks, key), text),
        Settled::Failed { .. } => Seq::empty(),
    }
}

/// The line that reports a failure: the key, a colon and a space, and the
/// words of the failure.
pub open spec fn report_text(key: Seq<char>, reason: Reason) -> Seq<char> {
    key + ": "@ + reason_text(reason)
}

/// Handles one outcome. A translation is written to every location that
/// waits under its key, in the order of their discovery. A failure is
/// reported, and its locations stay unwritten.
pub fn collect(registry: &Registry, outcome: &TranslationOutcome) -> (r: Collected)
    requires
        registry.wf(),
    ensures
        match outcome@ {
            Settled::Translated { .. } => r is Writes && write_views(r->Writes_0@) == collected(
                registry.tasks(),
                outcome@,
            ),
            Settled::Failed { key, reason } => r is Report && r->Report_0@ == report_text(
                key,
                reason,
            ),
        },
{
    match outcome {
        TranslationOutcome::Translated { key, text } => {
            let mut writes: Vec<CellWrite> = Vec::new();
            match registry.find(key.as_str()) {
                Some(place) => {
                    let task = registry.task(place);
                    let mut i: usize = 0;
                    while i < task.locations.len()
                        invariant
                            i <= task.locations.len(),
                            write_views(writes@) == writes_for(task.locations@.take(i as int), text@),
                        decreases task.locations.len() - i,
                    {
                        let ghost earlier = writes@;
                        let write = CellWrite { location: task.locations[i], text: text.clone() };
                        writes.push(write);
                        assert(write_views(earlier).len() == i);
                        assert(write_views(writes@) =~= write_views(earlier).push(write@));
                        assert(write_views(writes@) =~= writes_for(
                            task.locations@.take(i as int + 1),
                            text@,
                        ));
                        i = i + 1;
                    }
                    assert(task.locations@.take(task.locations.len() as int) =~= task.locations@);
                },
                None => {
                    assert(write_views(writes@) =~= writes_for(Seq::<CellLocation>::empty(), text@));
                },
            }
            Collected::Writes(writes)
        },
        TranslationOutcome::Failed { key, reason } => {
            let mut line = key.clone();
            line.append(": ");
            let words = reason.message();
            line.append(words.as_str());
            Collected::Report(line)
        },
    }
}

} // verus!
