//! What holds of every scan: one task for each key, overrides and copies
//! settled without a task, and every location accounted for once.
use vstd::prelude::*;
use vstd::seq_lib::lemma_multiset_commutative;
use crate::collect::{collected, writes_for};
use crate::grid::{CellLocation, SourceCell, Written};
use crate::overrides::Dictionary;
use crate::registry::{
    distinct_keys, is_verbatim, joined_task, lemma_position_of, position_of, stands_for,
    waiting_under, TaskView,
};
use crate::scan::{
    cell_key, cell_text, direct_write, direct_writes, needs_service, tasks_after, waiting_cells,
};
use crate::worker::Settled;

verus! {

/// The locations of a sequence of writes.
pub open spec fn written_locations(writes: Seq<Written>) -> Seq<CellLocation> {
    Seq::new(writes.len(), |i: int| writes[i].0)
}

/// The locations that wait in the tasks, task after task.
pub open spec fn pending_locations(tasks: Seq<TaskView>) -> Seq<CellLocation>
    decreases tasks.len(),
{
    if tasks.len() == 0 {
        Seq::empty()
    } else {
        pending_locations(tasks.drop_last()) + tasks.last().locations
    }
}

/// The locations of the textual cells, in the order of the cells.
pub open spec fn text_locations(cells: Seq<SourceCell>) -> Seq<CellLocation>
    decreases cells.len(),
{
    if cells.len() == 0 {
        Seq::empty()
    } else if cell_text(cells.last()) is Some {
        text_locations(cells.drop_last()).push(cells.last().location)
    } else {
        text_locations(cells.drop_last())
    }
}

/// No two cells stand at the same location.
pub open spec fn distinct_locations(cells: Seq<SourceCell>) -> bool {
    forall|i: int, j: int|
        0 <= i < j < cells.len() ==> (#[trigger] cells[i]).location != (#[trigger] cells[j]).location
}

/// The cell with number `i` waits for a translation under `key` at
/// `location`.
pub open spec fn waits_at(
    overrides: Dictionary,
    cells: Seq<SourceCell>,
    key: Seq<char>,
    location: CellLocation,
    i: int,
) -> bool {
    &&& 0 <= i < cells.len()
    &&& needs_service(overrides, cells[i])
    &&& cell_key(cells[i]) == key
    &&& cells[i].location == location
}

/// Some cell waits for a translation under `key` at `location`.
pub open spec fn has_origin(
    overrides: Dictionary,
    cells: Seq<SourceCell>,
    key: Seq<char>,
    location: CellLocation,
) -> bool {
    exists|i: int| waits_at(overrides, cells, key, location, i)
}

/// The task at place `t` has a location, its key has no override, and each of
/// its locations is that of a cell that waits under its key.
pub open spec fn task_founded(
    overrides: Dictionary,
    cells: Seq<SourceCell>,
    tasks: Seq<TaskView>,
    t: int,
) -> bool {
    &&& tasks[t].locations.len() > 0
    &&& !overrides@.contains_key(tasks[t].key)
    &&& forall|p: int|
        0 <= p < tasks[t].locations.len() ==> #[trigger] has_origin(
            overrides,
            cells,
            tasks[t].key,
            tasks[t].locations[p],
        )
}

/// The cell with number `i`, if it waits for a translation, has the task of
/// its key, and the task lists its location.
pub open spec fn cell_registered(
    overrides: Dictionary,
    cells: Seq<SourceCell>,
    tasks: Seq<TaskView>,
    i: int,
) -> bool {
    needs_service(overrides, cells[i]) ==> {
        &&& position_of(tasks, cell_key(cells[i])) is Some
        &&& waiting_under(tasks, cell_key(cells[i])).contains(cells[i].location)
    }
}

/// A task that goes back to the cells before the last goes back to the cells.
pub proof fn lemma_founded_extends(
    overrides: Dictionary,
    cells: Seq<SourceCell>,
    tasks: Seq<TaskView>,
    t: int,
)
    requires
        cells.len() > 0,
        0 <= t < tasks.len(),
        task_founded(overrides, cells.drop_last(), tasks, t),
    ensures
        task_founded(overrides, cells, tasks, t),
{
    let shorter = cells.drop_last();
    assert forall|p: int| 0 <= p < tasks[t].locations.len() implies #[trigger] has_origin(
        overrides,
        cells,
        tasks[t].key,
        tasks[t].locations[p],
    ) by {
        assert(has_origin(overrides, shorter, tasks[t].key, tasks[t].locations[p]));
        let i = choose|i: int| waits_at(overrides, shorter, tasks[t].key, tasks[t].locations[p], i);
        assert(shorter[i] == cells[i]);
        assert(waits_at(overrides, cells, tasks[t].key, tasks[t].locations[p], i));
    }
}

/// A task that goes back to the cells still does so when the last cell,
/// which waits under its key, joins it.
pub proof fn lemma_founded_joined(
    overrides: Dictionary,
    cells: Seq<SourceCell>,
    tasks: Seq<TaskView>,
    t: int,
)
    requires
        cells.len() > 0,
        0 <= t < tasks.len(),
        task_founded(overrides, cells, tasks, t),
        needs_service(overrides, cells.last()),
        cell_key(cells.last()) == tasks[t].key,
    ensures
        task_founded(
            overrides,
            cells,
            tasks.update(t, joined_task(tasks[t], cells.last().location)),
            t,
        ),
{
    let joined = tasks.update(t, joined_task(tasks[t], cells.last().location));
    assert forall|p: int| 0 <= p < joined[t].locations.len() implies #[trigger] has_origin(
        overrides,
        cells,
        joined[t].key,
        joined[t].locations[p],
    ) by {
        if p < tasks[t].locations.len() {
            assert(has_origin(overrides, cells, tasks[t].key, tasks[t].locations[p]));
            let i = choose|i: int| waits_at(overrides, cells, tasks[t].key, tasks[t].locations[p], i);
            assert(waits_at(overrides, cells, joined[t].key, joined[t].locations[p], i));
        } else {
            assert(waits_at(
                overrides,
                cells,
                joined[t].key,
                joined[t].locations[p],
                cells.len() - 1,
            ));
        }
    }
}

/// A cell that stands in the task of its key still does so when a location
/// joins one of the tasks.
pub proof fn lemma_registered_joined(
    overrides: Dictionary,
    cells: Seq<SourceCell>,
    tasks: Seq<TaskView>,
    at: int,
    location: CellLocation,
    i: int,
)
    requires
        distinct_keys(tasks),
        0 <= at < tasks.len(),
        0 <= i < cells.len(),
        cell_registered(overrides, cells, tasks, i),
    ensures
        cell_registered(overrides, cells, tasks.update(at, joined_task(tasks[at], location)), i),
{
    let joined = tasks.update(at, joined_task(tasks[at], location));
    if needs_service(overrides, cells[i]) {
        let key = cell_key(cells[i]);
        let t = position_of(tasks, key).unwrap();
        assert(stands_for(tasks, key, t));
        lemma_keys_kept(tasks, at, location);
        assert(joined[t].key == key);
        lemma_position_of(joined, t);
        let p = choose|p: int| 0 <= p < tasks[t].locations.len() && tasks[t].locations[p] == cells[i].location;
        assert(joined[t].locations[p] == cells[i].location);
    }
}

/// A location that joins a task changes no key.
pub proof fn lemma_keys_kept(tasks: Seq<TaskView>, at: int, location: CellLocation)
    requires
        0 <= at < tasks.len(),
    ensures
        forall|t: int|
            0 <= t < tasks.len() ==> (#[trigger] tasks.update(
                at,
                joined_task(tasks[at], location),
            )[t]).key == tasks[t].key,
        distinct_keys(tasks) ==> distinct_keys(tasks.update(at, joined_task(tasks[at], location))),
{
    let joined = tasks.update(at, joined_task(tasks[at], location));
    if distinct_keys(tasks) {
        assert forall|a: int, b: int| 0 <= a < b < joined.len() implies (#[trigger] joined[a]).key
            != (#[trigger] joined[b]).key by {
            assert(tasks[a].key != tasks[b].key);
        }
    }
}

/// A cell that stands in the task of its key still does so when a task for
/// another key is opened behind the tasks.
pub proof fn lemma_registered_opened(
    overrides: Dictionary,
    cells: Seq<SourceCell>,
    tasks: Seq<TaskView>,
    opened: TaskView,
    i: int,
)
    requires
        distinct_keys(tasks.push(opened)),
        0 <= i < cells.len(),
        cell_registered(overrides, cells, tasks, i),
    ensures
        cell_registered(overrides, cells, tasks.push(opened), i),
{
    let more = tasks.push(opened);
    if needs_service(overrides, cells[i]) {
        let key = cell_key(cells[i]);
        let t = position_of(tasks, key).unwrap();
        assert(stands_for(tasks, key, t));
        assert(more[t] == tasks[t]);
        lemma_position_of(more, t);
    }
}

/// After the scan of any cells there is exactly one task for each key that
/// needs the completion service: no two tasks share a key, every task goes
/// back to cells that wait under its key, and every such cell stands in the
/// task of its key.
pub proof fn law_one_task_per_key(overrides: Dictionary, cells: Seq<SourceCell>)
    ensures
        distinct_keys(tasks_after(overrides, cells)),
        forall|t: int|
            0 <= t < tasks_after(overrides, cells).len() ==> #[trigger] task_founded(
                overrides,
                cells,
                tasks_after(overrides, cells),
                t,
            ),
        forall|i: int|
            0 <= i < cells.len() ==> #[trigger] cell_registered(
                overrides,
                cells,
                tasks_after(overrides, cells),
                i,
            ),
    decreases cells.len(),
{
    if cells.len() > 0 {
        let shorter = cells.drop_last();
        let last = cells.last();
        let before = tasks_after(overrides, shorter);
        let after = tasks_after(overrides, cells);
        let n = cells.len() - 1;
        law_one_task_per_key(overrides, shorter);
        assert forall|t: int| 0 <= t < before.len() implies #[trigger] task_founded(
            overrides,
            cells,
            before,
            t,
        ) by {
            assert(task_founded(overrides, shorter, before, t));
            lemma_founded_extends(overrides, cells, before, t);
        }
        assert forall|i: int| 0 <= i < n implies #[trigger] cell_registered(
            overrides,
            cells,
            before,
            i,
        ) by {
            assert(cell_registered(overrides, shorter, before, i));
            assert(shorter[i] == cells[i]);
        }
        if needs_service(overrides, last) {
            let key = cell_key(last);
            match position_of(before, key) {
                Some(at) => {
                    assert(stands_for(before, key, at));
                    assert(after == before.update(at, joined_task(before[at], last.location)));
                    lemma_keys_kept(before, at, last.location);
                    assert forall|t: int| 0 <= t < after.len() implies #[trigger] task_founded(
                        overrides,
                        cells,
                        after,
                        t,
                    ) by {
                        assert(task_founded(overrides, cells, before, t));
                        if t == at {
                            lemma_founded_joined(overrides, cells, before, at);
                        } else {
                            assert(after[t] == before[t]);
                        }
                    }
                    assert forall|i: int| 0 <= i < cells.len() implies #[trigger] cell_registered(
                        overrides,
                        cells,
                        after,
                        i,
                    ) by {
                        if i < n {
                            assert(cell_registered(overrides, cells, before, i));
                            lemma_registered_joined(overrides, cells, before, at, last.location, i);
                        } else {
                            assert(stands_for(after, key, at));
                            lemma_position_of(after, at);
                            assert(after[at].locations[before[at].locations.len() as int]
                                == last.location);
                        }
                    }
                },
                None => {
                    let opened = after.last();
                    assert(after == before.push(opened));
                    assert(opened.key == key);
                    assert(opened.locations == seq![last.location]);
                    assert forall|a: int, b: int| 0 <= a < b < after.len() implies (#[trigger] after[a]).key
                        != (#[trigger] after[b]).key by {
                        if b == before.len() {
                            assert(!stands_for(before, key, a));
                        }
                    }
                    assert forall|t: int| 0 <= t < after.len() implies #[trigger] task_founded(
                        overrides,
                        cells,
                        after,
                        t,
                    ) by {
                        if t < before.len() {
                            assert(task_founded(overrides, cells, before, t));
                            assert(after[t] == before[t]);
                        } else {
                            assert(after[t].locations[0] == last.location);
                            assert(waits_at(overrides, cells, after[t].key, after[t].locations[0], n));
                        }
                    }
                    assert forall|i: int| 0 <= i < cells.len() implies #[trigger] cell_registered(
                        overrides,
                        cells,
                        after,
                        i,
                    ) by {
                        if i < n {
                            assert(cell_registered(overrides, cells, before, i));
                            lemma_registered_opened(overrides, cells, before, opened, i);
                        } else {
                            assert(stands_for(after, key, before.len() as int));
                            lemma_position_of(after, before.len() as int);
                            assert(after[before.len() as int].locations[0] == last.location);
                        }
                    }
                },
            }
        } else {
            assert(after == before);
            assert forall|t: int| 0 <= t < after.len() implies #[trigger] task_founded(
                overrides,
                cells,
                after,
                t,
            ) by {
                assert(task_founded(overrides, cells, before, t));
            }
            assert forall|i: int| 0 <= i < cells.len() implies #[trigger] cell_registered(
                overrides,
                cells,
                after,
                i,
            ) by {
                if i < n {
                    assert(cell_registered(overrides, cells, before, i));
                }
            }
        }
    }
}

/// Cells that share a normalized text share one task, and a translation that
/// arrives for their key is written to each of them alike.
pub proof fn law_shared_key_shares_outcome(
    overrides: Dictionary,
    cells: Seq<SourceCell>,
    i: int,
    j: int,
    translation: Seq<char>,
)
    requires
        0 <= i < cells.len(),
        0 <= j < cells.len(),
        needs_service(overrides, cells[i]),
        needs_service(overrides, cells[j]),
        cell_key(cells[i]) == cell_key(cells[j]),
    ensures
        distinct_keys(tasks_after(overrides, cells)),
        position_of(tasks_after(overrides, cells), cell_key(cells[i])) is Some,
        writes_for(
            waiting_under(tasks_after(overrides, cells), cell_key(cells[i])),
            translation,
        ).contains((cells[i].location, translation)),
        writes_for(
            waiting_under(tasks_after(overrides, cells), cell_key(cells[i])),
            translation,
        ).contains((cells[j].location, translation)),
{
    let tasks = tasks_after(overrides, cells);
    let waiting = waiting_under(tasks, cell_key(cells[i]));
    law_one_task_per_key(overrides, cells);
    assert(cell_registered(overrides, cells, tasks, i));
    assert(cell_registered(overrides, cells, tasks, j));
    let p = choose|p: int| 0 <= p < waiting.len() && waiting[p] == cells[i].location;
    let q = choose|q: int| 0 <= q < waiting.len() && waiting[q] == cells[j].location;
    assert(writes_for(waiting, translation)[p] == (cells[i].location, translation));
    assert(writes_for(waiting, translation)[q] == (cells[j].location, translation));
}

/// What the scan settles itself stands among its writes.
pub proof fn lemma_direct_write_listed(overrides: Dictionary, cells: Seq<SourceCell>, i: int)
    requires
        0 <= i < cells.len(),
        direct_write(overrides, cells[i]) is Some,
    ensures
        direct_writes(overrides, cells).contains(direct_write(overrides, cells[i]).unwrap()),
    decreases cells.len(),
{
    let shorter = cells.drop_last();
    let before = direct_writes(overrides, shorter);
    if i < cells.len() - 1 {
        lemma_direct_write_listed(overrides, shorter, i);
        let write = direct_write(overrides, cells[i]).unwrap();
        let p = choose|p: int| 0 <= p < before.len() && before[p] == write;
        assert(direct_writes(overrides, cells)[p] == write);
    } else {
        assert(direct_writes(overrides, cells)[before.len() as int] == direct_write(
            overrides,
            cells[i],
        ).unwrap());
    }
}

/// A cell whose key has an override gets the override's translation, and no
/// task stands for its key: the completion service is never asked for it.
pub proof fn law_override_settles(overrides: Dictionary, cells: Seq<SourceCell>, i: int)
    requires
        0 <= i < cells.len(),
        cell_text(cells[i]) is Some,
        !is_verbatim(cells[i].location, cell_text(cells[i]).unwrap()),
        overrides@.contains_key(cell_key(cells[i])),
    ensures
        direct_writes(overrides, cells).contains(
            (cells[i].location, overrides@[cell_key(cells[i])]),
        ),
        position_of(tasks_after(overrides, cells), cell_key(cells[i])) is None,
{
    lemma_direct_write_listed(overrides, cells, i);
    let tasks = tasks_after(overrides, cells);
    let key = cell_key(cells[i]);
    law_one_task_per_key(overrides, cells);
    if position_of(tasks, key) is Some {
        let t = position_of(tasks, key).unwrap();
        assert(stands_for(tasks, key, t));
        assert(task_founded(overrides, cells, tasks, t));
    }
}

/// A cell of the header row and a cell with a blank text are copied as they
/// are, whatever the overrides hold.
pub proof fn law_verbatim_copied(overrides: Dictionary, cells: Seq<SourceCell>, i: int)
    requires
        0 <= i < cells.len(),
        cell_text(cells[i]) is Some,
        is_verbatim(cells[i].location, cell_text(cells[i]).unwrap()),
    ensures
        !needs_service(overrides, cells[i]),
        direct_writes(overrides, cells).contains(
            (cells[i].location, cell_text(cells[i]).unwrap()),
        ),
{
    lemma_direct_write_listed(overrides, cells, i);
}

/// A task that gains a location gains it among the waiting locations.
pub proof fn lemma_joined_location(tasks: Seq<TaskView>, at: int, location: CellLocation)
    requires
        0 <= at < tasks.len(),
    ensures
        pending_locations(tasks.update(at, joined_task(tasks[at], location))).to_multiset()
            == pending_locations(tasks).to_multiset().insert(location),
    decreases tasks.len(),
{
    broadcast use vstd::seq_lib::group_to_multiset_ensures;

    let joined = tasks.update(at, joined_task(tasks[at], location));
    let head = pending_locations(tasks.drop_last());
    if at == tasks.len() - 1 {
        assert(joined.drop_last() =~= tasks.drop_last());
        assert(pending_locations(joined) =~= pending_locations(tasks).push(location));
    } else {
        assert(joined.drop_last() =~= tasks.drop_last().update(
            at,
            joined_task(tasks.drop_last()[at], location),
        ));
        lemma_joined_location(tasks.drop_last(), at, location);
        lemma_multiset_commutative(pending_locations(joined.drop_last()), tasks.last().locations);
        lemma_multiset_commutative(head, tasks.last().locations);
        assert(pending_locations(joined).to_multiset() =~= pending_locations(
            tasks,
        ).to_multiset().insert(location));
    }
}

/// The locations that the scan writes itself and the locations that wait in
/// its tasks are together the locations of the textual cells, each as often
/// as it stands in the grid.
pub proof fn law_locations_accounted(overrides: Dictionary, cells: Seq<SourceCell>)
    ensures
        written_locations(direct_writes(overrides, cells)).to_multiset().add(
            pending_locations(tasks_after(overrides, cells)).to_multiset(),
        ) == text_locations(cells).to_multiset(),
    decreases cells.len(),
{
    broadcast use vstd::seq_lib::group_to_multiset_ensures;

    let written = written_locations(direct_writes(overrides, cells));
    let pending = pending_locations(tasks_after(overrides, cells));
    if cells.len() == 0 {
        assert(written =~= Seq::<CellLocation>::empty());
        assert(written.to_multiset().add(pending.to_multiset()) =~= text_locations(
            cells,
        ).to_multiset());
    } else {
        let shorter = cells.drop_last();
        let last = cells.last();
        let before = tasks_after(overrides, shorter);
        let after = tasks_after(overrides, cells);
        let written_before = written_locations(direct_writes(overrides, shorter));
        let pending_before = pending_locations(before);
        law_locations_accounted(overrides, shorter);
        if cell_text(last) is None {
            assert(written.to_multiset().add(pending.to_multiset()) =~= text_locations(
                cells,
            ).to_multiset());
        } else if needs_service(overrides, last) {
            match position_of(before, cell_key(last)) {
                Some(at) => {
                    assert(stands_for(before, cell_key(last), at));
                    lemma_joined_location(before, at, last.location);
                },
                None => {
                    assert(after.drop_last() =~= before);
                    assert(pending =~= pending_before.push(last.location));
                },
            }
            assert(written.to_multiset().add(pending.to_multiset()) =~= text_locations(
                cells,
            ).to_multiset());
        } else {
            assert(written =~= written_before.push(last.location));
            assert(written.to_multiset().add(pending.to_multiset()) =~= text_locations(
                cells,
            ).to_multiset());
        }
    }
}

/// As many locations wait in the tasks as cells wait for a translation: when
/// every task is translated, the writes of the collector advance the progress
/// by what the scan left open.
pub proof fn law_progress_completes(overrides: Dictionary, cells: Seq<SourceCell>)
    ensures
        pending_locations(tasks_after(overrides, cells)).len() == waiting_cells(overrides, cells),
    decreases cells.len(),
{
    broadcast use vstd::seq_lib::group_to_multiset_ensures;

    if cells.len() > 0 {
        let shorter = cells.drop_last();
        let last = cells.last();
        let before = tasks_after(overrides, shorter);
        let after = tasks_after(overrides, cells);
        law_progress_completes(overrides, shorter);
        if needs_service(overrides, last) {
            match position_of(before, cell_key(last)) {
                Some(at) => {
                    assert(stands_for(before, cell_key(last), at));
                    lemma_joined_location(before, at, last.location);
                    assert(pending_locations(after).to_multiset().len() == pending_locations(
                        before,
                    ).to_multiset().len() + 1);
                },
                None => {
                    assert(after.drop_last() =~= before);
                },
            }
        }
    }
}

/// A location among those of the textual cells is the location of a textual
/// cell.
pub proof fn lemma_text_location_origin(cells: Seq<SourceCell>, location: CellLocation)
    requires
        text_locations(cells).contains(location),
    ensures
        exists|i: int|
            0 <= i < cells.len() && cell_text(cells[i]) is Some && (#[trigger] cells[i]).location
                == location,
    decreases cells.len(),
{
    if cells.len() > 0 {
        let shorter = cells.drop_last();
        let listed = text_locations(cells);
        let p = choose|p: int| 0 <= p < listed.len() && listed[p] == location;
        if cell_text(cells.last()) is Some && p == listed.len() - 1 {
            assert(cells[cells.len() - 1].location == location);
        } else {
            assert(text_locations(shorter)[p] == location);
            lemma_text_location_origin(shorter, location);
            let i = choose|i: int|
                0 <= i < shorter.len() && cell_text(shorter[i]) is Some && (#[trigger] shorter[i]).location
                    == location;
            assert(cells[i].location == location);
        }
    }
}

/// In a grid in which no two cells share a location, the location of a
/// textual cell stands once among the locations of the textual cells.
pub proof fn lemma_text_location_once(cells: Seq<SourceCell>, i: int)
    requires
        distinct_locations(cells),
        0 <= i < cells.len(),
        cell_text(cells[i]) is Some,
    ensures
        text_locations(cells).to_multiset().count(cells[i].location) == 1,
    decreases cells.len(),
{
    broadcast use vstd::seq_lib::group_to_multiset_ensures;

    let shorter = cells.drop_last();
    let location = cells[i].location;
    if i == cells.len() - 1 {
        if text_locations(shorter).contains(location) {
            lemma_text_location_origin(shorter, location);
            let k = choose|k: int|
                0 <= k < shorter.len() && cell_text(shorter[k]) is Some && (#[trigger] shorter[k]).location
                    == location;
            assert(cells[k].location == cells[i].location);
        }
        assert(text_locations(shorter).to_multiset().count(location) == 0);
    } else {
        assert(distinct_locations(shorter)) by {
            assert forall|a: int, b: int| 0 <= a < b < shorter.len() implies (#[trigger] shorter[a]).location
                != (#[trigger] shorter[b]).location by {
                assert(cells[a].location != cells[b].location);
            }
        }
        lemma_text_location_once(shorter, i);
        assert(cells[i].location != cells[cells.len() - 1].location);
    }
}

/// In a grid in which no two cells share a location, the location of every
/// textual cell is accounted for exactly once: either the scan writes it
/// itself, or it waits in one task, at one place of that task's list.
pub proof fn law_each_location_once(overrides: Dictionary, cells: Seq<SourceCell>, i: int)
    requires
        distinct_locations(cells),
        0 <= i < cells.len(),
        cell_text(cells[i]) is Some,
    ensures
        written_locations(direct_writes(overrides, cells)).to_multiset().count(cells[i].location)
            + pending_locations(tasks_after(overrides, cells)).to_multiset().count(
            cells[i].location,
        ) == 1,
{
    law_locations_accounted(overrides, cells);
    lemma_text_location_once(cells, i);
}

/// The writes that a sequence of outcomes leads to, in the order of the
/// outcomes.
pub open spec fn all_collected(tasks: Seq<TaskView>, outcomes: Seq<Settled>) -> Seq<Written>
    decreases outcomes.len(),
{
    if outcomes.len() == 0 {
        Seq::empty()
    } else {
        all_collected(tasks, outcomes.drop_last()) + collected(tasks, outcomes.last())
    }
}

/// How many of the outcomes are a translation for `key`.
pub open spec fn translations_for(outcomes: Seq<Settled>, key: Seq<char>) -> nat
    decreases outcomes.len(),
{
    if outcomes.len() == 0 {
        0
    } else {
        translations_for(outcomes.drop_last(), key) + if is_translation_for(outcomes.last(), key) {
            1nat
        } else {
            0nat
        }
    }
}

/// The outcome is a translation for `key`.
pub open spec fn is_translation_for(outcome: Settled, key: Seq<char>) -> bool {
    match outcome {
        Settled::Translated { key: translated, .. } => translated == key,
        Settled::Failed { .. } => false,
    }
}

/// How often `location` stands in the list of the task at place `t`.
pub open spec fn share(tasks: Seq<TaskView>, t: int, location: CellLocation) -> nat {
    tasks[t].locations.to_multiset().count(location)
}

/// The locations of writes that stand one behind the other are the
/// locations of the first and then those of the second.
pub proof fn lemma_written_locations_add(first: Seq<Written>, second: Seq<Written>)
    ensures
        written_locations(first + second) == written_locations(first) + written_locations(second),
{
    assert(written_locations(first + second) =~= written_locations(first) + written_locations(
        second,
    ));
}

/// A location stands as often among the waiting locations as in any one
/// task, at least.
pub proof fn lemma_task_share(tasks: Seq<TaskView>, t: int, location: CellLocation)
    requires
        0 <= t < tasks.len(),
    ensures
        share(tasks, t, location) <= pending_locations(tasks).to_multiset().count(location),
    decreases tasks.len(),
{
    lemma_multiset_commutative(pending_locations(tasks.drop_last()), tasks.last().locations);
    if t < tasks.len() - 1 {
        lemma_task_share(tasks.drop_last(), t, location);
    }
}

/// A location stands as often among the waiting locations as in any two
/// tasks together, at least.
pub proof fn lemma_two_task_shares(tasks: Seq<TaskView>, t: int, u: int, location: CellLocation)
    requires
        0 <= t < u < tasks.len(),
    ensures
        share(tasks, t, location) + share(tasks, u, location) <= pending_locations(
            tasks,
        ).to_multiset().count(location),
    decreases tasks.len(),
{
    lemma_multiset_commutative(pending_locations(tasks.drop_last()), tasks.last().locations);
    if u == tasks.len() - 1 {
        lemma_task_share(tasks.drop_last(), t, location);
    } else {
        lemma_two_task_shares(tasks.drop_last(), t, u, location);
    }
}

/// In a grid in which no two cells share a location, the location of a
/// textual cell that waits for the service stands once in the task of its
/// key, in no other task and in no write of the scan; the location of any
/// other textual cell stands once in the writes of the scan and in no task.
pub proof fn lemma_location_shares(overrides: Dictionary, cells: Seq<SourceCell>, i: int)
    requires
        distinct_locations(cells),
        0 <= i < cells.len(),
        cell_text(cells[i]) is Some,
    ensures
        written_locations(direct_writes(overrides, cells)).to_multiset().count(cells[i].location)
            == if needs_service(overrides, cells[i]) {
            0nat
        } else {
            1nat
        },
        forall|t: int|
            0 <= t < tasks_after(overrides, cells).len() ==> #[trigger] share(
                tasks_after(overrides, cells),
                t,
                cells[i].location,
            ) == if needs_service(overrides, cells[i]) && tasks_after(overrides, cells)[t].key
                == cell_key(cells[i]) {
                1nat
            } else {
                0nat
            },
{
    broadcast use vstd::seq_lib::group_to_multiset_ensures;

    let tasks = tasks_after(overrides, cells);
    let location = cells[i].location;
    let direct = written_locations(direct_writes(overrides, cells));
    law_each_location_once(overrides, cells, i);
    law_one_task_per_key(overrides, cells);
    if needs_service(overrides, cells[i]) {
        let key = cell_key(cells[i]);
        assert(cell_registered(overrides, cells, tasks, i));
        let own = position_of(tasks, key).unwrap();
        assert(stands_for(tasks, key, own));
        assert(tasks[own].locations.contains(location));
        assert(share(tasks, own, location) >= 1);
        lemma_task_share(tasks, own, location);
        assert forall|t: int| 0 <= t < tasks.len() implies #[trigger] share(tasks, t, location)
            == if tasks[t].key == key {
            1nat
        } else {
            0nat
        } by {
            if t < own {
                lemma_two_task_shares(tasks, t, own, location);
                assert(tasks[t].key != tasks[own].key);
            } else if own < t {
                lemma_two_task_shares(tasks, own, t, location);
                assert(tasks[own].key != tasks[t].key);
            }
        }
    } else {
        lemma_direct_write_listed(overrides, cells, i);
        let write = direct_write(overrides, cells[i]).unwrap();
        let at = choose|at: int|
            0 <= at < direct_writes(overrides, cells).len() && direct_writes(overrides, cells)[at]
                == write;
        assert(direct[at] == location);
        assert(direct.contains(location));
        assert forall|t: int| 0 <= t < tasks.len() implies #[trigger] share(tasks, t, location)
            == 0 by {
            lemma_task_share(tasks, t, location);
        }
    }
}

/// In a grid in which no two cells share a location, an outcome leads to one
/// write at the location of a textual cell where the cell waits for the
/// service and the outcome is a translation for its key, and to none
/// otherwise.
pub proof fn lemma_outcome_share(
    overrides: Dictionary,
    cells: Seq<SourceCell>,
    outcome: Settled,
    i: int,
)
    requires
        distinct_locations(cells),
        0 <= i < cells.len(),
        cell_text(cells[i]) is Some,
    ensures
        written_locations(collected(tasks_after(overrides, cells), outcome)).to_multiset().count(
            cells[i].location,
        ) == if needs_service(overrides, cells[i]) && is_translation_for(
            outcome,
            cell_key(cells[i]),
        ) {
            1nat
        } else {
            0nat
        },
{
    broadcast use vstd::seq_lib::group_to_multiset_ensures;

    let tasks = tasks_after(overrides, cells);
    let location = cells[i].location;
    let written = written_locations(collected(tasks, outcome));
    lemma_location_shares(overrides, cells, i);
    law_one_task_per_key(overrides, cells);
    match outcome {
        Settled::Translated { key, text } => {
            match position_of(tasks, key) {
                Some(t) => {
                    assert(stands_for(tasks, key, t));
                    assert(written =~= tasks[t].locations);
                    assert(written.to_multiset().count(location) == share(tasks, t, location));
                },
                None => {
                    assert(written =~= Seq::<CellLocation>::empty());
                    assert(!written.contains(location));
                    if needs_service(overrides, cells[i]) {
                        assert(cell_registered(overrides, cells, tasks, i));
                    }
                },
            }
        },
        Settled::Failed { .. } => {
            assert(written =~= Seq::<CellLocation>::empty());
            assert(!written.contains(location));
        },
    }
}

/// In a grid in which no two cells share a location, outcomes lead to as
/// many writes at the location of a textual cell that waits for the service
/// as there are translations for its key among them, and to none at the
/// location of any other textual cell.
pub proof fn lemma_outcomes_share(
    overrides: Dictionary,
    cells: Seq<SourceCell>,
    outcomes: Seq<Settled>,
    i: int,
)
    requires
        distinct_locations(cells),
        0 <= i < cells.len(),
        cell_text(cells[i]) is Some,
    ensures
        written_locations(
            all_collected(tasks_after(overrides, cells), outcomes),
        ).to_multiset().count(cells[i].location) == if needs_service(overrides, cells[i]) {
            translations_for(outcomes, cell_key(cells[i]))
        } else {
            0nat
        },
    decreases outcomes.len(),
{
    broadcast use vstd::seq_lib::group_to_multiset_ensures;

    let tasks = tasks_after(overrides, cells);
    if outcomes.len() == 0 {
        assert(!written_locations(all_collected(tasks, outcomes)).contains(cells[i].location));
    } else {
        let earlier = all_collected(tasks, outcomes.drop_last());
        let latest = collected(tasks, outcomes.last());
        lemma_outcomes_share(overrides, cells, outcomes.drop_last(), i);
        lemma_outcome_share(overrides, cells, outcomes.last(), i);
        lemma_written_locations_add(earlier, latest);
        lemma_multiset_commutative(written_locations(earlier), written_locations(latest));
    }
}

/// In a grid in which no two cells share a location, and whatever outcomes
/// arrive in whatever order: a textual cell that is copied or overridden is
/// written once, by the scan; a textual cell that waits for the service is
/// written once for each translation that arrives for its key. So where one
/// translation arrives for every key, every textual cell is written exactly
/// once, and where a key fails, its cells stay unwritten.
pub proof fn law_written_once_per_translation(
    overrides: Dictionary,
    cells: Seq<SourceCell>,
    outcomes: Seq<Settled>,
    i: int,
)
    requires
        distinct_locations(cells),
        0 <= i < cells.len(),
        cell_text(cells[i]) is Some,
    ensures
        written_locations(
            direct_writes(overrides, cells) + all_collected(
                tasks_after(overrides, cells),
                outcomes,
            ),
        ).to_multiset().count(cells[i].location) == if needs_service(overrides, cells[i]) {
            translations_for(outcomes, cell_key(cells[i]))
        } else {
            1nat
        },
{
    let direct = direct_writes(overrides, cells);
    let later = all_collected(tasks_after(overrides, cells), outcomes);
    lemma_location_shares(overrides, cells, i);
    lemma_outcomes_share(overrides, cells, outcomes, i);
    lemma_written_locations_add(direct, later);
    lemma_multiset_commutative(written_locations(direct), written_locations(later));
}

} // verus!
