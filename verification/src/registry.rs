//! The registry of pending translations: one task for each key that needs
//! the completion service, with every location that waits for its outcome.
use vstd::prelude::*;
use crate::grid::CellLocation;
use crate::overrides::Dictionary;
use crate::prompt::{build_prompt, prompt_text};
use crate::text::{is_blank, lowercase_text, normalized, trim_text, trimmed};
use crate::text_map::TextMap;

verus! {

/// One pending translation.
#[derive(Clone, PartialEq, Eq, Debug)]
pub struct PendingTask {
    /// The key that the task stands for.
    pub key: String,
    /// The locations that share the key, in the order of their discovery.
    pub locations: Vec<CellLocation>,
    /// The prompt that asks for the translation.
    pub prompt: String,
}

/// A pending translation as a plain value.
pub ghost struct TaskView {
    pub key: Seq<char>,
    pub locations: Seq<CellLocation>,
    pub prompt: Seq<char>,
}

impl View for PendingTask {
    type V = TaskView;

    open spec fn view(&self) -> TaskView {
        TaskView { key: self.key@, locations: self.locations@, prompt: self.prompt@ }
    }
}

/// No two tasks stand for the same key.
pub open spec fn distinct_keys(tasks: Seq<TaskView>) -> bool {
    forall|i: int, j: int|
        0 <= i < j < tasks.len() ==> (#[trigger] tasks[i]).key != (#[trigger] tasks[j]).key
}

/// `i` is the place of a task that stands for `key`.
pub open spec fn stands_for(tasks: Seq<TaskView>, key: Seq<char>, i: int) -> bool {
    0 <= i < tasks.len() && tasks[i].key == key
}

/// The place of the task that stands for `key`, if there is one.
pub open spec fn position_of(tasks: Seq<TaskView>, key: Seq<char>) -> Option<int> {
    if exists|i: int| stands_for(tasks, key, i) {
        Some(choose|i: int| stands_for(tasks, key, i))
    } else {
        None
    }
}

/// The locations that wait under `key`: those of its task, or none.
pub open spec fn waiting_under(tasks: Seq<TaskView>, key: Seq<char>) -> Seq<CellLocation> {
    match position_of(tasks, key) {
        Some(i) => tasks[i].locations,
        None => Seq::empty(),
    }
}

/// The class of a textual cell, as a plain value.
pub enum Route {
    /// The cell is copied as it is.
    Verbatim,
    /// The cell gets the override's translation.
    Overridden(Seq<char>),
    /// The cell opens the task at the given place.
    New(int),
    /// The cell joins the task at the given place.
    Duplicate(int),
}

/// The class of a textual cell.
#[derive(Clone, PartialEq, Eq, Debug)]
pub enum Classification {
    /// The text is blank or stands in the header row: it is copied as it is.
    Verbatim,
    /// The key has an override: the cell gets its translation.
    Overridden(String),
    /// The key was not seen before: a task was opened at the given place.
    New(usize),
    /// The key has a task already, at the given place: the cell joined it.
    Duplicate(usize),
}

impl View for Classification {
    type V = Route;

    open spec fn view(&self) -> Route {
        match self {
            Classification::Verbatim => Route::Verbatim,
            Classification::Overridden(text) => Route::Overridden(text@),
            Classification::New(i) => Route::New(*i as int),
            Classification::Duplicate(i) => Route::Duplicate(*i as int),
        }
    }
}

/// A cell is copied as it is when its text is blank or it stands in the
/// header row.
pub open spec fn is_verbatim(location: CellLocation, text: Seq<char>) -> bool {
    is_blank(text) || location.row == 0
}

/// The class of the cell at `location` with `text`, given the tasks so far.
pub open spec fn route(
    overrides: Dictionary,
    tasks: Seq<TaskView>,
    location: CellLocation,
    text: Seq<char>,
) -> Route {
    if is_verbatim(location, text) {
        Route::Verbatim
    } else if overrides@.contains_key(normalized(text)) {
        Route::Overridden(overrides@[normalized(text)])
    } else {
        match position_of(tasks, normalized(text)) {
            Some(i) => Route::Duplicate(i),
            None => Route::New(tasks.len() as int),
        }
    }
}

/// The task that the first sighting of `text` at `location` opens.
pub open spec fn opened_task(overrides: Dictionary, location: CellLocation, text: Seq<char>) -> TaskView {
    TaskView {
        key: normalized(text),
        locations: seq![location],
        prompt: prompt_text(overrides.hints_for(normalized(text)), trimmed(text)),
    }
}

/// `task` with one more location behind those that it has.
pub open spec fn joined_task(task: TaskView, location: CellLocation) -> TaskView {
    TaskView { key: task.key, locations: task.locations.push(location), prompt: task.prompt }
}

/// The tasks after the cell at `location` with `text` was classified.
pub open spec fn step(
    overrides: Dictionary,
    tasks: Seq<TaskView>,
    location: CellLocation,
    text: Seq<char>,
) -> Seq<TaskView> {
    match route(overrides, tasks, location, text) {
        Route::New(_) => tasks.push(opened_task(overrides, location, text)),
        Route::Duplicate(i) => tasks.update(i, joined_task(tasks[i], location)),
        _ => tasks,
    }
}

/// Among tasks with distinct keys, a task's place is the place of its key.
pub proof fn lemma_position_of(tasks: Seq<TaskView>, i: int)
    requires
        distinct_keys(tasks),
        0 <= i < tasks.len(),
    ensures
        position_of(tasks, tasks[i].key) == Some(i),
{
    assert(stands_for(tasks, tasks[i].key, i));
    let j = choose|j: int| stands_for(tasks, tasks[i].key, j);
    assert(i == j) by {
        if i < j {
            assert(tasks[i].key != tasks[j].key);
        }
        if j < i {
            assert(tasks[j].key != tasks[i].key);
        }
    }
}

/// The registry. It is filled during the scan, one cell after the other, and
/// only read afterwards.
pub struct Registry {
    tasks: Vec<PendingTask>,
    index: TextMap<usize>,
}

impl Registry {
    /// The tasks in the order of their discovery.
    pub closed spec fn tasks(&self) -> Seq<TaskView> {
        Seq::new(self.tasks@.len(), |i: int| self.tasks@[i]@)
    }

    /// The invariant of the registry: the index holds exactly the keys of the
    /// tasks, each with the place of its task, and every task has a location.
    pub closed spec fn wf(&self) -> bool {
        &&& self.index.wf()
        &&& forall|i: int|
            0 <= i < self.tasks().len() ==> {
                &&& self.index@.contains_key((#[trigger] self.tasks()[i]).key)
                &&& self.index@[self.tasks()[i].key] == i
                &&& self.tasks()[i].locations.len() > 0
            }
        &&& forall|key: Seq<char>| #[trigger]
            self.index@.contains_key(key) ==> stands_for(self.tasks(), key, self.index@[key] as int)
    }

    /// What the invariant gives: one task for each key, and no task without a
    /// location.
    pub proof fn lemma_wf(&self)
        requires
            self.wf(),
        ensures
            distinct_keys(self.tasks()),
            forall|i: int|
                0 <= i < self.tasks().len() ==> (#[trigger] self.tasks()[i]).locations.len() > 0,
    {
    }

    /// The registry without a task.
    pub fn new() -> (r: Self)
        ensures
            r.wf(),
            r.tasks() == Seq::<TaskView>::empty(),
    {
        let r = Registry { tasks: Vec::new(), index: TextMap::new() };
        assert(r.tasks() =~= Seq::<TaskView>::empty());
        r
    }

    /// The number of tasks.
    pub fn len(&self) -> (n: usize)
        ensures
            n == self.tasks().len(),
    {
        self.tasks.len()
    }

    /// The task at place `i`.
    pub fn task(&self, i: usize) -> (task: &PendingTask)
        requires
            i < self.tasks().len(),
        ensures
            task@ == self.tasks()[i as int],
    {
        &self.tasks[i]
    }

    /// The place of the task that stands for `key`, if there is one.
    pub fn find(&self, key: &str) -> (r: Option<usize>)
        requires
            self.wf(),
        ensures
            match r {
                Some(i) => position_of(self.tasks(), key@) == Some(i as int),
                None => position_of(self.tasks(), key@) is None,
            },
            r is Some ==> r.unwrap() < self.tasks().len(),
    {
        match self.index.get(key) {
            Some(i) => {
                proof {
                    self.lemma_wf();
                    lemma_position_of(self.tasks(), *i as int);
                }
                Some(*i)
            },
            None => {
                proof {
                    if exists|i: int| stands_for(self.tasks(), key@, i) {
                        let i = choose|i: int| stands_for(self.tasks(), key@, i);
                        assert(self.index@.contains_key(self.tasks()[i].key));
                    }
                }
                None
            },
        }
    }

    /// Classifies the textual cell at `location` and records it: a cell that
    /// needs the completion service opens the task of its key or joins it.
    pub fn classify(&mut self, overrides: &Dictionary, location: CellLocation, text: &str) -> (r:
        Classification)
        requires
            old(self).wf(),
            overrides.wf(),
        ensures
            final(self).wf(),
            r@ == route(*overrides, old(self).tasks(), location, text@),
            final(self).tasks() == step(*overrides, old(self).tasks(), location, text@),
    {
        let source = trim_text(text);
        if source.is_empty() || location.row == 0 {
            return Classification::Verbatim;
        }
        let key = lowercase_text(source);
        match overrides.lookup(key.as_str()) {
            Some(translation) => {
                return Classification::Overridden(translation.clone());
            },
            None => {},
        }
        match self.find(key.as_str()) {
            Some(i) => {
                let ghost before = self.tasks();
                self.tasks[i].locations.push(location);
                proof {
                    assert(self.tasks() =~= before.update(i as int, joined_task(before[i as int], location)));
                    assert forall|j: int| 0 <= j < self.tasks().len() implies {
                        &&& self.index@.contains_key((#[trigger] self.tasks()[j]).key)
                        &&& self.index@[self.tasks()[j].key] == j
                        &&& self.tasks()[j].locations.len() > 0
                    } by {
                        assert(self.tasks()[j].key == before[j].key);
                    }
                    assert forall|k: Seq<char>| #[trigger] self.index@.contains_key(k) implies stands_for(
                        self.tasks(),
                        k,
                        self.index@[k] as int,
                    ) by {
                        assert(stands_for(before, k, self.index@[k] as int));
                    }
                }
                Classification::Duplicate(i)
            },
            None => {
                let ghost before = self.tasks();
                let ghost index_before = self.index@;
                let hints = overrides.hints(key.as_str());
                let prompt = build_prompt(&hints, source);
                let place: usize = self.tasks.len();
                let mut locations: Vec<CellLocation> = Vec::new();
                locations.push(location);
                self.index.insert(key.clone(), place);
                self.tasks.push(PendingTask { key, locations, prompt });
                proof {
                    assert(locations@ =~= seq![location]);
                    assert(self.tasks() =~= before.push(opened_task(*overrides, location, text@)));
                    assert forall|j: int| 0 <= j < self.tasks().len() implies {
                        &&& self.index@.contains_key((#[trigger] self.tasks()[j]).key)
                        &&& self.index@[self.tasks()[j].key] == j
                        &&& self.tasks()[j].locations.len() > 0
                    } by {
                        if j < before.len() {
                            assert(self.tasks()[j] == before[j]);
                            assert(index_before.contains_key(before[j].key));
                            assert(stands_for(before, before[j].key, j));
                        }
                    }
                    assert forall|k: Seq<char>| #[trigger] self.index@.contains_key(k) implies stands_for(
                        self.tasks(),
                        k,
                        self.index@[k] as int,
                    ) by {
                        if k != key@ {
                            assert(index_before.contains_key(k));
                            assert(stands_for(before, k, index_before[k] as int));
                            assert(self.tasks()[index_before[k] as int] == before[index_before[k] as int]);
                        }
                    }
                }
                Classification::New(place)
            },
        }
    }
}

} // verus!
