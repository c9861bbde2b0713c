//! The scan: one pass over the cells of the source grid, which settles what
//! needs no translation and registers the rest.
use vstd::prelude::*;
use crate::grid::{write_views, CellValue, CellWrite, SourceCell, Written};
use crate::overrides::Dictionary;
use crate::registry::{is_verbatim, step, Classification, Registry, TaskView};
use crate::text::normalized;

verus! {

/// What the scan leaves behind.
pub struct Scan {
    /// The pending translations, with the locations that wait for each.
    pub registry: Registry,
    /// The writes that need no translation, in the order of the cells.
    pub writes: Vec<CellWrite>,
    /// How far the scan itself advanced the progress: by one for every cell
    /// that does not wait for a translation.
    pub advanced: usize,
}

/// The text of a textual cell.
pub open spec fn cell_text(cell: SourceCell) -> Option<Seq<char>> {
    match cell.value {
        CellValue::Text(text) => Some(text@),
        _ => None,
    }
}

/// The key of a textual cell.
pub open spec fn cell_key(cell: SourceCell) -> Seq<char> {
    normalized(cell_text(cell).unwrap())
}

/// The cell waits for the completion service to translate it: it is
/// textual, it is not copied as it is, and its key has no override.
pub open spec fn needs_service(overrides: Dictionary, cell: SourceCell) -> bool {
    match cell_text(cell) {
        Some(text) => !is_verbatim(cell.location, text) && !overrides@.contains_key(
            normalized(text),
        ),
        None => false,
    }
}

/// What the scan itself writes for a cell: the text as it is for a cell that
/// is copied, the override's translation where the key has one, and nothing
/// for any other cell.
pub open spec fn direct_write(overrides: Dictionary, cell: SourceCell) -> Option<Written> {
    match cell_text(cell) {
        Some(text) => if is_verbatim(cell.location, text) {
            Some((cell.location, text))
        } else if overrides@.contains_key(normalized(text)) {
            Some((cell.location, overrides@[normalized(text)]))
        } else {
            None
        },
        None => None,
    }
}

/// The tasks after the scan of `cells`, in the order of their discovery.
pub open spec fn tasks_after(overrides: Dictionary, cells: Seq<SourceCell>) -> Seq<TaskView>
    decreases cells.len(),
{
    if cells.len() == 0 {
        Seq::empty()
    } else {
        let before = tasks_after(overrides, cells.drop_last());
        match cell_text(cells.last()) {
            Some(text) => step(overrides, before, cells.last().location, text),
            None => before,
        }
    }
}

/// The writes that the scan of `cells` makes itself, in the order of the
/// cells.
pub open spec fn direct_writes(overrides: Dictionary, cells: Seq<SourceCell>) -> Seq<Written>
    decreases cells.len(),
{
    if cells.len() == 0 {
        Seq::empty()
    } else {
        let before = direct_writes(overrides, cells.drop_last());
        match direct_write(overrides, cells.last()) {
            Some(write) => before.push(write),
            None => before,
        }
    }
}

/// How many of `cells` wait for a translation.
pub open spec fn waiting_cells(overrides: Dictionary, cells: Seq<SourceCell>) -> nat
    decreases cells.len(),
{
    if cells.len() == 0 {
        0
    } else if needs_service(overrides, cells.last()) {
        waiting_cells(overrides, cells.drop_last()) + 1
    } else {
        waiting_cells(overrides, cells.drop_last())
    }
}

/// Scans the cells in their order. Every textual cell is classified; what is
/// copied or overridden becomes a write, what needs the completion service is
/// registered under its key. A cell that is not textual is final as it
/// stands.
pub fn scan(cells: &Vec<SourceCell>, overrides: &Dictionary) -> (r: Scan)
    requires
        overrides.wf(),
    ensures
        r.registry.wf(),
        r.registry.tasks() == tasks_after(*overrides, cells@),
        write_views(r.writes@) == direct_writes(*overrides, cells@),
        r.advanced + waiting_cells(*overrides, cells@) == cells@.len(),
{
    let mut registry = Registry::new();
    let mut writes: Vec<CellWrite> = Vec::new();
    let mut advanced: usize = 0;
    let mut i: usize = 0;
    assert(cells@.take(0) =~= Seq::<SourceCell>::empty());
    assert(write_views(writes@) =~= Seq::<Written>::empty());
    while i < cells.len()
        invariant
            i <= cells.len(),
            overrides.wf(),
            registry.wf(),
            registry.tasks() == tasks_after(*overrides, cells@.take(i as int)),
            write_views(writes@) == direct_writes(*overrides, cells@.take(i as int)),
            advanced + waiting_cells(*overrides, cells@.take(i as int)) == i,
        decreases cells.len() - i,
    {
        proof {
            let upto = cells@.take(i as int + 1);
            assert(upto.drop_last() =~= cells@.take(i as int));
            assert(upto.last() == cells@[i as int]);
        }
        let location = cells[i].location;
        let ghost earlier = writes@;
        match &cells[i].value {
            CellValue::Text(text) => {
                match registry.classify(overrides, location, text.as_str()) {
                    Classification::Verbatim => {
                        let write = CellWrite { location, text: text.clone() };
                        writes.push(write);
                        assert(write_views(writes@) =~= write_views(earlier).push(write@));
                        advanced = advanced + 1;
                    },
                    Classification::Overridden(translation) => {
                        let write = CellWrite { location, text: translation };
                        writes.push(write);
                        assert(write_views(writes@) =~= write_views(earlier).push(write@));
                        advanced = advanced + 1;
                    },
                    Classification::New(_) => {},
                    Classification::Duplicate(_) => {},
                }
            },
            _ => {
                advanced = advanced + 1;
            },
        }
        i = i + 1;
    }
    assert(cells@.take(cells.len() as int) =~= cells@);
    Scan { registry, writes, advanced }
}

} // verus!
