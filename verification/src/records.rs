//! Plain data records the backend exchanges with its I/O collaborators:
//! directory listings and persisted calendar events. The operations that
//! fill and store them are filesystem and database glue outside the library;
//! the records themselves, and the one decision made over them, live here.

use vstd::prelude::*;

verus! {

/// One directory entry, as the listing operation reports it.
pub struct FsEntry {
    pub name: String,
    pub path: String,
    pub is_dir: bool,
}

/// One calendar event as persisted; an `id` of zero marks an event not yet
/// stored.
pub struct CalendarEvent {
    pub id: i64,
    pub title: String,
    pub start: String,
    pub end: String,
    pub tasks: Option<String>,
}

impl CalendarEvent {
    /// Whether saving this event inserts a fresh row rather than updating
    /// the row its id names.
    pub fn is_new(&self) -> (r: bool)
        ensures
            r == (self.id == 0),
    {
        self.id == 0
    }
}

} // verus!
