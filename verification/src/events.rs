//! Change events pushed to subscribers: which file changed and how, never
//! its content.

use vstd::prelude::*;

verus! {

/// The kind of a change; serialized in lower case (`created`, `modified`,
/// `deleted`, `renamed`).
#[derive(Debug, Clone, Copy, PartialEq, Eq, Structural)]
pub enum ChangeKind {
    Created,
    Modified,
    Deleted,
    Renamed,
}

/// One change to one file.
#[derive(Debug, Clone)]
pub struct ChangeEvent {
    pub kind: ChangeKind,
    /// The logical path `root/relative`.
    pub path: String,
    /// The former logical path; present for renames only.
    pub from: Option<String>,
    /// The file's modification time in nanoseconds since the Unix epoch,
    /// when it is known.
    pub modified_at: Option<i128>,
}

/// A change event as plain values.
pub struct ChangeEventView {
    pub kind: ChangeKind,
    pub path: Seq<char>,
    pub from: Option<Seq<char>>,
    pub modified_at: Option<i128>,
}

impl View for ChangeEvent {
    type V = ChangeEventView;

    open spec fn view(&self) -> ChangeEventView {
        ChangeEventView {
            kind: self.kind,
            path: self.path@,
            from: match self.from {
                Some(f) => Some(f@),
                None => None,
            },
            modified_at: self.modified_at,
        }
    }
}

/// The views of a list of events.
pub open spec fn event_views(v: Seq<ChangeEvent>) -> Seq<ChangeEventView> {
    Seq::new(v.len(), |i: int| v[i]@)
}

/// The number that stands for each kind when events are compared for
/// duplicates.
pub open spec fn kind_number(kind: ChangeKind) -> u8 {
    match kind {
        ChangeKind::Created => 0,
        ChangeKind::Modified => 1,
        ChangeKind::Deleted => 2,
        ChangeKind::Renamed => 3,
    }
}

/// The number of `kind` (see [`kind_number`]); distinct kinds get distinct
/// numbers.
pub fn kind_tag(kind: &ChangeKind) -> (r: u8)
    ensures
        r == kind_number(*kind),
{
    match kind {
        ChangeKind::Created => 0,
        ChangeKind::Modified => 1,
        ChangeKind::Deleted => 2,
        ChangeKind::Renamed => 3,
    }
}

/// Distinct kinds have distinct numbers.
pub proof fn kind_numbers_distinct(a: ChangeKind, b: ChangeKind)
    ensures
        kind_number(a) == kind_number(b) <==> a == b,
{
}

} // verus!
