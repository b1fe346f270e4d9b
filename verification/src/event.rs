//! Raw filesystem events and the classifier that keeps only
//! content-modification events.

use vstd::prelude::*;

verus! {

/// The kind of change a raw filesystem notification reports.
#[derive(Clone, Copy, Debug, PartialEq, Eq, Structural)]
pub enum EventKind {
    /// A file's content (data) was modified.
    ContentModified,
    /// A file's metadata (permissions, timestamps, ...) was modified.
    MetadataModified,
    /// A file or directory was created.
    Created,
    /// A file or directory was removed.
    Removed,
    /// A file or directory was renamed or moved.
    Renamed,
    /// A file was accessed (opened, read, closed).
    Accessed,
    /// Any other or unknown change.
    Other,
}

/// An unfiltered notification from the watch provider: a change kind and the
/// affected paths, in provider order. A path that could not be represented as
/// text is `None`.
pub struct RawEvent {
    pub kind: EventKind,
    pub paths: Vec<Option<String>>,
}

/// What the classifier accepts: the event's first path, when the event
/// reports a content modification, the path list is non-empty and the first
/// path is representable as text; nothing otherwise.
pub open spec fn classify_spec(kind: EventKind, paths: Seq<Option<String>>) -> Option<Seq<char>> {
    if kind == EventKind::ContentModified && paths.len() > 0 && paths[0] is Some {
        Some(paths[0]->0@)
    } else {
        None
    }
}

impl RawEvent {
    /// The classified form of this event.
    pub open spec fn classified(&self) -> Option<Seq<char>> {
        classify_spec(self.kind, self.paths@)
    }
}

/// Classifies a raw event: returns the first affected path if and only if the
/// event reports a content modification and carries at least one
/// representable path; drops every other event.
pub fn classify(event: &RawEvent) -> (r: Option<String>)
    ensures
        match r {
            Some(p) => event.classified() == Some(p@),
            None => event.classified() is None,
        },
{
    match event.kind {
        EventKind::ContentModified => {
            if event.paths.len() > 0 {
                match &event.paths[0] {
                    Some(p) => Some(p.clone()),
                    None => None,
                }
            } else {
                None
            }
        },
        _ => None,
    }
}

} // verus!
