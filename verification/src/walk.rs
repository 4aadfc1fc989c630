//! The recursive enumerator: a depth-first walk of a tree, one listing at a
//! time, that goes on where a folder cannot be opened.
//!
//! The walk holds the decisions and the caller holds the listings. The caller
//! does what `expects` says (reads the next entry of the innermost open
//! listing, or tries to open the folder just read), hands the outcome to `next`,
//! and passes on what `next` tells it to emit. When a listing has ended the
//! caller closes it.
use vstd::prelude::*;
use crate::item::EntryKind;
use crate::path::{IndexPath, PathView};
use crate::sorted::key_views;

verus! {

/// What the caller has to report to the walk.
#[derive(Debug, Clone, PartialEq, Eq)]
pub enum WalkEvent {
    /// The innermost listing gave an entry.
    Entry { path: IndexPath, kind: EntryKind },
    /// The innermost listing gave an error in place of an entry.
    EntryFailed,
    /// The innermost listing has ended.
    Exhausted,
    /// The folder just read was opened.
    Opened,
    /// The folder just read could not be opened.
    OpenFailed,
}

/// An event as a value.
pub enum EventView {
    Entry { path: PathView, kind: EntryKind },
    EntryFailed,
    Exhausted,
    Opened,
    OpenFailed,
}

impl View for WalkEvent {
    type V = EventView;

    open spec fn view(&self) -> EventView {
        match self {
            WalkEvent::Entry { path, kind } => EventView::Entry { path: path@, kind: *kind },
            WalkEvent::EntryFailed => EventView::EntryFailed,
            WalkEvent::Exhausted => EventView::Exhausted,
            WalkEvent::Opened => EventView::Opened,
            WalkEvent::OpenFailed => EventView::OpenFailed,
        }
    }
}

/// What the walk asks of the caller next.
#[derive(Debug, Clone, Copy, PartialEq, Eq, Structural)]
pub enum WalkAction {
    /// Read the next entry of the innermost open listing.
    Poll,
    /// Try to open the listing of the folder just read.
    Open,
    /// Nothing: the walk has ended.
    Finished,
}

/// What the caller passes on after an event.
#[derive(Debug, Clone, Copy, PartialEq, Eq, Structural)]
pub enum Emit {
    Nothing,
    /// The entry last read.
    Entry,
    /// The error that stood in place of an entry.
    Error,
}

/// The walk as a value.
pub struct WalkView {
    /// The folders whose listings are open, outermost first.
    pub open: Seq<PathView>,
    /// The folder just read, while the walk waits to hear whether it opened.
    pub pending: Option<PathView>,
}

impl WalkView {
    /// What the walk asks of the caller next.
    pub open spec fn expects(self) -> WalkAction {
        if self.pending is Some {
            WalkAction::Open
        } else if self.open.len() == 0 {
            WalkAction::Finished
        } else {
            WalkAction::Poll
        }
    }

    /// The walk after `event`, and what is emitted. An event that answers
    /// nothing the walk asked for changes nothing.
    pub open spec fn after(self, event: EventView) -> (WalkView, Emit) {
        match self.expects() {
            WalkAction::Open => match event {
                EventView::Opened => (
                    WalkView { open: self.open.push(self.pending.unwrap()), pending: None },
                    Emit::Entry,
                ),
                EventView::OpenFailed => (WalkView { open: self.open, pending: None }, Emit::Entry),
                _ => (self, Emit::Nothing),
            },
            WalkAction::Poll => match event {
                EventView::Entry { path, kind } => if kind == EntryKind::Directory {
                    (WalkView { open: self.open, pending: Some(path) }, Emit::Nothing)
                } else {
                    (self, Emit::Entry)
                },
                EventView::EntryFailed => (self, Emit::Error),
                EventView::Exhausted => (
                    WalkView { open: self.open.drop_last(), pending: None },
                    Emit::Nothing,
                ),
                _ => (self, Emit::Nothing),
            },
            WalkAction::Finished => (self, Emit::Nothing),
        }
    }
}

/// The root of a walk could not be opened.
#[derive(Debug, Clone, Copy, PartialEq, Eq, Structural)]
pub struct RootUnreadable;

/// A depth-first walk of one tree.
pub struct DeepReadDir {
    open: Vec<IndexPath>,
    pending: Option<IndexPath>,
}

impl View for DeepReadDir {
    type V = WalkView;

    closed spec fn view(&self) -> WalkView {
        WalkView {
            open: key_views(self.open@),
            pending: match self.pending {
                Some(path) => Some(path@),
                None => None,
            },
        }
    }
}

impl DeepReadDir {
    /// The walk of the tree below `path`, given whether the listing of `path`
    /// itself was opened. Where it was not, there is no walk.
    pub fn new(path: IndexPath, opened: bool) -> (walk: Result<DeepReadDir, RootUnreadable>)
        ensures
            match walk {
                Ok(walk) => opened && walk@ == (WalkView { open: seq![path@], pending: None }),
                Err(_) => !opened,
            },
    {
        if !opened {
            return Err(RootUnreadable);
        }
        let mut open: Vec<IndexPath> = Vec::new();
        open.push(path);
        let walk = DeepReadDir { open, pending: None };
        assert(walk@.open =~= seq![path@]);
        Ok(walk)
    }

    /// What the walk asks of the caller next.
    pub fn expects(&self) -> (action: WalkAction)
        ensures
            action == self@.expects(),
    {
        if self.pending.is_some() {
            WalkAction::Open
        } else if self.open.len() == 0 {
            WalkAction::Finished
        } else {
            WalkAction::Poll
        }
    }

    /// The number of listings that are open.
    pub fn depth(&self) -> (n: usize)
        ensures
            n == self@.open.len(),
    {
        self.open.len()
    }

    /// Takes in what the caller reports, and says what to emit.
    pub fn next(&mut self, event: WalkEvent) -> (emit: Emit)
        ensures
            (final(self)@, emit) == old(self)@.after(event@),
    {
        match self.expects() {
            WalkAction::Open => match event {
                WalkEvent::Opened => {
                    let folder = self.pending.take().unwrap();
                    self.open.push(folder);
                    assert(self@.open =~= old(self)@.open.push(old(self)@.pending.unwrap()));
                    Emit::Entry
                },
                WalkEvent::OpenFailed => {
                    self.pending = None;
                    Emit::Entry
                },
                _ => Emit::Nothing,
            },
            WalkAction::Poll => match event {
                WalkEvent::Entry { path, kind } => {
                    if kind == EntryKind::Directory {
                        self.pending = Some(path);
                        Emit::Nothing
                    } else {
                        Emit::Entry
                    }
                },
                WalkEvent::EntryFailed => Emit::Error,
                WalkEvent::Exhausted => {
                    self.open.pop();
                    assert(self@.open =~= old(self)@.open.drop_last());
                    Emit::Nothing
                },
                _ => Emit::Nothing,
            },
            WalkAction::Finished => Emit::Nothing,
        }
    }
}

} // verus!
