//! A tree on disk as a value, and what the walk of it emits.
//!
//! The disk is modelled by the tree that it holds: each listing gives its
//! entries in order and then ends, and a folder opens or does not. Against this
//! model the walk is run turn by turn, and shown to emit the tree in pre-order,
//! without what lies below the folders that do not open.
use vstd::prelude::*;
use crate::item::EntryKind;
use crate::path::PathView;
use crate::walk::{Emit, EventView, WalkAction, WalkView};

verus! {

/// An entry of a tree, with what lies below it.
pub struct DirNode {
    pub path: PathView,
    pub kind: EntryKind,
    /// Whether the listing of this entry can be opened, where it is a folder.
    pub opens: bool,
    /// What the listing of this entry holds, where it is a folder.
    pub entries: Seq<DirNode>,
}

/// An entry as the walk emits it.
pub struct Emitted {
    pub path: PathView,
    pub kind: EntryKind,
}

impl DirNode {
    /// The walk goes into this entry.
    pub open spec fn entered(self) -> bool {
        self.kind == EntryKind::Directory && self.opens
    }

    /// This entry as the walk emits it.
    pub open spec fn emitted(self) -> Emitted {
        Emitted { path: self.path, kind: self.kind }
    }
}

/// The entries from index `next` of a listing on, in pre-order: each entry, then
/// what lies below it where the walk goes into it, then the entries after it.
pub open spec fn pre_order(entries: Seq<DirNode>, next: int) -> Seq<Emitted>
    decreases entries, entries.len() - next,
{
    if 0 <= next < entries.len() {
        let node = entries[next];
        seq![node.emitted()] + (if node.entered() {
            pre_order(node.entries, 0)
        } else {
            Seq::empty()
        }) + pre_order(entries, next + 1)
    } else {
        Seq::empty()
    }
}

/// The number of entries from index `next` of a listing on, with all that lies
/// below them.
pub open spec fn entry_count(entries: Seq<DirNode>, next: int) -> nat
    decreases entries, entries.len() - next,
{
    if 0 <= next < entries.len() {
        1 + (if entries[next].kind == EntryKind::Directory {
            entry_count(entries[next].entries, 0)
        } else {
            0
        }) + entry_count(entries, next + 1)
    } else {
        0
    }
}

/// The number of entries, from index `next` of a listing on, that lie below a
/// folder that does not open.
pub open spec fn hidden_count(entries: Seq<DirNode>, next: int) -> nat
    decreases entries, entries.len() - next,
{
    if 0 <= next < entries.len() {
        let node = entries[next];
        (if node.kind == EntryKind::Directory {
            if node.opens {
                hidden_count(node.entries, 0)
            } else {
                entry_count(node.entries, 0)
            }
        } else {
            0
        }) + hidden_count(entries, next + 1)
    } else {
        0
    }
}

/// Every folder from index `next` of a listing on, and below, opens.
pub open spec fn all_open(entries: Seq<DirNode>, next: int) -> bool
    decreases entries, entries.len() - next,
{
    if 0 <= next < entries.len() {
        let node = entries[next];
        &&& node.kind == EntryKind::Directory ==> node.opens && all_open(node.entries, 0)
        &&& all_open(entries, next + 1)
    } else {
        true
    }
}

/// A listing that the disk holds open: its entries, and how many were read.
pub struct Listing {
    pub entries: Seq<DirNode>,
    pub next: int,
}

/// A walk in progress against a disk: the walk, the listings that the disk
/// holds open, outermost first, and what was emitted so far.
pub struct Run {
    pub walk: WalkView,
    pub listings: Seq<Listing>,
    pub emitted: Seq<Emitted>,
}

/// The listings after the disk has done what the walk asked.
pub open spec fn disk_after(listings: Seq<Listing>, action: WalkAction) -> Seq<Listing> {
    if listings.len() == 0 {
        listings
    } else {
        let top = listings.last();
        match action {
            WalkAction::Poll => if 0 <= top.next < top.entries.len() {
                listings.update(
                    listings.len() - 1,
                    Listing { entries: top.entries, next: top.next + 1 },
                )
            } else {
                listings.drop_last()
            },
            WalkAction::Open => if top.entries[top.next - 1].opens {
                listings.push(Listing { entries: top.entries[top.next - 1].entries, next: 0 })
            } else {
                listings
            },
            WalkAction::Finished => listings,
        }
    }
}

/// What the disk reports when it has done what the walk asked.
pub open spec fn disk_reports(listings: Seq<Listing>, action: WalkAction) -> EventView {
    if listings.len() == 0 {
        EventView::Exhausted
    } else {
        let top = listings.last();
        match action {
            WalkAction::Poll => if 0 <= top.next < top.entries.len() {
                EventView::Entry { path: top.entries[top.next].path, kind: top.entries[top.next].kind }
            } else {
                EventView::Exhausted
            },
            WalkAction::Open => if top.entries[top.next - 1].opens {
                EventView::Opened
            } else {
                EventView::OpenFailed
            },
            WalkAction::Finished => EventView::Exhausted,
        }
    }
}

/// The entry that the disk read last, as the walk emits it.
pub open spec fn last_read(listings: Seq<Listing>) -> Emitted {
    listings.last().entries[listings.last().next - 1].emitted()
}

/// One turn: the disk does what the walk asks and reports it, the walk takes
/// the report in, and what it says to emit is emitted.
pub open spec fn turn(run: Run) -> Run {
    let action = run.walk.expects();
    let event = disk_reports(run.listings, action);
    let (walk, emit) = run.walk.after(event);
    let read = match action {
        WalkAction::Poll => disk_after(run.listings, action),
        _ => run.listings,
    };
    Run {
        walk,
        listings: disk_after(run.listings, action),
        emitted: if emit == Emit::Entry {
            run.emitted.push(last_read(read))
        } else {
            run.emitted
        },
    }
}

/// `n` turns.
pub open spec fn turns(run: Run, n: nat) -> Run
    decreases n,
{
    if n == 0 {
        run
    } else {
        turns(turn(run), (n - 1) as nat)
    }
}

/// The number of turns that it takes to walk the entries of a listing from
/// index `next` on, and to see the listing end.
pub open spec fn turns_needed(entries: Seq<DirNode>, next: int) -> nat
    decreases entries, entries.len() - next,
{
    if 0 <= next < entries.len() {
        let node = entries[next];
        (if node.kind == EntryKind::Directory {
            2 + if node.opens {
                turns_needed(node.entries, 0)
            } else {
                0
            }
        } else {
            1nat
        }) + turns_needed(entries, next + 1)
    } else {
        1
    }
}

/// Turns add up.
pub proof fn lemma_turns_add(run: Run, a: nat, b: nat)
    ensures
        turns(run, a + b) == turns(turns(run, a), b),
    decreases a,
{
    if a > 0 {
        lemma_turns_add(turn(run), (a - 1) as nat, b);
    }
}

/// The walk is at rest on its innermost listing: it waits for no folder, and
/// it holds as many folders open as the disk holds listings.
pub open spec fn at_rest(run: Run) -> bool {
    &&& run.walk.pending is None
    &&& run.walk.open.len() == run.listings.len()
    &&& run.listings.len() > 0
    &&& 0 <= run.listings.last().next <= run.listings.last().entries.len()
}

/// From rest, the walk emits what is left of its innermost listing in
/// pre-order, and is then back in the listing around it.
pub proof fn lemma_walk_listing(run: Run)
    requires
        at_rest(run),
    ensures
        turns(run, turns_needed(run.listings.last().entries, run.listings.last().next)) == (Run {
            walk: WalkView { open: run.walk.open.drop_last(), pending: None },
            listings: run.listings.drop_last(),
            emitted: run.emitted + pre_order(
                run.listings.last().entries,
                run.listings.last().next,
            ),
        }),
    decreases run.listings.last().entries, run.listings.last().entries.len() - run.listings.last().next,
{
    let entries = run.listings.last().entries;
    let next = run.listings.last().next;
    let top = run.listings.len() - 1;
    if next < entries.len() {
        let node = entries[next];
        let read = Listing { entries, next: next + 1 };
        let first = turn(run);
        assert(first.listings == run.listings.update(top, read));
        let resumed = Run {
            walk: run.walk,
            listings: run.listings.update(top, read),
            emitted: run.emitted + seq![node.emitted()] + if node.entered() {
                pre_order(node.entries, 0)
            } else {
                Seq::empty()
            },
        };
        let spent: nat = if node.kind == EntryKind::Directory {
            2 + if node.opens {
                turns_needed(node.entries, 0)
            } else {
                0
            }
        } else {
            1nat
        };
        assert(turns(run, spent) == resumed) by {
            if node.kind == EntryKind::Directory {
                let second = turn(first);
                assert(first.walk == WalkView { open: run.walk.open, pending: Some(node.path) });
                assert(first.emitted == run.emitted);
                if node.opens {
                    let below = Listing { entries: node.entries, next: 0 };
                    assert(second.listings == first.listings.push(below));
                    assert(second.walk == WalkView {
                        open: run.walk.open.push(node.path),
                        pending: None,
                    });
                    assert(second.emitted == run.emitted.push(node.emitted()));
                    assert(second.listings.last() == below);
                    lemma_walk_listing(second);
                    let inner = turns_needed(node.entries, 0);
                    assert(second.listings.drop_last() =~= first.listings);
                    assert(second.walk.open.drop_last() =~= run.walk.open);
                    assert(run.emitted.push(node.emitted()) + pre_order(node.entries, 0)
                        =~= run.emitted + seq![node.emitted()] + pre_order(node.entries, 0));
                    assert(turns(second, inner) == resumed);
                    assert(turns(run, 2) == second) by {
                        reveal_with_fuel(turns, 3);
                    }
                    lemma_turns_add(run, 2, inner);
                } else {
                    assert(second.listings == first.listings);
                    assert(second.walk == run.walk);
                    assert(run.emitted.push(node.emitted()) =~= run.emitted + seq![
                        node.emitted(),
                    ] + Seq::<Emitted>::empty());
                    assert(second == resumed);
                    assert(turns(run, 2) == second) by {
                        reveal_with_fuel(turns, 3);
                    }
                }
            } else {
                assert(first.walk == run.walk);
                assert(run.emitted.push(node.emitted()) =~= run.emitted + seq![node.emitted()]
                    + Seq::<Emitted>::empty());
                assert(first == resumed);
                assert(turns(run, 1) == first) by {
                    reveal_with_fuel(turns, 2);
                }
            }
        }
        assert(resumed.listings.last() == read);
        lemma_walk_listing(resumed);
        let rest = turns_needed(entries, next + 1);
        lemma_turns_add(run, spent, rest);
        assert(resumed.listings.drop_last() =~= run.listings.drop_last());
        assert(resumed.emitted + pre_order(entries, next + 1) =~= run.emitted + pre_order(
            entries,
            next,
        ));
    } else {
        let first = turn(run);
        assert(run.emitted + pre_order(entries, next) =~= run.emitted);
        assert(turns(run, 1) == first) by {
            reveal_with_fuel(turns, 2);
        }
    }
}

/// The walk of a tree whose root opened emits the entries of the tree in
/// pre-order, each once, leaves out what lies below a folder that does not
/// open, and then ends.
pub proof fn lemma_walk_emits_pre_order(root: PathView, entries: Seq<DirNode>)
    ensures
        ({
            let start = Run {
                walk: WalkView { open: seq![root], pending: None },
                listings: seq![Listing { entries, next: 0 }],
                emitted: Seq::empty(),
            };
            let end = turns(start, turns_needed(entries, 0));
            &&& end.walk.expects() == WalkAction::Finished
            &&& end.emitted == pre_order(entries, 0)
        }),
{
    let start = Run {
        walk: WalkView { open: seq![root], pending: None },
        listings: seq![Listing { entries, next: 0 }],
        emitted: Seq::empty(),
    };
    lemma_walk_listing(start);
    assert(start.walk.open.drop_last() =~= Seq::<PathView>::empty());
    assert(Seq::<Emitted>::empty() + pre_order(entries, 0) =~= pre_order(entries, 0));
}

/// The walk emits as many entries as the tree holds, less those that lie
/// below a folder that does not open; where every folder opens, all of them.
pub proof fn lemma_pre_order_count(entries: Seq<DirNode>, next: int)
    ensures
        pre_order(entries, next).len() + hidden_count(entries, next) == entry_count(entries, next),
        all_open(entries, next) ==> hidden_count(entries, next) == 0,
    decreases entries, entries.len() - next,
{
    if 0 <= next < entries.len() {
        let node = entries[next];
        if node.kind == EntryKind::Directory {
            lemma_pre_order_count(node.entries, 0);
        }
        lemma_pre_order_count(entries, next + 1);
    }
}

} // verus!
