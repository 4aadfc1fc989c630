//! What a console shows of the index: the lines of a listing, the other copies
//! of a file, and what counts as a yes.
use vstd::prelude::*;
use crate::index::{FileIndex, IndexView};
use crate::item::{FileIndexItem, ItemView};
use crate::order::{Key, Rank};
use crate::path::{IndexPath, PathView};
use crate::sorted::{ascending_seq, key_views, lemma_ascending_seq, lemma_take_step};

verus! {

/// What a listing shows of one item.
#[derive(Debug, Clone, Copy, PartialEq, Eq, Structural)]
pub enum ListingLine {
    /// A file, with the number of paths that hold its content.
    File { copies: usize },
    /// A folder, with the number of entries that it lists.
    Folder { entries: usize },
}

/// What a listing shows of `item`: of a file the number of its copies, of a
/// folder the number of its entries. A listing of duplicates shows only the
/// files with two copies or more.
pub open spec fn line_of(
    index: IndexView,
    item: ItemView,
    duplicates: bool,
) -> Option<ListingLine> {
    match item {
        ItemView::File { hash } => if !duplicates || index.instances(hash).len() > 1 {
            Some(ListingLine::File { copies: index.instances(hash).len() as usize })
        } else {
            None
        },
        ItemView::Folder { contents } => if !duplicates {
            Some(ListingLine::Folder { entries: contents.len() as usize })
        } else {
            None
        },
    }
}

/// What a listing shows of `item`.
pub fn listing_line(
    index: &FileIndex,
    item: &FileIndexItem,
    duplicates: bool,
) -> (line: Option<ListingLine>)
    ensures
        line == line_of(index@, item@, duplicates),
{
    match item {
        FileIndexItem::File { hash } => {
            let copies = index.file_instance_count(hash);
            if !duplicates || copies > 1 {
                Some(ListingLine::File { copies })
            } else {
                None
            }
        },
        FileIndexItem::Folder { contents } => {
            if !duplicates {
                Some(ListingLine::Folder { entries: contents.len() })
            } else {
                None
            }
        },
    }
}

/// The paths other than `path`.
pub open spec fn other_than(path: PathView) -> spec_fn(PathView) -> bool {
    |other: PathView| other != path
}

/// The other copies of the file at `path`: the paths that hold the same
/// content, in ascending order, without `path` itself. None where the index
/// holds no file at `path`.
pub open spec fn copies_beside(index: IndexView, path: PathView) -> Seq<PathView> {
    if index.paths_to_items.contains_key(path) && index.paths_to_items[path] is File {
        ascending_seq::<IndexPath>(index.instances(index.paths_to_items[path]->hash)).filter(
            other_than(path),
        )
    } else {
        Seq::empty()
    }
}

/// The other copies of the file at `path`.
pub fn other_copies(index: &FileIndex, path: &IndexPath) -> (copies: Vec<IndexPath>)
    ensures
        key_views(copies@) == copies_beside(index@, path@),
{
    let mut copies: Vec<IndexPath> = Vec::new();
    let hash = match index.get(path) {
        Some(FileIndexItem::File { hash }) => *hash,
        _ => {
            assert(key_views(copies@) =~= Seq::<PathView>::empty());
            return copies;
        },
    };
    let ghost members = ascending_seq::<IndexPath>(index@.instances(hash));
    proof {
        assert(members.take(0) =~= Seq::<PathView>::empty());
        assert(members.take(0).filter(other_than(path@)) =~= Seq::<PathView>::empty()) by {
            reveal_with_fuel(Seq::filter, 1);
        }
        assert(key_views(copies@) =~= members.take(0).filter(other_than(path@)));
    }
    match index.paths_of(&hash) {
        Some(paths) => {
            let n = paths.len();
            let mut i: usize = 0;
            while i < n
                invariant
                    i <= n,
                    n == members.len(),
                    members == ascending_seq::<IndexPath>(paths@),
                    key_views(copies@) == members.take(i as int).filter(other_than(path@)),
                decreases n - i,
            {
                let member = paths.get(i).unwrap();
                proof {
                    lemma_take_step(members, i as int);
                    Seq::lemma_filter_push(
                        members.take(i as int),
                        members[i as int],
                        other_than(path@),
                    );
                }
                let ghost before = key_views(copies@);
                if member.compare(path) != Rank::Same {
                    copies.push(member.duplicate());
                    assert(key_views(copies@) =~= before.push(member@));
                }
                i += 1;
            }
            assert(members.take(n as int) =~= members);
        },
        None => {
            proof {
                lemma_ascending_seq::<IndexPath>(Set::<PathView>::empty());
                assert(members.len() == 0);
                assert(members.take(0) =~= members);
            }
        },
    }
    copies
}

/// Whether an answer on the console is a yes: it begins with `y` or `Y`.
pub fn confirms(answer: &[char]) -> (yes: bool)
    ensures
        yes == (answer@.len() > 0 && (answer@[0] == 'y' || answer@[0] == 'Y')),
{
    answer.len() > 0 && (answer[0] == 'y' || answer[0] == 'Y')
}

} // verus!
