//! Which files a path to search stands for.
//!
//! A file stands for itself. A directory stands for the regular files in it:
//! for those directly in it, or, in a recursive search, for those at any
//! depth. Symbolic links are not followed and stand for nothing. The walk
//! itself happens outside this library: what it met comes in as a list of
//! entries, in the order of the walk.

use vstd::prelude::*;
use crate::error::{SearchError, SearchErrorView};
use crate::text::texts;

verus! {

/// What an entry of a walk is.
#[derive(Clone, Copy, Debug, PartialEq, Eq, Structural)]
pub enum EntryKind {
    /// A regular file.
    File,
    /// A directory.
    Directory,
    /// A symbolic link, whatever it points to.
    Symlink,
    /// Anything else.
    Other,
}

/// One entry that a walk met.
#[derive(Clone, Debug, PartialEq, Eq)]
pub struct Entry {
    /// The path of the entry.
    pub path: String,
    /// How far below the start of the walk the entry lies: 0 for the start
    /// itself, 1 for what is directly in it.
    pub depth: usize,
    /// What the entry is.
    pub kind: EntryKind,
}

/// How a path is to be walked.
#[derive(Clone, Copy, Debug, PartialEq, Eq)]
pub struct Traversal {
    /// The greatest depth to walk to, if there is one.
    pub max_depth: Option<usize>,
    /// Whether symbolic links are followed, the start of the walk included.
    pub follow_links: bool,
    /// Whether the entries of a directory are met in the order of their
    /// names, so that two walks of the same tree meet them in the same order.
    pub sort_by_name: bool,
}

/// How a path is to be walked in a search that is or is not recursive.
pub open spec fn traversal_of(recursive: bool) -> Traversal {
    Traversal {
        max_depth: if recursive {
            None
        } else {
            Some(1usize)
        },
        follow_links: false,
        sort_by_name: true,
    }
}

/// Whether a walk met the path that it started from.
pub open spec fn has_root(entries: Seq<Entry>) -> bool {
    entries.len() > 0 && entries[0].depth == 0
}

/// Whether an entry is a file to search.
pub open spec fn is_selected(entry: Entry, recursive: bool) -> bool {
    entry.kind == EntryKind::File && (recursive || entry.depth <= 1)
}

/// The paths of the files to search among the entries of a walk, in the
/// order of the walk.
pub open spec fn selected(entries: Seq<Entry>, recursive: bool) -> Seq<Seq<char>>
    decreases entries.len(),
{
    if entries.len() == 0 {
        Seq::empty()
    } else {
        let before = selected(entries.drop_last(), recursive);
        if is_selected(entries.last(), recursive) {
            before.push(entries.last().path@)
        } else {
            before
        }
    }
}

/// The test that keeps the entries which a walk to depth 1 meets.
pub open spec fn is_shallow() -> spec_fn(Entry) -> bool {
    |entry: Entry| entry.depth <= 1
}

/// How a path is to be walked.
pub fn traversal_for(recursive: bool) -> (t: Traversal)
    ensures
        t == traversal_of(recursive),
{
    Traversal {
        max_depth: if recursive {
            None
        } else {
            Some(1)
        },
        follow_links: false,
        sort_by_name: true,
    }
}

/// The files to search for the path `path`, given the entries that the walk
/// from `path` met. A walk that did not meet `path` itself found nothing
/// there.
pub fn resolve(path: &str, entries: &[Entry], recursive: bool) -> (r: Result<
    Vec<String>,
    SearchError,
>)
    ensures
        match r {
            Ok(files) => has_root(entries@) && texts(files@) == selected(entries@, recursive),
            Err(error) => !has_root(entries@) && error@ == SearchErrorView::PathNotFound(path@),
        },
{
    if entries.len() == 0 || entries[0].depth != 0 {
        return Err(SearchError::PathNotFound(path.to_owned()));
    }
    let mut files: Vec<String> = Vec::new();
    let mut i: usize = 0;
    assert(entries@.take(0) =~= Seq::<Entry>::empty());
    assert(texts(files@) =~= Seq::<Seq<char>>::empty());
    while i < entries.len()
        invariant
            i <= entries.len(),
            texts(files@) == selected(entries@.take(i as int), recursive),
        decreases entries.len() - i,
    {
        let entry = &entries[i];
        assert(entries@.take(i + 1).drop_last() =~= entries@.take(i as int));
        let chosen = match entry.kind {
            EntryKind::File => recursive || entry.depth <= 1,
            _ => false,
        };
        if chosen {
            let ghost before = texts(files@);
            files.push(entry.path.clone());
            assert(texts(files@) =~= before.push(entry.path@));
        }
        i += 1;
    }
    assert(entries@.take(entries.len() as int) =~= entries@);
    Ok(files)
}

/// Every file of a search that is not recursive is a file of the recursive
/// search over the same entries.
pub proof fn lemma_recursive_selects_more(entries: Seq<Entry>, path: Seq<char>)
    requires
        selected(entries, false).contains(path),
    ensures
        selected(entries, true).contains(path),
    decreases entries.len(),
{
    if entries.len() > 0 {
        let before = entries.drop_last();
        let last = entries.last();
        if selected(before, false).contains(path) {
            lemma_recursive_selects_more(before, path);
            let i = choose|i: int|
                0 <= i < selected(before, true).len() && selected(before, true)[i] == path;
            assert(selected(entries, true)[i] == path);
        } else {
            let shallow = selected(entries, false);
            let i = choose|i: int| 0 <= i < shallow.len() && shallow[i] == path;
            assert(is_selected(last, false));
            assert(i == shallow.len() - 1);
            let deep = selected(entries, true);
            assert(deep[deep.len() - 1] == path);
        }
    }
}

/// A search that is not recursive selects from a walk of any depth what it
/// selects from the walk to depth 1.
pub proof fn lemma_shallow_walk_suffices(entries: Seq<Entry>)
    ensures
        selected(entries.filter(is_shallow()), false) == selected(entries, false),
    decreases entries.len(),
{
    reveal(Seq::filter);
    if entries.len() > 0 {
        let before = entries.drop_last();
        lemma_shallow_walk_suffices(before);
        if is_shallow()(entries.last()) {
            assert(entries.filter(is_shallow()).drop_last() =~= before.filter(is_shallow()));
        }
    }
}

/// The files of a directory that a search visits without recursion, it visits
/// with recursion too: what is selected from the walk to depth 1 is selected
/// from the walk of the whole tree.
pub proof fn lemma_recursive_is_superset(entries: Seq<Entry>, path: Seq<char>)
    requires
        selected(entries.filter(is_shallow()), false).contains(path),
    ensures
        selected(entries, true).contains(path),
{
    lemma_shallow_walk_suffices(entries);
    lemma_recursive_selects_more(entries, path);
}

} // verus!
