//! Directory entries as the filesystem walk reports them, and the order in
//! which the walk must visit the entries of one directory.

use std::cmp::Ordering;
use vstd::prelude::*;
use crate::path::{copy_path, copy_prefix, same_prefix};
use crate::text::{
    compare_names, lemma_name_order_reverses, lemma_precedes_transitive, name_order, NameOrder,
};

verus! {

/// What an entry is on disk.
#[derive(Clone, Copy, Debug, PartialEq, Eq, Structural)]
pub enum EntryKind {
    File,
    Directory,
    /// Anything else: a device, a socket, a link that was not followed.
    Other,
}

/// One entry below the data root.
#[derive(Debug)]
pub struct DirectoryEntry {
    /// Components of the entry's path below the data root. The last one is
    /// the entry's own name; their number is the entry's depth.
    pub path: Vec<String>,
    pub kind: EntryKind,
    /// Whether the path itself is a symbolic link.
    pub symlink: bool,
}

/// Mathematical content of a [`DirectoryEntry`].
pub struct EntryView {
    pub path: Seq<Seq<char>>,
    pub kind: EntryKind,
    pub symlink: bool,
}

impl EntryView {
    /// The entry's own name, empty for the root itself.
    pub open spec fn name(self) -> Seq<char> {
        if self.path.len() > 0 {
            self.path.last()
        } else {
            Seq::empty()
        }
    }

    /// Path of the directory that holds the entry.
    pub open spec fn parent(self) -> Seq<Seq<char>> {
        if self.path.len() > 0 {
            self.path.drop_last()
        } else {
            Seq::empty()
        }
    }

    /// Children of the data root have depth 1.
    pub open spec fn depth(self) -> nat {
        self.path.len()
    }

    /// A regular file that is no link and lies below the root.
    pub open spec fn is_plain_file(self) -> bool {
        self.kind == EntryKind::File && !self.symlink && self.path.len() > 0
    }
}

impl View for DirectoryEntry {
    type V = EntryView;

    open spec fn view(&self) -> EntryView {
        EntryView { path: self.path.deep_view(), kind: self.kind, symlink: self.symlink }
    }
}

impl DeepView for DirectoryEntry {
    type V = EntryView;

    open spec fn deep_view(&self) -> EntryView {
        self@
    }
}

impl Clone for DirectoryEntry {
    fn clone(&self) -> (copy: Self)
        ensures
            copy@ == self@,
    {
        DirectoryEntry { path: copy_path(&self.path), kind: self.kind, symlink: self.symlink }
    }
}

impl DirectoryEntry {
    pub fn new(path: Vec<String>, kind: EntryKind, symlink: bool) -> (entry: Self)
        ensures
            entry@ == (EntryView { path: path.deep_view(), kind, symlink }),
    {
        DirectoryEntry { path, kind, symlink }
    }

    /// Name of the entry without the path that leads to it.
    pub fn file_name(&self) -> (name: &str)
        ensures
            name@ == self@.name(),
    {
        let n = self.path.len();
        if n == 0 {
            proof {
                reveal_strlit("");
            }
            ""
        } else {
            self.path[n - 1].as_str()
        }
    }

    pub fn depth(&self) -> (depth: usize)
        ensures
            depth == self@.depth(),
    {
        self.path.len()
    }

    pub fn is_file(&self) -> (file: bool)
        ensures
            file == (self@.kind == EntryKind::File),
    {
        match self.kind {
            EntryKind::File => true,
            _ => false,
        }
    }

    pub fn is_dir(&self) -> (dir: bool)
        ensures
            dir == (self@.kind == EntryKind::Directory),
    {
        match self.kind {
            EntryKind::Directory => true,
            _ => false,
        }
    }

    /// Path of the directory that holds the entry.
    pub fn parent_path(&self) -> (parent: Vec<String>)
        ensures
            parent.deep_view() == self@.parent(),
    {
        let n = self.path.len();
        if n == 0 {
            let parent: Vec<String> = Vec::new();
            assert(parent.deep_view() == Seq::<Seq<char>>::empty());
            parent
        } else {
            copy_prefix(&self.path, n - 1)
        }
    }

    /// Whether two entries lie at the same depth in the same directory.
    pub fn same_parent(&self, other: &DirectoryEntry) -> (same: bool)
        ensures
            same == (self@.depth() == other@.depth() && self@.parent() == other@.parent()),
    {
        let n = self.path.len();
        if n != other.path.len() {
            return false;
        }
        if n == 0 {
            return true;
        }
        same_prefix(&self.path, &other.path, n - 1)
    }
}

/// Where the walk puts `a` relative to `b` among the entries of one
/// directory: files come first, later names first; everything else follows,
/// earlier names first.
pub open spec fn walk_precedence(a: EntryView, b: EntryView) -> NameOrder {
    if a.kind == EntryKind::File {
        if b.kind == EntryKind::File {
            name_order(b.name(), a.name())
        } else {
            NameOrder::Before
        }
    } else {
        if b.kind == EntryKind::File {
            NameOrder::After
        } else {
            name_order(a.name(), b.name())
        }
    }
}

/// The walk order is a total order on the entries of one directory, which
/// sorting needs: an entry is level with itself; comparing two entries the
/// other way round reverses the outcome; what comes before something that
/// comes before a third comes before the third; and two entries are level
/// only where both are files or neither is and they have the same name.
pub proof fn lemma_walk_order_is_total(a: EntryView, b: EntryView, c: EntryView)
    ensures
        walk_precedence(a, a) == NameOrder::Same,
        walk_precedence(a, b) == NameOrder::Before <==> walk_precedence(b, a) == NameOrder::After,
        walk_precedence(a, b) == NameOrder::Same <==> walk_precedence(b, a) == NameOrder::Same,
        walk_precedence(a, b) == NameOrder::Same <==> a.name() == b.name() && (a.kind
            == EntryKind::File <==> b.kind == EntryKind::File),
        walk_precedence(a, b) == NameOrder::Before && walk_precedence(b, c) == NameOrder::Before
            ==> walk_precedence(a, c) == NameOrder::Before,
{
    lemma_name_order_reverses(a.name(), b.name());
    lemma_name_order_reverses(b.name(), a.name());
    lemma_name_order_reverses(a.name(), c.name());
    lemma_name_order_reverses(c.name(), a.name());
    lemma_name_order_reverses(b.name(), c.name());
    lemma_name_order_reverses(c.name(), b.name());
    lemma_name_order_reverses(a.name(), a.name());
    if walk_precedence(a, b) == NameOrder::Before && walk_precedence(b, c) == NameOrder::Before {
        if a.kind == EntryKind::File && b.kind == EntryKind::File && c.kind == EntryKind::File {
            lemma_precedes_transitive(c.name(), b.name(), a.name());
        } else if a.kind != EntryKind::File && b.kind != EntryKind::File && c.kind
            != EntryKind::File {
            lemma_precedes_transitive(a.name(), b.name(), c.name());
        }
    }
}

/// The same three outcomes in the vocabulary of the standard library.
pub open spec fn as_ordering(order: NameOrder) -> Ordering {
    match order {
        NameOrder::Before => Ordering::Less,
        NameOrder::Same => Ordering::Equal,
        NameOrder::After => Ordering::Greater,
    }
}

/// Comparison by which the entries of one directory are sorted before the
/// walk visits them.
pub fn walk_order(a: &DirectoryEntry, b: &DirectoryEntry) -> (order: Ordering)
    ensures
        order == as_ordering(walk_precedence(a@, b@)),
{
    let found = if a.is_file() {
        if b.is_file() {
            compare_names(b.file_name(), a.file_name())
        } else {
            NameOrder::Before
        }
    } else {
        if b.is_file() {
            NameOrder::After
        } else {
            compare_names(a.file_name(), b.file_name())
        }
    };
    match found {
        NameOrder::Before => Ordering::Less,
        NameOrder::Same => Ordering::Equal,
        NameOrder::After => Ordering::Greater,
    }
}

} // verus!
