//! Paths below the data root, held as the sequence of their components.

use vstd::prelude::*;
use crate::text::same_text;

verus! {

/// Whether two component sequences hold the same names in the same order.
pub fn same_path(a: &Vec<String>, b: &Vec<String>) -> (same: bool)
    ensures
        same == (a.deep_view() == b.deep_view()),
{
    assert(a.deep_view().len() == a.len() && b.deep_view().len() == b.len());
    if a.len() != b.len() {
        return false;
    }
    assert(a.deep_view().take(a.len() as int) == a.deep_view());
    assert(b.deep_view().take(a.len() as int) == b.deep_view());
    same_prefix(a, b, a.len())
}

/// Whether the first `len` components of two paths agree.
pub(crate) fn same_prefix(a: &Vec<String>, b: &Vec<String>, len: usize) -> (same: bool)
    requires
        len <= a.len(),
        len <= b.len(),
    ensures
        same == (a.deep_view().take(len as int) == b.deep_view().take(len as int)),
{
    let mut i: usize = 0;
    while i < len
        invariant
            i <= len,
            len <= a.len(),
            len <= b.len(),
            a.deep_view().take(i as int) == b.deep_view().take(i as int),
        decreases len - i,
    {
        if !same_text(a[i].as_str(), b[i].as_str()) {
            assert(a.deep_view().take(len as int)[i as int] == a[i as int]@);
            assert(b.deep_view().take(len as int)[i as int] == b[i as int]@);
            return false;
        }
        assert(a.deep_view().take(i + 1) == a.deep_view().take(i as int).push(a[i as int]@));
        assert(b.deep_view().take(i + 1) == b.deep_view().take(i as int).push(b[i as int]@));
        i += 1;
    }
    true
}

/// A copy of the first `len` components of a path.
pub(crate) fn copy_prefix(path: &Vec<String>, len: usize) -> (copy: Vec<String>)
    requires
        len <= path.len(),
    ensures
        copy.deep_view() == path.deep_view().take(len as int),
{
    let mut copy: Vec<String> = Vec::new();
    let mut i: usize = 0;
    while i < len
        invariant
            i <= len,
            len <= path.len(),
            copy.len() == i,
            copy.deep_view() == path.deep_view().take(i as int),
        decreases len - i,
    {
        copy.push(path[i].clone());
        assert(copy.deep_view() == path.deep_view().take(i as int).push(path[i as int]@));
        assert(path.deep_view().take(i + 1) == path.deep_view().take(i as int).push(
            path[i as int]@,
        ));
        i += 1;
    }
    copy
}

/// A copy of a whole path.
pub fn copy_path(path: &Vec<String>) -> (copy: Vec<String>)
    ensures
        copy.deep_view() == path.deep_view(),
{
    let copy = copy_prefix(path, path.len());
    assert(path.deep_view().take(path.len() as int) == path.deep_view());
    copy
}

} // verus!
