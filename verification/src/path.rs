//! Paths as the matcher sees them: lower-cased text, relative to the root of
//! the library.

use crate::text::{ascii_lower, ascii_lowercase, strip_start};
use vstd::prelude::*;

verus! {

/// The path of a filesystem entry, as far as it can be put into text.
#[derive(Debug, Clone, PartialEq, Eq)]
pub enum PathName {
    /// The path is valid text.
    Text(String),
    /// The path holds what text cannot represent. The string is a lossy
    /// rendering of it, fit for a message and for nothing else.
    Garbled(String),
}

/// The part of a path that terms are matched against: the path in ASCII
/// lower case, without the root of the library in front of it. The root is
/// lower-cased too, so that it is found whatever the case of its letters. A
/// path that does not lie under the root is matched as a whole.
pub open spec fn relative_fragment(root: Seq<char>, path: Seq<char>) -> Seq<char> {
    let lowered = ascii_lower(path);
    let base = ascii_lower(root);
    if base.is_prefix_of(lowered) {
        lowered.skip(base.len() as int)
    } else {
        lowered
    }
}

/// Computes the fragment of `path` that terms are matched against.
pub fn fragment_of(root: &str, path: &str) -> (fragment: String)
    ensures
        fragment@ == relative_fragment(root@, path@),
{
    let lowered = ascii_lowercase(path);
    let base = ascii_lowercase(root);
    match strip_start(lowered.as_str(), base.as_str()) {
        Some(tail) => {
            assert(tail@ =~= lowered@.skip(base@.len() as int));
            assert(base@.is_prefix_of(lowered@)) by {
                assert(lowered@.subrange(0, base@.len() as int) =~= base@);
            }
            tail.to_owned()
        },
        None => lowered,
    }
}

/// The name under which a path is listed: the path without the root in
/// front of it and without the separator that follows the root. A path
/// that does not lie under the root loses its first character only.
pub open spec fn listed_name(root: Seq<char>, path: Seq<char>) -> Seq<char> {
    let rest = if root.is_prefix_of(path) {
        path.skip(root.len() as int)
    } else {
        path
    };
    if rest.len() > 0 {
        rest.skip(1)
    } else {
        rest
    }
}

/// Computes the name under which `path` is listed.
pub fn display_name(root: &str, path: &str) -> (name: String)
    ensures
        name@ == listed_name(root@, path@),
{
    let rest = match strip_start(path, root) {
        Some(tail) => {
            assert(tail@ =~= path@.skip(root@.len() as int));
            assert(root@.is_prefix_of(path@)) by {
                assert(path@.subrange(0, root@.len() as int) =~= root@);
            }
            tail
        },
        None => path,
    };
    let length = rest.unicode_len();
    if length > 0 {
        let name = rest.substring_char(1, length);
        assert(name@ =~= rest@.skip(1));
        name.to_owned()
    } else {
        rest.to_owned()
    }
}

/// The fragment of a path under the root is what follows the root, in lower case.
pub proof fn lemma_fragment_under_root(root: Seq<char>, rest: Seq<char>)
    ensures
        relative_fragment(root, root + rest) == ascii_lower(rest),
{
    let lowered = ascii_lower(root + rest);
    let base = ascii_lower(root);
    assert(lowered.subrange(0, base.len() as int) =~= base);
    assert(lowered.skip(base.len() as int) =~= ascii_lower(rest));
}

} // verus!
