//! Request path to file inside the serve directory.
//!
//! Canonicalizing costs a lookup per path component. Where the system can open a
//! path without following any symlink, one open makes the same guarantee: with no
//! `..` and no symlink anywhere on it, the lexical path is the canonical one. A
//! path that does cross a symlink falls back to canonicalizing, which stays
//! authoritative.

use vstd::prelude::*;
use vstd::utf8::*;
use crate::path;
use crate::path::PathBytes;

verus! {

pub enum Resolved {
    /// Canonical path inside the root.
    Found(PathBytes),
    Missing,
    /// Canonical path, which lies outside the root.
    Escaped(PathBytes),
}

/// What `rel` names under the root.
pub fn target(root: &[u8], rel: &str) -> (p: PathBytes)
    ensures
        p@ == path::joined(root@, encode_utf8(rel@)),
{
    path::join(root, rel.as_bytes())
}

pub open spec fn with_index(target: Seq<u8>, index: Option<&str>, is_dir: bool) -> Seq<u8> {
    match index {
        Some(name) => if is_dir {
            path::joined(target, encode_utf8(name@))
        } else {
            target
        },
        None => target,
    }
}

/// What to canonicalize: a directory stands for its index, when one is given.
pub fn canonical_target(target: PathBytes, index: Option<&str>, is_dir: bool) -> (p: PathBytes)
    ensures
        p@ == with_index(target@, index, is_dir),
{
    match index {
        Some(name) => if is_dir {
            path::join(target.as_slice(), name.as_bytes())
        } else {
            target
        },
        None => target,
    }
}

/// What a canonical path means: missing, inside the root, or an escape.
pub fn resolve_canonical(root: &[u8], canonical: Option<PathBytes>) -> (r: Resolved)
    ensures
        match canonical {
            None => r is Missing,
            Some(p) => if path::within(p@, root@) {
                r == Resolved::Found(p)
            } else {
                r == Resolved::Escaped(p)
            },
        },
{
    match canonical {
        None => Resolved::Missing,
        Some(p) => if path::starts_with(p.as_slice(), root) {
            Resolved::Found(p)
        } else {
            Resolved::Escaped(p)
        },
    }
}

/// Why an open failed.
#[derive(Clone, Copy, PartialEq, Eq, Debug, Structural)]
pub enum OpenError {
    NoEntry,
    NotADirectory,
    /// The kernel has no such call, or a filter refuses it.
    Unsupported,
    /// Anything else, a symlink on the way among it.
    Other,
}

/// What opening a path without following symlinks came to.
#[derive(Clone, Copy, PartialEq, Eq, Debug, Structural)]
pub enum Probe {
    Failed(OpenError),
    Directory,
    RegularFile,
    /// Neither, or not to be known.
    Other,
}

/// The next step of the fast way.
pub enum Fast {
    /// Canonical path inside the root.
    Found(PathBytes),
    Missing,
    /// The directory's index is to be opened.
    OpenIndex(PathBytes),
    /// Canonicalize instead.
    Slow,
    /// Canonicalize instead, and from now on always.
    Unavailable,
}

pub enum FastView {
    Found(Seq<u8>),
    Missing,
    OpenIndex(Seq<u8>),
    Slow,
    Unavailable,
}

/// Where a probe of `target` leads.
pub open spec fn fast_step(
    root: Seq<u8>,
    target: Seq<u8>,
    index: Option<&str>,
    probe: Probe,
) -> FastView {
    match path::lexical_of(target) {
        None => FastView::Slow,
        Some(p) => match probe {
            Probe::Failed(OpenError::NoEntry) => FastView::Missing,
            Probe::Failed(OpenError::NotADirectory) => FastView::Missing,
            Probe::Failed(OpenError::Unsupported) => FastView::Unavailable,
            Probe::Failed(OpenError::Other) => FastView::Slow,
            Probe::Directory => match index {
                Some(name) => FastView::OpenIndex(path::joined(target, encode_utf8(name@))),
                None => FastView::Slow,
            },
            Probe::RegularFile => if path::lies_beneath(p, root) {
                FastView::Found(p)
            } else {
                FastView::Slow
            },
            Probe::Other => FastView::Slow,
        },
    }
}

/// Decides from one probe. For a directory's own index there is no further index:
/// a directory there is left to the slow way.
pub fn fast(root: &[u8], target: &[u8], index: Option<&str>, probe: Probe) -> (r: Fast)
    ensures
        match fast_step(root@, target@, index, probe) {
            FastView::Found(p) => r is Found && r->Found_0@ == p,
            FastView::Missing => r is Missing,
            FastView::OpenIndex(p) => r is OpenIndex && r->OpenIndex_0@ == p,
            FastView::Slow => r is Slow,
            FastView::Unavailable => r is Unavailable,
        },
{
    let p = match path::lexical(target) {
        Some(p) => p,
        None => {
            return Fast::Slow;
        },
    };
    match probe {
        Probe::Failed(OpenError::NoEntry) => Fast::Missing,
        Probe::Failed(OpenError::NotADirectory) => Fast::Missing,
        Probe::Failed(OpenError::Unsupported) => Fast::Unavailable,
        Probe::Failed(OpenError::Other) => Fast::Slow,
        Probe::Directory => match index {
            Some(name) => Fast::OpenIndex(path::join(target, name.as_bytes())),
            None => Fast::Slow,
        },
        Probe::RegularFile => if path::beneath(p.as_slice(), root) {
            Fast::Found(p)
        } else {
            Fast::Slow
        },
        Probe::Other => Fast::Slow,
    }
}

/// Whether the fast way may be tried at all: not for a path with a `..`, which
/// nothing would be opened for.
pub fn may_try_fast(target: &[u8]) -> (r: bool)
    ensures
        r == (path::lexical_of(target@) is Some),
{
    path::lexical(target).is_some()
}

/// The fast way confines as the slow way does: what it finds lies within the root,
/// and has the components of what was asked for.
pub proof fn law_fast_stays_within(
    root: Seq<u8>,
    target: Seq<u8>,
    index: Option<&str>,
    probe: Probe,
)
    requires
        path::absolute(root),
        path::lexical_of(root) == Some(root),
        path::absolute(target),
        fast_step(root, target, index, probe) is Found,
    ensures
        path::within(fast_step(root, target, index, probe)->Found_0, root),
        path::components(fast_step(root, target, index, probe)->Found_0) == path::components(
            target,
        ),
{
    let p = fast_step(root, target, index, probe)->Found_0;
    path::law_lexical_keeps_components(target);
    path::law_beneath_is_within(p, root);
}

/// A directory stands for its index where there is one, and everything else for itself.
pub proof fn law_directories_stand_for_their_index(target: Seq<u8>, name: &str, is_dir: bool)
    ensures
        with_index(target, Some(name), true) == path::joined(target, encode_utf8(name@)),
        with_index(target, Some(name), false) == target,
        with_index(target, None, is_dir) == target,
{
}

/// The fast way finds every regular file of the root that is asked for without `.` and
/// `..`: what it finds has the components that were asked for.
pub proof fn law_fast_finds_every_file(root: Seq<u8>, target: Seq<u8>, index: Option<&str>)
    requires
        path::absolute(root),
        path::lexical_of(root) == Some(root),
        path::absolute(target),
        path::within(target, root),
        forall|i: int|
            0 <= i < path::components(target).len() ==> #[trigger] path::components(target)[i]
                != seq![0x2eu8, 0x2eu8] && path::components(target)[i] != seq![0x2eu8],
    ensures
        fast_step(root, target, index, Probe::RegularFile) is Found,
        path::components(fast_step(root, target, index, Probe::RegularFile)->Found_0)
            == path::components(target),
{
    path::law_climbing_paths_have_no_lexical_form(target, 0);
    path::law_lexical_keeps_components(target);
    path::law_beneath_is_within(path::lexical_of(target)->0, root);
}

/// What the fast way says of everything else: a missing entry is missing, a directory
/// is answered by its index, and whatever is not certain is left to the slow way.
pub proof fn law_fast_says_only_what_is_certain(
    root: Seq<u8>,
    target: Seq<u8>,
    name: &str,
    index: Option<&str>,
)
    requires
        path::lexical_of(target) is Some,
    ensures
        fast_step(root, target, index, Probe::Failed(OpenError::NoEntry)) is Missing,
        fast_step(root, target, index, Probe::Failed(OpenError::NotADirectory)) is Missing,
        fast_step(root, target, index, Probe::Failed(OpenError::Unsupported)) is Unavailable,
        fast_step(root, target, index, Probe::Failed(OpenError::Other)) is Slow,
        fast_step(root, target, index, Probe::Other) is Slow,
        fast_step(root, target, None, Probe::Directory) is Slow,
        fast_step(root, target, Some(name), Probe::Directory) == FastView::OpenIndex(
            path::joined(target, encode_utf8(name@)),
        ),
{
}

/// A path that climbs is always left to the slow way.
pub proof fn law_climbing_paths_take_the_slow_way(
    root: Seq<u8>,
    target: Seq<u8>,
    index: Option<&str>,
    probe: Probe,
    k: int,
)
    requires
        path::absolute(target),
        0 <= k < path::components(target).len(),
        path::components(target)[k] == seq![0x2eu8, 0x2eu8],
    ensures
        fast_step(root, target, index, probe) is Slow,
{
    path::law_climbing_paths_have_no_lexical_form(target, k);
}

} // verus!
