//! Canonical path keys.
//!
//! A file is always addressed by one key. Canonicalization itself touches
//! the filesystem and is performed by the caller; this module models its
//! outcome: either a resolved canonical path, held as its segments, or the
//! deterministic fallback used when a path could not be resolved. Keys
//! carry the segment structure so that a rename of a directory subtree can
//! be propagated by matching whole segments, never by naive string prefix.

use vstd::prelude::*;
use vstd::string::StringExecFns;

verus! {

/// A canonical (absolute, symlink-resolved) path, held as its segments in
/// order, the root directory being the empty sequence.
pub struct CanonPath {
    pub segments: Vec<String>,
}

impl View for CanonPath {
    type V = Seq<Seq<char>>;

    open spec fn view(&self) -> Seq<Seq<char>> {
        self.segments@.map_values(|s: String| s@)
    }
}

/// Key under which a document is stored: the canonical path when the
/// caller could resolve one, or the fallback key when resolution failed
/// (missing file, cyclic symlink). The fallback is a single shared key;
/// it never denotes the path the caller started from.
pub enum PathKey {
    Resolved(CanonPath),
    Fallback,
}

/// Mathematical model of a [`PathKey`].
#[verifier::ext_equal]
pub enum PathView {
    Resolved(Seq<Seq<char>>),
    Fallback,
}

impl View for PathKey {
    type V = PathView;

    open spec fn view(&self) -> PathView {
        match self {
            PathKey::Resolved(p) => PathView::Resolved(p@),
            PathKey::Fallback => PathView::Fallback,
        }
    }
}

/// `pre` is a whole-segment prefix of `s` (so `/foo` is a prefix of
/// `/foo/bar` but not of `/foo2`).
pub open spec fn seg_prefix_of(pre: Seq<Seq<char>>, s: Seq<Seq<char>>) -> bool {
    &&& pre.len() <= s.len()
    &&& forall|i: int| 0 <= i < pre.len() ==> pre[i] == #[trigger] s[i]
}

/// Replace the `old_root` segment prefix of `s` by `new_root`, keeping the
/// remainder unchanged; leave `s` untouched when `old_root` is not a
/// whole-segment prefix of it.
pub open spec fn rebase_segs(
    s: Seq<Seq<char>>,
    old_root: Seq<Seq<char>>,
    new_root: Seq<Seq<char>>,
) -> Seq<Seq<char>> {
    if seg_prefix_of(old_root, s) {
        new_root + s.skip(old_root.len() as int)
    } else {
        s
    }
}

/// Rebasing lifted to path keys: the fallback key never follows a rename.
pub open spec fn rebase_path(
    p: PathView,
    old_root: Seq<Seq<char>>,
    new_root: Seq<Seq<char>>,
) -> PathView {
    match p {
        PathView::Resolved(s) => PathView::Resolved(rebase_segs(s, old_root, new_root)),
        PathView::Fallback => PathView::Fallback,
    }
}

/// The key denotes `root` itself or a descendant of it.
pub open spec fn path_under(p: PathView, root: Seq<Seq<char>>) -> bool {
    p matches PathView::Resolved(s) && seg_prefix_of(root, s)
}

/// Rebasing from `old_root` to `new_root` maps no two keys of `dom` to the
/// same key.
pub open spec fn rebase_inj(
    dom: Set<PathView>,
    old_root: Seq<Seq<char>>,
    new_root: Seq<Seq<char>>,
) -> bool {
    forall|p1: PathView, p2: PathView|
        dom.contains(p1) && dom.contains(p2) && rebase_path(p1, old_root, new_root)
            == rebase_path(p2, old_root, new_root) ==> p1 == p2
}

/// Name of the file the key denotes: its last segment, or the empty
/// sequence for the root and for the fallback key.
pub open spec fn file_name_view(p: PathView) -> Seq<char> {
    match p {
        PathView::Resolved(s) => if s.len() > 0 {
            s.last()
        } else {
            Seq::empty()
        },
        PathView::Fallback => Seq::empty(),
    }
}

/// Title shown for an edited document: the file name with the literal
/// trailing `" *"` marker.
pub open spec fn title_view(p: PathView) -> Seq<char> {
    file_name_view(p) + " *"@
}

impl CanonPath {
    /// Segment-by-segment equality, deciding equality of the models.
    pub fn seg_eq(&self, other: &CanonPath) -> (r: bool)
        ensures
            r == (self@ == other@),
    {
        if self.segments.len() != other.segments.len() {
            proof {
                assert(self@.len() == self.segments@.len());
                assert(other@.len() == other.segments@.len());
            }
            return false;
        }
        let n = self.segments.len();
        let mut i: usize = 0;
        while i < n
            invariant
                n == self.segments@.len(),
                n == other.segments@.len(),
                i <= n,
                forall|j: int| 0 <= j < i ==> self.segments@[j]@ == other.segments@[j]@,
            decreases n - i,
        {
            let eq = self.segments[i].eq(&other.segments[i]);
            if !eq {
                proof {
                    if self@ == other@ {
                        assert(self@[i as int] == other@[i as int]);
                    }
                }
                return false;
            }
            i += 1;
        }
        proof {
            assert(self@ =~~= other@);
        }
        true
    }

    /// A copy with the same model.
    pub fn duplicate(&self) -> (r: CanonPath)
        ensures
            r@ == self@,
    {
        let mut segments: Vec<String> = Vec::new();
        let mut i: usize = 0;
        while i < self.segments.len()
            invariant
                i <= self.segments@.len(),
                segments@.len() == i,
                forall|j: int| 0 <= j < i ==> segments@[j]@ == self.segments@[j]@,
            decreases self.segments@.len() - i,
        {
            segments.push(self.segments[i].clone());
            i += 1;
        }
        let r = CanonPath { segments };
        proof {
            assert(r@ =~~= self@);
        }
        r
    }

    /// `pre` is a whole-segment prefix of `self`.
    pub fn starts_with(&self, pre: &CanonPath) -> (r: bool)
        ensures
            r == seg_prefix_of(pre@, self@),
    {
        if pre.segments.len() > self.segments.len() {
            return false;
        }
        let n = pre.segments.len();
        let mut i: usize = 0;
        while i < n
            invariant
                n == pre.segments@.len(),
                n <= self.segments@.len(),
                i <= n,
                forall|j: int| 0 <= j < i ==> pre.segments@[j]@ == self.segments@[j]@,
            decreases n - i,
        {
            let eq = pre.segments[i].eq(&self.segments[i]);
            if !eq {
                proof {
                    if seg_prefix_of(pre@, self@) {
                        assert(pre@[i as int] == self@[i as int]);
                    }
                }
                return false;
            }
            i += 1;
        }
        true
    }

    /// Rebase `self` from `old_root` to `new_root`, whole segments only:
    /// if `old_root` is a segment prefix, the result is `new_root` followed
    /// by the remaining segments; otherwise `self` is returned unchanged.
    pub fn rebase(self, old_root: &CanonPath, new_root: &CanonPath) -> (r: CanonPath)
        ensures
            r@ == rebase_segs(self@, old_root@, new_root@),
    {
        if !self.starts_with(old_root) {
            return self;
        }
        let dup = new_root.duplicate();
        proof {
            assert(dup@.len() == dup.segments@.len());
            assert(new_root@.len() == new_root.segments@.len());
            assert(dup.segments@.len() == new_root.segments@.len());
            assert forall|j: int| 0 <= j < dup.segments@.len() implies dup.segments@[j]@
                == new_root.segments@[j]@ by {
                assert(dup@[j] == new_root@[j]);
            }
        }
        let mut segments: Vec<String> = dup.segments;
        let mut i: usize = old_root.segments.len();
        while i < self.segments.len()
            invariant
                old_root.segments@.len() <= i <= self.segments@.len(),
                seg_prefix_of(old_root@, self@),
                segments@.len() == new_root.segments@.len() + i - old_root.segments@.len(),
                forall|j: int|
                    0 <= j < new_root.segments@.len() ==> #[trigger] segments@[j]@
                        == new_root.segments@[j]@,
                forall|j: int|
                    new_root.segments@.len() <= j < segments@.len() ==> #[trigger] segments@[j]@
                        == self.segments@[old_root.segments@.len() + j
                        - new_root.segments@.len()]@,
            decreases self.segments@.len() - i,
        {
            segments.push(self.segments[i].clone());
            i += 1;
        }
        let r = CanonPath { segments };
        proof {
            let l = old_root@.len() as int;
            let rhs = new_root@ + self@.skip(l);
            assert(r@.len() == rhs.len());
            assert forall|j: int| 0 <= j < r@.len() implies r@[j] == rhs[j] by {
                if j < new_root@.len() {
                    assert(r@[j] == segments@[j]@);
                } else {
                    assert(r@[j] == self.segments@[l + j - new_root@.len()]@);
                    assert(rhs[j] == self@.skip(l)[j - new_root@.len()]);
                }
            }
            assert(r@ =~~= rhs);
        }
        r
    }
}

impl PathKey {
    /// Equality of keys, deciding equality of the models; the fallback key
    /// equals only itself.
    pub fn key_eq(&self, other: &PathKey) -> (r: bool)
        ensures
            r == (self@ == other@),
    {
        match (self, other) {
            (PathKey::Resolved(a), PathKey::Resolved(b)) => a.seg_eq(b),
            (PathKey::Fallback, PathKey::Fallback) => true,
            _ => false,
        }
    }

    /// A copy with the same model.
    pub fn duplicate(&self) -> (r: PathKey)
        ensures
            r@ == self@,
    {
        match self {
            PathKey::Resolved(p) => PathKey::Resolved(p.duplicate()),
            PathKey::Fallback => PathKey::Fallback,
        }
    }

    /// Rebase the key from `old_root` to `new_root`; the fallback key and
    /// keys outside `old_root` are returned unchanged.
    pub fn rebase(self, old_root: &CanonPath, new_root: &CanonPath) -> (r: PathKey)
        ensures
            r@ == rebase_path(self@, old_root@, new_root@),
    {
        match self {
            PathKey::Resolved(p) => PathKey::Resolved(p.rebase(old_root, new_root)),
            PathKey::Fallback => PathKey::Fallback,
        }
    }

    /// Display title for the document under this key once it has unsaved
    /// edits: its file name followed by the literal `" *"` marker.
    pub fn title(&self) -> (r: String)
        ensures
            r@ == title_view(self@),
    {
        let mut t: String = match self {
            PathKey::Resolved(p) => {
                if p.segments.len() > 0 {
                    p.segments[p.segments.len() - 1].clone()
                } else {
                    String::new()
                }
            },
            PathKey::Fallback => String::new(),
        };
        t.append(" *");
        t
    }
}

} // verus!
