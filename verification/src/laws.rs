//! Laws that relate several session operations, stated and proved over
//! the same models the operations' contracts use.

use crate::document::DocView;
use crate::path::{
    path_under, rebase_inj, rebase_path, seg_prefix_of, PathView,
};
use crate::store::open_or_get_map;
use vstd::prelude::*;

verus! {

/// Opening a document is idempotent: after `open_or_get` stored a
/// document under `p`, a second `open_or_get` under `p` changes nothing,
/// whatever document it offers; and when `p` was not open before the
/// first call, the stored document is the one the first call supplied.
/// (Either call also leaves the current file at `p`: that is part of
/// `open_or_get`'s own contract.)
pub proof fn lemma_open_or_get_idempotent(
    m: Map<PathView, DocView>,
    p: PathView,
    d: DocView,
    d2: DocView,
)
    ensures
        open_or_get_map(open_or_get_map(m, p, d), p, d2) == open_or_get_map(m, p, d),
        !m.dom().contains(p) ==> open_or_get_map(m, p, d)[p] == d,
{
    if !m.dom().contains(p) {
        assert(m.insert(p, d).dom().contains(p));
    }
}

/// Rename propagation preserves relative structure: a key under the
/// renamed root becomes the new root followed by the key's old suffix,
/// unchanged; every key outside the renamed root, the fallback key
/// included, is untouched.
pub proof fn lemma_rebase_structure(
    p: PathView,
    old_root: Seq<Seq<char>>,
    new_root: Seq<Seq<char>>,
)
    ensures
        path_under(p, old_root) ==> (p matches PathView::Resolved(s) && rebase_path(
            p,
            old_root,
            new_root,
        ) == PathView::Resolved(new_root + s.skip(old_root.len() as int))),
        !path_under(p, old_root) ==> rebase_path(p, old_root, new_root) == p,
{
}

/// Rename propagation keeps distinct keys distinct whenever every stored
/// key either lies under the renamed root or does not already lie under
/// the new root. Together with the rename contract this gives the law
/// that renaming a subtree preserves the number of open documents and
/// each document's content.
pub proof fn lemma_rebase_injective(
    dom: Set<PathView>,
    old_root: Seq<Seq<char>>,
    new_root: Seq<Seq<char>>,
)
    requires
        forall|p: PathView| #[trigger]
            dom.contains(p) ==> path_under(p, old_root) || !path_under(p, new_root),
    ensures
        rebase_inj(dom, old_root, new_root),
{
    let l = old_root.len() as int;
    assert forall|p1: PathView, p2: PathView|
        dom.contains(p1) && dom.contains(p2) && rebase_path(p1, old_root, new_root) == rebase_path(
            p2,
            old_root,
            new_root,
        ) implies p1 == p2 by {
        match (p1, p2) {
            (PathView::Resolved(s1), PathView::Resolved(s2)) => {
                if seg_prefix_of(old_root, s1) && seg_prefix_of(old_root, s2) {
                    assert(new_root + s1.skip(l) == new_root + s2.skip(l));
                    assert((new_root + s1.skip(l)).len() == (new_root + s2.skip(l)).len());
                    assert(s1.len() == s2.len());
                    assert forall|k: int| 0 <= k < s1.len() implies s1[k] == s2[k] by {
                        if k < l {
                            assert(old_root[k] == s1[k]);
                            assert(old_root[k] == s2[k]);
                        } else {
                            assert((new_root + s1.skip(l))[new_root.len() + k - l] == s1.skip(
                                l,
                            )[k - l]);
                            assert((new_root + s2.skip(l))[new_root.len() + k - l] == s2.skip(
                                l,
                            )[k - l]);
                            assert(s1.skip(l)[k - l] == s1[k]);
                            assert(s2.skip(l)[k - l] == s2[k]);
                        }
                    }
                    assert(s1 =~~= s2);
                } else if seg_prefix_of(old_root, s1) && !seg_prefix_of(old_root, s2) {
                    assert(s2 == new_root + s1.skip(l));
                    assert forall|k: int| 0 <= k < new_root.len() implies new_root[k] == s2[k] by {
                        assert((new_root + s1.skip(l))[k] == new_root[k]);
                    }
                    assert(seg_prefix_of(new_root, s2));
                    assert(path_under(p2, new_root));
                    assert(false);
                } else if !seg_prefix_of(old_root, s1) && seg_prefix_of(old_root, s2) {
                    assert(s1 == new_root + s2.skip(l));
                    assert forall|k: int| 0 <= k < new_root.len() implies new_root[k] == s1[k] by {
                        assert((new_root + s2.skip(l))[k] == new_root[k]);
                    }
                    assert(seg_prefix_of(new_root, s1));
                    assert(path_under(p1, new_root));
                    assert(false);
                }
            },
            (PathView::Resolved(_), PathView::Fallback) => {
                assert(rebase_path(p1, old_root, new_root) is Resolved);
                assert(rebase_path(p2, old_root, new_root) is Fallback);
            },
            (PathView::Fallback, PathView::Resolved(_)) => {
                assert(rebase_path(p1, old_root, new_root) is Fallback);
                assert(rebase_path(p2, old_root, new_root) is Resolved);
            },
            (PathView::Fallback, PathView::Fallback) => {},
        }
    }
}

} // verus!
