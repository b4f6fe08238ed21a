//! The session: the open project root, the single current-file pointer,
//! the open documents and the dirty set, together with the event handlers
//! the editing surface and the file tree call. Every handler states how
//! the new session relates to the old one; lookups on paths that are not
//! open return an absent result, never an error.

use crate::document::{Cursor, DocView, FileData, ScrollOffset};
use crate::path::{rebase_inj, rebase_path, title_view, CanonPath, PathKey, PathView};
use crate::store::{open_or_get_map, DocMap, PathSet};
use vstd::prelude::*;

verus! {

/// The whole in-memory editor session.
pub struct State {
    /// Root directory of the currently open project.
    pub project_path: PathKey,
    /// The document shown in the editing surface; `None` when no file is
    /// open.
    pub current_file: Option<PathKey>,
    /// All open documents, keyed by canonical path.
    pub files: DocMap,
    /// Paths with unsaved changes.
    pub files_edited: PathSet,
}

impl State {
    /// Model of the current-file pointer.
    pub open spec fn current_key(&self) -> Option<PathView> {
        match self.current_file {
            Some(ref k) => Some(k@),
            None => None,
        }
    }

    /// The current-file pointer, defaulting to the fallback key; use only
    /// under `current_key() is Some`.
    pub open spec fn cur_path(&self) -> PathView {
        match self.current_file {
            Some(ref k) => k@,
            None => PathView::Fallback,
        }
    }

    /// There is a current file and a document is stored under it.
    pub open spec fn has_open_current(&self) -> bool {
        &&& self.current_key() is Some
        &&& self.files@.dom().contains(self.cur_path())
    }

    /// Both stores represent their models faithfully, and every dirty
    /// path is an open one: a closed document is never dirty.
    pub open spec fn wf(&self) -> bool {
        &&& self.files.wf()
        &&& self.files_edited.wf()
        &&& forall|p: PathView| #[trigger]
            self.files_edited@.contains(p) ==> self.files@.dom().contains(p)
    }

    /// The current-file pointer, if set, points at an open document.
    pub open spec fn current_in_files(&self) -> bool {
        self.current_key() is Some ==> self.files@.dom().contains(self.cur_path())
    }

    /// The path has unsaved changes. Presence in the dirty set is the
    /// source of truth; paths that were never opened are never dirty.
    pub fn is_file_edited(&self, path: &PathKey) -> (r: bool)
        ensures
            r == self.files_edited@.contains(path@),
    {
        self.files_edited.contains(path)
    }

    /// The current file has unsaved changes; with no current file,
    /// nothing is dirty.
    pub fn is_current_file_edited(&self) -> (r: bool)
        ensures
            r == (self.current_key() is Some && self.files_edited@.contains(self.cur_path())),
    {
        match &self.current_file {
            Some(k) => self.files_edited.contains(k),
            None => false,
        }
    }

    /// Read-only lookup of an open document.
    pub fn get_file(&self, path: &PathKey) -> (r: Option<&FileData>)
        requires
            self.wf(),
        ensures
            (match r {
                Some(d) => self.files@.dom().contains(path@) && d@ == self.files@[path@],
                None => !self.files@.dom().contains(path@),
            }),
    {
        self.files.get(path)
    }

    /// Read-only lookup of the current document; `None` when no file is
    /// open or its document is not stored.
    pub fn get_current_file(&self) -> (r: Option<&FileData>)
        requires
            self.wf(),
        ensures
            (match r {
                Some(d) => self.has_open_current() && d@ == self.files@[self.cur_path()],
                None => !self.has_open_current(),
            }),
    {
        match &self.current_file {
            Some(k) => self.files.get(k),
            None => None,
        }
    }

    /// Close a document: remove it from the open documents and the dirty
    /// set, and clear the current-file pointer when it pointed at it. A
    /// no-op on a path that was never open.
    pub fn remove_file(&mut self, path: &PathKey)
        requires
            old(self).wf(),
        ensures
            final(self).wf(),
            final(self).files@ == old(self).files@.remove(path@),
            final(self).files_edited@ == old(self).files_edited@.remove(path@),
            final(self).current_key() == (if old(self).current_key() == Some(path@) {
                None::<PathView>
            } else {
                old(self).current_key()
            }),
            final(self).project_path@ == old(self).project_path@,
    {
        self.files.remove(path);
        self.files_edited.remove(path);
        let clear = match &self.current_file {
            Some(current_file) => current_file.key_eq(path),
            None => false,
        };
        if clear {
            self.current_file = None;
        }
    }

    /// Open a project: set the project root and point the current file at
    /// the given one, or clear it. The open documents and the dirty set
    /// are untouched; the caller populates the document itself when the
    /// file's content is not yet loaded.
    pub fn open_new_project(&mut self, project_path: PathKey, current_file: Option<PathKey>)
        requires
            old(self).wf(),
        ensures
            final(self).wf(),
            final(self).project_path@ == project_path@,
            final(self).current_key() == (match current_file {
                Some(ref k) => Some(k@),
                None => None::<PathView>,
            }),
            final(self).files@ == old(self).files@,
            final(self).files_edited@ == old(self).files_edited@,
    {
        self.project_path = project_path;
        self.current_file = current_file;
    }

    /// Open a file freshly read from disk: store its document,
    /// overwriting any buffered one, and make it current.
    pub fn open_new_file(&mut self, current_file: PathKey, content: FileData)
        requires
            old(self).wf(),
        ensures
            final(self).wf(),
            final(self).files@ == old(self).files@.insert(current_file@, content@),
            final(self).current_key() == Some(current_file@),
            final(self).current_in_files(),
            final(self).files_edited@ == old(self).files_edited@,
            final(self).project_path@ == old(self).project_path@,
    {
        self.files.insert(&current_file, content);
        self.current_file = Some(current_file);
    }

    /// Open a document and make it current; when one is already buffered
    /// under the path, the stored document is left untouched.
    pub fn open_or_get(&mut self, path: PathKey, initial: FileData)
        requires
            old(self).wf(),
        ensures
            final(self).wf(),
            final(self).files@ == open_or_get_map(old(self).files@, path@, initial@),
            final(self).current_key() == Some(path@),
            final(self).current_in_files(),
            final(self).files_edited@ == old(self).files_edited@,
            final(self).project_path@ == old(self).project_path@,
    {
        self.files.insert_if_absent(&path, initial);
        self.current_file = Some(path);
    }

    /// Mark the path as having unsaved changes; a no-op on a path with no
    /// open document, so a closed document can never become dirty.
    pub fn mark_dirty(&mut self, path: &PathKey)
        requires
            old(self).wf(),
        ensures
            final(self).wf(),
            final(self).files_edited@ == (if old(self).files@.dom().contains(path@) {
                old(self).files_edited@.insert(path@)
            } else {
                old(self).files_edited@
            }),
            final(self).files@ == old(self).files@,
            final(self).current_key() == old(self).current_key(),
            final(self).project_path@ == old(self).project_path@,
    {
        let open = self.files.get(path).is_some();
        if open {
            self.files_edited.insert(path);
        }
    }

    /// Clear the path's unsaved-changes mark, as the persistence layer
    /// does after a successful save. A no-op when the path is not dirty.
    pub fn clear_dirty(&mut self, path: &PathKey)
        requires
            old(self).wf(),
        ensures
            final(self).wf(),
            final(self).files_edited@ == old(self).files_edited@.remove(path@),
            final(self).files@ == old(self).files@,
            final(self).current_key() == old(self).current_key(),
            final(self).project_path@ == old(self).project_path@,
    {
        self.files_edited.remove(path);
    }

    /// The editing surface reports an edit: overwrite the current
    /// document's content, scroll offset and cursor, mark it dirty, and
    /// hand back the title to display, the file name with the `" *"`
    /// marker. With no current file, or no document stored under it,
    /// nothing changes and no title is produced. This is the only handler
    /// that changes dirty state.
    pub fn on_edit(&mut self, content: String, scroll_offset: ScrollOffset, cursor: Cursor) -> (title: Option<
        String,
    >)
        requires
            old(self).wf(),
        ensures
            final(self).wf(),
            final(self).current_key() == old(self).current_key(),
            final(self).project_path@ == old(self).project_path@,
            old(self).has_open_current() ==> {
                let p = old(self).cur_path();
                &&& final(self).files@ == old(self).files@.insert(
                    p,
                    (DocView { content: content@, scroll_offset, cursor }),
                )
                &&& final(self).files_edited@ == old(self).files_edited@.insert(p)
                &&& title matches Some(t) && t@ == title_view(p)
            },
            !old(self).has_open_current() ==> final(self).files@ == old(self).files@
                && final(self).files_edited@ == old(self).files_edited@ && title is None,
    {
        match &self.current_file {
            Some(current_file) => {
                let present = self.files.get(current_file).is_some();
                if present {
                    self.files.insert(
                        current_file,
                        FileData { content, scroll_offset, cursor },
                    );
                    self.files_edited.insert(current_file);
                    Some(current_file.title())
                } else {
                    None
                }
            },
            None => None,
        }
    }

    /// The editing surface reports a cursor or selection move with no
    /// text change: update only the current document's scroll offset and
    /// cursor. Content and dirty state are untouched; a no-op with no
    /// current file or no document stored under it.
    pub fn on_interact(&mut self, scroll_offset: ScrollOffset, cursor: Cursor)
        requires
            old(self).wf(),
        ensures
            final(self).wf(),
            final(self).current_key() == old(self).current_key(),
            final(self).project_path@ == old(self).project_path@,
            final(self).files_edited@ == old(self).files_edited@,
            old(self).has_open_current() ==> {
                let p = old(self).cur_path();
                final(self).files@ == old(self).files@.insert(
                    p,
                    (DocView { content: old(self).files@[p].content, scroll_offset, cursor }),
                )
            },
            !old(self).has_open_current() ==> final(self).files@ == old(self).files@,
    {
        match &self.current_file {
            Some(current_file) => {
                let kept = match self.files.get(current_file) {
                    Some(d) => Some(d.content.clone()),
                    None => None,
                };
                match kept {
                    Some(content) => {
                        self.files.insert(
                            current_file,
                            FileData { content, scroll_offset, cursor },
                        );
                    },
                    None => {},
                }
            },
            None => {},
        }
    }

    /// The editing surface reports a scroll: update only the current
    /// document's scroll offset. Content, cursor and dirty state are
    /// untouched; a no-op with no current file or no document stored
    /// under it.
    pub fn on_scroll(&mut self, scroll_offset: ScrollOffset)
        requires
            old(self).wf(),
        ensures
            final(self).wf(),
            final(self).current_key() == old(self).current_key(),
            final(self).project_path@ == old(self).project_path@,
            final(self).files_edited@ == old(self).files_edited@,
            old(self).has_open_current() ==> {
                let p = old(self).cur_path();
                final(self).files@ == old(self).files@.insert(
                    p,
                    (DocView {
                        content: old(self).files@[p].content,
                        scroll_offset,
                        cursor: old(self).files@[p].cursor,
                    }),
                )
            },
            !old(self).has_open_current() ==> final(self).files@ == old(self).files@,
    {
        match &self.current_file {
            Some(current_file) => {
                let kept = match self.files.get(current_file) {
                    Some(d) => Some((d.content.clone(), d.cursor)),
                    None => None,
                };
                match kept {
                    Some((content, cursor)) => {
                        self.files.insert(
                            current_file,
                            FileData { content, scroll_offset, cursor },
                        );
                    },
                    None => {},
                }
            },
            None => {},
        }
    }

    /// Propagate an external rename of the subtree under `old_parent` to
    /// `new_parent`: rebuild the open documents, the dirty set, the
    /// current-file pointer and the project root, replacing the
    /// `old_parent` prefix, whole segments only, and leaving every other
    /// path untouched. No entry is dropped: the new key set of the open
    /// documents is exactly the image of the old one, and when rebasing
    /// maps no two old keys to one key, the document count is preserved
    /// and every document keeps its content.
    pub fn update_paths_after_rename(&mut self, old_parent: &CanonPath, new_parent: &CanonPath)
        requires
            old(self).wf(),
        ensures
            final(self).wf(),
            forall|q: PathView|
                #![trigger final(self).files@.dom().contains(q)]
                final(self).files@.dom().contains(q) <==> exists|p: PathView|
                    #![trigger rebase_path(p, old_parent@, new_parent@)]
                    old(self).files@.dom().contains(p) && q == rebase_path(
                        p,
                        old_parent@,
                        new_parent@,
                    ),
            forall|q: PathView|
                #![trigger final(self).files@[q]]
                final(self).files@.dom().contains(q) ==> exists|p: PathView|
                    #![trigger rebase_path(p, old_parent@, new_parent@)]
                    old(self).files@.dom().contains(p) && q == rebase_path(
                        p,
                        old_parent@,
                        new_parent@,
                    ) && final(self).files@[q] == old(self).files@[p],
            rebase_inj(old(self).files@.dom(), old_parent@, new_parent@) ==> (forall|p: PathView|
                #![trigger rebase_path(p, old_parent@, new_parent@)]
                old(self).files@.dom().contains(p) ==> final(self).files@.dom().contains(
                    rebase_path(p, old_parent@, new_parent@),
                ) && final(self).files@[rebase_path(p, old_parent@, new_parent@)]
                    == old(self).files@[p]),
            rebase_inj(old(self).files@.dom(), old_parent@, new_parent@)
                ==> final(self).files@.dom().len() == old(self).files@.dom().len(),
            forall|q: PathView|
                #![trigger final(self).files_edited@.contains(q)]
                final(self).files_edited@.contains(q) <==> exists|p: PathView|
                    #![trigger rebase_path(p, old_parent@, new_parent@)]
                    old(self).files_edited@.contains(p) && q == rebase_path(
                        p,
                        old_parent@,
                        new_parent@,
                    ),
            final(self).current_key() == (match old(self).current_key() {
                Some(p) => Some(rebase_path(p, old_parent@, new_parent@)),
                None => None::<PathView>,
            }),
            final(self).project_path@ == rebase_path(
                old(self).project_path@,
                old_parent@,
                new_parent@,
            ),
    {
        self.files.rebase_all(old_parent, new_parent);
        self.files_edited.rebase_all(old_parent, new_parent);
        self.current_file = match &self.current_file {
            Some(current_file) => Some(current_file.duplicate().rebase(old_parent, new_parent)),
            None => None,
        };
        self.project_path = self.project_path.duplicate().rebase(old_parent, new_parent);
    }
}

impl Default for State {
    /// The defined-empty session built once at startup: fallback project
    /// root, no current file, no open documents, nothing dirty.
    fn default() -> (r: State)
        ensures
            r.wf(),
            r.project_path@ == PathView::Fallback,
            r.current_key() == None::<PathView>,
            r.files@ == Map::<PathView, DocView>::empty(),
            r.files_edited@ == Set::<PathView>::empty(),
    {
        State {
            project_path: PathKey::Fallback,
            current_file: None,
            files: DocMap::new(),
            files_edited: PathSet::new(),
        }
    }
}

} // verus!
