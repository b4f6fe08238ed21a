use editor_session::document::{Cursor, FileData, ScrollOffset};
use editor_session::path::{CanonPath, PathKey};
use editor_session::session::State;

fn cpath(segs: &[&str]) -> CanonPath {
    CanonPath { segments: segs.iter().map(|s| s.to_string()).collect() }
}

fn key(segs: &[&str]) -> PathKey {
    PathKey::Resolved(cpath(segs))
}

fn doc(content: &str) -> FileData {
    FileData {
        content: content.to_string(),
        scroll_offset: ScrollOffset { x: 0, y: 0 },
        cursor: Cursor { row: 0, column: 0 },
    }
}

#[test]
fn rename_preserves_structure_and_leaves_outsiders() {
    let mut st = State::default();
    st.open_new_project(key(&["proj"]), None);
    st.open_or_get(key(&["proj", "src", "a.txt"]), doc("a"));
    st.open_or_get(key(&["proj", "src", "b.txt"]), doc("b"));
    st.open_or_get(key(&["other", "c.txt"]), doc("c"));
    st.update_paths_after_rename(&cpath(&["proj"]), &cpath(&["work"]));
    assert_eq!(st.get_file(&key(&["work", "src", "a.txt"])).expect("moved").content, "a");
    assert_eq!(st.get_file(&key(&["work", "src", "b.txt"])).expect("moved").content, "b");
    assert_eq!(st.get_file(&key(&["other", "c.txt"])).expect("untouched").content, "c");
    assert!(st.get_file(&key(&["proj", "src", "a.txt"])).is_none());
    assert!(st.get_file(&key(&["proj", "src", "b.txt"])).is_none());
}

#[test]
fn rename_matches_whole_segments_only() {
    let mut st = State::default();
    st.open_or_get(key(&["foo2", "x.txt"]), doc("x"));
    st.open_or_get(key(&["foo", "y.txt"]), doc("y"));
    st.update_paths_after_rename(&cpath(&["foo"]), &cpath(&["bar"]));
    assert_eq!(st.get_file(&key(&["foo2", "x.txt"])).expect("not a match").content, "x");
    assert_eq!(st.get_file(&key(&["bar", "y.txt"])).expect("moved").content, "y");
    assert!(st.get_file(&key(&["foo", "y.txt"])).is_none());
}

#[test]
fn rename_follows_dirty_current_and_project() {
    let mut st = State::default();
    st.open_new_project(key(&["proj"]), None);
    st.open_or_get(key(&["proj", "a.txt"]), doc("hello"));
    st.on_edit(
        "hello world".to_string(),
        ScrollOffset { x: 0, y: 0 },
        Cursor { row: 0, column: 0 },
    );
    assert!(st.is_file_edited(&key(&["proj", "a.txt"])));
    st.update_paths_after_rename(&cpath(&["proj"]), &cpath(&["proj2"]));
    let moved = st.get_file(&key(&["proj2", "a.txt"])).expect("document follows the rename");
    assert_eq!(moved.content, "hello world");
    assert!(st.is_file_edited(&key(&["proj2", "a.txt"])));
    assert!(!st.is_file_edited(&key(&["proj", "a.txt"])));
    let current = st.get_current_file().expect("current pointer follows the rename");
    assert_eq!(current.content, "hello world");
    assert!(st.get_file(&key(&["proj", "a.txt"])).is_none());
}

#[test]
fn rename_of_project_root_itself() {
    let mut st = State::default();
    st.open_or_get(key(&["proj"]), doc("the root itself"));
    st.update_paths_after_rename(&cpath(&["proj"]), &cpath(&["work"]));
    assert_eq!(st.get_file(&key(&["work"])).expect("root moved").content, "the root itself");
}

#[test]
fn rename_leaves_fallback_key_untouched() {
    let mut st = State::default();
    st.open_or_get(PathKey::Fallback, doc("unresolved"));
    st.update_paths_after_rename(&cpath(&["proj"]), &cpath(&["work"]));
    let stored = st.get_file(&PathKey::Fallback).expect("fallback never follows a rename");
    assert_eq!(stored.content, "unresolved");
}
