use editor_session::document::{Cursor, FileData, ScrollOffset};
use editor_session::path::{CanonPath, PathKey};
use editor_session::session::State;

fn cpath(segs: &[&str]) -> CanonPath {
    CanonPath { segments: segs.iter().map(|s| s.to_string()).collect() }
}

fn key(segs: &[&str]) -> PathKey {
    PathKey::Resolved(cpath(segs))
}

fn doc(content: &str) -> FileData {
    FileData {
        content: content.to_string(),
        scroll_offset: ScrollOffset { x: 0, y: 0 },
        cursor: Cursor { row: 0, column: 0 },
    }
}

#[test]
fn open_or_get_is_idempotent() {
    let mut st = State::default();
    st.open_or_get(key(&["proj", "a.txt"]), doc("first"));
    st.open_or_get(key(&["proj", "a.txt"]), doc("second"));
    let stored = st.get_file(&key(&["proj", "a.txt"])).expect("document must stay open");
    assert_eq!(stored.content, "first");
    let current = st.get_current_file().expect("current file must be set");
    assert_eq!(current.content, "first");
}

#[test]
fn open_new_file_overwrites() {
    let mut st = State::default();
    st.open_or_get(key(&["proj", "a.txt"]), doc("first"));
    st.open_new_file(key(&["proj", "a.txt"]), doc("fresh from disk"));
    let stored = st.get_file(&key(&["proj", "a.txt"])).expect("document must stay open");
    assert_eq!(stored.content, "fresh from disk");
}

#[test]
fn edit_marks_dirty_until_close() {
    let mut st = State::default();
    let p = key(&["proj", "a.txt"]);
    st.open_or_get(key(&["proj", "a.txt"]), doc("hello"));
    assert!(!st.is_file_edited(&p));
    st.on_edit(
        "hello!".to_string(),
        ScrollOffset { x: 0, y: 0 },
        Cursor { row: 0, column: 6 },
    );
    assert!(st.is_file_edited(&p));
    st.on_interact(ScrollOffset { x: 0, y: 1 }, Cursor { row: 1, column: 0 });
    st.on_scroll(ScrollOffset { x: 0, y: 2 });
    assert!(st.is_file_edited(&p));
    st.remove_file(&p);
    assert!(!st.is_file_edited(&p));
}

#[test]
fn interact_and_scroll_never_set_dirty() {
    let mut st = State::default();
    let p = key(&["proj", "a.txt"]);
    st.open_or_get(key(&["proj", "a.txt"]), doc("hello"));
    st.on_interact(ScrollOffset { x: 3, y: 4 }, Cursor { row: 1, column: 2 });
    st.on_scroll(ScrollOffset { x: 5, y: 6 });
    assert!(!st.is_file_edited(&p));
    assert!(!st.is_current_file_edited());
    let stored = st.get_file(&p).expect("document must stay open");
    assert_eq!(stored.content, "hello");
    assert_eq!(stored.scroll_offset, ScrollOffset { x: 5, y: 6 });
    assert_eq!(stored.cursor, Cursor { row: 1, column: 2 });
}

#[test]
fn close_of_non_current_keeps_current() {
    let mut st = State::default();
    st.open_or_get(key(&["proj", "a.txt"]), doc("a"));
    st.open_or_get(key(&["proj", "b.txt"]), doc("b"));
    st.remove_file(&key(&["proj", "a.txt"]));
    let current = st.get_current_file().expect("current file must survive");
    assert_eq!(current.content, "b");
    assert!(st.get_file(&key(&["proj", "a.txt"])).is_none());
}

#[test]
fn close_of_current_clears_current() {
    let mut st = State::default();
    st.open_or_get(key(&["proj", "b.txt"]), doc("b"));
    st.remove_file(&key(&["proj", "b.txt"]));
    assert!(st.get_current_file().is_none());
    assert!(!st.is_current_file_edited());
}

#[test]
fn close_of_unopened_path_is_a_noop() {
    let mut st = State::default();
    st.open_or_get(key(&["proj", "a.txt"]), doc("a"));
    st.remove_file(&key(&["elsewhere", "z.txt"]));
    assert_eq!(st.get_current_file().expect("still open").content, "a");
}

#[test]
fn handlers_are_noops_without_current_file() {
    let mut st = State::default();
    st.open_or_get(key(&["proj", "a.txt"]), doc("a"));
    st.remove_file(&key(&["proj", "a.txt"]));
    let title = st.on_edit(
        "ghost".to_string(),
        ScrollOffset { x: 1, y: 1 },
        Cursor { row: 1, column: 1 },
    );
    assert!(title.is_none());
    st.on_interact(ScrollOffset { x: 2, y: 2 }, Cursor { row: 2, column: 2 });
    st.on_scroll(ScrollOffset { x: 3, y: 3 });
    assert!(st.get_current_file().is_none());
    assert!(st.get_file(&key(&["proj", "a.txt"])).is_none());
    assert!(!st.is_file_edited(&key(&["proj", "a.txt"])));
}

#[test]
fn edit_updates_content_dirty_and_title() {
    let mut st = State::default();
    st.open_new_project(key(&["proj"]), Some(key(&["proj", "a.txt"])));
    st.open_or_get(key(&["proj", "a.txt"]), doc("hello"));
    let title = st.on_edit(
        "hello world".to_string(),
        ScrollOffset { x: 0, y: 0 },
        Cursor { row: 0, column: 11 },
    );
    let current = st.get_current_file().expect("current file must be set");
    assert_eq!(current.content, "hello world");
    assert!(st.is_current_file_edited());
    assert_eq!(title.expect("an applied edit must produce a title"), "a.txt *");
}

#[test]
fn mark_dirty_on_unopened_path_is_a_noop() {
    let mut st = State::default();
    st.mark_dirty(&key(&["proj", "a.txt"]));
    assert!(!st.is_file_edited(&key(&["proj", "a.txt"])));
}

#[test]
fn mark_and_clear_dirty() {
    let mut st = State::default();
    let p = key(&["proj", "a.txt"]);
    st.open_or_get(key(&["proj", "a.txt"]), doc("a"));
    st.mark_dirty(&p);
    assert!(st.is_file_edited(&p));
    st.clear_dirty(&p);
    assert!(!st.is_file_edited(&p));
}

#[test]
fn open_project_without_file_clears_current() {
    let mut st = State::default();
    st.open_or_get(key(&["proj", "a.txt"]), doc("a"));
    st.open_new_project(key(&["other"]), None);
    assert!(st.get_current_file().is_none());
    let stored = st.get_file(&key(&["proj", "a.txt"])).expect("documents are untouched");
    assert_eq!(stored.content, "a");
}

#[test]
fn fallback_key_is_one_shared_key() {
    let mut st = State::default();
    st.open_or_get(PathKey::Fallback, doc("unresolved"));
    assert!(st.is_current_file_edited() == false);
    let stored = st.get_file(&PathKey::Fallback).expect("fallback document is stored");
    assert_eq!(stored.content, "unresolved");
    let title = st.on_edit(
        "changed".to_string(),
        ScrollOffset { x: 0, y: 0 },
        Cursor { row: 0, column: 0 },
    );
    assert_eq!(title.expect("edit applies to the fallback document"), " *");
    assert!(st.is_file_edited(&PathKey::Fallback));
}

#[test]
fn title_of_root_path_is_only_the_marker() {
    let mut st = State::default();
    st.open_or_get(key(&[]), doc("root"));
    let title = st.on_edit(
        "root!".to_string(),
        ScrollOffset { x: 0, y: 0 },
        Cursor { row: 0, column: 0 },
    );
    assert_eq!(title.expect("edit applies"), " *");
}
