use provider_sync::digest::sha256_hex_text;
use provider_sync::session_index::{
    apply_session_index_cleanup, check_before_writing, cleanup_refused, edit_to_write,
    filtered_session_index_text,
    known_session_index_candidate, plan_session_index_cleanup, preview_session_index_cleanup,
    remove_session_index_entry, restore_session_index_entries, same_content,
    session_index_lines_for_thread, CleanupRefusal, IndexEdit,
};

fn texts(v: &[&str]) -> Vec<String> {
    v.iter().map(|s| s.to_string()).collect()
}

fn line(id: &str) -> String {
    format!("{{\"id\":\"{id}\",\"thread_name\":\"n\",\"updated_at\":\"2025\"}}")
}

fn index() -> String {
    format!("{}\n{}\r\nnot json\n{}\n", line("a"), line("b"), line("c"))
}

#[test]
fn entries_have_three_members() {
    let found = known_session_index_candidate(&line(" a ")).unwrap();
    assert_eq!(found.id, "a");
    assert_eq!(found.thread_name, "n");
    assert_eq!(found.updated_at, "2025");
    assert!(known_session_index_candidate("{\"id\":\"a\",\"thread_name\":\"n\"}").is_none());
    assert!(known_session_index_candidate(
        "{\"id\":\"a\",\"thread_name\":\"n\",\"updated_at\":\"2025\",\"x\":1}"
    )
    .is_none());
    assert!(known_session_index_candidate(&line(" ")).is_none());
    assert!(known_session_index_candidate(
        "{\"id\":\"a\",\"thread_name\":\"n\",\"updated_at\":\" \"}"
    )
    .is_none());
    assert!(known_session_index_candidate(
        "{\"id\":1,\"thread_name\":\"n\",\"updated_at\":\"2025\"}"
    )
    .is_none());
    assert!(known_session_index_candidate("not json").is_none());
}

#[test]
fn removal_leaves_everything_else_as_it_is() {
    let edit = remove_session_index_entry(&index(), "b");
    assert_eq!(edit.entries, 1);
    assert_eq!(edit.text, format!("{}\nnot json\n{}\n", line("a"), line("c")));
    let none = remove_session_index_entry(&index(), "zz");
    assert_eq!(none.entries, 0);
    assert_eq!(none.text, index());
    let (text, removed) = filtered_session_index_text(&index(), &texts(&["a", "c"]));
    assert_eq!(removed, 2);
    assert_eq!(text, format!("{}\r\nnot json\n", line("b")));
    assert_eq!(session_index_lines_for_thread(&index(), "b"), vec![line("b")]);
    assert!(session_index_lines_for_thread(&index(), "zz").is_empty());
}

#[test]
fn restoring_puts_removed_entries_back() {
    let lines = session_index_lines_for_thread(&index(), "b");
    let removed = remove_session_index_entry(&index(), "b");
    let restored = restore_session_index_entries(&removed.text, &lines);
    assert_eq!(restored.entries, 1);
    assert_eq!(session_index_lines_for_thread(&restored.text, "b"), lines);
    assert!(restored.text.ends_with(&format!("{}\n", line("b"))));
    let again = restore_session_index_entries(&restored.text, &lines);
    assert_eq!(again.entries, 0);
    let open = restore_session_index_entries("x", &lines);
    assert_eq!(open.text, format!("x\n{}\n", line("b")));
}

#[test]
fn a_preview_lists_entries_of_threads_that_are_gone() {
    let live = texts(&["a"]);
    let preview = preview_session_index_cleanup(Some(&index()), &live);
    assert_eq!(preview.snapshot_sha256, sha256_hex_text(index().as_bytes()));
    let ids: Vec<&str> = preview.candidates.iter().map(|c| c.id.as_str()).collect();
    assert_eq!(ids, vec!["b", "c"]);
    let none = preview_session_index_cleanup(None, &live);
    assert_eq!(none.snapshot_sha256, sha256_hex_text(b""));
    assert!(none.candidates.is_empty());
    let plan = plan_session_index_cleanup(&index(), &live);
    assert_eq!(plan.candidates.len(), 2);
}

#[test]
fn a_cleanup_removes_what_was_confirmed() {
    let live = texts(&["a"]);
    let snapshot = sha256_hex_text(index().as_bytes());
    let edit =
        apply_session_index_cleanup(Some(&index()), &live, &snapshot, &texts(&[" b ", ""])).unwrap();
    assert_eq!(edit.entries, 1);
    assert!(!edit.text.contains("\"b\""));
    assert!(edit.text.contains("\"a\""));
}

#[test]
fn a_cleanup_is_refused_where_things_changed() {
    let live = texts(&["a"]);
    let snapshot = sha256_hex_text(index().as_bytes());
    assert!(matches!(
        apply_session_index_cleanup(None, &live, &snapshot, &texts(&["b"])),
        Err(CleanupRefusal::IndexMissing)
    ));
    assert!(matches!(
        apply_session_index_cleanup(Some("other"), &live, &snapshot, &texts(&["b"])),
        Err(CleanupRefusal::ChangedSincePreview)
    ));
    assert!(matches!(
        apply_session_index_cleanup(Some(&index()), &live, &snapshot, &texts(&["a"])),
        Err(CleanupRefusal::NotACandidate)
    ));
    let error = cleanup_refused(CleanupRefusal::IndexMissing, None);
    assert_eq!(error.message, "session_index.jsonl 不存在，无法清理");
    assert_eq!(error.backup_dir, None);
    let error = cleanup_refused(CleanupRefusal::ChangedBeforeWriting, Some("/b".to_string()));
    assert_eq!(
        error.message,
        "session_index.jsonl 在写入前再次发生变化；未覆盖 Codex 新内容，请重新预览"
    );
    assert_eq!(error.backup_dir, Some("/b".to_string()));
    assert!(same_content(b"ab", b"ab"));
    assert!(!same_content(b"ab", b"ac"));
}

fn edit(entries: usize) -> IndexEdit {
    IndexEdit {
        text: "next".to_string(),
        entries,
    }
}

#[test]
fn an_edit_is_written_only_to_the_index_that_was_read() {
    let written = edit_to_write(edit(2), b"old", b"old").unwrap();
    assert_eq!(written.text, "next");
    assert_eq!(written.entries, 2);
    assert!(edit_to_write(edit(2), b"old", b"new").is_none());
    assert!(edit_to_write(edit(0), b"old", b"old").is_none());
    let appended = restore_session_index_entries("", &vec![line("b")]);
    assert_eq!(edit_to_write(appended, b"", b"").unwrap().text, format!("{}\n", line("b")));
    assert_eq!(check_before_writing(&edit(1), b"old", b"old"), Ok(()));
    assert_eq!(check_before_writing(&edit(0), b"old", b"new"), Ok(()));
    assert_eq!(
        check_before_writing(&edit(1), b"old", b"new"),
        Err(CleanupRefusal::ChangedBeforeWriting)
    );
}

#[test]
fn undoing_a_removal_brings_every_line_back() {
    let lines = session_index_lines_for_thread(&index(), "b");
    let removed = remove_session_index_entry(&index(), "b");
    let restored = restore_session_index_entries(&removed.text, &lines);
    let sorted = |text: &str| {
        let mut all: Vec<String> = text.lines().map(|s| s.to_string()).collect();
        all.sort();
        all
    };
    assert_eq!(sorted(&restored.text), sorted(&index()));
}

#[test]
fn a_preview_after_a_cleanup_lists_what_is_left() {
    let live = texts(&["a"]);
    let before = preview_session_index_cleanup(Some(&index()), &live);
    let cleaned = apply_session_index_cleanup(
        Some(&index()),
        &live,
        &before.snapshot_sha256,
        &texts(&["b"]),
    )
    .ok()
    .unwrap();
    assert_eq!(cleaned.entries, 1);
    let after = preview_session_index_cleanup(Some(&cleaned.text), &live);
    let ids: Vec<&str> = after.candidates.iter().map(|c| c.id.as_str()).collect();
    assert_eq!(ids, vec!["c"]);
}
