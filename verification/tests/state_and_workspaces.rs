use provider_sync::global_state::{
    apply_global_state_update, copy_resolved_object_keys, count_global_state_updates,
    load_global_state, load_projectless_thread_ids, path_array, text_array_json,
};
use provider_sync::json::{parse, to_compact, Json};
use provider_sync::workspace::{dedupe_paths, to_desktop_workspace_path};

fn texts(v: &[&str]) -> Vec<String> {
    v.iter().map(|s| s.to_string()).collect()
}

#[test]
fn long_path_prefixes_are_taken_off() {
    assert_eq!(to_desktop_workspace_path(r"\\?\C:\a\b"), Some("C:/a/b".to_string()));
    assert_eq!(
        to_desktop_workspace_path(r"\\?\UNC\server/share"),
        Some(r"\\server\share".to_string())
    );
    assert_eq!(to_desktop_workspace_path(" /home/u "), Some("/home/u".to_string()));
    assert_eq!(to_desktop_workspace_path("  "), None);
}

#[test]
fn the_same_directory_is_listed_once() {
    assert_eq!(
        dedupe_paths(&texts(&[r"C:\A\", "c:/a", " ", "/b", "/B/"])),
        texts(&[r"C:\A\", "/b"])
    );
    let once = dedupe_paths(&texts(&[r"\\?\C:\x", "C:/x", "d"]));
    assert_eq!(once, texts(&["C:/x", "d"]));
    assert_eq!(dedupe_paths(&once), once);
}

#[test]
fn paths_are_taken_from_lists_and_single_texts() {
    assert_eq!(path_array(&parse("[\"a\",1,\" \",\"b\"]").unwrap()), texts(&["a", "b"]));
    assert_eq!(path_array(&parse("\"a\"").unwrap()), texts(&["a"]));
    assert!(path_array(&Json::Null).is_empty());
    assert_eq!(
        String::from_utf8(to_compact(&text_array_json(&texts(&["a", "b"])))).unwrap(),
        "[\"a\",\"b\"]"
    );
}

#[test]
fn threads_without_a_project_are_read() {
    let state = "{\"projectless-thread-ids\":[\"a\",\" \",2,\"b\",\"a\"]}";
    assert_eq!(load_projectless_thread_ids(Some(state)), Some(texts(&["a", "b"])));
    assert_eq!(load_projectless_thread_ids(None), Some(Vec::new()));
    assert_eq!(load_projectless_thread_ids(Some("{")), None);
    assert!(load_global_state(Some("[]")).unwrap().is_empty());
    assert!(load_global_state(Some("x")).is_none());
}

const STATE: &str = r#"{
  "electron-saved-workspace-roots": ["C:/a", "c:\\A"],
  "project-order": "C:/a",
  "active-workspace-roots": "\\\\?\\C:\\w",
  "electron-workspace-root-labels": {"\\\\?\\C:\\w": "W", "C:/a": "A"},
  "open-in-target-preferences": {"perPath": {"\\\\?\\C:\\w": 1}, "global": 2},
  "kept": true
}"#;

#[test]
fn the_global_state_is_normalized() {
    assert_eq!(count_global_state_updates(Some(STATE)), Some(5));
    let update = apply_global_state_update(Some(STATE)).unwrap();
    assert_eq!(update.count, 5);
    let text = update.text.unwrap();
    let compact = String::from_utf8(to_compact(&parse(&text).unwrap())).unwrap();
    assert_eq!(
        compact,
        "{\"active-workspace-roots\":\"C:/w\",\"electron-saved-workspace-roots\":[\"C:/a\"],\"electron-workspace-root-labels\":{\"C:/a\":\"A\",\"C:/w\":\"W\"},\"kept\":true,\"open-in-target-preferences\":{\"global\":2,\"perPath\":{\"C:/w\":1}},\"project-order\":[\"C:/a\"]}"
    );
}

#[test]
fn a_normal_global_state_stays_as_it_is() {
    let text = apply_global_state_update(Some(STATE)).unwrap().text.unwrap();
    assert_eq!(count_global_state_updates(Some(&text)), Some(0));
    let again = apply_global_state_update(Some(&text)).unwrap();
    assert_eq!(again.count, 0);
    assert!(again.text.is_none());
    assert_eq!(count_global_state_updates(None), Some(0));
    assert_eq!(count_global_state_updates(Some("{")), None);
}

#[test]
fn keys_are_resolved() {
    let fields = vec![
        (r"\\?\C:\a".to_string(), Json::Unsigned(1)),
        (" ".to_string(), Json::Unsigned(2)),
    ];
    let resolved = copy_resolved_object_keys(&fields);
    let compact = String::from_utf8(to_compact(&Json::Object(resolved))).unwrap();
    assert_eq!(compact, "{\" \":2,\"C:/a\":1}");
}
