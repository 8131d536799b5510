use provider_sync::digest::sha256_hex_text;
use provider_sync::rollout::{
    rewritten_session_meta_line, scan_rollout_session_meta_providers,
    session_meta_line_has_payload_object, split_line_ending_bytes, stage_next_session_file,
    stage_original_session_file, RestoreError, RolloutScanner, SessionRestorer,
    SessionRewriteMode, SessionStager,
};

fn meta(id: &str, provider: &str) -> String {
    format!(
        "{{\"type\":\"session_meta\",\"payload\":{{\"id\":\"{id}\",\"model_provider\":\"{provider}\"}}}}\n"
    )
}

const EVENT: &str = "{\"type\":\"event_msg\",\"payload\":{\"type\":\"user_message\"}}\n";

#[test]
fn repeated_session_meta_providers_are_retained_once() {
    let mut content = String::new();
    for index in 0..10_000 {
        content.push_str(&meta(&format!("thread-{index}"), "openai"));
    }

    let rewrite = scan_rollout_session_meta_providers(
        content.as_bytes(),
        "custom",
        &SessionRewriteMode::AllProviders,
    )
    .unwrap();

    assert_eq!(rewrite.session_meta_count, 10_000);
    assert_eq!(rewrite.providers, vec!["openai".to_string()]);
    assert!(rewrite.rewrite_needed);
}

#[test]
fn a_scan_finds_thread_directory_events_and_digest() {
    let content = format!(
        "{}{}",
        "{\"type\":\"session_meta\",\"payload\":{\"id\":\"t1\",\"model_provider\":\"openai\",\"cwd\":\"C:/w\"}}\r\n",
        EVENT
    );
    let found = scan_rollout_session_meta_providers(
        content.as_bytes(),
        "openai",
        &SessionRewriteMode::AllProviders,
    )
    .unwrap();
    assert_eq!(found.thread_id.as_deref(), Some("t1"));
    assert_eq!(found.cwd.as_deref(), Some("C:/w"));
    assert!(found.has_user_event);
    assert!(!found.has_encrypted_content);
    assert!(!found.marks_non_root_agent);
    assert!(!found.rewrite_needed);
    assert_eq!(found.original_size, content.len() as u64);
    assert_eq!(found.original_sha256, sha256_hex_text(content.as_bytes()));
}

#[test]
fn a_record_without_a_provider_counts_as_missing() {
    let content = "{\"type\":\"session_meta\",\"payload\":{\"id\":\"t1\"}}\n";
    let found = scan_rollout_session_meta_providers(
        content.as_bytes(),
        "openai",
        &SessionRewriteMode::AllProviders,
    )
    .unwrap();
    assert_eq!(found.providers, vec!["(missing)".to_string()]);
    assert!(found.rewrite_needed);
    let found = scan_rollout_session_meta_providers(
        content.as_bytes(),
        "custom",
        &SessionRewriteMode::SourceProvider {
            source_provider: "openai".to_string(),
        },
    )
    .unwrap();
    assert!(found.rewrite_needed);
    let found = scan_rollout_session_meta_providers(
        meta("t1", "other").as_bytes(),
        "custom",
        &SessionRewriteMode::SourceProvider {
            source_provider: "openai".to_string(),
        },
    )
    .unwrap();
    assert!(!found.rewrite_needed);
}

#[test]
fn encrypted_content_and_subagents_are_noticed() {
    let content = "{\"type\":\"session_meta\",\"payload\":{\"id\":\"t1\",\"model_provider\":\"a\",\"source\":{\"subagent\":\"review\"}}}\n{\"x\":{\"encrypted_content\":\"...\"}}";
    let found = scan_rollout_session_meta_providers(
        content.as_bytes(),
        "a",
        &SessionRewriteMode::AllProviders,
    )
    .unwrap();
    assert!(found.has_encrypted_content);
    assert!(found.marks_non_root_agent);
}

#[test]
fn bytes_that_are_no_text_stop_a_scan() {
    let mut scanner = RolloutScanner::new();
    assert!(scanner.scan(EVENT.as_bytes(), "a", &SessionRewriteMode::AllProviders));
    assert!(!scanner.scan(&[0xff, b'\n'], "a", &SessionRewriteMode::AllProviders));
    assert!(scan_rollout_session_meta_providers(
        &[0xff],
        "a",
        &SessionRewriteMode::AllProviders
    )
    .is_none());
}

#[test]
fn line_endings_are_split_off() {
    assert_eq!(split_line_ending_bytes(b"a\r\n"), (&b"a"[..], &b"\r\n"[..]));
    assert_eq!(split_line_ending_bytes(b"a\n"), (&b"a"[..], &b"\n"[..]));
    assert_eq!(split_line_ending_bytes(b"a\r"), (&b"a\r"[..], &b""[..]));
    assert_eq!(split_line_ending_bytes(b""), (&b""[..], &b""[..]));
}

#[test]
fn only_records_of_the_right_kind_are_rewritten() {
    let line = "{\"type\":\"session_meta\",\"payload\":{\"id\":\"t1\",\"model_provider\":\"openai\"}}";
    assert!(session_meta_line_has_payload_object(line));
    assert!(!session_meta_line_has_payload_object("{\"type\":\"session_meta\",\"payload\":1}"));
    assert!(!session_meta_line_has_payload_object("{\"type\":\"other\",\"payload\":{}}"));
    let next =
        rewritten_session_meta_line(line, "custom", &SessionRewriteMode::AllProviders).unwrap();
    assert_eq!(
        String::from_utf8(next).unwrap(),
        "{\"payload\":{\"id\":\"t1\",\"model_provider\":\"custom\"},\"type\":\"session_meta\"}"
    );
    assert!(
        rewritten_session_meta_line(line, "openai", &SessionRewriteMode::AllProviders).is_none()
    );
    assert!(rewritten_session_meta_line(
        line,
        "custom",
        &SessionRewriteMode::SourceProvider {
            source_provider: "other".to_string()
        }
    )
    .is_none());
}

#[test]
fn restoring_undoes_staging() {
    let mut content = meta("t1", "openai");
    content.push_str(EVENT);
    content.push_str("{\"type\":\"session_meta\",\"payload\":{ \"id\":\"t1\", \"model_provider\":\"old\" }}\r\n");
    content.push_str("not json, kept as it is");
    let staged = stage_next_session_file(
        content.as_bytes(),
        "custom",
        &SessionRewriteMode::AllProviders,
    )
    .unwrap();
    let next = String::from_utf8(staged.next.clone()).unwrap();
    assert!(next.contains("\"model_provider\":\"custom\""));
    assert!(!next.contains("openai"));
    assert!(next.contains(EVENT));
    assert!(next.ends_with("not json, kept as it is"));
    assert_eq!(staged.file.original_sha256, sha256_hex_text(content.as_bytes()));
    assert_eq!(staged.file.next_sha256, sha256_hex_text(&staged.next));
    assert_eq!(staged.file.next_size, staged.next.len() as u64);
    assert_eq!(
        staged.file.session_meta_backup_sha256,
        sha256_hex_text(&staged.kept)
    );

    let original = stage_original_session_file(
        &staged.next,
        &staged.kept,
        &staged.file.session_meta_backup_sha256,
    )
    .unwrap();
    assert_eq!(original, content.as_bytes());
}

#[test]
fn a_staged_file_needs_no_second_rewrite() {
    let content = format!("{}{}", meta("t1", "openai"), meta("t1", "old"));
    let staged = stage_next_session_file(
        content.as_bytes(),
        "custom",
        &SessionRewriteMode::AllProviders,
    )
    .unwrap();
    let again = scan_rollout_session_meta_providers(
        &staged.next,
        "custom",
        &SessionRewriteMode::AllProviders,
    )
    .unwrap();
    assert!(!again.rewrite_needed);
    assert_eq!(again.providers, vec!["custom".to_string()]);
    let twice = stage_next_session_file(
        &staged.next,
        "custom",
        &SessionRewriteMode::AllProviders,
    )
    .unwrap();
    assert_eq!(twice.next, staged.next);
}

#[test]
fn a_changed_set_of_kept_lines_is_refused() {
    let content = meta("t1", "openai");
    let staged = stage_next_session_file(
        content.as_bytes(),
        "custom",
        &SessionRewriteMode::AllProviders,
    )
    .unwrap();
    let hash = staged.file.session_meta_backup_sha256.clone();
    assert_eq!(
        stage_original_session_file(&staged.next, &staged.kept, &"0".repeat(64)),
        Err(RestoreError::MetadataHashMismatch)
    );
    assert_eq!(
        stage_original_session_file(&staged.next, b"", &hash),
        Err(RestoreError::MetadataIncomplete)
    );
    assert_eq!(
        stage_original_session_file(&staged.next, b"not json\n", &hash),
        Err(RestoreError::MetadataInvalid)
    );
    let mut longer = staged.kept.clone();
    longer.extend_from_slice(&staged.kept);
    assert_eq!(
        stage_original_session_file(&staged.next, &longer, &hash),
        Err(RestoreError::MetadataCountMismatch)
    );
    assert_eq!(
        stage_original_session_file(&[0xff], &staged.kept, &hash),
        Err(RestoreError::NotUtf8)
    );
}

#[test]
fn staging_and_restoring_go_line_by_line() {
    let line = meta("t1", "openai");
    let mut stager = SessionStager::new();
    let staged = stager
        .stage(line.as_bytes(), "custom", &SessionRewriteMode::AllProviders)
        .unwrap();
    assert!(!staged.kept.is_empty());
    let plain = stager
        .stage(EVENT.as_bytes(), "custom", &SessionRewriteMode::AllProviders)
        .unwrap();
    assert_eq!(plain.next, EVENT.as_bytes());
    assert!(plain.kept.is_empty());
    let file = stager.finish();
    assert_eq!(SessionRestorer::wants_kept_line(&staged.next), Ok(true));
    assert_eq!(SessionRestorer::wants_kept_line(EVENT.as_bytes()), Ok(false));
    let mut restorer = SessionRestorer::new();
    let first = restorer.restore(&staged.next, Some(&staged.kept)).unwrap();
    assert_eq!(first, line.as_bytes());
    let second = restorer.restore(EVENT.as_bytes(), None).unwrap();
    assert_eq!(second, EVENT.as_bytes());
    let (sha256, size) = restorer
        .finish(false, &file.session_meta_backup_sha256)
        .unwrap();
    assert_eq!(sha256, file.original_sha256);
    assert_eq!(size, file.original_size);
}

#[test]
fn restoring_undoes_staging_of_records_with_fractions() {
    let content = "{\"payload\":{\"id\":\"t\",\"model_provider\":\"openai\",\"cost\":0.1,\"big\":1.5e300},\"type\":\"session_meta\"}\r\n{\"x\":1}\n";
    let staged = stage_next_session_file(
        content.as_bytes(),
        "custom",
        &SessionRewriteMode::AllProviders,
    )
    .unwrap();
    assert_ne!(staged.next, content.as_bytes());
    let restored = stage_original_session_file(
        &staged.next,
        &staged.kept,
        &staged.file.session_meta_backup_sha256,
    );
    assert_eq!(restored, Ok(content.as_bytes().to_vec()));
    let again = scan_rollout_session_meta_providers(
        &staged.next,
        "custom",
        &SessionRewriteMode::AllProviders,
    )
    .unwrap();
    assert!(!again.rewrite_needed);
    assert_eq!(again.thread_id.as_deref(), Some("t"));
}
