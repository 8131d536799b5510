use provider_sync::catalog::{
    catalog_rollout_path, collect_catalog_repair_plan, thread_kind, CatalogDatabase, CatalogMark,
    CatalogRepairPlan, CatalogRepairThread, CatalogRowFacts, CatalogThreadRow, ThreadKind,
};
use provider_sync::collect::ThreadCwd;
use provider_sync::repair::{
    catalog_supports_repair, count_local_thread_catalog_repairs, local_catalog_insert_columns,
    local_catalog_insert_values, repair_is_needed, CatalogColumn, CatalogContents, CatalogRepair,
    CatalogRepairCounts, CatalogValue, RepairStep, SqliteUpdateCounts,
};
use provider_sync::sql::{
    catalog_insert_sql, catalog_marks_sql, catalog_plan_sql, catalog_provider_update_sql,
    catalog_providers_sql, clear_missing_sql, coalesce_text_expr, distinct_ids_sql,
    live_thread_columns, local_catalog_host_id, local_host_sql, max_observation_sql,
    plan_sqlite_update, provider_ids_sql, provider_update_sql, provider_update_thread_ids,
    recovery_candidate_sql, recovery_provider_update_sql, rollout_lookup_sql,
    spawned_thread_columns, subagent_filter, sync_state_insert, sync_state_update,
    table_info_sql, text_expr, thread_source_sql, timestamp_expr,
};
use provider_sync::threads::{
    audit_provider_sync_state, collect_live_thread_ids,
    remote_control_catalog_recovery_thread_ids, sqlite_provider_sync_thread_kinds,
    sqlite_user_thread_ids, CatalogProviderRow, LiveRollout, RecoveryRows,
    RemoteControlRolloutLookup, RolloutSearch, ThreadKindRows,
};

fn texts(v: &[&str]) -> Vec<String> {
    v.iter().map(|s| s.to_string()).collect()
}

fn mark(id: &str, source: &str, thread_source: Option<&str>) -> CatalogMark {
    CatalogMark {
        thread_id: id.to_string(),
        source_kind: source.to_string(),
        thread_source: thread_source.map(|s| s.to_string()),
    }
}

fn thread(id: &str, updated_at: i64) -> CatalogRepairThread {
    CatalogRepairThread {
        id: id.to_string(),
        display_title: format!("title {id}"),
        source_created_at: 1,
        source_updated_at: updated_at,
        cwd: "/w".to_string(),
        source_kind: "cli".to_string(),
        source_detail: String::new(),
        model_provider: String::new(),
        git_branch: None,
        thread_source: Some("user".to_string()),
    }
}

fn facts() -> CatalogRowFacts {
    CatalogRowFacts {
        archived: 0,
        has_user_event: 1,
        agent_role: String::new(),
        has_thread_source_column: true,
        rollout_exists: true,
    }
}

fn row(id: &str, updated_at: i64) -> CatalogThreadRow {
    CatalogThreadRow {
        thread: thread(id, updated_at),
        facts: facts(),
    }
}

fn database(path: &str, rows: Vec<CatalogThreadRow>, marks: Vec<CatalogMark>) -> CatalogDatabase {
    CatalogDatabase {
        path: path.to_string(),
        spawned_child_ids: Vec::new(),
        marks,
        rows,
    }
}

fn plan(dbs: &Vec<CatalogDatabase>) -> CatalogRepairPlan {
    collect_catalog_repair_plan(dbs, &"custom".to_string(), None)
}

#[test]
fn kinds_of_threads_are_told_apart() {
    assert_eq!(thread_kind("{\"subagent\":1}", Some("user")), ThreadKind::Subagent);
    assert_eq!(thread_kind("cli", Some("subagent")), ThreadKind::Subagent);
    assert_eq!(thread_kind("subagent", Some("user")), ThreadKind::ExplicitUser);
    assert_eq!(thread_kind("subagent", None), ThreadKind::Subagent);
    assert_eq!(thread_kind("cli", None), ThreadKind::Unmarked);
    let kinds = sqlite_provider_sync_thread_kinds(&vec![
        ThreadKindRows {
            spawned_thread_ids: texts(&["child", "mine"]),
            rows: vec![mark("a", "subagent", None)],
        },
        ThreadKindRows {
            spawned_thread_ids: Vec::new(),
            rows: vec![mark("mine", "cli", Some("user")), mark("b", "cli", None)],
        },
    ]);
    assert_eq!(kinds.subagent_thread_ids, texts(&["child", "a"]));
    assert_eq!(kinds.explicit_user_thread_ids, texts(&["mine"]));
}

#[test]
fn the_newest_observation_counts_and_a_tie_goes_against_the_catalog() {
    let mut archived = row("t", 5);
    archived.facts.archived = 1;
    let p = plan(&vec![
        database("a", vec![row("t", 5)], Vec::new()),
        database("b", vec![archived], Vec::new()),
    ]);
    assert!(p.threads.is_empty());
    assert_eq!(p.ineligible_thread_ids, texts(&["t"]));
    let mut old = row("t", 4);
    old.facts.archived = 1;
    let p = plan(&vec![
        database("a", vec![row("t", 5)], Vec::new()),
        database("b", vec![old], Vec::new()),
    ]);
    assert_eq!(p.threads.len(), 1);
    assert_eq!(p.threads[0].model_provider, "custom");
    assert!(p.ineligible_thread_ids.is_empty());
}

#[test]
fn threads_that_do_not_belong_in_the_catalog_are_removed() {
    let mut exec = row("exec", 1);
    exec.thread.source_kind = " Exec ".to_string();
    let mut silent = row("silent", 1);
    silent.facts.has_user_event = 0;
    let mut role = row("role", 1);
    role.facts.agent_role = "x".to_string();
    let mut other = row("other", 1);
    other.thread.thread_source = Some("bot".to_string());
    let mut gone = row("gone", 1);
    gone.facts.rollout_exists = false;
    let mut agent = row("agent", 1);
    agent.thread.thread_source = Some("subagent".to_string());
    let p = plan(&vec![database(
        "a",
        vec![exec, silent, role, other, gone, agent, row("fine", 1)],
        Vec::new(),
    )]);
    assert_eq!(
        p.ineligible_thread_ids,
        texts(&["exec", "silent", "role", "other", "gone", "agent"])
    );
    assert_eq!(p.non_root_thread_ids, texts(&["agent"]));
    assert_eq!(p.threads.len(), 1);
    assert_eq!(p.threads[0].id, "fine");
    assert!(p.has_cleanup_candidates());
    assert_eq!(catalog_rollout_path(" sessions/r.jsonl "), Some("sessions/r.jsonl".to_string()));
    assert_eq!(catalog_rollout_path(" "), None);
}

#[test]
fn what_one_catalog_marks_concerns_that_catalog_alone() {
    let p = plan(&vec![
        database(
            "a",
            vec![row("mine", 1)],
            vec![
                mark("stray", "subagent", None),
                mark("mine", "{\"subagent\":1}", None),
            ],
        ),
        database("b", Vec::new(), Vec::new()),
    ]);
    assert_eq!(p.cleanup_thread_ids_for_path("a"), texts(&["stray"]));
    assert!(p.cleanup_thread_ids_for_path("b").is_empty());
}

#[test]
fn a_plan_may_be_made_for_some_threads() {
    let dbs = vec![database(
        "a",
        vec![row("t1", 1), row("t2", 1)],
        vec![mark("x", "subagent", None)],
    )];
    let wanted = texts(&["t2"]);
    let p = collect_catalog_repair_plan(&dbs, &"custom".to_string(), Some(&wanted));
    assert_eq!(p.threads.len(), 1);
    assert_eq!(p.threads[0].id, "t2");
    assert!(p.cleanup_thread_ids_for_path("a").is_empty());
    assert!(repair_is_needed(&p, false));
}

#[test]
fn repairs_are_counted_and_carried_out_in_order() {
    let mut gone = row("gone", 9);
    gone.facts.archived = 1;
    let p = plan(&vec![database(
        "a",
        vec![row("t2", 7), row("t1", 3), gone],
        Vec::new(),
    )]);
    let catalogs = vec![CatalogContents {
        path: "a".to_string(),
        thread_ids: texts(&["t1", "gone"]),
    }];
    assert_eq!(count_local_thread_catalog_repairs(&p, &catalogs), 2);

    let mut repair = CatalogRepair::new(&p, "a", true, 10);
    assert_eq!(repair.removals, texts(&["gone"]));
    assert_eq!(repair.next(), RepairStep::Delete { removal: 0 });
    repair.note(1);
    assert_eq!(repair.threads[0].id, "t1");
    assert_eq!(repair.next(), RepairStep::Insert { thread: 0, sequence: 11 });
    repair.note(0);
    assert_eq!(repair.next(), RepairStep::Insert { thread: 1, sequence: 11 });
    repair.note(1);
    assert_eq!(repair.next(), RepairStep::Finished);
    assert_eq!(repair.observation_sequence, 11);
    assert_eq!(repair.max_source_updated_at, 7);
    let outcome = repair.outcome();
    assert_eq!(outcome.counts.inserted_rows, 1);
    assert_eq!(outcome.counts.removed_rows, 1);
    assert_eq!(outcome.revision_step, Some(2));
    assert!(outcome.record_sync_state);

    let partial = CatalogRepair::new(&p, "a", false, 0);
    assert!(partial.removals.is_empty());
    assert_eq!(partial.outcome().revision_step, None);
}

#[test]
fn rows_are_removed_though_no_number_is_left() {
    let mut gone = row("gone", 9);
    gone.facts.archived = 1;
    let p = plan(&vec![database("a", vec![gone], Vec::new())]);
    let mut repair = CatalogRepair::new(&p, "a", true, i64::MAX);
    assert_eq!(repair.next(), RepairStep::Delete { removal: 0 });
    repair.note(1);
    assert_eq!(repair.next(), RepairStep::Finished);
    assert_eq!(repair.outcome().counts.removed_rows, 1);
    assert_eq!(repair.observation_sequence, i64::MAX);
}

#[test]
fn counts_add_up() {
    let mut total = CatalogRepairCounts::none();
    total.add(CatalogRepairCounts {
        inserted_rows: 2,
        removed_rows: 3,
    });
    assert_eq!(total.total(), 5);
    let mut counts = SqliteUpdateCounts::none();
    counts.add(SqliteUpdateCounts {
        provider_rows: 1,
        user_event_rows: 2,
        cwd_rows: 3,
        catalog_insert_rows: 0,
        catalog_remove_rows: 0,
    });
    counts.set_catalog_repairs(total);
    assert_eq!(counts.total(), 11);
}

#[test]
fn rows_are_filled_by_the_columns_that_are_there() {
    let mut columns = texts(&[
        "host_id",
        "thread_id",
        "display_title",
        "source_created_at",
        "source_updated_at",
        "cwd",
        "source_kind",
        "model_provider",
    ]);
    assert!(!catalog_supports_repair(&columns));
    columns.push("observation_sequence".to_string());
    columns.push("git_branch".to_string());
    columns.push("missing_candidate".to_string());
    assert!(catalog_supports_repair(&columns));
    let filled = local_catalog_insert_columns(&columns);
    assert_eq!(filled.len(), 11);
    assert_eq!(filled[9], CatalogColumn::MissingCandidate);
    assert_eq!(filled[10], CatalogColumn::GitBranch);
    assert_eq!(
        catalog_insert_sql(&filled),
        "INSERT OR IGNORE INTO local_thread_catalog (host_id, thread_id, display_title, source_created_at, source_updated_at, cwd, source_kind, model_provider, observation_sequence, missing_candidate, git_branch) VALUES (?, ?, ?, ?, ?, ?, ?, ?, ?, ?, ?)"
    );
    let values = local_catalog_insert_values(&filled, &"local".to_string(), &thread("t", 7), 12);
    assert_eq!(values.len(), 11);
    assert!(matches!(&values[0], CatalogValue::Text(s) if s == "local"));
    assert!(matches!(&values[1], CatalogValue::Text(s) if s == "t"));
    assert!(matches!(values[4], CatalogValue::Real(7)));
    assert!(matches!(values[8], CatalogValue::Integer(12)));
    assert!(matches!(values[9], CatalogValue::Integer(0)));
    assert!(matches!(values[10], CatalogValue::Null));
}

#[test]
fn living_threads_are_known_by_files_and_databases() {
    let id = "0190aaaa-bbbb-7ccc-8ddd-eeeeffff0000";
    let files = vec![
        LiveRollout {
            file_name: Some(format!("rollout-{id}.jsonl")),
            thread_id: Some("inner".to_string()),
        },
        LiveRollout {
            file_name: None,
            thread_id: Some(" ".to_string()),
        },
    ];
    assert_eq!(
        collect_live_thread_ids(&files, &texts(&["db", "inner"])),
        texts(&[id, "inner", "db"])
    );
}

#[test]
fn an_audit_counts_each_thread_once() {
    let rows = vec![
        mark("c1", "cli", None),
        mark("c2", "cli", Some("subagent")),
        mark("c3", "subagent", None),
        mark("c4", "cli", None),
        mark("c5", "cli", None),
    ];
    let users = sqlite_user_thread_ids(&rows);
    assert_eq!(users, texts(&["c1", "c4", "c5"]));
    let audit = audit_provider_sync_state(
        &texts(&["other"]),
        &texts(&["c1", "c4", "c5", "c1", "other"]),
        &texts(&["c1"]),
        &texts(&["c1", "c4"]),
    );
    assert_eq!(audit.catalog_only_sessions, 3);
    assert_eq!(audit.catalog_only_with_current_rollout, 1);
    assert_eq!(audit.catalog_only_with_backup_database, 1);
    assert_eq!(audit.catalog_only_without_recovery_source, 1);
}

#[test]
fn threads_to_recover_are_known_and_not_ready() {
    let catalog = |provider: &str, missing: i64| {
        Some(vec![CatalogProviderRow {
            thread_id: "t".to_string(),
            provider: provider.to_string(),
            missing_candidate: missing,
        }])
    };
    let requested = texts(&["t"]);
    let dbs = |c| {
        vec![RecoveryRows {
            thread_ids: texts(&["t", "u"]),
            catalog: c,
        }]
    };
    let find = |c| remote_control_catalog_recovery_thread_ids(&dbs(c), "custom", &requested);
    assert_eq!(find(catalog("openai", 0)), texts(&["t"]));
    assert_eq!(find(catalog("custom", 1)), texts(&["t"]));
    assert!(find(catalog("custom", 0)).is_empty());
    assert!(find(None).is_empty());
    assert_eq!(find(Some(Vec::new())), texts(&["t"]));
}

#[test]
fn the_rollout_of_a_remote_thread_is_looked_for() {
    let mut search = RolloutSearch::new();
    assert!(matches!(search.finish(None), RemoteControlRolloutLookup::Missing));
    assert!(!search.take_in_row("openai", 1, "custom"));
    assert!(matches!(search.finish(None), RemoteControlRolloutLookup::Archived));
    assert!(search.take_in_row("", 0, "custom"));
    assert!(!search.take_in_rollout("other", &texts(&["openai"]), "t", "custom"));
    assert!(matches!(search.finish(None), RemoteControlRolloutLookup::Archived));
    assert!(!search.take_in_rollout("t", &Vec::new(), "t", "custom"));
    assert!(matches!(
        search.finish(None),
        RemoteControlRolloutLookup::UnsupportedProvider
    ));
    assert!(search.take_in_rollout("t", &texts(&["openai", "custom"]), "t", "custom"));
    assert!(matches!(
        search.finish(Some("/h/r".to_string())),
        RemoteControlRolloutLookup::Ready(path) if path == "/h/r"
    ));
    let mut search = RolloutSearch::new();
    assert!(!search.take_in_row("stranger", 0, "custom"));
    assert!(matches!(
        search.finish(None),
        RemoteControlRolloutLookup::UnsupportedProvider
    ));
}

#[test]
fn expressions_depend_on_the_columns() {
    let columns = texts(&["title", "updated_at", "cwd"]);
    assert_eq!(text_expr(&columns, "cwd", "''"), "COALESCE(cwd, '')");
    assert_eq!(text_expr(&columns, "source", "NULL"), "NULL");
    assert_eq!(
        coalesce_text_expr(&columns, &texts(&["name", "title"]), "id"),
        "COALESCE(NULLIF(title, ''), id)"
    );
    assert_eq!(coalesce_text_expr(&columns, &texts(&["name"]), "id"), "id");
    assert_eq!(
        timestamp_expr(&columns, "updated_at_ms", "updated_at"),
        "CASE WHEN COALESCE(updated_at, 0) > 9999999999 THEN updated_at / 1000.0 ELSE COALESCE(updated_at, 0) END"
    );
    assert_eq!(
        timestamp_expr(&texts(&["updated_at_ms"]), "updated_at_ms", "updated_at"),
        "COALESCE(updated_at_ms / 1000.0, 0)"
    );
    assert_eq!(timestamp_expr(&columns, "created_at_ms", "created_at"), "0");
    assert_eq!(table_info_sql("a\"b"), "PRAGMA table_info(\"a\"\"b\")");
    assert_eq!(
        subagent_filter(
            &texts(&["child_thread_id"]),
            &texts(&["assigned_thread_id"]),
            "threads.id"
        ),
        " AND NOT EXISTS (SELECT 1 FROM thread_spawn_edges e WHERE e.child_thread_id = threads.id) AND NOT EXISTS (SELECT 1 FROM agent_job_items j WHERE j.assigned_thread_id = threads.id)"
    );
    assert_eq!(subagent_filter(&Vec::new(), &Vec::new(), "threads.id"), "");
}

#[test]
fn statements_read_what_is_there() {
    let none: Vec<String> = Vec::new();
    assert_eq!(
        distinct_ids_sql("threads", "id"),
        "SELECT DISTINCT id FROM threads WHERE COALESCE(id, '') <> ''"
    );
    assert_eq!(
        provider_ids_sql("threads", " AND x"),
        "SELECT DISTINCT COALESCE(model_provider, '') FROM threads WHERE COALESCE(model_provider, '') <> '' AND x"
    );
    assert_eq!(
        thread_source_sql(&texts(&["source"]), "threads", "id", "source"),
        "SELECT id, COALESCE(source, ''), NULL FROM threads WHERE COALESCE(id, '') <> ''"
    );
    assert_eq!(
        catalog_marks_sql(&texts(&["thread_source"])),
        "SELECT thread_id, '', COALESCE(thread_source, NULL) FROM local_thread_catalog WHERE host_id = ?1 AND COALESCE(thread_id, '') <> ''"
    );
    assert_eq!(
        recovery_candidate_sql(&texts(&["id", "model_provider", "archived", "created_at_ms"])),
        Some("SELECT 1 FROM threads WHERE id = ?1 AND model_provider = ?2 AND COALESCE(archived, 0) = 0 AND CAST(COALESCE(created_at_ms, 0) / 1000 AS INTEGER) >= ?3 LIMIT 1".to_string())
    );
    assert_eq!(recovery_candidate_sql(&texts(&["id", "model_provider"])), None);
    assert_eq!(recovery_candidate_sql(&texts(&["id", "created_at"])), None);
    assert_eq!(
        rollout_lookup_sql(&texts(&["model_provider"])),
        "SELECT COALESCE(model_provider, ''), 0, '' FROM threads WHERE id = ?1"
    );
    assert_eq!(
        catalog_providers_sql(&texts(&["host_id"])),
        "SELECT thread_id, '', 0 FROM local_thread_catalog WHERE COALESCE(thread_id, '') <> '' AND host_id = ?1"
    );
    assert_eq!(
        provider_update_sql("threads", "id"),
        "SELECT id FROM threads WHERE COALESCE(id, '') <> '' AND COALESCE(model_provider, '') <> ?1"
    );
    assert_eq!(
        catalog_plan_sql(&none, " AND f"),
        "SELECT id, id, 0, 0, '', 'cli', '', NULL, NULL, 0, 1, '' FROM threads WHERE COALESCE(id, '') <> '' AND f"
    );
    assert_eq!(live_thread_columns().len(), 12);
    assert_eq!(spawned_thread_columns()[1].column, "assigned_thread_id");
}

#[test]
fn the_local_host_is_found() {
    assert_eq!(local_host_sql(&Vec::new()), None);
    assert_eq!(
        local_host_sql(&texts(&["host_id"])),
        Some("SELECT host_id FROM local_thread_catalog_hosts WHERE host_id = 'local' LIMIT 1")
    );
    assert_eq!(
        local_host_sql(&texts(&["host_id", "host_kind"])),
        Some("SELECT host_id FROM local_thread_catalog_hosts WHERE LOWER(COALESCE(host_kind, '')) = 'local' ORDER BY host_id LIMIT 1")
    );
    assert_eq!(local_catalog_host_id(false, None), Some("local".to_string()));
    assert_eq!(local_catalog_host_id(true, Some(" ".to_string())), None);
    assert_eq!(local_catalog_host_id(true, Some("h".to_string())), Some("h".to_string()));
    assert_eq!(local_catalog_host_id(true, None), None);
    assert_eq!(max_observation_sql(&Vec::new()), None);
    assert_eq!(
        max_observation_sql(&texts(&["observation_sequence"])),
        Some("SELECT COALESCE(MAX(observation_sequence), 0) FROM local_thread_catalog")
    );
}

#[test]
fn statements_change_what_is_there() {
    let host = texts(&["host_id", "missing_candidate"]);
    assert_eq!(
        recovery_provider_update_sql(&host),
        "UPDATE local_thread_catalog SET model_provider = ?1 WHERE thread_id = ?2 AND host_id = ?3 AND model_provider = ?4"
    );
    assert_eq!(
        clear_missing_sql(&host),
        Some("UPDATE local_thread_catalog SET missing_candidate = 0 WHERE thread_id = ?1 AND host_id = ?2 AND COALESCE(missing_candidate, 0) <> 0".to_string())
    );
    assert_eq!(clear_missing_sql(&Vec::new()), None);
    assert_eq!(
        catalog_provider_update_sql(&host),
        "UPDATE local_thread_catalog SET model_provider = ?1, missing_candidate = 0 WHERE thread_id = ?2 AND host_id = ?3 AND COALESCE(model_provider, '') <> ?1"
    );
    assert_eq!(
        catalog_provider_update_sql(&Vec::new()),
        "UPDATE local_thread_catalog SET model_provider = ?1 WHERE thread_id = ?2 AND ?3 = ?3 AND COALESCE(model_provider, '') <> ?1"
    );
}

#[test]
fn the_state_of_synchronisation_is_recorded() {
    let columns = texts(&[
        "host_id",
        "initial_build_complete",
        "observation_sequence",
        "watermark_updated_at",
    ]);
    let update = sync_state_update(&columns, &"h".to_string(), 5, 6, 7).unwrap();
    assert_eq!(
        update.sql,
        "UPDATE local_thread_catalog_sync_state SET initial_build_complete = 1, observation_sequence = MAX(COALESCE(observation_sequence, 0), ?), watermark_updated_at = MAX(COALESCE(watermark_updated_at, 0), ?) WHERE host_id = ?"
    );
    assert_eq!(update.values.len(), 3);
    assert!(matches!(update.values[0], CatalogValue::Integer(5)));
    assert!(matches!(update.values[1], CatalogValue::Real(6)));
    let insert = sync_state_insert(&columns, &"h".to_string(), 5, 6, 7);
    assert_eq!(
        insert.sql,
        "INSERT INTO local_thread_catalog_sync_state (host_id, watermark_updated_at, initial_build_complete, observation_sequence) VALUES (?, ?, ?, ?)"
    );
    assert_eq!(insert.values.len(), 4);
    assert!(sync_state_update(&texts(&["host_id"]), &"h".to_string(), 5, 6, 7).is_none());
    assert!(
        sync_state_update(&texts(&["observation_sequence"]), &"h".to_string(), 5, 6, 7).is_none()
    );
}

#[test]
fn excluded_threads_are_not_updated() {
    let columns = texts(&["id", "model_provider", "has_user_event", "cwd"]);
    let cwds = vec![
        ThreadCwd {
            thread_id: "a".to_string(),
            cwd: "/a".to_string(),
        },
        ThreadCwd {
            thread_id: "b".to_string(),
            cwd: "/b".to_string(),
        },
    ];
    let p = plan_sqlite_update(
        &columns,
        &texts(&["thread_id"]),
        &texts(&["a", "b"]),
        &cwds,
        &texts(&["a"]),
    );
    assert!(p.applies && p.threads_provider && !p.catalog_provider);
    assert_eq!(p.user_event_thread_ids, texts(&["b"]));
    assert_eq!(p.cwds.len(), 1);
    assert_eq!(p.cwds[0].thread_id, "b");
    assert_eq!(
        provider_update_thread_ids(&texts(&["a", "b"]), &texts(&["a"])),
        texts(&["b"])
    );
    let p = plan_sqlite_update(&Vec::new(), &Vec::new(), &texts(&["a"]), &cwds, &Vec::new());
    assert!(!p.applies);
    assert!(p.user_event_thread_ids.is_empty() && p.cwds.is_empty());
}
