//! The statements that the databases are read and changed with. Tables differ between
//! versions of the application, so what a statement says depends on the columns that
//! are there.

use crate::catalog;
use crate::collect::ThreadCwd;
use crate::repair;
use crate::repair::{CatalogColumn, CatalogValue};
use crate::text;
use vstd::prelude::*;

verus! {

/// Whether a table has a column.
pub open spec fn has_column(columns: Seq<String>, column: Seq<char>) -> bool {
    text::texts(columns).contains(column)
}

// ---------------------------------------------------------------------------
// Expressions
// ---------------------------------------------------------------------------
pub open spec fn quotes_doubled(s: Seq<char>) -> Seq<char>
    decreases s.len(),
{
    if s.len() == 0 {
        Seq::empty()
    } else if s.last() == '"' {
        quotes_doubled(s.drop_last()).push('"').push('"')
    } else {
        quotes_doubled(s.drop_last()).push(s.last())
    }
}

/// Asks for the columns of a table.
pub fn table_info_sql(table: &str) -> (r: String)
    ensures
        r@ == "PRAGMA table_info(\""@ + quotes_doubled(table@) + "\")"@,
{
    let x = text::to_chars(table);
    let mut name = text::copy_text("");
    proof {
        reveal_strlit("");
        assert(name@ =~= Seq::<char>::empty());
    }
    let mut i: usize = 0;
    while i < x.len()
        invariant
            i <= x.len(),
            x@ == table@,
            name@ == quotes_doubled(x@.take(i as int)),
        decreases x.len() - i,
    {
        assert(x@.take(i + 1).drop_last() =~= x@.take(i as int));
        if x[i] == '"' {
            name.push('"');
        }
        name.push(x[i]);
        i += 1;
    }
    assert(x@.take(i as int) =~= x@);
    let mut out = text::copy_text("PRAGMA table_info(\"");
    text::append_text(&mut out, name.as_str());
    text::append_text(&mut out, "\")");
    out
}

/// A column with a value in place of a missing one, or that value where there is no
/// such column.
pub open spec fn text_expression(
    columns: Seq<String>,
    column: Seq<char>,
    fallback: Seq<char>,
) -> Seq<char> {
    if has_column(columns, column) {
        "COALESCE("@ + column + ", "@ + fallback + ")"@
    } else {
        fallback
    }
}

/// A column with a fallback, or the fallback where there is no such column.
pub fn text_expr(columns: &Vec<String>, column: &str, fallback: &str) -> (r: String)
    ensures
        r@ == text_expression(columns@, column@, fallback@),
{
    if text::contains_text(columns, column) {
        let mut out = text::copy_text("COALESCE(");
        text::append_text(&mut out, column);
        text::append_text(&mut out, ", ");
        text::append_text(&mut out, fallback);
        text::append_text(&mut out, ")");
        out
    } else {
        text::copy_text(fallback)
    }
}

/// Those of some columns that are there, each without empty texts.
pub open spec fn filled_columns(columns: Seq<String>, candidates: Seq<Seq<char>>) -> Seq<Seq<char>>
    decreases candidates.len(),
{
    if candidates.len() == 0 {
        Seq::empty()
    } else {
        let before = filled_columns(columns, candidates.drop_last());
        if has_column(columns, candidates.last()) {
            before.push("NULLIF("@ + candidates.last() + ", '')"@)
        } else {
            before
        }
    }
}

/// The first of some columns that holds a text, or else a value.
pub open spec fn coalesce_expression(
    columns: Seq<String>,
    candidates: Seq<Seq<char>>,
    fallback: Seq<char>,
) -> Seq<char> {
    let filled = filled_columns(columns, candidates);
    if filled.len() == 0 {
        fallback
    } else {
        "COALESCE("@ + text::separated(filled.push(fallback), ", "@) + ")"@
    }
}

/// The first of some columns that is not empty, or else the fallback.
pub fn coalesce_text_expr(columns: &Vec<String>, candidates: &Vec<String>, fallback: &str) -> (r:
    String)
    ensures
        r@ == coalesce_expression(columns@, text::texts(candidates@), fallback@),
{
    let ghost all = text::texts(candidates@);
    let mut parts: Vec<String> = Vec::new();
    let mut i: usize = 0;
    assert(text::texts(parts@) =~= Seq::<Seq<char>>::empty());
    while i < candidates.len()
        invariant
            i <= candidates.len(),
            all == text::texts(candidates@),
            text::texts(parts@) == filled_columns(columns@, all.take(i as int)),
        decreases candidates.len() - i,
    {
        assert(all.take(i + 1).drop_last() =~= all.take(i as int));
        assert(all.take(i + 1).last() == candidates@[i as int]@);
        if text::contains_text(columns, candidates[i].as_str()) {
            let ghost before = text::texts(parts@);
            let mut part = text::copy_text("NULLIF(");
            text::append_text(&mut part, candidates[i].as_str());
            text::append_text(&mut part, ", '')");
            let ghost v = part@;
            parts.push(part);
            assert(text::texts(parts@) =~= before.push(v));
        }
        i += 1;
    }
    assert(all.take(i as int) =~= all);
    let ghost filled = text::texts(parts@);
    assert(filled.len() == parts@.len());
    if parts.len() == 0 {
        return text::copy_text(fallback);
    }
    parts.push(text::copy_text(fallback));
    assert(text::texts(parts@) =~= filled.push(fallback@));
    let mut out = text::copy_text("COALESCE(");
    text::append_text(&mut out, text::separate_texts(&parts, ", ").as_str());
    text::append_text(&mut out, ")");
    out
}

/// A time in seconds. Where only one column is there, large values are taken for
/// milliseconds.
pub open spec fn timestamp_expression(
    columns: Seq<String>,
    ms_column: Seq<char>,
    seconds_column: Seq<char>,
) -> Seq<char> {
    if has_column(columns, ms_column) {
        "COALESCE("@ + ms_column + " / 1000.0, 0)"@
    } else if has_column(columns, seconds_column) {
        "CASE WHEN COALESCE("@ + seconds_column + ", 0) > 9999999999 THEN "@ + seconds_column
            + " / 1000.0 ELSE COALESCE("@ + seconds_column + ", 0) END"@
    } else {
        "0"@
    }
}

/// A time in seconds, from a column in milliseconds or one in seconds.
pub fn timestamp_expr(columns: &Vec<String>, ms_column: &str, seconds_column: &str) -> (r: String)
    ensures
        r@ == timestamp_expression(columns@, ms_column@, seconds_column@),
{
    if text::contains_text(columns, ms_column) {
        let mut out = text::copy_text("COALESCE(");
        text::append_text(&mut out, ms_column);
        text::append_text(&mut out, " / 1000.0, 0)");
        out
    } else if text::contains_text(columns, seconds_column) {
        let mut out = text::copy_text("CASE WHEN COALESCE(");
        text::append_text(&mut out, seconds_column);
        text::append_text(&mut out, ", 0) > 9999999999 THEN ");
        text::append_text(&mut out, seconds_column);
        text::append_text(&mut out, " / 1000.0 ELSE COALESCE(");
        text::append_text(&mut out, seconds_column);
        text::append_text(&mut out, ", 0) END");
        out
    } else {
        text::copy_text("0")
    }
}

pub open spec fn no_edge(id: Seq<char>) -> Seq<char> {
    "NOT EXISTS (SELECT 1 FROM thread_spawn_edges e WHERE e.child_thread_id = "@ + id + ")"@
}

pub open spec fn no_job(id: Seq<char>) -> Seq<char> {
    "NOT EXISTS (SELECT 1 FROM agent_job_items j WHERE j.assigned_thread_id = "@ + id + ")"@
}

/// A condition that leaves out threads that others spawned or that jobs were given to.
pub open spec fn subagent_condition(
    edge_columns: Seq<String>,
    job_columns: Seq<String>,
    id: Seq<char>,
) -> Seq<char> {
    let edges = has_column(edge_columns, "child_thread_id"@);
    let jobs = has_column(job_columns, "assigned_thread_id"@);
    if edges && jobs {
        " AND "@ + no_edge(id) + " AND "@ + no_job(id)
    } else if edges {
        " AND "@ + no_edge(id)
    } else if jobs {
        " AND "@ + no_job(id)
    } else {
        ""@
    }
}

fn surround(before: &str, s: &str, after: &str) -> (r: String)
    ensures
        r@ == before@ + s@ + after@,
{
    let mut out = text::copy_text(before);
    text::append_text(&mut out, s);
    text::append_text(&mut out, after);
    out
}

/// A condition that leaves out the threads that were spawned or given to jobs.
pub fn subagent_filter(edge_columns: &Vec<String>, job_columns: &Vec<String>, id_expr: &str) -> (r:
    String)
    ensures
        r@ == subagent_condition(edge_columns@, job_columns@, id_expr@),
{
    let edge = surround(
        "NOT EXISTS (SELECT 1 FROM thread_spawn_edges e WHERE e.child_thread_id = ",
        id_expr,
        ")",
    );
    let job = surround(
        "NOT EXISTS (SELECT 1 FROM agent_job_items j WHERE j.assigned_thread_id = ",
        id_expr,
        ")",
    );
    let edges = text::contains_text(edge_columns, "child_thread_id");
    let jobs = text::contains_text(job_columns, "assigned_thread_id");
    if edges && jobs {
        let mut out = text::join_text(" AND ", edge.as_str());
        text::append_text(&mut out, " AND ");
        text::append_text(&mut out, job.as_str());
        out
    } else if edges {
        text::join_text(" AND ", edge.as_str())
    } else if jobs {
        text::join_text(" AND ", job.as_str())
    } else {
        text::copy_text("")
    }
}

/// One of two texts, by whether a table has a column.
pub open spec fn by_column(
    columns: Seq<String>,
    column: Seq<char>,
    there: Seq<char>,
    missing: Seq<char>,
) -> Seq<char> {
    if has_column(columns, column) {
        there
    } else {
        missing
    }
}

fn choose_by_column<'a>(
    columns: &Vec<String>,
    column: &str,
    there: &'a str,
    missing: &'a str,
) -> (r: &'a str)
    ensures
        r@ == by_column(columns@, column@, there@, missing@),
{
    if text::contains_text(columns, column) {
        there
    } else {
        missing
    }
}

// ---------------------------------------------------------------------------
// Reading ids and providers
// ---------------------------------------------------------------------------
/// A column of a table that holds thread ids.
#[derive(Debug)]
pub struct IdColumn {
    pub table: &'static str,
    pub column: &'static str,
}

pub open spec fn id_columns(v: Seq<IdColumn>) -> Seq<(Seq<char>, Seq<char>)> {
    v.map_values(|c: IdColumn| (c.table@, c.column@))
}

/// Where a thread leaves its id as long as it lives.
pub fn live_thread_columns() -> (r: Vec<IdColumn>)
    ensures
        id_columns(r@) == seq![
            ("threads"@, "id"@),
            ("local_thread_catalog"@, "thread_id"@),
            ("automation_runs"@, "thread_id"@),
            ("inbox_items"@, "thread_id"@),
            ("sessions"@, "id"@),
            ("messages"@, "session_id"@),
            ("thread_dynamic_tools"@, "thread_id"@),
            ("thread_goals"@, "thread_id"@),
            ("thread_spawn_edges"@, "parent_thread_id"@),
            ("thread_spawn_edges"@, "child_thread_id"@),
            ("stage1_outputs"@, "thread_id"@),
            ("agent_job_items"@, "assigned_thread_id"@),
        ],
{
    vec![
        IdColumn { table: "threads", column: "id" },
        IdColumn { table: "local_thread_catalog", column: "thread_id" },
        IdColumn { table: "automation_runs", column: "thread_id" },
        IdColumn { table: "inbox_items", column: "thread_id" },
        IdColumn { table: "sessions", column: "id" },
        IdColumn { table: "messages", column: "session_id" },
        IdColumn { table: "thread_dynamic_tools", column: "thread_id" },
        IdColumn { table: "thread_goals", column: "thread_id" },
        IdColumn { table: "thread_spawn_edges", column: "parent_thread_id" },
        IdColumn { table: "thread_spawn_edges", column: "child_thread_id" },
        IdColumn { table: "stage1_outputs", column: "thread_id" },
        IdColumn { table: "agent_job_items", column: "assigned_thread_id" },
    ]
}

/// Where the threads stand that other threads spawned or that jobs were given to.
pub fn spawned_thread_columns() -> (r: Vec<IdColumn>)
    ensures
        id_columns(r@) == seq![
            ("thread_spawn_edges"@, "child_thread_id"@),
            ("agent_job_items"@, "assigned_thread_id"@),
        ],
{
    vec![
        IdColumn { table: "thread_spawn_edges", column: "child_thread_id" },
        IdColumn { table: "agent_job_items", column: "assigned_thread_id" },
    ]
}

/// Reads each id in a column once.
pub fn distinct_ids_sql(table: &str, column: &str) -> (r: String)
    ensures
        r@ == "SELECT DISTINCT "@ + column@ + " FROM "@ + table@ + " WHERE COALESCE("@ + column@
            + ", '') <> ''"@,
{
    let mut out = text::join_text("SELECT DISTINCT ", column);
    text::append_text(&mut out, " FROM ");
    text::append_text(&mut out, table);
    text::append_text(&mut out, " WHERE COALESCE(");
    text::append_text(&mut out, column);
    text::append_text(&mut out, ", '') <> ''");
    out
}

/// Reads each provider in a table once, where the rows are not to be left out.
pub fn provider_ids_sql(table: &str, filter: &str) -> (r: String)
    ensures
        r@ == "SELECT DISTINCT COALESCE(model_provider, '') FROM "@ + table@
            + " WHERE COALESCE(model_provider, '') <> ''"@ + filter@,
{
    let mut out = text::join_text("SELECT DISTINCT COALESCE(model_provider, '') FROM ", table);
    text::append_text(&mut out, " WHERE COALESCE(model_provider, '') <> ''");
    text::append_text(&mut out, filter);
    out
}

/// Reads what a table says about the source of each thread.
pub open spec fn thread_source_query(
    columns: Seq<String>,
    table: Seq<char>,
    id_column: Seq<char>,
    source_column: Seq<char>,
) -> Seq<char> {
    "SELECT "@ + id_column + ", "@ + text_expression(columns, source_column, "''"@) + ", "@
        + text_expression(columns, "thread_source"@, "NULL"@) + " FROM "@ + table
        + " WHERE COALESCE("@ + id_column + ", '') <> ''"@
}

/// Reads what a table says about the source of each thread.
pub fn thread_source_sql(
    columns: &Vec<String>,
    table: &str,
    id_column: &str,
    source_column: &str,
) -> (r: String)
    ensures
        r@ == thread_source_query(columns@, table@, id_column@, source_column@),
{
    let mut out = text::join_text("SELECT ", id_column);
    text::append_text(&mut out, ", ");
    text::append_text(&mut out, text_expr(columns, source_column, "''").as_str());
    text::append_text(&mut out, ", ");
    text::append_text(&mut out, text_expr(columns, "thread_source", "NULL").as_str());
    text::append_text(&mut out, " FROM ");
    text::append_text(&mut out, table);
    text::append_text(&mut out, " WHERE COALESCE(");
    text::append_text(&mut out, id_column);
    text::append_text(&mut out, ", '') <> ''");
    out
}

/// Reads what the catalog of the local host says about the source of each thread.
pub fn catalog_marks_sql(columns: &Vec<String>) -> (r: String)
    ensures
        r@ == "SELECT thread_id, "@ + text_expression(columns@, "source_kind"@, "''"@) + ", "@
            + text_expression(columns@, "thread_source"@, "NULL"@)
            + " FROM local_thread_catalog WHERE host_id = ?1 AND COALESCE(thread_id, '') <> ''"@,
{
    let mut out = text::join_text(
        "SELECT thread_id, ",
        text_expr(columns, "source_kind", "''").as_str(),
    );
    text::append_text(&mut out, ", ");
    text::append_text(&mut out, text_expr(columns, "thread_source", "NULL").as_str());
    text::append_text(
        &mut out,
        " FROM local_thread_catalog WHERE host_id = ?1 AND COALESCE(thread_id, '') <> ''",
    );
    out
}

/// Where the time at which a thread was made stands, in seconds.
pub open spec fn created_expression(columns: Seq<String>) -> Option<Seq<char>> {
    if has_column(columns, "created_at_ms"@) {
        Some("CAST(COALESCE(created_at_ms, 0) / 1000 AS INTEGER)"@)
    } else if has_column(columns, "created_at"@) {
        Some("CAST(COALESCE(created_at, 0) AS INTEGER)"@)
    } else {
        None
    }
}

/// Looks for a thread of a provider that is not archived and was made after some time.
/// There is no statement where the table does not tell the thread, its provider or that
/// time.
pub fn recovery_candidate_sql(columns: &Vec<String>) -> (r: Option<String>)
    ensures
        text::text_of(r) == if has_column(columns@, "id"@) && has_column(columns@, "model_provider"@) {
            match created_expression(columns@) {
                Some(created) => Some(
                    "SELECT 1 FROM threads WHERE id = ?1 AND model_provider = ?2 AND "@
                        + by_column(columns@, "archived"@, "COALESCE(archived, 0)"@, "0"@)
                        + " = 0 AND "@ + created + " >= ?3 LIMIT 1"@,
                ),
                None => None,
            }
        } else {
            None
        },
{
    if !text::contains_text(columns, "id") || !text::contains_text(columns, "model_provider") {
        return None;
    }
    let created = if text::contains_text(columns, "created_at_ms") {
        "CAST(COALESCE(created_at_ms, 0) / 1000 AS INTEGER)"
    } else if text::contains_text(columns, "created_at") {
        "CAST(COALESCE(created_at, 0) AS INTEGER)"
    } else {
        return None;
    };
    let mut out = text::copy_text(
        "SELECT 1 FROM threads WHERE id = ?1 AND model_provider = ?2 AND ",
    );
    text::append_text(
        &mut out,
        choose_by_column(columns, "archived", "COALESCE(archived, 0)", "0"),
    );
    text::append_text(&mut out, " = 0 AND ");
    text::append_text(&mut out, created);
    text::append_text(&mut out, " >= ?3 LIMIT 1");
    Some(out)
}

/// Reads the provider of a thread, whether it is archived, and its rollout file.
pub fn rollout_lookup_sql(columns: &Vec<String>) -> (r: String)
    ensures
        r@ == "SELECT "@ + by_column(
            columns@,
            "model_provider"@,
            "COALESCE(model_provider, '')"@,
            "''"@,
        ) + ", "@ + by_column(columns@, "archived"@, "COALESCE(archived, 0)"@, "0"@) + ", "@
            + by_column(columns@, "rollout_path"@, "COALESCE(rollout_path, '')"@, "''"@)
            + " FROM threads WHERE id = ?1"@,
{
    let mut out = text::join_text(
        "SELECT ",
        choose_by_column(columns, "model_provider", "COALESCE(model_provider, '')", "''"),
    );
    text::append_text(&mut out, ", ");
    text::append_text(
        &mut out,
        choose_by_column(columns, "archived", "COALESCE(archived, 0)", "0"),
    );
    text::append_text(&mut out, ", ");
    text::append_text(
        &mut out,
        choose_by_column(columns, "rollout_path", "COALESCE(rollout_path, '')", "''"),
    );
    text::append_text(&mut out, " FROM threads WHERE id = ?1");
    out
}

/// Reads the providers that the catalog of the local host records.
pub fn catalog_providers_sql(columns: &Vec<String>) -> (r: String)
    ensures
        r@ == "SELECT thread_id, "@ + by_column(
            columns@,
            "model_provider"@,
            "COALESCE(model_provider, '')"@,
            "''"@,
        ) + ", "@ + by_column(
            columns@,
            "missing_candidate"@,
            "COALESCE(missing_candidate, 0)"@,
            "0"@,
        ) + " FROM local_thread_catalog WHERE COALESCE(thread_id, '') <> ''"@ + by_column(
            columns@,
            "host_id"@,
            " AND host_id = ?1"@,
            " AND ?1 = ?1"@,
        ),
{
    let mut out = text::join_text(
        "SELECT thread_id, ",
        choose_by_column(columns, "model_provider", "COALESCE(model_provider, '')", "''"),
    );
    text::append_text(&mut out, ", ");
    text::append_text(
        &mut out,
        choose_by_column(columns, "missing_candidate", "COALESCE(missing_candidate, 0)", "0"),
    );
    text::append_text(
        &mut out,
        " FROM local_thread_catalog WHERE COALESCE(thread_id, '') <> ''",
    );
    text::append_text(
        &mut out,
        choose_by_column(columns, "host_id", " AND host_id = ?1", " AND ?1 = ?1"),
    );
    out
}

/// Reads the threads of a table whose provider is another than a given one.
pub fn provider_update_sql(table: &str, id_column: &str) -> (r: String)
    ensures
        r@ == "SELECT "@ + id_column@ + " FROM "@ + table@ + " WHERE COALESCE("@ + id_column@
            + ", '') <> '' AND COALESCE(model_provider, '') <> ?1"@,
{
    let mut out = text::join_text("SELECT ", id_column);
    text::append_text(&mut out, " FROM ");
    text::append_text(&mut out, table);
    text::append_text(&mut out, " WHERE COALESCE(");
    text::append_text(&mut out, id_column);
    text::append_text(&mut out, ", '') <> '' AND COALESCE(model_provider, '') <> ?1");
    out
}

/// Finds the id of the local host. There is no statement where the hosts are not
/// listed.
pub fn local_host_sql(host_columns: &Vec<String>) -> (r: Option<&'static str>)
    ensures
        text::str_of(r) == if !has_column(host_columns@, "host_id"@) {
            None
        } else if has_column(host_columns@, "host_kind"@) {
            Some(
                "SELECT host_id FROM local_thread_catalog_hosts WHERE LOWER(COALESCE(host_kind, '')) = 'local' ORDER BY host_id LIMIT 1"@,
            )
        } else {
            Some("SELECT host_id FROM local_thread_catalog_hosts WHERE host_id = 'local' LIMIT 1"@)
        },
{
    if !text::contains_text(host_columns, "host_id") {
        None
    } else if text::contains_text(host_columns, "host_kind") {
        Some(
            "SELECT host_id FROM local_thread_catalog_hosts WHERE LOWER(COALESCE(host_kind, '')) = 'local' ORDER BY host_id LIMIT 1",
        )
    } else {
        Some("SELECT host_id FROM local_thread_catalog_hosts WHERE host_id = 'local' LIMIT 1")
    }
}

/// The id of the local host: `local` where hosts are not listed, and otherwise what is
/// listed, unless it is blank.
pub fn local_catalog_host_id(hosts_are_listed: bool, listed: Option<String>) -> (r: Option<String>)
    ensures
        text::text_of(r) == if !hosts_are_listed {
            Some("local"@)
        } else {
            match listed {
                Some(id) => if text::is_blank(id@) {
                    None
                } else {
                    Some(id@)
                },
                None => None,
            }
        },
{
    if !hosts_are_listed {
        return Some(text::copy_text("local"));
    }
    match listed {
        Some(id) => if text::blank(id.as_str()) {
            None
        } else {
            Some(id)
        },
        None => None,
    }
}

/// Finds the highest number that a row of the catalog has, of the local host alone
/// where hosts are told apart.
pub fn max_observation_sql(columns: &Vec<String>) -> (r: Option<&'static str>)
    ensures
        text::str_of(r) == if !has_column(columns@, "observation_sequence"@) {
            None
        } else {
            Some(
                by_column(
                    columns@,
                    "host_id"@,
                    "SELECT COALESCE(MAX(observation_sequence), 0) FROM local_thread_catalog WHERE host_id = ?1"@,
                    "SELECT COALESCE(MAX(observation_sequence), 0) FROM local_thread_catalog"@,
                ),
            )
        },
{
    if !text::contains_text(columns, "observation_sequence") {
        return None;
    }
    Some(
        choose_by_column(
            columns,
            "host_id",
            "SELECT COALESCE(MAX(observation_sequence), 0) FROM local_thread_catalog WHERE host_id = ?1",
            "SELECT COALESCE(MAX(observation_sequence), 0) FROM local_thread_catalog",
        ),
    )
}

/// The columns that a thread's title is taken from.
pub open spec fn title_columns() -> Seq<Seq<char>> {
    seq!["name"@, "title"@, "preview"@, "first_user_message"@]
}

/// Reads what a thread's row in the catalog is made from.
pub open spec fn catalog_plan_query(columns: Seq<String>, filter: Seq<char>) -> Seq<char> {
    "SELECT id, "@ + coalesce_expression(columns, title_columns(), "id"@) + ", "@
        + timestamp_expression(columns, "created_at_ms"@, "created_at"@) + ", "@
        + timestamp_expression(columns, "updated_at_ms"@, "updated_at"@) + ", "@ + text_expression(
        columns,
        "cwd"@,
        "''"@,
    ) + ", "@ + coalesce_expression(columns, seq!["source"@], "'cli'"@) + ", "@ + text_expression(
        columns,
        "rollout_path"@,
        "''"@,
    ) + ", "@ + text_expression(columns, "git_branch"@, "NULL"@) + ", "@ + text_expression(
        columns,
        "thread_source"@,
        "NULL"@,
    ) + ", "@ + text_expression(columns, "archived"@, "0"@) + ", "@ + text_expression(
        columns,
        "has_user_event"@,
        "1"@,
    ) + ", "@ + text_expression(columns, "agent_role"@, "''"@)
        + " FROM threads WHERE COALESCE(id, '') <> ''"@ + filter
}

/// Reads the threads that a catalog is repaired from.
pub fn catalog_plan_sql(columns: &Vec<String>, filter: &str) -> (r: String)
    ensures
        r@ == catalog_plan_query(columns@, filter@),
{
    let titles = vec![
        text::copy_text("name"),
        text::copy_text("title"),
        text::copy_text("preview"),
        text::copy_text("first_user_message"),
    ];
    assert(text::texts(titles@) =~= title_columns());
    let sources = vec![text::copy_text("source")];
    assert(text::texts(sources@) =~= seq!["source"@]);
    let mut out = text::join_text(
        "SELECT id, ",
        coalesce_text_expr(columns, &titles, "id").as_str(),
    );
    text::append_text(&mut out, ", ");
    text::append_text(&mut out, timestamp_expr(columns, "created_at_ms", "created_at").as_str());
    text::append_text(&mut out, ", ");
    text::append_text(&mut out, timestamp_expr(columns, "updated_at_ms", "updated_at").as_str());
    text::append_text(&mut out, ", ");
    text::append_text(&mut out, text_expr(columns, "cwd", "''").as_str());
    text::append_text(&mut out, ", ");
    text::append_text(&mut out, coalesce_text_expr(columns, &sources, "'cli'").as_str());
    text::append_text(&mut out, ", ");
    text::append_text(&mut out, text_expr(columns, "rollout_path", "''").as_str());
    text::append_text(&mut out, ", ");
    text::append_text(&mut out, text_expr(columns, "git_branch", "NULL").as_str());
    text::append_text(&mut out, ", ");
    text::append_text(&mut out, text_expr(columns, "thread_source", "NULL").as_str());
    text::append_text(&mut out, ", ");
    text::append_text(&mut out, text_expr(columns, "archived", "0").as_str());
    text::append_text(&mut out, ", ");
    text::append_text(&mut out, text_expr(columns, "has_user_event", "1").as_str());
    text::append_text(&mut out, ", ");
    text::append_text(&mut out, text_expr(columns, "agent_role", "''").as_str());
    text::append_text(&mut out, " FROM threads WHERE COALESCE(id, '') <> ''");
    text::append_text(&mut out, filter);
    out
}

// ---------------------------------------------------------------------------
// Changing rows
// ---------------------------------------------------------------------------
/// What is to be changed in a database.
#[derive(Debug)]
pub struct SqliteUpdatePlan {
    /// Whether the database is changed at all: a table has to tell the provider.
    pub applies: bool,
    /// Whether the providers in the table of threads are set.
    pub threads_provider: bool,
    /// Whether the providers in the catalog are set.
    pub catalog_provider: bool,
    /// The threads that get the mark of the user's having written.
    pub user_event_thread_ids: Vec<String>,
    /// The threads whose working directory is set.
    pub cwds: Vec<ThreadCwd>,
}

/// Those working directories whose thread is not in `others`.
pub open spec fn cwds_without(v: Seq<ThreadCwd>, others: Seq<Seq<char>>) -> Seq<ThreadCwd>
    decreases v.len(),
{
    if v.len() == 0 {
        Seq::empty()
    } else {
        let before = cwds_without(v.drop_last(), others);
        if others.contains(v.last().thread_id@) {
            before
        } else {
            before.push(v.last())
        }
    }
}

fn remove_cwds(v: &Vec<ThreadCwd>, others: &Vec<String>) -> (r: Vec<ThreadCwd>)
    ensures
        r@ == cwds_without(v@, text::texts(others@)),
{
    let mut out: Vec<ThreadCwd> = Vec::new();
    let mut i: usize = 0;
    while i < v.len()
        invariant
            i <= v.len(),
            out@ == cwds_without(v@.take(i as int), text::texts(others@)),
        decreases v.len() - i,
    {
        assert(v@.take(i + 1).drop_last() =~= v@.take(i as int));
        if !text::contains_text(others, v[i].thread_id.as_str()) {
            out.push(ThreadCwd { thread_id: v[i].thread_id.clone(), cwd: v[i].cwd.clone() });
        }
        i += 1;
    }
    assert(v@.take(i as int) =~= v@);
    out
}

/// Those threads whose provider is to be set.
pub fn provider_update_thread_ids(
    thread_ids: &Vec<String>,
    excluded_thread_ids: &Vec<String>,
) -> (r: Vec<String>)
    ensures
        text::texts(r@) == catalog::ids_without(
            text::texts(thread_ids@),
            text::texts(excluded_thread_ids@),
        ),
{
    catalog::remove_ids(thread_ids, excluded_thread_ids)
}

/// What is to be changed in a database with these columns. Nothing is changed of the
/// threads that are left out.
pub fn plan_sqlite_update(
    columns: &Vec<String>,
    catalog_columns: &Vec<String>,
    user_event_thread_ids: &Vec<String>,
    cwd_by_thread_id: &Vec<ThreadCwd>,
    excluded_thread_ids: &Vec<String>,
) -> (r: SqliteUpdatePlan)
    ensures
        r.applies == (has_column(columns@, "model_provider"@) || has_column(
            catalog_columns@,
            "model_provider"@,
        )),
        r.threads_provider == (has_column(columns@, "id"@) && has_column(columns@, "model_provider"@)),
        r.catalog_provider == (has_column(catalog_columns@, "thread_id"@) && has_column(
            catalog_columns@,
            "model_provider"@,
        )),
        text::texts(r.user_event_thread_ids@) == if has_column(columns@, "has_user_event"@) {
            catalog::ids_without(
                text::texts(user_event_thread_ids@),
                text::texts(excluded_thread_ids@),
            )
        } else {
            Seq::empty()
        },
        r.cwds@ == if has_column(columns@, "cwd"@) {
            cwds_without(cwd_by_thread_id@, text::texts(excluded_thread_ids@))
        } else {
            Seq::empty()
        },
{
    let user_event_thread_ids = if text::contains_text(columns, "has_user_event") {
        catalog::remove_ids(user_event_thread_ids, excluded_thread_ids)
    } else {
        let none: Vec<String> = Vec::new();
        assert(text::texts(none@) =~= Seq::<Seq<char>>::empty());
        none
    };
    let cwds = if text::contains_text(columns, "cwd") {
        remove_cwds(cwd_by_thread_id, excluded_thread_ids)
    } else {
        Vec::new()
    };
    SqliteUpdatePlan {
        applies: text::contains_text(columns, "model_provider") || text::contains_text(
            catalog_columns,
            "model_provider",
        ),
        threads_provider: text::contains_text(columns, "id") && text::contains_text(
            columns,
            "model_provider",
        ),
        catalog_provider: text::contains_text(catalog_columns, "thread_id")
            && text::contains_text(catalog_columns, "model_provider"),
        user_event_thread_ids,
        cwds,
    }
}

/// A thread that is left out is in no list of threads to change.
pub proof fn lemma_excluded_threads_are_left_alone(
    ids: Seq<Seq<char>>,
    cwds: Seq<ThreadCwd>,
    excluded: Seq<Seq<char>>,
    id: Seq<char>,
)
    requires
        excluded.contains(id),
    ensures
        !catalog::ids_without(ids, excluded).contains(id),
        forall|i: int|
            0 <= i < cwds_without(cwds, excluded).len() ==> (#[trigger] cwds_without(
                cwds,
                excluded,
            )[i]).thread_id@ != id,
    decreases cwds.len(),
{
    catalog::lemma_ids_without(ids, excluded);
    if cwds.len() > 0 {
        lemma_excluded_threads_are_left_alone(ids, cwds.drop_last(), excluded, id);
        let before = cwds_without(cwds.drop_last(), excluded);
        let whole = cwds_without(cwds, excluded);
        assert forall|i: int| 0 <= i < whole.len() implies (#[trigger] whole[i]).thread_id@
            != id by {
            if i < before.len() {
                assert(whole[i] == before[i]);
            }
        }
    }
}

/// Hands a thread of the catalog over to a provider.
pub fn recovery_provider_update_sql(columns: &Vec<String>) -> (r: String)
    ensures
        r@ == "UPDATE local_thread_catalog SET model_provider = ?1 WHERE thread_id = ?2"@
            + by_column(columns@, "host_id"@, " AND host_id = ?3"@, " AND ?3 = ?3"@)
            + " AND model_provider = ?4"@,
{
    let mut out = text::join_text(
        "UPDATE local_thread_catalog SET model_provider = ?1 WHERE thread_id = ?2",
        choose_by_column(columns, "host_id", " AND host_id = ?3", " AND ?3 = ?3"),
    );
    text::append_text(&mut out, " AND model_provider = ?4");
    out
}

/// Takes back that a thread of the catalog may be missing. There is no statement where
/// that is not recorded.
pub fn clear_missing_sql(columns: &Vec<String>) -> (r: Option<String>)
    ensures
        text::text_of(r) == if has_column(columns@, "missing_candidate"@) {
            Some(
                "UPDATE local_thread_catalog SET missing_candidate = 0 WHERE thread_id = ?1"@
                    + by_column(columns@, "host_id"@, " AND host_id = ?2"@, " AND ?2 = ?2"@)
                    + " AND COALESCE(missing_candidate, 0) <> 0"@,
            )
        } else {
            None
        },
{
    if !text::contains_text(columns, "missing_candidate") {
        return None;
    }
    let mut out = text::join_text(
        "UPDATE local_thread_catalog SET missing_candidate = 0 WHERE thread_id = ?1",
        choose_by_column(columns, "host_id", " AND host_id = ?2", " AND ?2 = ?2"),
    );
    text::append_text(&mut out, " AND COALESCE(missing_candidate, 0) <> 0");
    Some(out)
}

/// Sets the provider of a thread of the catalog, and that it is not missing.
pub fn catalog_provider_update_sql(columns: &Vec<String>) -> (r: String)
    ensures
        r@ == "UPDATE local_thread_catalog SET model_provider = ?1"@ + by_column(
            columns@,
            "missing_candidate"@,
            ", missing_candidate = 0"@,
            ""@,
        ) + " WHERE thread_id = ?2"@ + by_column(
            columns@,
            "host_id"@,
            " AND host_id = ?3"@,
            " AND ?3 = ?3"@,
        ) + " AND COALESCE(model_provider, '') <> ?1"@,
{
    let mut out = text::join_text(
        "UPDATE local_thread_catalog SET model_provider = ?1",
        choose_by_column(columns, "missing_candidate", ", missing_candidate = 0", ""),
    );
    text::append_text(&mut out, " WHERE thread_id = ?2");
    text::append_text(
        &mut out,
        choose_by_column(columns, "host_id", " AND host_id = ?3", " AND ?3 = ?3"),
    );
    text::append_text(&mut out, " AND COALESCE(model_provider, '') <> ?1");
    out
}

/// So many places for values.
pub open spec fn places(n: nat) -> Seq<Seq<char>> {
    Seq::new(n, |i: int| "?"@)
}

fn make_places(n: usize) -> (r: Vec<String>)
    ensures
        text::texts(r@) == places(n as nat),
{
    let mut out: Vec<String> = Vec::new();
    let mut i: usize = 0;
    while i < n
        invariant
            i <= n,
            text::texts(out@) == places(i as nat),
        decreases n - i,
    {
        let ghost before = text::texts(out@);
        out.push(text::copy_text("?"));
        assert(text::texts(out@) =~= before.push("?"@));
        assert(text::texts(out@) =~= places((i + 1) as nat));
        i += 1;
    }
    out
}

pub open spec fn column_names(v: Seq<CatalogColumn>) -> Seq<Seq<char>> {
    v.map_values(|c: CatalogColumn| repair::name_of_column(c))
}

/// Inserts a row into the catalog, unless it is there.
pub fn catalog_insert_sql(columns: &Vec<CatalogColumn>) -> (r: String)
    ensures
        r@ == "INSERT OR IGNORE INTO local_thread_catalog ("@ + text::separated(
            column_names(columns@),
            ", "@,
        ) + ") VALUES ("@ + text::separated(places(columns@.len()), ", "@) + ")"@,
{
    let mut names: Vec<String> = Vec::new();
    let mut i: usize = 0;
    while i < columns.len()
        invariant
            i <= columns.len(),
            text::texts(names@) == column_names(columns@).take(i as int),
        decreases columns.len() - i,
    {
        let ghost before = text::texts(names@);
        names.push(text::copy_text(repair::column_name(columns[i])));
        assert(text::texts(names@) =~= before.push(repair::name_of_column(columns@[i as int])));
        assert(text::texts(names@) =~= column_names(columns@).take(i + 1));
        i += 1;
    }
    assert(text::texts(names@) =~= column_names(columns@));
    let mut out = text::join_text(
        "INSERT OR IGNORE INTO local_thread_catalog (",
        text::separate_texts(&names, ", ").as_str(),
    );
    text::append_text(&mut out, ") VALUES (");
    text::append_text(&mut out, text::separate_texts(&make_places(columns.len()), ", ").as_str());
    text::append_text(&mut out, ")");
    out
}

// ---------------------------------------------------------------------------
// The state of synchronisation
// ---------------------------------------------------------------------------
/// A statement and the values in its places.
#[derive(Debug)]
pub struct SqlStatement {
    pub sql: String,
    pub values: Vec<CatalogValue>,
}

/// A sequence with one more element, if a condition holds.
pub open spec fn push_if<T>(v: Seq<T>, condition: bool, x: T) -> Seq<T> {
    if condition {
        v.push(x)
    } else {
        v
    }
}

/// What is set where the state of the host is recorded: each value only goes up.
pub open spec fn sync_assignments(columns: Seq<String>) -> Seq<Seq<char>> {
    push_if(
        push_if(
            push_if(
                push_if(
                    Seq::empty(),
                    has_column(columns, "initial_build_complete"@),
                    "initial_build_complete = 1"@,
                ),
                has_column(columns, "observation_sequence"@),
                "observation_sequence = MAX(COALESCE(observation_sequence, 0), ?)"@,
            ),
            has_column(columns, "watermark_updated_at"@),
            "watermark_updated_at = MAX(COALESCE(watermark_updated_at, 0), ?)"@,
        ),
        has_column(columns, "last_full_reconciled_at"@),
        "last_full_reconciled_at = MAX(COALESCE(last_full_reconciled_at, 0), ?)"@,
    )
}

pub open spec fn sync_update_values(
    columns: Seq<String>,
    host_id: String,
    observation_sequence: i64,
    max_source_updated_at: i64,
    now: i64,
) -> Seq<CatalogValue> {
    push_if(
        push_if(
            push_if(
                Seq::empty(),
                has_column(columns, "observation_sequence"@),
                CatalogValue::Integer(observation_sequence),
            ),
            has_column(columns, "watermark_updated_at"@),
            CatalogValue::Real(max_source_updated_at),
        ),
        has_column(columns, "last_full_reconciled_at"@),
        CatalogValue::Integer(now),
    ).push(CatalogValue::Text(host_id))
}

fn push_text_if(v: &mut Vec<String>, condition: bool, s: &str)
    ensures
        text::texts(final(v)@) == push_if(text::texts(old(v)@), condition, s@),
{
    let ghost before = text::texts(v@);
    if condition {
        v.push(text::copy_text(s));
        assert(text::texts(v@) =~= before.push(s@));
    }
}

/// Brings the recorded state of the host up to date. There is no statement where none
/// of it is recorded, or hosts are not told apart.
pub fn sync_state_update(
    columns: &Vec<String>,
    host_id: &String,
    observation_sequence: i64,
    max_source_updated_at: i64,
    now: i64,
) -> (r: Option<SqlStatement>)
    ensures
        match r {
            Some(s) => has_column(columns@, "host_id"@) && sync_assignments(columns@).len() > 0
                && s.sql@ == "UPDATE local_thread_catalog_sync_state SET "@ + text::separated(
                sync_assignments(columns@),
                ", "@,
            ) + " WHERE host_id = ?"@ && s.values@ == sync_update_values(
                columns@,
                *host_id,
                observation_sequence,
                max_source_updated_at,
                now,
            ),
            None => !has_column(columns@, "host_id"@) || sync_assignments(columns@).len() == 0,
        },
{
    if !text::contains_text(columns, "host_id") {
        return None;
    }
    let built = text::contains_text(columns, "initial_build_complete");
    let sequence = text::contains_text(columns, "observation_sequence");
    let watermark = text::contains_text(columns, "watermark_updated_at");
    let reconciled = text::contains_text(columns, "last_full_reconciled_at");
    let mut assignments: Vec<String> = Vec::new();
    assert(text::texts(assignments@) =~= Seq::<Seq<char>>::empty());
    push_text_if(&mut assignments, built, "initial_build_complete = 1");
    push_text_if(
        &mut assignments,
        sequence,
        "observation_sequence = MAX(COALESCE(observation_sequence, 0), ?)",
    );
    push_text_if(
        &mut assignments,
        watermark,
        "watermark_updated_at = MAX(COALESCE(watermark_updated_at, 0), ?)",
    );
    push_text_if(
        &mut assignments,
        reconciled,
        "last_full_reconciled_at = MAX(COALESCE(last_full_reconciled_at, 0), ?)",
    );
    assert(text::texts(assignments@).len() == assignments@.len());
    if assignments.len() == 0 {
        return None;
    }
    let mut values: Vec<CatalogValue> = Vec::new();
    if sequence {
        values.push(CatalogValue::Integer(observation_sequence));
    }
    if watermark {
        values.push(CatalogValue::Real(max_source_updated_at));
    }
    if reconciled {
        values.push(CatalogValue::Integer(now));
    }
    values.push(CatalogValue::Text(host_id.clone()));
    let mut sql = text::join_text(
        "UPDATE local_thread_catalog_sync_state SET ",
        text::separate_texts(&assignments, ", ").as_str(),
    );
    text::append_text(&mut sql, " WHERE host_id = ?");
    Some(SqlStatement { sql, values })
}

pub open spec fn sync_insert_columns(columns: Seq<String>) -> Seq<Seq<char>> {
    push_if(
        push_if(
            push_if(
                push_if(
                    seq!["host_id"@],
                    has_column(columns, "watermark_updated_at"@),
                    "watermark_updated_at"@,
                ),
                has_column(columns, "initial_build_complete"@),
                "initial_build_complete"@,
            ),
            has_column(columns, "observation_sequence"@),
            "observation_sequence"@,
        ),
        has_column(columns, "last_full_reconciled_at"@),
        "last_full_reconciled_at"@,
    )
}

pub open spec fn sync_insert_values(
    columns: Seq<String>,
    host_id: String,
    observation_sequence: i64,
    max_source_updated_at: i64,
    now: i64,
) -> Seq<CatalogValue> {
    push_if(
        push_if(
            push_if(
                push_if(
                    seq![CatalogValue::Text(host_id)],
                    has_column(columns, "watermark_updated_at"@),
                    CatalogValue::Real(max_source_updated_at),
                ),
                has_column(columns, "initial_build_complete"@),
                CatalogValue::Integer(1),
            ),
            has_column(columns, "observation_sequence"@),
            CatalogValue::Integer(observation_sequence),
        ),
        has_column(columns, "last_full_reconciled_at"@),
        CatalogValue::Integer(now),
    )
}

/// Records the state of the host, where nothing is recorded of it yet.
pub fn sync_state_insert(
    columns: &Vec<String>,
    host_id: &String,
    observation_sequence: i64,
    max_source_updated_at: i64,
    now: i64,
) -> (r: SqlStatement)
    ensures
        r.sql@ == "INSERT INTO local_thread_catalog_sync_state ("@ + text::separated(
            sync_insert_columns(columns@),
            ", "@,
        ) + ") VALUES ("@ + text::separated(places(r.values@.len()), ", "@) + ")"@,
        r.values@ == sync_insert_values(
            columns@,
            *host_id,
            observation_sequence,
            max_source_updated_at,
            now,
        ),
        r.values@.len() == sync_insert_columns(columns@).len(),
{
    let built = text::contains_text(columns, "initial_build_complete");
    let sequence = text::contains_text(columns, "observation_sequence");
    let watermark = text::contains_text(columns, "watermark_updated_at");
    let reconciled = text::contains_text(columns, "last_full_reconciled_at");
    let mut names = vec![text::copy_text("host_id")];
    assert(text::texts(names@) =~= seq!["host_id"@]);
    push_text_if(&mut names, watermark, "watermark_updated_at");
    push_text_if(&mut names, built, "initial_build_complete");
    push_text_if(&mut names, sequence, "observation_sequence");
    push_text_if(&mut names, reconciled, "last_full_reconciled_at");
    let mut values = vec![CatalogValue::Text(host_id.clone())];
    assert(values@ =~= seq![CatalogValue::Text(*host_id)]);
    if watermark {
        values.push(CatalogValue::Real(max_source_updated_at));
    }
    if built {
        values.push(CatalogValue::Integer(1));
    }
    if sequence {
        values.push(CatalogValue::Integer(observation_sequence));
    }
    if reconciled {
        values.push(CatalogValue::Integer(now));
    }
    let mut sql = text::join_text(
        "INSERT INTO local_thread_catalog_sync_state (",
        text::separate_texts(&names, ", ").as_str(),
    );
    text::append_text(&mut sql, ") VALUES (");
    text::append_text(&mut sql, text::separate_texts(&make_places(values.len()), ", ").as_str());
    text::append_text(&mut sql, ")");
    SqlStatement { sql, values }
}

// ---------------------------------------------------------------------------
// How statements are put together
// ---------------------------------------------------------------------------
/// In the name of a table each quote is written twice; everything else stays as it is.
pub proof fn lemma_quotes_are_doubled(s: Seq<char>, c: char)
    ensures
        quotes_doubled(Seq::empty()) == Seq::<char>::empty(),
        quotes_doubled(s.push('"')) == quotes_doubled(s).push('"').push('"'),
        c != '"' ==> quotes_doubled(s.push(c)) == quotes_doubled(s).push(c),
        !s.contains('"') ==> quotes_doubled(s) == s,
    decreases s.len(),
{
    assert(s.push('"').drop_last() =~= s);
    assert(s.push(c).drop_last() =~= s);
    if s.len() > 0 {
        let init = s.drop_last();
        lemma_quotes_are_doubled(init, c);
        assert(s =~= init.push(s.last()));
        if !s.contains('"') {
            assert(s[s.len() - 1] != '"');
            assert(!init.contains('"')) by {
                if init.contains('"') {
                    let i = choose|i: int| 0 <= i < init.len() && init[i] == '"';
                    assert(s[i] == '"');
                }
            }
        }
    } else {
        assert(quotes_doubled(s) =~= s);
    }
}

/// A column is read where the table has it, with the fallback in place of a missing value;
/// otherwise the fallback stands for it.
pub proof fn lemma_columns_are_read_where_they_are(
    columns: Seq<String>,
    column: Seq<char>,
    fallback: Seq<char>,
)
    ensures
        text::texts(columns).contains(column) ==> text_expression(columns, column, fallback)
            == "COALESCE("@ + column + ", "@ + fallback + ")"@,
        !text::texts(columns).contains(column) ==> text_expression(columns, column, fallback)
            == fallback,
{
}

/// Of several columns those that the table has are tried in their order, empty texts not
/// counted, and the fallback last; with none of them the fallback stands alone.
pub proof fn lemma_columns_are_tried_in_order(
    columns: Seq<String>,
    candidates: Seq<Seq<char>>,
    candidate: Seq<char>,
    fallback: Seq<char>,
)
    ensures
        filled_columns(columns, Seq::empty()) == Seq::<Seq<char>>::empty(),
        filled_columns(columns, candidates.push(candidate)) == if text::texts(columns).contains(
            candidate,
        ) {
            filled_columns(columns, candidates).push("NULLIF("@ + candidate + ", '')"@)
        } else {
            filled_columns(columns, candidates)
        },
        filled_columns(columns, candidates).len() == 0 ==> coalesce_expression(
            columns,
            candidates,
            fallback,
        ) == fallback,
        filled_columns(columns, candidates).len() > 0 ==> coalesce_expression(
            columns,
            candidates,
            fallback,
        ) == "COALESCE("@ + text::separated(filled_columns(columns, candidates), ", "@) + ", "@
            + fallback + ")"@,
{
    assert(candidates.push(candidate).drop_last() =~= candidates);
    let filled = filled_columns(columns, candidates);
    if filled.len() > 0 {
        text::lemma_separated(filled, ", "@, fallback);
        assert("COALESCE("@ + (text::separated(filled, ", "@) + ", "@ + fallback) + ")"@
            =~= "COALESCE("@ + text::separated(filled, ", "@) + ", "@ + fallback + ")"@);
    }
}

/// A time is read in seconds: from a column of milliseconds where there is one, else from a
/// column of seconds, in which large values are milliseconds, else it is zero.
pub proof fn lemma_times_are_read_in_seconds(
    columns: Seq<String>,
    ms: Seq<char>,
    seconds: Seq<char>,
)
    ensures
        ({
            let e = timestamp_expression(columns, ms, seconds);
            let there = |c: Seq<char>| text::texts(columns).contains(c);
            &&& there(ms) ==> e == "COALESCE("@ + ms + " / 1000.0, 0)"@
            &&& !there(ms) && there(seconds) ==> e == "CASE WHEN COALESCE("@ + seconds
                + ", 0) > 9999999999 THEN "@ + seconds + " / 1000.0 ELSE COALESCE("@ + seconds
                + ", 0) END"@
            &&& !there(ms) && !there(seconds) ==> e == "0"@
        }),
        ({
            let e = created_expression(columns);
            let there = |c: Seq<char>| text::texts(columns).contains(c);
            &&& there("created_at_ms"@) ==> e == Some(
                "CAST(COALESCE(created_at_ms, 0) / 1000 AS INTEGER)"@,
            )
            &&& !there("created_at_ms"@) && there("created_at"@) ==> e == Some(
                "CAST(COALESCE(created_at, 0) AS INTEGER)"@,
            )
            &&& !there("created_at_ms"@) && !there("created_at"@) ==> e is None
        }),
{
}

/// Threads that were spawned, and threads that jobs were given to, are left out where the
/// tables tell of them.
pub proof fn lemma_spawned_threads_are_left_out(
    edge_columns: Seq<String>,
    job_columns: Seq<String>,
    id: Seq<char>,
)
    ensures
        ({
            let edge =
                " AND NOT EXISTS (SELECT 1 FROM thread_spawn_edges e WHERE e.child_thread_id = "@
                + id + ")"@;
            let job =
                " AND NOT EXISTS (SELECT 1 FROM agent_job_items j WHERE j.assigned_thread_id = "@
                + id + ")"@;
            subagent_condition(edge_columns, job_columns, id) == (if text::texts(
                edge_columns,
            ).contains("child_thread_id"@) {
                edge
            } else {
                Seq::empty()
            }) + (if text::texts(job_columns).contains("assigned_thread_id"@) {
                job
            } else {
                Seq::empty()
            })
        }),
{
    reveal_strlit(" AND ");
    reveal_strlit("");
    reveal_strlit("NOT EXISTS (SELECT 1 FROM thread_spawn_edges e WHERE e.child_thread_id = ");
    reveal_strlit("NOT EXISTS (SELECT 1 FROM agent_job_items j WHERE j.assigned_thread_id = ");
    reveal_strlit(
        " AND NOT EXISTS (SELECT 1 FROM thread_spawn_edges e WHERE e.child_thread_id = ",
    );
    reveal_strlit(
        " AND NOT EXISTS (SELECT 1 FROM agent_job_items j WHERE j.assigned_thread_id = ",
    );
    let edge = " AND NOT EXISTS (SELECT 1 FROM thread_spawn_edges e WHERE e.child_thread_id = "@
        + id + ")"@;
    let job = " AND NOT EXISTS (SELECT 1 FROM agent_job_items j WHERE j.assigned_thread_id = "@
        + id + ")"@;
    assert(" AND "@
        + "NOT EXISTS (SELECT 1 FROM thread_spawn_edges e WHERE e.child_thread_id = "@
        =~= " AND NOT EXISTS (SELECT 1 FROM thread_spawn_edges e WHERE e.child_thread_id = "@);
    assert(" AND "@
        + "NOT EXISTS (SELECT 1 FROM agent_job_items j WHERE j.assigned_thread_id = "@
        =~= " AND NOT EXISTS (SELECT 1 FROM agent_job_items j WHERE j.assigned_thread_id = "@);
    assert(" AND "@ + no_edge(id) =~= edge);
    assert(" AND "@ + no_job(id) =~= job);
    assert(" AND "@ + no_edge(id) + " AND "@ + no_job(id) =~= edge + job);
    assert(edge + Seq::<char>::empty() =~= edge);
    assert(Seq::<char>::empty() + job =~= job);
    assert(""@ =~= Seq::<char>::empty() + Seq::<char>::empty());
}

/// What a column decides.
pub proof fn lemma_what_a_column_decides(
    columns: Seq<String>,
    column: Seq<char>,
    there: Seq<char>,
    missing: Seq<char>,
)
    ensures
        text::texts(columns).contains(column) ==> by_column(columns, column, there, missing)
            == there,
        !text::texts(columns).contains(column) ==> by_column(columns, column, there, missing)
            == missing,
{
}

/// The working directories that are set are those of the threads that are not left out, in
/// their order.
pub proof fn lemma_directories_that_are_set(
    v: Seq<ThreadCwd>,
    others: Seq<Seq<char>>,
    c: ThreadCwd,
)
    ensures
        cwds_without(Seq::empty(), others) == Seq::<ThreadCwd>::empty(),
        cwds_without(v.push(c), others) == if others.contains(c.thread_id@) {
            cwds_without(v, others)
        } else {
            cwds_without(v, others).push(c)
        },
        cwds_without(v, others).contains(c) <==> v.contains(c) && !others.contains(c.thread_id@),
    decreases v.len(),
{
    assert(v.push(c).drop_last() =~= v);
    if v.len() > 0 {
        let init = v.drop_last();
        lemma_directories_that_are_set(init, others, c);
        assert(v =~= init.push(v.last()));
        text::lemma_push_contains(init, v.last(), c);
        text::lemma_push_contains(cwds_without(init, others), v.last(), c);
    }
}

/// What the state of synchronisation is set to: each part that the table has a column for,
/// in its place; as many places are left open as there are values, and no value goes into a
/// column of another part.
pub proof fn lemma_state_of_synchronisation(
    columns: Seq<String>,
    host_id: String,
    observation_sequence: i64,
    max_source_updated_at: i64,
    now: i64,
)
    ensures
        ({
            let names = sync_insert_columns(columns);
            let values = sync_insert_values(
                columns,
                host_id,
                observation_sequence,
                max_source_updated_at,
                now,
            );
            let there = |c: Seq<char>| text::texts(columns).contains(c);
            &&& names.len() == values.len()
            &&& names[0] == "host_id"@ && values[0] == CatalogValue::Text(host_id)
            &&& forall|i: int|
                1 <= i < names.len() ==> (match values[i] {
                    CatalogValue::Real(n) => #[trigger] names[i] == "watermark_updated_at"@ && n
                        == max_source_updated_at,
                    CatalogValue::Integer(n) => (names[i] == "initial_build_complete"@ && n == 1)
                        || (names[i] == "observation_sequence"@ && n == observation_sequence) || (
                    names[i] == "last_full_reconciled_at"@ && n == now),
                    _ => false,
                })
            &&& there("watermark_updated_at"@) ==> names.contains("watermark_updated_at"@)
            &&& there("initial_build_complete"@) ==> names.contains("initial_build_complete"@)
            &&& there("observation_sequence"@) ==> names.contains("observation_sequence"@)
            &&& there("last_full_reconciled_at"@) ==> names.contains("last_full_reconciled_at"@)
            &&& forall|i: int| 1 <= i < names.len() ==> there(#[trigger] names[i])
        }),
{
    let a = has_column(columns, "watermark_updated_at"@);
    let b = has_column(columns, "initial_build_complete"@);
    let c = has_column(columns, "observation_sequence"@);
    let d = has_column(columns, "last_full_reconciled_at"@);
    let n0 = seq!["host_id"@];
    let n1 = push_if(n0, a, "watermark_updated_at"@);
    let n2 = push_if(n1, b, "initial_build_complete"@);
    let n3 = push_if(n2, c, "observation_sequence"@);
    let names = push_if(n3, d, "last_full_reconciled_at"@);
    assert(names == sync_insert_columns(columns));
    if a {
        assert(names[1] == "watermark_updated_at"@);
    }
    if b {
        assert(names[n1.len() as int] == "initial_build_complete"@);
    }
    if c {
        assert(names[n2.len() as int] == "observation_sequence"@);
    }
    if d {
        assert(names[n3.len() as int] == "last_full_reconciled_at"@);
    }
}

/// What is updated of the state of synchronisation: it never goes back, it is marked as
/// built, and it is that of the host which stands last.
pub proof fn lemma_update_of_the_state(
    columns: Seq<String>,
    host_id: String,
    observation_sequence: i64,
    max_source_updated_at: i64,
    now: i64,
)
    ensures
        ({
            let parts = sync_assignments(columns);
            let values = sync_update_values(
                columns,
                host_id,
                observation_sequence,
                max_source_updated_at,
                now,
            );
            let there = |c: Seq<char>| text::texts(columns).contains(c);
            let built = if there("initial_build_complete"@) {
                1int
            } else {
                0
            };
            &&& values.len() == parts.len() - built + 1
            &&& values.last() == CatalogValue::Text(host_id)
            &&& parts.contains("initial_build_complete = 1"@) || !there("initial_build_complete"@)
            &&& forall|i: int|
                0 <= i < values.len() - 1 ==> (match #[trigger] values[i] {
                    CatalogValue::Real(n) => n == max_source_updated_at && parts[i + built]
                        == "watermark_updated_at = MAX(COALESCE(watermark_updated_at, 0), ?)"@,
                    CatalogValue::Integer(n) => (n == observation_sequence && parts[i + built]
                        == "observation_sequence = MAX(COALESCE(observation_sequence, 0), ?)"@)
                        || (n == now && parts[i + built]
                        == "last_full_reconciled_at = MAX(COALESCE(last_full_reconciled_at, 0), ?)"@),
                    _ => false,
                })
            &&& there("observation_sequence"@) ==> parts.contains(
                "observation_sequence = MAX(COALESCE(observation_sequence, 0), ?)"@,
            )
            &&& there("watermark_updated_at"@) ==> parts.contains(
                "watermark_updated_at = MAX(COALESCE(watermark_updated_at, 0), ?)"@,
            )
            &&& there("last_full_reconciled_at"@) ==> parts.contains(
                "last_full_reconciled_at = MAX(COALESCE(last_full_reconciled_at, 0), ?)"@,
            )
        }),
{
    let a = has_column(columns, "initial_build_complete"@);
    let b = has_column(columns, "observation_sequence"@);
    let c = has_column(columns, "watermark_updated_at"@);
    let d = has_column(columns, "last_full_reconciled_at"@);
    let p0 = Seq::<Seq<char>>::empty();
    let p1 = push_if(p0, a, "initial_build_complete = 1"@);
    let p2 = push_if(
        p1,
        b,
        "observation_sequence = MAX(COALESCE(observation_sequence, 0), ?)"@,
    );
    let p3 = push_if(
        p2,
        c,
        "watermark_updated_at = MAX(COALESCE(watermark_updated_at, 0), ?)"@,
    );
    let parts = push_if(
        p3,
        d,
        "last_full_reconciled_at = MAX(COALESCE(last_full_reconciled_at, 0), ?)"@,
    );
    assert(parts == sync_assignments(columns));
    if a {
        assert(parts[0] == "initial_build_complete = 1"@);
    }
    if b {
        assert(parts[p1.len() as int]
            == "observation_sequence = MAX(COALESCE(observation_sequence, 0), ?)"@);
    }
    if c {
        assert(parts[p2.len() as int]
            == "watermark_updated_at = MAX(COALESCE(watermark_updated_at, 0), ?)"@);
    }
    if d {
        assert(parts[p3.len() as int]
            == "last_full_reconciled_at = MAX(COALESCE(last_full_reconciled_at, 0), ?)"@);
    }
}

/// One place is left open for each value.
pub proof fn lemma_one_place_for_each_value(n: nat, i: int)
    ensures
        places(n).len() == n,
        0 <= i < n ==> places(n)[i] == "?"@,
{
}

/// What is read of the source of a thread: its id, its source and who made it, in this
/// order, from the rows that have an id.
pub proof fn lemma_what_is_read_of_a_source(
    columns: Seq<String>,
    table: Seq<char>,
    id_column: Seq<char>,
    source_column: Seq<char>,
)
    ensures
        thread_source_query(columns, table, id_column, source_column) == "SELECT "@ + id_column
            + ", "@ + text_expression(columns, source_column, "''"@) + ", "@ + text_expression(
            columns,
            "thread_source"@,
            "NULL"@,
        ) + " FROM "@ + table + " WHERE COALESCE("@ + id_column + ", '') <> ''"@,
{
}

/// What is read of a thread for the catalog: twelve expressions in the order of the parts
/// of a row, from the rows that have an id. The title is the first of the name, the title,
/// the preview and the first message that is there, and the id where none is.
pub proof fn lemma_what_is_read_for_the_catalog(columns: Seq<String>, filter: Seq<char>)
    ensures
        ({
            let title = coalesce_expression(
                columns,
                seq!["name"@, "title"@, "preview"@, "first_user_message"@],
                "id"@,
            );
            let created = timestamp_expression(columns, "created_at_ms"@, "created_at"@);
            let updated = timestamp_expression(columns, "updated_at_ms"@, "updated_at"@);
            let source = coalesce_expression(columns, seq!["source"@], "'cli'"@);
            catalog_plan_query(columns, filter) == "SELECT id, "@ + title + ", "@ + created + ", "@
                + updated + ", "@ + text_expression(columns, "cwd"@, "''"@) + ", "@ + source
                + ", "@ + text_expression(columns, "rollout_path"@, "''"@) + ", "@
                + text_expression(columns, "git_branch"@, "NULL"@) + ", "@ + text_expression(
                columns,
                "thread_source"@,
                "NULL"@,
            ) + ", "@ + text_expression(columns, "archived"@, "0"@) + ", "@ + text_expression(
                columns,
                "has_user_event"@,
                "1"@,
            ) + ", "@ + text_expression(columns, "agent_role"@, "''"@)
                + " FROM threads WHERE COALESCE(id, '') <> ''"@ + filter
        }),
{
}

/// Columns that hold ids are told by table and column, and the columns of a row by their
/// names.
pub proof fn lemma_columns_are_told_by_their_names(
    v: Seq<IdColumn>,
    i: int,
    c: Seq<CatalogColumn>,
    k: int,
)
    requires
        0 <= i < v.len(),
        0 <= k < c.len(),
    ensures
        id_columns(v).len() == v.len(),
        id_columns(v)[i].0 == v[i].table@,
        id_columns(v)[i].1 == v[i].column@,
        column_names(c).len() == c.len(),
        column_names(c)[k] == repair::name_of_column(c[k]),
{
}

} // verus!
