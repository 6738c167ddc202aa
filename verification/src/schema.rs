//! The persisted schema of the event store.
//!
//! A host that keeps the store durable creates these tables and indexes in
//! its storage engine before loading rows back. Every statement creates its
//! object only if absent, so applying the schema is idempotent and may be
//! repeated on every open.

use vstd::prelude::*;

verus! {

/// The statements that lay out the four tables and their indexes, in the
/// order they are to be applied.
pub fn schema_statements() -> (out: Vec<&'static str>)
    ensures
        out@.len() == 11,
        out@[0]@ == (
        "CREATE TABLE IF NOT EXISTS command_invocations (\n    id INTEGER PRIMARY KEY AUTOINCREMENT,\n    command_id TEXT NOT NULL,\n    timestamp TEXT NOT NULL,\n    execution_time_ms INTEGER,\n    success BOOLEAN NOT NULL DEFAULT 1,\n    error_message TEXT,\n    context TEXT\n)")@,
        out@[1]@ == (
        "CREATE TABLE IF NOT EXISTS recent_queries (\n    id INTEGER PRIMARY KEY AUTOINCREMENT,\n    query TEXT NOT NULL,\n    timestamp TEXT NOT NULL,\n    result_count INTEGER NOT NULL DEFAULT 0\n)")@,
        out@[2]@ == (
        "CREATE TABLE IF NOT EXISTS recent_resources (\n    id INTEGER PRIMARY KEY AUTOINCREMENT,\n    kind TEXT NOT NULL,\n    name TEXT NOT NULL,\n    namespace TEXT,\n    context TEXT,\n    timestamp TEXT NOT NULL,\n    access_count INTEGER NOT NULL DEFAULT 1,\n    UNIQUE(kind, name, namespace, context)\n)")@,
        out@[3]@ == (
        "CREATE TABLE IF NOT EXISTS command_patterns (\n    id INTEGER PRIMARY KEY AUTOINCREMENT,\n    pattern_id TEXT UNIQUE NOT NULL,\n    command_sequence TEXT NOT NULL,\n    frequency INTEGER NOT NULL DEFAULT 1,\n    confidence REAL NOT NULL,\n    last_seen TEXT NOT NULL,\n    avg_time_between_commands REAL\n)")@,
        out@[4]@ == (
        "CREATE INDEX IF NOT EXISTS idx_command_id ON command_invocations(command_id)")@,
        out@[5]@ == (
        "CREATE INDEX IF NOT EXISTS idx_timestamp ON command_invocations(timestamp DESC)")@,
        out@[6]@ == (
        "CREATE INDEX IF NOT EXISTS idx_recent_queries_timestamp ON recent_queries(timestamp DESC)")@,
        out@[7]@ == (
        "CREATE INDEX IF NOT EXISTS idx_recent_resources_timestamp ON recent_resources(timestamp DESC)")@,
        out@[8]@ == (
        "CREATE INDEX IF NOT EXISTS idx_recent_resources_kind ON recent_resources(kind)")@,
        out@[9]@ == (
        "CREATE INDEX IF NOT EXISTS idx_patterns_confidence ON command_patterns(confidence DESC)")@,
        out@[10]@ == (
        "CREATE INDEX IF NOT EXISTS idx_patterns_last_seen ON command_patterns(last_seen DESC)")@,
{
    let mut out: Vec<&'static str> = Vec::new();
    out.push(
        "CREATE TABLE IF NOT EXISTS command_invocations (\n    id INTEGER PRIMARY KEY AUTOINCREMENT,\n    command_id TEXT NOT NULL,\n    timestamp TEXT NOT NULL,\n    execution_time_ms INTEGER,\n    success BOOLEAN NOT NULL DEFAULT 1,\n    error_message TEXT,\n    context TEXT\n)",
    );
    out.push(
        "CREATE TABLE IF NOT EXISTS recent_queries (\n    id INTEGER PRIMARY KEY AUTOINCREMENT,\n    query TEXT NOT NULL,\n    timestamp TEXT NOT NULL,\n    result_count INTEGER NOT NULL DEFAULT 0\n)",
    );
    out.push(
        "CREATE TABLE IF NOT EXISTS recent_resources (\n    id INTEGER PRIMARY KEY AUTOINCREMENT,\n    kind TEXT NOT NULL,\n    name TEXT NOT NULL,\n    namespace TEXT,\n    context TEXT,\n    timestamp TEXT NOT NULL,\n    access_count INTEGER NOT NULL DEFAULT 1,\n    UNIQUE(kind, name, namespace, context)\n)",
    );
    out.push(
        "CREATE TABLE IF NOT EXISTS command_patterns (\n    id INTEGER PRIMARY KEY AUTOINCREMENT,\n    pattern_id TEXT UNIQUE NOT NULL,\n    command_sequence TEXT NOT NULL,\n    frequency INTEGER NOT NULL DEFAULT 1,\n    confidence REAL NOT NULL,\n    last_seen TEXT NOT NULL,\n    avg_time_between_commands REAL\n)",
    );
    out.push("CREATE INDEX IF NOT EXISTS idx_command_id ON command_invocations(command_id)");
    out.push("CREATE INDEX IF NOT EXISTS idx_timestamp ON command_invocations(timestamp DESC)");
    out.push(
        "CREATE INDEX IF NOT EXISTS idx_recent_queries_timestamp ON recent_queries(timestamp DESC)",
    );
    out.push(
        "CREATE INDEX IF NOT EXISTS idx_recent_resources_timestamp ON recent_resources(timestamp DESC)",
    );
    out.push("CREATE INDEX IF NOT EXISTS idx_recent_resources_kind ON recent_resources(kind)");
    out.push(
        "CREATE INDEX IF NOT EXISTS idx_patterns_confidence ON command_patterns(confidence DESC)",
    );
    out.push(
        "CREATE INDEX IF NOT EXISTS idx_patterns_last_seen ON command_patterns(last_seen DESC)",
    );
    out
}

} // verus!
