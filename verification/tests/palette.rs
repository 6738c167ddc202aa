use command_palette::store::CommandPaletteDb;
use command_palette::time::Timestamp;

fn ts(ms: i64) -> Timestamp {
    Timestamp::from_unix_millis(ms).unwrap()
}

#[test]
fn schema_is_idempotent() {
    let conn = rusqlite::Connection::open_in_memory().unwrap();
    for stmt in command_palette::schema::schema_statements() {
        conn.execute(stmt, []).unwrap();
    }
    let mut first: Vec<(String, Option<String>)> = Vec::new();
    {
        let mut q = conn
            .prepare("SELECT name, sql FROM sqlite_master ORDER BY name")
            .unwrap();
        let rows = q.query_map([], |r| Ok((r.get(0)?, r.get(1)?))).unwrap();
        for row in rows {
            first.push(row.unwrap());
        }
    }
    // Applying the schema a second time must neither fail nor change it.
    for stmt in command_palette::schema::schema_statements() {
        conn.execute(stmt, []).unwrap();
    }
    let mut second: Vec<(String, Option<String>)> = Vec::new();
    {
        let mut q = conn
            .prepare("SELECT name, sql FROM sqlite_master ORDER BY name")
            .unwrap();
        let rows = q.query_map([], |r| Ok((r.get(0)?, r.get(1)?))).unwrap();
        for row in rows {
            second.push(row.unwrap());
        }
    }
    assert_eq!(first, second);
    let tables: Vec<&(String, Option<String>)> = first
        .iter()
        .filter(|(n, _)| !n.starts_with("sqlite_"))
        .collect();
    assert_eq!(tables.len(), 11);
    for i in 1..first.len() {
        assert_ne!(first[i - 1].0, first[i].0);
    }
}

#[test]
fn query_retention_keeps_the_hundred_most_recent() {
    let mut db = CommandPaletteDb::new();
    for i in 0..150i64 {
        let t = ts(i * 1000);
        db.record_query_at(&format!("q{}", i), i as i32, &t);
    }
    let out = db.get_recent_queries(1000);
    assert_eq!(out.len(), 100);
    assert_eq!(out[0].query, "q149");
    assert_eq!(out[99].query, "q50");
    for w in out.windows(2) {
        assert!(w[0].timestamp >= w[1].timestamp);
    }
}

#[test]
fn resource_access_upserts_one_row() {
    let mut db = CommandPaletteDb::new();
    let t1 = ts(1_000);
    let t2 = ts(2_000);
    db.record_resource_access_at("pod", "nginx", Some("default"), None, &t1);
    db.record_resource_access_at("pod", "nginx", Some("default"), None, &t2);
    let out = db.get_recent_resources(10, None);
    assert_eq!(out.len(), 1);
    assert_eq!(out[0].access_count, 2);
    assert_eq!(out[0].last_accessed, t2.text().clone());
    // A different key makes a second row.
    db.record_resource_access_at("pod", "nginx", Some("kube-system"), None, &t2);
    assert_eq!(db.get_recent_resources(10, None).len(), 2);
}

#[test]
fn stats_count_successes_and_average_their_times() {
    let mut db = CommandPaletteDb::new();
    db.record_invocation_at("A", Some(100), true, None, None, &ts(1_000));
    db.record_invocation_at("A", Some(200), true, None, None, &ts(2_000));
    db.record_invocation_at("A", None, false, Some("boom"), None, &ts(3_000));
    let out = db.get_command_stats(Some("A"));
    assert_eq!(out.len(), 1);
    assert_eq!(out[0].hit_count, 2);
    // 150.0 milliseconds, held as microseconds.
    assert_eq!(out[0].avg_execution_time_us, Some(150_000));
    assert_eq!(out[0].last_used, ts(2_000).text().clone());
}

#[test]
fn stats_for_an_unknown_command_are_empty() {
    let mut db = CommandPaletteDb::new();
    db.record_invocation_at("A", None, false, Some("boom"), None, &ts(1_000));
    assert!(db.get_command_stats(Some("A")).is_empty());
    assert!(db.get_command_stats(None).is_empty());
}

#[test]
fn top_commands_order_by_hits() {
    let mut db = CommandPaletteDb::new();
    db.record_invocation_at("A", None, true, None, None, &ts(1_000));
    db.record_invocation_at("A", None, true, None, None, &ts(2_000));
    db.record_invocation_at("B", None, true, None, None, &ts(3_000));
    let all = db.get_command_stats(None);
    assert_eq!(all.len(), 2);
    assert_eq!(all[0].command_id, "A");
    assert_eq!(all[1].command_id, "B");
    let top = db.get_top_commands(1);
    assert_eq!(top.len(), 1);
    assert_eq!(top[0].command_id, "A");
}

#[test]
fn pattern_discovery_counts_windows_and_blends_scores() {
    let mut db = CommandPaletteDb::new();
    let cmds = ["X", "Y", "X", "Y", "X", "Y"];
    for (i, c) in cmds.iter().enumerate() {
        db.record_invocation_at(c, None, true, None, None, &ts(i as i64 * 1000));
    }
    let now = ts(5_000);
    let out = db.detect_patterns_at(2, 2, &now);
    assert_eq!(out.len(), 2);
    assert_eq!(out[0].pattern_id, "X -> Y");
    assert_eq!(out[0].frequency, 3);
    assert_eq!(out[1].pattern_id, "Y -> X");
    assert_eq!(out[1].frequency, 2);
    // Same recency, so the more frequent pattern scores higher:
    // 0.7 * 3/20 + 0.3 * 1.0 = 0.405 and 0.7 * 2/20 + 0.3 * 1.0 = 0.37.
    assert_eq!(out[0].confidence_ppm, 405_000);
    assert_eq!(out[1].confidence_ppm, 370_000);
    assert!(out[0].confidence_ppm > out[1].confidence_ppm);
    // One-second gaps average to 1000 milliseconds.
    assert_eq!(out[0].avg_time_between_commands_ms, Some(1000));
    assert_eq!(out[0].last_seen, now.text().clone());
}

#[test]
fn confidence_decays_with_recency() {
    let mut db = CommandPaletteDb::new();
    let cmds = ["X", "Y", "X", "Y", "X", "Y"];
    for (i, c) in cmds.iter().enumerate() {
        db.record_invocation_at(c, None, true, None, None, &ts(i as i64 * 1000));
    }
    // Mining thirty days after the last occurrence halves the recency
    // weight: 0.7 * 3/20 + 0.3 * 0.5 = 0.255.
    let now = ts(5_000 + 30 * 86_400_000);
    let out = db.detect_patterns_at(2, 2, &now);
    assert_eq!(out[0].pattern_id, "X -> Y");
    assert_eq!(out[0].confidence_ppm, 255_000);
    // 0.7 * 2/20 + 0.3 * 0.5 = 0.22.
    assert_eq!(out[1].confidence_ppm, 220_000);
}

#[test]
fn refreshing_patterns_keeps_the_stored_sequence() {
    let mut db = CommandPaletteDb::new();
    // A persisted row whose sequence disagrees with its id keeps its
    // sequence on refresh; only the scores are overwritten.
    db.load_pattern("X -> Y", vec!["stale".into()], 1, 50_000, "old", None);
    let cmds = ["X", "Y", "X", "Y", "X", "Y"];
    for (i, c) in cmds.iter().enumerate() {
        db.record_invocation_at(c, None, true, None, None, &ts(i as i64 * 1000));
    }
    let now = ts(5_000);
    let mined = db.detect_patterns_at(2, 2, &now);
    // The mined set carries the freshly observed sequence...
    assert_eq!(mined[0].command_sequence, vec!["X".to_string(), "Y".to_string()]);
    // ...while the stored row keeps what it had, with refreshed scores.
    let stored = db.get_patterns(0, 10);
    let row = stored.iter().find(|p| p.pattern_id == "X -> Y").unwrap();
    assert_eq!(row.command_sequence, vec!["stale".to_string()]);
    assert_eq!(row.frequency, 3);
    assert_eq!(row.confidence_ppm, 405_000);
    assert_eq!(row.last_seen, now.text().clone());
}

#[test]
fn twenty_occurrences_saturate_the_frequency_weight() {
    let mut db = CommandPaletteDb::new();
    for i in 0..44i64 {
        let c = if i % 2 == 0 { "A" } else { "B" };
        db.record_invocation_at(c, None, true, None, None, &ts(i * 1000));
    }
    let out = db.detect_patterns_at(2, 2, &ts(43_000));
    assert_eq!(out[0].pattern_id, "A -> B");
    assert_eq!(out[0].frequency, 22);
    // 0.7 * 1.0 + 0.3 * 1.0, capped at 1.0.
    assert_eq!(out[0].confidence_ppm, 1_000_000);
}

#[test]
fn patterns_seen_once_are_discarded() {
    let mut db = CommandPaletteDb::new();
    for (i, c) in ["A", "B", "C"].iter().enumerate() {
        db.record_invocation_at(c, None, true, None, None, &ts(i as i64 * 1000));
    }
    let out = db.detect_patterns_at(2, 3, &ts(2_000));
    assert!(out.is_empty());
}

#[test]
fn pattern_detection_below_minimum_is_empty() {
    let mut db = CommandPaletteDb::new();
    db.record_invocation_at("X", None, true, None, None, &ts(1_000));
    db.record_invocation_at("Y", None, true, None, None, &ts(2_000));
    db.record_invocation_at("X", None, true, None, None, &ts(3_000));
    let out = db.detect_patterns_at(5, 8, &ts(4_000));
    assert!(out.is_empty());
    assert!(db.get_patterns(0, 10).is_empty());
}

#[test]
fn patterns_round_trip_through_the_store() {
    let mut db = CommandPaletteDb::new();
    let cmds = ["X", "Y", "X", "Y", "X", "Y"];
    for (i, c) in cmds.iter().enumerate() {
        db.record_invocation_at(c, None, true, None, None, &ts(i as i64 * 1000));
    }
    db.detect_patterns_at(2, 2, &ts(5_000));
    let stored = db.get_patterns(0, 10);
    assert_eq!(stored.len(), 2);
    assert_eq!(stored[0].pattern_id, "X -> Y");
    assert_eq!(stored[0].command_sequence, vec!["X".to_string(), "Y".to_string()]);
    assert_eq!(stored[1].command_sequence, vec!["Y".to_string(), "X".to_string()]);
}

#[test]
fn get_patterns_filters_and_orders_by_confidence() {
    let mut db = CommandPaletteDb::new();
    db.load_pattern("a -> b", vec!["a".into(), "b".into()], 3, 400_000, "t", None);
    db.load_pattern("c -> d", vec!["c".into(), "d".into()], 9, 900_000, "t", None);
    db.load_pattern("e -> f", vec!["e".into(), "f".into()], 1, 100_000, "t", None);
    let out = db.get_patterns(200_000, 10);
    assert_eq!(out.len(), 2);
    assert_eq!(out[0].pattern_id, "c -> d");
    assert_eq!(out[1].pattern_id, "a -> b");
    assert_eq!(db.get_patterns(0, 1).len(), 1);
}

#[test]
fn suggestions_follow_the_best_matching_pattern() {
    let mut db = CommandPaletteDb::new();
    db.load_pattern(
        "A -> B -> C",
        vec!["A".into(), "B".into(), "C".into()],
        5,
        900_000,
        "t",
        None,
    );
    let out = db.get_pattern_suggestions(vec!["A".into(), "B".into()], 10);
    assert_eq!(out.len(), 1);
    assert_eq!(out[0].next_command, "C");
    assert_eq!(out[0].confidence_ppm, 900_000);
    assert_eq!(out[0].pattern_frequency, 5);
    assert_eq!(out[0].context, "A -> B -> C");
}

#[test]
fn suggestions_keep_the_highest_confidence_per_command() {
    let mut db = CommandPaletteDb::new();
    db.load_pattern("A -> C", vec!["A".into(), "C".into()], 2, 800_000, "t", None);
    db.load_pattern(
        "A -> C -> D",
        vec!["A".into(), "C".into(), "D".into()],
        1,
        300_000,
        "t",
        None,
    );
    let out = db.get_pattern_suggestions(vec!["A".into()], 10);
    assert_eq!(out.len(), 1);
    assert_eq!(out[0].next_command, "C");
    assert_eq!(out[0].confidence_ppm, 800_000);
    assert_eq!(out[0].context, "A -> C");
}

#[test]
fn suggestions_without_patterns_are_empty() {
    let db = CommandPaletteDb::new();
    assert!(db.get_pattern_suggestions(vec!["A".into()], 10).is_empty());
}

#[test]
fn cleanup_drops_rows_older_than_ninety_days() {
    let mut db = CommandPaletteDb::new();
    let day_ms: i64 = 86_400_000;
    let now = ts(200 * day_ms);
    db.record_invocation_at("old", None, true, None, None, &ts(100 * day_ms));
    db.record_invocation_at("recent", None, true, None, None, &ts(150 * day_ms));
    let deleted = db.cleanup_old_data_at(&now);
    assert_eq!(deleted, 1);
    let history = db.get_command_history(10);
    assert_eq!(history.len(), 1);
    assert_eq!(history[0].command_id, "recent");
    // Running it again removes nothing.
    assert_eq!(db.cleanup_old_data_at(&now), 0);
}

#[test]
fn history_lists_successes_newest_first() {
    let mut db = CommandPaletteDb::new();
    db.record_invocation_at("one", Some(5), true, None, None, &ts(1_000));
    db.record_invocation_at("two", None, false, Some("err"), None, &ts(2_000));
    db.record_invocation_at("three", None, true, None, None, &ts(3_000));
    let out = db.get_command_history(10);
    assert_eq!(out.len(), 2);
    assert_eq!(out[0].command_id, "three");
    assert_eq!(out[1].command_id, "one");
    assert_eq!(out[1].execution_time_ms, Some(5));
    assert!(out[0].success);
    assert_eq!(db.get_command_history(1).len(), 1);
}

#[test]
fn top_resources_order_by_count_then_recency() {
    let mut db = CommandPaletteDb::new();
    db.record_resource_access_at("pod", "a", None, None, &ts(1_000));
    db.record_resource_access_at("pod", "a", None, None, &ts(2_000));
    db.record_resource_access_at("pod", "b", None, None, &ts(9_000));
    db.record_resource_access_at("deploy", "c", None, None, &ts(5_000));
    let top = db.get_top_resources(10, None);
    assert_eq!(top.len(), 3);
    assert_eq!(top[0].name, "a");
    assert_eq!(top[1].name, "b");
    assert_eq!(top[2].name, "c");
    let pods = db.get_top_resources(10, Some("pod"));
    assert_eq!(pods.len(), 2);
    let recent = db.get_recent_resources(10, Some("pod"));
    assert_eq!(recent[0].name, "b");
}

#[test]
fn loaders_skip_bad_rows_and_clean_bad_values() {
    let mut db = CommandPaletteDb::new();
    assert!(!db.load_query("q", "not a timestamp", 1));
    assert!(db.load_query("q", "2024-01-02T03:04:05+00:00", 1));
    assert_eq!(db.get_recent_queries(10).len(), 1);
    assert!(!db.load_invocation("Z", "nope", Some(10), true, None, None));
    assert!(db.load_invocation("Z", "2024-01-02T03:04:05+00:00", Some(-5), true, None, None));
    let stats = db.get_command_stats(Some("Z"));
    assert_eq!(stats[0].hit_count, 1);
    // A negative persisted execution time is treated as unmeasured.
    assert_eq!(stats[0].avg_execution_time_us, None);
    assert!(db.load_resource("pod", "x", None, None, "2024-01-02T03:04:05+00:00", -7));
    let res = db.get_recent_resources(10, None);
    assert_eq!(res[0].access_count, 1);
}

#[test]
fn timestamps_parse_and_render_consistently() {
    let t = Timestamp::parse("2024-01-02T03:04:05+00:00").unwrap();
    assert_eq!(t.unix_millis(), 1_704_164_645_000);
    assert!(Timestamp::parse("2024-13-40T99:99:99Z").is_none());
    let u = ts(1_704_164_645_000);
    assert_eq!(u.text().as_str(), "2024-01-02T03:04:05+00:00");
    let back = Timestamp::parse(u.text()).unwrap();
    assert_eq!(back.unix_millis(), 1_704_164_645_000);
    // An offset shifts the instant.
    let v = Timestamp::parse("2024-01-02T03:04:05+01:00").unwrap();
    assert_eq!(v.unix_millis(), 1_704_164_645_000 - 3_600_000);
    let now = Timestamp::now();
    // Later than the start of 2020.
    assert!(now.unix_millis() > 1_577_836_800_000);
}

#[test]
fn recording_with_the_clock_lands_in_the_store() {
    let mut db = CommandPaletteDb::new();
    let t = db.record_invocation("live", Some(7), true, None, Some("ctx"));
    let out = db.get_command_stats(Some("live"));
    assert_eq!(out.len(), 1);
    assert_eq!(out[0].last_used, t.text().clone());
    db.record_query("find me", 3);
    assert_eq!(db.get_recent_queries(10)[0].query, "find me");
    db.record_resource_access("pod", "live", None, None);
    assert_eq!(db.get_recent_resources(10, None).len(), 1);
}
