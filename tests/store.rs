use cluster_store::{
    Cluster, CommandExecution, DatabaseClient, Money, StoreError, SummaryCell, SummaryValue, Trace,
};

fn cluster(id: u128, name: &str, node_count: i32) -> Cluster {
    Cluster {
        id,
        name: name.to_string(),
        environment: "staging".to_string(),
        cluster_type: "kubernetes".to_string(),
        region: Some("eu-west-1".to_string()),
        zone: None,
        node_count,
        node_size: "m5.large".to_string(),
        status: "provisioning".to_string(),
        cost_budget: Some(Money { mantissa: 150050, scale: 2 }),
        cost_threshold: Some(80),
        created_at: 0,
        updated_at: 0,
    }
}

fn execution(id: u128, cluster_id: Option<u128>, command: &str, start: i64) -> CommandExecution {
    CommandExecution {
        id,
        cluster_id,
        command: command.to_string(),
        script_name: None,
        arguments: "[]".to_string(),
        exit_code: Some(7),
        stdout: Some("stale".to_string()),
        stderr: None,
        start_time: start,
        end_time: Some(start + 1),
        duration_ms: Some(99),
        user_id: Some("ops".to_string()),
        session_id: None,
        created_at: 0,
    }
}

fn trace(id: u128, cluster_id: Option<u128>, span: &str, start: i64) -> Trace {
    Trace {
        id,
        cluster_id,
        trace_id: "t-1".to_string(),
        span_id: span.to_string(),
        parent_span_id: None,
        operation_name: "deploy".to_string(),
        service_name: "cli".to_string(),
        start_time: start,
        end_time: Some(start + 10),
        duration_ms: Some(10),
        status: "ok".to_string(),
        error_message: None,
        tags: "{}".to_string(),
        logs: "[]".to_string(),
        created_at: 0,
    }
}

#[test]
fn register_twice_keeps_one_row() {
    let mut db = DatabaseClient::new();
    assert_eq!(db.insert_cluster(&cluster(1, "alpha", 3), 100), Ok(()));
    let mut second = cluster(2, "alpha", 5);
    second.status = "active".to_string();
    second.zone = Some("b".to_string());
    second.cost_budget = None;
    assert_eq!(db.insert_cluster(&second, 200), Ok(()));
    let all = db.get_clusters();
    assert_eq!(all.len(), 1);
    let row = &all[0];
    assert_eq!(row.id, 1);
    assert_eq!(row.created_at, 100);
    assert_eq!(row.updated_at, 200);
    assert_eq!(row.node_count, 5);
    assert_eq!(row.status, "active");
    assert_eq!(row.zone, Some("b".to_string()));
    assert_eq!(row.cost_budget, None);
}

#[test]
fn register_new_name_with_taken_id_is_refused() {
    let mut db = DatabaseClient::new();
    assert_eq!(db.insert_cluster(&cluster(1, "alpha", 3), 100), Ok(()));
    assert_eq!(db.insert_cluster(&cluster(1, "beta", 3), 200), Err(StoreError::DuplicateId));
    assert_eq!(db.get_clusters().len(), 1);
    assert!(db.get_cluster_by_name("beta").is_none());
}

#[test]
fn clusters_listed_newest_first() {
    let mut db = DatabaseClient::new();
    assert_eq!(db.insert_cluster(&cluster(1, "a", 1), 10), Ok(()));
    assert_eq!(db.insert_cluster(&cluster(2, "b", 1), 30), Ok(()));
    assert_eq!(db.insert_cluster(&cluster(3, "c", 1), 20), Ok(()));
    let names: Vec<String> = db.get_clusters().into_iter().map(|c| c.name).collect();
    assert_eq!(names, vec!["b", "c", "a"]);
}

#[test]
fn empty_store_lists_nothing() {
    let db = DatabaseClient::new();
    assert!(db.get_clusters().is_empty());
    assert_eq!(db.get_recent_traces(None, 10).map(|v| v.len()), Ok(0));
    assert_eq!(db.get_command_executions(None, 10).map(|v| v.len()), Ok(0));
}

#[test]
fn duration_is_derived_on_close() {
    let mut db = DatabaseClient::new();
    let t0: i64 = 1_700_000_000_000;
    let id = db.insert_command_execution(&execution(9, None, "ls", t0), t0).unwrap();
    assert_eq!(id, 9);
    let opened = &db.get_command_executions(None, 1).unwrap()[0];
    assert_eq!(opened.exit_code, None);
    assert_eq!(opened.duration_ms, None);
    assert_eq!(opened.end_time, None);
    assert_eq!(db.update_command_execution(9, 3, "out", "err", t0 + 1500), Ok(()));
    let closed = &db.get_command_executions(None, 1).unwrap()[0];
    assert_eq!(closed.duration_ms, Some(1500));
    assert_eq!(closed.exit_code, Some(3));
    assert_eq!(closed.stdout, Some("out".to_string()));
    assert_eq!(closed.stderr, Some("err".to_string()));
    assert_eq!(closed.end_time, Some(t0 + 1500));
}

#[test]
fn second_close_is_refused() {
    let mut db = DatabaseClient::new();
    db.insert_command_execution(&execution(1, None, "ls", 1000), 1000).unwrap();
    assert_eq!(db.update_command_execution(1, 0, "", "", 2000), Ok(()));
    assert_eq!(db.update_command_execution(1, 1, "x", "y", 5000), Err(StoreError::AlreadyClosed));
    let row = &db.get_command_executions(None, 1).unwrap()[0];
    assert_eq!(row.duration_ms, Some(1000));
    assert_eq!(row.exit_code, Some(0));
}

#[test]
fn close_of_unknown_execution_is_not_found() {
    let mut db = DatabaseClient::new();
    assert_eq!(db.update_command_execution(42, 0, "", "", 10), Err(StoreError::NotFound));
}

#[test]
fn close_with_elapsed_time_out_of_range_is_refused() {
    let mut db = DatabaseClient::new();
    db.insert_command_execution(&execution(1, None, "ls", i64::MIN), 0).unwrap();
    assert_eq!(
        db.update_command_execution(1, 0, "", "", i64::MAX),
        Err(StoreError::TimeOutOfRange)
    );
    assert_eq!(db.get_command_executions(None, 1).unwrap()[0].end_time, None);
}

#[test]
fn duplicate_execution_id_is_refused() {
    let mut db = DatabaseClient::new();
    db.insert_command_execution(&execution(1, None, "ls", 10), 10).unwrap();
    assert_eq!(
        db.insert_command_execution(&execution(1, None, "pwd", 20), 20),
        Err(StoreError::DuplicateId)
    );
}

#[test]
fn executions_filtered_by_cluster() {
    let mut db = DatabaseClient::new();
    let a: u128 = 100;
    let b: u128 = 200;
    for i in 0..15u128 {
        let owner = if i % 2 == 0 { a } else { b };
        db.insert_command_execution(&execution(i, Some(owner), "run", i as i64 * 10), 0).unwrap();
    }
    let rows = db.get_command_executions(Some(a), 10).unwrap();
    assert_eq!(rows.len(), 8);
    assert!(rows.iter().all(|r| r.cluster_id == Some(a)));
    let starts: Vec<i64> = rows.iter().map(|r| r.start_time).collect();
    assert_eq!(starts, vec![140, 120, 100, 80, 60, 40, 20, 0]);
    let capped = db.get_command_executions(Some(b), 3).unwrap();
    let starts: Vec<i64> = capped.iter().map(|r| r.start_time).collect();
    assert_eq!(starts, vec![130, 110, 90]);
}

#[test]
fn unfiltered_listing_takes_most_recent() {
    let mut db = DatabaseClient::new();
    for i in 0..8u128 {
        let owner = if i % 3 == 0 { None } else { Some(i % 3) };
        db.insert_command_execution(&execution(i, owner, "run", (i as i64 * 7) % 11), 0).unwrap();
    }
    let rows = db.get_command_executions(None, 5).unwrap();
    let starts: Vec<i64> = rows.iter().map(|r| r.start_time).collect();
    assert_eq!(starts, vec![10, 9, 7, 6, 5]);
}

#[test]
fn negative_limit_is_refused_and_zero_lists_nothing() {
    let mut db = DatabaseClient::new();
    db.insert_command_execution(&execution(1, None, "ls", 10), 10).unwrap();
    assert_eq!(db.get_command_executions(None, -1).map(|v| v.len()), Err(StoreError::InvalidLimit));
    assert_eq!(db.get_recent_traces(None, -5).map(|v| v.len()), Err(StoreError::InvalidLimit));
    assert_eq!(db.get_command_executions(None, 0).map(|v| v.len()), Ok(0));
}

#[test]
fn equal_start_times_list_latest_written_first() {
    let mut db = DatabaseClient::new();
    db.insert_command_execution(&execution(1, None, "first", 50), 0).unwrap();
    db.insert_command_execution(&execution(2, None, "second", 50), 0).unwrap();
    let rows = db.get_command_executions(None, 2).unwrap();
    assert_eq!(rows[0].id, 2);
    assert_eq!(rows[1].id, 1);
}

#[test]
fn traces_recorded_and_listed() {
    let mut db = DatabaseClient::new();
    assert_eq!(db.insert_trace(&trace(1, Some(5), "s1", 30), 1000), Ok(()));
    assert_eq!(db.insert_trace(&trace(2, Some(6), "s1", 40), 1001), Ok(()));
    assert_eq!(db.insert_trace(&trace(3, Some(5), "s2", 50), 1002), Ok(()));
    assert_eq!(db.insert_trace(&trace(3, Some(5), "s3", 60), 1003), Err(StoreError::DuplicateId));
    let rows = db.get_recent_traces(Some(5), 10).unwrap();
    let ids: Vec<u128> = rows.iter().map(|t| t.id).collect();
    assert_eq!(ids, vec![3, 1]);
    assert_eq!(rows[0].created_at, 1002);
    assert_eq!(rows[0].duration_ms, Some(10));
    let all = db.get_recent_traces(None, 2).unwrap();
    let ids: Vec<u128> = all.iter().map(|t| t.id).collect();
    assert_eq!(ids, vec![3, 2]);
}

#[test]
fn missing_cluster_is_absent() {
    let mut db = DatabaseClient::new();
    assert!(db.get_cluster_by_name("missing").is_none());
    db.insert_cluster(&cluster(1, "present", 2), 5).unwrap();
    assert!(db.get_cluster_by_name("missing").is_none());
    assert_eq!(db.get_cluster_by_name("present").map(|c| c.id), Some(1));
}

#[test]
fn summary_maps_rows_and_nulls_unreadable_values() {
    let rows = vec![
        vec![
            SummaryCell { column: "name".to_string(), value: Some(SummaryValue::Text("prod-1".to_string())) },
            SummaryCell { column: "executions".to_string(), value: Some(SummaryValue::Integer(4)) },
            SummaryCell { column: "last_seen".to_string(), value: None },
        ],
        vec![
            SummaryCell { column: "name".to_string(), value: Some(SummaryValue::Text("dev".to_string())) },
            SummaryCell { column: "executions".to_string(), value: Some(SummaryValue::Integer(0)) },
            SummaryCell { column: "last_seen".to_string(), value: Some(SummaryValue::Timestamp(77)) },
        ],
    ];
    let out = DatabaseClient::get_cluster_summary(&rows);
    assert_eq!(out.len(), 2);
    let cols: Vec<&str> = out[0].iter().map(|e| e.column.as_str()).collect();
    assert_eq!(cols, vec!["name", "executions", "last_seen"]);
    assert!(matches!(out[0][2].value, SummaryValue::Null));
    assert!(matches!(out[0][1].value, SummaryValue::Integer(4)));
    assert!(matches!(out[1][2].value, SummaryValue::Timestamp(77)));
    assert!(DatabaseClient::get_cluster_summary(&Vec::new()).is_empty());
}

#[test]
fn summary_repeated_column_keeps_last_value() {
    let rows = vec![vec![
        SummaryCell { column: "n".to_string(), value: Some(SummaryValue::Boolean(true)) },
        SummaryCell { column: "m".to_string(), value: Some(SummaryValue::Structured("{}".to_string())) },
        SummaryCell { column: "n".to_string(), value: Some(SummaryValue::Number("1.5".to_string())) },
    ]];
    let out = DatabaseClient::get_cluster_summary(&rows);
    assert_eq!(out[0].len(), 2);
    assert_eq!(out[0][0].column, "n");
    assert!(matches!(&out[0][0].value, SummaryValue::Number(s) if s == "1.5"));
}

#[test]
fn register_open_close_and_list_scenario() {
    let mut db = DatabaseClient::new();
    let t: i64 = 1_700_000_000_000;
    db.insert_cluster(&cluster(11, "prod-1", 3), t).unwrap();
    let prod = db.get_cluster_by_name("prod-1").unwrap();
    assert_eq!(prod.node_count, 3);
    let id = db.insert_command_execution(&execution(21, Some(prod.id), "deploy.sh", t), t).unwrap();
    assert_eq!(db.update_command_execution(id, 0, "done", "", t + 2000), Ok(()));
    let rows = db.get_command_executions(Some(prod.id), 1).unwrap();
    assert_eq!(rows.len(), 1);
    assert_eq!(rows[0].duration_ms, Some(2000));
    assert_eq!(rows[0].exit_code, Some(0));
    assert_eq!(rows[0].command, "deploy.sh");
}
