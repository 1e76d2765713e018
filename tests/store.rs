use svcmon::store::{
    get_all_statuses, get_latest_statuses, get_status_by_id, get_status_from_db, insert_status,
    insert_status_by_obj, Status, StatusRequest, StatusTable, StoreError,
};

fn row(id: i64, host: &str, name: &str, last_check: Option<i64>) -> Status {
    Status {
        id,
        hostname: host.to_string(),
        name: name.to_string(),
        description: None,
        enabled: None,
        active_status: Some(format!("state{}", id)),
        last_check,
    }
}

#[test]
fn latest_picks_greatest_check_time() {
    let mut t = StatusTable::new();
    for (i, ts) in [30i64, 10, 50, 20].iter().enumerate() {
        let state = format!("s{}", i);
        assert_eq!(insert_status(&mut t, "h", "sshd", None, Some(true), Some(&state), Some(*ts)), Ok(1));
    }
    insert_status(&mut t, "h", "cron", None, None, None, Some(99)).unwrap();
    insert_status(&mut t, "other", "sshd", None, None, None, Some(100)).unwrap();
    let latest = get_status_from_db(&t, "h", "sshd").unwrap();
    assert_eq!(latest.last_check, Some(50));
    assert_eq!(latest.active_status.as_deref(), Some("s2"));
    assert_eq!(latest.id, 3);
}

#[test]
fn latest_missing_pair_is_not_found() {
    let mut t = StatusTable::new();
    insert_status(&mut t, "h", "sshd", None, None, None, Some(1)).unwrap();
    assert_eq!(get_status_from_db(&t, "h", "nginx").err(), Some(StoreError::NotFound));
    assert_eq!(get_status_from_db(&t, "x", "sshd").err(), Some(StoreError::NotFound));
}

#[test]
fn latest_ties_keep_first_and_missing_time_is_oldest() {
    let t = StatusTable::from_rows(vec![
        row(7, "h", "s", None),
        row(8, "h", "s", Some(5)),
        row(9, "h", "s", Some(5)),
    ]);
    assert_eq!(get_status_from_db(&t, "h", "s").unwrap().id, 8);
    let only_none = StatusTable::from_rows(vec![row(1, "h", "s", None)]);
    assert_eq!(get_status_from_db(&only_none, "h", "s").unwrap().id, 1);
}

#[test]
fn insert_stamps_current_time_when_omitted() {
    let mut t = StatusTable::new();
    let start = chrono::Utc::now().timestamp_micros();
    insert_status(&mut t, "h", "sshd", Some("desc"), Some(false), Some("active"), None).unwrap();
    let end = chrono::Utc::now().timestamp_micros();
    let r = &t.rows()[0];
    let stamp = r.last_check.unwrap();
    assert!(start <= stamp && stamp <= end);
    assert_eq!(r.description.as_deref(), Some("desc"));
    assert_eq!(r.enabled, Some(false));
    assert_eq!(r.hostname, "h");
}

#[test]
fn insert_is_append_only_with_fresh_ids() {
    let mut t = StatusTable::from_rows(vec![row(41, "h", "s", Some(1))]);
    insert_status(&mut t, "h", "s", None, None, None, Some(2)).unwrap();
    insert_status(&mut t, "h", "s", None, None, None, Some(3)).unwrap();
    assert_eq!(t.len(), 3);
    let ids: Vec<i64> = t.rows().iter().map(|r| r.id).collect();
    assert_eq!(ids, vec![41, 42, 43]);
    assert_eq!(get_status_by_id(&t, 42).unwrap().last_check, Some(2));
    assert_eq!(get_status_by_id(&t, 5).err(), Some(StoreError::NotFound));
}

#[test]
fn insert_fails_when_ids_run_out() {
    let mut t = StatusTable::from_rows(vec![row(i64::MAX, "h", "s", Some(1))]);
    assert_eq!(
        insert_status(&mut t, "h", "s", None, None, None, Some(2)),
        Err(StoreError::Persistence)
    );
    assert_eq!(t.len(), 1);
}

#[test]
fn latest_all_one_record_per_pair() {
    let t = StatusTable::from_rows(vec![
        row(1, "a", "x", Some(10)),
        row(2, "b", "x", Some(5)),
        row(3, "a", "x", Some(30)),
        row(4, "a", "y", None),
        row(5, "b", "x", Some(7)),
        row(6, "a", "x", Some(20)),
    ]);
    let latest = get_latest_statuses(&t);
    let ids: Vec<i64> = latest.iter().map(|r| r.id).collect();
    assert_eq!(ids, vec![3, 5]);
}

#[test]
fn all_statuses_skip_missing_times() {
    let t = StatusTable::from_rows(vec![row(1, "a", "x", None), row(2, "a", "x", Some(3))]);
    let all = get_all_statuses(&t);
    assert_eq!(all.len(), 1);
    assert_eq!(all[0].id, 2);
    assert!(get_latest_statuses(&StatusTable::new()).is_empty());
}

#[test]
fn insert_by_request_object() {
    let mut t = StatusTable::new();
    let req = StatusRequest {
        hostname: "h".to_string(),
        name: "sshd".to_string(),
        description: Some("OpenSSH".to_string()),
        enabled: Some(true),
        active_status: None,
        last_check: Some(1234),
    };
    assert_eq!(insert_status_by_obj(&mut t, req), Ok(1));
    let r = get_status_from_db(&t, "h", "sshd").unwrap();
    assert_eq!(r.id, 1);
    assert_eq!(r.description.as_deref(), Some("OpenSSH"));
    assert_eq!(r.enabled, Some(true));
    assert!(r.active_status.is_none());
    assert_eq!(r.last_check, Some(1234));
}
