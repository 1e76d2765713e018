use svcmon::collector::{
    collect_outcomes, get_json_statuses, query_host, status_fields, update_service_status, Failure,
    Outcome,
};
use svcmon::hosts::{Host, Hosts, RegistryError};
use svcmon::service::show_service;
use svcmon::store::{insert_status, Status, StatusTable, StoreError};

fn host(name: &str, services: &[&str]) -> Host {
    Host {
        hostname: name.to_string(),
        services: services.iter().map(|s| s.to_string()).collect(),
    }
}

fn status(id: i64, host: &str, name: &str) -> Status {
    Status {
        id,
        hostname: host.to_string(),
        name: name.to_string(),
        description: None,
        enabled: Some(true),
        active_status: Some("active".to_string()),
        last_check: Some(id),
    }
}

#[test]
fn aggregate_tolerates_one_failing_host() {
    let ok_unit = vec![Outcome::Found(status(1, "good", "sshd")), Outcome::Found(status(2, "good", "cron"))];
    let bad_unit = vec![Outcome::Failed(Failure {
        hostname: "bad".to_string(),
        service: "sshd".to_string(),
        error: StoreError::NotFound,
    })];
    let agg = collect_outcomes(&vec![bad_unit, ok_unit]);
    let ids: Vec<i64> = agg.records.iter().map(|r| r.id).collect();
    assert_eq!(ids, vec![1, 2]);
    assert_eq!(agg.failures.len(), 1);
    assert_eq!(agg.failures[0].hostname, "bad");
    assert_eq!(agg.failures[0].service, "sshd");
    assert!(collect_outcomes(&vec![]).records.is_empty());
}

#[test]
fn fleet_statuses_skip_pairs_without_records() {
    let mut t = StatusTable::new();
    insert_status(&mut t, "good", "sshd", None, None, Some("active"), Some(5)).unwrap();
    insert_status(&mut t, "good", "sshd", None, None, Some("failed"), Some(9)).unwrap();
    insert_status(&mut t, "good", "cron", None, None, None, Some(1)).unwrap();
    let mut hs = Hosts::new();
    hs.add_host(host("good", &["sshd", "cron"]));
    hs.add_host(host("down", &["sshd"]));
    let agg = get_json_statuses(Ok(hs), &t).unwrap();
    assert_eq!(agg.records.len(), 2);
    assert_eq!(agg.records[0].active_status.as_deref(), Some("failed"));
    assert_eq!(agg.records[1].name, "cron");
    assert_eq!(agg.failures.len(), 1);
    assert_eq!(agg.failures[0].hostname, "down");
    assert_eq!(agg.failures[0].error, StoreError::NotFound);
}

#[test]
fn fleet_statuses_pass_load_errors() {
    let t = StatusTable::new();
    let r = get_json_statuses(Err(RegistryError::Io("no file".to_string())), &t);
    assert_eq!(r.err(), Some(RegistryError::Io("no file".to_string())));
    let empty = get_json_statuses(Ok(Hosts::new()), &t).unwrap();
    assert!(empty.records.is_empty() && empty.failures.is_empty());
}

#[test]
fn query_host_keeps_service_order() {
    let mut t = StatusTable::new();
    insert_status(&mut t, "h", "b", None, None, None, Some(1)).unwrap();
    let os = query_host(&host("h", &["a", "b"]), &t);
    assert_eq!(os.len(), 2);
    assert!(matches!(&os[0], Outcome::Failed(f) if f.service == "a"));
    assert!(matches!(&os[1], Outcome::Found(s) if s.name == "b"));
}

#[test]
fn status_fields_from_show_output() {
    let shown = show_service(b"Description=Secure shell\nUnitFileState=enabled\nActiveState=active\n");
    let (d, e, a) = status_fields(&shown.properties);
    assert_eq!(d.as_deref(), Some("Secure shell"));
    assert!(e);
    assert_eq!(a.as_deref(), Some("active"));
    let other = show_service(b"UnitFileState=enabled-runtime\n");
    let (d, e, a) = status_fields(&other.properties);
    assert!(d.is_none() && !e && a.is_none());
    let none = show_service(b"");
    assert!(!status_fields(&none.properties).1);
}

#[test]
fn update_service_status_appends_snapshot() {
    let mut t = StatusTable::new();
    let start = chrono::Utc::now().timestamp_micros();
    let out = b"Description=Cron\nUnitFileState=disabled\nActiveState=inactive\nnoise\n";
    assert_eq!(update_service_status(&mut t, "h", "cron", out), Ok(1));
    let r = &t.rows()[0];
    assert_eq!(r.hostname, "h");
    assert_eq!(r.name, "cron");
    assert_eq!(r.description.as_deref(), Some("Cron"));
    assert_eq!(r.enabled, Some(false));
    assert_eq!(r.active_status.as_deref(), Some("inactive"));
    assert!(r.last_check.unwrap() >= start);
}
