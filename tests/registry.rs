use svcmon::hosts::{
    add_host_to_hosts_file, add_svc_to_hosts_file, rem_svc_from_hosts_file, Host, Hosts,
    RegistryError,
};

fn host(name: &str, services: &[&str]) -> Host {
    Host {
        hostname: name.to_string(),
        services: services.iter().map(|s| s.to_string()).collect(),
    }
}

fn names(hosts: Hosts) -> Vec<String> {
    hosts.get_hosts().into_iter().map(|h| h.hostname).collect()
}

#[test]
fn add_host_replaces_same_hostname() {
    let mut hs = Hosts::new();
    hs.add_host(host("a", &["sshd"]));
    hs.add_host(host("b", &["nginx"]));
    hs.add_host(host("a", &["cron", "ntpd"]));
    assert_eq!(hs.len(), 2);
    let all = hs.get_hosts();
    assert_eq!(all[0].hostname, "b");
    assert_eq!(all[1].hostname, "a");
    assert_eq!(all[1].services, vec!["cron".to_string(), "ntpd".to_string()]);
}

#[test]
fn hostnames_stay_unique_after_many_adds() {
    let mut hs = Hosts::new();
    for name in ["x", "y", "x", "z", "y", "x"] {
        hs.add_host(host(name, &[]));
    }
    let mut got = names(hs);
    assert_eq!(got, vec!["z".to_string(), "y".to_string(), "x".to_string()]);
    got.sort();
    got.dedup();
    assert_eq!(got.len(), 3);
}

#[test]
fn save_then_load_reproduces_registry() {
    let mut hs = Hosts::new();
    hs.add_host(host("a", &["sshd"]));
    hs.add_host(host("b", &["nginx", "cron"]));
    hs.add_host(host("a", &["ntpd"]));
    let saved = hs.get_hosts();
    let copy: Vec<Host> = saved.clone();
    let loaded = Hosts::from_hosts(copy);
    assert_eq!(loaded.get_hosts(), saved);
}

#[test]
fn from_hosts_keeps_last_of_duplicates() {
    let loaded = Hosts::from_hosts(vec![host("a", &["x"]), host("b", &[]), host("a", &["y"])]);
    let all = loaded.get_hosts();
    assert_eq!(all.len(), 2);
    assert_eq!(all[0].hostname, "b");
    assert_eq!(all[1].services, vec!["y".to_string()]);
}

#[test]
fn remove_host_by_hostname_absent_is_noop() {
    let mut hs = Hosts::new();
    hs.add_host(host("a", &[]));
    assert!(hs.remove_host_by_hostname("zzz").is_none());
    assert_eq!(hs.len(), 1);
    let removed = hs.remove_host_by_hostname("a").unwrap();
    assert_eq!(removed.hostname, "a");
    assert_eq!(hs.len(), 0);
}

#[test]
fn remove_host_needs_equal_services() {
    let mut hs = Hosts::new();
    hs.add_host(host("a", &["sshd"]));
    assert!(hs.remove_host(&host("a", &["other"])).is_none());
    assert_eq!(hs.len(), 1);
    assert!(hs.remove_host(&host("a", &["sshd"])).is_some());
    assert_eq!(hs.len(), 0);
}

#[test]
fn get_host_by_hostname_finds_host() {
    let mut hs = Hosts::new();
    hs.add_host(host("a", &["sshd"]));
    hs.add_host(host("b", &["nginx"]));
    assert_eq!(hs.get_host_by_hostname("b").unwrap().services, vec!["nginx".to_string()]);
    assert!(hs.get_host_by_hostname("c").is_none());
    assert_eq!(hs.host(0).hostname, "a");
}

#[test]
fn add_service_appends_or_reports_missing_host() {
    let mut hs = Hosts::new();
    hs.add_host(host("a", &["sshd"]));
    assert_eq!(hs.add_service("a", "cron"), Ok(()));
    assert_eq!(hs.get_host_by_hostname("a").unwrap().services, vec!["sshd".to_string(), "cron".to_string()]);
    assert_eq!(hs.add_service("nope", "cron"), Err(RegistryError::HostNotFound));
}

#[test]
fn remove_service_errors() {
    let mut hs = Hosts::new();
    hs.add_host(host("a", &["sshd", "cron", "sshd"]));
    assert_eq!(hs.remove_service("a", "missing"), Err(RegistryError::ServiceNotFound));
    assert_eq!(hs.remove_service("nohost", "sshd"), Err(RegistryError::HostNotFound));
    assert_eq!(hs.remove_service("a", "sshd"), Ok(()));
    assert_eq!(hs.get_host_by_hostname("a").unwrap().services, vec!["cron".to_string(), "sshd".to_string()]);
}

#[test]
fn host_service_methods() {
    let mut h = host("a", &["x"]);
    h.add_service("y");
    h.add_service("x");
    h.remove_service("x");
    assert_eq!(h.services, vec!["y".to_string(), "x".to_string()]);
}

#[test]
fn file_level_operations() {
    let mut hs = Hosts::new();
    hs.add_host(host("a", &["sshd"]));
    let hs = add_host_to_hosts_file(Ok(hs), host("b", &[])).unwrap();
    let hs = add_svc_to_hosts_file(Ok(hs), "b", "nginx").unwrap();
    assert_eq!(hs.get_host_by_hostname("b").unwrap().services, vec!["nginx".to_string()]);
    let hs = rem_svc_from_hosts_file(Ok(hs), "a", "sshd").unwrap();
    assert!(hs.get_host_by_hostname("a").unwrap().services.is_empty());
    assert_eq!(add_svc_to_hosts_file(Ok(hs), "zz", "x").err(), Some(RegistryError::HostNotFound));
    let failed = add_host_to_hosts_file(Err(RegistryError::Io("missing".to_string())), host("c", &[]));
    assert_eq!(failed.err(), Some(RegistryError::Io("missing".to_string())));
    let failed = rem_svc_from_hosts_file(Err(RegistryError::Format("bad".to_string())), "a", "b");
    assert_eq!(failed.err(), Some(RegistryError::Format("bad".to_string())));
}

#[test]
fn file_level_remove_service_errors() {
    let mut hs = Hosts::new();
    hs.add_host(host("a", &["sshd"]));
    let hs2 = Hosts::from_hosts(vec![host("a", &["sshd"])]);
    assert_eq!(rem_svc_from_hosts_file(Ok(hs), "a", "nope").err(), Some(RegistryError::ServiceNotFound));
    assert_eq!(rem_svc_from_hosts_file(Ok(hs2), "b", "sshd").err(), Some(RegistryError::HostNotFound));
}
