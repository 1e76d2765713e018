use svcmon::config::Config;
use svcmon::requests::HostnameWithService;

#[test]
fn plain_types_hold_their_values() {
    let c = Config::new("hosts.json".to_string());
    assert_eq!(c.hostsfile, "hosts.json");
    let r = HostnameWithService::new("h".to_string(), "sshd".to_string());
    assert_eq!((r.hostname.as_str(), r.service.as_str()), ("h", "sshd"));
}
