use svcmon::service::{
    active_status, enabled_status, filter_unit_files, get_status, list_unit_files, restart_service,
    send_command, show_service, start_service, stop_service, vec_u8_to_vec_string, ServiceError,
};

fn strings(v: &[&str]) -> Vec<String> {
    v.iter().map(|s| s.to_string()).collect()
}

#[test]
fn line_extraction_splits_and_trims() {
    let out = b"my service is great\nLoaded: loaded\n";
    assert_eq!(vec_u8_to_vec_string(out), strings(&["my service is great", "Loaded: loaded"]));
}

#[test]
fn status_view_relabels_first_line() {
    let out = b"my service is great\nLoaded: loaded\n";
    assert_eq!(
        get_status(out),
        strings(&["Description: my service is great", "Loaded: loaded"])
    );
    assert!(get_status(b"  \n\n").is_empty());
}

#[test]
fn line_extraction_drops_non_ascii_bytes_and_blank_lines() {
    let out: Vec<u8> = vec![b' ', b'a', 0xC3, 0xA9, b'b', b'\t', b'\n', b' ', b' ', b'\n', b'\r', b'c'];
    assert_eq!(vec_u8_to_vec_string(&out), strings(&["ab", "c"]));
    assert!(vec_u8_to_vec_string(b"").is_empty());
    let utf8 = "caf\u{e9} ok".as_bytes();
    assert_eq!(vec_u8_to_vec_string(utf8), strings(&["caf ok"]));
}

#[test]
fn show_parses_key_values_and_warns() {
    let out = b"Description=my service\nActiveState=active\nBadLineNoEquals\n";
    let shown = show_service(out);
    assert_eq!(shown.properties.len(), 2);
    assert_eq!(shown.properties.get("Description").unwrap(), "my service");
    assert_eq!(shown.properties.get("ActiveState").unwrap(), "active");
    assert!(shown.properties.get("BadLineNoEquals").is_none());
    assert_eq!(shown.warnings, strings(&["BadLineNoEquals"]));
}

#[test]
fn show_splits_at_first_equals_and_last_value_wins() {
    let out = b"ExecStart=/bin/x --a=b\nKey=one\nKey=two\n=empty\n";
    let shown = show_service(out);
    assert_eq!(shown.properties.get("ExecStart").unwrap(), "/bin/x --a=b");
    assert_eq!(shown.properties.get("Key").unwrap(), "two");
    assert_eq!(shown.properties.get("").unwrap(), "empty");
    assert_eq!(shown.properties.len(), 3);
    let (k, v) = shown.properties.entry(1);
    assert_eq!((k.as_str(), v.as_str()), ("Key", "two"));
    assert!(shown.warnings.is_empty());
}

#[test]
fn unit_files_default_to_enabled_only() {
    let lines = strings(&["a.service enabled", "b.service disabled", "c.service enabled"]);
    assert_eq!(
        filter_unit_files(lines.clone(), None),
        strings(&["a.service enabled", "c.service enabled"])
    );
    assert_eq!(
        filter_unit_files(lines.clone(), Some(true)),
        strings(&["a.service enabled", "c.service enabled"])
    );
    assert_eq!(filter_unit_files(lines.clone(), Some(false)), lines);
}

#[test]
fn unit_files_from_raw_output() {
    let out = b"UNIT FILE STATE\na.service enabled\nb.service disabled\nc.service enabled-runtime\n";
    assert_eq!(
        list_unit_files(out, None),
        strings(&["a.service enabled", "c.service enabled-runtime"])
    );
    assert_eq!(list_unit_files(out, Some(false)).len(), 4);
}

#[test]
fn one_word_answers_are_trimmed() {
    assert_eq!(active_status(b"active\n"), "active");
    assert_eq!(enabled_status(b"  disabled \r\n"), "disabled");
    assert_eq!(active_status(b""), "");
    assert_eq!(active_status(&[0xA0, b'x', 0x85]), "x");
    assert_eq!(enabled_status(&[b'a', 0xE9]), "a\u{e9}");
}

#[test]
fn control_commands_are_allow_listed() {
    assert_eq!(send_command("h1", "sshd", "start"), Ok(strings(&["-H", "h1", "start", "sshd"])));
    assert_eq!(send_command("h1", "sshd", "stop"), Ok(strings(&["-H", "h1", "stop", "sshd"])));
    assert_eq!(send_command("h1", "sshd", "reboot"), Err(ServiceError::InvalidCommand));
    assert_eq!(restart_service("h", "s"), strings(&["-H", "h", "restart", "s"]));
    assert_eq!(stop_service("h", "s"), strings(&["-H", "h", "stop", "s"]));
    assert_eq!(start_service("h", "s"), strings(&["-H", "h", "start", "s"]));
}

#[test]
fn unit_file_filter_matches_whole_word_runs() {
    let lines = strings(&["enabled", "enable d", "\u{e9}t\u{e9} enabled\u{2603}", "Enabled", "disabled"]);
    assert_eq!(
        filter_unit_files(lines, None),
        strings(&["enabled", "\u{e9}t\u{e9} enabled\u{2603}"])
    );
    assert!(filter_unit_files(strings(&["enable"]), None).is_empty());
}
