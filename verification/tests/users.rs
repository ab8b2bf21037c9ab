use qmlgreetd::enumerate::users::{
    display_name, is_human, list_users, parse_passwd, parse_uid_min, PasswdEntry,
};

const PASSWD: &str = "\
root:x:0:0:root:/root:/bin/bash
daemon:x:1:1:daemon:/usr/sbin:/usr/sbin/nologin
alice:x:1000:1000:Alice Doe,,,:/home/alice:/bin/bash
bob:x:1001:1001::/home/bob:/bin/sh
svc:x:999:999:Service:/var/lib/svc:/usr/bin/false
";

#[test]
fn parses_passwd_lines() {
    let entries = parse_passwd(PASSWD);
    assert_eq!(entries.len(), 5);
    assert_eq!(entries[2].username, "alice");
    assert_eq!(entries[2].uid, 1000);
    assert_eq!(entries[2].gecos, "Alice Doe,,,");
    assert_eq!(entries[2].shell, "/bin/bash");
}

#[test]
fn reads_uid_min_from_login_defs() {
    assert_eq!(
        parse_uid_min("# comment\nUID_MIN 5000\nUID_MAX 60000\n"),
        Some(5000)
    );
    assert_eq!(parse_uid_min("UID_MAX 60000\n"), None);
}

#[test]
fn filters_to_human_accounts() {
    let users = list_users(&parse_passwd(PASSWD), 1000);
    let names: Vec<&str> = users.iter().map(|user| user.username.as_str()).collect();
    assert_eq!(names, vec!["alice", "bob"]);
    assert_eq!(users[0].display_name, "Alice Doe");
    assert_eq!(users[1].display_name, "bob");
}

#[test]
fn rejects_system_and_non_login_shells() {
    let entries = parse_passwd(PASSWD);
    assert!(!is_human(&entries[0], 1000));
    assert!(!is_human(&entries[1], 1000));
    assert!(!is_human(&entries[4], 1000));
    assert!(is_human(&entries[2], 1000));
}

// Further scenarios.

fn entry(username: &str, uid: u32, gecos: &str, shell: &str) -> PasswdEntry {
    PasswdEntry {
        username: username.into(),
        uid,
        gecos: gecos.into(),
        shell: shell.into(),
    }
}

#[test]
fn malformed_lines_are_skipped() {
    let entries = parse_passwd("short:x:1\nbad:x:abc:1:g:/h:/bin/sh\nok:x:+7:1:g:/h:/bin/sh\r\n");
    assert_eq!(entries.len(), 1);
    assert_eq!(entries[0].username, "ok");
    assert_eq!(entries[0].uid, 7);
    assert_eq!(entries[0].shell, "/bin/sh");
    let big = parse_passwd("huge:x:4294967296:1:g:/h:/bin/sh\n");
    assert!(big.is_empty());
    let max = parse_passwd("max:x:4294967295:1:g:/h:/bin/sh\n");
    assert_eq!(max[0].uid, u32::MAX);
}

#[test]
fn uid_min_takes_the_first_readable_setting() {
    assert_eq!(parse_uid_min("UID_MIN_X 1\n  UID_MIN   600  \nUID_MIN 700\n"), Some(600));
    assert_eq!(parse_uid_min("UID_MIN\nUID_MIN abc\n"), None);
    assert_eq!(parse_uid_min(""), None);
}

#[test]
fn users_are_sorted_by_name() {
    let entries = vec![
        entry("zoe", 1002, "", "/bin/zsh"),
        entry("adam", 1003, "Adam", "/bin/bash"),
        entry("mia", 1001, "", "/bin/sh"),
    ];
    let users = list_users(&entries, 1000);
    let names: Vec<&str> = users.iter().map(|user| user.username.as_str()).collect();
    assert_eq!(names, vec!["adam", "mia", "zoe"]);
    assert_eq!(users[0].uid, 1003);
    assert!(users.iter().all(|user| user.avatar.is_none()));
}

#[test]
fn display_name_trims_the_gecos_name() {
    assert_eq!(display_name(&entry("x", 1000, "  Xavier Y , room", "/bin/sh")), "Xavier Y");
    assert_eq!(display_name(&entry("x", 1000, " ,Other", "/bin/sh")), "x");
}

#[test]
fn nameless_accounts_and_empty_shells_are_not_human() {
    assert!(!is_human(&entry("", 1000, "", "/bin/sh"), 1000));
    assert!(!is_human(&entry("x", 1000, "", ""), 1000));
    assert!(!is_human(&entry("x", 1000, "", "/sbin/halt"), 1000));
    assert!(!is_human(&entry("x", 999, "", "/bin/sh"), 1000));
    assert!(is_human(&entry("x", 1000, "", "zsh"), 1000));
}
