use qmlgreetd::enumerate::sessions::{order_sessions, parse_desktop_entry, session_dirs, Session};

const SWAY: &str = "\
[Desktop Entry]
Name=Sway
Comment=A tiling compositor
Exec=sway --unsupported-gpu
Type=Application
DesktopNames=sway
";

#[test]
fn parses_a_wayland_session() {
    let session = parse_desktop_entry("sway", SWAY).unwrap();
    assert_eq!(session.id, "sway");
    assert_eq!(session.name, "Sway");
    assert_eq!(session.argv, vec!["sway", "--unsupported-gpu"]);
    assert_eq!(session.desktop_names, vec!["sway"]);
    assert_eq!(
        session.env,
        vec![
            "XDG_SESSION_TYPE=wayland",
            "XDG_SESSION_DESKTOP=sway",
            "XDG_CURRENT_DESKTOP=sway",
        ]
    );
}

#[test]
fn session_env_falls_back_to_the_id_and_joins_desktop_names() {
    let no_names = parse_desktop_entry("foo", "[Desktop Entry]\nName=Foo\nExec=foo\n").unwrap();
    assert_eq!(
        no_names.env,
        vec![
            "XDG_SESSION_TYPE=wayland",
            "XDG_SESSION_DESKTOP=foo",
            "XDG_CURRENT_DESKTOP=foo",
        ]
    );

    let many = parse_desktop_entry(
        "bar",
        "[Desktop Entry]\nName=Bar\nExec=bar\nDesktopNames=Bar;Bar2\n",
    )
    .unwrap();
    assert_eq!(
        many.env,
        vec![
            "XDG_SESSION_TYPE=wayland",
            "XDG_SESSION_DESKTOP=Bar",
            "XDG_CURRENT_DESKTOP=Bar:Bar2",
        ]
    );
}

#[test]
fn ignores_localized_names_and_other_groups() {
    let content = "\
[Desktop Entry]
Name=Base
Name[de]=Basis
Exec=foo

[Desktop Action New]
Name=New Window
Exec=foo --new
";
    let session = parse_desktop_entry("foo", content).unwrap();
    assert_eq!(session.name, "Base");
    assert_eq!(session.argv, vec!["foo"]);
}

#[test]
fn skips_hidden_and_non_application_entries() {
    let hidden = "[Desktop Entry]\nName=X\nExec=x\nHidden=true\n";
    assert!(parse_desktop_entry("x", hidden).is_none());
    let link = "[Desktop Entry]\nName=X\nExec=x\nType=Link\n";
    assert!(parse_desktop_entry("x", link).is_none());
    let missing_exec = "[Desktop Entry]\nName=X\n";
    assert!(parse_desktop_entry("x", missing_exec).is_none());
}

#[test]
fn builds_dirs_from_xdg_data_dirs() {
    assert_eq!(
        session_dirs("/run/current-system/sw/share:/usr/share"),
        vec![
            "/run/current-system/sw/share/wayland-sessions".to_string(),
            "/usr/share/wayland-sessions".to_string(),
        ]
    );
    assert_eq!(
        session_dirs(""),
        vec![
            "/usr/local/share/wayland-sessions".to_string(),
            "/usr/share/wayland-sessions".to_string(),
        ]
    );
}

// Further scenarios.

fn session(id: &str, name: &str) -> Session {
    Session {
        id: id.into(),
        name: name.into(),
        argv: vec![id.into()],
        desktop_names: vec![],
        env: vec![],
    }
}

#[test]
fn orders_sessions_by_name_and_drops_repeated_ids() {
    let ordered = order_sessions(vec![
        session("zebra", "Zebra"),
        session("alpha", "Alpha"),
        session("beta", "Alpha"),
        session("alpha", "Alpha"),
    ]);
    let ids: Vec<&str> = ordered.iter().map(|s| s.id.as_str()).collect();
    assert_eq!(ids, vec!["alpha", "beta", "zebra"]);
    assert!(order_sessions(vec![]).is_empty());
}

#[test]
fn dirs_skip_empty_entries_and_keep_trailing_slashes() {
    assert_eq!(
        session_dirs(":/opt/share/::/x/"),
        vec![
            "/opt/share/wayland-sessions".to_string(),
            "/x/wayland-sessions".to_string(),
        ]
    );
}

#[test]
fn no_display_and_mixed_case_flags_hide_an_entry() {
    let nodisplay = "[Desktop Entry]\nName=X\nExec=x\nNoDisplay=TRUE\n";
    assert!(parse_desktop_entry("x", nodisplay).is_none());
    let shown = "[Desktop Entry]\nName=X\nExec=x\nHidden=false\n";
    assert!(parse_desktop_entry("x", shown).is_some());
}

#[test]
fn entries_outside_the_group_or_malformed_are_ignored() {
    assert!(parse_desktop_entry("x", "Name=X\nExec=x\n").is_none());
    let content = "# comment\r\n[Desktop Entry]\r\n  Name = Spaced  \r\nnot a pair\r\nExec=\"my wm\" --flag\r\n";
    let session = parse_desktop_entry("wm", content).unwrap();
    assert_eq!(session.name, "Spaced");
    assert_eq!(session.argv, vec!["my wm", "--flag"]);
    let broken = "[Desktop Entry]\nName=X\nExec=\"x\n";
    assert!(parse_desktop_entry("x", broken).is_none());
}
