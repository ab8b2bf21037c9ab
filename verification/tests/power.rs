use qmlgreetd::power::{command, failure_message, parse_action, parse_mode, plan, Action, Mode, Plan};

#[test]
fn parses_actions_and_modes() {
    assert_eq!(parse_action("off"), Some(Action::PowerOff));
    assert_eq!(parse_action("shutdown"), Some(Action::PowerOff));
    assert_eq!(parse_action("reboot"), Some(Action::Reboot));
    assert_eq!(parse_action("sleep"), None);

    assert_eq!(parse_mode(Some("mock")), Mode::Mock);
    assert_eq!(parse_mode(Some("systemctl")), Mode::Systemctl);
    assert_eq!(parse_mode(None), Mode::Disabled);
    assert_eq!(parse_mode(Some("something-else")), Mode::Disabled);
}

#[test]
fn maps_actions_to_systemctl() {
    assert_eq!(command(Action::PowerOff), ["systemctl", "poweroff"]);
    assert_eq!(command(Action::Reboot), ["systemctl", "reboot"]);
}

#[test]
fn disabled_mode_refuses() {
    assert!(matches!(plan(Action::PowerOff, Mode::Disabled), Plan::Refuse(_)));
}

#[test]
fn mock_mode_is_inert() {
    assert_eq!(plan(Action::PowerOff, Mode::Mock), Plan::Pretend);
    assert_eq!(plan(Action::Reboot, Mode::Mock), Plan::Pretend);
}

// Further scenarios.

#[test]
fn other_action_spellings() {
    assert_eq!(parse_action("poweroff"), Some(Action::PowerOff));
    assert_eq!(parse_action("restart"), Some(Action::Reboot));
    assert_eq!(parse_action("Reboot"), None);
    assert_eq!(parse_action(""), None);
}

#[test]
fn plans_name_the_command_or_the_refusal() {
    assert_eq!(
        plan(Action::PowerOff, Mode::Disabled),
        Plan::Refuse("power actions are disabled".into())
    );
    assert_eq!(
        plan(Action::Reboot, Mode::Systemctl),
        Plan::Run(["systemctl", "reboot"])
    );
    assert_eq!(failure_message(Action::PowerOff), "systemctl poweroff failed");
    assert_eq!(failure_message(Action::Reboot), "systemctl reboot failed");
}

#[test]
fn suspend_and_hibernate_are_power_actions() {
    assert_eq!(parse_action("suspend"), Some(Action::Suspend));
    assert_eq!(parse_action("hibernate"), Some(Action::Hibernate));
    assert_ne!(parse_action("suspend"), parse_action("hibernate"));
    assert_ne!(parse_action("suspend"), parse_action("off"));
    assert_eq!(command(Action::Suspend), ["systemctl", "suspend"]);
    assert_eq!(command(Action::Hibernate), ["systemctl", "hibernate"]);
    assert_eq!(
        plan(Action::Hibernate, Mode::Systemctl),
        Plan::Run(["systemctl", "hibernate"])
    );
    assert_eq!(plan(Action::Suspend, Mode::Mock), Plan::Pretend);
    assert_eq!(failure_message(Action::Suspend), "systemctl suspend failed");
}
