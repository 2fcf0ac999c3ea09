use cardbe::diagnostics::{bounded_log_message, dev_port, frontend_log_target, log_level, LogLevel, MAX_FRONTEND_MESSAGE_BYTES};

#[test]
fn short_messages_are_kept_whole() {
    assert_eq!(bounded_log_message("Board saved"), "Board saved");
    let exact = "a".repeat(MAX_FRONTEND_MESSAGE_BYTES);
    assert_eq!(bounded_log_message(&exact), exact);
}

#[test]
fn long_messages_are_cut_between_characters() {
    let long = "a".repeat(MAX_FRONTEND_MESSAGE_BYTES + 5);
    let bounded = bounded_log_message(&long);
    assert_eq!(bounded, format!("{} [truncated]", "a".repeat(MAX_FRONTEND_MESSAGE_BYTES)));
    // A three-byte character across the limit is left out whole.
    let mixed = format!("{}€€", "a".repeat(MAX_FRONTEND_MESSAGE_BYTES - 2));
    assert_eq!(bounded_log_message(&mixed), format!("{} [truncated]", "a".repeat(MAX_FRONTEND_MESSAGE_BYTES - 2)));
    let wide = "€".repeat(6000);
    let cut = bounded_log_message(&wide);
    assert_eq!(cut, format!("{} [truncated]", "€".repeat(5461)));
}

#[test]
fn frontend_targets_stay_under_frontend() {
    assert_eq!(frontend_log_target("frontend.board".into()), "frontend.board");
    assert_eq!(frontend_log_target("storage".into()), "frontend");
    assert_eq!(frontend_log_target("frontend".into()), "frontend");
}

#[test]
fn unknown_levels_are_errors() {
    assert_eq!(log_level("debug"), LogLevel::Debug);
    assert_eq!(log_level("info"), LogLevel::Info);
    assert_eq!(log_level("warn"), LogLevel::Warn);
    assert_eq!(log_level("trace"), LogLevel::Error);
}

#[test]
fn development_port_defaults_and_must_be_a_port() {
    let refused = Err("CARDBE_DEV_PORT must be a port between 1 and 65535".to_string());
    assert_eq!(dev_port(None), Ok(1420));
    assert_eq!(dev_port(Some("1421")), Ok(1421));
    assert_eq!(dev_port(Some("+80")), Ok(80));
    assert_eq!(dev_port(Some("0")), refused);
    assert_eq!(dev_port(Some("65536")), refused);
    assert_eq!(dev_port(Some("14 21")), refused);
    assert_eq!(dev_port(Some("")), refused);
}
