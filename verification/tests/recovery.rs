use cardbe::recovery::{
    backup_path, backup_recovery_message, empty_recovery_message, quarantine_message, quarantine_path,
    recovery_step, DocumentRead, QuarantineOutcome, RecoveryStep,
};

#[test]
fn the_current_file_wins_then_its_backup() {
    assert_eq!(recovery_step(DocumentRead::Loaded, None, true), RecoveryStep::UseCurrent);
    assert_eq!(recovery_step(DocumentRead::Unreadable, None, true), RecoveryStep::ReadBackup);
    assert_eq!(
        recovery_step(DocumentRead::Unreadable, Some(DocumentRead::Loaded), true),
        RecoveryStep::UseBackup
    );
}

#[test]
fn corrupt_current_data_never_falls_back_to_legacy_files() {
    assert_eq!(
        recovery_step(DocumentRead::Unreadable, Some(DocumentRead::Missing), true),
        RecoveryStep::StartEmpty
    );
    assert_eq!(
        recovery_step(DocumentRead::Missing, Some(DocumentRead::Missing), false),
        RecoveryStep::ReadLegacy
    );
}

#[test]
fn recovery_paths_and_messages() {
    assert_eq!(backup_path("/data/data.json"), "/data/data.json.bak");
    assert_eq!(quarantine_path("/data/data.json", 1234), "/data/data.json.corrupt-1234");
    assert_eq!(
        quarantine_message("application", "bad json", &QuarantineOutcome::Moved("/x.corrupt-1".into())),
        "The application data file was unreadable and was moved to /x.corrupt-1 (bad json)."
    );
    assert_eq!(
        quarantine_message("backup", "bad json", &QuarantineOutcome::NotMoved("denied".into())),
        "The backup data file was unreadable (bad json), and could not be preserved: denied."
    );
    assert_eq!(
        backup_recovery_message("/d/data.json.bak"),
        "The SQLite database was migrated from /d/data.json.bak because the primary JSON file was unavailable."
    );
    assert!(empty_recovery_message().starts_with("No valid current application data"));
}
