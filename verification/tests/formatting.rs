//! Rendering and parsing: date paths, timestamps, numbers, configuration
//! display, hostname sanitizing, and the small decision helpers.

use relfa::archiver::ArchiveError;
use relfa::config::{sanitize_hostname, Config, NotificationType, PathFormatConfig, SubdirConfig};
use relfa::digits::{parse_usize, u64_to_string};
use relfa::epitaph::trim_str;
use relfa::review::{delete_confirmed, note_or_plain, review_action, ReviewAction};
use relfa::timestamp::Timestamp;
use relfa::transfer::{
    is_cross_device_code, move_item_decision, remove_retry_decision, RemoveStep, RenameOutcome,
    TransferStep,
};

fn test_config() -> Config {
    Config {
        inbox: String::from("/home/me/Inbox"),
        graveyard: String::from("/home/me/Graveyard"),
        age_threshold_days: 14,
        notification: NotificationType::Cli,
        path_format: PathFormatConfig::default(),
        pager: String::from("less"),
    }
}

#[test]
fn date_path_expands_every_placeholder() {
    let mut config = test_config();
    config.path_format.date_format =
        String::from("{hostname}/{year}/{month:02}/{day:02}/{month}/{day}");
    let date = Timestamp { year: 2025, month: 3, day: 7, hour: 0, minute: 0, second: 0 };
    assert_eq!(config.format_date_path(&date, "box"), "box/2025/03/07/3/7");
}

#[test]
fn timestamps_render_zero_padded() {
    let t = Timestamp { year: 33, month: 1, day: 2, hour: 3, minute: 4, second: 5 };
    assert_eq!(t.format_date(), "0033-01-02");
    assert_eq!(t.format_datetime_utc(), "0033-01-02 03:04:05 UTC");
}

#[test]
fn decimal_rendering_and_parsing() {
    assert_eq!(u64_to_string(0), "0");
    assert_eq!(u64_to_string(905), "905");
    assert_eq!(parse_usize("42"), Some(42));
    assert_eq!(parse_usize("+7"), Some(7));
    assert_eq!(parse_usize(""), None);
    assert_eq!(parse_usize("4a"), None);
    assert_eq!(parse_usize("99999999999999999999999999"), None);
}

#[test]
fn hostname_keeps_only_safe_characters() {
    assert_eq!(sanitize_hostname("box-1_home"), "box-1_home");
    assert_eq!(sanitize_hostname("my host.local!"), "myhostlocal");
}

#[test]
fn subdir_display_names_each_variant() {
    let original = SubdirConfig::Original { name: String::from("created") };
    let symlink = SubdirConfig::Symlink {
        name: String::from("modified"),
        target: String::from("created"),
    };
    assert_eq!(original.display(), "created (original)");
    assert_eq!(symlink.display(), "modified (symlink -> created)");
    assert_eq!(SubdirConfig::Nothing.display(), "disabled");
    assert!(original.is_original());
    assert!(original.is_enabled());
    assert!(!SubdirConfig::Nothing.is_enabled());
    assert_eq!(symlink.get_name().map(String::as_str), Some("modified"));
    assert_eq!(symlink.get_target().map(String::as_str), Some("created"));
    assert_eq!(SubdirConfig::Nothing.get_name(), None);
}

#[test]
fn config_display_lists_every_setting() {
    let rendered = test_config().display("box");
    assert!(rendered.contains("Inbox: /home/me/Inbox"));
    assert!(rendered.contains("Graveyard: /home/me/Graveyard"));
    assert!(rendered.contains("Age threshold: 14 days"));
    assert!(rendered.contains("Hostname: box"));
    assert!(rendered.contains("Notifications: Cli"));
    assert!(rendered.contains("Pager: less"));
    assert!(rendered.contains("Created: created (original)"));
    assert!(rendered.contains("Modified: modified (symlink -> created)"));
    assert!(rendered.contains("Date format: {hostname}/{year}/{month:02}/{day:02}"));
}

#[test]
fn default_views_mirror_into_created() {
    let pf = PathFormatConfig::default();
    assert!(matches!(pf.created_subdir, SubdirConfig::Original { .. }));
    assert_eq!(pf.modified_subdir.get_target().map(String::as_str), Some("created"));
    assert_eq!(pf.archived_subdir.get_target().map(String::as_str), Some("created"));
    assert_eq!(pf.date_format, "{hostname}/{year}/{month:02}/{day:02}");
}

#[test]
fn trimming_strips_whitespace_on_both_sides() {
    assert_eq!(trim_str("  kept for taxes \n"), "kept for taxes");
    assert_eq!(trim_str("\t\n "), "");
    assert_eq!(trim_str("solid"), "solid");
}

#[test]
fn cross_device_fallback_is_keyed_on_the_one_error() {
    assert!(is_cross_device_code(18));
    assert!(!is_cross_device_code(13));
    assert!(matches!(move_item_decision(&RenameOutcome::Renamed), TransferStep::Done));
    assert!(matches!(
        move_item_decision(&RenameOutcome::CrossDevice),
        TransferStep::CopyThenDelete
    ));
    assert!(matches!(move_item_decision(&RenameOutcome::Failed), TransferStep::Fail));
    assert!(matches!(remove_retry_decision(false), RemoveStep::FixPermissionsAndRetry));
    assert!(matches!(remove_retry_decision(true), RemoveStep::GiveUp));
}

#[test]
fn review_keys_map_to_their_actions() {
    assert!(matches!(review_action('a'), ReviewAction::Archive));
    assert!(matches!(review_action('n'), ReviewAction::NoteArchive));
    assert!(matches!(review_action('t'), ReviewAction::Touch));
    assert!(matches!(review_action('d'), ReviewAction::Delete));
    assert!(matches!(review_action('v'), ReviewAction::View));
    assert!(matches!(review_action('o'), ReviewAction::Open));
    assert!(matches!(review_action('s'), ReviewAction::Skip));
    assert!(matches!(review_action('q'), ReviewAction::Quit));
    assert!(matches!(review_action('?'), ReviewAction::Help));
    assert!(matches!(review_action('x'), ReviewAction::Invalid));
}

#[test]
fn error_messages_name_the_stage_and_path() {
    assert_eq!(
        ArchiveError::Metadata { path: String::from("inbox/a") }.message(),
        "failed to read metadata: inbox/a"
    );
    assert_eq!(
        ArchiveError::Transfer { path: String::from("inbox/a") }.message(),
        "failed to transfer: inbox/a"
    );
    assert_eq!(
        ArchiveError::Symlink { path: String::from("gy/a") }.message(),
        "failed to create symlink: gy/a"
    );
    assert_eq!(
        ArchiveError::Epitaph { path: String::from("gy/a.epitaph") }.message(),
        "failed to write epitaph: gy/a.epitaph"
    );
}

#[test]
fn empty_notes_archive_without_an_epitaph() {
    assert_eq!(note_or_plain(""), None);
    assert_eq!(note_or_plain("why"), Some("why"));
}

#[test]
fn deletion_requires_the_exact_name() {
    assert!(delete_confirmed("report.pdf", "report.pdf"));
    assert!(!delete_confirmed("report", "report.pdf"));
}
