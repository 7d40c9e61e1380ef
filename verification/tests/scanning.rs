//! Scanning, staleness, notification counts and the scan report.

use relfa::commands::scan_inbox;
use relfa::config::{Config, NotificationType, PathFormatConfig, SubdirConfig};
use relfa::scanner::{InboxEntry, Scanner, StaleItem};
use relfa::state::NotificationState;
use relfa::timestamp::Timestamp;

fn ts(year: u64, month: u64, day: u64) -> Timestamp {
    Timestamp { year, month, day, hour: 0, minute: 0, second: 0 }
}

fn test_config(threshold: u32) -> Config {
    Config {
        inbox: String::from("inbox"),
        graveyard: String::from("gy"),
        age_threshold_days: threshold,
        notification: NotificationType::Cli,
        path_format: PathFormatConfig {
            created_subdir: SubdirConfig::Original { name: String::from("created") },
            modified_subdir: SubdirConfig::Symlink {
                name: String::from("modified"),
                target: String::from("created"),
            },
            archived_subdir: SubdirConfig::Nothing,
            date_format: String::from("{hostname}/{year}/{month:02}/{day:02}"),
        },
        pager: String::from("less"),
    }
}

const NOW: i64 = 1760227200; // 2025-10-12 00:00:00 UTC
const DAY: i64 = 86400;

fn entry(name: &str, age_days: i64, is_directory: bool) -> InboxEntry {
    InboxEntry {
        path: format!("inbox/{name}"),
        name: String::from(name),
        modified_epoch: NOW - age_days * DAY,
        modified: ts(2025, 9, 12),
        is_directory,
    }
}

#[test]
fn only_entries_older_than_the_threshold_are_stale() {
    let config = test_config(14);
    let mut state = NotificationState::default();
    let entries = vec![entry("old.txt", 30, false), entry("fresh.txt", 3, false), entry(
        "border.txt",
        14,
        false,
    )];
    let items = scan_inbox(&config, &entries, NOW, &mut state);
    // Exactly 14 days old is not yet past the cutoff.
    assert_eq!(items.len(), 1);
    assert_eq!(items[0].name, "old.txt");
    assert_eq!(items[0].age_days, 30);
    assert_eq!(items[0].notification_count, 1);
}

#[test]
fn tracking_increments_stale_names_and_forgets_the_rest() {
    let config = test_config(14);
    let mut state = NotificationState::default();
    let entries = vec![entry("old.txt", 30, false)];
    scan_inbox(&config, &entries, NOW, &mut state);
    scan_inbox(&config, &entries, NOW, &mut state);
    assert_eq!(state.get_notification_count("old.txt"), 2);
    // The file is touched: it leaves the stale set, and its count is
    // dropped on the next scan.
    let touched = vec![entry("old.txt", 1, false)];
    let items = scan_inbox(&config, &touched, NOW, &mut state);
    assert!(items.is_empty());
    assert_eq!(state.get_notification_count("old.txt"), 0);
}

#[test]
fn read_only_scan_leaves_counts_alone() {
    let config = test_config(14);
    let scanner = Scanner::new(config);
    let state = NotificationState::default();
    let entries = vec![entry("old.txt", 30, false)];
    let items = scanner.scan_inbox(&entries, NOW, &state);
    assert_eq!(items.len(), 1);
    assert_eq!(items[0].notification_count, 0);
}

#[test]
fn eligibility_splits_on_the_minimum_scan_count() {
    let config = test_config(14);
    let scanner = Scanner::new(config);
    let mut state = NotificationState::default();
    state.increment_notification_count("nagged.txt");
    state.increment_notification_count("nagged.txt");
    state.increment_notification_count("nagged.txt");
    let entries = vec![entry("nagged.txt", 40, false), entry("quiet.txt", 40, false)];
    let eligible = scanner.scan_auto_archive_eligible(&entries, NOW, 30, 3, &state);
    assert_eq!(eligible.len(), 1);
    assert_eq!(eligible[0].name, "nagged.txt");
    assert_eq!(eligible[0].notification_count, 3);
    let pending = scanner.scan_pending_auto_archive(&entries, NOW, 30, 3, &state);
    assert_eq!(pending.len(), 1);
    assert_eq!(pending[0].name, "quiet.txt");
    assert_eq!(pending[0].notification_count, 0);
}

#[test]
fn notification_state_counts_per_name() {
    let mut state = NotificationState::default();
    assert_eq!(state.get_notification_count("a"), 0);
    state.increment_notification_count("a");
    state.increment_notification_count("a");
    state.increment_notification_count("b");
    assert_eq!(state.get_notification_count("a"), 2);
    assert_eq!(state.get_notification_count("b"), 1);
    state.reset_notification_count("a");
    assert_eq!(state.get_notification_count("a"), 0);
    assert_eq!(state.get_notification_count("b"), 1);
    state.retain_only_files(&vec![]);
    assert_eq!(state.get_notification_count("b"), 0);
}

#[test]
fn stale_item_line_shows_age_and_date() {
    let item = StaleItem {
        path: String::from("inbox/report.pdf"),
        name: String::from("report.pdf"),
        last_modified: ts(2025, 9, 12),
        is_directory: false,
        age_days: 30,
        notification_count: 0,
    };
    assert_eq!(
        item.display(),
        "\u{1F4C4} \"report.pdf\" (file) - last touched 30 days ago (2025-09-12)"
    );
    let folder = StaleItem { is_directory: true, ..item };
    assert!(folder.display().contains("(folder)"));
}

#[test]
fn empty_scan_report_says_all_clean() {
    let scanner = Scanner::new(test_config(14));
    let none: Vec<StaleItem> = vec![];
    let report = scanner.display_scan_results(&none, &none, &none, 3);
    assert_eq!(report, "\u{2728} No dusty items found in your Inbox! All clean and tidy.\n");
}

#[test]
fn scan_report_lists_sections_and_hints() {
    let scanner = Scanner::new(test_config(14));
    let item = StaleItem {
        path: String::from("inbox/old.txt"),
        name: String::from("old.txt"),
        last_modified: ts(2025, 9, 12),
        is_directory: false,
        age_days: 30,
        notification_count: 2,
    };
    let stale = vec![item.clone()];
    let none: Vec<StaleItem> = vec![];
    let report = scanner.display_scan_results(&stale, &none, &none, 3);
    assert!(report.contains("1 item in ~/Inbox is gathering dust:"));
    assert!(report.contains("[seen 2 times]"));
    assert!(report.contains("or 'relfa archive --all' to archive them all to the Graveyard."));
}

#[test]
fn latest_epoch_takes_the_maximum() {
    assert_eq!(relfa::scanner::latest_epoch(100, &vec![50, 300, 200]), 300);
    assert_eq!(relfa::scanner::latest_epoch(100, &vec![]), 100);
}
