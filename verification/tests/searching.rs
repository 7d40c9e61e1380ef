//! Graveyard search, deduplication, ordering and resurrect decisions.

use relfa::commands::{resurrect_files, search_graveyard};
use relfa::config::{Config, NotificationType, PathFormatConfig, SubdirConfig};
use relfa::graveyard::{find_in_graveyard, GraveEntry, GraveyardManager, ResurrectOutcome};
use relfa::paths::file_name_of;

fn test_config() -> Config {
    Config {
        inbox: String::from("inbox"),
        graveyard: String::from("gy"),
        age_threshold_days: 14,
        notification: NotificationType::Cli,
        path_format: PathFormatConfig {
            created_subdir: SubdirConfig::Original { name: String::from("created") },
            modified_subdir: SubdirConfig::Nothing,
            archived_subdir: SubdirConfig::Nothing,
            date_format: String::from("{hostname}/{year}/{month:02}/{day:02}"),
        },
        pager: String::from("less"),
    }
}

fn file_entry(path: &str, epitaph: Option<&str>) -> GraveEntry {
    GraveEntry {
        path: String::from(path),
        file_name: file_name_of(path),
        is_file: true,
        epitaph_content: epitaph.map(String::from),
    }
}

#[test]
fn filename_matches_prefer_the_created_view() {
    let entries = vec![
        file_entry("gy/modified/host/2025/09/12/report.pdf", None),
        file_entry("gy/created/host/2025/09/12/report.pdf", None),
        file_entry("gy/created/host/2025/09/12/other.txt", None),
    ];
    let found = find_in_graveyard(&entries, "report");
    // One result per file name, and the created view's copy wins.
    assert_eq!(found, vec![String::from("gy/created/host/2025/09/12/report.pdf")]);
}

#[test]
fn epitaph_files_themselves_never_match() {
    let entries = vec![file_entry("gy/created/host/2025/09/12/report.pdf.epitaph", None)];
    let found = find_in_graveyard(&entries, "report");
    assert!(found.is_empty());
}

#[test]
fn epitaph_content_matches_case_insensitively() {
    // The file name itself does not contain the pattern; only the
    // lowercased epitaph content does. A lowercase mapping that handed
    // its input back unchanged would miss this match.
    let entries = vec![file_entry(
        "gy/created/host/2025/09/12/q3.pdf",
        Some("# Epitaph for q3.pdf\n# Hostname: host\n\nQUARTERLY REPORT"),
    )];
    let found = find_in_graveyard(&entries, "report");
    assert_eq!(found.len(), 1);
    let results = search_graveyard(&entries, "report");
    assert_eq!(results.len(), 1);
    assert!(results[0].matched_by_epitaph);
    assert_eq!(results[0].note.as_deref(), Some("QUARTERLY REPORT"));
}

#[test]
fn search_results_carry_the_trimmed_note() {
    let entries = vec![file_entry(
        "gy/created/host/2025/09/12/notes.txt",
        Some("# Epitaph for notes.txt\n\n  kept for taxes  \n"),
    )];
    let results = search_graveyard(&entries, "notes");
    assert_eq!(results.len(), 1);
    assert_eq!(results[0].note.as_deref(), Some("kept for taxes"));
    assert!(!results[0].matched_by_epitaph);
}

#[test]
fn an_empty_note_after_the_header_reads_as_none() {
    let entries = vec![file_entry(
        "gy/created/host/2025/09/12/notes.txt",
        Some("# Epitaph for notes.txt\n\n   \n"),
    )];
    let results = search_graveyard(&entries, "notes");
    assert_eq!(results.len(), 1);
    assert!(results[0].note.is_none());
}

#[test]
fn results_are_ordered_created_first_then_lexicographically() {
    let entries = vec![
        file_entry("gy/modified/b.txt", None),
        file_entry("gy/created/c.txt", None),
        file_entry("gy/created/a.txt", None),
    ];
    let found = find_in_graveyard(&entries, ".txt");
    assert_eq!(
        found,
        vec![
            String::from("gy/created/a.txt"),
            String::from("gy/created/c.txt"),
            String::from("gy/modified/b.txt"),
        ]
    );
}

#[test]
fn resurrect_outcomes_follow_the_selection() {
    let manager = GraveyardManager::new(test_config());
    let none: Vec<String> = vec![];
    assert!(matches!(manager.resurrect_files(&none, ""), ResurrectOutcome::NoMatches));

    let single = vec![String::from("gy/created/host/2025/09/12/report.pdf")];
    match manager.resurrect_files(&single, "") {
        ResurrectOutcome::Resurrect { source, dest } => {
            assert_eq!(source, "gy/created/host/2025/09/12/report.pdf");
            assert_eq!(dest, "inbox/report.pdf");
        },
        other => panic!("single match must resurrect, got {other:?}"),
    }

    let several = vec![
        String::from("gy/created/a.txt"),
        String::from("gy/created/b.txt"),
    ];
    assert!(matches!(manager.resurrect_files(&several, "q"), ResurrectOutcome::Cancelled));
    assert!(matches!(manager.resurrect_files(&several, "3"), ResurrectOutcome::InvalidChoice));
    assert!(matches!(manager.resurrect_files(&several, "0"), ResurrectOutcome::InvalidChoice));
    assert!(matches!(manager.resurrect_files(&several, "two"), ResurrectOutcome::InvalidInput));
    match resurrect_files(&manager, &several, "2") {
        ResurrectOutcome::Resurrect { source, dest } => {
            assert_eq!(source, "gy/created/b.txt");
            assert_eq!(dest, "inbox/b.txt");
        },
        other => panic!("choice 2 must resurrect, got {other:?}"),
    }
}

#[test]
fn file_names_come_after_the_last_slash() {
    assert_eq!(file_name_of("a/b/c.txt"), "c.txt");
    assert_eq!(file_name_of("plain"), "plain");
}
