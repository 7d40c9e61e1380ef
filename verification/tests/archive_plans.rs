//! The archiving engine end to end: plans, view graphs, epitaphs,
//! collisions and the configuration error.

use relfa::archiver::{ArchiveError, Archiver, TimeKind};
use relfa::config::{Config, NotificationType, PathFormatConfig, SubdirConfig};
use relfa::epitaph::{epitaph_filename, render_epitaph};
use relfa::scanner::StaleItem;
use relfa::timestamp::Timestamp;

fn ts(year: u64, month: u64, day: u64, hour: u64, minute: u64, second: u64) -> Timestamp {
    Timestamp { year, month, day, hour, minute, second }
}

fn default_views_config() -> Config {
    Config {
        inbox: String::from("inbox"),
        graveyard: String::from("gy"),
        age_threshold_days: 14,
        notification: NotificationType::Cli,
        path_format: PathFormatConfig {
            created_subdir: SubdirConfig::Original { name: String::from("created") },
            modified_subdir: SubdirConfig::Symlink {
                name: String::from("modified"),
                target: String::from("created"),
            },
            archived_subdir: SubdirConfig::Symlink {
                name: String::from("archived"),
                target: String::from("created"),
            },
            date_format: String::from("{hostname}/{year}/{month:02}/{day:02}"),
        },
        pager: String::from("less"),
    }
}

fn report_item() -> StaleItem {
    StaleItem {
        path: String::from("inbox/report.pdf"),
        name: String::from("report.pdf"),
        last_modified: ts(2025, 9, 12, 0, 0, 0),
        is_directory: false,
        age_days: 30,
        notification_count: 0,
    }
}

#[test]
fn end_to_end_scenario_builds_the_whole_view_graph() {
    let config = default_views_config();
    let archiver = Archiver::new(config);
    let created_time = ts(2025, 9, 12, 0, 0, 0);
    let archived_time = ts(2025, 10, 12, 8, 30, 0);
    let existing: Vec<String> = vec![];
    let plan = archiver
        .archive_item_with_note(
            &report_item(),
            Some("done"),
            &created_time,
            &archived_time,
            "host",
            &existing,
        )
        .unwrap();

    assert_eq!(plan.source_path, "inbox/report.pdf");
    assert!(!plan.is_directory);

    assert_eq!(plan.originals.len(), 1);
    assert!(matches!(plan.originals[0].kind, TimeKind::Created));
    assert_eq!(plan.originals[0].view, "created");
    assert_eq!(plan.originals[0].dir, "gy/created/host/2025/09/12");
    assert_eq!(plan.originals[0].path, "gy/created/host/2025/09/12/report.pdf");

    assert_eq!(plan.symlinks.len(), 2);
    let modified = &plan.symlinks[0];
    assert_eq!(modified.view, "modified");
    assert_eq!(modified.link_path, "gy/modified/host/2025/09/12/report.pdf");
    assert_eq!(modified.target_path, "gy/created/host/2025/09/12/report.pdf");
    assert_eq!(modified.rel_target, "../../../../../created/host/2025/09/12/report.pdf");
    let archived = &plan.symlinks[1];
    assert_eq!(archived.view, "archived");
    assert_eq!(archived.link_path, "gy/archived/host/2025/10/12/report.pdf");
    assert_eq!(archived.target_path, "gy/created/host/2025/09/12/report.pdf");
    assert_eq!(archived.rel_target, "../../../../../created/host/2025/09/12/report.pdf");

    // Every symlink resolves to the one original copy.
    for link in &plan.symlinks {
        assert!(plan.originals.iter().any(|o| o.path == link.target_path));
        // And none of them sits on top of an original.
        assert!(plan.originals.iter().all(|o| o.path != link.link_path));
    }

    let ep = plan.epitaph.as_ref().unwrap();
    assert_eq!(ep.primary_path, "gy/created/host/2025/09/12/report.pdf.epitaph");
    assert!(ep.copy_paths.is_empty());
    assert_eq!(ep.links.len(), 2);
    assert_eq!(ep.links[0].link_path, "gy/modified/host/2025/09/12/report.pdf.epitaph");
    assert_eq!(ep.links[0].target_path, "gy/created/host/2025/09/12/report.pdf.epitaph");
    assert_eq!(ep.links[1].link_path, "gy/archived/host/2025/10/12/report.pdf.epitaph");
    assert_eq!(ep.links[1].target_path, "gy/created/host/2025/09/12/report.pdf.epitaph");

    let expected_content = "# Epitaph for report.pdf\n\
        # Archived: 2025-10-12 08:30:00 UTC\n\
        # Created: 2025-09-12 00:00:00 UTC\n\
        # Modified: 2025-09-12 00:00:00 UTC\n\
        # Hostname: host\n\
        \n\
        done";
    assert_eq!(ep.content, expected_content);
}

#[test]
fn collision_on_the_same_day_takes_the_first_suffix() {
    let config = default_views_config();
    let archiver = Archiver::new(config);
    let created_time = ts(2025, 9, 12, 0, 0, 0);
    let archived_time = ts(2025, 10, 12, 8, 30, 0);
    let existing: Vec<String> = vec![];
    let first = archiver
        .archive_item_with_note(&report_item(), None, &created_time, &archived_time, "host", &existing)
        .unwrap();
    // The first item now occupies its destination; a second, different
    // source with the same name and day must get the `_1` suffix and
    // never overwrite the first.
    let mut taken = existing;
    taken.push(first.originals[0].path.clone());
    let second = archiver
        .archive_item_with_note(&report_item(), None, &created_time, &archived_time, "host", &taken)
        .unwrap();
    assert_eq!(second.originals[0].path, "gy/created/host/2025/09/12/report_1.pdf");
    assert_ne!(second.originals[0].path, first.originals[0].path);
}

#[test]
fn two_original_views_copy_the_epitaph_verbatim() {
    let mut config = default_views_config();
    config.path_format.modified_subdir = SubdirConfig::Original { name: String::from("modified") };
    let archiver = Archiver::new(config);
    let created_time = ts(2025, 9, 12, 0, 0, 0);
    let archived_time = ts(2025, 10, 12, 8, 30, 0);
    let existing: Vec<String> = vec![];
    let plan = archiver
        .archive_item_with_note(
            &report_item(),
            Some("done"),
            &created_time,
            &archived_time,
            "host",
            &existing,
        )
        .unwrap();
    assert_eq!(plan.originals.len(), 2);
    assert_eq!(plan.originals[1].view, "modified");
    assert_eq!(plan.originals[1].path, "gy/modified/host/2025/09/12/report.pdf");
    let ep = plan.epitaph.as_ref().unwrap();
    // One canonical write beside the first original; the second original's
    // location receives a copy of those exact bytes.
    assert_eq!(ep.primary_path, "gy/created/host/2025/09/12/report.pdf.epitaph");
    assert_eq!(ep.copy_paths, vec![String::from("gy/modified/host/2025/09/12/report.pdf.epitaph")]);
    // One symlink view remains; its epitaph link mirrors the item link.
    assert_eq!(plan.symlinks.len(), 1);
    assert_eq!(ep.links.len(), 1);
    assert_eq!(ep.links[0].view, plan.symlinks[0].view);
    assert_eq!(ep.links[0].link_dir, plan.symlinks[0].link_dir);
}

#[test]
fn suffixed_items_carry_suffixed_epitaphs() {
    // The first archive of the day took `report.pdf` and its epitaph;
    // the second lands on `report_1.pdf`, and its note follows the placed
    // name, so neither the older item nor its note is overwritten.
    let config = default_views_config();
    let archiver = Archiver::new(config);
    let created_time = ts(2025, 9, 12, 0, 0, 0);
    let archived_time = ts(2025, 10, 12, 8, 30, 0);
    let existing = vec![
        String::from("gy/created/host/2025/09/12/report.pdf"),
        String::from("gy/created/host/2025/09/12/report.pdf.epitaph"),
    ];
    let plan = archiver
        .archive_item_with_note(
            &report_item(),
            Some("second"),
            &created_time,
            &archived_time,
            "host",
            &existing,
        )
        .unwrap();
    assert_eq!(plan.originals[0].path, "gy/created/host/2025/09/12/report_1.pdf");
    let ep = plan.epitaph.as_ref().unwrap();
    assert_eq!(ep.primary_path, "gy/created/host/2025/09/12/report_1.pdf.epitaph");
    assert!(!existing.contains(&ep.primary_path));
}

#[test]
fn a_taken_epitaph_path_is_never_overwritten() {
    // The item itself is fresh, but a file already sits where its note
    // would go: the note moves to the first free suffixed path.
    let config = default_views_config();
    let archiver = Archiver::new(config);
    let created_time = ts(2025, 9, 12, 0, 0, 0);
    let archived_time = ts(2025, 10, 12, 8, 30, 0);
    let existing = vec![String::from("gy/created/host/2025/09/12/report.pdf.epitaph")];
    let plan = archiver
        .archive_item_with_note(
            &report_item(),
            Some("note"),
            &created_time,
            &archived_time,
            "host",
            &existing,
        )
        .unwrap();
    assert_eq!(plan.originals[0].path, "gy/created/host/2025/09/12/report.pdf");
    let ep = plan.epitaph.as_ref().unwrap();
    assert_eq!(ep.primary_path, "gy/created/host/2025/09/12/report.pdf_1.epitaph");
    assert!(!existing.contains(&ep.primary_path));
}

#[test]
fn directory_epitaphs_live_inside_the_archived_directory() {
    let config = default_views_config();
    let archiver = Archiver::new(config);
    let created_time = ts(2025, 9, 12, 0, 0, 0);
    let archived_time = ts(2025, 10, 12, 8, 30, 0);
    let existing: Vec<String> = vec![];
    let item = StaleItem {
        path: String::from("inbox/projects"),
        name: String::from("projects"),
        last_modified: ts(2025, 9, 12, 0, 0, 0),
        is_directory: true,
        age_days: 30,
        notification_count: 0,
    };
    let plan = archiver
        .archive_item_with_note(&item, Some("done"), &created_time, &archived_time, "host", &existing)
        .unwrap();
    assert_eq!(plan.originals[0].path, "gy/created/host/2025/09/12/projects");
    let ep = plan.epitaph.as_ref().unwrap();
    // Inside the archived directory, as the on-disk layout demands.
    assert_eq!(ep.primary_path, "gy/created/host/2025/09/12/projects/.epitaph");
    // The mirrors point at the epitaph inside each link's target.
    assert_eq!(ep.links[0].link_path, "gy/modified/host/2025/09/12/projects.epitaph");
    assert_eq!(ep.links[0].target_path, "gy/created/host/2025/09/12/projects/.epitaph");
}

#[test]
fn no_original_view_is_a_configuration_error() {
    let mut config = default_views_config();
    config.path_format.created_subdir = SubdirConfig::Nothing;
    let archiver = Archiver::new(config);
    let created_time = ts(2025, 9, 12, 0, 0, 0);
    let archived_time = ts(2025, 10, 12, 8, 30, 0);
    let existing: Vec<String> = vec![];
    let r = archiver.archive_item_with_note(
        &report_item(),
        None,
        &created_time,
        &archived_time,
        "host",
        &existing,
    );
    match r {
        Err(e) => {
            assert!(matches!(e, ArchiveError::Configuration));
            assert_eq!(e.message(), "no subdir configured to store original files");
        },
        Ok(_) => panic!("a configuration without originals must be rejected"),
    }
}

#[test]
fn no_note_means_no_epitaph() {
    let config = default_views_config();
    let archiver = Archiver::new(config);
    let created_time = ts(2025, 9, 12, 0, 0, 0);
    let archived_time = ts(2025, 10, 12, 8, 30, 0);
    let existing: Vec<String> = vec![];
    let plan = archiver
        .archive_item_with_note(&report_item(), None, &created_time, &archived_time, "host", &existing)
        .unwrap();
    assert!(plan.epitaph.is_none());
}

#[test]
fn epitaph_rendering_is_bit_exact() {
    let content = render_epitaph(
        "notes",
        &ts(2024, 1, 2, 3, 4, 5),
        &ts(2023, 12, 31, 23, 59, 59),
        &ts(2024, 1, 1, 0, 0, 0),
        "box-1",
        "kept too long",
    );
    assert_eq!(
        content,
        "# Epitaph for notes\n# Archived: 2024-01-02 03:04:05 UTC\n# Created: 2023-12-31 23:59:59 UTC\n# Modified: 2024-01-01 00:00:00 UTC\n# Hostname: box-1\n\nkept too long"
    );
    assert_eq!(epitaph_filename("notes"), "notes.epitaph");
}

#[test]
fn find_original_subdirs_reports_the_bound_kinds() {
    let mut config = default_views_config();
    config.path_format.archived_subdir = SubdirConfig::Original { name: String::from("archived") };
    let archiver = Archiver::new(config);
    let slots = archiver.find_original_subdirs().unwrap();
    assert_eq!(slots.len(), 2);
    assert_eq!(slots[0].view, "created");
    assert!(matches!(slots[0].kind, TimeKind::Created));
    assert_eq!(slots[1].view, "archived");
    assert!(matches!(slots[1].kind, TimeKind::Archived));
}
