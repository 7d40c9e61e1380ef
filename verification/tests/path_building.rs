//! Path building: collision suffixes, idempotence, and relative paths.

use relfa::paths::{resolve_collision, suffixed_name, vec_contains_string};
use relfa::relpath::{common_len, join_components, relative_path, split_components};
use relfa::text::{contains_sub, ends_with_sub, eq_str, join_path, replace_all};

#[test]
fn first_candidate_is_the_plain_path() {
    let taken: Vec<String> = vec![];
    let p = resolve_collision(&taken, "gy/created/host/2025/09/12", "report.pdf");
    assert_eq!(p, "gy/created/host/2025/09/12/report.pdf");
}

#[test]
fn identical_inputs_give_identical_candidates() {
    let taken = vec![String::from("gy/x/a.txt")];
    let p1 = resolve_collision(&taken, "gy/x", "b.txt");
    let p2 = resolve_collision(&taken, "gy/x", "b.txt");
    assert_eq!(p1, p2);
}

#[test]
fn after_creation_the_next_candidate_is_suffixed_one() {
    let mut taken: Vec<String> = vec![];
    let p1 = resolve_collision(&taken, "gy/x", "report.pdf");
    assert_eq!(p1, "gy/x/report.pdf");
    taken.push(p1);
    let p2 = resolve_collision(&taken, "gy/x", "report.pdf");
    assert_eq!(p2, "gy/x/report_1.pdf");
}

#[test]
fn collision_counts_up_until_free() {
    let taken = vec![
        String::from("gy/x/report.pdf"),
        String::from("gy/x/report_1.pdf"),
        String::from("gy/x/report_2.pdf"),
    ];
    let p = resolve_collision(&taken, "gy/x", "report.pdf");
    assert_eq!(p, "gy/x/report_3.pdf");
}

#[test]
fn suffix_keeps_only_the_final_extension() {
    assert_eq!(suffixed_name("archive.tar.gz", 1), "archive.tar_1.gz");
    assert_eq!(suffixed_name("report.pdf", 2), "report_2.pdf");
    assert_eq!(suffixed_name("notes", 1), "notes_1");
    assert_eq!(suffixed_name(".hidden", 3), "_3.hidden");
}

#[test]
fn membership_checks_whole_strings() {
    let v = vec![String::from("abc"), String::from("de")];
    assert!(vec_contains_string(&v, &String::from("de")));
    assert!(!vec_contains_string(&v, &String::from("d")));
}

#[test]
fn join_and_string_helpers() {
    assert_eq!(join_path("a/b", "c.txt"), "a/b/c.txt");
    assert!(eq_str("same", "same"));
    assert!(!eq_str("same", "Same"));
    assert!(contains_sub("hello world", "o w"));
    assert!(!contains_sub("hello", "world"));
    assert!(ends_with_sub("note.epitaph", ".epitaph"));
    assert!(!ends_with_sub("epitaph.txt", ".epitaph"));
}

#[test]
fn replace_all_is_left_to_right_and_non_overlapping() {
    assert_eq!(replace_all("{y}/{y}", "{y}", "2025"), "2025/2025");
    assert_eq!(replace_all("aaa", "aa", "b"), "ba");
    assert_eq!(replace_all("none", "{x}", "y"), "none");
}

#[test]
fn components_drop_empty_segments() {
    let c = split_components("/gy//created/a.txt");
    assert_eq!(c, vec!["gy", "created", "a.txt"]);
    assert_eq!(join_components(&c), "gy/created/a.txt");
}

#[test]
fn common_prefix_length() {
    let a = split_components("gy/modified/host/2025/09/12");
    let b = split_components("gy/created/host/2025/09/12/report.pdf");
    assert_eq!(common_len(&a, &b), 1);
}

#[test]
fn relative_path_climbs_to_the_common_ancestor() {
    let r = relative_path("gy/modified/host/2025/09/12", "gy/created/host/2025/09/12/report.pdf");
    assert_eq!(r, "../../../../../created/host/2025/09/12/report.pdf");
    let same_dir = relative_path("gy/created/host/2025/09/12", "gy/created/host/2025/09/12/report.pdf");
    assert_eq!(same_dir, "report.pdf");
}
