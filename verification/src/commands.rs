//! The command-level logic: what each invocation computes, over plain
//! values the surrounding binary gathered beforehand.

use vstd::prelude::*;
use vstd::string::*;

use crate::archiver::{plan_matches, ArchiveError, ArchivePlan, Archiver};
use crate::config::Config;
use crate::graveyard::{search_files, GraveEntry, GraveyardManager, ResurrectOutcome, SearchResult};
use crate::scanner::{
    distinct_names, scan_arith_ok, spec_is_stale_name, spec_mk_item, spec_scan, InboxEntry,
    Scanner, StaleItem,
};
use crate::state::{spec_count, wf_counts, NotificationState};
use crate::timestamp::Timestamp;

verus! {

/// Scan the inbox: report the stale entries and record the notification
/// for each of them, dropping counts of names no longer stale.
pub fn scan_inbox(
    config: &Config,
    entries: &Vec<InboxEntry>,
    now_epoch: i64,
    state: &mut NotificationState,
) -> (r: Vec<StaleItem>)
    requires
        scan_arith_ok(entries@, now_epoch, config.age_threshold_days),
        distinct_names(entries@),
        wf_counts(old(state).notification_counts@),
        forall|i: int|
            0 <= i < entries@.len() ==> spec_count(
                old(state).notification_counts@,
                (#[trigger] entries@[i]).name@,
            ) < u32::MAX,
    ensures
        r@ == spec_scan(
            entries@,
            now_epoch,
            config.age_threshold_days,
            old(state).notification_counts@,
            true,
        ),
        forall|m: Seq<char>|
            spec_is_stale_name(entries@, now_epoch, config.age_threshold_days, m)
                ==> #[trigger] crate::state::spec_count(final(state).notification_counts@, m)
                == spec_count(old(state).notification_counts@, m) + 1,
        forall|m: Seq<char>|
            !spec_is_stale_name(entries@, now_epoch, config.age_threshold_days, m)
                ==> #[trigger] crate::state::spec_count(final(state).notification_counts@, m) == 0,
        wf_counts(final(state).notification_counts@),
{
    let scanner = Scanner::new(config.duplicate());
    scanner.scan_inbox_with_notification_tracking(entries, now_epoch, state)
}

/// Whether any reported stale item carries this name.
pub fn is_among_stale(stale_items: &Vec<StaleItem>, name: &str) -> (r: bool)
    ensures
        r == exists|i: int|
            0 <= i < stale_items@.len() && (#[trigger] stale_items@[i]).name@ == name@,
{
    let mut i: usize = 0;
    while i < stale_items.len()
        invariant
            i <= stale_items@.len(),
            forall|j: int| 0 <= j < i ==> (#[trigger] stale_items@[j]).name@ != name@,
        decreases stale_items@.len() - i,
    {
        if crate::text::eq_str(stale_items[i].name.as_str(), name) {
            return true;
        }
        i = i + 1;
    }
    false
}

/// Archive one named inbox item, stale or not: build the archive plan for
/// it and say whether a too-young warning is due.
pub fn archive_item_with_note(
    archiver: &Archiver,
    stale_items: &Vec<StaleItem>,
    entry: &InboxEntry,
    note: Option<&str>,
    now_epoch: i64,
    count: u32,
    created_time: &Timestamp,
    archived_time: &Timestamp,
    hostname: &str,
    existing: &Vec<String>,
) -> (r: Result<(ArchivePlan, bool), ArchiveError>)
    requires
        existing@.len() + 16 < u64::MAX,
        i64::MIN < now_epoch - entry.modified_epoch <= i64::MAX,
    ensures
        match r {
            Ok((plan, was_stale)) => {
                &&& was_stale == exists|i: int|
                    0 <= i < stale_items@.len() && (#[trigger] stale_items@[i]).name@
                        == entry.name@
                &&& plan_matches(
                    archiver.config,
                    spec_mk_item(*entry, now_epoch, count),
                    match note {
                        Some(n) => Some(n@),
                        None => None,
                    },
                    *created_time,
                    *archived_time,
                    hostname@,
                    crate::paths::views_of(existing@),
                    plan,
                )
            },
            Err(e) => e is Configuration && crate::archiver::spec_original_slots(
                archiver.config.path_format,
            ).len() == 0,
        },
{
    let was_stale = is_among_stale(stale_items, entry.name.as_str());
    let diff = now_epoch - entry.modified_epoch;
    let age: i64 = if diff >= 0 {
        diff / 86400
    } else {
        -((-diff) / 86400)
    };
    let item = StaleItem {
        path: entry.path.clone(),
        name: entry.name.clone(),
        last_modified: entry.modified,
        is_directory: entry.is_directory,
        age_days: age,
        notification_count: count,
    };
    proof {
        assert(item == spec_mk_item(*entry, now_epoch, count));
    }
    match archiver.archive_item_with_note(
        &item,
        note,
        created_time,
        archived_time,
        hostname,
        existing,
    ) {
        Ok(plan) => Ok((plan, was_stale)),
        Err(e) => Err(e),
    }
}

/// Decide a resurrect request over the found matches.
pub fn resurrect_files(manager: &GraveyardManager, matches: &Vec<String>, input: &str) -> (r:
    ResurrectOutcome)
    ensures
        matches@.len() == 0 ==> r is NoMatches,
        matches@.len() == 1 ==> (r matches ResurrectOutcome::Resurrect { source, dest } && source@
            == matches@[0]@ && dest@ == crate::text::spec_join(
            manager.config.inbox@,
            crate::paths::spec_file_name(matches@[0]@),
        )),
        matches@.len() > 1 ==> {
            if input@ == "q"@ {
                r is Cancelled
            } else {
                match crate::digits::spec_parse_usize(input@) {
                    Some(c) => {
                        if 1 <= c <= matches@.len() {
                            r matches ResurrectOutcome::Resurrect { source, dest } && source@
                                == matches@[c - 1]@ && dest@ == crate::text::spec_join(
                                manager.config.inbox@,
                                crate::paths::spec_file_name(matches@[c - 1]@),
                            )
                        } else {
                            r is InvalidChoice
                        }
                    },
                    None => r is InvalidInput,
                }
            }
        },
{
    manager.resurrect_files(matches, input)
}

/// Search the graveyard for a pattern, over the walked entries.
pub fn search_graveyard(entries: &Vec<GraveEntry>, pattern: &str) -> (r: Vec<SearchResult>)
    ensures
        forall|i: int|
            0 <= i < r@.len() ==> crate::graveyard::search_result_ok(
                entries@,
                pattern@,
                #[trigger] r@[i],
            ),
        forall|i: int|
            0 <= i < r@.len() ==> crate::graveyard::is_matched_path(
                entries@,
                pattern@,
                #[trigger] crate::graveyard::result_paths(r@)[i],
            ),
        forall|w: int|
            0 <= w < entries@.len() && crate::graveyard::entry_matched(
                #[trigger] entries@[w],
                pattern@,
            ) ==> crate::graveyard::has_name_among(
                crate::graveyard::result_paths(r@),
                entries@[w].path@,
            ),
{
    search_files(entries, pattern)
}

} // verus!
