//! Scanning the inbox for stale items. The surrounding binary lists the
//! directory and hands over plain entries; the staleness decisions, age
//! computation and notification-count bookkeeping are verified here.

use vstd::prelude::*;
use vstd::string::*;

use crate::config::Config;
use crate::digits::{push_dec_u64, spec_dec, spec_dec_i64};
use crate::state::{spec_count, wf_counts, NotificationState};
use crate::timestamp::{spec_format_date, Timestamp};

verus! {

/// One entry of the inbox directory, as the surrounding binary read it:
/// the same modification instant both as epoch seconds (for age
/// arithmetic) and as civil fields (for display and date partitions).
#[derive(Clone, Debug)]
pub struct InboxEntry {
    pub path: String,
    pub name: String,
    pub modified_epoch: i64,
    pub modified: Timestamp,
    pub is_directory: bool,
}

/// An inbox item that has not been touched for longer than the threshold.
#[derive(Clone, Debug)]
pub struct StaleItem {
    pub path: String,
    pub name: String,
    pub last_modified: Timestamp,
    pub is_directory: bool,
    pub age_days: i64,
    pub notification_count: u32,
}

/// The one-line rendering of a stale item.
pub open spec fn spec_stale_item_display(it: StaleItem) -> Seq<char> {
    "\u{1F4C4} \""@ + it.name@ + "\" ("@ + (if it.is_directory {
        "folder"@
    } else {
        "file"@
    }) + ") - last touched "@ + spec_dec_i64(it.age_days as int) + " days ago ("@
        + spec_format_date(it.last_modified) + ")"@
}

impl StaleItem {
    /// Render this item for listings.
    pub fn display(&self) -> (r: String)
        ensures
            r@ == spec_stale_item_display(*self),
    {
        let mut out = String::new();
        out.append("\u{1F4C4} \"");
        out.append(self.name.as_str());
        out.append("\" (");
        if self.is_directory {
            out.append("folder");
        } else {
            out.append("file");
        }
        out.append(") - last touched ");
        crate::digits::push_dec_i64(&mut out, self.age_days);
        out.append(" days ago (");
        let d = self.last_modified.format_date();
        out.append(d.as_str());
        out.append(")");
        proof {
            assert(out@ =~= spec_stale_item_display(*self));
        }
        out
    }
}

/// Scans the inbox for stale items.
pub struct Scanner {
    pub config: Config,
}

/// Whether an entry counts as stale: last modified strictly before the
/// cutoff, which lies `threshold_days` days before now.
pub open spec fn spec_is_stale(e: InboxEntry, now_epoch: i64, threshold_days: u32) -> bool {
    (e.modified_epoch as int) < now_epoch - threshold_days * 86400
}

/// The stale item built from one inbox entry.
pub open spec fn spec_mk_item(e: InboxEntry, now_epoch: i64, count: u32) -> StaleItem {
    StaleItem {
        path: e.path,
        name: e.name,
        last_modified: e.modified,
        is_directory: e.is_directory,
        age_days: spec_age_of(e, now_epoch) as i64,
        notification_count: count,
    }
}

/// The whole days since the entry's modification, truncated toward zero.
pub open spec fn spec_age_of(e: InboxEntry, now_epoch: i64) -> int {
    let d = now_epoch - e.modified_epoch;
    if d >= 0 {
        d / 86400
    } else {
        -((-d) / 86400)
    }
}

/// The stale items a scan reports, in entry order: each entry older than
/// the threshold, with its age and its notification count — incremented by
/// the scan itself when tracking.
pub open spec fn spec_scan(
    entries: Seq<InboxEntry>,
    now_epoch: i64,
    threshold_days: u32,
    counts: Seq<(String, u32)>,
    track: bool,
) -> Seq<StaleItem>
    decreases entries.len(),
{
    if entries.len() == 0 {
        Seq::empty()
    } else {
        (if spec_is_stale(entries[0], now_epoch, threshold_days) {
            seq![
                spec_mk_item(
                    entries[0],
                    now_epoch,
                    (spec_count(counts, entries[0].name@) + (if track {
                        1int
                    } else {
                        0int
                    })) as u32,
                ),
            ]
        } else {
            Seq::empty()
        }) + spec_scan(entries.skip(1), now_epoch, threshold_days, counts, track)
    }
}

/// Some stale entry carries this name.
pub open spec fn spec_is_stale_name(
    entries: Seq<InboxEntry>,
    now_epoch: i64,
    threshold_days: u32,
    m: Seq<char>,
) -> bool {
    exists|i: int|
        0 <= i < entries.len() && (#[trigger] entries[i]).name@ == m && spec_is_stale(
            entries[i],
            now_epoch,
            threshold_days,
        )
}

/// Entry names are pairwise distinct, as they are in a directory listing.
pub open spec fn distinct_names(entries: Seq<InboxEntry>) -> bool {
    forall|i: int, j: int| 0 <= i < j < entries.len() ==> entries[i].name@ != entries[j].name@
}

/// Ages and the cutoff stay within the machine's integers.
pub open spec fn scan_arith_ok(entries: Seq<InboxEntry>, now_epoch: i64, threshold_days: u32) -> bool {
    &&& now_epoch - threshold_days * 86400 >= i64::MIN
    &&& forall|i: int|
        0 <= i < entries.len() ==> i64::MIN < now_epoch - (#[trigger] entries[i]).modified_epoch
            <= i64::MAX
}

impl Scanner {
    /// A scanner over the given configuration.
    pub fn new(config: Config) -> (r: Self)
        ensures
            r.config == config,
    {
        Scanner { config }
    }

    /// Report the stale inbox entries without touching the notification
    /// counts.
    pub fn scan_inbox(&self, entries: &Vec<InboxEntry>, now_epoch: i64, state: &NotificationState) -> (r:
        Vec<StaleItem>)
        requires
            scan_arith_ok(entries@, now_epoch, self.config.age_threshold_days),
            distinct_names(entries@),
        ensures
            r@ == spec_scan(
                entries@,
                now_epoch,
                self.config.age_threshold_days,
                state.notification_counts@,
                false,
            ),
    {
        let mut dummy = NotificationState { notification_counts: clone_counts(&state.notification_counts) };
        self.scan_inbox_with_state(entries, now_epoch, &mut dummy, false)
    }

    /// Report the stale inbox entries and record the notification: each
    /// stale name's count grows by one, every other recorded name is
    /// dropped.
    pub fn scan_inbox_with_notification_tracking(
        &self,
        entries: &Vec<InboxEntry>,
        now_epoch: i64,
        state: &mut NotificationState,
    ) -> (r: Vec<StaleItem>)
        requires
            scan_arith_ok(entries@, now_epoch, self.config.age_threshold_days),
            distinct_names(entries@),
            wf_counts(old(state).notification_counts@),
            forall|i: int|
                0 <= i < entries@.len() ==> spec_count(
                    old(state).notification_counts@,
                    (#[trigger] entries@[i]).name@,
                ) < u32::MAX,
        ensures
            r@ == spec_scan(
                entries@,
                now_epoch,
                self.config.age_threshold_days,
                old(state).notification_counts@,
                true,
            ),
            forall|m: Seq<char>|
                spec_is_stale_name(entries@, now_epoch, self.config.age_threshold_days, m)
                    ==> #[trigger] spec_count(final(state).notification_counts@, m) == spec_count(
                    old(state).notification_counts@,
                    m,
                ) + 1,
            forall|m: Seq<char>|
                !spec_is_stale_name(entries@, now_epoch, self.config.age_threshold_days, m)
                    ==> #[trigger] spec_count(final(state).notification_counts@, m) == 0,
            wf_counts(final(state).notification_counts@),
    {
        self.scan_inbox_with_state(entries, now_epoch, state, true)
    }

    /// The scan core: filter the entries by the age threshold, attach ages
    /// and notification counts, and — when tracking — increment each stale
    /// name's count and forget every name that is no longer stale.
    pub fn scan_inbox_with_state(
        &self,
        entries: &Vec<InboxEntry>,
        now_epoch: i64,
        state: &mut NotificationState,
        track: bool,
    ) -> (r: Vec<StaleItem>)
        requires
            scan_arith_ok(entries@, now_epoch, self.config.age_threshold_days),
            distinct_names(entries@),
            track ==> wf_counts(old(state).notification_counts@),
            track ==> forall|i: int|
                0 <= i < entries@.len() ==> spec_count(
                    old(state).notification_counts@,
                    (#[trigger] entries@[i]).name@,
                ) < u32::MAX,
        ensures
            r@ == spec_scan(
                entries@,
                now_epoch,
                self.config.age_threshold_days,
                old(state).notification_counts@,
                track,
            ),
            !track ==> *final(state) == *old(state),
            track ==> forall|m: Seq<char>|
                spec_is_stale_name(entries@, now_epoch, self.config.age_threshold_days, m)
                    ==> #[trigger] spec_count(final(state).notification_counts@, m) == spec_count(
                    old(state).notification_counts@,
                    m,
                ) + 1,
            track ==> forall|m: Seq<char>|
                !spec_is_stale_name(entries@, now_epoch, self.config.age_threshold_days, m)
                    ==> #[trigger] spec_count(final(state).notification_counts@, m) == 0,
            track ==> wf_counts(final(state).notification_counts@),
    {
        let ghost counts0 = old(state).notification_counts@;
        let ghost days = self.config.age_threshold_days;
        let cutoff: i64 = now_epoch - (self.config.age_threshold_days as i64) * 86400;
        let mut out: Vec<StaleItem> = Vec::new();
        let mut stale_names: Vec<String> = Vec::new();
        let mut i: usize = 0;
        proof {
            assert(entries@.skip(0) =~= entries@);
            assert(out@ + spec_scan(entries@, now_epoch, days, counts0, track) =~= spec_scan(
                entries@,
                now_epoch,
                days,
                counts0,
                track,
            ));
        }
        while i < entries.len()
            invariant
                i <= entries@.len(),
                days == self.config.age_threshold_days,
                counts0 == old(state).notification_counts@,
                cutoff == now_epoch - (days as int) * 86400,
                scan_arith_ok(entries@, now_epoch, days),
                distinct_names(entries@),
                track ==> wf_counts(old(state).notification_counts@),
                track ==> forall|j: int|
                    0 <= j < entries@.len() ==> spec_count(counts0, (#[trigger] entries@[j]).name@)
                        < u32::MAX,
                spec_scan(entries@, now_epoch, days, counts0, track) == out@ + spec_scan(
                    entries@.skip(i as int),
                    now_epoch,
                    days,
                    counts0,
                    track,
                ),
                !track ==> *state == *old(state),
                track ==> wf_counts(state.notification_counts@),
                track ==> forall|m: Seq<char>|
                    spec_is_stale_name(entries@.take(i as int), now_epoch, days, m)
                        ==> #[trigger] spec_count(state.notification_counts@, m) == spec_count(
                        counts0,
                        m,
                    ) + 1,
                track ==> forall|m: Seq<char>|
                    !spec_is_stale_name(entries@.take(i as int), now_epoch, days, m)
                        ==> #[trigger] spec_count(state.notification_counts@, m) == spec_count(
                        counts0,
                        m,
                    ),
                forall|m: Seq<char>|
                    #[trigger] crate::paths::views_of(stale_names@).contains(m)
                        <==> spec_is_stale_name(entries@.take(i as int), now_epoch, days, m),
            decreases entries@.len() - i,
        {
            let ghost t = entries@.skip(i as int);
            let ghost out0 = out@;
            let ghost names0 = stale_names@;
            let ghost st0 = state.notification_counts@;
            let e = &entries[i];
            if e.modified_epoch < cutoff {
                let diff = now_epoch - e.modified_epoch;
                let age: i64 = if diff >= 0 {
                    diff / 86400
                } else {
                    -((-diff) / 86400)
                };
                let count = if track {
                    let c = state.get_notification_count(e.name.as_str());
                    proof {
                        assert(spec_is_stale(entries@[i as int], now_epoch, days));
                        assert(!spec_is_stale_name(entries@.take(i as int), now_epoch, days, e.name@));
                        assert(spec_count(state.notification_counts@, e.name@) == spec_count(
                            counts0,
                            e.name@,
                        ));
                    }
                    state.increment_notification_count(e.name.as_str());
                    c + 1
                } else {
                    state.get_notification_count(e.name.as_str())
                };
                let item = StaleItem {
                    path: e.path.clone(),
                    name: e.name.clone(),
                    last_modified: e.modified,
                    is_directory: e.is_directory,
                    age_days: age,
                    notification_count: count,
                };
                out.push(item);
                stale_names.push(e.name.clone());
                proof {
                    crate::paths::lemma_views_push(names0, stale_names@.last());
                    assert(out@.last() == spec_mk_item(
                        entries@[i as int],
                        now_epoch,
                        (spec_count(counts0, entries@[i as int].name@) + (if track {
                            1int
                        } else {
                            0int
                        })) as u32,
                    ));
                }
            }
            proof {
                assert(t.skip(1) =~= entries@.skip(i + 1));
                assert(t[0] == entries@[i as int]);
                if spec_is_stale(entries@[i as int], now_epoch, days) {
                    assert(out@ =~= out0 + seq![out@.last()]);
                    assert(out@ + spec_scan(entries@.skip(i + 1), now_epoch, days, counts0, track)
                        =~= out0 + spec_scan(t, now_epoch, days, counts0, track));
                } else {
                    assert(out@ + spec_scan(entries@.skip(i + 1), now_epoch, days, counts0, track)
                        =~= out0 + spec_scan(t, now_epoch, days, counts0, track));
                }
                assert(entries@.take(i + 1) =~= entries@.take(i as int).push(entries@[i as int]));
                if track {
                    let nm = entries@[i as int].name@;
                    if spec_is_stale(entries@[i as int], now_epoch, days) {
                        assert(entries@.take(i + 1)[i as int] == entries@[i as int]);
                        assert(spec_is_stale_name(entries@.take(i + 1), now_epoch, days, nm));
                        assert(spec_count(state.notification_counts@, nm) == spec_count(st0, nm)
                            + 1);
                        assert forall|m: Seq<char>|
                            spec_is_stale_name(entries@.take(i + 1), now_epoch, days, m)
                                implies #[trigger] spec_count(state.notification_counts@, m)
                            == spec_count(counts0, m) + 1 by {
                            if m == nm {
                                assert(spec_count(st0, nm) == spec_count(counts0, nm));
                            } else {
                                let w = choose|w: int|
                                    0 <= w < entries@.take(i + 1).len() && (#[trigger] entries@.take(
                                        i + 1,
                                    )[w]).name@ == m && spec_is_stale(
                                        entries@.take(i + 1)[w],
                                        now_epoch,
                                        days,
                                    );
                                assert(w < i as int);
                                assert(entries@.take(i as int)[w] == entries@.take(i + 1)[w]);
                                assert(spec_is_stale_name(entries@.take(i as int), now_epoch, days, m));
                                assert(spec_count(st0, m) == spec_count(counts0, m) + 1);
                                assert(spec_count(state.notification_counts@, m) == spec_count(
                                    st0,
                                    m,
                                ));
                            }
                        }
                        assert forall|m: Seq<char>|
                            !spec_is_stale_name(entries@.take(i + 1), now_epoch, days, m)
                                implies #[trigger] spec_count(state.notification_counts@, m)
                            == spec_count(counts0, m) by {
                            assert(m != nm);
                            assert(!spec_is_stale_name(entries@.take(i as int), now_epoch, days, m))
                                by {
                                if spec_is_stale_name(entries@.take(i as int), now_epoch, days, m) {
                                    let w = choose|w: int|
                                        0 <= w < entries@.take(i as int).len() && (
                                        #[trigger] entries@.take(i as int)[w]).name@ == m
                                            && spec_is_stale(
                                            entries@.take(i as int)[w],
                                            now_epoch,
                                            days,
                                        );
                                    assert(entries@.take(i + 1)[w] == entries@.take(i as int)[w]);
                                    assert(spec_is_stale_name(
                                        entries@.take(i + 1),
                                        now_epoch,
                                        days,
                                        m,
                                    ));
                                }
                            }
                            assert(spec_count(st0, m) == spec_count(counts0, m));
                            assert(spec_count(state.notification_counts@, m) == spec_count(st0, m));
                        }
                    } else {
                        assert(state.notification_counts@ == st0);
                        assert forall|m: Seq<char>|
                            spec_is_stale_name(entries@.take(i + 1), now_epoch, days, m)
                                implies spec_is_stale_name(
                                entries@.take(i as int),
                                now_epoch,
                                days,
                                m,
                            ) by {
                            let w = choose|w: int|
                                0 <= w < entries@.take(i + 1).len() && (#[trigger] entries@.take(
                                    i + 1,
                                )[w]).name@ == m && spec_is_stale(
                                    entries@.take(i + 1)[w],
                                    now_epoch,
                                    days,
                                );
                            assert(w < i as int);
                            assert(entries@.take(i as int)[w] == entries@.take(i + 1)[w]);
                        }
                        assert forall|m: Seq<char>|
                            spec_is_stale_name(entries@.take(i as int), now_epoch, days, m)
                                implies spec_is_stale_name(
                                entries@.take(i + 1),
                                now_epoch,
                                days,
                                m,
                            ) by {
                            let w = choose|w: int|
                                0 <= w < entries@.take(i as int).len() && (#[trigger] entries@.take(
                                    i as int,
                                )[w]).name@ == m && spec_is_stale(
                                    entries@.take(i as int)[w],
                                    now_epoch,
                                    days,
                                );
                            assert(entries@.take(i + 1)[w] == entries@.take(i as int)[w]);
                        }
                    }
                }
                assert forall|m: Seq<char>|
                    #[trigger] crate::paths::views_of(stale_names@).contains(m)
                        <==> spec_is_stale_name(entries@.take(i + 1), now_epoch, days, m) by {
                    let nv = crate::paths::views_of(stale_names@);
                    let pre = entries@.take(i + 1);
                    if nv.contains(m) {
                        let j = choose|j: int| 0 <= j < nv.len() && nv[j] == m;
                        if j < names0.len() {
                            assert(crate::paths::views_of(names0)[j] == m);
                            assert(crate::paths::views_of(names0).contains(m));
                            let w = choose|w: int|
                                0 <= w < entries@.take(i as int).len() && (
                                #[trigger] entries@.take(i as int)[w]).name@ == m && spec_is_stale(
                                    entries@.take(i as int)[w],
                                    now_epoch,
                                    days,
                                );
                            assert(pre[w] == entries@.take(i as int)[w]);
                            assert(spec_is_stale_name(pre, now_epoch, days, m));
                        } else {
                            assert(m == entries@[i as int].name@);
                            assert(pre[i as int] == entries@[i as int]);
                            assert(spec_is_stale_name(pre, now_epoch, days, m));
                        }
                    }
                    if spec_is_stale_name(pre, now_epoch, days, m) {
                        let w = choose|w: int|
                            0 <= w < pre.len() && (#[trigger] pre[w]).name@ == m && spec_is_stale(
                                pre[w],
                                now_epoch,
                                days,
                            );
                        if w < i as int {
                            assert(entries@.take(i as int)[w] == pre[w]);
                            assert(spec_is_stale_name(entries@.take(i as int), now_epoch, days, m));
                            assert(crate::paths::views_of(names0).contains(m));
                            let j = choose|j: int|
                                0 <= j < crate::paths::views_of(names0).len()
                                    && crate::paths::views_of(names0)[j] == m;
                            assert(nv[j] == m);
                        } else {
                            assert(pre[w] == entries@[i as int]);
                            assert(spec_is_stale(entries@[i as int], now_epoch, days));
                            assert(nv[nv.len() - 1] == m);
                        }
                    }
                }
            }
            i = i + 1;
        }
        proof {
            assert(entries@.take(entries@.len() as int) =~= entries@);
            assert(spec_scan(entries@.skip(entries@.len() as int), now_epoch, days, counts0, track)
                =~= Seq::<StaleItem>::empty());
            assert(out@ =~= spec_scan(entries@, now_epoch, days, counts0, track));
        }
        if track {
            state.retain_only_files(&stale_names);
        }
        out
    }
}

/// `item` or `items`.
pub open spec fn spec_plural_items(n: int) -> Seq<char> {
    if n == 1 {
        "item"@
    } else {
        "items"@
    }
}

/// `is` or `are`.
pub open spec fn spec_is_are(n: int) -> Seq<char> {
    if n == 1 {
        "is"@
    } else {
        "are"@
    }
}

/// The listing line of one stale item with its seen-count tag.
pub open spec fn spec_stale_line(it: StaleItem) -> Seq<char> {
    "   "@ + spec_stale_item_display(it) + (if it.notification_count > 0 {
        " [seen "@ + spec_dec(it.notification_count as nat) + " times]"@
    } else {
        Seq::empty()
    }) + "\n"@
}

/// The listing lines of the stale items.
pub open spec fn spec_stale_lines(items: Seq<StaleItem>) -> Seq<char>
    decreases items.len(),
{
    if items.len() == 0 {
        Seq::empty()
    } else {
        spec_stale_line(items[0]) + spec_stale_lines(items.skip(1))
    }
}

/// The listing line of one pending item with the scans it still needs.
pub open spec fn spec_pending_line(it: StaleItem, min_scans: u32) -> Seq<char> {
    let needed = min_scans - it.notification_count;
    "   "@ + spec_stale_item_display(it) + " [needs "@ + spec_dec(needed as nat) + " more "@ + (
    if needed == 1 {
        "scan"@
    } else {
        "scans"@
    }) + "]\n"@
}

/// The listing lines of the pending items.
pub open spec fn spec_pending_lines(items: Seq<StaleItem>, min_scans: u32) -> Seq<char>
    decreases items.len(),
{
    if items.len() == 0 {
        Seq::empty()
    } else {
        spec_pending_line(items[0], min_scans) + spec_pending_lines(items.skip(1), min_scans)
    }
}

/// The listing line of one auto-archive-eligible item.
pub open spec fn spec_eligible_line(it: StaleItem) -> Seq<char> {
    "   "@ + spec_stale_item_display(it) + " [notified "@ + spec_dec(it.notification_count as nat)
        + " times]\n"@
}

/// The listing lines of the eligible items.
pub open spec fn spec_eligible_lines(items: Seq<StaleItem>) -> Seq<char>
    decreases items.len(),
{
    if items.len() == 0 {
        Seq::empty()
    } else {
        spec_eligible_line(items[0]) + spec_eligible_lines(items.skip(1))
    }
}

/// The stale section: header and listing lines, when there are any.
pub open spec fn spec_stale_section(stale: Seq<StaleItem>) -> Seq<char> {
    if stale.len() == 0 {
        Seq::empty()
    } else {
        "\u{2620}\u{FE0F}  "@ + spec_dec(stale.len() as nat) + " "@ + spec_plural_items(
            stale.len() as int,
        ) + " in ~/Inbox "@ + spec_is_are(stale.len() as int) + " gathering dust:\n"@
            + spec_stale_lines(stale)
    }
}

/// The pending section, separated by a blank line when something stands
/// before it.
pub open spec fn spec_pending_section(
    pending: Seq<StaleItem>,
    min_scans: u32,
    after: bool,
) -> Seq<char> {
    if pending.len() == 0 {
        Seq::empty()
    } else {
        (if after {
            "\n"@
        } else {
            Seq::empty()
        }) + "\u{23F3} "@ + spec_dec(pending.len() as nat) + " "@ + spec_plural_items(
            pending.len() as int,
        ) + " old enough for auto-archiving but "@ + (if pending.len() == 1 {
            "needs"@
        } else {
            "need"@
        }) + " more scans:\n"@ + spec_pending_lines(pending, min_scans)
    }
}

/// The eligible section, separated by a blank line when something stands
/// before it, closed by the auto-archive warning.
pub open spec fn spec_eligible_section(eligible: Seq<StaleItem>, after: bool) -> Seq<char> {
    if eligible.len() == 0 {
        Seq::empty()
    } else {
        (if after {
            "\n"@
        } else {
            Seq::empty()
        }) + "\u{1F916} "@ + spec_dec(eligible.len() as nat) + " "@ + spec_plural_items(
            eligible.len() as int,
        ) + " "@ + spec_is_are(eligible.len() as int) + " eligible for auto-archiving NOW:\n"@
            + spec_eligible_lines(eligible)
            + "   \u{26A0}\u{FE0F}  These will be automatically archived if you run 'relfa archive' without arguments!\n"@
    }
}

/// The closing hints, depending on which sections were shown.
pub open spec fn spec_hint_section(stale_n: int, eligible_n: int) -> Seq<char> {
    "\n\u{1F4A1} Run 'relfa review' to interactively deal with these items\n"@ + (if stale_n > 0
        && eligible_n > 0 {
        "   or 'relfa archive' to auto-archive old files (or 'relfa archive --all' for all).\n"@
    } else if stale_n > 0 {
        "   or 'relfa archive --all' to archive them all to the Graveyard.\n"@
    } else if eligible_n > 0 {
        "   or 'relfa archive' to auto-archive old files.\n"@
    } else {
        Seq::empty()
    })
}

/// The full scan report: the stale, pending and eligible sections that are
/// non-empty, then the hint lines the combination calls for.
pub open spec fn spec_scan_report(
    stale: Seq<StaleItem>,
    pending: Seq<StaleItem>,
    eligible: Seq<StaleItem>,
    min_scans: u32,
) -> Seq<char> {
    if stale.len() == 0 && pending.len() == 0 && eligible.len() == 0 {
        "\u{2728} No dusty items found in your Inbox! All clean and tidy.\n"@
    } else {
        spec_stale_section(stale) + spec_pending_section(pending, min_scans, stale.len() > 0)
            + spec_eligible_section(eligible, stale.len() > 0 || pending.len() > 0)
            + spec_hint_section(stale.len() as int, eligible.len() as int)
    }
}

/// The stale items whose notification count is on the wanted side of the
/// minimum: at or above it when `want_eligible`, below it otherwise.
pub open spec fn spec_scan_by_count(
    entries: Seq<InboxEntry>,
    now_epoch: i64,
    threshold_days: u32,
    min_scans: u32,
    counts: Seq<(String, u32)>,
    want_eligible: bool,
) -> Seq<StaleItem>
    decreases entries.len(),
{
    if entries.len() == 0 {
        Seq::empty()
    } else {
        (if spec_is_stale(entries[0], now_epoch, threshold_days) && ((spec_count(
            counts,
            entries[0].name@,
        ) >= min_scans) == want_eligible) {
            seq![spec_mk_item(entries[0], now_epoch, spec_count(counts, entries[0].name@))]
        } else {
            Seq::empty()
        }) + spec_scan_by_count(
            entries.skip(1),
            now_epoch,
            threshold_days,
            min_scans,
            counts,
            want_eligible,
        )
    }
}

impl Scanner {
    /// The stale entries that have been announced at least `min_scans`
    /// times: old enough and nagged about often enough to archive without
    /// asking.
    pub fn scan_auto_archive_eligible(
        &self,
        entries: &Vec<InboxEntry>,
        now_epoch: i64,
        threshold_days: u32,
        min_scans: u32,
        state: &NotificationState,
    ) -> (r: Vec<StaleItem>)
        requires
            scan_arith_ok(entries@, now_epoch, threshold_days),
        ensures
            r@ == spec_scan_by_count(
                entries@,
                now_epoch,
                threshold_days,
                min_scans,
                state.notification_counts@,
                true,
            ),
    {
        scan_filtered_by_count(entries, now_epoch, threshold_days, min_scans, state, true)
    }

    /// The stale entries that are old enough for auto-archiving but have
    /// not been announced `min_scans` times yet.
    pub fn scan_pending_auto_archive(
        &self,
        entries: &Vec<InboxEntry>,
        now_epoch: i64,
        threshold_days: u32,
        min_scans: u32,
        state: &NotificationState,
    ) -> (r: Vec<StaleItem>)
        requires
            scan_arith_ok(entries@, now_epoch, threshold_days),
        ensures
            r@ == spec_scan_by_count(
                entries@,
                now_epoch,
                threshold_days,
                min_scans,
                state.notification_counts@,
                false,
            ),
    {
        scan_filtered_by_count(entries, now_epoch, threshold_days, min_scans, state, false)
    }
}

impl Scanner {
    /// Render the whole scan report: the stale, pending and eligible
    /// items with their listing lines, and the hints on what to run next.
    pub fn display_scan_results(
        &self,
        stale: &Vec<StaleItem>,
        pending: &Vec<StaleItem>,
        eligible: &Vec<StaleItem>,
        min_scans: u32,
    ) -> (r: String)
        requires
            forall|i: int|
                0 <= i < pending@.len() ==> (#[trigger] pending@[i]).notification_count
                    <= min_scans,
        ensures
            r@ == spec_scan_report(stale@, pending@, eligible@, min_scans),
    {
        let mut out = String::new();
        if stale.len() == 0 && pending.len() == 0 && eligible.len() == 0 {
            out.append("\u{2728} No dusty items found in your Inbox! All clean and tidy.\n");
            proof {
                assert(out@ =~= spec_scan_report(stale@, pending@, eligible@, min_scans));
            }
            return out;
        }
        push_stale_section(&mut out, stale);
        push_pending_section(&mut out, pending, min_scans, stale.len() > 0);
        push_eligible_section(&mut out, eligible, stale.len() > 0 || pending.len() > 0);
        push_hint_section(&mut out, stale.len(), eligible.len());
        proof {
            assert(out@ =~= spec_scan_report(stale@, pending@, eligible@, min_scans));
        }
        out
    }
}

/// Append the stale section.
fn push_stale_section(out: &mut String, stale: &Vec<StaleItem>)
    ensures
        final(out)@ == old(out)@ + spec_stale_section(stale@),
{
    if stale.len() == 0 {
        proof {
            assert(out@ =~= old(out)@ + spec_stale_section(stale@));
        }
        return ;
    }
    out.append("\u{2620}\u{FE0F}  ");
    push_dec_u64(out, stale.len() as u64);
    out.append(" ");
    if stale.len() == 1 {
        out.append("item");
    } else {
        out.append("items");
    }
    out.append(" in ~/Inbox ");
    if stale.len() == 1 {
        out.append("is");
    } else {
        out.append("are");
    }
    out.append(" gathering dust:\n");
    push_stale_lines(out, stale);
    proof {
        assert(out@ =~= old(out)@ + spec_stale_section(stale@));
    }
}

/// Append the pending section.
fn push_pending_section(out: &mut String, pending: &Vec<StaleItem>, min_scans: u32, after: bool)
    requires
        forall|i: int|
            0 <= i < pending@.len() ==> (#[trigger] pending@[i]).notification_count <= min_scans,
    ensures
        final(out)@ == old(out)@ + spec_pending_section(pending@, min_scans, after),
{
    if pending.len() == 0 {
        proof {
            assert(out@ =~= old(out)@ + spec_pending_section(pending@, min_scans, after));
        }
        return ;
    }
    if after {
        out.append("\n");
    }
    out.append("\u{23F3} ");
    push_dec_u64(out, pending.len() as u64);
    out.append(" ");
    if pending.len() == 1 {
        out.append("item");
    } else {
        out.append("items");
    }
    out.append(" old enough for auto-archiving but ");
    if pending.len() == 1 {
        out.append("needs");
    } else {
        out.append("need");
    }
    out.append(" more scans:\n");
    push_pending_lines(out, pending, min_scans);
    proof {
        assert(out@ =~= old(out)@ + spec_pending_section(pending@, min_scans, after));
    }
}

/// Append the eligible section.
fn push_eligible_section(out: &mut String, eligible: &Vec<StaleItem>, after: bool)
    ensures
        final(out)@ == old(out)@ + spec_eligible_section(eligible@, after),
{
    if eligible.len() == 0 {
        proof {
            assert(out@ =~= old(out)@ + spec_eligible_section(eligible@, after));
        }
        return ;
    }
    if after {
        out.append("\n");
    }
    out.append("\u{1F916} ");
    push_dec_u64(out, eligible.len() as u64);
    out.append(" ");
    if eligible.len() == 1 {
        out.append("item");
    } else {
        out.append("items");
    }
    out.append(" ");
    if eligible.len() == 1 {
        out.append("is");
    } else {
        out.append("are");
    }
    out.append(" eligible for auto-archiving NOW:\n");
    push_eligible_lines(out, eligible);
    out.append(
        "   \u{26A0}\u{FE0F}  These will be automatically archived if you run 'relfa archive' without arguments!\n",
    );
    proof {
        assert(out@ =~= old(out)@ + spec_eligible_section(eligible@, after));
    }
}

/// Append the closing hints.
fn push_hint_section(out: &mut String, stale_n: usize, eligible_n: usize)
    ensures
        final(out)@ == old(out)@ + spec_hint_section(stale_n as int, eligible_n as int),
{
    out.append("\n\u{1F4A1} Run 'relfa review' to interactively deal with these items\n");
    if stale_n > 0 && eligible_n > 0 {
        out.append(
            "   or 'relfa archive' to auto-archive old files (or 'relfa archive --all' for all).\n",
        );
    } else if stale_n > 0 {
        out.append("   or 'relfa archive --all' to archive them all to the Graveyard.\n");
    } else if eligible_n > 0 {
        out.append("   or 'relfa archive' to auto-archive old files.\n");
    }
    proof {
        assert(out@ =~= old(out)@ + spec_hint_section(stale_n as int, eligible_n as int));
    }
}

/// Append the stale items' listing lines.
fn push_stale_lines(out: &mut String, items: &Vec<StaleItem>)
    ensures
        final(out)@ == old(out)@ + spec_stale_lines(items@),
{
    let mut i: usize = 0;
    proof {
        assert(items@.skip(0) =~= items@);
        assert(old(out)@ + spec_stale_lines(items@) =~= old(out)@ + spec_stale_lines(items@));
    }
    while i < items.len()
        invariant
            i <= items@.len(),
            old(out)@ + spec_stale_lines(items@) == out@ + spec_stale_lines(
                items@.skip(i as int),
            ),
        decreases items@.len() - i,
    {
        let ghost t = items@.skip(i as int);
        let ghost out0 = out@;
        out.append("   ");
        let line = items[i].display();
        out.append(line.as_str());
        if items[i].notification_count > 0 {
            out.append(" [seen ");
            push_dec_u64(out, items[i].notification_count as u64);
            out.append(" times]");
        }
        out.append("\n");
        proof {
            assert(t[0] == items@[i as int]);
            assert(t.skip(1) =~= items@.skip(i + 1));
            assert(out@ =~= out0 + spec_stale_line(items@[i as int]));
            assert(out@ + spec_stale_lines(items@.skip(i + 1)) =~= out0 + spec_stale_lines(t));
        }
        i = i + 1;
    }
    proof {
        assert(spec_stale_lines(items@.skip(items@.len() as int)) =~= Seq::<char>::empty());
        assert(out@ =~= old(out)@ + spec_stale_lines(items@));
    }
}

/// Append the pending items' listing lines.
fn push_pending_lines(out: &mut String, items: &Vec<StaleItem>, min_scans: u32)
    requires
        forall|i: int|
            0 <= i < items@.len() ==> (#[trigger] items@[i]).notification_count <= min_scans,
    ensures
        final(out)@ == old(out)@ + spec_pending_lines(items@, min_scans),
{
    let mut i: usize = 0;
    proof {
        assert(items@.skip(0) =~= items@);
    }
    while i < items.len()
        invariant
            i <= items@.len(),
            forall|j: int|
                0 <= j < items@.len() ==> (#[trigger] items@[j]).notification_count <= min_scans,
            old(out)@ + spec_pending_lines(items@, min_scans) == out@ + spec_pending_lines(
                items@.skip(i as int),
                min_scans,
            ),
        decreases items@.len() - i,
    {
        let ghost t = items@.skip(i as int);
        let ghost out0 = out@;
        out.append("   ");
        let line = items[i].display();
        out.append(line.as_str());
        out.append(" [needs ");
        let needed: u32 = min_scans - items[i].notification_count;
        push_dec_u64(out, needed as u64);
        out.append(" more ");
        if needed == 1 {
            out.append("scan");
        } else {
            out.append("scans");
        }
        out.append("]\n");
        proof {
            assert(t[0] == items@[i as int]);
            assert(t.skip(1) =~= items@.skip(i + 1));
            assert(out@ =~= out0 + spec_pending_line(items@[i as int], min_scans));
            assert(out@ + spec_pending_lines(items@.skip(i + 1), min_scans) =~= out0
                + spec_pending_lines(t, min_scans));
        }
        i = i + 1;
    }
    proof {
        assert(spec_pending_lines(items@.skip(items@.len() as int), min_scans) =~= Seq::<
            char,
        >::empty());
        assert(out@ =~= old(out)@ + spec_pending_lines(items@, min_scans));
    }
}

/// Append the eligible items' listing lines.
fn push_eligible_lines(out: &mut String, items: &Vec<StaleItem>)
    ensures
        final(out)@ == old(out)@ + spec_eligible_lines(items@),
{
    let mut i: usize = 0;
    proof {
        assert(items@.skip(0) =~= items@);
    }
    while i < items.len()
        invariant
            i <= items@.len(),
            old(out)@ + spec_eligible_lines(items@) == out@ + spec_eligible_lines(
                items@.skip(i as int),
            ),
        decreases items@.len() - i,
    {
        let ghost t = items@.skip(i as int);
        let ghost out0 = out@;
        out.append("   ");
        let line = items[i].display();
        out.append(line.as_str());
        out.append(" [notified ");
        push_dec_u64(out, items[i].notification_count as u64);
        out.append(" times]\n");
        proof {
            assert(t[0] == items@[i as int]);
            assert(t.skip(1) =~= items@.skip(i + 1));
            assert(out@ =~= out0 + spec_eligible_line(items@[i as int]));
            assert(out@ + spec_eligible_lines(items@.skip(i + 1)) =~= out0 + spec_eligible_lines(
                t,
            ));
        }
        i = i + 1;
    }
    proof {
        assert(spec_eligible_lines(items@.skip(items@.len() as int)) =~= Seq::<char>::empty());
        assert(out@ =~= old(out)@ + spec_eligible_lines(items@));
    }
}

/// The latest of a directory's own modification time and its entries'
/// times, as used when a whole directory's staleness is judged.
pub fn latest_epoch(dir_time: i64, entry_times: &Vec<i64>) -> (r: i64)
    ensures
        r == dir_time || entry_times@.contains(r),
        r >= dir_time,
        forall|i: int| 0 <= i < entry_times@.len() ==> r >= #[trigger] entry_times@[i],
{
    let mut latest = dir_time;
    let mut i: usize = 0;
    while i < entry_times.len()
        invariant
            i <= entry_times@.len(),
            latest == dir_time || entry_times@.contains(latest),
            latest >= dir_time,
            forall|j: int| 0 <= j < i ==> latest >= #[trigger] entry_times@[j],
        decreases entry_times@.len() - i,
    {
        if entry_times[i] > latest {
            latest = entry_times[i];
        }
        i = i + 1;
    }
    latest
}

/// Filter the entries by staleness and by which side of the minimum scan
/// count they stand on.
fn scan_filtered_by_count(
    entries: &Vec<InboxEntry>,
    now_epoch: i64,
    threshold_days: u32,
    min_scans: u32,
    state: &NotificationState,
    want_eligible: bool,
) -> (r: Vec<StaleItem>)
    requires
        scan_arith_ok(entries@, now_epoch, threshold_days),
    ensures
        r@ == spec_scan_by_count(
            entries@,
            now_epoch,
            threshold_days,
            min_scans,
            state.notification_counts@,
            want_eligible,
        ),
{
    let ghost counts = state.notification_counts@;
    let cutoff: i64 = now_epoch - (threshold_days as i64) * 86400;
    let mut out: Vec<StaleItem> = Vec::new();
    let mut i: usize = 0;
    proof {
        assert(entries@.skip(0) =~= entries@);
        assert(out@ + spec_scan_by_count(entries@, now_epoch, threshold_days, min_scans, counts, want_eligible)
            =~= spec_scan_by_count(entries@, now_epoch, threshold_days, min_scans, counts, want_eligible));
    }
    while i < entries.len()
        invariant
            i <= entries@.len(),
            counts == state.notification_counts@,
            cutoff == now_epoch - (threshold_days as int) * 86400,
            scan_arith_ok(entries@, now_epoch, threshold_days),
            spec_scan_by_count(entries@, now_epoch, threshold_days, min_scans, counts, want_eligible)
                == out@ + spec_scan_by_count(
                entries@.skip(i as int),
                now_epoch,
                threshold_days,
                min_scans,
                counts,
                want_eligible,
            ),
        decreases entries@.len() - i,
    {
        let ghost t = entries@.skip(i as int);
        let ghost out0 = out@;
        let e = &entries[i];
        if e.modified_epoch < cutoff {
            let c = state.get_notification_count(e.name.as_str());
            if (c >= min_scans) == want_eligible {
                let diff = now_epoch - e.modified_epoch;
                let age: i64 = if diff >= 0 {
                    diff / 86400
                } else {
                    -((-diff) / 86400)
                };
                out.push(
                    StaleItem {
                        path: e.path.clone(),
                        name: e.name.clone(),
                        last_modified: e.modified,
                        is_directory: e.is_directory,
                        age_days: age,
                        notification_count: c,
                    },
                );
                proof {
                    assert(out@.last() == spec_mk_item(
                        entries@[i as int],
                        now_epoch,
                        spec_count(counts, entries@[i as int].name@),
                    ));
                    assert(out@ =~= out0 + seq![out@.last()]);
                }
            }
        }
        proof {
            assert(t.skip(1) =~= entries@.skip(i + 1));
            assert(t[0] == entries@[i as int]);
            assert(out@ + spec_scan_by_count(
                entries@.skip(i + 1),
                now_epoch,
                threshold_days,
                min_scans,
                counts,
                want_eligible,
            ) =~= out0 + spec_scan_by_count(t, now_epoch, threshold_days, min_scans, counts, want_eligible));
        }
        i = i + 1;
    }
    proof {
        assert(spec_scan_by_count(
            entries@.skip(entries@.len() as int),
            now_epoch,
            threshold_days,
            min_scans,
            counts,
            want_eligible,
        ) =~= Seq::<StaleItem>::empty());
        assert(out@ =~= spec_scan_by_count(entries@, now_epoch, threshold_days, min_scans, counts, want_eligible));
    }
    out
}

/// Copy the count entries, keeping keys and counts.
fn clone_counts(v: &Vec<(String, u32)>) -> (r: Vec<(String, u32)>)
    ensures
        r@ == v@,
{
    let mut out: Vec<(String, u32)> = Vec::new();
    let mut i: usize = 0;
    while i < v.len()
        invariant
            i <= v@.len(),
            out@ == v@.take(i as int),
        decreases v@.len() - i,
    {
        let entry = (v[i].0.clone(), v[i].1);
        proof {
            assert(entry == v@[i as int]);
        }
        out.push(entry);
        proof {
            assert(out@ =~= v@.take(i + 1));
        }
        i = i + 1;
    }
    proof {
        assert(v@.take(v@.len() as int) =~= v@);
    }
    out
}

} // verus!
