//! The archiving engine. Given an item, its three timestamps and the names
//! already present in the graveyard, it computes a complete, collision-free
//! archive plan: where each original copy goes, which symlinks complete the
//! view graph, and where the epitaph and its mirrors live. The surrounding
//! binary only carries the plan out.

use vstd::prelude::*;
use vstd::string::*;

use crate::config::{
    spec_format_date_path, spec_subdir_name, spec_subdir_target, Config, SubdirConfig,
};
use crate::epitaph::{epitaph_filename, render_epitaph, spec_epitaph_content, spec_epitaph_filename};
use crate::paths::{file_name_of, spec_file_name};
use crate::paths::{is_unique_path, lemma_views_push, resolve_collision, views_of};
use crate::relpath::{relative_path, spec_relative_path};
use crate::scanner::StaleItem;
use crate::text::{eq_str, join_path, spec_join};
use crate::timestamp::Timestamp;

verus! {

/// Which of the three logical timestamps a view is bound to.
#[derive(Clone, Copy, PartialEq, Eq, Structural, Debug)]
pub enum TimeKind {
    Created,
    Modified,
    Archived,
}

/// The timestamp a kind selects.
pub open spec fn spec_time_of(
    k: TimeKind,
    created: Timestamp,
    modified: Timestamp,
    archived: Timestamp,
) -> Timestamp {
    match k {
        TimeKind::Created => created,
        TimeKind::Modified => modified,
        TimeKind::Archived => archived,
    }
}

/// The timestamp a kind selects.
pub fn time_of(k: TimeKind, created: &Timestamp, modified: &Timestamp, archived: &Timestamp) -> (r:
    Timestamp)
    ensures
        r == spec_time_of(k, *created, *modified, *archived),
{
    match k {
        TimeKind::Created => *created,
        TimeKind::Modified => *modified,
        TimeKind::Archived => *archived,
    }
}

/// The errors an archive operation can surface, tagged by stage.
#[derive(Clone, Debug)]
pub enum ArchiveError {
    /// No view is configured to store original files; nothing would ever
    /// hold real data. Raised before any filesystem mutation.
    Configuration,
    /// The source item could not be examined.
    Metadata { path: String },
    /// Moving or copying the item failed.
    Transfer { path: String },
    /// A view's symlink could not be created; already-placed originals stay.
    Symlink { path: String },
    /// The note could not be written or mirrored; the archived item stays.
    Epitaph { path: String },
}

/// The fixed text of each error, with the offending path where one exists.
pub open spec fn spec_error_message(e: ArchiveError) -> Seq<char> {
    match e {
        ArchiveError::Configuration => "no subdir configured to store original files"@,
        ArchiveError::Metadata { path } => "failed to read metadata: "@ + path@,
        ArchiveError::Transfer { path } => "failed to transfer: "@ + path@,
        ArchiveError::Symlink { path } => "failed to create symlink: "@ + path@,
        ArchiveError::Epitaph { path } => "failed to write epitaph: "@ + path@,
    }
}

impl ArchiveError {
    /// A human-readable description of the failure.
    pub fn message(&self) -> (r: String)
        ensures
            r@ == spec_error_message(*self),
    {
        let mut out = String::new();
        match self {
            ArchiveError::Configuration => {
                out.append("no subdir configured to store original files");
            },
            ArchiveError::Metadata { path } => {
                out.append("failed to read metadata: ");
                out.append(path.as_str());
            },
            ArchiveError::Transfer { path } => {
                out.append("failed to transfer: ");
                out.append(path.as_str());
            },
            ArchiveError::Symlink { path } => {
                out.append("failed to create symlink: ");
                out.append(path.as_str());
            },
            ArchiveError::Epitaph { path } => {
                out.append("failed to write epitaph: ");
                out.append(path.as_str());
            },
        }
        proof {
            assert(out@ =~= spec_error_message(*self));
        }
        out
    }
}

/// A view that must hold an original copy, bound to its timestamp kind.
#[derive(Clone, Debug)]
pub struct OriginalSlot {
    pub view: String,
    pub kind: TimeKind,
}

/// A view that must hold a symlink, with its immediate target view.
#[derive(Clone, Debug)]
pub struct SymlinkSlot {
    pub view: String,
    pub target: String,
    pub kind: TimeKind,
}

/// One original copy of the archived item: the first entry receives the
/// real move, the rest are copied from it.
#[derive(Clone, Debug)]
pub struct PlacedCopy {
    pub view: String,
    pub kind: TimeKind,
    pub dir: String,
    pub path: String,
}

/// One symlink to create: the link's own collision-free path, the absolute
/// target, and the target relative to the link's directory (what the link
/// stores).
#[derive(Clone, Debug)]
pub struct SymlinkPlanEntry {
    pub view: String,
    pub link_dir: String,
    pub link_path: String,
    pub target_path: String,
    pub rel_target: String,
}

/// Where the note goes: one canonical write at the first original's
/// epitaph site — inside an archived directory, beside an archived file —
/// byte-identical copies at every further original's site, and a
/// mirroring symlink beside every symlink view's entry. Every file path
/// here is collision-resolved: a note never overwrites an existing
/// graveyard entry.
#[derive(Clone, Debug)]
pub struct EpitaphPlan {
    pub content: String,
    pub primary_path: String,
    pub copy_paths: Vec<String>,
    pub links: Vec<SymlinkPlanEntry>,
}

/// The complete plan for archiving one item. Executing it in order —
/// originals first, then symlinks, then the epitaph — realizes the view
/// graph on disk.
#[derive(Clone, Debug)]
pub struct ArchivePlan {
    pub source_path: String,
    pub is_directory: bool,
    pub originals: Vec<PlacedCopy>,
    pub symlinks: Vec<SymlinkPlanEntry>,
    pub epitaph: Option<EpitaphPlan>,
}

/// The result of a completed archive operation.
#[derive(Debug)]
pub struct ArchivedItem {}

/// The views that store original copies, in canonical order, each bound to
/// its timestamp kind.
pub open spec fn spec_original_slots(pf: crate::config::PathFormatConfig) -> Seq<
    (Seq<char>, TimeKind),
> {
    (if pf.created_subdir is Original {
        seq![(spec_subdir_name(pf.created_subdir)->Some_0, TimeKind::Created)]
    } else {
        Seq::empty()
    }) + (if pf.modified_subdir is Original {
        seq![(spec_subdir_name(pf.modified_subdir)->Some_0, TimeKind::Modified)]
    } else {
        Seq::empty()
    }) + (if pf.archived_subdir is Original {
        seq![(spec_subdir_name(pf.archived_subdir)->Some_0, TimeKind::Archived)]
    } else {
        Seq::empty()
    })
}

/// The views that hold symlinks, in canonical order: each enabled,
/// non-original view together with its immediate target.
pub open spec fn spec_symlink_slots(pf: crate::config::PathFormatConfig) -> Seq<
    (Seq<char>, Seq<char>, TimeKind),
> {
    (if pf.created_subdir is Symlink {
        seq![
            (
                spec_subdir_name(pf.created_subdir)->Some_0,
                spec_subdir_target(pf.created_subdir)->Some_0,
                TimeKind::Created,
            ),
        ]
    } else {
        Seq::empty()
    }) + (if pf.modified_subdir is Symlink {
        seq![
            (
                spec_subdir_name(pf.modified_subdir)->Some_0,
                spec_subdir_target(pf.modified_subdir)->Some_0,
                TimeKind::Modified,
            ),
        ]
    } else {
        Seq::empty()
    }) + (if pf.archived_subdir is Symlink {
        seq![
            (
                spec_subdir_name(pf.archived_subdir)->Some_0,
                spec_subdir_target(pf.archived_subdir)->Some_0,
                TimeKind::Archived,
            ),
        ]
    } else {
        Seq::empty()
    })
}

/// The timestamp kind a symlink target resolves to: the kind of the view
/// whose name matches the target, or the link's own kind when none does.
pub open spec fn spec_target_kind(
    pf: crate::config::PathFormatConfig,
    target: Seq<char>,
    own: TimeKind,
) -> TimeKind {
    if spec_subdir_name(pf.created_subdir) == Some(target) {
        TimeKind::Created
    } else if spec_subdir_name(pf.modified_subdir) == Some(target) {
        TimeKind::Modified
    } else if spec_subdir_name(pf.archived_subdir) == Some(target) {
        TimeKind::Archived
    } else {
        own
    }
}

/// The directory one view stores an item under, for one timestamp:
/// `graveyard/<view>/<expanded date template>`.
pub open spec fn spec_dest_dir(c: Config, host: Seq<char>, view: Seq<char>, t: Timestamp) -> Seq<
    char,
> {
    spec_join(
        spec_join(c.graveyard@, view),
        spec_format_date_path(c.path_format.date_format@, t, host),
    )
}

/// The paths of a sequence of placed copies.
pub open spec fn orig_paths(s: Seq<PlacedCopy>) -> Seq<Seq<char>> {
    s.map_values(|p: PlacedCopy| p.path@)
}

/// The link paths of a sequence of planned symlinks.
pub open spec fn link_paths(s: Seq<SymlinkPlanEntry>) -> Seq<Seq<char>> {
    s.map_values(|e: SymlinkPlanEntry| e.link_path@)
}

/// The `i`-th placed original is correct: right view and kind, directory
/// built from the bound timestamp, and a path resolved collision-free
/// against everything taken before it.
pub open spec fn original_entry_matches(
    c: Config,
    name: Seq<char>,
    created: Timestamp,
    modified: Timestamp,
    archived: Timestamp,
    host: Seq<char>,
    existing: Seq<Seq<char>>,
    originals: Seq<PlacedCopy>,
    i: int,
) -> bool {
    let slots = spec_original_slots(c.path_format);
    let pc = originals[i];
    let t = spec_time_of(slots[i].1, created, modified, archived);
    &&& pc.view@ == slots[i].0
    &&& pc.kind == slots[i].1
    &&& pc.dir@ == spec_dest_dir(c, host, slots[i].0, t)
    &&& is_unique_path(existing + orig_paths(originals.take(i)), pc.dir@, name, pc.path@)
}

/// The `i`-th planned symlink is correct: right view, link directory from
/// its own bound timestamp, target path under the immediate target view's
/// bound timestamp, collision-free link path, and a relative target
/// computed from the link's own directory.
pub open spec fn symlink_entry_matches(
    c: Config,
    filename: Seq<char>,
    created: Timestamp,
    modified: Timestamp,
    archived: Timestamp,
    host: Seq<char>,
    base_taken: Seq<Seq<char>>,
    links: Seq<SymlinkPlanEntry>,
    i: int,
) -> bool {
    let lslots = spec_symlink_slots(c.path_format);
    let e = links[i];
    let own_t = spec_time_of(lslots[i].2, created, modified, archived);
    let tgt_t = spec_time_of(
        spec_target_kind(c.path_format, lslots[i].1, lslots[i].2),
        created,
        modified,
        archived,
    );
    &&& e.view@ == lslots[i].0
    &&& e.link_dir@ == spec_dest_dir(c, host, lslots[i].0, own_t)
    &&& e.target_path@ == spec_join(spec_dest_dir(c, host, lslots[i].1, tgt_t), filename)
    &&& is_unique_path(base_taken + link_paths(links.take(i)), e.link_dir@, filename, e.link_path@)
    &&& e.rel_target@ == spec_relative_path(e.link_dir@, e.target_path@)
}

/// The epitaph part of a plan is correct: the exact rendered content, the
/// canonical write beside the first original, byte-identical copies beside
/// the others, and links that mirror the item's symlink graph.
/// Where one original copy's epitaph file lives: a file item's note sits
/// beside it, a directory item's note sits inside it.
pub open spec fn spec_epitaph_dir(pc: PlacedCopy, is_directory: bool) -> Seq<char> {
    if is_directory {
        pc.path@
    } else {
        pc.dir@
    }
}

/// The epitaph file's name at an original copy: `.epitaph` inside an
/// archived directory, `<placed name>.epitaph` beside an archived file —
/// named after the copy as placed, suffix and all, so a collided item's
/// note sits beside the path it actually landed on.
pub open spec fn spec_epitaph_name(pc: PlacedCopy, is_directory: bool) -> Seq<char> {
    if is_directory {
        ".epitaph"@
    } else {
        spec_epitaph_filename(spec_file_name(pc.path@))
    }
}

/// The epitaph counterpart of an item path in a target view: `.epitaph`
/// inside it for a directory, `<path>.epitaph` beside it for a file.
pub open spec fn spec_epitaph_target(item_path: Seq<char>, is_directory: bool) -> Seq<char> {
    if is_directory {
        spec_join(item_path, ".epitaph"@)
    } else {
        spec_epitaph_filename(item_path)
    }
}

/// The epitaph file paths of a plan, canonical write first, then the
/// copies.
pub open spec fn epitaph_file_paths(ep: EpitaphPlan) -> Seq<Seq<char>> {
    seq![ep.primary_path@] + views_of(ep.copy_paths@)
}

/// The `i`-th epitaph file path is correct: at the `i`-th original's
/// epitaph site, resolved collision-free against everything taken before
/// it — an existing graveyard entry is never overwritten by a note.
pub open spec fn epitaph_file_ok(
    base: Seq<Seq<char>>,
    is_directory: bool,
    originals: Seq<PlacedCopy>,
    paths: Seq<Seq<char>>,
    i: int,
) -> bool {
    is_unique_path(
        base + paths.take(i),
        spec_epitaph_dir(originals[i], is_directory),
        spec_epitaph_name(originals[i], is_directory),
        paths[i],
    )
}

/// The `i`-th epitaph link mirrors the `i`-th item symlink: same view,
/// same directory, named after the placed item link, and pointing at the
/// epitaph counterpart of the item link's own target.
pub open spec fn epitaph_link_ok(
    base: Seq<Seq<char>>,
    is_directory: bool,
    symlinks: Seq<SymlinkPlanEntry>,
    links: Seq<SymlinkPlanEntry>,
    i: int,
) -> bool {
    let e = links[i];
    let s = symlinks[i];
    &&& e.view@ == s.view@
    &&& e.link_dir@ == s.link_dir@
    &&& e.target_path@ == spec_epitaph_target(s.target_path@, is_directory)
    &&& is_unique_path(
        base + link_paths(links.take(i)),
        e.link_dir@,
        spec_epitaph_filename(spec_file_name(s.link_path@)),
        e.link_path@,
    )
    &&& e.rel_target@ == spec_relative_path(e.link_dir@, e.target_path@)
}

pub open spec fn epitaph_matches(
    c: Config,
    name: Seq<char>,
    note: Seq<char>,
    created: Timestamp,
    modified: Timestamp,
    archived: Timestamp,
    host: Seq<char>,
    existing: Seq<Seq<char>>,
    is_directory: bool,
    originals: Seq<PlacedCopy>,
    symlinks: Seq<SymlinkPlanEntry>,
    ep: EpitaphPlan,
) -> bool {
    let base2 = existing + orig_paths(originals) + link_paths(symlinks);
    &&& ep.content@ == spec_epitaph_content(name, archived, created, modified, host, note)
    &&& ep.copy_paths@.len() == originals.len() - 1
    &&& forall|i: int|
        0 <= i < originals.len() ==> #[trigger] epitaph_file_ok(
            base2,
            is_directory,
            originals,
            epitaph_file_paths(ep),
            i,
        )
    &&& ep.links@.len() == symlinks.len()
    &&& forall|i: int|
        0 <= i < ep.links@.len() ==> #[trigger] epitaph_link_ok(
            base2 + epitaph_file_paths(ep),
            is_directory,
            symlinks,
            ep.links@,
            i,
        )
}

/// The whole plan is correct for the given inputs.
pub open spec fn plan_matches(
    c: Config,
    item: StaleItem,
    note: Option<Seq<char>>,
    created: Timestamp,
    archived: Timestamp,
    host: Seq<char>,
    existing: Seq<Seq<char>>,
    plan: ArchivePlan,
) -> bool {
    let slots = spec_original_slots(c.path_format);
    let lslots = spec_symlink_slots(c.path_format);
    let modified = item.last_modified;
    &&& plan.source_path@ == item.path@
    &&& plan.is_directory == item.is_directory
    &&& plan.originals@.len() == slots.len()
    &&& slots.len() >= 1
    &&& forall|i: int|
        0 <= i < slots.len() ==> #[trigger] original_entry_matches(
            c,
            item.name@,
            created,
            modified,
            archived,
            host,
            existing,
            plan.originals@,
            i,
        )
    &&& plan.symlinks@.len() == lslots.len()
    &&& forall|i: int|
        0 <= i < lslots.len() ==> #[trigger] symlink_entry_matches(
            c,
            item.name@,
            created,
            modified,
            archived,
            host,
            existing + orig_paths(plan.originals@),
            plan.symlinks@,
            i,
        )
    &&& match (note, plan.epitaph) {
        (Some(n), Some(ep)) => epitaph_matches(
            c,
            item.name@,
            n,
            created,
            modified,
            archived,
            host,
            existing,
            item.is_directory,
            plan.originals@,
            plan.symlinks@,
            ep,
        ),
        (None, None) => true,
        _ => false,
    }
}

/// The archiving engine over one configuration.
pub struct Archiver {
    pub config: Config,
}

impl Archiver {
    /// An archiver over the given configuration.
    pub fn new(config: Config) -> (r: Self)
        ensures
            r.config == config,
    {
        Archiver { config }
    }

    /// The views that must hold an original copy, in canonical order, or
    /// the configuration error when there is none: nothing would ever
    /// store real data.
    pub fn find_original_subdirs(&self) -> (r: Result<Vec<OriginalSlot>, ArchiveError>)
        ensures
            match r {
                Ok(v) => {
                    let slots = spec_original_slots(self.config.path_format);
                    &&& slots.len() >= 1
                    &&& v@.len() == slots.len()
                    &&& forall|i: int|
                        0 <= i < slots.len() ==> ((#[trigger] v@[i]).view@ == slots[i].0
                            && v@[i].kind == slots[i].1)
                },
                Err(e) => {
                    &&& e is Configuration
                    &&& spec_original_slots(self.config.path_format).len() == 0
                },
            },
    {
        let mut v: Vec<OriginalSlot> = Vec::new();
        let pf = &self.config.path_format;
        match &pf.created_subdir {
            SubdirConfig::Original { name } => {
                v.push(OriginalSlot { view: name.clone(), kind: TimeKind::Created });
            },
            _ => {},
        }
        match &pf.modified_subdir {
            SubdirConfig::Original { name } => {
                v.push(OriginalSlot { view: name.clone(), kind: TimeKind::Modified });
            },
            _ => {},
        }
        match &pf.archived_subdir {
            SubdirConfig::Original { name } => {
                v.push(OriginalSlot { view: name.clone(), kind: TimeKind::Archived });
            },
            _ => {},
        }
        if v.len() == 0 {
            return Err(ArchiveError::Configuration);
        }
        Ok(v)
    }

    /// The views that must hold symlinks, in canonical order.
    fn find_symlink_subdirs(&self) -> (r: Vec<SymlinkSlot>)
        ensures
            ({
                let lslots = spec_symlink_slots(self.config.path_format);
                &&& r@.len() == lslots.len()
                &&& forall|i: int|
                    0 <= i < lslots.len() ==> ((#[trigger] r@[i]).view@ == lslots[i].0
                        && r@[i].target@ == lslots[i].1 && r@[i].kind == lslots[i].2)
            }),
    {
        let mut v: Vec<SymlinkSlot> = Vec::new();
        let pf = &self.config.path_format;
        match &pf.created_subdir {
            SubdirConfig::Symlink { name, target } => {
                v.push(
                    SymlinkSlot {
                        view: name.clone(),
                        target: target.clone(),
                        kind: TimeKind::Created,
                    },
                );
            },
            _ => {},
        }
        match &pf.modified_subdir {
            SubdirConfig::Symlink { name, target } => {
                v.push(
                    SymlinkSlot {
                        view: name.clone(),
                        target: target.clone(),
                        kind: TimeKind::Modified,
                    },
                );
            },
            _ => {},
        }
        match &pf.archived_subdir {
            SubdirConfig::Symlink { name, target } => {
                v.push(
                    SymlinkSlot {
                        view: name.clone(),
                        target: target.clone(),
                        kind: TimeKind::Archived,
                    },
                );
            },
            _ => {},
        }
        v
    }

    /// The timestamp kind a symlink target is bound to: the kind of the
    /// view whose name equals the target, one hop only.
    fn target_kind(&self, target: &str, own: TimeKind) -> (r: TimeKind)
        ensures
            r == spec_target_kind(self.config.path_format, target@, own),
    {
        let pf = &self.config.path_format;
        if let Some(n) = pf.created_subdir.get_name() {
            if eq_str(n.as_str(), target) {
                return TimeKind::Created;
            }
        }
        if let Some(n) = pf.modified_subdir.get_name() {
            if eq_str(n.as_str(), target) {
                return TimeKind::Modified;
            }
        }
        if let Some(n) = pf.archived_subdir.get_name() {
            if eq_str(n.as_str(), target) {
                return TimeKind::Archived;
            }
        }
        own
    }

    /// The directory one view stores an item under, for one timestamp.
    fn dest_dir(&self, view: &str, t: &Timestamp, host: &str) -> (r: String)
        ensures
            r@ == spec_dest_dir(self.config, host@, view@, *t),
    {
        let base = join_path(self.config.graveyard.as_str(), view);
        let date_path = self.config.format_date_path(t, host);
        join_path(base.as_str(), date_path.as_str())
    }

    /// Plan one symlink: resolve the immediate target's path, pick a
    /// collision-free path for the link itself, and compute the relative
    /// target the link will store. Marks the link path as taken.
    fn plan_link(
        &self,
        view: &str,
        target: &str,
        own: TimeKind,
        created: &Timestamp,
        modified: &Timestamp,
        archived: &Timestamp,
        host: &str,
        filename: &str,
        taken: &mut Vec<String>,
    ) -> (e: SymlinkPlanEntry)
        requires
            old(taken)@.len() < u64::MAX,
        ensures
            e.view@ == view@,
            e.link_dir@ == spec_dest_dir(
                self.config,
                host@,
                view@,
                spec_time_of(own, *created, *modified, *archived),
            ),
            e.target_path@ == spec_join(
                spec_dest_dir(
                    self.config,
                    host@,
                    target@,
                    spec_time_of(
                        spec_target_kind(self.config.path_format, target@, own),
                        *created,
                        *modified,
                        *archived,
                    ),
                ),
                filename@,
            ),
            is_unique_path(views_of(old(taken)@), e.link_dir@, filename@, e.link_path@),
            e.rel_target@ == spec_relative_path(e.link_dir@, e.target_path@),
            views_of(final(taken)@) == views_of(old(taken)@).push(e.link_path@),
            final(taken)@.len() == old(taken)@.len() + 1,
    {
        let tk = self.target_kind(target, own);
        let tgt_t = time_of(tk, created, modified, archived);
        let own_t = time_of(own, created, modified, archived);
        let target_dir = self.dest_dir(target, &tgt_t, host);
        let target_path = join_path(target_dir.as_str(), filename);
        let link_dir = self.dest_dir(view, &own_t, host);
        let link_path = resolve_collision(taken, link_dir.as_str(), filename);
        let rel_target = relative_path(link_dir.as_str(), target_path.as_str());
        let ghost taken0 = taken@;
        taken.push(link_path.clone());
        proof {
            lemma_views_push(taken0, taken@.last());
        }
        SymlinkPlanEntry { view: view.to_owned(), link_dir, link_path, target_path, rel_target }
    }

    /// Compute the complete archive plan for one item: the collision-free
    /// destination of every original copy, the symlinks that complete the
    /// view graph, and — when a note is given — the epitaph and its
    /// mirrors. Fails exactly when no view stores originals, before
    /// anything would touch the filesystem.
    pub fn archive_item_with_note(
        &self,
        item: &StaleItem,
        note: Option<&str>,
        created_time: &Timestamp,
        archived_time: &Timestamp,
        hostname: &str,
        existing: &Vec<String>,
    ) -> (r: Result<ArchivePlan, ArchiveError>)
        requires
            existing@.len() + 16 < u64::MAX,
        ensures
            match r {
                Ok(plan) => plan_matches(
                    self.config,
                    *item,
                    match note {
                        Some(n) => Some(n@),
                        None => None,
                    },
                    *created_time,
                    *archived_time,
                    hostname@,
                    views_of(existing@),
                    plan,
                ),
                Err(e) => e is Configuration && spec_original_slots(
                    self.config.path_format,
                ).len() == 0,
            },
    {
        let ghost c = self.config;
        let ghost ex = views_of(existing@);
        let ghost oslots = spec_original_slots(self.config.path_format);
        let ghost lslots = spec_symlink_slots(self.config.path_format);
        let slots = match self.find_original_subdirs() {
            Ok(v) => v,
            Err(e) => {
                return Err(e);
            },
        };
        let modified_time = item.last_modified;
        let mut taken = clone_string_vec(existing);
        let mut originals: Vec<PlacedCopy> = Vec::new();
        proof {
            assert(oslots.len() <= 3);
            assert(lslots.len() <= 3);
            assert(orig_paths(originals@) =~~= Seq::<Seq<char>>::empty());
            assert(views_of(taken@) =~~= ex + orig_paths(originals@));
        }
        let mut idx: usize = 0;
        while idx < slots.len()
            invariant
                idx <= slots@.len(),
                c == self.config,
                ex == views_of(existing@),
                oslots == spec_original_slots(c.path_format),
                existing@.len() + 16 < u64::MAX,
                slots@.len() == oslots.len() && oslots.len() <= 3,
                forall|i: int|
                    0 <= i < slots@.len() ==> ((#[trigger] slots@[i]).view@ == oslots[i].0
                        && slots@[i].kind == oslots[i].1),
                originals@.len() == idx,
                taken@.len() == existing@.len() + idx,
                views_of(taken@) == ex + orig_paths(originals@),
                modified_time == item.last_modified,
                forall|i: int|
                    0 <= i < idx ==> #[trigger] original_entry_matches(
                        c,
                        item.name@,
                        *created_time,
                        item.last_modified,
                        *archived_time,
                        hostname@,
                        ex,
                        originals@,
                        i,
                    ),
            decreases slots@.len() - idx,
        {
            let kind = slots[idx].kind;
            let t = time_of(kind, created_time, &modified_time, archived_time);
            let dir = self.dest_dir(slots[idx].view.as_str(), &t, hostname);
            let path = resolve_collision(&taken, dir.as_str(), item.name.as_str());
            let ghost taken0 = taken@;
            let ghost originals0 = originals@;
            taken.push(path.clone());
            originals.push(
                PlacedCopy { view: slots[idx].view.clone(), kind, dir: dir.clone(), path },
            );
            proof {
                lemma_views_push(taken0, taken@.last());
                assert(orig_paths(originals@) =~~= orig_paths(originals0).push(
                    originals@.last().path@,
                ));
                assert(views_of(taken@) =~~= ex + orig_paths(originals@));
                assert(originals@.take(idx as int) =~~= originals0);
                assert(original_entry_matches(
                    c,
                    item.name@,
                    *created_time,
                    item.last_modified,
                    *archived_time,
                    hostname@,
                    ex,
                    originals@,
                    idx as int,
                ));
                assert forall|i: int| 0 <= i < idx implies #[trigger] original_entry_matches(
                    c,
                    item.name@,
                    *created_time,
                    item.last_modified,
                    *archived_time,
                    hostname@,
                    ex,
                    originals@,
                    i,
                ) by {
                    assert(original_entry_matches(
                        c,
                        item.name@,
                        *created_time,
                        item.last_modified,
                        *archived_time,
                        hostname@,
                        ex,
                        originals0,
                        i,
                    ));
                    assert(originals@[i] == originals0[i]);
                    assert(originals@.take(i) =~~= originals0.take(i));
                }
            }
            idx = idx + 1;
        }
        let ghost base1 = ex + orig_paths(originals@);
        let sym_slots = self.find_symlink_subdirs();
        let mut symlinks: Vec<SymlinkPlanEntry> = Vec::new();
        proof {
            assert(link_paths(symlinks@) =~~= Seq::<Seq<char>>::empty());
            assert(views_of(taken@) =~~= base1 + link_paths(symlinks@));
        }
        let mut i2: usize = 0;
        while i2 < sym_slots.len()
            invariant
                i2 <= sym_slots@.len(),
                c == self.config,
                ex == views_of(existing@),
                lslots == spec_symlink_slots(c.path_format),
                existing@.len() + 16 < u64::MAX,
                sym_slots@.len() == lslots.len() && lslots.len() <= 3,
                originals@.len() <= 3,
                forall|i: int|
                    0 <= i < sym_slots@.len() ==> ((#[trigger] sym_slots@[i]).view@ == lslots[i].0
                        && sym_slots@[i].target@ == lslots[i].1 && sym_slots@[i].kind
                        == lslots[i].2),
                symlinks@.len() == i2,
                taken@.len() == existing@.len() + originals@.len() + i2,
                base1 == ex + orig_paths(originals@),
                views_of(taken@) == base1 + link_paths(symlinks@),
                modified_time == item.last_modified,
                forall|i: int|
                    0 <= i < i2 ==> #[trigger] symlink_entry_matches(
                        c,
                        item.name@,
                        *created_time,
                        item.last_modified,
                        *archived_time,
                        hostname@,
                        base1,
                        symlinks@,
                        i,
                    ),
            decreases sym_slots@.len() - i2,
        {
            let ghost taken0 = taken@;
            let ghost symlinks0 = symlinks@;
            let e = self.plan_link(
                sym_slots[i2].view.as_str(),
                sym_slots[i2].target.as_str(),
                sym_slots[i2].kind,
                created_time,
                &modified_time,
                archived_time,
                hostname,
                item.name.as_str(),
                &mut taken,
            );
            symlinks.push(e);
            proof {
                assert(link_paths(symlinks@) =~~= link_paths(symlinks0).push(
                    symlinks@.last().link_path@,
                ));
                assert(views_of(taken@) =~~= base1 + link_paths(symlinks@));
                assert(symlinks@.take(i2 as int) =~~= symlinks0);
                assert(symlink_entry_matches(
                    c,
                    item.name@,
                    *created_time,
                    item.last_modified,
                    *archived_time,
                    hostname@,
                    base1,
                    symlinks@,
                    i2 as int,
                ));
                assert forall|i: int| 0 <= i < i2 implies #[trigger] symlink_entry_matches(
                    c,
                    item.name@,
                    *created_time,
                    item.last_modified,
                    *archived_time,
                    hostname@,
                    base1,
                    symlinks@,
                    i,
                ) by {
                    assert(symlink_entry_matches(
                        c,
                        item.name@,
                        *created_time,
                        item.last_modified,
                        *archived_time,
                        hostname@,
                        base1,
                        symlinks0,
                        i,
                    ));
                    assert(symlinks@[i] == symlinks0[i]);
                    assert(symlinks@.take(i) =~~= symlinks0.take(i));
                }
            }
            i2 = i2 + 1;
        }
        let ghost base2 = base1 + link_paths(symlinks@);
        let epitaph = match note {
            Some(note_text) => {
                let content = render_epitaph(
                    item.name.as_str(),
                    archived_time,
                    created_time,
                    &modified_time,
                    hostname,
                    note_text,
                );
                let mut file_paths: Vec<String> = Vec::new();
                proof {
                    assert(views_of(file_paths@) =~~= Seq::<Seq<char>>::empty());
                    assert(views_of(taken@) =~~= base2 + views_of(file_paths@));
                }
                let mut i3: usize = 0;
                while i3 < originals.len()
                    invariant
                        i3 <= originals@.len(),
                        c == self.config,
                        ex == views_of(existing@),
                        existing@.len() + 16 < u64::MAX,
                        originals@.len() <= 3,
                        symlinks@.len() <= 3,
                        file_paths@.len() == i3,
                        taken@.len() == existing@.len() + originals@.len() + symlinks@.len() + i3,
                        base2 == ex + orig_paths(originals@) + link_paths(symlinks@),
                        views_of(taken@) == base2 + views_of(file_paths@),
                        forall|j: int|
                            0 <= j < i3 ==> #[trigger] epitaph_file_ok(
                                base2,
                                item.is_directory,
                                originals@,
                                views_of(file_paths@),
                                j,
                            ),
                    decreases originals@.len() - i3,
                {
                    let site_dir: String;
                    let site_name: String;
                    if item.is_directory {
                        site_dir = originals[i3].path.clone();
                        site_name = String::from_str(".epitaph");
                    } else {
                        site_dir = originals[i3].dir.clone();
                        let placed = file_name_of(originals[i3].path.as_str());
                        site_name = epitaph_filename(placed.as_str());
                    }
                    let p = resolve_collision(&taken, site_dir.as_str(), site_name.as_str());
                    let ghost taken0 = taken@;
                    let ghost files0 = file_paths@;
                    taken.push(p.clone());
                    file_paths.push(p);
                    proof {
                        lemma_views_push(taken0, taken@.last());
                        lemma_views_push(files0, file_paths@.last());
                        assert(views_of(taken@) =~~= base2 + views_of(file_paths@));
                        assert(views_of(file_paths@).take(i3 as int) =~~= views_of(files0));
                        assert(epitaph_file_ok(
                            base2,
                            item.is_directory,
                            originals@,
                            views_of(file_paths@),
                            i3 as int,
                        ));
                        assert forall|j: int| 0 <= j < i3 implies #[trigger] epitaph_file_ok(
                            base2,
                            item.is_directory,
                            originals@,
                            views_of(file_paths@),
                            j,
                        ) by {
                            assert(epitaph_file_ok(
                                base2,
                                item.is_directory,
                                originals@,
                                views_of(files0),
                                j,
                            ));
                            assert(views_of(file_paths@)[j] == views_of(files0)[j]);
                            assert(views_of(file_paths@).take(j) =~~= views_of(files0).take(j));
                        }
                    }
                    i3 = i3 + 1;
                }
                let ghost fpaths = views_of(file_paths@);
                let ghost base3 = base2 + fpaths;
                let mut elinks: Vec<SymlinkPlanEntry> = Vec::new();
                proof {
                    assert(link_paths(elinks@) =~~= Seq::<Seq<char>>::empty());
                    assert(views_of(taken@) =~~= base3 + link_paths(elinks@));
                }
                let mut i4: usize = 0;
                while i4 < symlinks.len()
                    invariant
                        i4 <= symlinks@.len(),
                        existing@.len() + 16 < u64::MAX,
                        originals@.len() <= 3,
                        symlinks@.len() <= 3,
                        fpaths.len() == originals@.len(),
                        elinks@.len() == i4,
                        taken@.len() == existing@.len() + originals@.len() + symlinks@.len()
                            + fpaths.len() + i4,
                        views_of(taken@) == base3 + link_paths(elinks@),
                        forall|j: int|
                            0 <= j < i4 ==> #[trigger] epitaph_link_ok(
                                base3,
                                item.is_directory,
                                symlinks@,
                                elinks@,
                                j,
                            ),
                    decreases symlinks@.len() - i4,
                {
                    let placed = file_name_of(symlinks[i4].link_path.as_str());
                    let lname = epitaph_filename(placed.as_str());
                    let target_path = if item.is_directory {
                        join_path(symlinks[i4].target_path.as_str(), ".epitaph")
                    } else {
                        epitaph_filename(symlinks[i4].target_path.as_str())
                    };
                    let link_path = resolve_collision(
                        &taken,
                        symlinks[i4].link_dir.as_str(),
                        lname.as_str(),
                    );
                    let rel_target = relative_path(
                        symlinks[i4].link_dir.as_str(),
                        target_path.as_str(),
                    );
                    let ghost taken0 = taken@;
                    let ghost elinks0 = elinks@;
                    taken.push(link_path.clone());
                    elinks.push(
                        SymlinkPlanEntry {
                            view: symlinks[i4].view.clone(),
                            link_dir: symlinks[i4].link_dir.clone(),
                            link_path,
                            target_path,
                            rel_target,
                        },
                    );
                    proof {
                        lemma_views_push(taken0, taken@.last());
                        assert(link_paths(elinks@) =~~= link_paths(elinks0).push(
                            elinks@.last().link_path@,
                        ));
                        assert(views_of(taken@) =~~= base3 + link_paths(elinks@));
                        assert(elinks@.take(i4 as int) =~~= elinks0);
                        assert(epitaph_link_ok(
                            base3,
                            item.is_directory,
                            symlinks@,
                            elinks@,
                            i4 as int,
                        ));
                        assert forall|j: int| 0 <= j < i4 implies #[trigger] epitaph_link_ok(
                            base3,
                            item.is_directory,
                            symlinks@,
                            elinks@,
                            j,
                        ) by {
                            assert(epitaph_link_ok(
                                base3,
                                item.is_directory,
                                symlinks@,
                                elinks0,
                                j,
                            ));
                            assert(elinks@[j] == elinks0[j]);
                            assert(elinks@.take(j) =~~= elinks0.take(j));
                        }
                    }
                    i4 = i4 + 1;
                }
                let ghost files_before = file_paths@;
                let primary_path = file_paths.remove(0);
                let copy_paths = file_paths;
                let ep = EpitaphPlan { content, primary_path, copy_paths, links: elinks };
                proof {
                    assert(views_of(ep.copy_paths@) =~~= fpaths.skip(1));
                    assert(epitaph_file_paths(ep) =~~= fpaths);
                    assert forall|j: int|
                        0 <= j < originals@.len() implies #[trigger] epitaph_file_ok(
                        base2,
                        item.is_directory,
                        originals@,
                        epitaph_file_paths(ep),
                        j,
                    ) by {
                        assert(epitaph_file_ok(base2, item.is_directory, originals@, fpaths, j));
                    }
                    assert(base2 + epitaph_file_paths(ep) =~~= base3);
                    assert forall|j: int|
                        0 <= j < ep.links@.len() implies #[trigger] epitaph_link_ok(
                        base2 + epitaph_file_paths(ep),
                        item.is_directory,
                        symlinks@,
                        ep.links@,
                        j,
                    ) by {
                        assert(epitaph_link_ok(base3, item.is_directory, symlinks@, ep.links@, j));
                    }
                }
                Some(ep)
            },
            None => None,
        };
        let plan = ArchivePlan {
            source_path: item.path.clone(),
            is_directory: item.is_directory,
            originals,
            symlinks,
            epitaph,
        };
        proof {
            assert(plan_matches(
                self.config,
                *item,
                match note {
                    Some(n) => Some(n@),
                    None => None,
                },
                *created_time,
                *archived_time,
                hostname@,
                ex,
                plan,
            ));
        }
        Ok(plan)
    }
}

/// View-graph integrity: when every symlink view names an original view,
/// view names are pairwise distinct, and every original landed at its
/// unsuffixed path, then every planned symlink's target is exactly one of
/// the planned original copies' paths — no planned link dangles.
/// `x` is the path of one of the placed original copies.
pub open spec fn targets_an_original(originals: Seq<PlacedCopy>, x: Seq<char>) -> bool {
    exists|j: int| 0 <= j < originals.len() && (#[trigger] originals[j]).path@ == x
}

pub proof fn lemma_view_graph_integrity(
    c: Config,
    item: StaleItem,
    note: Option<Seq<char>>,
    created: Timestamp,
    archived: Timestamp,
    host: Seq<char>,
    existing: Seq<Seq<char>>,
    plan: ArchivePlan,
)
    requires
        plan_matches(c, item, note, created, archived, host, existing, plan),
        forall|i: int|
            0 <= i < spec_symlink_slots(c.path_format).len() ==> exists|j: int|
                0 <= j < spec_original_slots(c.path_format).len() && spec_original_slots(
                    c.path_format,
                )[j].0 == #[trigger] spec_symlink_slots(c.path_format)[i].1,
        spec_subdir_name(c.path_format.created_subdir) is Some && spec_subdir_name(
            c.path_format.modified_subdir,
        ) is Some ==> spec_subdir_name(c.path_format.created_subdir) != spec_subdir_name(
            c.path_format.modified_subdir,
        ),
        spec_subdir_name(c.path_format.created_subdir) is Some && spec_subdir_name(
            c.path_format.archived_subdir,
        ) is Some ==> spec_subdir_name(c.path_format.created_subdir) != spec_subdir_name(
            c.path_format.archived_subdir,
        ),
        spec_subdir_name(c.path_format.modified_subdir) is Some && spec_subdir_name(
            c.path_format.archived_subdir,
        ) is Some ==> spec_subdir_name(c.path_format.modified_subdir) != spec_subdir_name(
            c.path_format.archived_subdir,
        ),
        forall|i: int|
            0 <= i < plan.originals@.len() ==> #[trigger] plan.originals@[i].path@ == spec_join(
                plan.originals@[i].dir@,
                item.name@,
            ),
    ensures
        forall|i: int|
            0 <= i < plan.symlinks@.len() ==> targets_an_original(
                plan.originals@,
                #[trigger] plan.symlinks@[i].target_path@,
            ),
{
    let pf = c.path_format;
    let oslots = spec_original_slots(pf);
    let lslots = spec_symlink_slots(pf);
    let modified = item.last_modified;
    assert forall|i: int| 0 <= i < plan.symlinks@.len() implies targets_an_original(
        plan.originals@,
        #[trigger] plan.symlinks@[i].target_path@,
    ) by {
        assert(symlink_entry_matches(
            c,
            item.name@,
            created,
            modified,
            archived,
            host,
            existing + orig_paths(plan.originals@),
            plan.symlinks@,
            i,
        ));
        let target = lslots[i].1;
        assert(target == spec_symlink_slots(c.path_format)[i].1);
        assert(exists|j: int|
            0 <= j < spec_original_slots(c.path_format).len() && spec_original_slots(
                c.path_format,
            )[j].0 == spec_symlink_slots(c.path_format)[i].1);
        let j = choose|j: int| 0 <= j < oslots.len() && oslots[j].0 == target;
        assert(original_entry_matches(
            c,
            item.name@,
            created,
            modified,
            archived,
            host,
            existing,
            plan.originals@,
            j,
        ));
        assert(spec_target_kind(pf, target, lslots[i].2) == oslots[j].1);
        assert(plan.originals@[j].path@ == plan.symlinks@[i].target_path@);
    }
}

/// Nothing planned for the epitaph or the view graph is placed on top of
/// a planned original copy: every link path and every epitaph file path
/// was resolved against a taken set that already held every original
/// path. A failure while creating links or writing notes therefore cannot
/// have cost any original data.
pub proof fn lemma_links_spare_originals(
    c: Config,
    item: StaleItem,
    note: Option<Seq<char>>,
    created: Timestamp,
    archived: Timestamp,
    host: Seq<char>,
    existing: Seq<Seq<char>>,
    plan: ArchivePlan,
)
    requires
        plan_matches(c, item, note, created, archived, host, existing, plan),
    ensures
        forall|i: int, j: int|
            0 <= i < plan.symlinks@.len() && 0 <= j < plan.originals@.len()
                ==> #[trigger] plan.symlinks@[i].link_path@ != #[trigger] plan.originals@[j].path@,
        plan.epitaph matches Some(ep) ==> forall|i: int, j: int|
            0 <= i < ep.links@.len() && 0 <= j < plan.originals@.len() ==> #[trigger] ep.links@[i].link_path@
                != #[trigger] plan.originals@[j].path@,
        plan.epitaph matches Some(ep) ==> forall|i: int, j: int|
            0 <= i < epitaph_file_paths(ep).len() && 0 <= j < plan.originals@.len()
                ==> #[trigger] epitaph_file_paths(ep)[i] != #[trigger] plan.originals@[j].path@,
{
    let modified = item.last_modified;
    let base1 = existing + orig_paths(plan.originals@);
    assert forall|i: int, j: int|
        0 <= i < plan.symlinks@.len() && 0 <= j < plan.originals@.len() implies #[trigger] plan.symlinks@[i].link_path@
        != #[trigger] plan.originals@[j].path@ by {
        assert(symlink_entry_matches(
            c,
            item.name@,
            created,
            modified,
            archived,
            host,
            base1,
            plan.symlinks@,
            i,
        ));
        let taken = base1 + link_paths(plan.symlinks@.take(i));
        assert(!taken.contains(plan.symlinks@[i].link_path@)) by {
            unique_path_is_fresh(
                taken,
                plan.symlinks@[i].link_dir@,
                item.name@,
                plan.symlinks@[i].link_path@,
            );
        }
        assert(taken[existing.len() + j] == plan.originals@[j].path@);
    }
    if plan.epitaph is Some {
        let ep = plan.epitaph->Some_0;
        let base2 = existing + orig_paths(plan.originals@) + link_paths(plan.symlinks@);
        let base3 = base2 + epitaph_file_paths(ep);
        assert forall|i: int, j: int|
            0 <= i < epitaph_file_paths(ep).len() && 0 <= j < plan.originals@.len()
            implies #[trigger] epitaph_file_paths(ep)[i]
            != #[trigger] plan.originals@[j].path@ by {
            assert(epitaph_file_ok(
                base2,
                item.is_directory,
                plan.originals@,
                epitaph_file_paths(ep),
                i,
            ));
            let taken = base2 + epitaph_file_paths(ep).take(i);
            assert(!taken.contains(epitaph_file_paths(ep)[i])) by {
                unique_path_is_fresh(
                    taken,
                    spec_epitaph_dir(plan.originals@[i], item.is_directory),
                    spec_epitaph_name(plan.originals@[i], item.is_directory),
                    epitaph_file_paths(ep)[i],
                );
            }
            assert(taken[existing.len() + j] == plan.originals@[j].path@);
        }
        assert forall|i: int, j: int|
            0 <= i < ep.links@.len() && 0 <= j < plan.originals@.len() implies #[trigger] ep.links@[i].link_path@
            != #[trigger] plan.originals@[j].path@ by {
            assert(epitaph_link_ok(base3, item.is_directory, plan.symlinks@, ep.links@, i));
            let taken = base3 + link_paths(ep.links@.take(i));
            assert(!taken.contains(ep.links@[i].link_path@)) by {
                unique_path_is_fresh(
                    taken,
                    ep.links@[i].link_dir@,
                    spec_epitaph_filename(spec_file_name(plan.symlinks@[i].link_path@)),
                    ep.links@[i].link_path@,
                );
            }
            assert(taken[existing.len() + j] == plan.originals@[j].path@);
        }
    }
}

/// A collision-free path is never one of the taken ones.
proof fn unique_path_is_fresh(taken: Seq<Seq<char>>, dir: Seq<char>, name: Seq<char>, r: Seq<char>)
    requires
        is_unique_path(taken, dir, name, r),
    ensures
        !taken.contains(r),
{
    if taken.contains(spec_join(dir, name)) {
        let k = choose|k: nat| crate::paths::picks_suffixed(taken, dir, name, k, r);
        assert(crate::paths::picks_suffixed(taken, dir, name, k, r));
    }
}

/// The `i`-th epitaph link mirrors the `i`-th item symlink: same view,
/// same directory, and its target is the epitaph counterpart of the item
/// link's own target — `.epitaph` inside it for a directory item, beside
/// it for a file item.
pub open spec fn epitaph_link_mirrors(
    is_directory: bool,
    links: Seq<SymlinkPlanEntry>,
    symlinks: Seq<SymlinkPlanEntry>,
    i: int,
) -> bool {
    &&& links[i].view@ == symlinks[i].view@
    &&& links[i].link_dir@ == symlinks[i].link_dir@
    &&& links[i].target_path@ == spec_epitaph_target(symlinks[i].target_path@, is_directory)
}

/// Epitaph mirroring: the epitaph links follow the item's symlink graph
/// exactly — same views, same link directories, and each target is the
/// epitaph counterpart of the corresponding item target. The note's bytes
/// appear once in the plan: the canonical write at the first original's
/// epitaph site, which every other original-view site copies verbatim.
pub proof fn lemma_epitaph_mirrors_links(
    c: Config,
    item: StaleItem,
    note: Seq<char>,
    created: Timestamp,
    archived: Timestamp,
    host: Seq<char>,
    existing: Seq<Seq<char>>,
    plan: ArchivePlan,
)
    requires
        plan_matches(c, item, Some(note), created, archived, host, existing, plan),
    ensures
        plan.epitaph is Some,
        ({
            let ep = plan.epitaph->Some_0;
            &&& ep.content@ == spec_epitaph_content(
                item.name@,
                archived,
                created,
                item.last_modified,
                host,
                note,
            )
            &&& ep.links@.len() == plan.symlinks@.len()
            &&& forall|i: int|
                0 <= i < ep.links@.len() ==> #[trigger] epitaph_link_mirrors(
                    item.is_directory,
                    ep.links@,
                    plan.symlinks@,
                    i,
                )
        }),
{
    let ep = plan.epitaph->Some_0;
    let base2 = existing + orig_paths(plan.originals@) + link_paths(plan.symlinks@);
    let base3 = base2 + epitaph_file_paths(ep);
    assert forall|i: int| 0 <= i < ep.links@.len() implies #[trigger] epitaph_link_mirrors(
        item.is_directory,
        ep.links@,
        plan.symlinks@,
        i,
    ) by {
        assert(epitaph_link_ok(base3, item.is_directory, plan.symlinks@, ep.links@, i));
    }
}

/// Every path the plan will create, in execution order: the original
/// copies, then the item symlinks, then the epitaph files and the epitaph
/// links.
pub open spec fn plan_paths(plan: ArchivePlan) -> Seq<Seq<char>> {
    orig_paths(plan.originals@) + link_paths(plan.symlinks@) + (match plan.epitaph {
        Some(ep) => epitaph_file_paths(ep) + link_paths(ep.links@),
        None => Seq::empty(),
    })
}

/// Archiving never overwrites: no path the plan creates — original copy,
/// view symlink, epitaph file or epitaph link — is an existing graveyard
/// path, and no two planned paths coincide. Every allocation was resolved
/// against everything taken before it, so every write lands on a fresh
/// path; this is also what lets an interrupted archive be re-run safely.
#[verifier::rlimit(80)]
pub proof fn lemma_plan_never_overwrites(
    c: Config,
    item: StaleItem,
    note: Option<Seq<char>>,
    created: Timestamp,
    archived: Timestamp,
    host: Seq<char>,
    existing: Seq<Seq<char>>,
    plan: ArchivePlan,
)
    requires
        plan_matches(c, item, note, created, archived, host, existing, plan),
    ensures
        forall|k: int|
            0 <= k < plan_paths(plan).len() ==> !existing.contains(#[trigger] plan_paths(plan)[k]),
        forall|k1: int, k2: int|
            0 <= k1 < k2 < plan_paths(plan).len() ==> plan_paths(plan)[k1] != plan_paths(
                plan,
            )[k2],
{
    let all = plan_paths(plan);
    let modified = item.last_modified;
    let n0 = plan.originals@.len() as int;
    let n1 = plan.symlinks@.len() as int;
    assert forall|k: int| 0 <= k < all.len() implies !(existing + all.take(k)).contains(
        #[trigger] all[k],
    ) by {
        if k < n0 {
            assert(original_entry_matches(
                c,
                item.name@,
                created,
                modified,
                archived,
                host,
                existing,
                plan.originals@,
                k,
            ));
            assert(all[k] == orig_paths(plan.originals@)[k]);
            assert(existing + all.take(k) =~~= existing + orig_paths(plan.originals@.take(k)));
            unique_path_is_fresh(
                existing + orig_paths(plan.originals@.take(k)),
                plan.originals@[k].dir@,
                item.name@,
                plan.originals@[k].path@,
            );
        } else if k < n0 + n1 {
            let i = k - n0;
            assert(symlink_entry_matches(
                c,
                item.name@,
                created,
                modified,
                archived,
                host,
                existing + orig_paths(plan.originals@),
                plan.symlinks@,
                i,
            ));
            assert(all[k] == link_paths(plan.symlinks@)[i]);
            assert(existing + all.take(k) =~~= (existing + orig_paths(plan.originals@))
                + link_paths(plan.symlinks@.take(i)));
            unique_path_is_fresh(
                (existing + orig_paths(plan.originals@)) + link_paths(plan.symlinks@.take(i)),
                plan.symlinks@[i].link_dir@,
                item.name@,
                plan.symlinks@[i].link_path@,
            );
        } else {
            let ep = plan.epitaph->Some_0;
            let base2 = existing + orig_paths(plan.originals@) + link_paths(plan.symlinks@);
            let nf = epitaph_file_paths(ep).len() as int;
            assert(nf == n0);
            if k < n0 + n1 + nf {
                let i = k - n0 - n1;
                assert(epitaph_file_ok(
                    base2,
                    item.is_directory,
                    plan.originals@,
                    epitaph_file_paths(ep),
                    i,
                ));
                assert(all[k] == epitaph_file_paths(ep)[i]);
                assert(existing + all.take(k) =~~= base2 + epitaph_file_paths(ep).take(i));
                unique_path_is_fresh(
                    base2 + epitaph_file_paths(ep).take(i),
                    spec_epitaph_dir(plan.originals@[i], item.is_directory),
                    spec_epitaph_name(plan.originals@[i], item.is_directory),
                    epitaph_file_paths(ep)[i],
                );
            } else {
                let i = k - n0 - n1 - nf;
                let base3 = base2 + epitaph_file_paths(ep);
                assert(epitaph_link_ok(base3, item.is_directory, plan.symlinks@, ep.links@, i));
                assert(all[k] == link_paths(ep.links@)[i]);
                assert(existing + all.take(k) =~~= base3 + link_paths(ep.links@.take(i)));
                unique_path_is_fresh(
                    base3 + link_paths(ep.links@.take(i)),
                    ep.links@[i].link_dir@,
                    spec_epitaph_filename(spec_file_name(plan.symlinks@[i].link_path@)),
                    ep.links@[i].link_path@,
                );
            }
        }
    }
    assert forall|k: int| 0 <= k < all.len() implies !existing.contains(#[trigger] all[k]) by {
        if existing.contains(all[k]) {
            let m = choose|m: int| 0 <= m < existing.len() && existing[m] == all[k];
            assert((existing + all.take(k))[m] == all[k]);
            assert((existing + all.take(k)).contains(all[k]));
        }
    }
    assert forall|k1: int, k2: int| 0 <= k1 < k2 < all.len() implies #[trigger] all[k1]
        != #[trigger] all[k2] by {
        if all[k1] == all[k2] {
            assert((existing + all.take(k2))[existing.len() + k1] == all[k1]);
            assert((existing + all.take(k2)).contains(all[k2]));
        }
    }
}

/// Copy a vector of strings, keeping the same character sequences.
fn clone_string_vec(v: &Vec<String>) -> (r: Vec<String>)
    ensures
        r@.len() == v@.len(),
        views_of(r@) == views_of(v@),
{
    let mut out: Vec<String> = Vec::new();
    let mut i: usize = 0;
    while i < v.len()
        invariant
            i <= v@.len(),
            out@.len() == i,
            forall|j: int| 0 <= j < i ==> #[trigger] out@[j]@ == v@[j]@,
        decreases v@.len() - i,
    {
        out.push(v[i].clone());
        i = i + 1;
    }
    proof {
        assert(views_of(out@) =~~= views_of(v@));
    }
    out
}

} // verus!
