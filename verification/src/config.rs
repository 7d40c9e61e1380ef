//! The resolved configuration the archiving core consumes: inbox and
//! graveyard roots, the age threshold, and how each canonical view
//! (created / modified / archived) is materialized.

use vstd::prelude::*;
use vstd::string::*;

use crate::digits::{push_dec_u64, spec_dec, spec_pad2};
use crate::text::{replace_all, spec_replace};
use crate::timestamp::Timestamp;

verus! {

/// How one view (subdirectory) of the graveyard is materialized: a real
/// copy, a symlink into another view, or nothing.
#[derive(Clone, Debug)]
pub enum SubdirConfig {
    Original { name: String },
    Symlink { name: String, target: String },
    Nothing,
}

/// Where scan results are announced.
#[derive(Clone, Copy, PartialEq, Eq, Structural, Debug)]
pub enum NotificationType {
    Cli,
    Desktop,
}

/// The three canonical views and the date-partition template.
#[derive(Clone, Debug)]
pub struct PathFormatConfig {
    pub created_subdir: SubdirConfig,
    pub modified_subdir: SubdirConfig,
    pub archived_subdir: SubdirConfig,
    pub date_format: String,
}

/// The resolved configuration. Loading and persisting it is the
/// surrounding binary's concern; the core only consumes the values.
#[derive(Clone, Debug)]
pub struct Config {
    pub inbox: String,
    pub graveyard: String,
    pub age_threshold_days: u32,
    pub notification: NotificationType,
    pub path_format: PathFormatConfig,
    pub pager: String,
}

/// The view's name, when it is materialized at all.
pub open spec fn spec_subdir_name(s: SubdirConfig) -> Option<Seq<char>> {
    match s {
        SubdirConfig::Original { name } => Some(name@),
        SubdirConfig::Symlink { name, .. } => Some(name@),
        SubdirConfig::Nothing => None,
    }
}

/// The view this one's symlinks point at, for symlink views.
pub open spec fn spec_subdir_target(s: SubdirConfig) -> Option<Seq<char>> {
    match s {
        SubdirConfig::Symlink { target, .. } => Some(target@),
        _ => None,
    }
}

/// The one-line rendering of a view configuration.
pub open spec fn spec_subdir_display(s: SubdirConfig) -> Seq<char> {
    match s {
        SubdirConfig::Original { name } => name@ + " (original)"@,
        SubdirConfig::Symlink { name, target } => name@ + " (symlink -> "@ + target@ + ")"@,
        SubdirConfig::Nothing => "disabled"@,
    }
}

impl SubdirConfig {
    /// Render this view configuration for humans.
    pub fn display(&self) -> (r: String)
        ensures
            r@ == spec_subdir_display(*self),
    {
        match self {
            SubdirConfig::Original { name } => {
                let mut out = name.clone();
                out.append(" (original)");
                proof {
                    assert(out@ =~= spec_subdir_display(*self));
                }
                out
            },
            SubdirConfig::Symlink { name, target } => {
                let mut out = name.clone();
                out.append(" (symlink -> ");
                out.append(target.as_str());
                out.append(")");
                proof {
                    assert(out@ =~= spec_subdir_display(*self));
                }
                out
            },
            SubdirConfig::Nothing => {
                let mut out = String::new();
                out.append("disabled");
                proof {
                    assert(out@ =~= spec_subdir_display(*self));
                }
                out
            },
        }
    }

    /// Whether this view is materialized at all.
    pub fn is_enabled(&self) -> (r: bool)
        ensures
            r == !(*self is Nothing),
    {
        !matches!(self, SubdirConfig::Nothing)
    }

    /// The view's directory name, when enabled.
    pub fn get_name(&self) -> (r: Option<&String>)
        ensures
            match r {
                Some(n) => spec_subdir_name(*self) == Some(n@),
                None => spec_subdir_name(*self) is None,
            },
    {
        match self {
            SubdirConfig::Original { name } => Some(name),
            SubdirConfig::Symlink { name, .. } => Some(name),
            SubdirConfig::Nothing => None,
        }
    }

    /// Whether this view stores a real copy.
    pub fn is_original(&self) -> (r: bool)
        ensures
            r == (*self is Original),
    {
        matches!(self, SubdirConfig::Original { .. })
    }

    /// The targeted view's name, for symlink views.
    pub fn get_target(&self) -> (r: Option<&String>)
        ensures
            match r {
                Some(t) => spec_subdir_target(*self) == Some(t@),
                None => spec_subdir_target(*self) is None,
            },
    {
        match self {
            SubdirConfig::Symlink { target, .. } => Some(target),
            _ => None,
        }
    }
}

impl SubdirConfig {
    /// An equal copy of this view configuration.
    pub fn duplicate(&self) -> (r: SubdirConfig)
        ensures
            r == *self,
    {
        match self {
            SubdirConfig::Original { name } => SubdirConfig::Original { name: name.clone() },
            SubdirConfig::Symlink { name, target } => SubdirConfig::Symlink {
                name: name.clone(),
                target: target.clone(),
            },
            SubdirConfig::Nothing => SubdirConfig::Nothing,
        }
    }
}

impl PathFormatConfig {
    /// An equal copy of the view layout.
    pub fn duplicate(&self) -> (r: PathFormatConfig)
        ensures
            r == *self,
    {
        PathFormatConfig {
            created_subdir: self.created_subdir.duplicate(),
            modified_subdir: self.modified_subdir.duplicate(),
            archived_subdir: self.archived_subdir.duplicate(),
            date_format: self.date_format.clone(),
        }
    }
}

impl Config {
    /// An equal copy of the configuration.
    pub fn duplicate(&self) -> (r: Config)
        ensures
            r == *self,
    {
        Config {
            inbox: self.inbox.clone(),
            graveyard: self.graveyard.clone(),
            age_threshold_days: self.age_threshold_days,
            notification: self.notification,
            path_format: self.path_format.duplicate(),
            pager: self.pager.clone(),
        }
    }
}

/// Relies on `gethostname::gethostname`: the machine's node name, an
/// environment-dependent value of which nothing further is assumed.
#[verifier::external_body]
fn machine_hostname() -> String {
    gethostname::gethostname().to_string_lossy().into_owned()
}

/// What `char::is_alphanumeric` returns; a fixed function of the character
/// given by the Unicode tables.
pub uninterp spec fn is_alnum(c: char) -> bool;

/// Relies on `char::is_alphanumeric`: which characters count as Unicode
/// letters or numbers. Path separators and the ASCII whitespace
/// characters fall outside every letter and number category, so they are
/// never alphanumeric.
#[verifier::external_body]
fn char_is_alphanumeric(c: char) -> (r: bool)
    ensures
        r == is_alnum(c),
        c == '/' ==> !r,
        c == '\\' ==> !r,
        c == ' ' ==> !r,
        c == '\t' ==> !r,
        c == '\n' ==> !r,
        c == '\r' ==> !r,
{
    c.is_alphanumeric()
}

/// Characters allowed to stay in a hostname used inside paths.
pub open spec fn keep_host_char(c: char) -> bool {
    is_alnum(c) || c == '-' || c == '_'
}

/// `s` with every character dropped that may not stand in a hostname.
pub open spec fn spec_sanitized(s: Seq<char>) -> Seq<char>
    decreases s.len(),
{
    if s.len() == 0 {
        Seq::empty()
    } else {
        (if keep_host_char(s[0]) {
            seq![s[0]]
        } else {
            Seq::empty()
        }) + spec_sanitized(s.skip(1))
    }
}

/// Every character of the sanitized string is an allowed one.
pub proof fn lemma_sanitized_chars(s: Seq<char>)
    ensures
        forall|i: int| 0 <= i < spec_sanitized(s).len() ==> keep_host_char(spec_sanitized(s)[i]),
    decreases s.len(),
{
    if s.len() > 0 {
        lemma_sanitized_chars(s.skip(1));
        let head = if keep_host_char(s[0]) {
            seq![s[0]]
        } else {
            Seq::<char>::empty()
        };
        let rest = spec_sanitized(s.skip(1));
        assert forall|i: int|
            0 <= i < spec_sanitized(s).len() implies keep_host_char(spec_sanitized(s)[i]) by {
            if i < head.len() {
                assert(spec_sanitized(s)[i] == s[0]);
            } else {
                assert(spec_sanitized(s)[i] == rest[i - head.len()]);
            }
        }
    }
}

/// No path separator and no ASCII whitespace may stand in the character.
pub open spec fn path_safe_char(c: char) -> bool {
    c != '/' && c != '\\' && c != ' ' && c != '\t' && c != '\n' && c != '\r'
}

/// Keep only letters, digits, dashes and underscores of `raw`. Nothing
/// that survives can break a path: no separators, no whitespace.
pub fn sanitize_hostname(raw: &str) -> (r: String)
    ensures
        r@ == spec_sanitized(raw@),
        forall|i: int| 0 <= i < r@.len() ==> path_safe_char(#[trigger] r@[i]),
{
    let slen = raw.unicode_len();
    let mut out = String::new();
    let mut i: usize = 0;
    proof {
        assert(raw@.skip(0) =~= raw@);
        assert(out@ + spec_sanitized(raw@) =~= spec_sanitized(raw@));
    }
    while i < slen
        invariant
            i <= slen,
            slen == raw@.len(),
            spec_sanitized(raw@) == out@ + spec_sanitized(raw@.skip(i as int)),
            forall|j: int| 0 <= j < out@.len() ==> path_safe_char(#[trigger] out@[j]),
        decreases slen - i,
    {
        let ghost t = raw@.skip(i as int);
        let ghost out0 = out@;
        let c = raw.get_char(i);
        if char_is_alphanumeric(c) || c == '-' || c == '_' {
            let piece = raw.substring_char(i, i + 1);
            out.append(piece);
            proof {
                assert(piece@ =~= seq![t[0]]);
                assert(path_safe_char(c));
            }
        }
        proof {
            assert(t.skip(1) =~= raw@.skip(i + 1));
            assert(out@ + spec_sanitized(raw@.skip(i + 1)) =~= out0 + spec_sanitized(t));
        }
        i = i + 1;
    }
    proof {
        assert(spec_sanitized(raw@.skip(slen as int)) =~= Seq::<char>::empty());
        assert(out@ =~= spec_sanitized(raw@));
    }
    out
}

/// The date-partition template with all placeholders substituted, in the
/// fixed order hostname, year, padded month, padded day, month, day.
pub open spec fn spec_format_date_path(template: Seq<char>, t: Timestamp, host: Seq<char>) -> Seq<
    char,
> {
    spec_replace(
        spec_replace(
            spec_replace(
                spec_replace(
                    spec_replace(spec_replace(template, "{hostname}"@, host), "{year}"@, spec_dec(t.year as nat)),
                    "{month:02}"@,
                    spec_pad2(t.month as nat),
                ),
                "{day:02}"@,
                spec_pad2(t.day as nat),
            ),
            "{month}"@,
            spec_dec(t.month as nat),
        ),
        "{day}"@,
        spec_dec(t.day as nat),
    )
}

impl Config {
    /// The machine's hostname with unsafe characters dropped; only letters,
    /// digits, dashes and underscores remain, so the result is always safe
    /// as a single path component.
    pub fn get_hostname(&self) -> (r: String)
        ensures
            forall|i: int| 0 <= i < r@.len() ==> keep_host_char(r@[i]),
            forall|i: int| 0 <= i < r@.len() ==> path_safe_char(#[trigger] r@[i]),
    {
        let raw = machine_hostname();
        let r = sanitize_hostname(raw.as_str());
        proof {
            lemma_sanitized_chars(raw@);
        }
        r
    }

    /// Expand the date-partition template for one timestamp and hostname.
    pub fn format_date_path(&self, date: &Timestamp, hostname: &str) -> (r: String)
        ensures
            r@ == spec_format_date_path(self.path_format.date_format@, *date, hostname@),
    {
        proof {
            reveal_strlit("{hostname}");
            reveal_strlit("{year}");
            reveal_strlit("{month:02}");
            reveal_strlit("{day:02}");
            reveal_strlit("{month}");
            reveal_strlit("{day}");
        }
        let s1 = replace_all(self.path_format.date_format.as_str(), "{hostname}", hostname);
        let year = crate::digits::u64_to_string(date.year);
        let s2 = replace_all(s1.as_str(), "{year}", year.as_str());
        let mut month2 = String::new();
        crate::digits::push_pad2_u64(&mut month2, date.month);
        let s3 = replace_all(s2.as_str(), "{month:02}", month2.as_str());
        let mut day2 = String::new();
        crate::digits::push_pad2_u64(&mut day2, date.day);
        let s4 = replace_all(s3.as_str(), "{day:02}", day2.as_str());
        let month = crate::digits::u64_to_string(date.month);
        let s5 = replace_all(s4.as_str(), "{month}", month.as_str());
        let day = crate::digits::u64_to_string(date.day);
        let s6 = replace_all(s5.as_str(), "{day}", day.as_str());
        s6
    }

    /// The fixed label for a notification style.
    fn notification_label(&self) -> (r: &'static str)
        ensures
            r@ == spec_notification_label(self.notification),
    {
        proof {
            reveal_strlit("Cli");
            reveal_strlit("Desktop");
        }
        match self.notification {
            NotificationType::Cli => "Cli",
            NotificationType::Desktop => "Desktop",
        }
    }

    /// Render the whole configuration for humans.
    pub fn display(&self, hostname: &str) -> (r: String)
        ensures
            r@ == spec_config_display(*self, hostname@),
    {
        let mut out = String::new();
        out.append("\u{1F4C2} Inbox: ");
        out.append(self.inbox.as_str());
        out.append("\n\u{1FAA6} Graveyard: ");
        out.append(self.graveyard.as_str());
        out.append("\n\u{23F0} Age threshold: ");
        push_dec_u64(&mut out, self.age_threshold_days as u64);
        out.append(" days\n\u{1F5A5} Hostname: ");
        out.append(hostname);
        out.append("\n\u{1F514} Notifications: ");
        out.append(self.notification_label());
        out.append("\n\u{1F4C4} Pager: ");
        out.append(self.pager.as_str());
        out.append("\n\u{1F4C1} Path format:\n   Created: ");
        let created = self.path_format.created_subdir.display();
        out.append(created.as_str());
        out.append("\n   Modified: ");
        let modified = self.path_format.modified_subdir.display();
        out.append(modified.as_str());
        out.append("\n   Archived: ");
        let archived = self.path_format.archived_subdir.display();
        out.append(archived.as_str());
        out.append("\n   Date format: ");
        out.append(self.path_format.date_format.as_str());
        proof {
            assert(out@ =~= spec_config_display(*self, hostname@));
        }
        out
    }
}

/// The `Cli` / `Desktop` label.
pub open spec fn spec_notification_label(n: NotificationType) -> Seq<char> {
    match n {
        NotificationType::Cli => "Cli"@,
        NotificationType::Desktop => "Desktop"@,
    }
}

/// The full human-readable configuration rendering.
pub open spec fn spec_config_display(c: Config, host: Seq<char>) -> Seq<char> {
    "\u{1F4C2} Inbox: "@ + c.inbox@ + "\n\u{1FAA6} Graveyard: "@ + c.graveyard@
        + "\n\u{23F0} Age threshold: "@ + spec_dec(c.age_threshold_days as nat)
        + " days\n\u{1F5A5} Hostname: "@ + host + "\n\u{1F514} Notifications: "@
        + spec_notification_label(c.notification) + "\n\u{1F4C4} Pager: "@ + c.pager@
        + "\n\u{1F4C1} Path format:\n   Created: "@ + spec_subdir_display(
        c.path_format.created_subdir,
    ) + "\n   Modified: "@ + spec_subdir_display(c.path_format.modified_subdir)
        + "\n   Archived: "@ + spec_subdir_display(c.path_format.archived_subdir)
        + "\n   Date format: "@ + c.path_format.date_format@
}

impl Default for PathFormatConfig {
    /// One original `created` view, `modified` and `archived` as symlinks
    /// into it, partitioned by hostname and zero-padded date.
    fn default() -> (r: Self)
        ensures
            spec_subdir_name(r.created_subdir) == Some("created"@),
            r.created_subdir is Original,
            spec_subdir_name(r.modified_subdir) == Some("modified"@),
            spec_subdir_target(r.modified_subdir) == Some("created"@),
            spec_subdir_name(r.archived_subdir) == Some("archived"@),
            spec_subdir_target(r.archived_subdir) == Some("created"@),
            r.date_format@ == "{hostname}/{year}/{month:02}/{day:02}"@,
    {
        PathFormatConfig {
            created_subdir: SubdirConfig::Original { name: String::from_str("created") },
            modified_subdir: SubdirConfig::Symlink {
                name: String::from_str("modified"),
                target: String::from_str("created"),
            },
            archived_subdir: SubdirConfig::Symlink {
                name: String::from_str("archived"),
                target: String::from_str("created"),
            },
            date_format: String::from_str("{hostname}/{year}/{month:02}/{day:02}"),
        }
    }
}

} // verus!
