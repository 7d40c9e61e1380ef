//! Civil timestamps as plain fields, and their fixed textual renderings.

use vstd::prelude::*;
use vstd::string::*;

use crate::digits::{push_dec_u64, push_pad2_u64, push_pad4_u64, spec_dec, spec_pad2, spec_pad4};

verus! {

/// A wall-clock instant in UTC, held as plain civil fields. The surrounding
/// binary converts between these fields and its clock library's values.
#[derive(Clone, Copy, PartialEq, Eq, Structural, Debug)]
pub struct Timestamp {
    pub year: u64,
    pub month: u64,
    pub day: u64,
    pub hour: u64,
    pub minute: u64,
    pub second: u64,
}

/// `YYYY-MM-DD`, with the year padded to four digits and month and day to
/// two.
pub open spec fn spec_format_date(t: Timestamp) -> Seq<char> {
    spec_pad4(t.year as nat) + seq!['-'] + spec_pad2(t.month as nat) + seq!['-'] + spec_pad2(
        t.day as nat,
    )
}

/// `YYYY-MM-DD HH:MM:SS UTC`.
pub open spec fn spec_format_datetime_utc(t: Timestamp) -> Seq<char> {
    spec_format_date(t) + seq![' '] + spec_pad2(t.hour as nat) + seq![':'] + spec_pad2(
        t.minute as nat,
    ) + seq![':'] + spec_pad2(t.second as nat) + " UTC"@
}

impl Timestamp {
    /// Render the date part, `YYYY-MM-DD`.
    pub fn format_date(&self) -> (r: String)
        ensures
            r@ == spec_format_date(*self),
    {
        proof {
            reveal_strlit("-");
        }
        let mut out = String::new();
        push_pad4_u64(&mut out, self.year);
        out.append("-");
        push_pad2_u64(&mut out, self.month);
        out.append("-");
        push_pad2_u64(&mut out, self.day);
        proof {
            assert(out@ =~= spec_format_date(*self));
        }
        out
    }

    /// Render the full instant, `YYYY-MM-DD HH:MM:SS UTC`.
    pub fn format_datetime_utc(&self) -> (r: String)
        ensures
            r@ == spec_format_datetime_utc(*self),
    {
        proof {
            reveal_strlit(" ");
            reveal_strlit(":");
            reveal_strlit(" UTC");
        }
        let mut out = self.format_date();
        out.append(" ");
        push_pad2_u64(&mut out, self.hour);
        out.append(":");
        push_pad2_u64(&mut out, self.minute);
        out.append(":");
        push_pad2_u64(&mut out, self.second);
        out.append(" UTC");
        proof {
            assert(out@ =~= spec_format_datetime_utc(*self));
        }
        out
    }
}

} // verus!
