//! How a loop-dwell time is labelled in the settings.

use vstd::prelude::*;

use crate::mazes::pbm::{dec, lemma_parse_dec, parse_usize, push_dec, IntParseError};

verus! {

/// A loop-dwell label: finished text, or a number of milliseconds that is
/// shown in seconds to one decimal.
#[derive(Clone, PartialEq, Eq, Debug)]
pub enum DwellLabel {
    /// The label itself.
    Text(String),
    /// A time that is not a whole number of seconds, in milliseconds.
    FractionalSeconds(u32),
}

/// The text of the label for `ms` milliseconds, where it is made of whole
/// numbers: "instant" for none, "`ms` ms" below a second, "`s` s" for a
/// whole number of seconds; nothing for any other time.
pub open spec fn dwell_text(ms: u32) -> Option<Seq<char>> {
    if ms == 0 {
        Some("instant"@)
    } else if ms < 1000 {
        Some(dec(ms as nat) + " ms"@)
    } else if ms % 1000 == 0 {
        Some(dec((ms / 1000) as nat) + " s"@)
    } else {
        None
    }
}

/// The label names the dwell in the right unit: below a second the number
/// in front of " ms" reads back as the milliseconds; for a whole number of
/// seconds the number in front of " s" reads back as the seconds; no dwell
/// is "instant"; and only other times get no finished text.
pub proof fn lemma_dwell_text_reads_back(ms: u32)
    ensures
        ms == 0 ==> dwell_text(ms) == Some("instant"@),
        0 < ms < 1000 ==> (dwell_text(ms) matches Some(t) && t.len() > 3 && t.skip(t.len() - 3) == " ms"@
            && parse_usize(t.take(t.len() - 3)) == Ok::<int, IntParseError>(ms as int)),
        ms >= 1000 && ms % 1000 == 0 ==> (dwell_text(ms) matches Some(t) && t.len() > 2 && t.skip(t.len() - 2)
            == " s"@ && parse_usize(t.take(t.len() - 2)) == Ok::<int, IntParseError>((ms / 1000) as int)),
        dwell_text(ms) is None <==> (ms >= 1000 && ms % 1000 != 0),
{
    reveal_strlit(" ms");
    reveal_strlit(" s");
    if 0 < ms < 1000 {
        let d = dec(ms as nat);
        lemma_parse_dec(ms as nat);
        let t = d + " ms"@;
        assert(t.skip(t.len() - 3) =~= " ms"@);
        assert(t.take(t.len() - 3) =~= d);
    }
    if ms >= 1000 && ms % 1000 == 0 {
        let d = dec((ms / 1000) as nat);
        lemma_parse_dec((ms / 1000) as nat);
        let t = d + " s"@;
        assert(t.skip(t.len() - 2) =~= " s"@);
        assert(t.take(t.len() - 2) =~= d);
    }
}

/// Label a dwell of `ms` milliseconds: "instant" for none, milliseconds
/// below a second, whole seconds when it divides evenly, and otherwise the
/// milliseconds to be shown in seconds to one decimal.
pub fn format_dwell(ms: u32) -> (r: DwellLabel)
    ensures
        match dwell_text(ms) {
            Some(t) => r matches DwellLabel::Text(s) && s@ == t,
            None => r == DwellLabel::FractionalSeconds(ms),
        },
{
    let mut s = String::new();
    if ms == 0 {
        s.append("instant");
        assert(s@ =~= "instant"@);
    } else if ms < 1000 {
        push_dec(&mut s, ms as u128);
        s.append(" ms");
        assert(s@ =~= dec(ms as nat) + " ms"@);
    } else if ms % 1000 == 0 {
        push_dec(&mut s, (ms / 1000) as u128);
        s.append(" s");
        assert(s@ =~= dec((ms / 1000) as nat) + " s"@);
    } else {
        return DwellLabel::FractionalSeconds(ms);
    }
    DwellLabel::Text(s)
}

} // verus!
