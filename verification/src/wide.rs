//! Names as the shell takes them: UTF-16 with a terminating zero.

use vstd::prelude::*;
use vstd::utf8::{char_is_scalar, char_u32_cast};
use crate::storage::{MpqStat, StatView};

verus! {

/// The UTF-16 code units of one character: the character itself where it
/// lies in the basic plane, else a high and a low surrogate.
pub open spec fn utf16_units(c: char) -> Seq<u16> {
    let v = c as u32;
    if v < 0x10000 {
        seq![v as u16]
    } else {
        seq![(0xD800 + (v - 0x10000) / 0x400) as u16, (0xDC00 + (v - 0x10000) % 0x400) as u16]
    }
}

/// The UTF-16 encoding of a string.
pub open spec fn encode_utf16(s: Seq<char>) -> Seq<u16>
    decreases s.len(),
{
    if s.len() == 0 {
        Seq::empty()
    } else {
        utf16_units(s.first()) + encode_utf16(s.drop_first())
    }
}

/// Whether a unit is a high surrogate, the first unit of a pair.
pub open spec fn is_high_surrogate(unit: u16) -> bool {
    0xD800 <= unit <= 0xDBFF
}

/// Whether a unit is a low surrogate, the second unit of a pair.
pub open spec fn is_low_surrogate(unit: u16) -> bool {
    0xDC00 <= unit <= 0xDFFF
}

/// The character that a pair of surrogates stands for.
pub open spec fn surrogate_pair(high: u16, low: u16) -> char {
    ((0x10000 + (high - 0xD800) * 0x400 + (low - 0xDC00)) as u32) as char
}

/// The text that UTF-16 units stand for, with the replacement character
/// U+FFFD for each surrogate that is not part of a pair.
pub open spec fn decode_utf16_lossy(units: Seq<u16>) -> Seq<char>
    decreases units.len(),
{
    if units.len() == 0 {
        Seq::empty()
    } else if !is_high_surrogate(units[0]) && !is_low_surrogate(units[0]) {
        seq![(units[0] as u32) as char] + decode_utf16_lossy(units.skip(1))
    } else if is_high_surrogate(units[0]) && units.len() > 1 && is_low_surrogate(units[1]) {
        seq![surrogate_pair(units[0], units[1])] + decode_utf16_lossy(units.skip(2))
    } else {
        seq!['\u{FFFD}'] + decode_utf16_lossy(units.skip(1))
    }
}

/// Whether a zero stands in `units` before the last unit. Such a string
/// cannot be zero-terminated: it would end at that zero.
pub open spec fn has_interior_zero(units: Seq<u16>) -> bool {
    exists|i: int| 0 <= i < units.len() - 1 && #[trigger] units[i] == 0
}

/// `units` with a terminating zero: as they are where they end in a zero,
/// else with a zero behind them.
pub open spec fn zero_terminated(units: Seq<u16>) -> Seq<u16> {
    if units.len() > 0 && units.last() == 0 {
        units
    } else {
        units.push(0)
    }
}

/// Whether a name can be handed to the shell as a zero-terminated wide
/// string.
pub open spec fn can_be_wide(name: Seq<char>) -> bool {
    !has_interior_zero(encode_utf16(name))
}

/// The name as a zero-terminated wide string.
pub open spec fn wide_text(name: Seq<char>) -> Seq<u16> {
    zero_terminated(encode_utf16(name))
}

/// `U16CString::from_str` of the crate `widestring`, and `into_vec_with_nul`
/// on its result. Verus takes on trust that the string is encoded as UTF-16,
/// that it is refused where a zero stands before its last unit, and that the
/// units come back with one terminating zero: the zero that they end in, or
/// one that is added.
#[verifier::external_body]
fn nul_terminated_utf16(text: &str) -> (wide: Option<Vec<u16>>)
    ensures
        wide is Some == can_be_wide(text@),
        wide is Some ==> wide->0@ == wide_text(text@),
{
    match widestring::U16CString::from_str(text) {
        Ok(wide) => Some(wide.into_vec_with_nul()),
        Err(_) => None,
    }
}

/// `to_string_lossy` of the crate `widestring` on the units as a `U16Str`.
/// Verus takes on trust that the units are decoded as UTF-16, and that each
/// surrogate without its partner becomes the replacement character.
#[verifier::external_body]
fn lossy_text(units: &[u16]) -> (text: String)
    ensures
        text@ == decode_utf16_lossy(units@),
{
    widestring::U16Str::from_slice(units).to_string_lossy()
}

/// What a stat record with a wide name says.
pub ghost struct WideStatView {
    pub name: Seq<u16>,
    pub size: u64,
    pub is_container: bool,
}

/// A stat record whose name is a zero-terminated wide string.
#[derive(Debug, PartialEq, Eq)]
pub struct WideStat {
    pub name: Vec<u16>,
    pub size: u64,
    pub is_container: bool,
}

impl View for WideStat {
    type V = WideStatView;

    open spec fn view(&self) -> WideStatView {
        WideStatView { name: self.name@, size: self.size, is_container: self.is_container }
    }
}

/// The stat record with its name made wide.
pub open spec fn wide_stat(stat: StatView) -> WideStatView {
    WideStatView {
        name: wide_text(stat.display_name),
        size: stat.size,
        is_container: stat.is_container,
    }
}

/// The number of records at the start of `stats` whose names can be made
/// wide: the records before the first whose name cannot.
pub open spec fn leading_nameable(stats: Seq<StatView>) -> nat
    decreases stats.len(),
{
    if stats.len() == 0 || !can_be_wide(stats.first().display_name) {
        0
    } else {
        1 + leading_nameable(stats.drop_first())
    }
}

/// A count of records that can all be named, behind which the list ends
/// or a record stands that cannot, is `leading_nameable`.
pub proof fn lemma_leading_nameable_is(stats: Seq<StatView>, n: int)
    requires
        0 <= n <= stats.len(),
        forall|j: int| 0 <= j < n ==> can_be_wide((#[trigger] stats[j]).display_name),
        n < stats.len() ==> !can_be_wide(stats[n].display_name),
    ensures
        leading_nameable(stats) == n,
    decreases stats.len(),
{
    if n > 0 {
        assert(can_be_wide(stats[0].display_name));
        let rest = stats.drop_first();
        assert forall|j: int| 0 <= j < n - 1 implies can_be_wide((#[trigger] rest[j]).display_name) by {
            assert(rest[j] == stats[j + 1]);
        }
        if n < stats.len() {
            assert(rest[n - 1] == stats[n]);
        }
        lemma_leading_nameable_is(rest, n - 1);
    }
}

/// Text goes through UTF-16 unchanged: decoding the encoding of a string
/// gives the string.
pub proof fn lemma_utf16_round_trip(s: Seq<char>)
    ensures
        decode_utf16_lossy(encode_utf16(s)) == s,
    decreases s.len(),
{
    if s.len() > 0 {
        let c = s.first();
        let rest = s.drop_first();
        let units = encode_utf16(s);
        let v = c as u32;
        lemma_utf16_round_trip(rest);
        char_is_scalar(c);
        if v < 0x10000 {
            assert(units[0] == v as u16);
            assert(units.skip(1) =~= encode_utf16(rest));
            char_u32_cast(c, units[0] as u32);
        } else {
            let high = (0xD800 + (v - 0x10000) / 0x400) as u16;
            let low = (0xDC00 + (v - 0x10000) % 0x400) as u16;
            assert(units[0] == high && units[1] == low);
            assert(units.skip(2) =~= encode_utf16(rest));
            let w = (0x10000 + (high - 0xD800) * 0x400 + (low - 0xDC00)) as u32;
            assert(w == v);
            char_u32_cast(c, w);
        }
        assert(s =~= seq![c] + rest);
    }
}

/// The text of wide units that were read from the shell. Units that are no
/// valid UTF-16 become the replacement character U+FFFD.
pub fn text_of_wide(units: &[u16]) -> (text: String)
    ensures
        text@ == decode_utf16_lossy(units@),
{
    lossy_text(units)
}

/// The name as a zero-terminated wide string, or `None` where it holds a
/// zero before its end.
pub fn wide_name(name: &str) -> (wide: Option<Vec<u16>>)
    ensures
        wide is Some == can_be_wide(name@),
        wide is Some ==> wide->0@ == wide_text(name@),
{
    nul_terminated_utf16(name)
}

impl MpqStat {
    /// The record with its name made wide, or `None` where the name cannot
    /// be.
    pub fn wide(&self) -> (wide: Option<WideStat>)
        ensures
            wide is Some == can_be_wide(self@.display_name),
            wide is Some ==> wide->0@ == wide_stat(self@),
    {
        match nul_terminated_utf16(self.display_name.as_str()) {
            Some(name) => Some(WideStat { name, size: self.size, is_container: self.is_container }),
            None => None,
        }
    }
}

} // verus!
