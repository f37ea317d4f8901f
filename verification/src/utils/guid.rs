//! Globally unique identifiers and their text in registry form.

use vstd::prelude::*;

verus! {

/// A 128-bit identifier in its four parts.
#[derive(Debug, Clone, Copy)]
pub struct Guid {
    pub data1: u32,
    pub data2: u16,
    pub data3: u16,
    pub data4: [u8; 8],
}

/// The upper-case hexadecimal digit of a value below 16.
pub open spec fn hex_digit(d: nat) -> char {
    if d < 10 {
        ((48 + d) as u8) as char
    } else {
        ((55 + d) as u8) as char
    }
}

/// The last `digits` upper-case hexadecimal digits of `value`, with
/// leading zeros.
pub open spec fn hex_upper(value: nat, digits: nat) -> Seq<char>
    decreases digits,
{
    if digits == 0 {
        Seq::empty()
    } else {
        hex_upper(value / 16, (digits - 1) as nat).push(hex_digit(value % 16))
    }
}

/// The identifier in braces, in upper-case hexadecimal digits, its parts
/// separated by hyphens: 8, 4, 4, 4 and 12 digits.
pub open spec fn braced_upper_text(guid: Guid) -> Seq<char> {
    seq!['{'] + hex_upper(guid.data1 as nat, 8) + seq!['-'] + hex_upper(guid.data2 as nat, 4)
        + seq!['-'] + hex_upper(guid.data3 as nat, 4) + seq!['-'] + hex_upper(
        guid.data4[0] as nat,
        2,
    ) + hex_upper(guid.data4[1] as nat, 2) + seq!['-'] + hex_upper(guid.data4[2] as nat, 2)
        + hex_upper(guid.data4[3] as nat, 2) + hex_upper(guid.data4[4] as nat, 2) + hex_upper(
        guid.data4[5] as nat,
        2,
    ) + hex_upper(guid.data4[6] as nat, 2) + hex_upper(guid.data4[7] as nat, 2) + seq!['}']
}

/// Appends the last `digits` upper-case hexadecimal digits of `value`.
pub fn push_hex_upper(out: &mut String, value: u32, digits: u32)
    ensures
        final(out)@ == old(out)@ + hex_upper(value as nat, digits as nat),
    decreases digits,
{
    if digits == 0 {
        assert(final(out)@ =~= old(out)@ + hex_upper(value as nat, 0));
    } else {
        push_hex_upper(out, value / 16, digits - 1);
        let d: u8 = (value % 16) as u8;
        let c = if d < 10 {
            (48u8 + d) as char
        } else {
            (55u8 + d) as char
        };
        out.push(c);
        assert(final(out)@ =~= old(out)@ + hex_upper(value as nat, digits as nat));
    }
}

/// Text forms of an identifier.
pub trait GuidExt {
    /// The text that `to_braced_upper` gives.
    spec fn braced_upper(&self) -> Seq<char>;

    /// `{XXXXXXXX-XXXX-XXXX-XXXX-XXXXXXXXXXXX}`, upper case, with braces.
    fn to_braced_upper(&self) -> (text: String)
        ensures
            text@ == self.braced_upper(),
    ;
}

impl GuidExt for Guid {
    open spec fn braced_upper(&self) -> Seq<char> {
        braced_upper_text(*self)
    }

    fn to_braced_upper(&self) -> (text: String) {
        let mut text = String::new();
        text.push('{');
        push_hex_upper(&mut text, self.data1, 8);
        text.push('-');
        push_hex_upper(&mut text, self.data2 as u32, 4);
        text.push('-');
        push_hex_upper(&mut text, self.data3 as u32, 4);
        text.push('-');
        push_hex_upper(&mut text, self.data4[0] as u32, 2);
        push_hex_upper(&mut text, self.data4[1] as u32, 2);
        text.push('-');
        push_hex_upper(&mut text, self.data4[2] as u32, 2);
        push_hex_upper(&mut text, self.data4[3] as u32, 2);
        push_hex_upper(&mut text, self.data4[4] as u32, 2);
        push_hex_upper(&mut text, self.data4[5] as u32, 2);
        push_hex_upper(&mut text, self.data4[6] as u32, 2);
        push_hex_upper(&mut text, self.data4[7] as u32, 2);
        text.push('}');
        assert(text@ =~= braced_upper_text(*self));
        text
    }
}

} // verus!
