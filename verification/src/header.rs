//! The fixed part of a JFIF file: the APP0 header fields.
use vstd::prelude::*;

verus! {

/// The big-endian value of two bytes.
pub open spec fn be_u16(msb: u8, lsb: u8) -> int {
    msb as int * 256 + lsb as int
}

/// Reads the first two bytes of `bytes` as a big-endian `u16`.
pub fn u8s_to_u16(bytes: &[u8]) -> (r: u16)
    requires
        bytes@.len() >= 2,
    ensures
        r as int == be_u16(bytes@[0], bytes@[1]),
{
    let msb = bytes[0] as u16;
    let lsb = bytes[1] as u16;
    assert((msb << 8u16) == msb * 256) by (bit_vector)
        requires
            msb < 256,
    ;
    (msb << 8u16) + lsb
}

} // verus!

verus! {

/// The unit of the pixel densities in the JFIF header.
#[derive(Debug, Clone, Copy, PartialEq, Eq, Structural)]
pub enum JFIFUnits {
    NoUnits,
    DotsPerInch,
    DotsPerCm,
}

/// The units that the header byte `byte` stands for: 1, 2 and 3 name the three units,
/// and any other byte is read as having no units.
pub open spec fn spec_units(byte: u8) -> JFIFUnits {
    if byte == 2 {
        JFIFUnits::DotsPerInch
    } else if byte == 3 {
        JFIFUnits::DotsPerCm
    } else {
        JFIFUnits::NoUnits
    }
}

impl JFIFUnits {
    /// Reads the units byte of the header; it never fails.
    pub fn from_u8(byte: u8) -> (r: Result<JFIFUnits, String>)
        ensures
            r == Ok::<JFIFUnits, String>(spec_units(byte)),
    {
        Ok(
            match byte {
                1 => JFIFUnits::NoUnits,
                2 => JFIFUnits::DotsPerInch,
                3 => JFIFUnits::DotsPerCm,
                _ => JFIFUnits::NoUnits,
            },
        )
    }
}

/// The JFIF versions that can be read.
#[allow(non_camel_case_types)]
#[derive(Debug, Clone, Copy, PartialEq, Eq, Structural)]
pub enum JFIFVersion {
    V1_01,
    V1_02,
}

/// The version named by the two version bytes, if it is one that can be read.
pub open spec fn spec_version(msb: u8, lsb: u8) -> Option<JFIFVersion> {
    if msb == 1 && lsb == 1 {
        Some(JFIFVersion::V1_01)
    } else if msb == 1 && lsb == 2 {
        Some(JFIFVersion::V1_02)
    } else {
        None
    }
}

/// The character of the decimal digit `d`.
pub open spec fn digit_char(d: nat) -> char {
    (48 + d) as char
}

/// The decimal representation of `n`, without leading zeros.
pub open spec fn decimal(n: nat) -> Seq<char>
    decreases n,
{
    if n < 10 {
        seq![digit_char(n)]
    } else {
        decimal(n / 10).push(digit_char(n % 10))
    }
}

/// The error message for an unknown version.
pub open spec fn illegal_version_message(msb: u8, lsb: u8) -> Seq<char> {
    "Illegal version: ("@ + decimal(msb as nat) + ", "@ + decimal(lsb as nat) + ")"@
}

fn digit_str(d: u8) -> (s: &'static str)
    requires
        d < 10,
    ensures
        s@ == seq![digit_char(d as nat)],
{
    proof {
        reveal_strlit("0");
        reveal_strlit("1");
        reveal_strlit("2");
        reveal_strlit("3");
        reveal_strlit("4");
        reveal_strlit("5");
        reveal_strlit("6");
        reveal_strlit("7");
        reveal_strlit("8");
        reveal_strlit("9");
    }
    match d {
        0 => "0",
        1 => "1",
        2 => "2",
        3 => "3",
        4 => "4",
        5 => "5",
        6 => "6",
        7 => "7",
        8 => "8",
        _ => "9",
    }
}

/// Appends the decimal representation of `n` to `s`.
fn push_decimal(s: &mut String, n: u8)
    ensures
        final(s)@ == old(s)@ + decimal(n as nat),
{
    if n >= 100 {
        s.append(digit_str(n / 100));
        s.append(digit_str((n / 10) % 10));
        assert(decimal((n / 100) as nat) == seq![digit_char((n / 100) as nat)]);
        assert(decimal((n / 10) as nat) == decimal((n / 100) as nat).push(
            digit_char(((n / 10) % 10) as nat),
        ));
        assert(decimal(n as nat) == decimal((n / 10) as nat).push(digit_char((n % 10) as nat)));
    } else if n >= 10 {
        s.append(digit_str(n / 10));
        assert(decimal((n / 10) as nat) == seq![digit_char((n / 10) as nat)]);
        assert(decimal(n as nat) == decimal((n / 10) as nat).push(digit_char((n % 10) as nat)));
    }
    s.append(digit_str(n % 10));
}

impl JFIFVersion {
    /// Reads the two version bytes of the header.
    pub fn from_bytes(msb: u8, lsb: u8) -> (r: Result<JFIFVersion, String>)
        ensures
            spec_version(msb, lsb) matches Some(v) ==> r == Ok::<JFIFVersion, String>(v),
            spec_version(msb, lsb) is None ==> (r matches Err(e) && e@ == illegal_version_message(
                msb,
                lsb,
            )),
    {
        if msb == 1 && lsb == 1 {
            Ok(JFIFVersion::V1_01)
        } else if msb == 1 && lsb == 2 {
            Ok(JFIFVersion::V1_02)
        } else {
            let mut e = String::from_str("Illegal version: (");
            push_decimal(&mut e, msb);
            e.append(", ");
            push_decimal(&mut e, lsb);
            e.append(")");
            Err(e)
        }
    }
}

} // verus!
