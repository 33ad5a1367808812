//! The inertial sensor.

use vstd::prelude::*;

verus! {

/// The address of the sensor on its bus.
pub const IMU_ADDR: u16 = 0x68;

/// Whether an identity is that of a sensor that is known.
pub fn is_known_device(who: u8) -> (out: bool)
    ensures
        out == (who == 0x68 || who == 0x70 || who == 0x19),
{
    !(who != 0x68 && who != 0x70 && who != 0x19)
}

/// The number of bytes of a sample.
pub const SAMPLE_BYTES: usize = 14;

/// A sample in the units of the sensor.
#[derive(Clone, Copy, Debug, PartialEq, Eq, Structural)]
pub struct RawSample {
    pub ax: i16,
    pub ay: i16,
    pub az: i16,
    pub gx: i16,
    pub gy: i16,
    pub gz: i16,
}

/// The signed number of two bytes, the higher one first.
pub open spec fn signed_pair(high: u8, low: u8) -> int {
    let unsigned = 256 * high + low;
    if unsigned < 0x8000 {
        unsigned
    } else {
        unsigned - 0x1_0000
    }
}

fn signed_of(high: u8, low: u8) -> (out: i16)
    ensures
        out == signed_pair(high, low),
{
    let unsigned: i32 = 256 * (high as i32) + low as i32;
    if unsigned < 0x8000 {
        unsigned as i16
    } else {
        (unsigned - 0x1_0000) as i16
    }
}

/// Reads a sample: accelerations, a temperature that is passed over, and rates
/// of turn.
pub fn decode_sample(bytes: &Vec<u8>) -> (out: Option<RawSample>)
    ensures
        out is Some == (bytes@.len() == SAMPLE_BYTES),
        out matches Some(s) ==> {
            &&& s.ax == signed_pair(bytes@[0], bytes@[1])
            &&& s.ay == signed_pair(bytes@[2], bytes@[3])
            &&& s.az == signed_pair(bytes@[4], bytes@[5])
            &&& s.gx == signed_pair(bytes@[8], bytes@[9])
            &&& s.gy == signed_pair(bytes@[10], bytes@[11])
            &&& s.gz == signed_pair(bytes@[12], bytes@[13])
        },
{
    if bytes.len() != SAMPLE_BYTES {
        return None;
    }
    Some(
        RawSample {
            ax: signed_of(bytes[0], bytes[1]),
            ay: signed_of(bytes[2], bytes[3]),
            az: signed_of(bytes[4], bytes[5]),
            gx: signed_of(bytes[8], bytes[9]),
            gy: signed_of(bytes[10], bytes[11]),
            gz: signed_of(bytes[12], bytes[13]),
        },
    )
}

/// Different bytes give different numbers.
pub proof fn law_pairs_are_told_apart(a: u8, b: u8, c: u8, d: u8)
    requires
        signed_pair(a, b) == signed_pair(c, d),
    ensures
        a == c,
        b == d,
{
}

/// The number of two bytes is the one that they are the two's complement of: it
/// fits a signed number of two bytes, and differs from the bytes by nothing or by
/// the full range.
pub proof fn law_pairs_are_twos_complement(high: u8, low: u8)
    ensures
        -0x8000 <= signed_pair(high, low) < 0x8000,
        high < 0x80 ==> signed_pair(high, low) == 256 * high + low,
        high >= 0x80 ==> signed_pair(high, low) == 256 * high + low - 0x1_0000,
{
}

} // verus!
