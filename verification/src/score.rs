use vstd::prelude::*;

verus! {

/// The magnitude field of a 32-bit binary floating-point number, given by
/// its bits: everything but the sign bit.
pub open spec fn magnitude(bits: u32) -> int {
    if bits >= 0x8000_0000 {
        bits - 0x8000_0000
    } else {
        bits as int
    }
}

/// The bits stand for no number: the magnitude lies above that of infinity.
pub open spec fn is_nan(bits: u32) -> bool {
    magnitude(bits) > 0x7f80_0000
}

/// The key of a number: its magnitude, negated under a set sign bit. Keys
/// order as the numbers do, and the two zeros share the key zero.
pub open spec fn number_key(bits: u32) -> int {
    if bits >= 0x8000_0000 {
        -magnitude(bits)
    } else {
        magnitude(bits)
    }
}

/// The key of a score: that of the number, and the least key of all for a
/// score that is no number.
pub open spec fn score_key_of(bits: u32) -> int {
    if is_nan(bits) {
        i32::MIN as int
    } else {
        number_key(bits)
    }
}

/// The key of a minimum score: that of the number, and the greatest key of
/// all for a minimum that is no number.
pub open spec fn threshold_key_of(bits: u32) -> int {
    if is_nan(bits) {
        i32::MAX as int
    } else {
        number_key(bits)
    }
}

/// The integer by which a score is ordered, from the bits of the score: the
/// key of the number, and the least key for a score that is no number, which
/// so ranks below every number.
pub fn score_key(bits: u32) -> (key: i32)
    ensures
        key == score_key_of(bits),
{
    let negative: bool = bits >= 0x8000_0000;
    let m: u32 = if negative { bits - 0x8000_0000 } else { bits };
    if m > 0x7f80_0000 {
        i32::MIN
    } else if negative {
        -(m as i32)
    } else {
        m as i32
    }
}

/// The key of a minimum score, from its bits: the key of the number, and
/// the greatest key for a minimum that is no number, which no score
/// reaches.
pub fn threshold_key(bits: u32) -> (key: i32)
    ensures
        key == threshold_key_of(bits),
{
    let negative: bool = bits >= 0x8000_0000;
    let m: u32 = if negative { bits - 0x8000_0000 } else { bits };
    if m > 0x7f80_0000 {
        i32::MAX
    } else {
        score_key(bits)
    }
}

/// No score reaches a minimum that is no number, and a score that is no
/// number reaches no minimum.
pub proof fn lemma_nan_never_passes(score: u32, minimum: u32)
    requires
        is_nan(score) || is_nan(minimum),
    ensures
        score_key_of(score) < threshold_key_of(minimum),
{
}

/// Between numbers a score reaches a minimum exactly when its key reaches
/// the key of the minimum, and scores are ordered as their keys are.
pub proof fn lemma_number_keys_agree(a: u32, b: u32)
    requires
        !is_nan(a),
        !is_nan(b),
    ensures
        score_key_of(a) == threshold_key_of(a),
        score_key_of(a) >= threshold_key_of(b) <==> number_key(a) >= number_key(b),
        score_key_of(a) > score_key_of(b) <==> number_key(a) > number_key(b),
{
}

} // verus!
