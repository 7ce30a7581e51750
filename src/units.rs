//! Display units and the conversion of byte counts into them.
use vstd::prelude::*;

verus! {

/// One mebibyte, 1024 * 1024 bytes.
pub const BYTES_PER_MB: u64 = 1048576;

/// One gibibyte, 1024 * 1024 * 1024 bytes.
pub const BYTES_PER_GB: u64 = 1073741824;

/// The unit in which a threshold and the sizes of files are shown.
#[derive(Clone, Copy, Debug, PartialEq, Eq, Structural)]
pub enum SizeUnit {
    MB,
    GB,
}

/// How many bytes make one `unit`.
pub open spec fn unit_bytes(unit: SizeUnit) -> nat {
    match unit {
        SizeUnit::MB => 1048576,
        SizeUnit::GB => 1073741824,
    }
}

/// `x / d` rounded to the nearest integer, ties to the even neighbour.
pub open spec fn div_round_half_even(x: nat, d: nat) -> nat
    recommends
        d > 0,
{
    let q = x / d;
    let r = x % d;
    if 2 * r > d {
        q + 1
    } else if 2 * r < d {
        q
    } else if q % 2 == 0 {
        q
    } else {
        q + 1
    }
}

/// `size_bytes` in `unit`, counted in hundredths of the unit and rounded to the
/// nearest hundredth (ties to even).
pub open spec fn hundredths_of(size_bytes: nat, unit: SizeUnit) -> nat {
    div_round_half_even(100 * size_bytes, unit_bytes(unit))
}

/// Shown in hundredths of a unit and turned back into bytes by multiplying with
/// the unit's size, a byte count comes back to within half a hundredth of the
/// unit: the display loses no more than its precision.
pub proof fn lemma_display_round_trip(size_bytes: nat, unit: SizeUnit)
    ensures
        2 * (hundredths_of(size_bytes, unit) * unit_bytes(unit)) <= 200 * size_bytes
            + unit_bytes(unit),
        200 * size_bytes <= 2 * (hundredths_of(size_bytes, unit) * unit_bytes(unit))
            + unit_bytes(unit),
{
    let d = unit_bytes(unit);
    let x = 100 * size_bytes;
    let q = x / d;
    let r = x % d;
    vstd::arithmetic::div_mod::lemma_fundamental_div_mod(x as int, d as int);
    vstd::arithmetic::div_mod::lemma_mod_bound(x as int, d as int);
    let h = hundredths_of(size_bytes, unit);
    assert(h == q || h == q + 1);
    assert(h == q ==> 2 * r <= d);
    assert(h == q + 1 ==> 2 * r >= d);
    assert(h * d == q * d || h * d == q * d + d) by (nonlinear_arith)
        requires
            h == q || h == q + 1,
    ;
}

/// The label that names `unit` in a table header.
pub open spec fn unit_label(unit: SizeUnit) -> Seq<char> {
    match unit {
        SizeUnit::MB => seq!['M', 'B'],
        SizeUnit::GB => seq!['G', 'B'],
    }
}

/// The number of bytes in one `unit`.
pub fn unit_size(unit: SizeUnit) -> (r: u64)
    ensures
        r as nat == unit_bytes(unit),
        r > 0,
{
    match unit {
        SizeUnit::MB => BYTES_PER_MB,
        SizeUnit::GB => BYTES_PER_GB,
    }
}

/// The size `size_bytes` expressed in `unit`, as a count of hundredths of the
/// unit (so `1.5 MB` is `150`), rounded to the nearest hundredth, ties to even.
/// This is the value a two-decimal display shows.
pub fn format_size(size_bytes: u64, unit: SizeUnit) -> (r: u64)
    ensures
        r as nat == hundredths_of(size_bytes as nat, unit),
{
    let d = unit_size(unit) as u128;
    let x = 100u128 * (size_bytes as u128);
    let q = x / d;
    let rem = x % d;
    assert(q <= x) by (nonlinear_arith)
        requires q == x / d, d > 0;
    let h: u128 = if 2 * rem > d {
        q + 1
    } else if 2 * rem < d {
        q
    } else if q % 2 == 0 {
        q
    } else {
        q + 1
    };
    assert(h <= x / 1048576 + 1) by (nonlinear_arith)
        requires
            q == x / d,
            d >= 1048576,
            h <= q + 1,
    {
        vstd::arithmetic::div_mod::lemma_div_is_ordered_by_denominator(x as int, 1048576, d as int);
    }
    assert(x / 1048576 + 1 < 0x1_0000_0000_0000_0000) by (nonlinear_arith)
        requires x <= 100 * 0xffff_ffff_ffff_ffff;
    h as u64
}

/// The label of `unit`: `"MB"` or `"GB"`.
pub fn get_unit_label(unit: SizeUnit) -> (r: &'static str)
    ensures
        r@ == unit_label(unit),
{
    match unit {
        SizeUnit::MB => {
            proof {
                reveal_strlit("MB");
            }
            "MB"
        },
        SizeUnit::GB => {
            proof {
                reveal_strlit("GB");
            }
            "GB"
        },
    }
}

} // verus!
