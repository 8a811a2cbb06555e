//! Durations and sizes as a person reads them.

use crate::text::{decimal, digit_char, digit_str, push_decimal};
use vstd::prelude::*;
use vstd::string::*;

verus! {

/// Milliseconds in a second.
pub const MS_PER_SECOND: u128 = 1000;

/// Milliseconds in a minute.
pub const MS_PER_MINUTE: u128 = 60_000;

/// Milliseconds in an hour.
pub const MS_PER_HOUR: u128 = 3_600_000;

/// A duration of `ms` milliseconds in hours, minutes, seconds and
/// milliseconds, each followed by its unit and a space. A unit above the
/// milliseconds is left out where nothing is left for it or above it.
pub open spec fn duration_text(ms: nat) -> Seq<char> {
    let below_hour = ms % (MS_PER_HOUR as nat);
    let below_minute = below_hour % (MS_PER_MINUTE as nat);
    let below_second = below_minute % (MS_PER_SECOND as nat);
    (if ms >= MS_PER_HOUR {
        decimal(ms / (MS_PER_HOUR as nat)) + "h "@
    } else {
        Seq::empty()
    }) + (if below_hour >= MS_PER_MINUTE {
        decimal(below_hour / (MS_PER_MINUTE as nat)) + "m "@
    } else {
        Seq::empty()
    }) + (if below_minute >= MS_PER_SECOND {
        decimal(below_minute / (MS_PER_SECOND as nat)) + "s "@
    } else {
        Seq::empty()
    }) + decimal(below_second) + "ms "@
}

/// Writes a duration given in milliseconds.
pub fn human_duration(millis: u128) -> (r: String)
    ensures
        r@ == duration_text(millis as nat),
{
    let mut time: u128 = millis;
    let mut result = String::new();
    let ghost hours = Seq::<char>::empty();
    let ghost minutes = Seq::<char>::empty();
    let ghost seconds = Seq::<char>::empty();
    if time >= MS_PER_HOUR {
        push_decimal(&mut result, time / MS_PER_HOUR);
        result.append("h ");
        time = time % MS_PER_HOUR;
        proof {
            hours = decimal((millis / MS_PER_HOUR) as nat) + "h "@;
        }
    }
    assert(result@ =~= hours);
    assert(time == millis % MS_PER_HOUR);
    let below_hour: u128 = time;
    if time >= MS_PER_MINUTE {
        push_decimal(&mut result, time / MS_PER_MINUTE);
        result.append("m ");
        time = time % MS_PER_MINUTE;
        proof {
            minutes = decimal((below_hour / MS_PER_MINUTE) as nat) + "m "@;
        }
    }
    assert(result@ =~= hours + minutes);
    let below_minute: u128 = time;
    if time >= MS_PER_SECOND {
        push_decimal(&mut result, time / MS_PER_SECOND);
        result.append("s ");
        time = time % MS_PER_SECOND;
        proof {
            seconds = decimal((below_minute / MS_PER_SECOND) as nat) + "s "@;
        }
    }
    assert(result@ =~= hours + minutes + seconds);
    push_decimal(&mut result, time);
    result.append("ms ");
    assert(result@ =~= duration_text(millis as nat));
    result
}

// ------------------------------------------------------------ sizes

/// Bytes in a KB.
pub const KIB: u128 = 0x400;

/// Bytes in a MB.
pub const MIB: u128 = 0x10_0000;

/// Bytes in a GB.
pub const GIB: u128 = 0x4000_0000;

/// `n / d` rounded to the nearest whole number, a tie to the even one.
pub open spec fn round_half_even(n: nat, d: nat) -> nat
    recommends
        d > 0,
{
    let q = n / d;
    let r = n % d;
    if 2 * r < d {
        q
    } else if 2 * r > d {
        q + 1
    } else if q % 2 == 0 {
        q
    } else {
        q + 1
    }
}

/// The distance between neighbouring double-precision numbers at `n`, for
/// `n` from 2^53 on; 1 below that, where every whole number is one.
pub open spec fn double_step(n: nat) -> nat {
    if n < 0x20_0000_0000_0000 {
        1
    } else if n < 0x40_0000_0000_0000 {
        2
    } else if n < 0x80_0000_0000_0000 {
        4
    } else if n < 0x100_0000_0000_0000 {
        8
    } else if n < 0x200_0000_0000_0000 {
        16
    } else if n < 0x400_0000_0000_0000 {
        32
    } else if n < 0x800_0000_0000_0000 {
        64
    } else if n < 0x1000_0000_0000_0000 {
        128
    } else if n < 0x2000_0000_0000_0000 {
        256
    } else if n < 0x4000_0000_0000_0000 {
        512
    } else if n < 0x8000_0000_0000_0000 {
        1024
    } else {
        2048
    }
}

/// The double-precision number nearest to `n`, a tie to the one with the
/// even significand.
pub open spec fn nearest_double(n: nat) -> nat {
    round_half_even(n, double_step(n)) * double_step(n)
}

/// `n / unit` with two decimals, rounded to the nearest hundredth, a tie
/// to the even one.
pub open spec fn two_decimals(n: nat, unit: nat) -> Seq<char> {
    let hundredths = round_half_even(n * 100, unit);
    decimal(hundredths / 100) + seq![
        '.',
        digit_char((hundredths / 10 % 10) as int),
        digit_char((hundredths % 10) as int),
    ]
}

/// A size of `bytes` bytes: in bytes below 1024, else with two decimals
/// in the largest of the units KB, MB and GB (of 1024 each of the one
/// below) that it reaches. The size is first taken to the nearest
/// double-precision number.
pub open spec fn size_text(bytes: u64) -> Seq<char> {
    if bytes < KIB {
        decimal(bytes as nat) + " B"@
    } else if bytes < MIB {
        two_decimals(nearest_double(bytes as nat), KIB as nat) + " KB"@
    } else if bytes < GIB {
        two_decimals(nearest_double(bytes as nat), MIB as nat) + " MB"@
    } else {
        two_decimals(nearest_double(bytes as nat), GIB as nat) + " GB"@
    }
}

fn round_div(n: u128, d: u128) -> (q: u128)
    requires
        d > 0,
        n <= 0xffff_ffff_ffff_ffff_ffff,
    ensures
        q == round_half_even(n as nat, d as nat),
{
    let quotient: u128 = n / d;
    let rest: u128 = n % d;
    if rest < d - rest {
        quotient
    } else if rest > d - rest {
        quotient + 1
    } else if quotient % 2 == 0 {
        quotient
    } else {
        quotient + 1
    }
}

fn step_at(n: u64) -> (r: u128)
    ensures
        r == double_step(n as nat),
        1 <= r <= 2048,
{
    if n < 0x20_0000_0000_0000 {
        1
    } else if n < 0x40_0000_0000_0000 {
        2
    } else if n < 0x80_0000_0000_0000 {
        4
    } else if n < 0x100_0000_0000_0000 {
        8
    } else if n < 0x200_0000_0000_0000 {
        16
    } else if n < 0x400_0000_0000_0000 {
        32
    } else if n < 0x800_0000_0000_0000 {
        64
    } else if n < 0x1000_0000_0000_0000 {
        128
    } else if n < 0x2000_0000_0000_0000 {
        256
    } else if n < 0x4000_0000_0000_0000 {
        512
    } else if n < 0x8000_0000_0000_0000 {
        1024
    } else {
        2048
    }
}

fn to_nearest_double(n: u64) -> (r: u128)
    ensures
        r == nearest_double(n as nat),
        r <= 0x1_0000_0000_0000_0000,
{
    let unit: u128 = step_at(n);
    let count: u128 = round_div(n as u128, unit);
    assert(count * unit <= 0x1_0000_0000_0000_0000) by (nonlinear_arith)
        requires
            1 <= unit <= 2048,
            count <= n as u128 / unit + 1,
            n as u128 <= 0xffff_ffff_ffff_ffff,
            (n as u128 / unit) * unit <= n as u128,
            unit == 1 ==> count == n as u128,
            (n as u128) < 0x20_0000_0000_0000 ==> unit == 1,
            unit > 1 ==> (n as u128 / unit + 1) * unit <= 0x1_0000_0000_0000_0000,
    ;
    count * unit
}

fn push_two_decimals(out: &mut String, n: u128, unit: u128)
    requires
        unit > 0,
        n <= 0x1_0000_0000_0000_0000,
    ensures
        final(out)@ == old(out)@ + two_decimals(n as nat, unit as nat),
{
    let hundredths: u128 = round_div(n * 100, unit);
    push_decimal(out, hundredths / 100);
    out.append(".");
    out.append(digit_str((hundredths / 10 % 10) as u8));
    out.append(digit_str((hundredths % 10) as u8));
    proof {
        reveal_strlit(".");
        assert(out@ =~= old(out)@ + two_decimals(n as nat, unit as nat));
    }
}

/// Writes a size given in bytes.
pub fn human_size(bytes_size: u64) -> (r: String)
    ensures
        r@ == size_text(bytes_size),
{
    let mut out = String::new();
    if (bytes_size as u128) < KIB {
        push_decimal(&mut out, bytes_size as u128);
        out.append(" B");
    } else if (bytes_size as u128) < MIB {
        push_two_decimals(&mut out, to_nearest_double(bytes_size), KIB);
        out.append(" KB");
    } else if (bytes_size as u128) < GIB {
        push_two_decimals(&mut out, to_nearest_double(bytes_size), MIB);
        out.append(" MB");
    } else {
        push_two_decimals(&mut out, to_nearest_double(bytes_size), GIB);
        out.append(" GB");
    }
    assert(out@ =~= size_text(bytes_size));
    out
}

} // verus!
