//! Textual result records, one line per published sample.
//!
//! A record is `<tick_index>,<temperature>,<uptime_ms>`: the tick index
//! counting down, the converted temperature in degrees Celsius with two
//! fractional digits, and the milliseconds since process start.

use vstd::prelude::*;
use crate::adc::RAW_LIMIT;
use crate::adc::convert_spec;
use crate::adc::convert_temperature;
use crate::command::COMMA;

verus! {

/// Decimal numeral of `n`, most significant digit first, no leading
/// zeros, a single `0` for zero.
pub open spec fn dec_digits(n: nat) -> Seq<u8>
    decreases n,
{
    if n < 10 {
        seq![(48 + n) as u8]
    } else {
        dec_digits(n / 10).push((48 + n % 10) as u8)
    }
}

/// Magnitude of a centidegree temperature.
pub open spec fn abs_centi(c: i32) -> nat {
    if c < 0 {
        (-(c as int)) as nat
    } else {
        c as nat
    }
}

/// Text of a centidegree temperature: optional minus sign, the whole
/// degrees, a point, and exactly two fractional digits.
pub open spec fn temp_text(c: i32) -> Seq<u8> {
    let a = abs_centi(c);
    (if c < 0 {
        seq![45u8]
    } else {
        Seq::<u8>::empty()
    }) + dec_digits(a / 100) + seq![46u8] + seq![
        (48 + (a % 100) / 10) as u8,
        (48 + (a % 100) % 10) as u8,
    ]
}

/// One published record: tick index, temperature text and uptime,
/// comma-separated, no trailing delimiter.
pub open spec fn record_spec(tick: u16, temp_centi: i32, uptime_ms: u64) -> Seq<u8> {
    dec_digits(tick as nat) + seq![COMMA] + temp_text(temp_centi) + seq![COMMA] + dec_digits(
        uptime_ms as nat,
    )
}

/// Appends the decimal numeral of `n`.
fn push_dec(out: &mut Vec<u8>, n: u64)
    ensures
        final(out)@ == old(out)@ + dec_digits(n as nat),
    decreases n,
{
    if n < 10 {
        out.push(48 + n as u8);
        proof {
            assert(out@ =~= old(out)@ + dec_digits(n as nat));
        }
    } else {
        push_dec(out, n / 10);
        out.push(48 + (n % 10) as u8);
        proof {
            assert(out@ =~= old(out)@ + dec_digits(n as nat));
        }
    }
}

/// Renders the record line for one tick from an already-converted
/// temperature.
pub fn format_record(tick: u16, temp_centi: i32, uptime_ms: u64) -> (r: Vec<u8>)
    ensures
        r@ == record_spec(tick, temp_centi, uptime_ms),
{
    let mut out: Vec<u8> = Vec::new();
    push_dec(&mut out, tick as u64);
    out.push(COMMA);
    let c: i64 = temp_centi as i64;
    if c < 0 {
        out.push(45);
    }
    let a: u64 = if c < 0 {
        (-c) as u64
    } else {
        c as u64
    };
    proof {
        assert(a == abs_centi(temp_centi));
    }
    push_dec(&mut out, a / 100);
    out.push(46);
    let frac: u64 = a % 100;
    out.push(48 + (frac / 10) as u8);
    out.push(48 + (frac % 10) as u8);
    out.push(COMMA);
    push_dec(&mut out, uptime_ms);
    proof {
        assert(out@ =~= record_spec(tick, temp_centi, uptime_ms));
    }
    out
}

/// Builds the record published for one tick: converts the raw reading
/// and renders the line.
pub fn make_record(tick: u16, raw: u16, uptime_ms: u64) -> (r: Vec<u8>)
    requires
        raw < RAW_LIMIT,
    ensures
        r@ == record_spec(tick, convert_spec(raw) as i32, uptime_ms),
{
    let t = convert_temperature(raw);
    format_record(tick, t, uptime_ms)
}

} // verus!
