//! The text feed: one bar per line,
//! `YYYYMMDD HHMMSS<SEP>open<SEP>high<SEP>low<SEP>close<SEP>volume`,
//! where `<SEP>` is `;` if the line holds one and `,` otherwise.

use vstd::prelude::*;
use vstd::slice::slice_subrange;
use vstd::string::StringSliceAdditionalSpecFns;
use crate::calendar::{civil_to_ts, ts_of_nanos, utc_nanos_of_civil};
use crate::types::OHLCV;

verus! {

/// Why a line gave no bar.
#[derive(Copy, Clone, Debug, PartialEq, Eq, Structural)]
pub enum ParseError {
    /// Fewer than six fields.
    MissingFields,
    /// The first field is not `YYYYMMDD HHMMSS`, or names no instant from
    /// the epoch on.
    Datetime,
    /// One of the four prices is not a decimal number.
    Price,
}

/// The byte `;`.
pub const SEMICOLON: u8 = 59;

/// The byte `,`.
pub const COMMA: u8 = 44;

/// The byte `.`.
pub const DOT: u8 = 46;

/// The byte of a space.
pub const SPACE: u8 = 32;

/// The byte `0`.
pub const ZERO: u8 = 48;

/// Above this a price's whole part saturates: a hundred thousand times as
/// much no longer fits 32 bits.
pub const WHOLE_CAP: u64 = 50_000;

/// An ASCII decimal digit.
pub open spec fn is_digit(b: u8) -> bool {
    48 <= b <= 57
}

/// Nothing but ASCII decimal digits.
pub open spec fn all_digits(s: Seq<u8>) -> bool {
    forall|i: int| 0 <= i < s.len() ==> is_digit(#[trigger] s[i])
}

/// The number that a string of decimal digits writes; zero for none.
pub open spec fn digits_value(s: Seq<u8>) -> nat
    decreases s.len(),
{
    if s.len() == 0 {
        0
    } else {
        digits_value(s.drop_last()) * 10 + (s.last() - 48) as nat
    }
}

/// Ten to the `n`.
pub open spec fn pow10(n: nat) -> nat
    decreases n,
{
    if n == 0 {
        1
    } else {
        10 * pow10((n - 1) as nat)
    }
}

/// Where `sep` first stands in `s`; the length of `s` if nowhere.
pub open spec fn next_sep(s: Seq<u8>, sep: u8) -> int
    decreases s.len(),
{
    if s.len() == 0 {
        0
    } else if s[0] == sep {
        0
    } else {
        1 + next_sep(s.skip(1), sep)
    }
}

/// The fields of `s`: what stands between one `sep` and the next. A string
/// without `sep` is one field; `n` separators make `n + 1` fields.
pub open spec fn fields(s: Seq<u8>, sep: u8) -> Seq<Seq<u8>>
    decreases s.len(),
{
    let i = next_sep(s, sep);
    if 0 <= i < s.len() {
        seq![s.take(i)] + fields(s.skip(i + 1), sep)
    } else {
        seq![s]
    }
}

/// The separator of a line: `;` where the line holds one, else `,`.
pub open spec fn separator(line: Seq<u8>) -> u8 {
    if line.contains(SEMICOLON) {
        SEMICOLON
    } else {
        COMMA
    }
}

/// The date and time that `YYYYMMDD HHMMSS` writes, as year, month, day,
/// hour, minute and second; `None` for any other text.
pub open spec fn datetime_fields(s: Seq<u8>) -> Option<(i32, u32, u32, u32, u32, u32)> {
    if s.len() == 15 && all_digits(s.take(8)) && s[8] == SPACE && all_digits(s.skip(9)) {
        Some(
            (
                digits_value(s.subrange(0, 4)) as i32,
                digits_value(s.subrange(4, 6)) as u32,
                digits_value(s.subrange(6, 8)) as u32,
                digits_value(s.subrange(9, 11)) as u32,
                digits_value(s.subrange(11, 13)) as u32,
                digits_value(s.subrange(13, 15)) as u32,
            ),
        )
    } else {
        None
    }
}

/// The day key that opens a line: its first eight bytes, where they are
/// digits, read as the number `YYYYMMDD`.
pub open spec fn line_day_key(line: Seq<u8>) -> Option<u32> {
    if line.len() >= 8 && all_digits(line.take(8)) {
        Some(digits_value(line.take(8)) as u32)
    } else {
        None
    }
}

/// The first five digits after the decimal point, zeros standing in for
/// digits that are not there.
pub open spec fn five_decimals(fraction: Seq<u8>) -> Seq<u8> {
    Seq::new(
        5,
        |j: int|
            if j < fraction.len() {
                fraction[j]
            } else {
                ZERO
            },
    )
}

/// The whole part of a decimal: what stands before the point.
pub open spec fn whole_part(s: Seq<u8>) -> Seq<u8> {
    s.take(next_sep(s, DOT))
}

/// The fraction of a decimal: what stands after the point.
pub open spec fn fraction_part(s: Seq<u8>) -> Seq<u8> {
    if next_sep(s, DOT) < s.len() {
        s.skip(next_sep(s, DOT) + 1)
    } else {
        Seq::empty()
    }
}

/// A decimal number: digits, then possibly a point and digits, with a digit
/// somewhere.
pub open spec fn is_decimal(s: Seq<u8>) -> bool {
    &&& all_digits(whole_part(s))
    &&& all_digits(fraction_part(s))
    &&& whole_part(s).len() + fraction_part(s).len() > 0
}

/// A decimal times 100,000 with what is left of a unit cut off.
pub open spec fn scaled_decimal(s: Seq<u8>) -> nat {
    digits_value(whole_part(s)) * 100_000 + digits_value(five_decimals(fraction_part(s)))
}

/// The fixed-point price that a decimal writes: the decimal times 100,000,
/// cut off to a whole number, and `u32::MAX` where that does not fit.
/// `None` for what is no decimal.
pub open spec fn price_value(s: Seq<u8>) -> Option<u32> {
    if is_decimal(s) {
        if scaled_decimal(s) <= u32::MAX {
            Some(scaled_decimal(s) as u32)
        } else {
            Some(u32::MAX)
        }
    } else {
        None
    }
}

/// The volume that a field writes: its number where it is made of digits
/// and fits 32 bits, else zero.
pub open spec fn volume_value(s: Seq<u8>) -> u32 {
    if s.len() > 0 && all_digits(s) && digits_value(s) <= u32::MAX {
        digits_value(s) as u32
    } else {
        0
    }
}

/// The bar that a timestamp, four prices and a volume make, and the error
/// where the timestamp or a price is missing.
pub open spec fn assembled(
    ts: Option<u64>,
    open: Option<u32>,
    high: Option<u32>,
    low: Option<u32>,
    close: Option<u32>,
    volume: u32,
    symbol_id: u16,
) -> Result<OHLCV, ParseError> {
    if ts is None {
        Err(ParseError::Datetime)
    } else if open is None || high is None || low is None || close is None {
        Err(ParseError::Price)
    } else {
        Ok(
            OHLCV {
                ts: ts->0,
                open: open->0,
                high: high->0,
                low: low->0,
                close: close->0,
                volume,
                symbol_id,
            },
        )
    }
}

/// The timestamp that the datetime field of a line writes.
pub open spec fn datetime_ts(s: Seq<u8>) -> Option<u64> {
    match datetime_fields(s) {
        Some((year, month, day, hour, minute, second)) => ts_of_nanos(
            utc_nanos_of_civil(year, month, day, hour, minute, second),
        ),
        None => None,
    }
}

/// What a line of the feed stands for: the bar, or why there is none.
pub open spec fn parsed_line(line: Seq<u8>, symbol_id: u16) -> Result<OHLCV, ParseError> {
    let f = fields(line, separator(line));
    if f.len() < 6 {
        Err(ParseError::MissingFields)
    } else {
        assembled(
            datetime_ts(f[0]),
            price_value(f[1]),
            price_value(f[2]),
            price_value(f[3]),
            price_value(f[4]),
            volume_value(f[5]),
            symbol_id,
        )
    }
}

/// `next_sep` is the first place where `sep` stands.
pub proof fn lemma_next_sep(s: Seq<u8>, sep: u8, at: int)
    requires
        0 <= at <= s.len(),
        forall|j: int| 0 <= j < at ==> s[j] != sep,
        at == s.len() || s[at] == sep,
    ensures
        next_sep(s, sep) == at,
    decreases at,
{
    if at > 0 {
        lemma_next_sep(s.skip(1), sep, at - 1);
    }
}

/// Before `next_sep` there is no `sep`, and at it there is one unless it is
/// the end.
pub proof fn lemma_next_sep_is_first(s: Seq<u8>, sep: u8)
    ensures
        0 <= next_sep(s, sep) <= s.len(),
        forall|j: int| 0 <= j < next_sep(s, sep) ==> s[j] != sep,
        next_sep(s, sep) < s.len() ==> s[next_sep(s, sep)] == sep,
    decreases s.len(),
{
    if s.len() > 0 && s[0] != sep {
        let rest = s.skip(1);
        lemma_next_sep_is_first(rest, sep);
        assert forall|j: int| 0 <= j < next_sep(s, sep) implies s[j] != sep by {
            if j > 0 {
                assert(rest[j - 1] == s[j]);
            }
        }
        if next_sep(s, sep) < s.len() {
            assert(rest[next_sep(rest, sep)] == s[next_sep(s, sep)]);
        }
    }
}

/// Fields put together again with `sep` between them.
pub open spec fn joined(parts: Seq<Seq<u8>>, sep: u8) -> Seq<u8>
    decreases parts.len(),
{
    if parts.len() == 0 {
        Seq::empty()
    } else if parts.len() == 1 {
        parts[0]
    } else {
        parts[0] + seq![sep] + joined(parts.skip(1), sep)
    }
}

/// The fields of a string are what it takes to write the string: there is
/// at least one, none holds `sep`, and joined with `sep` they give the
/// string back.
pub proof fn lemma_fields_rejoin(s: Seq<u8>, sep: u8)
    ensures
        fields(s, sep).len() >= 1,
        forall|k: int| 0 <= k < fields(s, sep).len() ==> !(#[trigger] fields(s, sep)[k]).contains(sep),
        joined(fields(s, sep), sep) == s,
    decreases s.len(),
{
    lemma_next_sep_is_first(s, sep);
    let i = next_sep(s, sep);
    let all = fields(s, sep);
    if i < s.len() {
        let head = s.take(i);
        let rest = s.skip(i + 1);
        let tail = fields(rest, sep);
        lemma_fields_rejoin(rest, sep);
        assert(all =~= seq![head] + tail);
        assert(all.skip(1) =~= tail);
        assert(all[0] == head);
        assert(joined(all, sep) == head + seq![sep] + rest);
        assert(head + seq![sep] + rest =~= s);
        assert forall|k: int| 0 <= k < all.len() implies !(#[trigger] all[k]).contains(sep) by {
            if k == 0 {
                if head.contains(sep) {
                    let j = choose|j: int| 0 <= j < head.len() && head[j] == sep;
                    assert(s[j] == sep);
                }
            } else {
                assert(all[k] == tail[k - 1]);
            }
        }
    } else {
        assert(all =~= seq![s]);
        if s.contains(sep) {
            let j = choose|j: int| 0 <= j < s.len() && s[j] == sep;
        }
    }
}

/// A number of `n` digits is less than ten to the `n`.
pub proof fn lemma_digits_bound(s: Seq<u8>)
    requires
        all_digits(s),
    ensures
        digits_value(s) < pow10(s.len()),
    decreases s.len(),
{
    if s.len() > 0 {
        lemma_digits_bound(s.drop_last());
    }
}

/// Digits written after digits: the first number moves up by as many places
/// as the second has.
pub proof fn lemma_digits_concat(a: Seq<u8>, b: Seq<u8>)
    ensures
        digits_value(a + b) == digits_value(a) * pow10(b.len()) + digits_value(b),
    decreases b.len(),
{
    if b.len() == 0 {
        assert(a + b =~= a);
        assert(pow10(0) == 1);
        assert(digits_value(b) == 0);
        assert(digits_value(a) * 1 == digits_value(a));
    } else {
        lemma_digits_concat(a, b.drop_last());
        assert((a + b).drop_last() =~= a + b.drop_last());
        assert((a + b).last() == b.last());
        let p = pow10((b.len() - 1) as nat);
        let va = digits_value(a);
        let vb = digits_value(b.drop_last());
        assert(pow10(b.len()) == 10 * p);
        assert((va * p + vb) * 10 == va * (10 * p) + vb * 10) by (nonlinear_arith);
        assert(digits_value(a + b.drop_last()) == va * p + vb);
        assert(digits_value(a + b) == digits_value((a + b).drop_last()) * 10 + ((a + b).last()
            - 48) as nat);
        assert(digits_value(b) == vb * 10 + (b.last() - 48) as nat);
    }
}

/// Ten to a sum is the product of the powers.
pub proof fn lemma_pow10_add(a: nat, b: nat)
    ensures
        pow10(a + b) == pow10(a) * pow10(b),
    decreases a,
{
    if a == 0 {
        assert(pow10(0) == 1);
        assert(1 * pow10(b) == pow10(b));
    } else {
        lemma_pow10_add((a - 1) as nat, b);
        let x = pow10((a - 1) as nat);
        let y = pow10(b);
        assert(pow10(a + b) == 10 * pow10((a + b - 1) as nat));
        assert(10 * (x * y) == (10 * x) * y) by (nonlinear_arith);
    }
}

/// Zeros write zero.
pub proof fn lemma_zeros_value(s: Seq<u8>)
    requires
        forall|i: int| 0 <= i < s.len() ==> s[i] == ZERO,
    ensures
        digits_value(s) == 0,
    decreases s.len(),
{
    if s.len() > 0 {
        lemma_zeros_value(s.drop_last());
    }
}

/// The stored price is the written decimal times 100,000 with less than one
/// unit cut off: dividing it by 100,000 again comes within a hundred
/// thousandth of the decimal. The decimal is `mantissa / 10^k`, for `k`
/// digits after the point, and must be small enough for 32 bits.
pub proof fn lemma_price_within_unit(s: Seq<u8>)
    requires
        is_decimal(s),
        scaled_decimal(s) <= u32::MAX,
    ensures
        price_value(s) is Some,
        ({
            let k = fraction_part(s).len();
            let mantissa = digits_value(whole_part(s)) * pow10(k) + digits_value(fraction_part(s));
            let stored = price_value(s)->0 as nat;
            stored * pow10(k) <= mantissa * 100_000 < (stored + 1) * pow10(k)
        }),
{
    let f = fraction_part(s);
    let k = f.len();
    let whole = digits_value(whole_part(s));
    let five = digits_value(five_decimals(f));
    let pk = pow10(k);
    reveal_with_fuel(pow10, 7);
    assert(pow10(5) == 100_000);
    if k <= 5 {
        let zeros = Seq::new((5 - k) as nat, |j: int| ZERO);
        assert(five_decimals(f) =~= f + zeros);
        lemma_digits_concat(f, zeros);
        lemma_zeros_value(zeros);
        lemma_pow10_add((5 - k) as nat, k);
        let vf = digits_value(f);
        let pz = pow10((5 - k) as nat);
        assert(five == vf * pz);
        assert(pz * pk == 100_000);
        assert((whole * 100_000 + vf * pz) * pk == (whole * pk + vf) * 100_000) by (nonlinear_arith)
            requires
                pz * pk == 100_000,
        ;
        assert((whole * 100_000 + five + 1) * pk > (whole * 100_000 + five) * pk) by (nonlinear_arith)
            requires
                pk > 0,
        ;
    } else {
        let head = f.take(5);
        let tail = f.skip(5);
        assert(five_decimals(f) =~= head);
        assert(f =~= head + tail);
        lemma_digits_concat(head, tail);
        lemma_digits_bound(tail);
        lemma_pow10_add(5, (k - 5) as nat);
        let pt = pow10((k - 5) as nat);
        let r = digits_value(tail);
        assert(digits_value(f) == five * pt + r);
        assert(pk == 100_000 * pt);
        assert((whole * 100_000 + five) * pk <= (whole * pk + (five * pt + r)) * 100_000
            < (whole * 100_000 + five + 1) * pk) by (nonlinear_arith)
            requires
                pk == 100_000 * pt,
                0 <= r < pt,
        ;
    }
}

/// Whether `byte` stands anywhere in `s`.
fn has_byte(s: &[u8], byte: u8) -> (found: bool)
    ensures
        found == s@.contains(byte),
{
    let mut i: usize = 0;
    while i < s.len()
        invariant
            i <= s.len(),
            forall|j: int| 0 <= j < i ==> s@[j] != byte,
        decreases s.len() - i,
    {
        if s[i] == byte {
            return true;
        }
        i = i + 1;
    }
    false
}

/// Where `sep` first stands in `s` from `from` on; the length of `s` if nowhere.
fn find_sep(s: &[u8], from: usize, sep: u8) -> (at: usize)
    requires
        from <= s.len(),
    ensures
        from <= at <= s.len(),
        at - from == next_sep(s@.skip(from as int), sep),
{
    let mut i: usize = from;
    while i < s.len() && s[i] != sep
        invariant
            from <= i <= s.len(),
            forall|j: int| from <= j < i ==> s@[j] != sep,
        decreases s.len() - i,
    {
        i = i + 1;
    }
    proof {
        lemma_next_sep(s@.skip(from as int), sep, i - from);
    }
    i
}

/// The bounds of the fields of `line`, each as the place of its first byte
/// and the place after its last.
fn split_fields(line: &[u8], sep: u8) -> (bounds: Vec<(usize, usize)>)
    ensures
        bounds@.len() == fields(line@, sep).len(),
        forall|k: int|
            0 <= k < bounds@.len() ==> {
                &&& (#[trigger] bounds@[k]).0 <= bounds@[k].1 <= line@.len()
                &&& line@.subrange(bounds@[k].0 as int, bounds@[k].1 as int) == fields(
                    line@,
                    sep,
                )[k]
            },
{
    let mut bounds: Vec<(usize, usize)> = Vec::new();
    let mut pos: usize = 0;
    let ghost mut done: Seq<Seq<u8>> = Seq::empty();
    assert(line@.skip(0) =~= line@);
    loop
        invariant_except_break
            fields(line@, sep) == done + fields(line@.skip(pos as int), sep),
        invariant
            pos <= line.len(),
            done.len() == bounds@.len(),
            forall|k: int|
                0 <= k < bounds@.len() ==> {
                    &&& (#[trigger] bounds@[k]).0 <= bounds@[k].1 <= line@.len()
                    &&& line@.subrange(bounds@[k].0 as int, bounds@[k].1 as int) == done[k]
                },
        ensures
            bounds@.len() == fields(line@, sep).len(),
            forall|k: int|
                0 <= k < bounds@.len() ==> {
                    &&& (#[trigger] bounds@[k]).0 <= bounds@[k].1 <= line@.len()
                    &&& line@.subrange(bounds@[k].0 as int, bounds@[k].1 as int) == fields(
                        line@,
                        sep,
                    )[k]
                },
        decreases line.len() - pos,
    {
        let at = find_sep(line, pos, sep);
        let ghost rest = line@.skip(pos as int);
        bounds.push((pos, at));
        proof {
            assert(rest.take(at - pos) =~= line@.subrange(pos as int, at as int));
            if at < line.len() {
                assert(rest.skip(at - pos + 1) =~= line@.skip(at + 1));
                assert(done + (seq![rest.take(at - pos)] + fields(line@.skip(at + 1), sep))
                    =~= done.push(line@.subrange(pos as int, at as int)) + fields(
                    line@.skip(at + 1),
                    sep,
                ));
            } else {
                assert(rest =~= line@.subrange(pos as int, at as int));
                assert(done + seq![rest] =~= done.push(line@.subrange(pos as int, at as int)));
            }
            done = done.push(line@.subrange(pos as int, at as int));
        }
        if at >= line.len() {
            assert(fields(line@, sep) == done);
            break ;
        }
        pos = at + 1;
    }
    bounds
}

/// The number that the digits of `s` write, or `cap` where that is more;
/// `None` where `s` holds anything but digits.
fn parse_digits(s: &[u8], cap: u64) -> (value: Option<u64>)
    requires
        cap <= 1_000_000_000_000_000_000,
    ensures
        value is Some <==> all_digits(s@),
        value matches Some(v) ==> v == if digits_value(s@) <= cap {
            digits_value(s@)
        } else {
            cap as nat
        },
{
    let mut acc: u64 = 0;
    let mut i: usize = 0;
    assert(s@.take(0) =~= Seq::<u8>::empty());
    while i < s.len()
        invariant
            i <= s.len(),
            cap <= 1_000_000_000_000_000_000,
            all_digits(s@.take(i as int)),
            acc == if digits_value(s@.take(i as int)) <= cap {
                digits_value(s@.take(i as int))
            } else {
                cap as nat
            },
        decreases s.len() - i,
    {
        let b = s[i];
        if b < 48 || b > 57 {
            assert(!is_digit(s@[i as int]));
            return None;
        }
        proof {
            assert(s@.take(i as int + 1).drop_last() =~= s@.take(i as int));
            assert(s@.take(i as int + 1).last() == b);
            assert forall|j: int| 0 <= j < i + 1 implies is_digit(
                #[trigger] s@.take(i as int + 1)[j],
            ) by {
                if j < i {
                    assert(s@.take(i as int)[j] == s@[j]);
                }
            }
        }
        let next = acc * 10 + (b - 48) as u64;
        acc = if next > cap {
            cap
        } else {
            next
        };
        i = i + 1;
    }
    assert(s@.take(i as int) =~= s@);
    Some(acc)
}

/// Reads a price: a decimal number, scaled by 100,000 and cut off.
pub fn parse_price(s: &[u8]) -> (price: Option<u32>)
    ensures
        price == price_value(s@),
{
    let dot = find_sep(s, 0, DOT);
    assert(s@.skip(0) =~= s@);
    let whole = slice_subrange(s, 0, dot);
    let fraction = if dot < s.len() {
        slice_subrange(s, dot + 1, s.len())
    } else {
        slice_subrange(s, s.len(), s.len())
    };
    assert(whole@ =~= whole_part(s@));
    assert(fraction@ =~= fraction_part(s@));
    if whole.len() + fraction.len() == 0 {
        return None;
    }
    let units = match parse_digits(whole, WHOLE_CAP) {
        Some(v) => v,
        None => {
            return None;
        },
    };
    if parse_digits(fraction, 0).is_none() {
        return None;
    }
    let mut decimals: u64 = 0;
    let mut j: usize = 0;
    let ghost padded = five_decimals(fraction@);
    assert(padded.take(0) =~= Seq::<u8>::empty());
    assert(all_digits(padded));
    while j < 5
        invariant
            j <= 5,
            padded == five_decimals(fraction@),
            all_digits(padded),
            all_digits(fraction@),
            decimals == digits_value(padded.take(j as int)),
            decimals < pow10(j as nat),
        decreases 5 - j,
    {
        let digit: u8 = if j < fraction.len() {
            fraction[j]
        } else {
            ZERO
        };
        proof {
            assert(digit == padded[j as int]);
            assert(is_digit(padded[j as int]));
            assert(padded.take(j as int + 1).drop_last() =~= padded.take(j as int));
            assert(padded.take(j as int + 1).last() == digit);
            reveal_with_fuel(pow10, 7);
        }
        decimals = decimals * 10 + (digit - 48) as u64;
        j = j + 1;
    }
    proof {
        assert(padded.take(5) =~= padded);
        reveal_with_fuel(pow10, 7);
        assert(pow10(5) == 100_000);
    }
    let total: u64 = units * 100_000 + decimals;
    if total > u32::MAX as u64 {
        Some(u32::MAX)
    } else {
        Some(total as u32)
    }
}

/// Reads a volume: a number of 32 bits, and zero for anything else.
pub fn parse_volume(s: &[u8]) -> (volume: u32)
    ensures
        volume == volume_value(s@),
{
    if s.len() == 0 {
        return 0;
    }
    match parse_digits(s, 4_294_967_296) {
        Some(v) => if v <= u32::MAX as u64 {
            v as u32
        } else {
            0
        },
        None => 0,
    }
}

/// The number that `n` digits at the start of `s` write, for `n` up to nine.
fn read_digits(s: &[u8], from: usize, to: usize) -> (value: u32)
    requires
        from <= to <= s.len(),
        to - from <= 9,
        all_digits(s@.subrange(from as int, to as int)),
    ensures
        value == digits_value(s@.subrange(from as int, to as int)),
{
    let part = slice_subrange(s, from, to);
    proof {
        lemma_digits_bound(part@);
        reveal_with_fuel(pow10, 10);
    }
    match parse_digits(part, 1_000_000_000) {
        Some(v) => v as u32,
        None => 0,
    }
}

/// Reads the date and time of `YYYYMMDD HHMMSS`.
pub fn parse_datetime_fields(s: &[u8]) -> (fields: Option<(i32, u32, u32, u32, u32, u32)>)
    ensures
        fields == datetime_fields(s@),
{
    if s.len() != 15 {
        return None;
    }
    let date = slice_subrange(s, 0, 8);
    let time = slice_subrange(s, 9, 15);
    assert(date@ =~= s@.take(8));
    assert(time@ =~= s@.skip(9));
    if parse_digits(date, 0).is_none() || s[8] != SPACE || parse_digits(time, 0).is_none() {
        return None;
    }
    proof {
        assert forall|a: int, b: int| 0 <= a <= b <= 8 implies all_digits(
            #[trigger] s@.subrange(a, b),
        ) by {
            assert forall|i: int| 0 <= i < b - a implies is_digit(
                #[trigger] s@.subrange(a, b)[i],
            ) by {
                assert(s@.take(8)[a + i] == s@[a + i]);
            }
        }
        assert forall|a: int, b: int| 9 <= a <= b <= 15 implies all_digits(
            #[trigger] s@.subrange(a, b),
        ) by {
            assert forall|i: int| 0 <= i < b - a implies is_digit(
                #[trigger] s@.subrange(a, b)[i],
            ) by {
                assert(s@.skip(9)[a + i - 9] == s@[a + i]);
            }
        }
    }
    let year = read_digits(s, 0, 4);
    let month = read_digits(s, 4, 6);
    let day = read_digits(s, 6, 8);
    let hour = read_digits(s, 9, 11);
    let minute = read_digits(s, 11, 13);
    let second = read_digits(s, 13, 15);
    proof {
        lemma_digits_bound(s@.subrange(0, 4));
        reveal_with_fuel(pow10, 5);
    }
    Some((year as i32, month, day, hour, minute, second))
}

/// Reads the day key that opens a line: eight digits, `YYYYMMDD`.
pub fn parse_day_key(line: &[u8]) -> (key: Option<u32>)
    ensures
        key == line_day_key(line@),
{
    if line.len() < 8 {
        return None;
    }
    let head = slice_subrange(line, 0, 8);
    assert(head@ =~= line@.take(8));
    match parse_digits(head, 1_000_000_000) {
        Some(v) => {
            proof {
                lemma_digits_bound(head@);
                reveal_with_fuel(pow10, 9);
            }
            Some(v as u32)
        },
        None => None,
    }
}

/// Puts a bar together from its parsed parts: the timestamp, the four
/// prices, the volume and the symbol.
pub fn assemble_bar(
    ts: Option<u64>,
    open: Option<u32>,
    high: Option<u32>,
    low: Option<u32>,
    close: Option<u32>,
    volume: u32,
    symbol_id: u16,
) -> (bar: Result<OHLCV, ParseError>)
    ensures
        bar == assembled(ts, open, high, low, close, volume, symbol_id),
{
    let ts = match ts {
        Some(ts) => ts,
        None => {
            return Err(ParseError::Datetime);
        },
    };
    match (open, high, low, close) {
        (Some(open), Some(high), Some(low), Some(close)) => Ok(
            OHLCV { ts, open, high, low, close, volume, symbol_id },
        ),
        _ => Err(ParseError::Price),
    }
}

/// Reads the timestamp of a datetime field.
pub fn parse_timestamp(s: &[u8]) -> (ts: Option<u64>)
    ensures
        ts == datetime_ts(s@),
{
    match parse_datetime_fields(s) {
        Some((year, month, day, hour, minute, second)) => civil_to_ts(
            year,
            month,
            day,
            hour,
            minute,
            second,
        ),
        None => None,
    }
}

/// Reads one line of the feed, given as bytes, into a bar of `symbol_id`.
pub fn parse_line_bytes(line: &[u8], symbol_id: u16) -> (bar: Result<OHLCV, ParseError>)
    ensures
        bar == parsed_line(line@, symbol_id),
{
    let sep = if has_byte(line, SEMICOLON) {
        SEMICOLON
    } else {
        COMMA
    };
    let bounds = split_fields(line, sep);
    if bounds.len() < 6 {
        return Err(ParseError::MissingFields);
    }
    let ts = parse_timestamp(slice_subrange(line, bounds[0].0, bounds[0].1));
    let open = parse_price(slice_subrange(line, bounds[1].0, bounds[1].1));
    let high = parse_price(slice_subrange(line, bounds[2].0, bounds[2].1));
    let low = parse_price(slice_subrange(line, bounds[3].0, bounds[3].1));
    let close = parse_price(slice_subrange(line, bounds[4].0, bounds[4].1));
    let volume = parse_volume(slice_subrange(line, bounds[5].0, bounds[5].1));
    assemble_bar(ts, open, high, low, close, volume, symbol_id)
}

/// Reads one line of the feed into a bar of `symbol_id`. The datetime is
/// `YYYYMMDD HHMMSS` in UTC; a price is a decimal, kept to five places; a
/// volume that is no number counts as zero; any other fault rejects the line.
pub fn parse_line(line: &str, symbol_id: u16) -> (bar: Result<OHLCV, ParseError>)
    ensures
        bar == parsed_line(line.spec_bytes(), symbol_id),
{
    parse_line_bytes(line.as_bytes(), symbol_id)
}

} // verus!
