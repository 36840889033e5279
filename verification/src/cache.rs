//! The window-position cache line: four comma-separated decimal
//! numbers, `x,y,width,height`.
//!
//! The surrounding process persists the window's last position and
//! size in a small text file; reading and writing that file is its
//! business. This module holds the text format itself: parsing a
//! cache line into the four values, and rendering the four values
//! back into a line.

use vstd::prelude::*;
use vstd::string::StringSliceAdditionalSpecFns;

verus! {

/// Whether `b` is an ASCII decimal digit (48..=57 are `0..=9`).
pub open spec fn is_digit(b: u8) -> bool {
    48 <= b <= 57
}

/// Whether every byte of `s` is a decimal digit.
pub open spec fn all_digits(s: Seq<u8>) -> bool {
    forall|i: int| 0 <= i < s.len() ==> is_digit(#[trigger] s[i])
}

/// The number a digit string denotes, most significant digit first.
pub open spec fn digits_val(s: Seq<u8>) -> int
    decreases s.len(),
{
    if s.len() == 0 {
        0
    } else {
        digits_val(s.drop_last()) * 10 + (s.last() - 48)
    }
}

/// Whether `s` is a decimal integer token as the cache accepts it: an
/// optional sign (`-` is 45, `+` is 43) followed by at least one
/// digit.
pub open spec fn int_token_ok(s: Seq<u8>) -> bool {
    if s.len() == 0 {
        false
    } else if s[0] == 45 || s[0] == 43 {
        s.len() > 1 && all_digits(s.subrange(1, s.len() as int))
    } else {
        all_digits(s)
    }
}

/// The value of a decimal integer token.
pub open spec fn int_token_val(s: Seq<u8>) -> int {
    if s.len() > 0 && s[0] == 45 {
        -digits_val(s.subrange(1, s.len() as int))
    } else if s.len() > 0 && s[0] == 43 {
        digits_val(s.subrange(1, s.len() as int))
    } else {
        digits_val(s)
    }
}

/// Whether `s` is an integer token whose value fits a 32-bit signed
/// integer, which is how every cache field is read.
pub open spec fn i32_token(s: Seq<u8>) -> bool {
    int_token_ok(s) && i32::MIN <= int_token_val(s) <= i32::MAX
}

/// The position of the first comma (44) of `s` at or after `i`, or
/// `s.len()` if there is none.
pub open spec fn next_comma(s: Seq<u8>, i: int) -> int
    decreases s.len() - i when 0 <= i <= s.len()
{
    if i >= s.len() {
        s.len() as int
    } else if s[i] == 44 {
        i
    } else {
        next_comma(s, i + 1)
    }
}

/// Bounds of [`next_comma`]: it points at the first comma at or after
/// `i`, or past the end.
pub proof fn lemma_next_comma(s: Seq<u8>, i: int)
    requires
        0 <= i <= s.len(),
    ensures
        i <= next_comma(s, i) <= s.len(),
        next_comma(s, i) < s.len() ==> s[next_comma(s, i)] == 44,
        forall|k: int| i <= k < next_comma(s, i) ==> s[k] != 44,
    decreases s.len() - i,
{
    if i < s.len() && s[i] != 44 {
        lemma_next_comma(s, i + 1);
    }
}

/// The comma-separated fields of `s` from position `i` on: the text
/// up to the next comma, then the fields after that comma. A line
/// with `n` commas has `n + 1` fields; fields may be empty.
pub open spec fn fields_from(s: Seq<u8>, i: int) -> Seq<Seq<u8>>
    decreases s.len() - i when 0 <= i <= s.len() via fields_from_decreases
{
    let j = next_comma(s, i);
    if j >= s.len() {
        seq![s.subrange(i, s.len() as int)]
    } else {
        seq![s.subrange(i, j)] + fields_from(s, j + 1)
    }
}

#[via_fn]
proof fn fields_from_decreases(s: Seq<u8>, i: int) {
    lemma_next_comma(s, i);
}

/// All comma-separated fields of the line `s`.
pub open spec fn split_commas(s: Seq<u8>) -> Seq<Seq<u8>> {
    fields_from(s, 0)
}

/// What a cache line means: exactly four fields, each a decimal
/// integer fitting an `i32`; the last two are reinterpreted as the
/// unsigned size, as the line itself was written from one. Anything
/// else is a stale or foreign file and means nothing.
pub open spec fn parse_pos_spec(s: Seq<u8>) -> Option<(i32, i32, u32, u32)> {
    let fs = split_commas(s);
    if fs.len() == 4 && i32_token(fs[0]) && i32_token(fs[1]) && i32_token(fs[2]) && i32_token(
        fs[3],
    ) {
        Some(
            (
                int_token_val(fs[0]) as i32,
                int_token_val(fs[1]) as i32,
                int_token_val(fs[2]) as i32 as u32,
                int_token_val(fs[3]) as i32 as u32,
            ),
        )
    } else {
        None
    }
}

/// A digit string denotes a non-negative number.
pub proof fn lemma_digits_val_nonneg(s: Seq<u8>)
    requires
        all_digits(s),
    ensures
        digits_val(s) >= 0,
    decreases s.len(),
{
    if s.len() > 0 {
        assert(all_digits(s.drop_last())) by {
            assert(forall|i: int|
                0 <= i < s.drop_last().len() ==> s.drop_last()[i] == #[trigger] s[i]);
        }
        lemma_digits_val_nonneg(s.drop_last());
    }
}

/// Appending one digit multiplies by ten and adds it.
proof fn lemma_digits_val_push(s: Seq<u8>, d: u8)
    ensures
        digits_val(s.push(d)) == digits_val(s) * 10 + (d - 48),
{
    assert(s.push(d).drop_last() =~= s);
    assert(s.push(d).last() == d);
}

/// A digit string is worth at least any of its prefixes: later digits
/// only grow the value.
pub proof fn lemma_digits_val_prefix(s: Seq<u8>, i: int)
    requires
        all_digits(s),
        0 <= i <= s.len(),
    ensures
        digits_val(s.subrange(0, i)) <= digits_val(s),
    decreases s.len() - i,
{
    if i < s.len() {
        let p = s.subrange(0, i);
        let q = s.subrange(0, i + 1);
        assert(q =~= p.push(s[i]));
        lemma_digits_val_push(p, s[i]);
        assert(all_digits(p)) by {
            assert(forall|k: int| 0 <= k < p.len() ==> p[k] == #[trigger] s[k]);
        }
        lemma_digits_val_nonneg(p);
        lemma_digits_val_prefix(s, i + 1);
    } else {
        assert(s.subrange(0, i) =~= s);
    }
}

/// Parses the digit run `bytes[start .. end)` as a number, refusing
/// an empty run, any non-digit byte, and any value above
/// `0x8000_0000` (the largest magnitude any cache field may carry).
fn parse_digits(bytes: &[u8], start: usize, end: usize) -> (r: Option<u64>)
    requires
        start <= end <= bytes@.len(),
    ensures
        ({
            let seg = bytes@.subrange(start as int, end as int);
            match r {
                Some(v) => seg.len() > 0 && all_digits(seg) && v == digits_val(seg) && v
                    <= 0x8000_0000,
                None => !(seg.len() > 0 && all_digits(seg) && digits_val(seg) <= 0x8000_0000),
            }
        }),
{
    let ghost seg = bytes@.subrange(start as int, end as int);
    if start == end {
        return None;
    }
    let mut acc: u64 = 0;
    let mut i: usize = start;
    while i < end
        invariant
            start <= i <= end <= bytes@.len(),
            seg == bytes@.subrange(start as int, end as int),
            acc <= 0x8000_0000,
            all_digits(seg.subrange(0, i - start)),
            acc == digits_val(seg.subrange(0, i - start)),
        decreases end - i,
    {
        let b = bytes[i];
        let ghost pre = seg.subrange(0, i - start);
        proof {
            assert(seg[i - start] == b);
            assert(seg.subrange(0, i + 1 - start) =~= pre.push(b));
            lemma_digits_val_push(pre, b);
        }
        if b < 48 || b > 57 {
            proof {
                assert(!is_digit(seg[i - start]));
            }
            return None;
        }
        let next: u64 = acc * 10 + ((b - 48) as u64);
        if next > 0x8000_0000 {
            proof {
                if all_digits(seg) {
                    lemma_digits_val_prefix(seg, i + 1 - start);
                }
            }
            return None;
        }
        acc = next;
        i = i + 1;
    }
    proof {
        assert(seg.subrange(0, end - start) =~= seg);
    }
    Some(acc)
}

/// Parses one cache field, `bytes[start .. end)`, as a signed 32-bit
/// decimal integer: an optional sign and digits, refused exactly when
/// malformed or out of the `i32` range.
fn parse_i32_field(bytes: &[u8], start: usize, end: usize) -> (r: Option<i32>)
    requires
        start <= end <= bytes@.len(),
    ensures
        ({
            let seg = bytes@.subrange(start as int, end as int);
            match r {
                Some(v) => i32_token(seg) && v == int_token_val(seg),
                None => !i32_token(seg),
            }
        }),
{
    let ghost seg = bytes@.subrange(start as int, end as int);
    if start == end {
        return None;
    }
    let b0 = bytes[start];
    proof {
        assert(seg[0] == b0);
        assert(seg.subrange(1, seg.len() as int) =~= bytes@.subrange(start as int + 1, end as int));
    }
    if b0 == 45 {
        match parse_digits(bytes, start + 1, end) {
            Some(v) => {
                proof {
                    lemma_digits_val_nonneg(seg.subrange(1, seg.len() as int));
                }
                let m: i64 = -(v as i64);
                Some(m as i32)
            },
            None => None,
        }
    } else if b0 == 43 {
        match parse_digits(bytes, start + 1, end) {
            Some(v) => {
                if v <= 0x7fff_ffff {
                    Some(v as i32)
                } else {
                    None
                }
            },
            None => None,
        }
    } else {
        match parse_digits(bytes, start, end) {
            Some(v) => {
                proof {
                    assert(seg =~= bytes@.subrange(start as int, end as int));
                }
                if v <= 0x7fff_ffff {
                    Some(v as i32)
                } else {
                    None
                }
            },
            None => None,
        }
    }
}

/// Finds the next comma at or after `start`.
fn find_comma(bytes: &[u8], start: usize) -> (j: usize)
    requires
        start <= bytes@.len(),
    ensures
        j == next_comma(bytes@, start as int),
        start <= j <= bytes@.len(),
{
    proof {
        lemma_next_comma(bytes@, start as int);
    }
    let n: usize = bytes.len();
    let mut i: usize = start;
    while i < n
        invariant
            start <= i <= n,
            n == bytes@.len(),
            next_comma(bytes@, start as int) == next_comma(bytes@, i as int),
        decreases n - i,
    {
        if bytes[i] == 44 {
            return i;
        }
        i = i + 1;
    }
    n
}

/// Reads a cache line back into position and size: exactly four
/// comma-separated decimal integers, each fitting an `i32`, with the
/// two size fields reinterpreted as unsigned, exactly as
/// [`parse_pos_spec`] says; any other line yields nothing.
pub fn parse_pos(s: &str) -> (r: Option<(i32, i32, u32, u32)>)
    ensures
        r == parse_pos_spec(s.spec_bytes()),
{
    let bytes = s.as_bytes();
    let n: usize = bytes.len();
    let ghost fs = split_commas(bytes@);
    let mut vals: Vec<i32> = Vec::new();
    let mut start: usize = 0;
    let ghost mut parsed: Seq<Seq<u8>> = Seq::empty();
    let mut ok: bool = true;
    loop
        invariant_except_break
            ok,
            n == bytes@.len(),
            start <= n,
            parsed.len() == vals@.len(),
            vals@.len() <= 4,
            fs == split_commas(bytes@),
            fs == parsed + fields_from(bytes@, start as int),
            forall|t: int|
                0 <= t < parsed.len() ==> i32_token(#[trigger] parsed[t]) && vals@[t]
                    == int_token_val(parsed[t]),
        ensures
            ok ==> vals@.len() == fs.len() && fs == parsed && vals@.len() <= 4 && (forall|t: int|
                0 <= t < parsed.len() ==> i32_token(#[trigger] parsed[t]) && vals@[t]
                    == int_token_val(parsed[t])),
            !ok ==> parse_pos_spec(bytes@) is None,
        decreases n - start,
    {
        let j = find_comma(bytes, start);
        proof {
            lemma_next_comma(bytes@, start as int);
        }
        if vals.len() == 4 {
            ok = false;
            proof {
                assert(fields_from(bytes@, start as int).len() >= 1);
                assert(fs.len() >= 5);
            }
            break ;
        }
        let ghost field_g = bytes@.subrange(start as int, j as int);
        proof {
            if j < n {
                assert(fields_from(bytes@, start as int)[0] == field_g);
            } else {
                assert(fields_from(bytes@, start as int) =~= seq![field_g]);
            }
            assert(fs[parsed.len() as int] == field_g);
        }
        match parse_i32_field(bytes, start, j) {
            None => {
                ok = false;
                proof {
                    assert(!i32_token(fs[parsed.len() as int]));
                    assert(parsed.len() < 4);
                }
                break ;
            },
            Some(v) => {
                vals.push(v);
                proof {
                    parsed = parsed.push(field_g);
                }
            },
        }
        if j == n {
            proof {
                assert(fields_from(bytes@, start as int) =~= seq![field_g]);
                assert(fs =~= parsed);
            }
            break ;
        }
        start = j + 1;
        proof {
            assert(fs =~= parsed + fields_from(bytes@, start as int));
        }
    }
    if !ok {
        return None;
    }
    if vals.len() == 4 {
        Some((vals[0], vals[1], vals[2] as u32, vals[3] as u32))
    } else {
        None
    }
}

/// The canonical decimal digits of `n >= 0`, most significant first,
/// with no sign and no leading zero (except for `0` itself).
pub open spec fn dec_digits(n: int) -> Seq<u8>
    decreases n when 0 <= n
{
    if n < 10 {
        seq![(48 + n) as u8]
    } else {
        dec_digits(n / 10).push((48 + n % 10) as u8)
    }
}

/// The canonical decimal text of a signed value: a leading `-` (45)
/// for a negative one, then the digits of its magnitude.
pub open spec fn fmt_i32(v: int) -> Seq<u8> {
    if v < 0 {
        seq![45u8] + dec_digits(-v)
    } else {
        dec_digits(v)
    }
}

/// The cache line for a position and size: the four values in
/// canonical decimal, separated by commas.
pub open spec fn format_pos_spec(x: int, y: int, w: int, h: int) -> Seq<u8> {
    fmt_i32(x) + seq![44u8] + fmt_i32(y) + seq![44u8] + dec_digits(w) + seq![44u8] + dec_digits(h)
}

/// Canonical digits are digits, and there is at least one.
pub proof fn lemma_dec_digits_wf(n: int)
    requires
        0 <= n,
    ensures
        dec_digits(n).len() >= 1,
        all_digits(dec_digits(n)),
    decreases n,
{
    if n >= 10 {
        lemma_dec_digits_wf(n / 10);
        let d = dec_digits(n);
        let p = dec_digits(n / 10);
        assert forall|i: int| 0 <= i < d.len() implies is_digit(d[i]) by {
            if i < p.len() {
                assert(d[i] == p[i]);
            }
        }
    }
}

/// Writing a number and reading it back gives the number: the digit
/// string of `n` is worth `n`.
pub proof fn lemma_dec_digits_val(n: int)
    requires
        0 <= n,
    ensures
        digits_val(dec_digits(n)) == n,
    decreases n,
{
    if n < 10 {
        let s = dec_digits(n);
        assert(s =~= seq![(48 + n) as u8]);
        assert(s.drop_last() =~= Seq::<u8>::empty());
        assert(digits_val(s.drop_last()) == 0);
        assert(s.last() == (48 + n) as u8);
        assert(digits_val(s) == 0 * 10 + ((48 + n) as u8 - 48));
        assert(digits_val(s) == n);
    } else {
        lemma_dec_digits_val(n / 10);
        lemma_digits_val_push(dec_digits(n / 10), (48 + n % 10) as u8);
        vstd::arithmetic::div_mod::lemma_fundamental_div_mod(n, 10);
        assert(dec_digits(n) == dec_digits(n / 10).push((48 + n % 10) as u8));
        assert(digits_val(dec_digits(n)) == digits_val(dec_digits(n / 10)) * 10 + ((48 + n % 10) as u8 - 48));
        assert(0 <= n % 10 < 10);
        assert(((48 + n % 10) as u8 - 48) == n % 10);
        assert(digits_val(dec_digits(n)) == (n / 10) * 10 + n % 10);
        assert((n / 10) * 10 + n % 10 == n);
    }
}

/// Appends the canonical decimal digits of `n`.
fn push_u32_dec(n: u32, out: &mut Vec<u8>)
    ensures
        final(out)@ == old(out)@ + dec_digits(n as int),
{
    let mut tmp: Vec<u8> = Vec::new();
    let mut m: u32 = n;
    if m == 0 {
        out.push(48);
        proof {
            assert(final(out)@ =~= old(out)@ + dec_digits(0));
        }
        return ;
    }
    while m > 0
        invariant
            m > 0 ==> dec_digits(n as int) == dec_digits(m as int) + tmp@.reverse(),
            m == 0 ==> dec_digits(n as int) == tmp@.reverse(),
        decreases m,
    {
        let d: u8 = 48 + ((m % 10) as u8);
        let ghost old_tmp = tmp@;
        tmp.push(d);
        proof {
            assert(tmp@.reverse() =~= seq![d] + old_tmp.reverse());
            if m >= 10 {
                assert(dec_digits(m as int) == dec_digits(m as int / 10).push(d));
                assert(dec_digits(m as int / 10) + tmp@.reverse() =~= dec_digits(m as int)
                    + old_tmp.reverse());
            } else {
                assert(dec_digits(m as int) =~= seq![d]);
                assert(tmp@.reverse() =~= dec_digits(m as int) + old_tmp.reverse());
            }
        }
        m = m / 10;
    }
    let k: usize = tmp.len();
    let mut idx: usize = 0;
    while idx < k
        invariant
            k == tmp@.len(),
            idx <= k,
            dec_digits(n as int) == tmp@.reverse(),
            out@ == old(out)@ + tmp@.reverse().subrange(0, idx as int),
        decreases k - idx,
    {
        out.push(tmp[k - 1 - idx]);
        idx = idx + 1;
        proof {
            assert(tmp@.reverse()[idx - 1] == tmp@[k - idx]);
            assert(out@ =~= old(out)@ + tmp@.reverse().subrange(0, idx as int));
        }
    }
    proof {
        assert(tmp@.reverse().subrange(0, k as int) =~= tmp@.reverse());
    }
}

/// Appends the canonical decimal text of a signed value.
fn push_i32_dec(v: i32, out: &mut Vec<u8>)
    ensures
        final(out)@ == old(out)@ + fmt_i32(v as int),
{
    if v < 0 {
        out.push(45);
        let mag: u32 = (-(v as i64)) as u32;
        push_u32_dec(mag, out);
        proof {
            assert(final(out)@ =~= old(out)@ + (seq![45u8] + dec_digits(-(v as int))));
        }
    } else {
        push_u32_dec(v as u32, out);
    }
}

/// No byte of `s` is a comma.
pub open spec fn comma_free(s: Seq<u8>) -> bool {
    forall|i: int| 0 <= i < s.len() ==> s[i] != 44
}

/// The first comma from the start is wherever the first comma is.
proof fn lemma_next_comma_at(s: Seq<u8>, j: int)
    requires
        0 <= j <= s.len(),
        forall|k: int| 0 <= k < j ==> s[k] != 44,
        j < s.len() ==> s[j] == 44,
    ensures
        next_comma(s, 0) == j,
{
    lemma_next_comma(s, 0);
    let nc = next_comma(s, 0);
    if nc < j {
        assert(s[nc] != 44);
        assert(s[nc] == 44);
    }
    if nc > j {
        assert(j < s.len());
        assert(s[j] != 44);
    }
}

/// Splitting from `i` is splitting the suffix that starts at `i`.
proof fn lemma_fields_from_shift(s: Seq<u8>, i: int)
    requires
        0 <= i <= s.len(),
    ensures
        fields_from(s, i) == fields_from(s.subrange(i, s.len() as int), 0),
    decreases s.len() - i,
{
    let t = s.subrange(i, s.len() as int);
    let j = next_comma(s, i);
    lemma_next_comma(s, i);
    assert(next_comma(t, 0) == j - i) by {
        lemma_next_comma_at(t, j - i);
    }
    if j >= s.len() {
        assert(t.subrange(0, t.len() as int) =~= t);
        assert(s.subrange(i, s.len() as int) == t);
    } else {
        lemma_fields_from_shift(s, j + 1);
        let u = s.subrange(j + 1, s.len() as int);
        let tu = t.subrange(j - i + 1, t.len() as int);
        assert(tu =~= u);
        lemma_fields_from_shift(t, j - i + 1);
        assert(s.subrange(i, j) =~= t.subrange(0, j - i));
    }
}

/// A line with no comma is one field.
proof fn lemma_split_single(t: Seq<u8>)
    requires
        comma_free(t),
    ensures
        split_commas(t) == seq![t],
{
    lemma_next_comma_at(t, t.len() as int);
    assert(t.subrange(0, t.len() as int) =~= t);
}

/// Splitting takes one comma-free field off the front at its comma.
proof fn lemma_split_step(head: Seq<u8>, tail: Seq<u8>)
    requires
        comma_free(head),
    ensures
        split_commas(head + seq![44u8] + tail) == seq![head] + split_commas(tail),
{
    let s = head + seq![44u8] + tail;
    let hl = head.len() as int;
    assert forall|k: int| 0 <= k < hl implies s[k] != 44 by {
        assert(s[k] == head[k]);
    }
    assert(s[hl] == 44);
    lemma_next_comma_at(s, hl);
    assert(next_comma(s, 0) == hl && hl < s.len());
    lemma_fields_from_shift(s, hl + 1);
    assert(s.subrange(hl + 1, s.len() as int) =~= tail);
    assert(s.subrange(0, hl) =~= head);
}

/// A canonical digit string has no comma in it.
proof fn lemma_digits_comma_free(t: Seq<u8>)
    requires
        all_digits(t),
    ensures
        comma_free(t),
{
    assert forall|i: int| 0 <= i < t.len() implies t[i] != 44 by {
        assert(is_digit(t[i]));
    }
}

/// A canonical unsigned rendering is a valid field worth its number.
proof fn lemma_dec_digits_token(n: int)
    requires
        0 <= n <= i32::MAX,
    ensures
        i32_token(dec_digits(n)),
        int_token_val(dec_digits(n)) == n,
        comma_free(dec_digits(n)),
{
    lemma_dec_digits_wf(n);
    lemma_dec_digits_val(n);
    lemma_digits_comma_free(dec_digits(n));
    let t = dec_digits(n);
    assert(is_digit(t[0]));
}

/// A canonical signed rendering is a valid field worth its value.
proof fn lemma_fmt_i32_token(v: int)
    requires
        i32::MIN <= v <= i32::MAX,
    ensures
        i32_token(fmt_i32(v)),
        int_token_val(fmt_i32(v)) == v,
        comma_free(fmt_i32(v)),
{
    if v < 0 {
        lemma_dec_digits_wf(-v);
        lemma_dec_digits_val(-v);
        lemma_digits_comma_free(dec_digits(-v));
        let t = fmt_i32(v);
        assert(t[0] == 45);
        assert(t.subrange(1, t.len() as int) =~= dec_digits(-v));
        assert forall|i: int| 0 <= i < t.len() implies t[i] != 44 by {
            if i >= 1 {
                assert(t[i] == dec_digits(-v)[i - 1]);
                assert(is_digit(dec_digits(-v)[i - 1]));
            }
        }
    } else {
        lemma_dec_digits_token(v);
    }
}

/// Round trip: a cache line written from a position and size reads
/// back as exactly that position and size, whenever both size fields
/// fit the signed range the reader uses.
pub proof fn lemma_cache_round_trip(x: i32, y: i32, w: u32, h: u32)
    requires
        w <= i32::MAX,
        h <= i32::MAX,
    ensures
        parse_pos_spec(format_pos_spec(x as int, y as int, w as int, h as int)) == Some(
            (x, y, w, h),
        ),
{
    let t0 = fmt_i32(x as int);
    let t1 = fmt_i32(y as int);
    let t2 = dec_digits(w as int);
    let t3 = dec_digits(h as int);
    lemma_fmt_i32_token(x as int);
    lemma_fmt_i32_token(y as int);
    lemma_dec_digits_token(w as int);
    lemma_dec_digits_token(h as int);
    let c = seq![44u8];
    let line = format_pos_spec(x as int, y as int, w as int, h as int);
    let tail1 = t1 + c + t2 + c + t3;
    let tail2 = t2 + c + t3;
    assert(line =~= t0 + c + tail1);
    assert(tail1 =~= t1 + c + tail2);
    assert(tail2 =~= t2 + c + t3);
    lemma_split_step(t0, tail1);
    lemma_split_step(t1, tail2);
    lemma_split_step(t2, t3);
    lemma_split_single(t3);
    let fs = split_commas(line);
    assert(fs == seq![t0] + (seq![t1] + (seq![t2] + seq![t3])));
    assert(fs.len() == 4);
    assert(fs[0] == t0 && fs[1] == t1 && fs[2] == t2 && fs[3] == t3);
    assert(int_token_val(fs[0]) as i32 == x);
    assert(int_token_val(fs[1]) as i32 == y);
    assert(int_token_val(fs[2]) as i32 as u32 == w);
    assert(int_token_val(fs[3]) as i32 as u32 == h);
}

/// Renders a window position and size as the cache line that
/// [`parse_pos`] reads back: `x,y,width,height` in canonical decimal.
pub fn format_pos(x: i32, y: i32, w: u32, h: u32) -> (line: Vec<u8>)
    ensures
        line@ == format_pos_spec(x as int, y as int, w as int, h as int),
{
    let mut line: Vec<u8> = Vec::new();
    push_i32_dec(x, &mut line);
    line.push(44);
    push_i32_dec(y, &mut line);
    line.push(44);
    push_u32_dec(w, &mut line);
    line.push(44);
    push_u32_dec(h, &mut line);
    proof {
        assert(line@ =~= format_pos_spec(x as int, y as int, w as int, h as int));
    }
    line
}

} // verus!
