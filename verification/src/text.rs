//! Byte-level text handling: line and field splitting, and exact parsing of
//! unsigned, signed and decimal fixed-point numbers.
//!
//! All input files are tab- or space-separated tables of ASCII records, so
//! the crate works directly on byte sequences; the contracts are stated over
//! recursive spec functions that define the accepted grammar exactly.

use vstd::prelude::*;
use crate::fixed::Fx;

verus! {

pub const B_NL: u8 = 10;

pub const B_CR: u8 = 13;

pub const B_TAB: u8 = 9;

pub const B_SPACE: u8 = 32;

/// Index of the first occurrence of `sep` in `b`, or `b.len()` if absent.
pub open spec fn first_index(b: Seq<u8>, sep: u8) -> int
    decreases b.len(),
{
    if b.len() == 0 {
        0
    } else if b[0] == sep {
        0
    } else {
        1 + first_index(b.drop_first(), sep)
    }
}

pub proof fn lemma_first_index(b: Seq<u8>, sep: u8)
    ensures
        0 <= first_index(b, sep) <= b.len(),
        forall|j: int| 0 <= j < first_index(b, sep) ==> b[j] != sep,
        first_index(b, sep) < b.len() ==> b[first_index(b, sep)] == sep,
    decreases b.len(),
{
    if b.len() > 0 && b[0] != sep {
        lemma_first_index(b.drop_first(), sep);
        assert forall|j: int| 0 <= j < first_index(b, sep) implies b[j] != sep by {
            if j > 0 {
                assert(b[j] == b.drop_first()[j - 1]);
            }
        }
    }
}

/// If no element of `x` is `sep`, the first occurrence in `x + y` lies at
/// `x.len() + first_index(y, sep)`.
pub proof fn lemma_first_index_concat(x: Seq<u8>, y: Seq<u8>, sep: u8)
    requires
        forall|j: int| 0 <= j < x.len() ==> x[j] != sep,
    ensures
        first_index(x + y, sep) == x.len() + first_index(y, sep),
    decreases x.len(),
{
    if x.len() == 0 {
        assert(x + y =~= y);
    } else {
        assert((x + y).drop_first() =~= x.drop_first() + y);
        lemma_first_index_concat(x.drop_first(), y, sep);
    }
}

/// Split `b` at every occurrence of `sep`; empty pieces are kept.
pub open spec fn split_on(b: Seq<u8>, sep: u8) -> Seq<Seq<u8>>
    decreases b.len(),
{
    let i = first_index(b, sep);
    if i < 0 || i >= b.len() {
        seq![b]
    } else {
        seq![b.take(i)] + split_on(b.skip(i + 1), sep)
    }
}

pub proof fn lemma_split_no_sep(x: Seq<u8>, sep: u8)
    requires
        forall|j: int| 0 <= j < x.len() ==> x[j] != sep,
    ensures
        split_on(x, sep) == seq![x],
{
    lemma_first_index(x, sep);
}

/// Splitting a sequence that starts with a separator-free piece followed by
/// one separator peels off exactly that piece.
pub proof fn lemma_split_step(x: Seq<u8>, y: Seq<u8>, sep: u8)
    requires
        forall|j: int| 0 <= j < x.len() ==> x[j] != sep,
    ensures
        split_on(x + seq![sep] + y, sep) == seq![x] + split_on(y, sep),
{
    let b = x + seq![sep] + y;
    lemma_first_index_concat(x, seq![sep] + y, sep);
    assert(first_index(seq![sep] + y, sep) == 0);
    assert(first_index(b, sep) == x.len()) by {
        assert(x + (seq![sep] + y) =~= b);
    }
    assert(b.take(x.len() as int) =~= x);
    assert(b.skip(x.len() as int + 1) =~= y);
}

/// The view of a vector of byte vectors as a sequence of byte sequences.
pub open spec fn views(s: Seq<Vec<u8>>) -> Seq<Seq<u8>> {
    s.map_values(|v: Vec<u8>| v@)
}

/// Split a byte vector at every occurrence of `sep`, keeping empty pieces.
pub fn split_bytes(b: &Vec<u8>, sep: u8) -> (r: Vec<Vec<u8>>)
    ensures
        views(r@) == split_on(b@, sep),
{
    let mut out: Vec<Vec<u8>> = Vec::new();
    let mut cur: Vec<u8> = Vec::new();
    let mut i: usize = 0;
    proof {
        assert(views(out@) =~= Seq::<Seq<u8>>::empty());
        assert(b@.skip(0) =~= b@);
    }
    while i < b.len()
        invariant
            i <= b.len(),
            cur@.len() <= i,
            cur@ =~= b@.subrange(i - cur@.len(), i as int),
            forall|j: int| 0 <= j < cur@.len() ==> cur@[j] != sep,
            split_on(b@, sep) == views(out@) + split_on(b@.skip(i - cur@.len()), sep),
        decreases b.len() - i,
    {
        let c = b[i];
        if c == sep {
            proof {
                let rest = b@.skip(i - cur@.len());
                let tail = b@.skip(i + 1);
                assert(rest =~= cur@ + seq![sep] + tail);
                lemma_split_step(cur@, tail, sep);
                assert(views(out@.push(cur)) =~= views(out@) + seq![cur@]);
            }
            out.push(cur);
            cur = Vec::new();
        } else {
            cur.push(c);
            proof {
                assert(cur@ =~= b@.subrange(i + 1 - cur@.len(), i + 1));
            }
        }
        i += 1;
    }
    proof {
        let rest = b@.skip(i - cur@.len());
        assert(rest =~= cur@);
        lemma_split_no_sep(cur@, sep);
        assert(views(out@.push(cur)) =~= views(out@) + seq![cur@]);
    }
    out.push(cur);
    out
}

/// A line with any trailing carriage return removed.
pub open spec fn strip_cr(l: Seq<u8>) -> Seq<u8> {
    if l.len() > 0 && l.last() == B_CR {
        l.drop_last()
    } else {
        l
    }
}

/// Non-empty predicate on pieces, as a named function value.
pub open spec fn nonempty_fn() -> spec_fn(Seq<u8>) -> bool {
    |l: Seq<u8>| l.len() > 0
}

/// The records of a text file: split at newlines, strip carriage returns,
/// drop blank lines.
pub open spec fn clean_lines(b: Seq<u8>) -> Seq<Seq<u8>> {
    split_on(b, B_NL).map_values(|l: Seq<u8>| strip_cr(l)).filter(nonempty_fn())
}

/// Split into lines, strip carriage returns, drop blank lines.
pub fn lines_of(b: &Vec<u8>) -> (r: Vec<Vec<u8>>)
    ensures
        views(r@) == clean_lines(b@),
{
    let raw = split_bytes(b, B_NL);
    let spec_mapped = Ghost(split_on(b@, B_NL).map_values(|l: Seq<u8>| strip_cr(l)));
    let mut out: Vec<Vec<u8>> = Vec::new();
    let mut i: usize = 0;
    proof {
        reveal(Seq::filter);
        assert(spec_mapped@.take(0) =~= Seq::<Seq<u8>>::empty());
        assert(views(out@) =~= spec_mapped@.take(0).filter(nonempty_fn()));
    }
    while i < raw.len()
        invariant
            i <= raw.len(),
            views(raw@) == split_on(b@, B_NL),
            spec_mapped@ == split_on(b@, B_NL).map_values(|l: Seq<u8>| strip_cr(l)),
            views(out@) == spec_mapped@.take(i as int).filter(nonempty_fn()),
        decreases raw.len() - i,
    {
        let mut line = raw[i].clone();
        proof {
            assert(views(raw@)[i as int] == raw@[i as int]@);
        }
        if line.len() > 0 && line[line.len() - 1] == B_CR {
            line.pop();
        }
        proof {
            assert(line@ == strip_cr(raw@[i as int]@));
            assert(spec_mapped@[i as int] == strip_cr(views(raw@)[i as int]));
            let pre = spec_mapped@.take(i as int);
            let single = seq![spec_mapped@[i as int]];
            assert(pre + single =~= spec_mapped@.take(i + 1));
            Seq::filter_distributes_over_add(pre, single, nonempty_fn());
            assert(single.filter(nonempty_fn()) == if nonempty_fn()(single[0]) {
                single
            } else {
                Seq::<Seq<u8>>::empty()
            }) by {
                reveal_with_fuel(Seq::filter, 3);
                assert(single.drop_last() =~= Seq::<Seq<u8>>::empty());
                assert(Seq::<Seq<u8>>::empty().filter(nonempty_fn()) =~= Seq::<Seq<u8>>::empty());
            }
        }
        if line.len() > 0 {
            proof {
                assert(views(out@.push(line)) =~= views(out@) + seq![line@]);
            }
            out.push(line);
        }
        i += 1;
    }
    proof {
        assert(spec_mapped@.take(i as int) =~= spec_mapped@);
    }
    out
}

/// Split a record into tab-separated fields; empty fields are kept.
pub open spec fn fields_of(l: Seq<u8>) -> Seq<Seq<u8>> {
    split_on(l, B_TAB)
}

/// Split a record into tab-separated fields.
pub fn split_fields(l: &Vec<u8>) -> (r: Vec<Vec<u8>>)
    ensures
        views(r@) == fields_of(l@),
{
    split_bytes(l, B_TAB)
}

/// Split a record at spaces and drop empty pieces, as for the tokens of a
/// coordinate-format matrix line.
pub open spec fn tokens_of(l: Seq<u8>) -> Seq<Seq<u8>> {
    split_on(l, B_SPACE).filter(nonempty_fn())
}

/// Split a record into whitespace-separated tokens.
pub fn split_tokens(l: &Vec<u8>) -> (r: Vec<Vec<u8>>)
    ensures
        views(r@) == tokens_of(l@),
{
    let raw = split_bytes(l, B_SPACE);
    let spec_raw = Ghost(split_on(l@, B_SPACE));
    let mut out: Vec<Vec<u8>> = Vec::new();
    let mut i: usize = 0;
    proof {
        reveal(Seq::filter);
        assert(spec_raw@.take(0) =~= Seq::<Seq<u8>>::empty());
        assert(views(out@) =~= spec_raw@.take(0).filter(nonempty_fn()));
    }
    while i < raw.len()
        invariant
            i <= raw.len(),
            views(raw@) == spec_raw@,
            spec_raw@ == split_on(l@, B_SPACE),
            views(out@) == spec_raw@.take(i as int).filter(nonempty_fn()),
        decreases raw.len() - i,
    {
        let piece = raw[i].clone();
        proof {
            assert(views(raw@)[i as int] == raw@[i as int]@);
            let pre = spec_raw@.take(i as int);
            let single = seq![spec_raw@[i as int]];
            assert(pre + single =~= spec_raw@.take(i + 1));
            Seq::filter_distributes_over_add(pre, single, nonempty_fn());
            assert(single.filter(nonempty_fn()) == if nonempty_fn()(single[0]) {
                single
            } else {
                Seq::<Seq<u8>>::empty()
            }) by {
                reveal_with_fuel(Seq::filter, 3);
                assert(single.drop_last() =~= Seq::<Seq<u8>>::empty());
                assert(Seq::<Seq<u8>>::empty().filter(nonempty_fn()) =~= Seq::<Seq<u8>>::empty());
            }
        }
        if piece.len() > 0 {
            proof {
                assert(views(out@.push(piece)) =~= views(out@) + seq![piece@]);
            }
            out.push(piece);
        }
        i += 1;
    }
    proof {
        assert(spec_raw@.take(i as int) =~= spec_raw@);
    }
    out
}


/// ASCII decimal digit.
pub open spec fn is_digit(c: u8) -> bool {
    48 <= c && c <= 57
}

pub open spec fn all_digits(s: Seq<u8>) -> bool {
    forall|j: int| 0 <= j < s.len() ==> is_digit(#[trigger] s[j])
}

/// The value of a string of decimal digits.
pub open spec fn dec_val(s: Seq<u8>) -> int
    decreases s.len(),
{
    if s.len() == 0 {
        0
    } else {
        dec_val(s.drop_last()) * 10 + (s.last() - 48)
    }
}

pub proof fn lemma_dec_val_nonneg(s: Seq<u8>)
    requires
        all_digits(s),
    ensures
        dec_val(s) >= 0,
    decreases s.len(),
{
    if s.len() > 0 {
        lemma_dec_val_nonneg(s.drop_last());
    }
}

/// The value of a digit-string prefix never exceeds the value of the whole.
pub proof fn lemma_dec_val_take_le(s: Seq<u8>, i: int)
    requires
        all_digits(s),
        0 <= i <= s.len(),
    ensures
        dec_val(s.take(i)) <= dec_val(s),
    decreases s.len() - i,
{
    if i == s.len() {
        assert(s.take(i) =~= s);
    } else {
        assert(s.take(i + 1).drop_last() =~= s.take(i));
        assert(all_digits(s.take(i))) by {
            assert(forall|j: int| 0 <= j < i ==> s.take(i)[j] == s[j]);
        }
        lemma_dec_val_nonneg(s.take(i));
        assert(dec_val(s.take(i + 1)) == dec_val(s.take(i)) * 10 + (s[i] - 48));
        lemma_dec_val_take_le(s, i + 1);
    }
}

/// Whether every byte of `b` is a decimal digit.
pub fn check_all_digits(b: &Vec<u8>) -> (r: bool)
    ensures
        r == all_digits(b@),
{
    let mut i: usize = 0;
    while i < b.len()
        invariant
            i <= b.len(),
            forall|j: int| 0 <= j < i ==> is_digit(#[trigger] b@[j]),
        decreases b.len() - i,
    {
        let c = b[i];
        if c < 48 || c > 57 {
            return false;
        }
        i += 1;
    }
    true
}

/// Parse an unsigned decimal integer.
pub fn parse_u64(b: &Vec<u8>) -> (r: Option<u64>)
    ensures
        match r {
            Some(v) => b@.len() > 0 && all_digits(b@) && v as int == dec_val(b@),
            None => b@.len() == 0 || !all_digits(b@) || dec_val(b@) > u64::MAX,
        },
{
    if b.len() == 0 {
        return None;
    }
    let mut acc: u64 = 0;
    let mut i: usize = 0;
    while i < b.len()
        invariant
            i <= b.len(),
            forall|j: int| 0 <= j < i ==> is_digit(#[trigger] b@[j]),
            acc as int == dec_val(b@.take(i as int)),
        decreases b.len() - i,
    {
        let c = b[i];
        if c < 48 || c > 57 {
            return None;
        }
        let d: u64 = (c - 48) as u64;
        proof {
            assert(b@.take(i + 1).drop_last() =~= b@.take(i as int));
            assert(dec_val(b@.take(i + 1)) == acc as int * 10 + d);
        }
        let m = match acc.checked_mul(10) {
            Some(m) => m,
            None => {
                proof {
                    overflow_tail(b@, i as int, acc as int * 10 + d as int);
                }
                return None;
            },
        };
        let a = match m.checked_add(d) {
            Some(a) => a,
            None => {
                proof {
                    overflow_tail(b@, i as int, acc as int * 10 + d as int);
                }
                return None;
            },
        };
        acc = a;
        i += 1;
    }
    proof {
        assert(b@.take(i as int) =~= b@);
    }
    Some(acc)
}

/// If some digit prefix of `s` already has a value above `u64::MAX`, then so
/// does the whole string, unless a later byte is no digit at all.
proof fn overflow_tail(s: Seq<u8>, i: int, val: int)
    requires
        0 <= i < s.len(),
        forall|j: int| 0 <= j <= i ==> is_digit(#[trigger] s[j]),
        val == dec_val(s.take(i + 1)),
        val > u64::MAX,
    ensures
        !all_digits(s) || dec_val(s) > u64::MAX,
{
    if all_digits(s) {
        lemma_dec_val_take_le(s, i + 1);
    }
}

pub const B_MINUS: u8 = 45;

pub const B_PLUS: u8 = 43;

pub const B_DOT: u8 = 46;

/// The digit part of a possibly signed number.
pub open spec fn unsigned_part(s: Seq<u8>) -> Seq<u8> {
    if s.len() >= 1 && (s[0] == B_MINUS || s[0] == B_PLUS) {
        s.drop_first()
    } else {
        s
    }
}

pub open spec fn is_negative(s: Seq<u8>) -> bool {
    s.len() >= 1 && s[0] == B_MINUS
}

/// Grammar of a signed decimal integer.
pub open spec fn int_ok(s: Seq<u8>) -> bool {
    let t = unsigned_part(s);
    t.len() >= 1 && all_digits(t)
}

/// The value of a signed decimal integer.
pub open spec fn int_val(s: Seq<u8>) -> int {
    if is_negative(s) {
        -dec_val(unsigned_part(s))
    } else {
        dec_val(unsigned_part(s))
    }
}

/// Parse a signed decimal integer.
pub fn parse_i64(b: &Vec<u8>) -> (r: Option<i64>)
    ensures
        match r {
            Some(v) => int_ok(b@) && v as int == int_val(b@),
            None => !int_ok(b@) || int_val(b@) < -i64::MAX || int_val(b@) > i64::MAX,
        },
{
    let (neg, digits) = strip_sign(b);
    match parse_u64(&digits) {
        Some(mag) => {
            if mag > 0x7fffffffffffffff {
                None
            } else if neg {
                Some(-(mag as i64))
            } else {
                Some(mag as i64)
            }
        },
        None => {
            proof {
                if int_ok(b@) && -i64::MAX <= int_val(b@) <= i64::MAX {
                    lemma_dec_val_nonneg(unsigned_part(b@));
                }
            }
            None
        },
    }
}

/// Split off one leading sign byte.
fn strip_sign(b: &Vec<u8>) -> (r: (bool, Vec<u8>))
    ensures
        r.0 == is_negative(b@),
        r.1@ == unsigned_part(b@),
{
    let mut digits: Vec<u8> = Vec::new();
    let mut neg = false;
    let mut start: usize = 0;
    if b.len() >= 1 && (b[0] == B_MINUS || b[0] == B_PLUS) {
        neg = b[0] == B_MINUS;
        start = 1;
    }
    let mut i: usize = start;
    while i < b.len()
        invariant
            start <= i <= b.len(),
            start == 0 || start == 1,
            digits@ =~= b@.subrange(start as int, i as int),
        decreases b.len() - i,
    {
        digits.push(b[i]);
        i += 1;
    }
    proof {
        if start == 1 {
            assert(digits@ =~= b@.drop_first());
        } else {
            assert(digits@ =~= b@);
        }
    }
    (neg, digits)
}

pub open spec fn pow10(k: nat) -> int
    decreases k,
{
    if k == 0 {
        1
    } else {
        10 * pow10((k - 1) as nat)
    }
}

proof fn lemma_pow10_six()
    ensures
        pow10(6) == 1000000,
{
    reveal_with_fuel(pow10, 7);
}

/// The first six fractional digits as an integer count of millionths.
pub open spec fn frac6(f: Seq<u8>) -> int {
    if f.len() >= 6 {
        dec_val(f.take(6))
    } else {
        dec_val(f) * pow10((6 - f.len()) as nat)
    }
}

/// Grammar of a decimal fixed-point literal: optional sign, a non-empty
/// integer digit part, and optionally a dot followed by a non-empty digit
/// fraction.
pub open spec fn fx_ok(s: Seq<u8>) -> bool {
    let t = unsigned_part(s);
    let d = first_index(t, B_DOT);
    if d == t.len() {
        t.len() >= 1 && all_digits(t)
    } else {
        d >= 1 && all_digits(t.take(d)) && t.skip(d + 1).len() >= 1 && all_digits(t.skip(d + 1))
    }
}

/// The magnitude of a decimal fixed-point literal in millionths, truncated
/// toward zero after the sixth fractional digit.
pub open spec fn fx_mag(s: Seq<u8>) -> int {
    let t = unsigned_part(s);
    let d = first_index(t, B_DOT);
    if d == t.len() {
        dec_val(t) * 1000000
    } else {
        dec_val(t.take(d)) * 1000000 + frac6(t.skip(d + 1))
    }
}

/// The signed value of a decimal fixed-point literal in millionths.
pub open spec fn fx_val(s: Seq<u8>) -> int {
    if is_negative(s) {
        -fx_mag(s)
    } else {
        fx_mag(s)
    }
}

/// Find the first occurrence of `sep`, or `b.len()` when absent.
pub fn find_byte(b: &Vec<u8>, sep: u8) -> (r: usize)
    ensures
        r as int == first_index(b@, sep),
{
    let mut i: usize = 0;
    while i < b.len()
        invariant
            i <= b.len(),
            forall|j: int| 0 <= j < i ==> b@[j] != sep,
        decreases b.len() - i,
    {
        if b[i] == sep {
            proof {
                lemma_first_index(b@, sep);
            }
            return i;
        }
        i += 1;
    }
    proof {
        lemma_first_index(b@, sep);
    }
    i
}

/// Copy the byte range `from..to`.
pub fn sub_vec(b: &Vec<u8>, from: usize, to: usize) -> (r: Vec<u8>)
    requires
        from <= to <= b@.len(),
    ensures
        r@ == b@.subrange(from as int, to as int),
{
    let mut out: Vec<u8> = Vec::new();
    let mut i: usize = from;
    while i < to
        invariant
            from <= i <= to <= b@.len(),
            out@ =~= b@.subrange(from as int, i as int),
        decreases to - i,
    {
        out.push(b[i]);
        proof {
            assert(out@ =~= b@.subrange(from as int, i + 1));
        }
        i += 1;
    }
    out
}

fn pow10_exec(k: usize) -> (r: u64)
    requires
        k <= 6,
    ensures
        r as int == pow10(k as nat),
{
    let mut r: u64 = 1;
    let mut i: usize = 0;
    while i < k
        invariant
            i <= k <= 6,
            r as int == pow10(i as nat),
            r <= 1000000,
        decreases k - i,
    {
        proof {
            lemma_pow10_mono((i + 1) as nat, 6);
            lemma_pow10_six();
        }
        r = r * 10;
        i += 1;
    }
    r
}

/// Parse a decimal fixed-point literal, truncating after six fractional
/// digits; fails on ill-formed input or on magnitudes beyond the `i64` range
/// of raw millionths.
pub fn parse_fx(b: &Vec<u8>) -> (r: Option<Fx>)
    ensures
        match r {
            Some(v) => fx_ok(b@) && v.raw as int == fx_val(b@) && -i64::MAX <= v.raw,
            None => !fx_ok(b@) || fx_val(b@) < -i64::MAX || fx_val(b@) > i64::MAX,
        },
{
    let (neg, t) = strip_sign(b);
    let ghost ts = unsigned_part(b@);
    let d = find_byte(&t, B_DOT);
    proof {
        lemma_first_index(ts, B_DOT);
    }
    let ipart = sub_vec(&t, 0, d);
    proof {
        assert(ipart@ =~= ts.take(d as int));
    }
    let ival = match parse_u64(&ipart) {
        Some(v) => v,
        None => {
            proof {
                lemma_first_index(ts, B_DOT);
                lemma_fx_reject(b@);
            }
            return None;
        },
    };
    let f6: u64 = if d == t.len() {
        0
    } else {
        let fpart = sub_vec(&t, d + 1, t.len());
        proof {
            assert(fpart@ =~= ts.skip(d + 1));
        }
        if fpart.len() == 0 || !check_all_digits(&fpart) {
            proof {
                assert(!fx_ok(b@));
            }
            return None;
        }
        let keep = if fpart.len() >= 6 {
            6
        } else {
            fpart.len()
        };
        let head = sub_vec(&fpart, 0, keep);
        proof {
            if fpart@.len() >= 6 {
                assert(head@ =~= fpart@.take(6));
            } else {
                assert(head@ =~= fpart@);
            }
            assert(all_digits(head@)) by {
                assert(forall|j: int| 0 <= j < head@.len() ==> head@[j] == fpart@[j]);
            }
            lemma_dec_val_digits_bound(head@);
        }
        let hv = match parse_u64(&head) {
            Some(v) => v,
            None => {
                proof {
                    assert(false);
                }
                return None;
            },
        };
        let p = pow10_exec(6 - keep);
        proof {
            lemma_frac6_bound(fpart@);
            if fpart@.len() >= 6 {
                assert(hv as int * p as int == frac6(ts.skip(d + 1)));
            } else {
                assert(hv as int * p as int == frac6(ts.skip(d + 1)));
            }
        }
        hv * p
    };
    proof {
        if d < t@.len() {
            lemma_frac6_bound(ts.skip(d + 1));
            assert(f6 as int == frac6(ts.skip(d + 1)));
        }
    }
    proof {
        if d == t@.len() {
            assert(ipart@ =~= ts);
        }
        if d < t@.len() {
            lemma_frac6_bound(ts.skip(d + 1));
        }
    }
    let mag = match ival.checked_mul(1000000) {
        Some(m) => match m.checked_add(f6) {
            Some(m2) => m2,
            None => {
                return None;
            },
        },
        None => {
            return None;
        },
    };
    if mag > 0x7fffffffffffffff {
        return None;
    }
    if neg {
        Some(Fx { raw: -(mag as i64) })
    } else {
        Some(Fx { raw: mag as i64 })
    }
}

/// A string of at most six digits is worth at most 999999 millionths once
/// padded, and its raw value fits `u64`.
proof fn lemma_dec_val_digits_bound(s: Seq<u8>)
    requires
        all_digits(s),
        s.len() <= 6,
    ensures
        0 <= dec_val(s),
        dec_val(s) < pow10(s.len() as nat),
        pow10(s.len() as nat) <= 1000000,
    decreases s.len(),
{
    lemma_pow10_six();
    lemma_pow10_mono(s.len() as nat, 6);
    if s.len() == 0 {
    } else {
        assert(all_digits(s.drop_last())) by {
            assert(forall|j: int| 0 <= j < s.len() - 1 ==> s.drop_last()[j] == s[j]);
        }
        lemma_dec_val_digits_bound(s.drop_last());
        assert(pow10(s.len() as nat) == 10 * pow10((s.len() - 1) as nat));
    }
}

proof fn lemma_pow10_mono(a: nat, b: nat)
    requires
        a <= b,
    ensures
        pow10(a) <= pow10(b),
        pow10(a) >= 1,
    decreases b,
{
    if b > 0 {
        if a == b {
            lemma_pow10_mono((a - 1) as nat, (b - 1) as nat);
        } else {
            lemma_pow10_mono(a, (b - 1) as nat);
        }
    }
}

proof fn lemma_pow10_add(a: nat, b: nat)
    ensures
        pow10(a + b) == pow10(a) * pow10(b),
    decreases a,
{
    if a == 0 {
    } else {
        lemma_pow10_add((a - 1) as nat, b);
        assert(pow10(a + b) == 10 * pow10((a - 1) as nat + b));
        assert(10 * (pow10((a - 1) as nat) * pow10(b)) == (10 * pow10((a - 1) as nat)) * pow10(b))
            by (nonlinear_arith);
    }
}

proof fn lemma_frac6_nonneg(f: Seq<u8>)
    requires
        all_digits(f),
    ensures
        frac6(f) >= 0,
{
    lemma_frac6_bound(f);
}

proof fn lemma_frac6_bound(f: Seq<u8>)
    requires
        all_digits(f),
    ensures
        0 <= frac6(f) <= 999999,
{
    if f.len() >= 6 {
        assert(all_digits(f.take(6))) by {
            assert(forall|j: int| 0 <= j < 6 ==> f.take(6)[j] == f[j]);
        }
        lemma_dec_val_digits_bound(f.take(6));
    } else {
        let n = f.len() as nat;
        let k = (6 - f.len()) as nat;
        lemma_pow10_six();
        lemma_dec_val_digits_bound(f);
        lemma_pow10_mono(k, 6);
        lemma_pow10_add(n, k);
        assert(dec_val(f) * pow10(k) <= (pow10(n) - 1) * pow10(k)) by (nonlinear_arith)
            requires
                dec_val(f) <= pow10(n) - 1,
                pow10(k) >= 1,
                dec_val(f) >= 0,
        ;
        assert((pow10(n) - 1) * pow10(k) == pow10(n) * pow10(k) - pow10(k)) by (nonlinear_arith);
        assert(dec_val(f) * pow10(k) >= 0) by (nonlinear_arith)
            requires
                dec_val(f) >= 0,
                pow10(k) >= 1,
        ;
    }
}

/// When the integer digit part cannot be read as a `u64`, the literal as a
/// whole is ill-formed or out of range.
proof fn lemma_fx_reject(s: Seq<u8>)
    requires
        ({
            let t = unsigned_part(s);
            let d = first_index(t, B_DOT);
            d == 0 || !all_digits(t.take(d)) || dec_val(t.take(d)) > u64::MAX
        }),
    ensures
        !fx_ok(s) || fx_val(s) < -i64::MAX || fx_val(s) > i64::MAX,
{
    let t = unsigned_part(s);
    let d = first_index(t, B_DOT);
    lemma_first_index(t, B_DOT);
    if fx_ok(s) {
        if d == t.len() {
            assert(t.take(d) =~= t);
            lemma_dec_val_nonneg(t);
            if dec_val(t) > u64::MAX {
                assert(dec_val(t) * 1000000 > i64::MAX) by (nonlinear_arith)
                    requires
                        dec_val(t) > u64::MAX,
                ;
            }
        } else {
            lemma_dec_val_nonneg(t.take(d));
            lemma_frac6_nonneg(t.skip(d + 1));
            if dec_val(t.take(d)) > u64::MAX {
                assert(dec_val(t.take(d)) * 1000000 > i64::MAX) by (nonlinear_arith)
                    requires
                        dec_val(t.take(d)) > u64::MAX,
                ;
            }
        }
    }
}

/// Byte-sequence equality.
pub fn bytes_eq(a: &Vec<u8>, b: &Vec<u8>) -> (r: bool)
    ensures
        r == (a@ == b@),
{
    if a.len() != b.len() {
        return false;
    }
    let mut i: usize = 0;
    while i < a.len()
        invariant
            i <= a.len(),
            a@.len() == b@.len(),
            forall|j: int| 0 <= j < i ==> a@[j] == b@[j],
        decreases a.len() - i,
    {
        if a[i] != b[i] {
            return false;
        }
        i += 1;
    }
    proof {
        assert(a@ =~= b@);
    }
    true
}

} // verus!
