//! Decimal telemetry values. The wire carries one scalar per frame as
//! ASCII text; this module gives the host an exact representation of such
//! a scalar — sign, decimal digits and the position of the decimal point —
//! together with a verified parser and formatter. Converting to a machine
//! float, when the renderer wants one, is the caller's business.

use vstd::prelude::*;
use crate::bytes::find_byte;
use crate::bytes::lemma_find_byte_at;
use crate::bytes::find_byte_from;

verus! {

/// First byte of the ASCII digits.
pub const DIGIT_ZERO: u8 = 48;
/// ASCII minus sign.
pub const MINUS_SIGN: u8 = 45;
/// ASCII plus sign.
pub const PLUS_SIGN: u8 = 43;
/// ASCII decimal point.
pub const DECIMAL_POINT: u8 = 46;

/// A decimal scalar: the number `(-1)^negative * mantissa / 10^scale`.
///
/// `12.5` is `{ negative: false, mantissa: 125, scale: 1 }`; a whole
/// number has `scale == 0`.
#[derive(Clone, Copy, Debug, PartialEq, Eq, Structural)]
pub struct Value {
    pub negative: bool,
    pub mantissa: u64,
    pub scale: usize,
}

/// Is `b` an ASCII decimal digit?
pub open spec fn is_digit(b: u8) -> bool {
    DIGIT_ZERO <= b <= DIGIT_ZERO + 9
}

/// Are all bytes of `s` ASCII decimal digits?
pub open spec fn all_digits(s: Seq<u8>) -> bool {
    forall|i: int| 0 <= i < s.len() ==> is_digit(s[i])
}

/// The number the digit string `s` denotes, most significant digit first.
pub open spec fn digits_value(s: Seq<u8>) -> nat
    decreases s.len(),
{
    if s.len() == 0 {
        0
    } else {
        (digits_value(s.drop_last()) * 10 + (s.last() - DIGIT_ZERO)) as nat
    }
}

/// Length of the sign prefix of `s`: one byte for a leading `+` or `-`,
/// none otherwise.
pub open spec fn sign_len(s: Seq<u8>) -> int {
    if s.len() > 0 && (s[0] == MINUS_SIGN || s[0] == PLUS_SIGN) {
        1
    } else {
        0
    }
}

/// `s` without its sign prefix.
pub open spec fn unsigned_part(s: Seq<u8>) -> Seq<u8> {
    s.skip(sign_len(s))
}

/// Does `s` denote a negative number?
pub open spec fn spec_is_negative(s: Seq<u8>) -> bool {
    s.len() > 0 && s[0] == MINUS_SIGN
}

/// The digits of the unsigned text `u` with the decimal point, if any,
/// removed.
pub open spec fn body_digits(u: Seq<u8>) -> Seq<u8> {
    let d = find_byte(u, DECIMAL_POINT);
    if 0 <= d < u.len() {
        u.take(d) + u.skip(d + 1)
    } else {
        u
    }
}

/// How many digits of `u` stand after the decimal point.
pub open spec fn spec_scale(u: Seq<u8>) -> int {
    let d = find_byte(u, DECIMAL_POINT);
    if 0 <= d < u.len() {
        u.len() - d - 1
    } else {
        0
    }
}

/// Is `s` a well-formed decimal number: an optional sign, then digits
/// with at most one decimal point among them, and at least one digit?
pub open spec fn well_formed_number(s: Seq<u8>) -> bool {
    let u = unsigned_part(s);
    let d = find_byte(u, DECIMAL_POINT);
    &&& body_digits(u).len() > 0
    &&& all_digits(body_digits(u))
    &&& (0 <= d < u.len() ==> find_byte(u.skip(d + 1), DECIMAL_POINT) < 0)
}

/// What parsing the text `s` yields: the denoted `Value` when `s` is a
/// well-formed decimal number whose digits fit a 64-bit mantissa, and
/// nothing otherwise.
pub open spec fn spec_parse(s: Seq<u8>) -> Option<Value> {
    let u = unsigned_part(s);
    if well_formed_number(s) && digits_value(body_digits(u)) <= u64::MAX {
        Some(Value {
            negative: spec_is_negative(s),
            mantissa: digits_value(body_digits(u)) as u64,
            scale: spec_scale(u) as usize,
        })
    } else {
        None
    }
}

/// Appending digit bytes never shrinks the denoted number.
pub proof fn lemma_digits_value_extend(x: Seq<u8>, y: Seq<u8>)
    requires
        all_digits(y),
    ensures
        digits_value(x + y) >= digits_value(x),
    decreases y.len(),
{
    if y.len() == 0 {
        assert(x + y =~= x);
    } else {
        assert(all_digits(y.drop_last()));
        lemma_digits_value_extend(x, y.drop_last());
        assert(x + y =~= (x + y.drop_last()).push(y.last()));
        assert((x + y).drop_last() =~= x + y.drop_last());
    }
}

/// Are the bytes `s[from..to]` all ASCII decimal digits?
pub fn all_digits_range(s: &[u8], from: usize, to: usize) -> (r: bool)
    requires
        from <= to <= s@.len(),
    ensures
        r == all_digits(s@.subrange(from as int, to as int)),
{
    let mut i: usize = from;
    while i < to
        invariant
            from <= i <= to <= s@.len(),
            forall|j: int| from <= j < i ==> is_digit(s@[j]),
        decreases to - i,
    {
        if !(s[i] >= DIGIT_ZERO && s[i] <= DIGIT_ZERO + 9) {
            assert(s@.subrange(from as int, to as int)[i - from] == s@[i as int]);
            return false;
        }
        i = i + 1;
    }
    assert(forall|j: int| 0 <= j < to - from
        ==> s@.subrange(from as int, to as int)[j] == s@[from + j]);
    true
}

/// Folds the digits `s[from..to]` onto `acc`, reporting overflow of the
/// 64-bit range. `prior` names the digit string `acc` already denotes.
fn accum_digits(s: &[u8], from: usize, to: usize, acc: u64, Ghost(prior): Ghost<Seq<u8>>) -> (r:
    Option<u64>)
    requires
        from <= to <= s@.len(),
        all_digits(s@.subrange(from as int, to as int)),
        acc == digits_value(prior),
    ensures
        match r {
            Some(m) => m == digits_value(prior + s@.subrange(from as int, to as int)),
            None => digits_value(prior + s@.subrange(from as int, to as int)) > u64::MAX,
        },
{
    let mut acc: u64 = acc;
    let mut i: usize = from;
    while i < to
        invariant
            from <= i <= to <= s@.len(),
            all_digits(s@.subrange(from as int, to as int)),
            acc == digits_value(prior + s@.subrange(from as int, i as int)),
        decreases to - i,
    {
        assert(s@.subrange(from as int, to as int)[i - from] == s@[i as int]);
        let d: u64 = (s[i] - DIGIT_ZERO) as u64;
        let ghost done = prior + s@.subrange(from as int, i as int);
        let ghost next = prior + s@.subrange(from as int, i + 1);
        proof {
            assert(next =~= done.push(s@[i as int]));
            assert(next.drop_last() =~= done);
            assert(digits_value(next) == digits_value(done) * 10 + d);
        }
        if acc > (u64::MAX - d) / 10 {
            proof {
                assert(digits_value(next) > u64::MAX);
                let remaining = s@.subrange(i + 1, to as int);
                assert(all_digits(remaining)) by {
                    assert(forall|j: int| 0 <= j < remaining.len()
                        ==> remaining[j] == s@.subrange(from as int, to as int)[
                        i + 1 - from + j]);
                }
                lemma_digits_value_extend(next, remaining);
                assert(next + remaining =~= prior + s@.subrange(from as int, to as int));
            }
            return None;
        }
        acc = acc * 10 + d;
        i = i + 1;
    }
    assert(prior + s@.subrange(from as int, i as int)
        =~= prior + s@.subrange(from as int, to as int));
    Some(acc)
}

/// The decimal digit string of `n`, most significant digit first, with
/// no leading zero except on zero itself.
pub open spec fn digits_of(n: nat) -> Seq<u8>
    decreases n,
{
    if n < 10 {
        seq![(DIGIT_ZERO + n) as u8]
    } else {
        digits_of(n / 10).push((DIGIT_ZERO + n % 10) as u8)
    }
}

/// The digits of the mantissa, padded with leading zeros until at least
/// one digit stands before the decimal point.
pub open spec fn padded_digits(v: Value) -> Seq<u8> {
    let digs = digits_of(v.mantissa as nat);
    if digs.len() > v.scale {
        digs
    } else {
        Seq::new((v.scale + 1 - digs.len()) as nat, |i: int| DIGIT_ZERO) + digs
    }
}

/// The ASCII text of `v`: an optional minus sign, the padded digits, and
/// a decimal point before the last `scale` of them when `scale > 0`.
pub open spec fn spec_format(v: Value) -> Seq<u8> {
    let padded = padded_digits(v);
    let body = if v.scale == 0 {
        padded
    } else {
        padded.take(padded.len() - v.scale) + seq![DECIMAL_POINT] + padded.skip(
            padded.len() - v.scale,
        )
    };
    if v.negative {
        seq![MINUS_SIGN] + body
    } else {
        body
    }
}

/// Renders `v` as decimal ASCII text, exactly as `spec_format` describes.
pub fn format_value(v: Value) -> (r: Vec<u8>)
    ensures
        r@ == spec_format(v),
{
    let ghost digs = digits_of(v.mantissa as nat);
    let mut rev: Vec<u8> = Vec::new();
    let mut m: u64 = v.mantissa;
    while m > 0 || rev.len() == 0
        invariant
            digs == digits_of(v.mantissa as nat),
            rev@.len() == 0 ==> m == v.mantissa,
            rev@.len() > 0 ==> digs == (if m > 0 {
                digits_of(m as nat) + rev@.reverse()
            } else {
                rev@.reverse()
            }),
        decreases m + (if rev@.len() == 0 { 1int } else { 0int }),
    {
        let d: u8 = (m % 10) as u8 + DIGIT_ZERO;
        let ghost m0 = m as nat;
        let ghost rev0 = rev@;
        rev.push(d);
        proof {
            assert(rev@.reverse() =~= seq![d] + rev0.reverse());
            if m0 >= 10 {
                assert(digits_of(m0) == digits_of(m0 / 10).push(d));
                assert(digits_of(m0 / 10).push(d) =~= digits_of(m0 / 10) + seq![d]);
            } else {
                assert(digits_of(m0) =~= seq![d]);
            }
            if rev0.len() == 0 {
                assert(rev0 =~= Seq::<u8>::empty());
                assert(rev0.reverse() =~= Seq::<u8>::empty());
                if m0 >= 10 {
                    assert(digits_of(m0 / 10) + rev@.reverse() =~= digits_of(m0 / 10) + seq![d]);
                } else {
                    assert(rev@.reverse() =~= seq![d]);
                }
            } else {
                if m0 >= 10 {
                    assert(digits_of(m0 / 10) + rev@.reverse() =~= (digits_of(m0 / 10) + seq![d])
                        + rev0.reverse());
                } else {
                    assert(rev@.reverse() =~= digits_of(m0) + rev0.reverse());
                }
            }
        }
        m = m / 10;
    }
    let nd = rev.len();
    proof {
        assert(digs == rev@.reverse());
        assert(digs.len() == nd);
    }
    let mut padded: Vec<u8> = Vec::new();
    if nd <= v.scale {
        let zeros = v.scale - nd + 1;
        let mut z: usize = 0;
        while z < zeros
            invariant
                z <= zeros,
                padded@ =~= Seq::new(z as nat, |i: int| DIGIT_ZERO),
            decreases zeros - z,
        {
            padded.push(DIGIT_ZERO);
            proof {
                assert(padded@ =~= Seq::new((z + 1) as nat, |i: int| DIGIT_ZERO));
            }
            z = z + 1;
        }
    }
    let ghost zpre = padded@;
    let mut k: usize = 0;
    while k < nd
        invariant
            k <= nd,
            nd == rev@.len() == digs.len(),
            digs == rev@.reverse(),
            padded@ == zpre + digs.take(k as int),
        decreases nd - k,
    {
        padded.push(rev[nd - 1 - k]);
        proof {
            assert(digs[k as int] == rev@.reverse()[k as int]);
            assert(zpre + digs.take(k as int) + seq![digs[k as int]] =~= zpre + digs.take(
                k + 1,
            ));
        }
        k = k + 1;
    }
    proof {
        assert(digs.take(nd as int) =~= digs);
        if nd > v.scale {
            assert(zpre =~= Seq::<u8>::empty());
            assert(padded@ =~= padded_digits(v));
        } else {
            assert(padded@ =~= padded_digits(v));
        }
    }
    let pl = padded.len();
    let mut out: Vec<u8> = Vec::new();
    if v.negative {
        out.push(MINUS_SIGN);
    }
    let ghost spre = out@;
    if v.scale == 0 {
        let mut k2: usize = 0;
        while k2 < pl
            invariant
                k2 <= pl,
                pl == padded@.len(),
                out@ == spre + padded@.take(k2 as int),
            decreases pl - k2,
        {
            out.push(padded[k2]);
            proof {
                assert(spre + padded@.take(k2 as int) + seq![padded@[k2 as int]] =~= spre
                    + padded@.take(k2 + 1));
            }
            k2 = k2 + 1;
        }
        proof {
            assert(padded@.take(pl as int) =~= padded@);
            assert(out@ =~= spec_format(v));
        }
    } else {
        assert(pl > v.scale);
        let il = pl - v.scale;
        let mut k2: usize = 0;
        while k2 < il
            invariant
                k2 <= il <= pl,
                pl == padded@.len(),
                out@ == spre + padded@.take(k2 as int),
            decreases il - k2,
        {
            out.push(padded[k2]);
            proof {
                assert(spre + padded@.take(k2 as int) + seq![padded@[k2 as int]] =~= spre
                    + padded@.take(k2 + 1));
            }
            k2 = k2 + 1;
        }
        out.push(DECIMAL_POINT);
        let ghost mid = out@;
        proof {
            assert(mid == spre + padded@.take(il as int) + seq![DECIMAL_POINT]);
        }
        let mut k3: usize = il;
        while k3 < pl
            invariant
                il <= k3 <= pl,
                pl == padded@.len(),
                out@ == mid + padded@.subrange(il as int, k3 as int),
            decreases pl - k3,
        {
            out.push(padded[k3]);
            proof {
                assert(mid + padded@.subrange(il as int, k3 as int) + seq![padded@[k3 as int]]
                    =~= mid + padded@.subrange(il as int, k3 + 1));
            }
            k3 = k3 + 1;
        }
        proof {
            assert(padded@.subrange(il as int, pl as int) =~= padded@.skip(il as int));
            assert(out@ =~= spec_format(v));
        }
    }
    out
}

/// The digit string of `n` is never empty and holds digits only.
pub proof fn lemma_digits_of_are_digits(n: nat)
    ensures
        digits_of(n).len() >= 1,
        all_digits(digits_of(n)),
    decreases n,
{
    if n < 10 {
    } else {
        lemma_digits_of_are_digits(n / 10);
        assert forall|i: int| 0 <= i < digits_of(n).len() implies is_digit(digits_of(n)[i]) by {
            if i < digits_of(n).len() - 1 {
                assert(digits_of(n)[i] == digits_of(n / 10)[i]);
            }
        }
    }
}

/// Reading the digit string of `n` back gives `n`.
pub proof fn lemma_digits_of_value(n: nat)
    ensures
        digits_value(digits_of(n)) == n,
    decreases n,
{
    if n < 10 {
        assert(digits_of(n).drop_last() =~= Seq::<u8>::empty());
        assert(digits_value(Seq::<u8>::empty()) == 0);
        assert(digits_of(n).last() == (DIGIT_ZERO + n) as u8);
        assert(((DIGIT_ZERO + n) as u8) - DIGIT_ZERO == n);
    } else {
        lemma_digits_of_value(n / 10);
        assert(digits_of(n).drop_last() =~= digits_of(n / 10));
        assert(digits_of(n).last() == (DIGIT_ZERO + n % 10) as u8);
        assert(((DIGIT_ZERO + n % 10) as u8) - DIGIT_ZERO == n % 10);
        assert(digits_value(digits_of(n)) == digits_value(digits_of(n / 10)) * 10 + n % 10);
        assert((n / 10) * 10 + n % 10 == n);
    }
}

/// A string of zero digits denotes zero.
pub proof fn lemma_digits_value_zeros(z: Seq<u8>)
    requires
        forall|k: int| 0 <= k < z.len() ==> z[k] == DIGIT_ZERO,
    ensures
        digits_value(z) == 0,
    decreases z.len(),
{
    if z.len() > 0 {
        lemma_digits_value_zeros(z.drop_last());
    }
}

/// Leading zero digits do not change the denoted number.
pub proof fn lemma_digits_value_leading_zeros(z: Seq<u8>, x: Seq<u8>)
    requires
        forall|k: int| 0 <= k < z.len() ==> z[k] == DIGIT_ZERO,
    ensures
        digits_value(z + x) == digits_value(x),
    decreases x.len(),
{
    if x.len() == 0 {
        assert(z + x =~= z);
        lemma_digits_value_zeros(z);
    } else {
        lemma_digits_value_leading_zeros(z, x.drop_last());
        assert((z + x).drop_last() =~= z + x.drop_last());
        assert((z + x).last() == x.last());
    }
}

/// Round trip: the decimal text of a value parses back to that value
/// exactly — no digit and no sign is lost or blurred on the way through
/// the wire format.
#[verifier::rlimit(60)]
pub proof fn lemma_parse_format_round_trip(v: Value)
    ensures
        spec_parse(spec_format(v)) == Some(v),
{
    let digs = digits_of(v.mantissa as nat);
    lemma_digits_of_are_digits(v.mantissa as nat);
    lemma_digits_of_value(v.mantissa as nat);
    let padded = padded_digits(v);
    if digs.len() > v.scale {
        assert(digits_value(padded) == v.mantissa);
    } else {
        let z = Seq::new((v.scale + 1 - digs.len()) as nat, |i: int| DIGIT_ZERO);
        lemma_digits_value_leading_zeros(z, digs);
        assert forall|i: int| 0 <= i < padded.len() implies is_digit(padded[i]) by {
            if i >= z.len() {
                assert(padded[i] == digs[i - z.len()]);
            }
        }
    }
    assert(all_digits(padded));
    assert(padded.len() > v.scale);
    assert(digits_value(padded) == v.mantissa);
    let s = spec_format(v);
    let il = padded.len() - v.scale;
    let body = if v.scale == 0 {
        padded
    } else {
        padded.take(il) + seq![DECIMAL_POINT] + padded.skip(il)
    };
    assert(body[0] == padded[0]);
    assert(is_digit(body[0]));
    if v.negative {
        assert(s == seq![MINUS_SIGN] + body);
        assert(s[0] == MINUS_SIGN);
        assert(sign_len(s) == 1);
        assert(unsigned_part(s) =~= body);
        assert(spec_is_negative(s));
    } else {
        assert(s == body);
        assert(sign_len(s) == 0);
        assert(unsigned_part(s) =~= body);
        assert(!spec_is_negative(s));
    }
    let u = unsigned_part(s);
    if v.scale == 0 {
        assert forall|j: int| 0 <= j < u.len() implies u[j] != DECIMAL_POINT by {
            assert(is_digit(u[j]));
        }
        lemma_find_byte_at(u, DECIMAL_POINT, u.len() as int);
        assert(body_digits(u) == u);
        assert(digits_value(body_digits(u)) == v.mantissa);
        assert(spec_scale(u) == 0);
        assert(well_formed_number(s));
    } else {
        assert forall|j: int| 0 <= j < il implies u[j] != DECIMAL_POINT by {
            assert(u[j] == padded[j]);
            assert(is_digit(u[j]));
        }
        assert(u[il] == DECIMAL_POINT);
        lemma_find_byte_at(u, DECIMAL_POINT, il);
        assert(find_byte(u, DECIMAL_POINT) == il);
        let tail = u.skip(il + 1);
        assert(tail =~= padded.skip(il));
        assert forall|j: int| 0 <= j < tail.len() implies tail[j] != DECIMAL_POINT by {
            assert(is_digit(tail[j]));
        }
        lemma_find_byte_at(tail, DECIMAL_POINT, tail.len() as int);
        assert(u.take(il) =~= padded.take(il));
        assert(body_digits(u) =~= padded);
        assert(digits_value(body_digits(u)) == v.mantissa);
        assert(spec_scale(u) == u.len() - il - 1);
        assert(spec_scale(u) == v.scale);
        assert(well_formed_number(s));
    }
}

/// Parses the text `s` as a decimal number, exactly as `spec_parse`
/// describes: the denoted value on a well-formed number that fits,
/// nothing on any other input.
#[verifier::rlimit(40)]
pub fn parse_value(s: &[u8]) -> (r: Option<Value>)
    ensures
        r == spec_parse(s@),
{
    let n = s.len();
    let off: usize = if n > 0 && (s[0] == MINUS_SIGN || s[0] == PLUS_SIGN) {
        1
    } else {
        0
    };
    let negative = n > 0 && s[0] == MINUS_SIGN;
    let ghost u = s@.skip(off as int);
    proof {
        assert(off == sign_len(s@));
        assert(u == unsigned_part(s@));
        assert(forall|j: int| 0 <= j < u.len() ==> u[j] == s@[off + j]);
    }
    match find_byte_from(s, off, DECIMAL_POINT) {
        None => {
            proof {
                lemma_find_byte_at(u, DECIMAL_POINT, u.len() as int);
                assert(body_digits(u) == u);
                assert(u =~= s@.subrange(off as int, n as int));
            }
            if off == n {
                return None;
            }
            if !all_digits_range(s, off, n) {
                return None;
            }
            match accum_digits(s, off, n, 0, Ghost(Seq::empty())) {
                None => {
                    proof {
                        assert(Seq::empty() + s@.subrange(off as int, n as int) =~= u);
                    }
                    None
                },
                Some(m) => {
                    proof {
                        assert(Seq::empty() + s@.subrange(off as int, n as int) =~= u);
                    }
                    Some(Value { negative, mantissa: m, scale: 0 })
                },
            }
        },
        Some(p) => {
            let ghost d = p - off as int;
            proof {
                lemma_find_byte_at(u, DECIMAL_POINT, d);
                assert(find_byte(u, DECIMAL_POINT) == d);
                assert(u.take(d) =~= s@.subrange(off as int, p as int));
                assert(u.skip(d + 1) =~= s@.subrange(p + 1, n as int));
                assert(body_digits(u) == u.take(d) + u.skip(d + 1));
            }
            match find_byte_from(s, p + 1, DECIMAL_POINT) {
                Some(q) => {
                    proof {
                        let tail = u.skip(d + 1);
                        assert(tail[q - (p + 1)] == DECIMAL_POINT);
                        lemma_find_byte_at(tail, DECIMAL_POINT, q - (p + 1));
                        assert(!well_formed_number(s@));
                    }
                    None
                },
                None => {
                    proof {
                        let tail = u.skip(d + 1);
                        lemma_find_byte_at(tail, DECIMAL_POINT, tail.len() as int);
                    }
                    if !all_digits_range(s, off, p) {
                        proof {
                            let ipart = s@.subrange(off as int, p as int);
                            let k = choose|k: int| 0 <= k < ipart.len() && !is_digit(ipart[k]);
                            assert(body_digits(u)[k] == ipart[k]);
                        }
                        return None;
                    }
                    if !all_digits_range(s, p + 1, n) {
                        proof {
                            let fpart = s@.subrange(p + 1, n as int);
                            let k = choose|k: int| 0 <= k < fpart.len() && !is_digit(fpart[k]);
                            assert(body_digits(u)[d + k] == fpart[k]);
                        }
                        return None;
                    }
                    if off == p && p + 1 == n {
                        assert(body_digits(u).len() == 0);
                        return None;
                    }
                    match accum_digits(s, off, p, 0, Ghost(Seq::empty())) {
                        None => {
                            proof {
                                let ipart = s@.subrange(off as int, p as int);
                                let fpart = s@.subrange(p + 1, n as int);
                                assert(Seq::empty() + ipart =~= ipart);
                                lemma_digits_value_extend(ipart, fpart);
                                assert(ipart + fpart =~= body_digits(u));
                            }
                            None
                        },
                        Some(m1) => {
                            match accum_digits(s, p + 1, n, m1, Ghost(
                                s@.subrange(off as int, p as int),
                            )) {
                                None => {
                                    proof {
                                        assert(s@.subrange(off as int, p as int)
                                            + s@.subrange(p + 1, n as int) =~= body_digits(u));
                                    }
                                    None
                                },
                                Some(m) => {
                                    proof {
                                        assert(s@.subrange(off as int, p as int)
                                            + s@.subrange(p + 1, n as int) =~= body_digits(u));
                                        assert(spec_scale(u) == n - p - 1);
                                    }
                                    Some(Value { negative, mantissa: m, scale: n - p - 1 })
                                },
                            }
                        },
                    }
                },
            }
        },
    }
}

} // verus!
