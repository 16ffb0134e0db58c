//! Base58 codec over the Bitcoin alphabet.

use vstd::prelude::*;

verus! {

/// Error returned when a string holds a character outside the base58 alphabet.
#[derive(Clone, Copy, Debug, PartialEq, Eq, Structural)]
pub struct DecodeError;

/// Index of a character in the Bitcoin base58 alphabet
/// `123456789ABCDEFGHJKLMNPQRSTUVWXYZabcdefghijkmnopqrstuvwxyz`,
/// or -1 when the character is not in the alphabet.
pub open spec fn b58_index(c: char) -> int {
    let u = c as u32;
    if 49 <= u && u <= 57 {
        u - 49
    } else if 65 <= u && u <= 72 {
        u - 56
    } else if 74 <= u && u <= 78 {
        u - 57
    } else if 80 <= u && u <= 90 {
        u - 58
    } else if 97 <= u && u <= 107 {
        u - 64
    } else if 109 <= u && u <= 122 {
        u - 65
    } else {
        -1
    }
}

/// Character of the Bitcoin base58 alphabet at index `d`.
pub open spec fn b58_char(d: int) -> char
    recommends
        0 <= d < 58,
{
    let u = if d < 9 {
        49 + d
    } else if d < 17 {
        56 + d
    } else if d < 22 {
        57 + d
    } else if d < 33 {
        58 + d
    } else if d < 44 {
        64 + d
    } else {
        65 + d
    };
    (u as u32) as char
}

pub proof fn lemma_b58_alphabet(d: int)
    requires
        0 <= d < 58,
    ensures
        b58_index(b58_char(d)) == d,
        b58_char(d) != ':',
        b58_char(d) != '~',
        (b58_char(d) == '1') <==> (d == 0),
{
}

fn digit_to_char(d: u8) -> (c: char)
    requires
        d < 58,
    ensures
        c == b58_char(d as int),
{
    let u: u8 = if d < 9 {
        49 + d
    } else if d < 17 {
        56 + d
    } else if d < 22 {
        57 + d
    } else if d < 33 {
        58 + d
    } else if d < 44 {
        64 + d
    } else {
        65 + d
    };
    u as char
}

fn char_to_digit(c: char) -> (r: Option<u8>)
    ensures
        match r {
            Some(d) => d < 58 && b58_index(c) == d as int,
            None => b58_index(c) == -1,
        },
{
    let u = c as u32;
    if 49 <= u && u <= 57 {
        Some((u - 49) as u8)
    } else if 65 <= u && u <= 72 {
        Some((u - 56) as u8)
    } else if 74 <= u && u <= 78 {
        Some((u - 57) as u8)
    } else if 80 <= u && u <= 90 {
        Some((u - 58) as u8)
    } else if 97 <= u && u <= 107 {
        Some((u - 64) as u8)
    } else if 109 <= u && u <= 122 {
        Some((u - 65) as u8)
    } else {
        None
    }
}

/// Value of a big-endian digit sequence in the given base.
pub open spec fn seq_val(s: Seq<int>, base: int) -> int
    decreases s.len(),
{
    if s.len() == 0 {
        0
    } else {
        seq_val(s.drop_last(), base) * base + s.last()
    }
}

/// Big-endian digits of `v` in the given base, with no leading zero digit;
/// zero is written as the empty sequence.
pub open spec fn digits_of(v: int, base: int) -> Seq<int>
    recommends
        base >= 2,
    decreases v,
    when v <= 0 || base >= 2
    via digits_of_decreases
{
    if v <= 0 || base < 2 {
        Seq::empty()
    } else {
        digits_of(v / base, base).push(v % base)
    }
}

#[via_fn]
proof fn digits_of_decreases(v: int, base: int) {
    if v > 0 && base >= 2 {
        vstd::arithmetic::div_mod::lemma_div_is_strictly_smaller(v, base);
        vstd::arithmetic::div_mod::lemma_div_pos_is_pos(v, base);
    }
}

/// Every element of `s` is a digit of the given base.
pub open spec fn all_digits(s: Seq<int>, base: int) -> bool {
    forall|i: int| 0 <= i < s.len() ==> 0 <= #[trigger] s[i] < base
}

pub proof fn lemma_seq_val_nonneg(s: Seq<int>, base: int)
    requires
        base >= 2,
        all_digits(s, base),
    ensures
        seq_val(s, base) >= 0,
    decreases s.len(),
{
    if s.len() > 0 {
        assert(all_digits(s.drop_last(), base));
        lemma_seq_val_nonneg(s.drop_last(), base);
        assert(seq_val(s.drop_last(), base) * base >= 0) by (nonlinear_arith)
            requires
                seq_val(s.drop_last(), base) >= 0,
                base >= 2,
        ;
    }
}

pub proof fn lemma_seq_val_zero_iff(s: Seq<int>, base: int)
    requires
        base >= 2,
        all_digits(s, base),
    ensures
        (seq_val(s, base) == 0) <==> (forall|i: int| 0 <= i < s.len() ==> s[i] == 0),
    decreases s.len(),
{
    if s.len() > 0 {
        let d = s.drop_last();
        assert(all_digits(d, base));
        lemma_seq_val_zero_iff(d, base);
        lemma_seq_val_nonneg(d, base);
        let vd = seq_val(d, base);
        assert(vd * base == 0 <==> vd == 0) by (nonlinear_arith)
            requires
                base >= 2,
        ;
        assert(vd * base >= 0) by (nonlinear_arith)
            requires
                vd >= 0,
                base >= 2,
        ;
        if seq_val(s, base) == 0 {
            assert(forall|i: int| 0 <= i < s.len() ==> s[i] == 0) by {
                assert(forall|i: int| 0 <= i < d.len() ==> d[i] == 0);
                assert(s.last() == 0);
                assert(forall|i: int| 0 <= i < s.len() - 1 ==> s[i] == d[i]);
            }
        }
        if forall|i: int| 0 <= i < s.len() ==> s[i] == 0 {
            assert(forall|i: int| 0 <= i < d.len() ==> d[i] == 0);
        }
    }
}

pub proof fn lemma_seq_val_pos(s: Seq<int>, base: int)
    requires
        base >= 2,
        all_digits(s, base),
        s.len() > 0,
        s[0] >= 1,
    ensures
        seq_val(s, base) >= 1,
    decreases s.len(),
{
    let d = s.drop_last();
    assert(all_digits(d, base));
    if s.len() == 1 {
        assert(seq_val(s, base) == seq_val(d, base) * base + s.last());
        assert(seq_val(d, base) == 0);
        assert(0 * base == 0) by (nonlinear_arith);
    } else {
        assert(d[0] == s[0]);
        lemma_seq_val_pos(d, base);
        assert(seq_val(d, base) * base >= base) by (nonlinear_arith)
            requires
                seq_val(d, base) >= 1,
                base >= 2,
        ;
    }
}

pub proof fn lemma_digits_of_bounds(v: int, base: int)
    requires
        v >= 0,
        base >= 2,
    ensures
        all_digits(digits_of(v, base), base),
        v > 0 ==> digits_of(v, base).len() > 0 && digits_of(v, base)[0] >= 1,
        v == 0 ==> digits_of(v, base).len() == 0,
    decreases v,
{
    if v > 0 {
        vstd::arithmetic::div_mod::lemma_div_is_strictly_smaller(v, base);
        vstd::arithmetic::div_mod::lemma_div_pos_is_pos(v, base);
        vstd::arithmetic::div_mod::lemma_mod_bound(v, base);
        lemma_digits_of_bounds(v / base, base);
        let p = digits_of(v / base, base);
        assert(digits_of(v, base) == p.push(v % base));
        if v / base == 0 {
            // one digit: v itself, and v >= 1
            vstd::arithmetic::div_mod::lemma_fundamental_div_mod(v, base);
            assert(digits_of(v, base)[0] == v % base);
        } else {
            assert(digits_of(v, base)[0] == p[0]);
        }
    }
}

pub proof fn lemma_digits_of_val(v: int, base: int)
    requires
        v >= 0,
        base >= 2,
    ensures
        seq_val(digits_of(v, base), base) == v,
    decreases v,
{
    if v > 0 {
        vstd::arithmetic::div_mod::lemma_div_is_strictly_smaller(v, base);
        vstd::arithmetic::div_mod::lemma_div_pos_is_pos(v, base);
        lemma_digits_of_val(v / base, base);
        let p = digits_of(v / base, base);
        let s = digits_of(v, base);
        assert(s == p.push(v % base));
        assert(s.drop_last() =~= p);
        assert(s.last() == v % base);
        assert(seq_val(s, base) == (v / base) * base + v % base);
        vstd::arithmetic::div_mod::lemma_fundamental_div_mod(v, base);
    }
}

pub proof fn lemma_digits_of_seq_val(s: Seq<int>, base: int)
    requires
        base >= 2,
        all_digits(s, base),
        s.len() > 0 ==> s[0] != 0,
    ensures
        digits_of(seq_val(s, base), base) == s,
    decreases s.len(),
{
    if s.len() == 0 {
        assert(digits_of(0, base) =~= s);
    } else {
        let d = s.drop_last();
        assert(all_digits(d, base));
        lemma_seq_val_nonneg(d, base);
        lemma_seq_val_pos(s, base);
        let v = seq_val(s, base);
        let vd = seq_val(d, base);
        assert(v == vd * base + s.last());
        vstd::arithmetic::div_mod::lemma_fundamental_div_mod_converse(v, base, vd, s.last());
        assert(v / base == vd && v % base == s.last());
        if d.len() > 0 {
            assert(d[0] == s[0]);
        }
        lemma_digits_of_seq_val(d, base);
        assert(digits_of(v, base) == digits_of(vd, base).push(s.last()));
        assert(d.push(s.last()) =~= s);
    }
}

pub proof fn lemma_seq_val_zeros_prefix(n: nat, s: Seq<int>, base: int)
    ensures
        seq_val(Seq::new(n, |i: int| 0int) + s, base) == seq_val(s, base),
    decreases s.len(),
{
    let z = Seq::new(n, |i: int| 0int);
    if s.len() == 0 {
        assert(z + s =~= z);
        lemma_seq_val_all_zeros(n, base);
    } else {
        assert((z + s).drop_last() =~= z + s.drop_last());
        assert((z + s).last() == s.last());
        lemma_seq_val_zeros_prefix(n, s.drop_last(), base);
    }
}

proof fn lemma_seq_val_all_zeros(n: nat, base: int)
    ensures
        seq_val(Seq::new(n, |i: int| 0int), base) == 0,
    decreases n,
{
    let z = Seq::new(n, |i: int| 0int);
    if n > 0 {
        assert(z.drop_last() =~= Seq::new((n - 1) as nat, |i: int| 0int));
        lemma_seq_val_all_zeros((n - 1) as nat, base);
        assert(0 * base == 0) by (nonlinear_arith);
    }
}

/// Number of copies of `x` at the front of `s`.
pub open spec fn lead_count<T>(s: Seq<T>, x: T) -> int
    decreases s.len(),
{
    if s.len() == 0 || s[0] != x {
        0
    } else {
        1 + lead_count(s.drop_first(), x)
    }
}

pub proof fn lemma_lead_count_from<T>(s: Seq<T>, x: T, n: int)
    requires
        0 <= n <= s.len(),
        forall|i: int| 0 <= i < n ==> s[i] == x,
        n == s.len() || s[n] != x,
    ensures
        lead_count(s, x) == n,
    decreases s.len(),
{
    if n == 0 {
    } else {
        let d = s.drop_first();
        assert(forall|i: int| 0 <= i < n - 1 ==> d[i] == s[i + 1] && s[i + 1] == x);
        if n < s.len() {
            assert(d[n - 1] == s[n]);
        }
        lemma_lead_count_from(d, x, n - 1);
    }
}

pub proof fn lemma_lead_count_bounds<T>(s: Seq<T>, x: T)
    ensures
        0 <= lead_count(s, x) <= s.len(),
        forall|i: int| 0 <= i < lead_count(s, x) ==> s[i] == x,
        lead_count(s, x) < s.len() ==> s[lead_count(s, x)] != x,
    decreases s.len(),
{
    if s.len() > 0 && s[0] == x {
        let d = s.drop_first();
        lemma_lead_count_bounds(d, x);
        let n = lead_count(s, x);
        assert(n == 1 + lead_count(d, x));
        assert forall|i: int| 0 <= i < n implies s[i] == x by {
            if i >= 1 {
                assert(d[i - 1] == x);
                assert(s[i] == d[i - 1]);
            }
        }
        if n < s.len() {
            assert(s[n] == d[n - 1]);
        }
    }
}

/// View of a byte vector as a big-endian digit sequence.
pub open spec fn digit_seq(s: Seq<u8>) -> Seq<int> {
    s.map_values(|x: u8| x as int)
}

pub proof fn lemma_digit_seq(s: Seq<u8>)
    ensures
        digit_seq(s).len() == s.len(),
        forall|i: int| 0 <= i < s.len() ==> #[trigger] digit_seq(s)[i] == s[i] as int,
{
}

proof fn lemma_all_digits_push(s: Seq<int>, x: int, base: int)
    requires
        all_digits(s, base),
        0 <= x < base,
    ensures
        all_digits(s.push(x), base),
{
    assert forall|i: int| 0 <= i < s.push(x).len() implies 0 <= #[trigger] s.push(x)[i]
        < base by {
        if i < s.len() {
            assert(s.push(x)[i] == s[i]);
        } else {
            assert(s.push(x)[i] == x);
        }
    }
}

/// One step of long division: divides the big-endian base-`b` number held in
/// `v` by `m`, returning the quotient digits and the remainder.
fn divmod(v: &Vec<u8>, b: u32, m: u32) -> (res: (Vec<u8>, u8))
    requires
        2 <= b <= 256,
        2 <= m <= 256,
        all_digits(digit_seq(v@), b as int),
    ensures
        res.0@.len() == v@.len(),
        all_digits(digit_seq(res.0@), b as int),
        (res.1 as int) < m,
        seq_val(digit_seq(v@), b as int) == seq_val(digit_seq(res.0@), b as int) * (m as int)
            + res.1 as int,
{
    let mut q: Vec<u8> = Vec::new();
    let mut rem: u32 = 0;
    let mut i: usize = 0;
    while i < v.len()
        invariant
            2 <= b <= 256,
            2 <= m <= 256,
            all_digits(digit_seq(v@), b as int),
            i <= v@.len(),
            q@.len() == i,
            rem < m,
            all_digits(digit_seq(q@), b as int),
            seq_val(digit_seq(v@.take(i as int)), b as int) == seq_val(
                digit_seq(q@),
                b as int,
            ) * (m as int) + rem as int,
        decreases v@.len() - i,
    {
        proof {
            assert(rem as int * b as int + 255 < 0x10000) by (nonlinear_arith)
                requires
                    rem as int <= 255,
                    b as int <= 256,
            ;
        }
        let cur: u32 = rem * b + v[i] as u32;
        let qd: u32 = cur / m;
        let new_rem: u32 = cur % m;
        proof {
            let bb = b as int;
            let mm = m as int;
            let di = v@[i as int] as int;
            let vq = seq_val(digit_seq(q@), bb);
            let vt = seq_val(digit_seq(v@.take(i as int)), bb);
            vstd::arithmetic::div_mod::lemma_fundamental_div_mod(cur as int, mm);
            vstd::arithmetic::div_mod::lemma_mod_bound(cur as int, mm);
            lemma_digit_seq(v@);
            assert(digit_seq(v@)[i as int] == di);
            assert(0 <= digit_seq(v@)[i as int] < bb);
            assert(0 <= di < bb);
            assert((cur as int) < mm * bb) by (nonlinear_arith)
                requires
                    cur as int == rem as int * bb + di,
                    rem as int <= mm - 1,
                    di <= bb - 1,
                    bb >= 2,
                    mm >= 2,
            ;
            // the new quotient digit fits in base b
            assert((qd as int) < bb) by (nonlinear_arith)
                requires
                    cur as int == mm * (qd as int) + new_rem as int,
                    new_rem as int >= 0,
                    (cur as int) < mm * bb,
                    mm >= 2,
            ;
            assert(qd < b);
            let t1 = digit_seq(v@.take(i as int)).push(di);
            assert(digit_seq(v@.take(i + 1)) =~= t1);
            assert(t1.drop_last() =~= digit_seq(v@.take(i as int)));
            assert(t1.last() == di);
            assert(seq_val(t1, bb) == vt * bb + di);
            let t2 = digit_seq(q@).push(qd as int);
            assert(digit_seq(q@.push(qd as u8)) =~= t2);
            assert(t2.drop_last() =~= digit_seq(q@));
            assert(t2.last() == qd as int);
            assert(seq_val(t2, bb) == vq * bb + qd as int);
            assert((vq * mm + rem as int) * bb + di == (vq * bb + qd as int) * mm + new_rem as int)
                by (nonlinear_arith)
                requires
                    cur as int == rem as int * bb + di,
                    cur as int == mm * (qd as int) + new_rem as int,
            ;
        }
        q.push(qd as u8);
        rem = new_rem;
        i += 1;
    }
    proof {
        assert(v@.take(v@.len() as int) =~= v@);
    }
    (q, rem as u8)
}

/// True exactly when every byte of `v` is zero.
fn is_zero(v: &Vec<u8>) -> (r: bool)
    ensures
        r <==> (forall|i: int| 0 <= i < v@.len() ==> v@[i] == 0u8),
{
    let mut i: usize = 0;
    while i < v.len()
        invariant
            i <= v@.len(),
            forall|j: int| 0 <= j < i ==> v@[j] == 0u8,
        decreases v@.len() - i,
    {
        if v[i] != 0 {
            return false;
        }
        i += 1;
    }
    true
}

/// Rewrites the big-endian base-`b` number held in `v` as its big-endian
/// digits in base `m`, dropping any leading zeros.
fn to_base_digits(v: &Vec<u8>, b: u32, m: u32) -> (out: Vec<u8>)
    requires
        2 <= b <= 256,
        2 <= m <= 256,
        all_digits(digit_seq(v@), b as int),
    ensures
        digit_seq(out@) == digits_of(seq_val(digit_seq(v@), b as int), m as int),
        all_digits(digit_seq(out@), m as int),
{
    let ghost v0 = seq_val(digit_seq(v@), b as int);
    proof {
        lemma_seq_val_nonneg(digit_seq(v@), b as int);
    }
    let mut cur: Vec<u8> = Vec::new();
    let mut i: usize = 0;
    while i < v.len()
        invariant
            i <= v@.len(),
            cur@ == v@.take(i as int),
        decreases v@.len() - i,
    {
        cur.push(v[i]);
        proof {
            assert(cur@ =~= v@.take(i + 1));
        }
        i += 1;
    }
    proof {
        assert(cur@ =~= v@);
    }
    let mut rdigits: Vec<u8> = Vec::new();
    loop
        invariant
            2 <= b <= 256,
            2 <= m <= 256,
            all_digits(digit_seq(cur@), b as int),
            all_digits(digit_seq(rdigits@), m as int),
            seq_val(digit_seq(cur@), b as int) >= 0,
            digits_of(v0, m as int) == digits_of(seq_val(digit_seq(cur@), b as int), m as int)
                + digit_seq(rdigits@).reverse(),
        ensures
            all_digits(digit_seq(rdigits@), m as int),
            digits_of(v0, m as int) == digit_seq(rdigits@).reverse(),
        decreases seq_val(digit_seq(cur@), b as int),
    {
        if is_zero(&cur) {
            proof {
                lemma_seq_val_zero_iff(digit_seq(cur@), b as int);
                assert(forall|j: int| 0 <= j < cur@.len() ==> digit_seq(cur@)[j] == 0);
                assert(seq_val(digit_seq(cur@), b as int) == 0);
                assert(digits_of(0, m as int) + digit_seq(rdigits@).reverse() =~= digit_seq(
                    rdigits@,
                ).reverse());
            }
            break ;
        }
        let ghost vc = seq_val(digit_seq(cur@), b as int);
        proof {
            lemma_seq_val_zero_iff(digit_seq(cur@), b as int);
            if vc == 0 {
                assert(forall|j: int| 0 <= j < cur@.len() ==> digit_seq(cur@)[j] == 0);
                assert(forall|j: int|
                    0 <= j < cur@.len() ==> #[trigger] cur@[j] as int == digit_seq(cur@)[j]);
                assert(false);
            }
        }
        let (q, r) = divmod(&cur, b, m);
        proof {
            let mm = m as int;
            let vq = seq_val(digit_seq(q@), b as int);
            lemma_seq_val_nonneg(digit_seq(q@), b as int);
            vstd::arithmetic::div_mod::lemma_fundamental_div_mod_converse(vc, mm, vq, r as int);
            assert(vq == vc / mm && r as int == vc % mm);
            assert(digits_of(vc, mm) == digits_of(vq, mm).push(r as int));
            assert(vq < vc) by (nonlinear_arith)
                requires
                    vq * mm + r as int == vc,
                    vq >= 0,
                    r as int >= 0,
                    mm >= 2,
                    vc > 0,
            ;
            assert(digit_seq(rdigits@.push(r)) =~= digit_seq(rdigits@).push(r as int));
            lemma_all_digits_push(digit_seq(rdigits@), r as int, mm);
            assert(digit_seq(rdigits@.push(r)).reverse() =~= seq![r as int] + digit_seq(
                rdigits@,
            ).reverse());
            assert(digits_of(vq, mm).push(r as int) =~= digits_of(vq, mm) + seq![r as int]);
            assert(digits_of(vc, mm) + digit_seq(rdigits@).reverse() =~= digits_of(vq, mm) + (
            seq![r as int] + digit_seq(rdigits@).reverse()));
        }
        cur = q;
        rdigits.push(r);
    }
    let mut out: Vec<u8> = Vec::new();
    let n = rdigits.len();
    let mut j: usize = 0;
    while j < n
        invariant
            n == rdigits@.len(),
            j <= n,
            out@.len() == j,
            forall|p: int| 0 <= p < j ==> out@[p] == rdigits@[n - 1 - p],
        decreases n - j,
    {
        out.push(rdigits[n - 1 - j]);
        j += 1;
    }
    proof {
        assert(out@ =~= rdigits@.reverse());
        assert(digit_seq(out@) =~= digit_seq(rdigits@).reverse());
    }
    out
}

/// Value of a byte sequence read as a big-endian base-256 number.
pub open spec fn bytes_val(s: Seq<u8>) -> int {
    seq_val(digit_seq(s), 256)
}

/// The base58 string that a byte sequence encodes to: one `'1'` for each
/// leading zero byte, then the base58 digits of the remaining value.
pub open spec fn encode_spec(b: Seq<u8>) -> Seq<char> {
    Seq::new(lead_count(b, 0u8) as nat, |i: int| '1') + digits_of(bytes_val(b), 58).map_values(
        |d: int| b58_char(d),
    )
}

/// Every character of `s` belongs to the base58 alphabet.
pub open spec fn valid_b58(s: Seq<char>) -> bool {
    forall|i: int| 0 <= i < s.len() ==> b58_index(#[trigger] s[i]) >= 0
}

/// Value of a base58 character sequence read as a big-endian number.
pub open spec fn str_val(s: Seq<char>) -> int {
    seq_val(s.map_values(|c: char| b58_index(c)), 58)
}

/// The bytes that a base58 string decodes to, or `None` when a character
/// falls outside the alphabet: one zero byte for each leading `'1'`, then
/// the base-256 digits of the value the string denotes.
pub open spec fn decode_spec(s: Seq<char>) -> Option<Seq<u8>> {
    if valid_b58(s) {
        Some(
            Seq::new(lead_count(s, '1') as nat, |i: int| 0u8) + digits_of(str_val(s), 256)
                .map_values(|d: int| d as u8),
        )
    } else {
        None
    }
}

/// Relies on String::push: appends the given character to the end of the string.
#[verifier::external_body]
pub(crate) fn push_char(s: &mut String, c: char)
    ensures
        final(s)@ == old(s)@.push(c),
{
    s.push(c);
}

/// Encodes a byte sequence as a base58 string over the Bitcoin alphabet.
pub fn encode(bytes: &Vec<u8>) -> (s: String)
    ensures
        s@ == encode_spec(bytes@),
{
    let mut z: usize = 0;
    loop
        invariant
            z <= bytes@.len(),
            forall|i: int| 0 <= i < z ==> bytes@[i] == 0u8,
        ensures
            z <= bytes@.len(),
            forall|i: int| 0 <= i < z ==> bytes@[i] == 0u8,
            z == bytes@.len() || bytes@[z as int] != 0u8,
        decreases bytes@.len() - z,
    {
        if z == bytes.len() {
            break ;
        }
        if bytes[z] != 0 {
            break ;
        }
        z += 1;
    }
    proof {
        lemma_lead_count_from(bytes@, 0u8, z as int);
        lemma_digit_seq(bytes@);
        assert(all_digits(digit_seq(bytes@), 256));
    }
    let digits = to_base_digits(bytes, 256, 58);
    proof {
        lemma_digit_seq(digits@);
    }
    let mut s = String::new();
    let mut i: usize = 0;
    while i < z
        invariant
            i <= z,
            s@ =~= Seq::new(i as nat, |k: int| '1'),
        decreases z - i,
    {
        push_char(&mut s, '1');
        proof {
            assert(s@ =~= Seq::new((i + 1) as nat, |k: int| '1'));
        }
        i += 1;
    }
    let ghost ones = Seq::new(z as nat, |k: int| '1');
    proof {
        assert(s@ =~= ones + digit_seq(digits@).take(0).map_values(|d: int| b58_char(d)));
    }
    let mut j: usize = 0;
    while j < digits.len()
        invariant
            j <= digits@.len(),
            ones == Seq::new(z as nat, |k: int| '1'),
            all_digits(digit_seq(digits@), 58),
            forall|p: int| 0 <= p < digits@.len() ==> #[trigger] digit_seq(digits@)[p] == digits@[p] as int,
            s@ == ones + digit_seq(digits@).take(j as int).map_values(|d: int| b58_char(d)),
        decreases digits@.len() - j,
    {
        proof {
            assert(digit_seq(digits@)[j as int] == digits@[j as int] as int);
        }
        let c = digit_to_char(digits[j]);
        push_char(&mut s, c);
        proof {
            assert(s@ =~= ones + digit_seq(digits@).take(j + 1).map_values(|d: int| b58_char(d)));
        }
        j += 1;
    }
    proof {
        assert(digit_seq(digits@).take(digits@.len() as int) =~= digit_seq(digits@));
        assert(s@ == ones + digit_seq(digits@).map_values(|d: int| b58_char(d)));
        assert(s@ =~= encode_spec(bytes@));
    }
    s
}

/// Decodes a base58 string over the Bitcoin alphabet into the byte sequence
/// it denotes, or reports the character outside the alphabet.
pub fn decode(s: &str) -> (r: Result<Vec<u8>, DecodeError>)
    ensures
        match r {
            Ok(v) => decode_spec(s@) == Some(v@),
            Err(e) => decode_spec(s@) is None,
        },
{
    let n = s.unicode_len();
    let mut digits: Vec<u8> = Vec::new();
    let mut i: usize = 0;
    while i < n
        invariant
            n == s@.len(),
            i <= n,
            digits@.len() == i,
            forall|j: int| 0 <= j < i ==> b58_index(#[trigger] s@[j]) >= 0,
            forall|j: int| 0 <= j < i ==> #[trigger] digits@[j] as int == b58_index(s@[j]),
        decreases n - i,
    {
        let c = s.get_char(i);
        let ghost dpre = digits@;
        match char_to_digit(c) {
            Some(d) => {
                digits.push(d);
                proof {
                    assert forall|j: int| 0 <= j < i + 1 implies #[trigger] digits@[j] as int
                        == b58_index(s@[j]) by {
                        if j < i {
                            assert(digits@[j] == dpre[j]);
                        } else {
                            assert(digits@[j] == d);
                        }
                    }
                }
            },
            None => {
                proof {
                    assert(b58_index(s@[i as int]) == -1);
                    assert(!valid_b58(s@));
                }
                return Err(DecodeError);
            },
        }
        i += 1;
    }
    proof {
        assert(valid_b58(s@));
        lemma_digit_seq(digits@);
        assert(digit_seq(digits@) =~= s@.map_values(|c: char| b58_index(c)));
        assert(all_digits(digit_seq(digits@), 58));
    }
    let mut z: usize = 0;
    loop
        invariant
            n == s@.len(),
            digits@.len() == n,
            z <= n,
            valid_b58(s@),
            forall|j: int| 0 <= j < n ==> #[trigger] digits@[j] as int == b58_index(s@[j]),
            forall|i: int| 0 <= i < z ==> s@[i] == '1',
        ensures
            z <= n,
            forall|i: int| 0 <= i < z ==> s@[i] == '1',
            z == n || s@[z as int] != '1',
        decreases n - z,
    {
        if z == digits.len() {
            break ;
        }
        if digits[z] != 0 {
            proof {
                assert(b58_index(s@[z as int]) != 0);
                assert(s@[z as int] != '1');
            }
            break ;
        }
        proof {
            assert(b58_index(s@[z as int]) == 0);
            let c = s@[z as int];
            assert(c as u32 == 49);
            vstd::utf8::char_u32_cast(c, 49);
            vstd::utf8::char_u32_cast('1', 49);
            assert(c == '1');
        }
        z += 1;
    }
    proof {
        lemma_lead_count_from(s@, '1', z as int);
    }
    let bytes = to_base_digits(&digits, 58, 256);
    proof {
        lemma_digit_seq(bytes@);
    }
    let mut out: Vec<u8> = Vec::new();
    let mut i2: usize = 0;
    while i2 < z
        invariant
            i2 <= z,
            out@ =~= Seq::new(i2 as nat, |k: int| 0u8),
        decreases z - i2,
    {
        out.push(0);
        proof {
            assert(out@ =~= Seq::new((i2 + 1) as nat, |k: int| 0u8));
        }
        i2 += 1;
    }
    let ghost zeros = Seq::new(z as nat, |k: int| 0u8);
    proof {
        assert(out@ =~= zeros + bytes@.take(0));
    }
    let mut j2: usize = 0;
    while j2 < bytes.len()
        invariant
            j2 <= bytes@.len(),
            zeros == Seq::new(z as nat, |k: int| 0u8),
            out@ == zeros + bytes@.take(j2 as int),
        decreases bytes@.len() - j2,
    {
        out.push(bytes[j2]);
        proof {
            assert(out@ =~= zeros + bytes@.take(j2 + 1));
        }
        j2 += 1;
    }
    proof {
        assert(bytes@.take(bytes@.len() as int) =~= bytes@);
        assert(out@ == zeros + bytes@);
        let dov = digits_of(str_val(s@), 256);
        assert(digit_seq(bytes@) == dov);
        lemma_seq_val_nonneg(digit_seq(digits@), 58);
        assert(str_val(s@) >= 0);
        lemma_digits_of_bounds(str_val(s@), 256);
        assert(bytes@ =~= dov.map_values(|d: int| d as u8));
        assert(decode_spec(s@) == Some(out@));
    }
    Ok(out)
}

/// Every character of an encoded string is in the base58 alphabet; in
/// particular none is a colon or the abbreviation marker.
pub proof fn lemma_encode_valid(b: Seq<u8>)
    ensures
        valid_b58(encode_spec(b)),
        forall|i: int|
            0 <= i < encode_spec(b).len() ==> #[trigger] encode_spec(b)[i] != ':' && encode_spec(
                b,
            )[i] != '~',
{
    let z = lead_count(b, 0u8);
    let v = bytes_val(b);
    let dg = digits_of(v, 58);
    let e = encode_spec(b);
    lemma_lead_count_bounds(b, 0u8);
    lemma_digit_seq(b);
    lemma_seq_val_nonneg(digit_seq(b), 256);
    lemma_digits_of_bounds(v, 58);
    assert forall|i: int| 0 <= i < e.len() implies b58_index(#[trigger] e[i]) >= 0 && e[i] != ':'
        && e[i] != '~' by {
        if i < z {
            assert(e[i] == '1');
        } else {
            assert(e[i] == dg.map_values(|d: int| b58_char(d))[i - z]);
            assert(e[i] == b58_char(dg[i - z]));
            lemma_b58_alphabet(dg[i - z]);
        }
    }
}

/// Round trip of the codec: decoding an encoded byte sequence gives the
/// bytes back, for every byte sequence.
pub proof fn lemma_decode_encode(b: Seq<u8>)
    ensures
        decode_spec(encode_spec(b)) == Some(b),
{
    let z = lead_count(b, 0u8);
    let v = bytes_val(b);
    let dg = digits_of(v, 58);
    let e = encode_spec(b);
    let ones = Seq::new(z as nat, |i: int| '1');
    lemma_lead_count_bounds(b, 0u8);
    lemma_digit_seq(b);
    assert(all_digits(digit_seq(b), 256));
    lemma_seq_val_nonneg(digit_seq(b), 256);
    lemma_digits_of_bounds(v, 58);
    assert(e.len() == z + dg.len());
    assert forall|i: int| 0 <= i < e.len() implies b58_index(#[trigger] e[i]) >= 0 by {
        if i < z {
            assert(e[i] == '1');
        } else {
            assert(e[i] == dg.map_values(|d: int| b58_char(d))[i - z]);
            assert(e[i] == b58_char(dg[i - z]));
            lemma_b58_alphabet(dg[i - z]);
        }
    }
    assert(valid_b58(e));
    let m = e.map_values(|c: char| b58_index(c));
    assert forall|i: int| 0 <= i < e.len() implies #[trigger] m[i] == (
    Seq::new(z as nat, |k: int| 0int) + dg)[i] by {
        if i < z {
            assert(e[i] == '1');
            assert(m[i] == b58_index('1'));
        } else {
            assert(e[i] == b58_char(dg[i - z]));
            lemma_b58_alphabet(dg[i - z]);
            assert(m[i] == dg[i - z]);
        }
    }
    assert(m =~= Seq::new(z as nat, |k: int| 0int) + dg);
    lemma_seq_val_zeros_prefix(z as nat, dg, 58);
    lemma_digits_of_val(v, 58);
    assert(str_val(e) == v);
    if dg.len() == 0 {
        // the value is zero: every byte is a leading zero
        assert(v == 0);
        lemma_seq_val_zero_iff(digit_seq(b), 256);
        assert(forall|i: int| 0 <= i < b.len() ==> digit_seq(b)[i] == 0);
        assert forall|i: int| 0 <= i < b.len() implies b[i] == 0u8 by {
            assert(digit_seq(b)[i] == 0);
        }
        lemma_lead_count_from(b, 0u8, b.len() as int);
        assert(z == b.len());
        assert(e =~= ones);
        assert(forall|i: int| 0 <= i < e.len() ==> e[i] == '1');
        lemma_lead_count_from(e, '1', e.len() as int);
        assert(lead_count(e, '1') == z);
        assert(digits_of(v, 256) =~= Seq::<int>::empty());
        assert(Seq::new(z as nat, |i: int| 0u8) + digits_of(v, 256).map_values(|d: int| d as u8)
            =~= b);
        assert(decode_spec(e) == Some(b));
    } else {
        assert(dg[0] != 0);
        lemma_b58_alphabet(dg[0]);
        assert(e[z] == b58_char(dg[0]));
        assert(e[z] != '1');
        lemma_lead_count_from(e, '1', z);
        assert(lead_count(e, '1') == z);
        // the bytes after the leading zeros carry the value, with no leading zero
        if z == b.len() {
            lemma_seq_val_zero_iff(digit_seq(b), 256);
            assert(forall|i: int| 0 <= i < b.len() ==> b[i] == 0u8 && digit_seq(b)[i] == 0);
            assert(v == 0);
            assert(false);
        }
        assert(b[z] != 0u8);
        let tail = digit_seq(b).subrange(z, b.len() as int);
        assert(all_digits(tail, 256));
        assert(tail[0] == digit_seq(b)[z]);
        assert(tail[0] != 0);
        assert(Seq::new(z as nat, |k: int| 0int) + tail =~= digit_seq(b));
        lemma_seq_val_zeros_prefix(z as nat, tail, 256);
        assert(seq_val(tail, 256) == v);
        lemma_digits_of_seq_val(tail, 256);
        assert(digits_of(v, 256) == tail);
        assert(digits_of(v, 256).map_values(|d: int| d as u8) =~= b.subrange(z, b.len() as int));
        assert(Seq::new(z as nat, |i: int| 0u8) + b.subrange(z, b.len() as int) =~= b);
        assert(decode_spec(e) == Some(b));
    }
}

} // verus!
