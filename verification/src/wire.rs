//! Wire-level building blocks: the canonical byte forms of literals, decimal
//! numbers and fixed-point numbers, and parsers proved both sound (whatever
//! they accept is exactly the canonical form of the value they return) and
//! complete (on input that carries a canonical form they return that value).

use vstd::prelude::*;

verus! {

broadcast use vstd::string::group_string_axioms;

/// The bytes of an ASCII character sequence.
pub open spec fn lit(s: Seq<char>) -> Seq<u8> {
    Seq::new(s.len(), |i: int| s[i] as u8)
}

/// `p` occurs in `buf` starting at position `i`.
pub open spec fn starts_at(buf: Seq<u8>, i: int, p: Seq<u8>) -> bool {
    &&& 0 <= i
    &&& i + p.len() <= buf.len()
    &&& forall|k: int| 0 <= k < p.len() ==> buf[i + k] == #[trigger] p[k]
}

/// Occurrence of a concatenation is occurrence of both halves in turn.
pub proof fn lemma_starts_at_concat(buf: Seq<u8>, i: int, a: Seq<u8>, b: Seq<u8>)
    ensures
        starts_at(buf, i, a + b) <==> (starts_at(buf, i, a) && starts_at(buf, i + a.len(), b)),
{
    if starts_at(buf, i, a + b) {
        assert forall|k: int| 0 <= k < a.len() implies buf[i + k] == #[trigger] a[k] by {
            assert(buf[i + k] == (a + b)[k]);
        }
        assert forall|k: int| 0 <= k < b.len() implies buf[i + a.len() + k] == #[trigger] b[k] by {
            assert(buf[i + a.len() + k] == (a + b)[a.len() + k]);
        }
    }
    if starts_at(buf, i, a) && starts_at(buf, i + a.len(), b) {
        assert forall|k: int| 0 <= k < (a + b).len() implies buf[i + k] == #[trigger] (a + b)[k] by {
            if k < a.len() {
                assert(buf[i + k] == a[k]);
            } else {
                assert(buf[i + (a.len() + (k - a.len()))] == b[k - a.len()]);
            }
        }
    }
}

/// A whole buffer that carries `p` at position zero and has its length is `p`.
pub proof fn lemma_starts_at_full(buf: Seq<u8>, p: Seq<u8>)
    requires
        starts_at(buf, 0, p),
        buf.len() == p.len(),
    ensures
        buf == p,
{
    assert(buf =~= p);
}

/// Occurrence of `p` at `i` pins the subrange there.
pub proof fn lemma_starts_at_subrange(buf: Seq<u8>, i: int, p: Seq<u8>)
    requires
        starts_at(buf, i, p),
    ensures
        buf.subrange(i, i + p.len() as int) == p,
{
    assert(buf.subrange(i, i + p.len() as int) =~= p);
}

/// Match one ASCII literal at position `i`: succeeds exactly when the
/// literal's bytes occur there, and then consumes exactly them.
pub fn expect_lit(buf: &[u8], i: usize, s: &str) -> (r: Option<usize>)
    requires
        s.is_ascii(),
        i <= buf@.len(),
    ensures
        r is Some <==> starts_at(buf@, i as int, lit(s@)),
        r matches Some(j) ==> j == i + s@.len() && i <= j <= buf@.len(),
{
    let bs = s.as_bytes();
    proof {
        assert(bs@ =~= lit(s@));
    }
    let n = bs.len();
    if buf.len() - i < n {
        return None;
    }
    let mut k: usize = 0;
    while k < n
        invariant
            0 <= k <= n,
            i + n <= buf@.len(),
            buf@.len() <= usize::MAX,
            bs@ == lit(s@),
            n == lit(s@).len(),
            forall|t: int| 0 <= t < k ==> buf@[i + t] == lit(s@)[t],
        decreases n - k,
    {
        if buf[i + k] != bs[k] {
            return None;
        }
        k = k + 1;
    }
    Some(i + n)
}

/// Append one ASCII literal to the output.
pub fn emit_lit(out: &mut Vec<u8>, s: &str)
    requires
        s.is_ascii(),
    ensures
        final(out)@ == old(out)@ + lit(s@),
{
    let bs = s.as_bytes();
    proof {
        assert(bs@ =~= lit(s@));
    }
    out.extend_from_slice(bs);
}

/// An ASCII decimal digit.
pub open spec fn is_digit(b: u8) -> bool {
    48 <= b <= 57
}

/// Canonical decimal digits of a natural number: no sign, no leading zero.
pub open spec fn dec_u(n: nat) -> Seq<u8>
    decreases n,
{
    if n < 10 {
        seq![(48 + n) as u8]
    } else {
        dec_u(n / 10).push((48 + n % 10) as u8)
    }
}

/// The value a digit string denotes.
pub open spec fn val_of(s: Seq<u8>) -> nat
    decreases s.len(),
{
    if s.len() == 0 {
        0
    } else {
        (val_of(s.drop_last()) * 10 + (s.last() - 48)) as nat
    }
}

/// Shape of canonical digits: at least one digit, all digits, a leading zero
/// only for zero itself.
pub proof fn lemma_dec_u_shape(n: nat)
    ensures
        dec_u(n).len() >= 1,
        forall|k: int| 0 <= k < dec_u(n).len() ==> is_digit(#[trigger] dec_u(n)[k]),
        (dec_u(n)[0] == 48) <==> (n == 0),
        n < 10 ==> dec_u(n).len() == 1,
    decreases n,
{
    if n >= 10 {
        lemma_dec_u_shape(n / 10);
        assert forall|k: int| 0 <= k < dec_u(n).len() implies is_digit(#[trigger] dec_u(n)[k]) by {
            if k < dec_u(n / 10).len() {
                assert(dec_u(n)[k] == dec_u(n / 10)[k]);
            }
        }
        assert(dec_u(n)[0] == dec_u(n / 10)[0]);
    }
}

/// Printing then evaluating is the identity.
pub proof fn lemma_val_of_dec_u(n: nat)
    ensures
        val_of(dec_u(n)) == n,
    decreases n,
{
    if n < 10 {
        let s = seq![(48 + n) as u8];
        assert(s.drop_last() =~= Seq::<u8>::empty());
        assert(s.last() == (48 + n) as u8);
        assert(val_of(s) == val_of(s.drop_last()) * 10 + (s.last() - 48));
    } else {
        lemma_val_of_dec_u(n / 10);
        let s = dec_u(n / 10).push((48 + n % 10) as u8);
        assert(s.drop_last() =~= dec_u(n / 10));
        assert(s.last() == (48 + n % 10) as u8);
    }
}

/// A digit string's value only grows as digits are appended.
pub proof fn lemma_val_of_prefix(s: Seq<u8>, p: int)
    requires
        0 <= p <= s.len(),
        forall|k: int| 0 <= k < s.len() ==> is_digit(#[trigger] s[k]),
    ensures
        val_of(s.subrange(0, p)) <= val_of(s),
    decreases s.len() - p,
{
    if p == s.len() {
        assert(s.subrange(0, p) =~= s);
    } else {
        lemma_val_of_prefix(s.drop_last(), p);
        assert(s.drop_last().subrange(0, p) =~= s.subrange(0, p));
        assert(is_digit(s.last()));
        assert(val_of(s) == val_of(s.drop_last()) * 10 + (s.last() - 48));
    }
}

/// A digit string that does not start with zero denotes at least one.
pub proof fn lemma_val_of_nonzero(s: Seq<u8>)
    requires
        s.len() >= 1,
        forall|k: int| 0 <= k < s.len() ==> is_digit(#[trigger] s[k]),
        s[0] != 48,
    ensures
        val_of(s) >= 1,
    decreases s.len(),
{
    if s.len() == 1 {
        assert(s.drop_last() =~= Seq::<u8>::empty());
    } else {
        lemma_val_of_nonzero(s.drop_last());
        assert(s.drop_last()[0] == s[0]);
        assert(val_of(s) == val_of(s.drop_last()) * 10 + (s.last() - 48));
        assert(is_digit(s.last()));
    }
}

/// A digit string with no leading zero is the canonical form of its value.
pub proof fn lemma_digits_canonical(s: Seq<u8>)
    requires
        s.len() >= 1,
        forall|k: int| 0 <= k < s.len() ==> is_digit(#[trigger] s[k]),
        s[0] != 48 || s.len() == 1,
    ensures
        s == dec_u(val_of(s)),
    decreases s.len(),
{
    if s.len() == 1 {
        assert(s.drop_last() =~= Seq::<u8>::empty());
        assert(s.last() == s[0]);
        assert(val_of(s) == val_of(s.drop_last()) * 10 + (s.last() - 48));
        assert(val_of(s) == (s[0] - 48) as nat);
        assert(s =~= dec_u(val_of(s)));
    } else {
        let t = s.drop_last();
        assert(t[0] == s[0]);
        lemma_digits_canonical(t);
        lemma_val_of_nonzero(t);
        let v = val_of(s);
        assert(is_digit(s.last()));
        assert(v == val_of(t) * 10 + (s.last() - 48));
        assert(v >= 10);
        assert(v / 10 == val_of(t) && v % 10 == (s.last() - 48)) by (nonlinear_arith)
            requires
                v == val_of(t) * 10 + (s.last() - 48),
                is_digit(s.last()),
                val_of(t) >= 1,
        ;
        assert(dec_u(v) == dec_u(v / 10).push((48 + v % 10) as u8));
        assert(s =~= dec_u(v));
    }
}

/// There is no digit at `j` (or `j` is the end): a decimal number read up to
/// `j` cannot extend further.
pub open spec fn num_boundary(buf: Seq<u8>, j: int) -> bool {
    j == buf.len() || !is_digit(buf[j])
}

/// Parse a canonical unsigned decimal number at `i`.
///
/// Sound: on success the consumed bytes are exactly `dec_u(v)` and no digit
/// follows them.  Complete: if any `n`'s canonical digits occur at `i` with
/// no digit after them, the parse succeeds with exactly `n`.
pub fn parse_u64(buf: &[u8], i: usize) -> (r: Option<(usize, u64)>)
    requires
        i <= buf@.len(),
    ensures
        r matches Some((j, v)) ==> i < j <= buf@.len() && starts_at(buf@, i as int, dec_u(v as nat))
            && j == i + dec_u(v as nat).len() && num_boundary(buf@, j as int),
        forall|n: u64| #![trigger dec_u(n as nat)]
            starts_at(buf@, i as int, dec_u(n as nat)) && num_boundary(
                buf@,
                i + dec_u(n as nat).len(),
            ) ==> r == Some(((i + dec_u(n as nat).len()) as usize, n)),
{
    if i == buf.len() || !(48 <= buf[i] && buf[i] <= 57) {
        proof {
            assert forall|n: u64| #![trigger dec_u(n as nat)]
                starts_at(buf@, i as int, dec_u(n as nat)) implies false by {
                lemma_dec_u_shape(n as nat);
                assert(buf@[i as int] == dec_u(n as nat)[0]);
            }
        }
        return None;
    }
    if buf[i] == 48 {
        // canonical zero is the single digit zero
        if i + 1 < buf.len() && 48 <= buf[i + 1] && buf[i + 1] <= 57 {
            proof {
                assert forall|n: u64| #![trigger dec_u(n as nat)]
                    starts_at(buf@, i as int, dec_u(n as nat)) && num_boundary(
                        buf@,
                        i + dec_u(n as nat).len(),
                    ) implies false by {
                    lemma_dec_u_shape(n as nat);
                    assert(buf@[i as int] == dec_u(n as nat)[0]);
                    assert(n == 0);
                    assert(dec_u(n as nat).len() == 1);
                }
            }
            return None;
        }
        proof {
            assert(dec_u(0) =~= seq![48u8]);
            assert(starts_at(buf@, i as int, dec_u(0)));
            assert forall|n: u64| #![trigger dec_u(n as nat)]
                starts_at(buf@, i as int, dec_u(n as nat)) && num_boundary(
                    buf@,
                    i + dec_u(n as nat).len(),
                ) implies n == 0 by {
                lemma_dec_u_shape(n as nat);
                assert(buf@[i as int] == dec_u(n as nat)[0]);
            }
        }
        return Some((i + 1, 0));
    }
    let mut j: usize = i;
    let mut acc: u64 = 0;
    loop
        invariant
            i <= j <= buf@.len(),
            i < buf@.len(),
            49 <= buf@[i as int] <= 57,
            forall|t: int| i <= t < j ==> is_digit(#[trigger] buf@[t]),
            acc == val_of(buf@.subrange(i as int, j as int)),
        ensures
            i < j <= buf@.len(),
            forall|t: int| i <= t < j ==> is_digit(#[trigger] buf@[t]),
            acc == val_of(buf@.subrange(i as int, j as int)),
            num_boundary(buf@, j as int),
        decreases buf@.len() - j,
    {
        if j == buf.len() || !(48 <= buf[j] && buf[j] <= 57) {
            break;
        }
        let d = buf[j] - 48;
        if acc > (u64::MAX - d as u64) / 10 {
            // the number would overflow: no canonical in-range value matches
            proof {
                let run = buf@.subrange(i as int, j as int + 1);
                assert(val_of(run) == acc * 10 + d) by {
                    assert(run.drop_last() =~= buf@.subrange(i as int, j as int));
                    assert(run.last() == buf@[j as int]);
                };
                assert(acc * 10 + d > u64::MAX) by (nonlinear_arith)
                    requires
                        acc > (u64::MAX - d as u64) / 10,
                        d < 10,
                ;
                assert forall|n: u64| #![trigger dec_u(n as nat)]
                    starts_at(buf@, i as int, dec_u(n as nat)) && num_boundary(
                        buf@,
                        i + dec_u(n as nat).len(),
                    ) implies false by {
                    lemma_dec_u_shape(n as nat);
                    let ln = dec_u(n as nat).len() as int;
                    // the parser's scanned run stays inside the canonical digits
                    assert(j + 1 <= i + ln) by {
                        if i + ln < j + 1 {
                            assert(is_digit(buf@[i + ln]));
                        }
                    }
                    assert(run =~= dec_u(n as nat).subrange(0, j + 1 - i));
                    lemma_val_of_prefix(dec_u(n as nat), j + 1 - i);
                    lemma_val_of_dec_u(n as nat);
                }
            }
            return None;
        }
        proof {
            assert(acc * 10 + d <= u64::MAX) by (nonlinear_arith)
                requires
                    acc <= (u64::MAX - d as u64) / 10,
                    d < 10,
            ;
            let run = buf@.subrange(i as int, j as int + 1);
            assert(run.drop_last() =~= buf@.subrange(i as int, j as int));
            assert(run.last() == buf@[j as int]);
        }
        acc = acc * 10 + d as u64;
        j = j + 1;
    }
    proof {
        let run = buf@.subrange(i as int, j as int);
        assert(run.len() >= 1) by {
            assert(is_digit(buf@[i as int]));
        }
        assert(run[0] == buf@[i as int]);
        lemma_digits_canonical(run);
        assert(run == dec_u(acc as nat));
        lemma_starts_at_subrange(buf@, i as int, run);
        assert(starts_at(buf@, i as int, dec_u(acc as nat))) by {
            assert forall|k: int| 0 <= k < run.len() implies buf@[i + k] == run[k] by {}
        }
        assert forall|n: u64| #![trigger dec_u(n as nat)]
            starts_at(buf@, i as int, dec_u(n as nat)) && num_boundary(
                buf@,
                i + dec_u(n as nat).len(),
            ) implies ((i + dec_u(n as nat).len()) as usize == j && n == acc) by {
            lemma_dec_u_shape(n as nat);
            let ln = dec_u(n as nat).len() as int;
            assert(i + ln == j) by {
                if i + ln < j {
                    assert(is_digit(buf@[i + ln]));
                }
                if j < i + ln {
                    assert(buf@[j as int] == dec_u(n as nat)[j - i]);
                    assert(is_digit(buf@[j as int]));
                    assert(j == buf@.len() || !is_digit(buf@[j as int]));
                }
            }
            assert(run =~= dec_u(n as nat));
            lemma_val_of_dec_u(n as nat);
        }
    }
    Some((j, acc))
}

/// Append the canonical decimal digits of an unsigned number.
pub fn emit_u64(out: &mut Vec<u8>, v: u64)
    ensures
        final(out)@ == old(out)@ + dec_u(v as nat),
    decreases v,
{
    if v < 10 {
        out.push(48 + v as u8);
        proof {
            assert(old(out)@.push((48 + v) as u8) =~= old(out)@ + dec_u(v as nat));
        }
    } else {
        emit_u64(out, v / 10);
        out.push(48 + (v % 10) as u8);
        proof {
            assert((old(out)@ + dec_u((v / 10) as nat)).push((48 + (v as nat) % 10) as u8)
                =~= old(out)@ + dec_u(v as nat));
        }
    }
}

/// Canonical decimal form of an integer: a minus sign for negative values,
/// then the digits, no leading zero.
pub open spec fn enc_i(v: int) -> Seq<u8> {
    if v < 0 {
        seq![45u8] + dec_u((-v) as nat)
    } else {
        dec_u(v as nat)
    }
}

/// Parse a canonical signed decimal number at `i`.  Sound and complete in
/// the sense of [`parse_u64`]; the extreme value `i64::MIN` is left out so
/// that negation stays in range.
pub fn parse_i64(buf: &[u8], i: usize) -> (r: Option<(usize, i64)>)
    requires
        i <= buf@.len(),
    ensures
        r matches Some((j, v)) ==> i < j <= buf@.len() && v != i64::MIN && starts_at(
            buf@,
            i as int,
            enc_i(v as int),
        ) && j == i + enc_i(v as int).len() && num_boundary(buf@, j as int),
        forall|n: i64| #![trigger enc_i(n as int)]
            n != i64::MIN && starts_at(buf@, i as int, enc_i(n as int)) && num_boundary(
                buf@,
                i + enc_i(n as int).len(),
            ) ==> r == Some(((i + enc_i(n as int).len()) as usize, n)),
{
    if i < buf.len() && buf[i] == 45 {
        proof {
            assert forall|n: i64| n >= 0 && starts_at(buf@, i as int, enc_i(n as int)) implies false by {
                lemma_dec_u_shape(n as nat);
                assert(buf@[i as int] == dec_u(n as nat)[0]);
            }
            assert forall|n: i64|
                n < 0 && n != i64::MIN && #[trigger] starts_at(
                    buf@,
                    i as int,
                    enc_i(n as int),
                ) implies starts_at(buf@, i as int + 1, dec_u((-n) as nat)) by {
                lemma_starts_at_concat(buf@, i as int, seq![45u8], dec_u((-n) as nat));
            }
        }
        match parse_u64(buf, i + 1) {
            Some((j, u)) => {
                proof {
                    assert forall|n: i64|
                        n < 0 && n != i64::MIN && starts_at(buf@, i as int, enc_i(n as int))
                            && num_boundary(
                            buf@,
                            i + enc_i(n as int).len(),
                        ) implies u == -n && j == i + enc_i(n as int).len() by {
                        let m = ((-n) as u64);
                        assert(dec_u(m as nat) == dec_u((-n) as nat));
                        assert(starts_at(buf@, i as int + 1, dec_u(m as nat)));
                        assert(num_boundary(buf@, (i + 1) + dec_u(m as nat).len()));
                    }
                }
                if u == 0 || u > i64::MAX as u64 {
                    return None;
                }
                proof {
                    let v: int = -(u as int);
                    lemma_starts_at_concat(buf@, i as int, seq![45u8], dec_u(u as nat));
                    assert(starts_at(buf@, i as int, enc_i(v)));
                    assert(enc_i(v).len() == 1 + dec_u(u as nat).len());
                }
                Some((j, -(u as i64)))
            },
            None => {
                proof {
                    assert forall|n: i64|
                        n < 0 && n != i64::MIN && starts_at(buf@, i as int, enc_i(n as int))
                            && num_boundary(buf@, i + enc_i(n as int).len()) implies false by {
                        let m = ((-n) as u64);
                        assert(dec_u(m as nat) == dec_u((-n) as nat));
                        assert(starts_at(buf@, i as int + 1, dec_u(m as nat)));
                        assert(num_boundary(buf@, (i + 1) + dec_u(m as nat).len()));
                    }
                }
                None
            },
        }
    } else {
        proof {
            assert forall|n: i64|
                n < 0 && n != i64::MIN && #[trigger] starts_at(
                    buf@,
                    i as int,
                    enc_i(n as int),
                ) implies false by {
                assert(buf@[i as int] == (seq![45u8] + dec_u((-n) as nat))[0]);
            }
        }
        match parse_u64(buf, i) {
            Some((j, u)) => {
                if u > i64::MAX as u64 {
                    proof {
                        assert forall|n: i64|
                            n >= 0 && starts_at(buf@, i as int, enc_i(n as int)) && num_boundary(
                                buf@,
                                i + enc_i(n as int).len(),
                            ) implies false by {
                            let m = (n as u64);
                            assert(dec_u(m as nat) == dec_u(n as nat));
                        }
                    }
                    return None;
                }
                proof {
                    assert forall|n: i64|
                        n >= 0 && starts_at(buf@, i as int, enc_i(n as int)) && num_boundary(
                            buf@,
                            i + enc_i(n as int).len(),
                        ) implies u == n && j == i + enc_i(n as int).len() by {
                        let m = (n as u64);
                        assert(dec_u(m as nat) == dec_u(n as nat));
                    }
                }
                Some((j, u as i64))
            },
            None => {
                proof {
                    assert forall|n: i64|
                        n >= 0 && starts_at(buf@, i as int, enc_i(n as int)) && num_boundary(
                            buf@,
                            i + enc_i(n as int).len(),
                        ) implies false by {
                        let m = (n as u64);
                        assert(dec_u(m as nat) == dec_u(n as nat));
                    }
                }
                None
            },
        }
    }
}

/// Exactly three digits, most significant first: the thousandths part of a
/// fixed-point number.
pub open spec fn frac3(m: nat) -> Seq<u8> {
    seq![(48 + m / 100) as u8, (48 + (m / 10) % 10) as u8, (48 + m % 10) as u8]
}

/// A value below a thousand is determined by its three digits.
proof fn lemma_frac3_inv(m: nat)
    requires
        m < 1000,
    ensures
        (m / 100) * 100 + ((m / 10) % 10) * 10 + m % 10 == m,
        m / 100 <= 9,
        (m / 10) % 10 <= 9,
        m % 10 <= 9,
{
    vstd::arithmetic::div_mod::lemma_fundamental_div_mod(m as int, 10);
    vstd::arithmetic::div_mod::lemma_fundamental_div_mod(m as int / 10, 10);
    assert((m as int / 10) / 10 == m as int / 100) by (nonlinear_arith);
}

/// Parse exactly three digits at `i`.
fn parse_frac3(buf: &[u8], i: usize) -> (r: Option<(usize, u16)>)
    requires
        i <= buf@.len(),
    ensures
        r matches Some((j, f)) ==> f < 1000 && starts_at(buf@, i as int, frac3(f as nat)) && j == i
            + 3 && j <= buf@.len(),
        forall|m: nat| m < 1000 && #[trigger] starts_at(buf@, i as int, frac3(m)) ==> r == Some(
            ((i + 3) as usize, m as u16),
        ),
{
    if buf.len() - i < 3 {
        return None;
    }
    let d1 = buf[i];
    let d2 = buf[i + 1];
    let d3 = buf[i + 2];
    if !(48 <= d1 && d1 <= 57 && 48 <= d2 && d2 <= 57 && 48 <= d3 && d3 <= 57) {
        proof {
            assert forall|m: nat| m < 1000 && #[trigger] starts_at(
                buf@,
                i as int,
                frac3(m),
            ) implies false by {
                lemma_frac3_inv(m);
                assert(buf@[i as int] == frac3(m)[0]);
                assert(buf@[i as int + 1] == frac3(m)[1]);
                assert(buf@[i as int + 2] == frac3(m)[2]);
            }
        }
        return None;
    }
    let f: u16 = (d1 - 48) as u16 * 100 + (d2 - 48) as u16 * 10 + (d3 - 48) as u16;
    proof {
        vstd::arithmetic::div_mod::lemma_fundamental_div_mod_converse(
            f as int,
            10,
            (d1 - 48) * 10 + (d2 - 48),
            (d3 - 48) as int,
        );
        vstd::arithmetic::div_mod::lemma_fundamental_div_mod_converse(
            (d1 - 48) * 10 + (d2 - 48),
            10,
            (d1 - 48) as int,
            (d2 - 48) as int,
        );
        assert((f as int / 10) / 10 == f as int / 100) by (nonlinear_arith);
        assert(frac3(f as nat) =~= seq![d1, d2, d3]);
        assert forall|m: nat| m < 1000 && #[trigger] starts_at(
            buf@,
            i as int,
            frac3(m),
        ) implies m == f as nat by {
            lemma_frac3_inv(m);
            assert(d1 == frac3(m)[0]);
            assert(d2 == frac3(m)[1]);
            assert(d3 == frac3(m)[2]);
        }
    }
    Some((i + 3, f))
}

/// Largest magnitude, in thousandths, that the fixed-point wire form covers.
pub open spec fn wf_milli(q: int) -> bool {
    -9000000000000000999 <= q <= 9000000000000000999
}

/// Canonical fixed-point form of a count of thousandths: sign, whole part,
/// a dot, then exactly three fractional digits.
pub open spec fn enc_milli(q: int) -> Seq<u8> {
    if q < 0 {
        seq![45u8] + enc_milli_mag((-q) as nat)
    } else {
        enc_milli_mag(q as nat)
    }
}

/// The unsigned body of the fixed-point form.
pub open spec fn enc_milli_mag(m: nat) -> Seq<u8> {
    dec_u(m / 1000) + seq![46u8] + frac3(m % 1000)
}

/// Parse a canonical fixed-point number at `i`, returning its value in
/// thousandths.  Sound and complete over [`wf_milli`] values.
pub fn parse_milli(buf: &[u8], i: usize) -> (r: Option<(usize, i64)>)
    requires
        i <= buf@.len(),
    ensures
        r matches Some((j, v)) ==> i < j <= buf@.len() && wf_milli(v as int) && starts_at(
            buf@,
            i as int,
            enc_milli(v as int),
        ) && j == i + enc_milli(v as int).len(),
        forall|n: i64| #![trigger enc_milli(n as int)]
            wf_milli(n as int) && starts_at(buf@, i as int, enc_milli(n as int)) ==> r == Some(
            ((i + enc_milli(n as int).len()) as usize, n),
        ),
{
    let neg = i < buf.len() && buf[i] == 45;
    let start = if neg {
        i + 1
    } else {
        i
    };
    proof {
        if neg {
            assert forall|n: i64| n >= 0 && starts_at(buf@, i as int, enc_milli(n as int)) implies false by {
                lemma_dec_u_shape((n as nat) / 1000);
                assert(buf@[i as int] == enc_milli_mag(n as nat)[0]);
                assert(enc_milli_mag(n as nat)[0] == dec_u((n as nat) / 1000)[0]);
            }
            assert forall|n: i64|
                n < 0 && #[trigger] starts_at(buf@, i as int, enc_milli(n as int)) implies starts_at(
                buf@,
                start as int,
                enc_milli_mag((-n) as nat),
            ) by {
                lemma_starts_at_concat(buf@, i as int, seq![45u8], enc_milli_mag((-n) as nat));
            }
        } else {
            assert forall|n: i64|
                n < 0 && #[trigger] starts_at(buf@, i as int, enc_milli(n as int)) implies false by {
                assert(buf@[i as int] == (seq![45u8] + enc_milli_mag((-n) as nat))[0]);
            }
        }
        assert forall|m: nat| #[trigger]
            starts_at(buf@, start as int, enc_milli_mag(m)) implies starts_at(
            buf@,
            start as int,
            dec_u(m / 1000),
        ) && starts_at(buf@, start as int + dec_u(m / 1000).len(), seq![46u8] + frac3(m % 1000))
            && num_boundary(buf@, start + dec_u(m / 1000).len()) by {
            assert(enc_milli_mag(m) =~= dec_u(m / 1000) + (seq![46u8] + frac3(m % 1000)));
            lemma_starts_at_concat(
                buf@,
                start as int,
                dec_u(m / 1000),
                seq![46u8] + frac3(m % 1000),
            );
            assert(buf@[start + dec_u(m / 1000).len()] == (seq![46u8] + frac3(m % 1000))[0]);
        }
    }
    let whole = match parse_u64(buf, start) {
        Some(x) => x,
        None => {
            return None;
        },
    };
    let (j1, w) = whole;
    if w > 9000000000000000 {
        proof {
            assert forall|n: i64|
                wf_milli(n as int) && starts_at(buf@, i as int, enc_milli(n as int)) implies false by {
                let m = if n < 0 {
                    (-n) as nat
                } else {
                    n as nat
                };
                assert(starts_at(buf@, start as int, dec_u(m / 1000)));
                let wm = (m / 1000) as u64;
                assert(dec_u(wm as nat) == dec_u(m / 1000));
                assert(w == wm);
            }
        }
        return None;
    }
    if j1 == buf.len() || buf[j1] != 46 {
        proof {
            assert forall|n: i64|
                wf_milli(n as int) && starts_at(buf@, i as int, enc_milli(n as int)) implies false by {
                let m = if n < 0 {
                    (-n) as nat
                } else {
                    n as nat
                };
                let wm = (m / 1000) as u64;
                assert(dec_u(wm as nat) == dec_u(m / 1000));
                assert(j1 == start + dec_u(m / 1000).len());
                assert(buf@[j1 as int] == (seq![46u8] + frac3(m % 1000))[0]);
            }
        }
        return None;
    }
    let frac = match parse_frac3(buf, j1 + 1) {
        Some(x) => x,
        None => {
            proof {
                assert forall|n: i64|
                    wf_milli(n as int) && starts_at(buf@, i as int, enc_milli(n as int)) implies false by {
                    let m = if n < 0 {
                        (-n) as nat
                    } else {
                        n as nat
                    };
                    let wm = (m / 1000) as u64;
                    assert(dec_u(wm as nat) == dec_u(m / 1000));
                    assert(j1 == start + dec_u(m / 1000).len());
                    lemma_starts_at_concat(buf@, j1 as int, seq![46u8], frac3(m % 1000));
                    assert(starts_at(buf@, j1 as int + 1, frac3(m % 1000)));
                }
            }
            return None;
        },
    };
    let (j2, f) = frac;
    let mag: u64 = w * 1000 + f as u64;
    proof {
        vstd::arithmetic::div_mod::lemma_fundamental_div_mod_converse(
            mag as int,
            1000,
            w as int,
            f as int,
        );
        assert(starts_at(buf@, start as int, enc_milli_mag(mag as nat))) by {
            lemma_starts_at_concat(buf@, j1 as int, seq![46u8], frac3(f as nat));
            assert(starts_at(buf@, j1 as int, seq![46u8])) by {
                assert(buf@[j1 as int] == 46);
            }
            lemma_starts_at_concat(
                buf@,
                start as int,
                dec_u(mag as nat / 1000),
                seq![46u8] + frac3(mag as nat % 1000),
            );
            assert(enc_milli_mag(mag as nat) =~= dec_u(mag as nat / 1000) + (seq![46u8] + frac3(
                mag as nat % 1000,
            )));
        }
        assert(enc_milli_mag(mag as nat).len() == dec_u(w as nat).len() + 4);
        assert forall|n: i64|
            wf_milli(n as int) && starts_at(buf@, i as int, enc_milli(n as int)) implies (if n < 0 {
            (-n) as nat
        } else {
            n as nat
        }) == mag as nat by {
            let m = if n < 0 {
                (-n) as nat
            } else {
                n as nat
            };
            let wm = (m / 1000) as u64;
            assert(dec_u(wm as nat) == dec_u(m / 1000));
            assert(w == wm);
            assert(j1 == start + dec_u(m / 1000).len());
            lemma_starts_at_concat(buf@, j1 as int, seq![46u8], frac3(m % 1000));
            assert(starts_at(buf@, j1 as int + 1, frac3(m % 1000)));
            assert(f as nat == m % 1000);
            vstd::arithmetic::div_mod::lemma_fundamental_div_mod(m as int, 1000);
        }
    }
    if neg {
        if mag == 0 {
            // a canonical form never spells a minus sign on zero
            proof {
                assert forall|n: i64|
                    wf_milli(n as int) && starts_at(buf@, i as int, enc_milli(n as int)) implies false by {
                }
            }
            return None;
        }
        Some((j2, -(mag as i64)))
    } else {
        Some((j2, mag as i64))
    }
}

/// Append the canonical decimal form of a signed number.
pub fn emit_i64(out: &mut Vec<u8>, v: i64)
    requires
        v != i64::MIN,
    ensures
        final(out)@ == old(out)@ + enc_i(v as int),
{
    if v < 0 {
        out.push(45);
        emit_u64(out, (-v) as u64);
        proof {
            assert(old(out)@.push(45u8) + dec_u((-v) as nat) =~= old(out)@ + enc_i(v as int));
        }
    } else {
        emit_u64(out, v as u64);
    }
}

/// Append the canonical fixed-point form of a count of thousandths.
pub fn emit_milli(out: &mut Vec<u8>, q: i64)
    requires
        wf_milli(q as int),
    ensures
        final(out)@ == old(out)@ + enc_milli(q as int),
{
    let ghost pre = out@;
    if q < 0 {
        out.push(45);
    }
    let ghost mid = out@;
    let mag: u64 = if q < 0 {
        (-q) as u64
    } else {
        q as u64
    };
    emit_u64(out, mag / 1000);
    out.push(46);
    let frac: u64 = mag % 1000;
    let d1: u8 = 48 + (frac / 100) as u8;
    let d2: u8 = 48 + ((frac / 10) % 10) as u8;
    let d3: u8 = 48 + (frac % 10) as u8;
    out.push(d1);
    out.push(d2);
    out.push(d3);
    proof {
        assert((mag as nat % 1000) / 100 == ((mag % 1000) as u64 / 100) as nat);
        assert(seq![d1, d2, d3] =~= frac3(mag as nat % 1000)) by {
            assert(((mag as nat % 1000) / 10) % 10 == (((mag % 1000) as u64 / 10) % 10) as nat);
        }
        assert(out@ =~= mid + dec_u((mag as nat) / 1000) + seq![46u8] + frac3(mag as nat % 1000));
        assert(out@ =~= mid + enc_milli_mag(mag as nat));
        if q < 0 {
            assert(mid =~= pre + seq![45u8]);
            assert(out@ =~= pre + (seq![45u8] + enc_milli_mag((-q) as nat)));
        }
    }
}

/// A quote-delimited token: a quote, interior bytes that are not quotes,
/// a closing quote.  No such token is a proper prefix of another, so a tag
/// read at a position is unambiguous.
pub open spec fn quoted(t: Seq<u8>) -> bool {
    &&& t.len() >= 2
    &&& t[0] == 34
    &&& t[t.len() - 1] == 34
    &&& forall|k: int| 1 <= k < t.len() - 1 ==> t[k] != 34
}

/// Two quote-delimited tokens occurring at the same position are the same
/// token.
pub proof fn lemma_quoted_unique(buf: Seq<u8>, i: int, a: Seq<u8>, b: Seq<u8>)
    requires
        starts_at(buf, i, a),
        starts_at(buf, i, b),
        quoted(a),
        quoted(b),
    ensures
        a == b,
{
    if a.len() < b.len() {
        assert(buf[i + (a.len() - 1)] == a[a.len() - 1]);
        assert(buf[i + (a.len() - 1)] == b[a.len() - 1]);
        assert(false);
    }
    if b.len() < a.len() {
        assert(buf[i + (b.len() - 1)] == b[b.len() - 1]);
        assert(buf[i + (b.len() - 1)] == a[b.len() - 1]);
        assert(false);
    }
    assert forall|k: int| 0 <= k < a.len() implies a[k] == b[k] by {
        assert(buf[i + k] == a[k]);
        assert(buf[i + k] == b[k]);
    }
    assert(a =~= b);
}

/// The unsigned body of one fixed-point spelling: the whole part's canonical
/// digits, then optionally a dot and one to three fraction digits.
pub open spec fn milli_body(w: nat, ds: Seq<u8>) -> Seq<u8> {
    if ds.len() == 0 {
        dec_u(w)
    } else {
        dec_u(w) + seq![46u8] + ds
    }
}

/// Fraction digits: up to three of them.
pub open spec fn digits_ok(ds: Seq<u8>) -> bool {
    ds.len() <= 3 && forall|k: int| 0 <= k < ds.len() ==> is_digit(#[trigger] ds[k])
}

/// The count of thousandths a fraction-digit run denotes.
pub open spec fn frac_val(ds: Seq<u8>) -> int {
    if ds.len() == 0 {
        0
    } else if ds.len() == 1 {
        (ds[0] - 48) * 100
    } else if ds.len() == 2 {
        (ds[0] - 48) * 100 + (ds[1] - 48) * 10
    } else {
        (ds[0] - 48) * 100 + (ds[1] - 48) * 10 + (ds[2] - 48)
    }
}

/// `s` is one standard spelling of the number whose value is `q`
/// thousandths: an optional minus sign, then a whole part, then optionally a
/// dot and one to three fraction digits.
pub open spec fn is_milli_bytes(s: Seq<u8>, q: int) -> bool {
    exists|w: nat, ds: Seq<u8>|
        #![trigger milli_body(w, ds)]
        digits_ok(ds) && (if q < 0 {
            s == seq![45u8] + milli_body(w, ds) && -q == w * 1000 + frac_val(ds)
        } else {
            s == milli_body(w, ds) && q == w * 1000 + frac_val(ds)
        })
}

/// Nothing after `j` could extend a fixed-point spelling read up to `j`.
pub open spec fn milli_boundary(s: Seq<u8>, j: int) -> bool {
    j == s.len() || (!is_digit(s[j]) && s[j] != 46)
}

/// The canonical three-digit form is one of the accepted spellings.
pub proof fn lemma_enc_milli_is_spelling(q: int)
    requires
        wf_milli(q),
    ensures
        is_milli_bytes(enc_milli(q), q),
{
    let m = if q < 0 {
        (-q) as nat
    } else {
        q as nat
    };
    let w = m / 1000;
    let ds = frac3(m % 1000);
    lemma_frac3_inv(m % 1000);
    assert(digits_ok(ds));
    assert(frac_val(ds) == m % 1000);
    assert(milli_body(w, ds) == enc_milli_mag(m));
    vstd::arithmetic::div_mod::lemma_fundamental_div_mod(m as int, 1000);
    assert(m == w * 1000 + frac_val(ds));
}

/// Parse one to three fraction digits at `i`, stopping at the first
/// non-digit; a fourth digit in a row is rejected.
fn parse_frac_digits(buf: &[u8], i: usize) -> (r: Option<(usize, u16)>)
    requires
        i <= buf@.len(),
    ensures
        r matches Some((j, f)) ==> i < j <= buf@.len() && j <= i + 3 && f < 1000 && digits_ok(
            buf@.subrange(i as int, j as int),
        ) && f == frac_val(buf@.subrange(i as int, j as int)) && (j == buf@.len() || !is_digit(
            buf@[j as int],
        )),
        forall|ds: Seq<u8>|
            #![trigger starts_at(buf@, i as int, ds)]
            digits_ok(ds) && ds.len() >= 1 && starts_at(buf@, i as int, ds) && (i + ds.len()
                == buf@.len() || !is_digit(buf@[i + ds.len()])) ==> (r matches Some((j, f)) && j == i
                + ds.len() && f == frac_val(ds)),
{
    if i == buf.len() || !(48 <= buf[i] && buf[i] <= 57) {
        proof {
            assert forall|ds: Seq<u8>|
                digits_ok(ds) && ds.len() >= 1 && #[trigger] starts_at(
                    buf@,
                    i as int,
                    ds,
                ) implies false by {
                assert(buf@[i as int] == ds[0]);
            }
        }
        return None;
    }
    let d1 = buf[i];
    if i + 1 == buf.len() || !(48 <= buf[i + 1] && buf[i + 1] <= 57) {
        let f: u16 = (d1 - 48) as u16 * 100;
        proof {
            assert(buf@.subrange(i as int, i + 1) =~= seq![d1]);
            assert forall|ds: Seq<u8>|
                digits_ok(ds) && ds.len() >= 1 && #[trigger] starts_at(buf@, i as int, ds) && (i
                    + ds.len() == buf@.len() || !is_digit(buf@[i + ds.len()])) implies ds.len() == 1
                && frac_val(ds) == f by {
                assert(ds[0] == buf@[i as int]);
                if ds.len() >= 2 {
                    assert(buf@[i + 1] == ds[1]);
                }
            }
        }
        return Some((i + 1, f));
    }
    let d2 = buf[i + 1];
    if i + 2 == buf.len() || !(48 <= buf[i + 2] && buf[i + 2] <= 57) {
        let f: u16 = (d1 - 48) as u16 * 100 + (d2 - 48) as u16 * 10;
        proof {
            assert(buf@.subrange(i as int, i + 2) =~= seq![d1, d2]);
            assert forall|ds: Seq<u8>|
                digits_ok(ds) && ds.len() >= 1 && #[trigger] starts_at(buf@, i as int, ds) && (i
                    + ds.len() == buf@.len() || !is_digit(buf@[i + ds.len()])) implies ds.len() == 2
                && frac_val(ds) == f by {
                assert(ds[0] == buf@[i as int]);
                if ds.len() >= 2 {
                    assert(ds[1] == buf@[i + 1]);
                }
                if ds.len() == 1 {
                    assert(is_digit(buf@[i + 1]));
                }
                if ds.len() == 3 {
                    assert(buf@[i + 2] == ds[2]);
                }
            }
        }
        return Some((i + 2, f));
    }
    let d3 = buf[i + 2];
    if i + 3 < buf.len() && 48 <= buf[i + 3] && buf[i + 3] <= 57 {
        // four digits in a row: beyond the resolution of thousandths
        proof {
            assert forall|ds: Seq<u8>|
                digits_ok(ds) && ds.len() >= 1 && #[trigger] starts_at(buf@, i as int, ds) && (i
                    + ds.len() == buf@.len() || !is_digit(buf@[i + ds.len()])) implies false by {
                if ds.len() == 1 {
                    assert(is_digit(buf@[i + 1]));
                }
                if ds.len() == 2 {
                    assert(is_digit(buf@[i + 2]));
                }
                if ds.len() == 3 {
                    assert(is_digit(buf@[i + 3]));
                }
            }
        }
        return None;
    }
    let f: u16 = (d1 - 48) as u16 * 100 + (d2 - 48) as u16 * 10 + (d3 - 48) as u16;
    proof {
        assert(buf@.subrange(i as int, i + 3) =~= seq![d1, d2, d3]);
        assert forall|ds: Seq<u8>|
            digits_ok(ds) && ds.len() >= 1 && #[trigger] starts_at(buf@, i as int, ds) && (i
                + ds.len() == buf@.len() || !is_digit(buf@[i + ds.len()])) implies ds.len() == 3
            && frac_val(ds) == f by {
            assert(ds[0] == buf@[i as int]);
            if ds.len() >= 2 {
                assert(ds[1] == buf@[i + 1]);
            }
            if ds.len() == 3 {
                assert(ds[2] == buf@[i + 2]);
            }
            if ds.len() == 1 {
                assert(is_digit(buf@[i + 1]));
            }
            if ds.len() == 2 {
                assert(is_digit(buf@[i + 2]));
            }
        }
    }
    Some((i + 3, f))
}


/// Length of the sign part of a spelling: one byte for a negative value.
pub open spec fn sign_len(n: int) -> int {
    if n < 0 {
        1
    } else {
        0
    }
}

/// Split one spelling of `n` thousandths, occurring at `i`, into its parts:
/// the sign byte, the whole part's digits with nothing extending them, and
/// the optional dot and fraction digits.
proof fn lemma_milli_spelling_parts(buf: Seq<u8>, i: int, n: int, s: Seq<u8>)
    requires
        is_milli_bytes(s, n),
        starts_at(buf, i, s),
        milli_boundary(buf, i + s.len()),
    ensures
        n < 0 ==> i < buf.len() && buf[i] == 45,
        n >= 0 ==> i < buf.len() && is_digit(buf[i]),
        exists|w: nat, ds: Seq<u8>|
            #![trigger milli_body(w, ds)]
            digits_ok(ds) && starts_at(buf, i + sign_len(n), dec_u(w)) && num_boundary(
                buf,
                i + sign_len(n) + dec_u(w).len(),
            ) && (if n < 0 {
                -n
            } else {
                n
            }) == w * 1000 + frac_val(ds) && s.len() == sign_len(n) + dec_u(w).len() + (
            if ds.len() == 0 {
                0int
            } else {
                1 + ds.len() as int
            }) && (ds.len() > 0 ==> buf[i + sign_len(n) + dec_u(w).len()] == 46 && starts_at(
                buf,
                i + sign_len(n) + dec_u(w).len() + 1,
                ds,
            ) && (i + sign_len(n) + dec_u(w).len() + 1 + ds.len() == buf.len() || !is_digit(
                buf[i + sign_len(n) + dec_u(w).len() + 1 + ds.len()],
            ))),
{
    let (w, ds): (nat, Seq<u8>) = choose|w: nat, ds: Seq<u8>|
        #![trigger milli_body(w, ds)]
        digits_ok(ds) && (if n < 0 {
            s == seq![45u8] + milli_body(w, ds) && -n == w * 1000 + frac_val(ds)
        } else {
            s == milli_body(w, ds) && n == w * 1000 + frac_val(ds)
        });
    lemma_dec_u_shape(w);
    let body = milli_body(w, ds);
    let p = i + sign_len(n);
    if n < 0 {
        assert(buf[i] == s[0]);
        assert(s[0] == (seq![45u8] + body)[0]);
        lemma_starts_at_concat(buf, i, seq![45u8], body);
        assert(starts_at(buf, p, body));
    } else {
        assert(starts_at(buf, p, body));
        assert(buf[i] == body[0]);
        assert(body[0] == dec_u(w)[0]);
    }
    if ds.len() == 0 {
        assert(body == dec_u(w));
        assert(starts_at(buf, p, dec_u(w)));
        assert(num_boundary(buf, p + dec_u(w).len())) by {
            assert(i + s.len() == p + dec_u(w).len());
        }
    } else {
        assert(body =~= dec_u(w) + (seq![46u8] + ds));
        lemma_starts_at_concat(buf, p, dec_u(w), seq![46u8] + ds);
        assert(starts_at(buf, p + dec_u(w).len(), seq![46u8] + ds));
        assert(buf[p + dec_u(w).len()] == (seq![46u8] + ds)[0]);
        lemma_starts_at_concat(buf, p + dec_u(w).len(), seq![46u8], ds);
        assert(num_boundary(buf, p + dec_u(w).len()));
        assert(i + s.len() == p + dec_u(w).len() + 1 + ds.len());
    }
}

/// Completeness of the integer spelling: a dotless parse matches every
/// accepted spelling that occurs here.
#[verifier::rlimit(100)]
proof fn lemma_milli_any_int(buf: Seq<u8>, i: int, neg: bool, w: u64, j1: int)
    requires
        0 <= i <= buf.len(),
        neg == (i < buf.len() && buf[i] == 45),
        starts_at(buf, i + (if neg { 1int } else { 0int }), dec_u(w as nat)),
        j1 == i + (if neg { 1int } else { 0int }) + dec_u(w as nat).len(),
        num_boundary(buf, j1),
        j1 == buf.len() || buf[j1] != 46,
    ensures
        forall|n: i64, s: Seq<u8>|
            #![trigger is_milli_bytes(s, n as int), starts_at(buf, i, s)]
            wf_milli(n as int) && is_milli_bytes(s, n as int) && starts_at(buf, i, s)
                && milli_boundary(buf, i + s.len()) ==> (i + s.len() == j1 && (if n < 0 {
                -n as int
            } else {
                n as int
            }) == (w as int) * 1000 && ((n < 0) == neg)),
{
    assert forall|n: i64, s: Seq<u8>|
        wf_milli(n as int) && #[trigger] is_milli_bytes(s, n as int) && #[trigger] starts_at(
            buf,
            i,
            s,
        ) && milli_boundary(buf, i + s.len()) implies (i + s.len() == j1 && (if n < 0 {
        -n as int
    } else {
        n as int
    }) == (w as int) * 1000 && ((n < 0) == neg)) by {
        lemma_milli_spelling_parts(buf, i, n as int, s);
        let sl = sign_len(n as int);
        let (w2, ds2): (nat, Seq<u8>) = choose|w2: nat, ds2: Seq<u8>|
            #![trigger milli_body(w2, ds2)]
            digits_ok(ds2) && starts_at(buf, i + sl, dec_u(w2)) && num_boundary(
                buf,
                i + sl + dec_u(w2).len(),
            ) && (if n < 0 {
                -n as int
            } else {
                n as int
            }) == w2 * 1000 + frac_val(ds2) && s.len() == sl + dec_u(w2).len() + (if ds2.len()
                == 0 {
                0int
            } else {
                1 + ds2.len() as int
            }) && (ds2.len() > 0 ==> buf[i + sl + dec_u(w2).len()] == 46 && starts_at(
                buf,
                i + sl + dec_u(w2).len() + 1,
                ds2,
            ) && (i + sl + dec_u(w2).len() + 1 + ds2.len() == buf.len() || !is_digit(
                buf[i + sl + dec_u(w2).len() + 1 + ds2.len()],
            )));
        assert((n < 0) == neg);
        let wm = (w2 as u64);
        assert(dec_u(wm as nat) == dec_u(w2));
        lemma_dec_u_canonical_unique(buf, i + sl, w as nat, w2);
        assert(w as nat == w2);
        if ds2.len() > 0 {
            assert(buf[j1] == 46);
        }
    }
}

/// Two canonical digit runs occurring at the same position denote the same
/// number.
proof fn lemma_dec_u_canonical_unique(buf: Seq<u8>, p: int, a: nat, b: nat)
    requires
        starts_at(buf, p, dec_u(a)),
        starts_at(buf, p, dec_u(b)),
        num_boundary(buf, p + dec_u(a).len()),
        num_boundary(buf, p + dec_u(b).len()),
    ensures
        a == b,
{
    lemma_dec_u_shape(a);
    lemma_dec_u_shape(b);
    let la = dec_u(a).len() as int;
    let lb = dec_u(b).len() as int;
    if la < lb {
        assert(is_digit(buf[p + la])) by {
            assert(buf[p + la] == dec_u(b)[la]);
        }
    }
    if lb < la {
        assert(is_digit(buf[p + lb])) by {
            assert(buf[p + lb] == dec_u(a)[lb]);
        }
    }
    assert(dec_u(a) =~= dec_u(b));
    lemma_val_of_dec_u(a);
    lemma_val_of_dec_u(b);
}

/// Completeness of the fraction spelling: a dotted parse matches every
/// accepted spelling that occurs here.
#[verifier::rlimit(100)]
proof fn lemma_milli_any_frac(buf: Seq<u8>, i: int, neg: bool, w: u64, j1: int, j2: int, f: u16)
    requires
        0 <= i <= buf.len(),
        neg == (i < buf.len() && buf[i] == 45),
        starts_at(buf, i + (if neg { 1int } else { 0int }), dec_u(w as nat)),
        j1 == i + (if neg { 1int } else { 0int }) + dec_u(w as nat).len(),
        num_boundary(buf, j1),
        j1 < buf.len() && buf[j1] == 46,
        j1 < j2 <= buf.len() && j2 <= j1 + 4,
        f < 1000,
        digits_ok(buf.subrange(j1 + 1, j2)),
        j2 > j1 + 1,
        f == frac_val(buf.subrange(j1 + 1, j2)),
        j2 == buf.len() || !is_digit(buf[j2]),
    ensures
        forall|n: i64, s: Seq<u8>|
            #![trigger is_milli_bytes(s, n as int), starts_at(buf, i, s)]
            wf_milli(n as int) && is_milli_bytes(s, n as int) && starts_at(buf, i, s)
                && milli_boundary(buf, i + s.len()) ==> (i + s.len() == j2 && (if n < 0 {
                -n as int
            } else {
                n as int
            }) == (w as int) * 1000 + f && ((n < 0) == neg)),
{
    assert forall|n: i64, s: Seq<u8>|
        wf_milli(n as int) && #[trigger] is_milli_bytes(s, n as int) && #[trigger] starts_at(
            buf,
            i,
            s,
        ) && milli_boundary(buf, i + s.len()) implies (i + s.len() == j2 && (if n < 0 {
        -n as int
    } else {
        n as int
    }) == (w as int) * 1000 + f && ((n < 0) == neg)) by {
        lemma_milli_spelling_parts(buf, i, n as int, s);
        let sl = sign_len(n as int);
        let (w2, ds2): (nat, Seq<u8>) = choose|w2: nat, ds2: Seq<u8>|
            #![trigger milli_body(w2, ds2)]
            digits_ok(ds2) && starts_at(buf, i + sl, dec_u(w2)) && num_boundary(
                buf,
                i + sl + dec_u(w2).len(),
            ) && (if n < 0 {
                -n as int
            } else {
                n as int
            }) == w2 * 1000 + frac_val(ds2) && s.len() == sl + dec_u(w2).len() + (if ds2.len()
                == 0 {
                0int
            } else {
                1 + ds2.len() as int
            }) && (ds2.len() > 0 ==> buf[i + sl + dec_u(w2).len()] == 46 && starts_at(
                buf,
                i + sl + dec_u(w2).len() + 1,
                ds2,
            ) && (i + sl + dec_u(w2).len() + 1 + ds2.len() == buf.len() || !is_digit(
                buf[i + sl + dec_u(w2).len() + 1 + ds2.len()],
            )));
        assert((n < 0) == neg);
        let wm = (w2 as u64);
        assert(dec_u(wm as nat) == dec_u(w2));
        lemma_dec_u_canonical_unique(buf, i + sl, w as nat, w2);
        assert(w as nat == w2);
        if ds2.len() == 0 {
            assert(i + s.len() == j1);
            assert(buf[j1] != 46);
        }
        assert(ds2.len() > 0);
        let dsp = buf.subrange(j1 + 1, j2);
        assert(ds2.len() == dsp.len()) by {
            if ds2.len() < dsp.len() {
                assert(is_digit(buf[j1 + 1 + ds2.len()])) by {
                    assert(buf[j1 + 1 + ds2.len()] == dsp[ds2.len() as int]);
                }
            }
            if dsp.len() < ds2.len() {
                assert(is_digit(buf[j2])) by {
                    assert(buf[j2] == ds2[dsp.len() as int]);
                }
            }
        }
        assert(ds2 =~= dsp);
    }
}

/// Parse one fixed-point number at `i` in any of its standard spellings,
/// returning its value in thousandths.  Sound: on success the consumed bytes
/// are some spelling of the returned value.  Complete: any spelling of any
/// in-range value that occurs at `i`, followed by nothing that could extend
/// it, parses to exactly that value.
#[verifier::rlimit(100)]
#[verifier::spinoff_prover]
pub fn parse_milli_any(buf: &[u8], i: usize) -> (r: Option<(usize, i64)>)
    requires
        i <= buf@.len(),
    ensures
        r matches Some((j, v)) ==> i < j <= buf@.len() && wf_milli(v as int) && is_milli_bytes(
            buf@.subrange(i as int, j as int),
            v as int,
        ),
        forall|n: i64, s: Seq<u8>|
            #![trigger is_milli_bytes(s, n as int), starts_at(buf@, i as int, s)]
            wf_milli(n as int) && is_milli_bytes(s, n as int) && starts_at(buf@, i as int, s)
                && milli_boundary(buf@, i + s.len()) ==> (r matches Some((j, v)) && j == i
                + s.len() && v == n),
{
    let neg = i < buf.len() && buf[i] == 45;
    let start = if neg {
        i + 1
    } else {
        i
    };
    let whole = match parse_u64(buf, start) {
        Some(x) => x,
        None => {
            proof {
                assert forall|n: i64, s: Seq<u8>|
                    wf_milli(n as int) && #[trigger] is_milli_bytes(s, n as int)
                        && #[trigger] starts_at(buf@, i as int, s) && milli_boundary(
                        buf@,
                        i + s.len(),
                    ) implies false by {
                    lemma_milli_spelling_parts(buf@, i as int, n as int, s);
                }
            }
            return None;
        },
    };
    let (j1, w) = whole;
    if w > 9000000000000000 {
        proof {
            assert forall|n: i64, s: Seq<u8>|
                wf_milli(n as int) && #[trigger] is_milli_bytes(s, n as int) && #[trigger] starts_at(
                    buf@,
                    i as int,
                    s,
                ) && milli_boundary(buf@, i + s.len()) implies false by {
                lemma_milli_spelling_parts(buf@, i as int, n as int, s);
                let (w2, ds2): (nat, Seq<u8>) = choose|w2: nat, ds2: Seq<u8>|
                    #![trigger milli_body(w2, ds2)]
                    digits_ok(ds2) && starts_at(buf@, i + sign_len(n as int), dec_u(w2))
                        && num_boundary(buf@, i + sign_len(n as int) + dec_u(w2).len()) && (if n
                        < 0 {
                        -n as int
                    } else {
                        n as int
                    }) == w2 * 1000 + frac_val(ds2) && s.len() == sign_len(n as int) + dec_u(
                        w2,
                    ).len() + (if ds2.len() == 0 {
                        0int
                    } else {
                        1 + ds2.len() as int
                    }) && (ds2.len() > 0 ==> buf@[i + sign_len(n as int) + dec_u(w2).len()] == 46
                        && starts_at(buf@, i + sign_len(n as int) + dec_u(w2).len() + 1, ds2) && (i
                        + sign_len(n as int) + dec_u(w2).len() + 1 + ds2.len() as int == buf@.len()
                        || !is_digit(buf@[i + sign_len(n as int) + dec_u(w2).len() + 1
                        + ds2.len()])));
                let wm = (w2 as u64);
                assert(dec_u(wm as nat) == dec_u(w2));
                assert(w == wm);
                assert(frac_val(ds2) >= 0);
                assert(w2 * 1000 <= 9000000000000000999);
            }
        }
        return None;
    }
    let has_frac = j1 < buf.len() && buf[j1] == 46;
    if !has_frac {
        let mag: u64 = w * 1000;
        if neg && mag == 0 {
            proof {
                assert forall|n: i64, s: Seq<u8>|
                    wf_milli(n as int) && #[trigger] is_milli_bytes(s, n as int)
                        && #[trigger] starts_at(buf@, i as int, s) && milli_boundary(
                        buf@,
                        i + s.len(),
                    ) implies false by {
                    lemma_milli_spelling_parts(buf@, i as int, n as int, s);
                    if n >= 0 {
                        assert(buf@[i as int] == 45 && is_digit(buf@[i as int]));
                    } else {
                        let (w2, ds2): (nat, Seq<u8>) = choose|w2: nat, ds2: Seq<u8>|
                            #![trigger milli_body(w2, ds2)]
                            digits_ok(ds2) && starts_at(buf@, i + 1, dec_u(w2)) && num_boundary(
                                buf@,
                                i + 1 + dec_u(w2).len(),
                            ) && -n as int == w2 * 1000 + frac_val(ds2) && s.len() == 1 + dec_u(
                                w2,
                            ).len() + (if ds2.len() == 0 {
                                0int
                            } else {
                                1 + ds2.len() as int
                            }) && (ds2.len() > 0 ==> buf@[i + 1 + dec_u(w2).len()] == 46
                                && starts_at(buf@, i + 1 + dec_u(w2).len() + 1, ds2) && (i + 1
                                + dec_u(w2).len() + 1 + ds2.len() as int == buf@.len() || !is_digit(
                                buf@[i + 1 + dec_u(w2).len() + 1 + ds2.len() as int],
                            )));
                        let wm = (w2 as u64);
                        assert(dec_u(wm as nat) == dec_u(w2));
                        assert(w == wm);
                        if ds2.len() > 0 {
                            assert(buf@[j1 as int] == 46);
                        }
                        assert(-n as int == w2 * 1000);
                    }
                }
            }
            return None;
        }
        let v: i64 = if neg {
            -(mag as i64)
        } else {
            mag as i64
        };
        proof {
            // soundness: the consumed bytes are the integer spelling of `v`
            let e: Seq<u8> = Seq::empty();
            let sub = buf@.subrange(i as int, j1 as int);
            assert(digits_ok(e));
            assert(milli_body(w as nat, e) == dec_u(w as nat));
            if neg {
                assert(sub =~= seq![45u8] + milli_body(w as nat, e)) by {
                    assert(starts_at(buf@, i as int + 1, dec_u(w as nat)));
                }
                assert(-(v as int) == (w as nat) * 1000 + frac_val(e));
            } else {
                lemma_starts_at_subrange(buf@, i as int, dec_u(w as nat));
                assert(sub == milli_body(w as nat, e));
            }
            assert(is_milli_bytes(sub, v as int));
            lemma_milli_any_int(buf@, i as int, neg, w, j1 as int);
        }
        return Some((j1, v));
    }
    let frac = match parse_frac_digits(buf, j1 + 1) {
        Some(x) => x,
        None => {
            proof {
                assert forall|n: i64, s: Seq<u8>|
                    wf_milli(n as int) && #[trigger] is_milli_bytes(s, n as int)
                        && #[trigger] starts_at(buf@, i as int, s) && milli_boundary(
                        buf@,
                        i + s.len(),
                    ) implies false by {
                    lemma_milli_spelling_parts(buf@, i as int, n as int, s);
                    let sl = sign_len(n as int);
                    let (w2, ds2): (nat, Seq<u8>) = choose|w2: nat, ds2: Seq<u8>|
                        #![trigger milli_body(w2, ds2)]
                        digits_ok(ds2) && starts_at(buf@, i + sl, dec_u(w2)) && num_boundary(
                            buf@,
                            i + sl + dec_u(w2).len(),
                        ) && (if n < 0 {
                            -n as int
                        } else {
                            n as int
                        }) == w2 * 1000 + frac_val(ds2) && s.len() == sl + dec_u(w2).len() + (
                        if ds2.len() == 0 {
                            0int
                        } else {
                            1 + ds2.len() as int
                        }) && (ds2.len() > 0 ==> buf@[i + sl + dec_u(w2).len()] == 46 && starts_at(
                            buf@,
                            i + sl + dec_u(w2).len() + 1,
                            ds2,
                        ) && (i + sl + dec_u(w2).len() + 1 + ds2.len() as int == buf@.len() || !is_digit(
                            buf@[i + sl + dec_u(w2).len() + 1 + ds2.len() as int],
                        )));
                    assert((n < 0) == neg);
                    let wm = (w2 as u64);
                    assert(dec_u(wm as nat) == dec_u(w2));
                    assert(w == wm && j1 == start + dec_u(w2).len());
                    if ds2.len() == 0 {
                        assert(i + s.len() == j1);
                        assert(buf@[j1 as int] != 46);
                    } else {
                        assert(starts_at(buf@, j1 as int + 1, ds2));
                        assert(ds2.len() >= 1);
                    }
                }
            }
            return None;
        },
    };
    let (j2, f) = frac;
    let mag: u64 = w * 1000 + f as u64;
    if neg && mag == 0 {
        proof {
            assert forall|n: i64, s: Seq<u8>|
                wf_milli(n as int) && #[trigger] is_milli_bytes(s, n as int) && #[trigger] starts_at(
                    buf@,
                    i as int,
                    s,
                ) && milli_boundary(buf@, i + s.len()) implies false by {
                lemma_milli_spelling_parts(buf@, i as int, n as int, s);
                if n < 0 {
                    let (w2, ds2): (nat, Seq<u8>) = choose|w2: nat, ds2: Seq<u8>|
                        #![trigger milli_body(w2, ds2)]
                        digits_ok(ds2) && starts_at(buf@, i + 1, dec_u(w2)) && num_boundary(
                            buf@,
                            i + 1 + dec_u(w2).len(),
                        ) && -n as int == w2 * 1000 + frac_val(ds2) && s.len() == 1 + dec_u(
                            w2,
                        ).len() + (if ds2.len() == 0 {
                            0int
                        } else {
                            1 + ds2.len() as int
                        }) && (ds2.len() > 0 ==> buf@[i + 1 + dec_u(w2).len()] == 46 && starts_at(
                            buf@,
                            i + 1 + dec_u(w2).len() + 1,
                            ds2,
                        ) && (i + 1 + dec_u(w2).len() + 1 + ds2.len() as int == buf@.len() || !is_digit(
                            buf@[i + 1 + dec_u(w2).len() + 1 + ds2.len() as int],
                        )));
                    let wm = (w2 as u64);
                    assert(dec_u(wm as nat) == dec_u(w2));
                    assert(w == wm && j1 == i + 1 + dec_u(w2).len());
                    if ds2.len() == 0 {
                        assert(buf@[j1 as int] != 46);
                    } else {
                        assert(starts_at(buf@, j1 as int + 1, ds2));
                        assert(j2 == j1 + 1 + ds2.len() as int && f == frac_val(ds2));
                    }
                    assert(-n as int == mag);
                }
            }
        }
        return None;
    }
    let v: i64 = if neg {
        -(mag as i64)
    } else {
        mag as i64
    };
    proof {
        // soundness: the consumed bytes spell `v` with these fraction digits
        let ds = buf@.subrange(j1 as int + 1, j2 as int);
        let sub = buf@.subrange(i as int, j2 as int);
        assert(digits_ok(ds) && f == frac_val(ds));
        assert(milli_body(w as nat, ds) =~= dec_u(w as nat) + seq![46u8] + ds);
        assert(starts_at(buf@, start as int, dec_u(w as nat)));
        if neg {
            assert(sub =~= seq![45u8] + milli_body(w as nat, ds)) by {
                assert(buf@[i as int] == 45);
                assert(buf@[j1 as int] == 46);
            }
        } else {
            assert(sub =~= milli_body(w as nat, ds)) by {
                assert(buf@[j1 as int] == 46);
            }
        }
        assert(is_milli_bytes(sub, v as int));
        lemma_milli_any_frac(buf@, i as int, neg, w, j1 as int, j2 as int, f);
    }
    Some((j2, v))
}

} // verus!

