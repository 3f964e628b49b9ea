//! One wire value: anything that has a canonical byte form and a parser for
//! it.  The trait's contract makes every implementation's parser sound (it
//! accepts exactly the canonical form of the value it returns) and complete
//! (it returns exactly the value whose canonical form it is given), which is
//! what the round-trip guarantee of the codec rests on.

use vstd::prelude::*;

use crate::protocol::Milli;
use crate::wire::{
    enc_i, enc_milli, is_digit, lit, num_boundary, parse_i64, parse_milli, starts_at, wf_milli,
    emit_i64, emit_lit, emit_milli,
};

verus! {

/// A value with a canonical wire form.
///
/// `compat_after` names the bytes that may follow the form without having
/// been able to extend it (a digit must not follow a number); the structural
/// separators comma, closing bracket and closing brace always qualify, so a
/// value can stand inside a list or an object.
pub trait WireElem: Sized {
    /// Which values have a wire form at all.
    spec fn wf(&self) -> bool;

    /// The canonical wire form.
    spec fn enc(&self) -> Seq<u8>;

    /// Value equality as the wire sees it (fields equal, sequences equal as
    /// sequences).
    spec fn eqv(&self, other: &Self) -> bool;

    /// Bytes that may follow the form without extending it.
    spec fn compat_after(b: u8) -> bool;

    /// The wire form is never empty and never starts with a separator.
    proof fn lemma_enc_first(&self)
        requires
            self.wf(),
        ensures
            self.enc().len() > 0,
            self.enc()[0] != 44,
            self.enc()[0] != 93,
            self.enc()[0] != 125,
    ;

    /// The structural separators never extend a wire form.
    proof fn lemma_delims(b: u8)
        requires
            b == 44 || b == 93 || b == 125,
        ensures
            Self::compat_after(b),
    ;

    /// Equivalent values have the same wire form.
    proof fn lemma_eqv_enc(&self, other: &Self)
        requires
            self.eqv(other),
        ensures
            self.enc() == other.enc(),
    ;

    /// Append the canonical form of this value.
    fn emit(&self, out: &mut Vec<u8>)
        requires
            self.wf(),
        ensures
            final(out)@ == old(out)@ + self.enc(),
    ;

    /// Parse one value at position `i`.  Sound: on success, exactly the
    /// returned value's canonical form was consumed.  Complete: if any
    /// well-formed value's canonical form occurs at `i`, followed by nothing
    /// that could extend it, the parse returns that value.
    fn parse(buf: &[u8], i: usize) -> (r: Option<(usize, Self)>)
        requires
            i <= buf@.len(),
        ensures
            r matches Some((j, v)) ==> i < j <= buf@.len() && v.wf() && starts_at(
                buf@,
                i as int,
                v.enc(),
            ) && j == i + v.enc().len(),
            forall|v: Self|
                v.wf() && starts_at(buf@, i as int, #[trigger] v.enc()) && (i + v.enc().len()
                    == buf@.len() || Self::compat_after(buf@[i + v.enc().len()])) ==> (
                r matches Some((j, v2)) && j == i + v.enc().len() && v2.eqv(&v)),
    ;
}

impl WireElem for bool {
    open spec fn wf(&self) -> bool {
        true
    }

    open spec fn enc(&self) -> Seq<u8> {
        if *self {
            lit("true"@)
        } else {
            lit("false"@)
        }
    }

    open spec fn eqv(&self, other: &Self) -> bool {
        *self == *other
    }

    open spec fn compat_after(b: u8) -> bool {
        true
    }

    proof fn lemma_enc_first(&self) {
        reveal_strlit("true");
        reveal_strlit("false");
    }

    proof fn lemma_delims(b: u8) {
    }

    proof fn lemma_eqv_enc(&self, other: &Self) {
    }

    fn emit(&self, out: &mut Vec<u8>) {
        proof {
            reveal_strlit("true");
            reveal_strlit("false");
        }
        if *self {
            emit_lit(out, "true");
        } else {
            emit_lit(out, "false");
        }
    }

    fn parse(buf: &[u8], i: usize) -> (r: Option<(usize, Self)>) {
        proof {
            reveal_strlit("true");
            reveal_strlit("false");
        }
        match crate::wire::expect_lit(buf, i, "true") {
            Some(j) => {
                proof {
                    assert forall|v: bool|
                        v.wf() && starts_at(buf@, i as int, #[trigger] v.enc()) implies v == true by {
                        if !v {
                            assert(buf@[i as int] == lit("false"@)[0]);
                            assert(buf@[i as int] == lit("true"@)[0]);
                        }
                    }
                }
                Some((j, true))
            },
            None => match crate::wire::expect_lit(buf, i, "false") {
                Some(j) => Some((j, false)),
                None => None,
            },
        }
    }
}

impl WireElem for i32 {
    open spec fn wf(&self) -> bool {
        true
    }

    open spec fn enc(&self) -> Seq<u8> {
        enc_i(*self as int)
    }

    open spec fn eqv(&self, other: &Self) -> bool {
        *self == *other
    }

    open spec fn compat_after(b: u8) -> bool {
        !is_digit(b)
    }

    proof fn lemma_enc_first(&self) {
        crate::wire::lemma_dec_u_shape((if *self < 0 {
            -*self
        } else {
            *self as int
        }) as nat);
    }

    proof fn lemma_delims(b: u8) {
    }

    proof fn lemma_eqv_enc(&self, other: &Self) {
    }

    fn emit(&self, out: &mut Vec<u8>) {
        emit_i64(out, *self as i64);
    }

    fn parse(buf: &[u8], i: usize) -> (r: Option<(usize, Self)>) {
        match parse_i64(buf, i) {
            Some((j, v)) => {
                proof {
                    assert forall|n: i32|
                        starts_at(buf@, i as int, #[trigger] enc_i(n as int)) && num_boundary(
                            buf@,
                            i + enc_i(n as int).len(),
                        ) implies v == n by {
                        let w = n as i64;
                        assert(enc_i(w as int) == enc_i(n as int));
                        assert(w != i64::MIN);
                    }
                }
                if v < i32::MIN as i64 || v > i32::MAX as i64 {
                    return None;
                }
                Some((j, v as i32))
            },
            None => {
                proof {
                    assert forall|n: i32|
                        starts_at(buf@, i as int, #[trigger] enc_i(n as int)) && num_boundary(
                            buf@,
                            i + enc_i(n as int).len(),
                        ) implies false by {
                        let w = n as i64;
                        assert(enc_i(w as int) == enc_i(n as int));
                        assert(w != i64::MIN);
                    }
                }
                None
            },
        }
    }
}

impl WireElem for Milli {
    open spec fn wf(&self) -> bool {
        wf_milli(self.0 as int)
    }

    open spec fn enc(&self) -> Seq<u8> {
        enc_milli(self.0 as int)
    }

    open spec fn eqv(&self, other: &Self) -> bool {
        *self == *other
    }

    open spec fn compat_after(b: u8) -> bool {
        true
    }

    proof fn lemma_enc_first(&self) {
        let m = (if self.0 < 0 {
            -self.0
        } else {
            self.0 as int
        }) as nat;
        crate::wire::lemma_dec_u_shape(m / 1000);
        if self.0 >= 0 {
            assert(self.enc()[0] == crate::wire::enc_milli_mag(m)[0]);
            assert(crate::wire::enc_milli_mag(m)[0] == crate::wire::dec_u(m / 1000)[0]);
        }
    }

    proof fn lemma_delims(b: u8) {
    }

    proof fn lemma_eqv_enc(&self, other: &Self) {
    }

    fn emit(&self, out: &mut Vec<u8>) {
        emit_milli(out, self.0);
    }

    fn parse(buf: &[u8], i: usize) -> (r: Option<(usize, Self)>) {
        match parse_milli(buf, i) {
            Some((j, v)) => Some((j, Milli(v))),
            None => None,
        }
    }
}

/// The body of a wire list: the elements' canonical forms joined by commas.
pub open spec fn enc_items<E: WireElem>(items: Seq<E>) -> Seq<u8>
    decreases items.len(),
{
    if items.len() == 0 {
        Seq::empty()
    } else if items.len() == 1 {
        items[0].enc()
    } else {
        items[0].enc() + seq![44u8] + enc_items(items.drop_first())
    }
}

/// A wire list: the joined elements between brackets.
pub open spec fn enc_list<E: WireElem>(items: Seq<E>) -> Seq<u8> {
    seq![91u8] + enc_items(items) + seq![93u8]
}

/// Every element has a wire form.
pub open spec fn wf_items<E: WireElem>(items: Seq<E>) -> bool {
    forall|k: int| 0 <= k < items.len() ==> (#[trigger] items[k]).wf()
}

/// Pointwise element equivalence.
pub open spec fn eqv_items<E: WireElem>(a: Seq<E>, b: Seq<E>) -> bool {
    a.len() == b.len() && forall|k: int| 0 <= k < a.len() ==> (#[trigger] a[k]).eqv(&b[k])
}

/// Appending an element appends a comma (once the list is non-empty) and the
/// element's form.
pub proof fn lemma_enc_items_push<E: WireElem>(items: Seq<E>, e: E)
    ensures
        items.len() == 0 ==> enc_items(items.push(e)) == e.enc(),
        items.len() > 0 ==> enc_items(items.push(e)) == enc_items(items) + seq![44u8] + e.enc(),
    decreases items.len(),
{
    let p = items.push(e);
    if items.len() == 0 {
        assert(p.len() == 1);
        assert(p[0] == e);
    } else {
        lemma_enc_items_push(items.drop_first(), e);
        assert(p.drop_first() =~= items.drop_first().push(e));
        assert(p[0] == items[0]);
        if items.len() == 1 {
            assert(enc_items(p) == p[0].enc() + seq![44u8] + enc_items(p.drop_first()));
            assert(enc_items(p.drop_first()) == e.enc());
        } else {
            assert(enc_items(p) == p[0].enc() + seq![44u8] + enc_items(p.drop_first()));
            assert(enc_items(p.drop_first()) == enc_items(items.drop_first()) + seq![44u8]
                + e.enc());
            assert(p[0].enc() + seq![44u8] + (enc_items(items.drop_first()) + seq![44u8] + e.enc())
                =~= (items[0].enc() + seq![44u8] + enc_items(items.drop_first())) + seq![44u8]
                + e.enc());
        }
    }
}

/// Pointwise-equivalent item sequences have the same joined form.
pub proof fn lemma_enc_items_eqv<E: WireElem>(a: Seq<E>, b: Seq<E>)
    requires
        eqv_items(a, b),
    ensures
        enc_items(a) == enc_items(b),
    decreases a.len(),
{
    if a.len() > 0 {
        a[0].lemma_eqv_enc(&b[0]);
        if a.len() > 1 {
            assert(eqv_items(a.drop_first(), b.drop_first())) by {
                assert forall|k: int|
                    0 <= k < a.drop_first().len() implies (#[trigger] a.drop_first()[k]).eqv(
                    &b.drop_first()[k],
                ) by {
                    assert(a.drop_first()[k] == a[k + 1]);
                    assert(b.drop_first()[k] == b[k + 1]);
                }
            }
            lemma_enc_items_eqv(a.drop_first(), b.drop_first());
        }
    }
}

impl<E: WireElem> WireElem for Vec<E> {
    open spec fn wf(&self) -> bool {
        wf_items(self@)
    }

    open spec fn enc(&self) -> Seq<u8> {
        enc_list(self@)
    }

    open spec fn eqv(&self, other: &Self) -> bool {
        eqv_items(self@, other@)
    }

    open spec fn compat_after(b: u8) -> bool {
        true
    }

    proof fn lemma_enc_first(&self) {
        assert(enc_list(self@)[0] == 91);
    }

    proof fn lemma_delims(b: u8) {
    }

    proof fn lemma_eqv_enc(&self, other: &Self) {
        lemma_enc_items_eqv(self@, other@);
    }

    fn emit(&self, out: &mut Vec<u8>) {
        out.push(91);
        let ghost head = out@;
        let mut k: usize = 0;
        while k < self.len()
            invariant
                0 <= k <= self@.len(),
                wf_items(self@),
                head == old(out)@.push(91u8),
                out@ == head + enc_items(self@.take(k as int)) + (if 0 < k < self@.len() {
                    seq![44u8]
                } else {
                    Seq::<u8>::empty()
                }),
            decreases self@.len() - k,
        {
            proof {
                assert(self@[k as int].wf());
            }
            self[k].emit(out);
            proof {
                lemma_enc_items_push(self@.take(k as int), self@[k as int]);
                assert(self@.take(k as int).push(self@[k as int]) =~= self@.take(k as int + 1));
                if k == 0 {
                    assert(out@ =~= head + enc_items(self@.take(1)));
                } else {
                    assert(out@ =~= head + enc_items(self@.take(k as int + 1)));
                }
            }
            if k + 1 < self.len() {
                out.push(44);
                proof {
                    assert(out@ =~= head + enc_items(self@.take(k as int + 1)) + seq![44u8]);
                }
            }
            k = k + 1;
        }
        out.push(93);
        proof {
            assert(self@.take(self@.len() as int) =~= self@);
            assert(out@ =~= old(out)@ + enc_list(self@));
        }
    }

    fn parse(buf: &[u8], i: usize) -> (r: Option<(usize, Self)>) {
        if i == buf.len() || buf[i] != 91 {
            proof {
                assert forall|vs: Vec<E>|
                    vs.wf() && starts_at(buf@, i as int, #[trigger] vs.enc()) implies false by {
                    assert(buf@[i as int] == enc_list(vs@)[0]);
                }
            }
            return None;
        }
        if i + 1 == buf.len() {
            proof {
                assert forall|vs: Vec<E>|
                    vs.wf() && starts_at(buf@, i as int, #[trigger] vs.enc()) implies false by {
                    assert(enc_list(vs@).len() >= 2);
                }
            }
            return None;
        }
        if buf[i + 1] == 93 {
            let empty_list: Vec<E> = Vec::new();
            proof {
                assert(enc_list(empty_list@) =~= seq![91u8, 93u8]);
                assert(starts_at(buf@, i as int, enc_list(empty_list@)));
                assert forall|vs: Vec<E>|
                    vs.wf() && starts_at(buf@, i as int, #[trigger] vs.enc()) implies vs@.len()
                    == 0 by {
                    if vs@.len() > 0 {
                        assert(vs@[0].wf());
                        vs@[0].lemma_enc_first();
                        assert(enc_list(vs@)[1] == enc_items(vs@)[0]);
                        assert(enc_items(vs@)[0] == vs@[0].enc()[0]);
                        assert(buf@[i as int + 1] == enc_list(vs@)[1]);
                    }
                }
            }
            return Some((i + 2, empty_list));
        }
        let mut acc: Vec<E> = Vec::new();
        let mut pos: usize = i + 1;
        proof {
            assert forall|vs: Vec<E>|
                vs.wf() && starts_at(buf@, i as int, #[trigger] vs.enc()) implies vs@.len() > 0
                && starts_at(buf@, pos as int, enc_items(vs@.skip(0))) && i + enc_list(vs@).len()
                == pos + enc_items(vs@.skip(0)).len() + 1 by {
                if vs@.len() == 0 {
                    assert(enc_list(vs@) =~= seq![91u8, 93u8]);
                    assert(buf@[i as int + 1] == enc_list(vs@)[1]);
                }
                assert(vs@.skip(0) =~= vs@);
                assert(enc_list(vs@) =~= seq![91u8] + (enc_items(vs@) + seq![93u8]));
                crate::wire::lemma_starts_at_concat(
                    buf@,
                    i as int,
                    seq![91u8],
                    enc_items(vs@) + seq![93u8],
                );
                crate::wire::lemma_starts_at_concat(
                    buf@,
                    i as int + 1,
                    enc_items(vs@),
                    seq![93u8],
                );
            }
        }
        loop
            invariant
                i + 1 <= pos <= buf@.len(),
                i + 1 < buf@.len(),
                buf@[i as int] == 91,
                wf_items(acc@),
                acc@.len() == 0 ==> pos == i + 1,
                acc@.len() > 0 ==> starts_at(buf@, i as int + 1, enc_items(acc@)) && pos == i + 1
                    + enc_items(acc@).len() + 1 && buf@[pos - 1] == 44,
                forall|vs: Vec<E>|
                    vs.wf() && starts_at(buf@, i as int, #[trigger] vs.enc()) ==> acc@.len()
                        < vs@.len() && eqv_items(acc@, vs@.take(acc@.len() as int)) && starts_at(
                        buf@,
                        pos as int,
                        enc_items(vs@.skip(acc@.len() as int)),
                    ) && i + enc_list(vs@).len() == pos + enc_items(
                        vs@.skip(acc@.len() as int),
                    ).len() + 1,
            decreases buf@.len() - pos,
        {
            let ghost k = acc@.len() as int;
            proof {
                // for every candidate list, the element at the cursor is its
                // k-th element, delimited by a comma or the closing bracket
                assert forall|vs: Vec<E>|
                    vs.wf() && starts_at(buf@, i as int, #[trigger] vs.enc()) implies starts_at(
                    buf@,
                    pos as int,
                    vs@[k].enc(),
                ) && vs@[k].wf() && (pos + vs@[k].enc().len() == buf@.len() || E::compat_after(
                    buf@[pos + vs@[k].enc().len()],
                )) by {
                    let tail = vs@.skip(k);
                    assert(tail[0] == vs@[k]);
                    assert(vs@[k].wf());
                    if tail.len() == 1 {
                        assert(enc_items(tail) == vs@[k].enc());
                        // the closing bracket follows
                        assert(buf@[pos + vs@[k].enc().len()] == 93) by {
                            assert(starts_at(buf@, i as int, enc_list(vs@)));
                            assert(enc_list(vs@)[enc_list(vs@).len() - 1] == 93);
                            assert(buf@[i + enc_list(vs@).len() - 1] == enc_list(
                                vs@,
                            )[enc_list(vs@).len() - 1]);
                        }
                        E::lemma_delims(93);
                    } else {
                        assert(enc_items(tail) == tail[0].enc() + seq![44u8] + enc_items(
                            tail.drop_first(),
                        ));
                        assert(enc_items(tail) =~= tail[0].enc() + (seq![44u8] + enc_items(
                            tail.drop_first(),
                        )));
                        crate::wire::lemma_starts_at_concat(
                            buf@,
                            pos as int,
                            tail[0].enc(),
                            seq![44u8] + enc_items(tail.drop_first()),
                        );
                        assert(buf@[pos + vs@[k].enc().len()] == (seq![44u8] + enc_items(
                            tail.drop_first(),
                        ))[0]);
                        E::lemma_delims(44);
                    }
                }
            }
            let parsed = match E::parse(buf, pos) {
                Some(x) => x,
                None => {
                    return None;
                },
            };
            let (p2, e) = parsed;
            proof {
                assert forall|vs: Vec<E>|
                    vs.wf() && starts_at(buf@, i as int, #[trigger] vs.enc()) implies p2 == pos
                    + vs@[k].enc().len() && e.eqv(&vs@[k]) by {
                    assert(starts_at(buf@, pos as int, vs@[k].enc()));
                }
            }
            if p2 == buf.len() {
                proof {
                    assert forall|vs: Vec<E>|
                        vs.wf() && starts_at(buf@, i as int, #[trigger] vs.enc()) implies false by {
                        assert(i + enc_list(vs@).len() <= buf@.len());
                        let tail = vs@.skip(k);
                        assert(tail[0] == vs@[k]);
                        if tail.len() == 1 {
                            assert(enc_items(tail) == vs@[k].enc());
                        } else {
                            assert(enc_items(tail) == tail[0].enc() + seq![44u8] + enc_items(
                                tail.drop_first(),
                            ));
                        }
                        assert(pos + enc_items(tail).len() + 1 <= buf@.len());
                    }
                }
                return None;
            }
            let b = buf[p2];
            let ghost prev = acc@;
            acc.push(e);
            proof {
                assert(acc@ == prev.push(e));
                lemma_enc_items_push(prev, e);
            }
            if b == 93 {
                proof {
                    assert(starts_at(buf@, i as int + 1, enc_items(acc@))) by {
                        if prev.len() == 0 {
                            assert(enc_items(acc@) == e.enc());
                        } else {
                            assert(enc_items(acc@) == enc_items(prev) + seq![44u8] + e.enc());
                            assert(enc_items(acc@) =~= enc_items(prev) + (seq![44u8] + e.enc()));
                            assert(starts_at(buf@, i as int + 1, enc_items(prev)));
                            assert(starts_at(buf@, pos as int - 1, seq![44u8])) by {
                                assert(buf@[pos - 1] == 44);
                            }
                            assert(starts_at(buf@, pos as int, e.enc()));
                            crate::wire::lemma_starts_at_concat(
                                buf@,
                                pos as int - 1,
                                seq![44u8],
                                e.enc(),
                            );
                            crate::wire::lemma_starts_at_concat(
                                buf@,
                                i as int + 1,
                                enc_items(prev),
                                seq![44u8] + e.enc(),
                            );
                        }
                    }
                    assert(starts_at(buf@, i as int, enc_list(acc@))) by {
                        assert(buf@[i as int] == 91);
                        assert(buf@[p2 as int] == 93);
                        assert(starts_at(buf@, i as int, seq![91u8]));
                        assert(starts_at(buf@, p2 as int, seq![93u8]));
                        crate::wire::lemma_starts_at_concat(
                            buf@,
                            i as int + 1,
                            enc_items(acc@),
                            seq![93u8],
                        );
                        crate::wire::lemma_starts_at_concat(
                            buf@,
                            i as int,
                            seq![91u8],
                            enc_items(acc@) + seq![93u8],
                        );
                        assert(enc_list(acc@) =~= seq![91u8] + (enc_items(acc@) + seq![93u8]));
                    }
                    assert forall|vs: Vec<E>|
                        vs.wf() && starts_at(buf@, i as int, #[trigger] vs.enc()) implies acc@.len()
                        == vs@.len() && eqv_items(acc@, vs@) by {
                        let tail = vs@.skip(k);
                        assert(tail[0] == vs@[k]);
                        if tail.len() > 1 {
                            // a comma, not a bracket, would follow this element
                            assert(enc_items(tail) == tail[0].enc() + seq![44u8] + enc_items(
                                tail.drop_first(),
                            ));
                            assert(enc_items(tail) =~= tail[0].enc() + (seq![44u8] + enc_items(
                                tail.drop_first(),
                            )));
                            crate::wire::lemma_starts_at_concat(
                                buf@,
                                pos as int,
                                tail[0].enc(),
                                seq![44u8] + enc_items(tail.drop_first()),
                            );
                            assert(buf@[p2 as int] == (seq![44u8] + enc_items(
                                tail.drop_first(),
                            ))[0]);
                            assert(false);
                        }
                        assert(vs@.len() == k + 1);
                        assert(vs@.take(k + 1) =~= vs@.take(k).push(vs@[k]));
                        assert(eqv_items(acc@, vs@.take(k + 1))) by {
                            assert forall|t: int| 0 <= t < acc@.len() implies (
                            #[trigger] acc@[t]).eqv(&vs@.take(k + 1)[t]) by {
                                if t < k {
                                    assert(acc@[t] == prev[t]);
                                    assert(vs@.take(k + 1)[t] == vs@.take(k)[t]);
                                } else {
                                    assert(acc@[t] == e);
                                }
                            }
                        }
                        assert(vs@.take(k + 1) =~= vs@);
                    }
                }
                return Some((p2 + 1, acc));
            }
            if b != 44 {
                proof {
                    assert forall|vs: Vec<E>|
                        vs.wf() && starts_at(buf@, i as int, #[trigger] vs.enc()) implies false by {
                        let tail = vs@.skip(k);
                        assert(tail[0] == vs@[k]);
                        if tail.len() == 1 {
                            assert(enc_items(tail) == vs@[k].enc());
                            assert(buf@[p2 as int] == 93) by {
                                assert(enc_list(vs@)[enc_list(vs@).len() - 1] == 93);
                                assert(buf@[i + enc_list(vs@).len() - 1] == enc_list(
                                    vs@,
                                )[enc_list(vs@).len() - 1]);
                            }
                        } else {
                            assert(enc_items(tail) == tail[0].enc() + seq![44u8] + enc_items(
                                tail.drop_first(),
                            ));
                            assert(enc_items(tail) =~= tail[0].enc() + (seq![44u8] + enc_items(
                                tail.drop_first(),
                            )));
                            crate::wire::lemma_starts_at_concat(
                                buf@,
                                pos as int,
                                tail[0].enc(),
                                seq![44u8] + enc_items(tail.drop_first()),
                            );
                            assert(buf@[p2 as int] == (seq![44u8] + enc_items(
                                tail.drop_first(),
                            ))[0]);
                        }
                    }
                }
                return None;
            }
            proof {
                // the separator seen is a comma: every candidate list goes on
                assert(starts_at(buf@, i as int + 1, enc_items(acc@)) && p2 + 1 == i + 1
                    + enc_items(acc@).len() + 1) by {
                    if prev.len() == 0 {
                        assert(enc_items(acc@) == e.enc());
                    } else {
                        assert(enc_items(acc@) == enc_items(prev) + seq![44u8] + e.enc());
                        assert(enc_items(acc@) =~= enc_items(prev) + (seq![44u8] + e.enc()));
                        assert(starts_at(buf@, pos as int - 1, seq![44u8])) by {
                            assert(buf@[pos - 1] == 44);
                        }
                        crate::wire::lemma_starts_at_concat(
                            buf@,
                            pos as int - 1,
                            seq![44u8],
                            e.enc(),
                        );
                        crate::wire::lemma_starts_at_concat(
                            buf@,
                            i as int + 1,
                            enc_items(prev),
                            seq![44u8] + e.enc(),
                        );
                    }
                }
                assert forall|vs: Vec<E>|
                    vs.wf() && starts_at(buf@, i as int, #[trigger] vs.enc()) implies acc@.len()
                    < vs@.len() && eqv_items(acc@, vs@.take(acc@.len() as int)) && starts_at(
                    buf@,
                    p2 as int + 1,
                    enc_items(vs@.skip(acc@.len() as int)),
                ) && i + enc_list(vs@).len() == p2 + 1 + enc_items(
                    vs@.skip(acc@.len() as int),
                ).len() + 1 by {
                    let tail = vs@.skip(k);
                    assert(tail[0] == vs@[k]);
                    if tail.len() == 1 {
                        assert(enc_items(tail) == vs@[k].enc());
                        assert(buf@[p2 as int] == 93) by {
                            assert(enc_list(vs@)[enc_list(vs@).len() - 1] == 93);
                            assert(buf@[i + enc_list(vs@).len() - 1] == enc_list(
                                vs@,
                            )[enc_list(vs@).len() - 1]);
                        }
                        assert(false);
                    }
                    assert(enc_items(tail) == tail[0].enc() + seq![44u8] + enc_items(
                        tail.drop_first(),
                    ));
                    assert(enc_items(tail) =~= (tail[0].enc() + seq![44u8]) + enc_items(
                        tail.drop_first(),
                    ));
                    crate::wire::lemma_starts_at_concat(
                        buf@,
                        pos as int,
                        tail[0].enc() + seq![44u8],
                        enc_items(tail.drop_first()),
                    );
                    assert(tail.drop_first() =~= vs@.skip(k + 1));
                    assert(vs@.len() > k + 1);
                    assert(eqv_items(acc@, vs@.take(k + 1))) by {
                        assert forall|t: int| 0 <= t < acc@.len() implies (#[trigger] acc@[t]).eqv(
                        &vs@.take(k + 1)[t]) by {
                            if t < k {
                                assert(acc@[t] == prev[t]);
                                assert(vs@.take(k + 1)[t] == vs@.take(k)[t]);
                            } else {
                                assert(acc@[t] == e);
                            }
                        }
                    }
                }
            }
            pos = p2 + 1;
        }
    }
}

} // verus!
