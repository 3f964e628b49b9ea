//! Message codec: the canonical line form of each message, an encoder, and a
//! decoder proved sound (whatever it accepts is exactly the canonical line of
//! the message it returns) and complete (the canonical line of any
//! well-formed message decodes to that message).  Together the two directions
//! give the round trip: encoding then decoding any well-formed message yields
//! a value equal to the original, field for field.

use vstd::prelude::*;

use crate::data::{BoardSquare, ComboTable, KickTable, Mino, Move, Spins};
use crate::elem::{eqv_items, WireElem};
use crate::protocol::{AsciiText, Config, Incoming, Milli, Outgoing, Pieces, Play, State};
use crate::wire::{
    emit_lit, enc_milli, expect_lit, is_milli_bytes, lemma_starts_at_concat, lemma_starts_at_subrange, lit,
    milli_boundary, starts_at,
};

verus! {

/// Decoding failed: the line is not the canonical form of any message.
#[derive(Clone, Copy, Debug, PartialEq, Eq, Structural)]
pub enum FramingError {
    Malformed,
}

/// One keyed field of a message: the key literal, then the value's form.
pub open spec fn enc_field<E: WireElem>(key: Seq<char>, v: E) -> Seq<u8> {
    lit(key) + v.enc()
}

/// A concatenation occurring at `p` splits into the head at `p` and the rest
/// after it, whose first byte is visible.
pub proof fn lemma_field_step(buf: Seq<u8>, p: int, head: Seq<u8>, rest: Seq<u8>)
    requires
        starts_at(buf, p, head + rest),
        rest.len() > 0,
    ensures
        starts_at(buf, p, head),
        starts_at(buf, p + head.len(), rest),
        p + head.len() < buf.len(),
        buf[p + head.len()] == rest[0],
{
    lemma_starts_at_concat(buf, p, head, rest);
}

/// A prefix of the buffer splits at any interior point.
pub proof fn lemma_subrange_split(s: Seq<u8>, a: int, b: int)
    requires
        0 <= a <= b <= s.len(),
    ensures
        s.subrange(0, b) == s.subrange(0, a) + s.subrange(a, b),
{
    assert(s.subrange(0, b) =~= s.subrange(0, a) + s.subrange(a, b));
}

/// Parse one keyed field: the key literal, then one value.  Sound and
/// complete in the sense of [`WireElem::parse`].
pub fn parse_field<E: WireElem>(buf: &[u8], i: usize, key: &str) -> (r: Option<(usize, E)>)
    requires
        key.is_ascii(),
        i <= buf@.len(),
    ensures
        r matches Some((j, v)) ==> i < j <= buf@.len() && v.wf() && starts_at(
            buf@,
            i as int,
            lit(key@) + v.enc(),
        ) && j == i + key@.len() + v.enc().len(),
        forall|v: E|
            #![trigger starts_at(buf@, i as int, lit(key@) + v.enc())]
            v.wf() && starts_at(buf@, i as int, lit(key@) + v.enc()) && (i + key@.len()
                + v.enc().len() == buf@.len() || E::compat_after(
                buf@[i + key@.len() + v.enc().len()],
            )) ==> (r matches Some((j, v2)) && j == i + key@.len() + v.enc().len() && v2.eqv(&v)),
{
    let j = match expect_lit(buf, i, key) {
        Some(j) => j,
        None => {
            proof {
                assert forall|v: E|
                    v.wf() && starts_at(buf@, i as int, lit(key@) + #[trigger] v.enc()) implies false by {
                    lemma_starts_at_concat(buf@, i as int, lit(key@), v.enc());
                }
            }
            return None;
        },
    };
    match E::parse(buf, j) {
        Some((j2, v)) => {
            proof {
                lemma_starts_at_concat(buf@, i as int, lit(key@), v.enc());
                assert forall|w: E|
                    w.wf() && starts_at(buf@, i as int, lit(key@) + #[trigger] w.enc()) && (i
                        + key@.len() + w.enc().len() == buf@.len() || E::compat_after(
                        buf@[i + key@.len() + w.enc().len()],
                    )) implies j2 == i + key@.len() + w.enc().len() && v.eqv(&w) by {
                    lemma_starts_at_concat(buf@, i as int, lit(key@), w.enc());
                    assert(starts_at(buf@, j as int, w.enc()));
                }
            }
            Some((j2, v))
        },
        None => {
            proof {
                assert forall|w: E|
                    w.wf() && starts_at(buf@, i as int, lit(key@) + #[trigger] w.enc()) && (i
                        + key@.len() + w.enc().len() == buf@.len() || E::compat_after(
                        buf@[i + key@.len() + w.enc().len()],
                    )) implies false by {
                    lemma_starts_at_concat(buf@, i as int, lit(key@), w.enc());
                    assert(starts_at(buf@, j as int, w.enc()));
                }
            }
            None
        },
    }
}

/// Append one keyed field.
pub fn emit_field<E: WireElem>(out: &mut Vec<u8>, key: &str, v: &E)
    requires
        key.is_ascii(),
        v.wf(),
    ensures
        final(out)@ == old(out)@ + (lit(key@) + v.enc()),
{
    emit_lit(out, key);
    v.emit(out);
    proof {
        assert(final(out)@ =~= old(out)@ + (lit(key@) + v.enc()));
    }
}

/// The `play` line from its second field on.
pub open spec fn enc_play_t1(m: Play) -> Seq<u8> {
    enc_field(",\"garbageCap\":"@, m.garbage_cap) + lit("}"@)
}

/// The canonical line of a `play` message.
pub open spec fn enc_play(m: Play) -> Seq<u8> {
    enc_field("{\"type\":\"play\",\"garbageMultiplier\":"@, m.garbage_multiplier) + enc_play_t1(m)
}

/// Every field of a `play` message has a wire form.
pub open spec fn wf_play(m: Play) -> bool {
    m.garbage_multiplier.wf() && m.garbage_cap.wf()
}

/// Field-for-field equality of `play` messages.
pub open spec fn play_eqv(a: Play, b: Play) -> bool {
    a.garbage_multiplier == b.garbage_multiplier && a.garbage_cap == b.garbage_cap
}

/// `line` is one acceptable spelling of the `play` message `m`: the
/// canonical line, except that the multiplier may use any of its standard
/// number spellings.
pub open spec fn is_play_line(line: Seq<u8>, m: Play) -> bool {
    exists|s: Seq<u8>|
        #![trigger is_milli_bytes(s, m.garbage_multiplier.0 as int)]
        is_milli_bytes(s, m.garbage_multiplier.0 as int) && line == lit(
            "{\"type\":\"play\",\"garbageMultiplier\":"@,
        ) + s + enc_play_t1(m)
}

/// The canonical line is one of the accepted spellings.
pub proof fn lemma_play_line_canonical(m: Play)
    requires
        wf_play(m),
    ensures
        is_play_line(enc_play(m), m),
{
    crate::wire::lemma_enc_milli_is_spelling(m.garbage_multiplier.0 as int);
    let s = enc_milli(m.garbage_multiplier.0 as int);
    assert(enc_play(m) == lit("{\"type\":\"play\",\"garbageMultiplier\":"@) + s + enc_play_t1(m));
}

/// Where each piece of an accepted `play` line stands.
proof fn lemma_play_chain_any(buf: Seq<u8>, m: Play, s: Seq<u8>)
    requires
        wf_play(m),
        is_milli_bytes(s, m.garbage_multiplier.0 as int),
        buf == lit("{\"type\":\"play\",\"garbageMultiplier\":"@) + s + enc_play_t1(m),
    ensures
        starts_at(buf, 0, lit("{\"type\":\"play\",\"garbageMultiplier\":"@)),
        starts_at(buf, "{\"type\":\"play\",\"garbageMultiplier\":"@.len() as int, s),
        milli_boundary(buf, "{\"type\":\"play\",\"garbageMultiplier\":"@.len() as int + s.len()),
        starts_at(
            buf,
            "{\"type\":\"play\",\"garbageMultiplier\":"@.len() as int + s.len(),
            lit(",\"garbageCap\":"@) + m.garbage_cap.enc(),
        ),
        starts_at(
            buf,
            "{\"type\":\"play\",\"garbageMultiplier\":"@.len() as int + s.len()
                + ",\"garbageCap\":"@.len() + m.garbage_cap.enc().len(),
            lit("}"@),
        ),
        buf.len() == "{\"type\":\"play\",\"garbageMultiplier\":"@.len() as int + s.len()
            + ",\"garbageCap\":"@.len() + m.garbage_cap.enc().len() + 1,
{
    reveal_strlit("{\"type\":\"play\",\"garbageMultiplier\":");
    reveal_strlit(",\"garbageCap\":");
    reveal_strlit("}");
    let k1 = lit("{\"type\":\"play\",\"garbageMultiplier\":"@);
    assert(starts_at(buf, 0, buf));
    assert(buf =~= (k1 + s) + enc_play_t1(m));
    lemma_field_step(buf, 0, k1 + s, enc_play_t1(m));
    crate::wire::lemma_starts_at_concat(buf, 0, k1, s);
    lemma_field_step(
        buf,
        k1.len() as int + s.len(),
        lit(",\"garbageCap\":"@) + m.garbage_cap.enc(),
        lit("}"@),
    );
    assert(buf[k1.len() as int + s.len()] == enc_play_t1(m)[0]);
    assert(enc_play_t1(m)[0] == lit(",\"garbageCap\":"@)[0]);
}

/// Decode one `play` line whole: sound (whatever is accepted is an accepted
/// spelling of the result) and complete (every accepted spelling of every
/// well-formed message decodes to that message).
#[verifier::rlimit(100)]
#[verifier::spinoff_prover]
pub fn decode_play(buf: &[u8]) -> (r: Option<Play>)
    ensures
        r matches Some(m) ==> wf_play(m) && is_play_line(buf@, m),
        forall|m: Play|
            wf_play(m) && is_play_line(buf@, m) ==> (r matches Some(m2) && play_eqv(m2, m)),
{
    proof {
        reveal_strlit("{\"type\":\"play\",\"garbageMultiplier\":");
        reveal_strlit(",\"garbageCap\":");
        reveal_strlit("}");
    }
    let p0 = match expect_lit(buf, 0, "{\"type\":\"play\",\"garbageMultiplier\":") {
        Some(j) => j,
        None => {
            proof {
                assert forall|m: Play| wf_play(m) && is_play_line(buf@, m) implies false by {
                    let s = choose|s: Seq<u8>|
                        #![trigger is_milli_bytes(s, m.garbage_multiplier.0 as int)]
                        is_milli_bytes(s, m.garbage_multiplier.0 as int) && buf@ == lit(
                            "{\"type\":\"play\",\"garbageMultiplier\":"@,
                        ) + s + enc_play_t1(m);
                    lemma_play_chain_any(buf@, m, s);
                }
            }
            return None;
        },
    };
    let gm = match crate::wire::parse_milli_any(buf, p0) {
        Some(x) => x,
        None => {
            proof {
                assert forall|m: Play| wf_play(m) && is_play_line(buf@, m) implies false by {
                    let s = choose|s: Seq<u8>|
                        #![trigger is_milli_bytes(s, m.garbage_multiplier.0 as int)]
                        is_milli_bytes(s, m.garbage_multiplier.0 as int) && buf@ == lit(
                            "{\"type\":\"play\",\"garbageMultiplier\":"@,
                        ) + s + enc_play_t1(m);
                    lemma_play_chain_any(buf@, m, s);
                }
            }
            return None;
        },
    };
    let (p1, gmv) = gm;
    let f2 = match parse_field::<i32>(buf, p1, ",\"garbageCap\":") {
        Some(x) => x,
        None => {
            proof {
                assert forall|m: Play| wf_play(m) && is_play_line(buf@, m) implies false by {
                    let s = choose|s: Seq<u8>|
                        #![trigger is_milli_bytes(s, m.garbage_multiplier.0 as int)]
                        is_milli_bytes(s, m.garbage_multiplier.0 as int) && buf@ == lit(
                            "{\"type\":\"play\",\"garbageMultiplier\":"@,
                        ) + s + enc_play_t1(m);
                    lemma_play_chain_any(buf@, m, s);
                    assert(starts_at(buf@, p0 as int, s));
                    assert(milli_boundary(buf@, p0 as int + s.len()));
                    assert(p1 as int == p0 as int + s.len());
                }
            }
            return None;
        },
    };
    let (p2, garbage_cap) = f2;
    let p3 = match expect_lit(buf, p2, "}") {
        Some(j) => j,
        None => {
            proof {
                assert forall|m: Play| wf_play(m) && is_play_line(buf@, m) implies false by {
                    let s = choose|s: Seq<u8>|
                        #![trigger is_milli_bytes(s, m.garbage_multiplier.0 as int)]
                        is_milli_bytes(s, m.garbage_multiplier.0 as int) && buf@ == lit(
                            "{\"type\":\"play\",\"garbageMultiplier\":"@,
                        ) + s + enc_play_t1(m);
                    lemma_play_chain_any(buf@, m, s);
                    assert(starts_at(buf@, p0 as int, s));
                    assert(milli_boundary(buf@, p0 as int + s.len()));
                    assert(p1 as int == p0 as int + s.len());
                }
            }
            return None;
        },
    };
    if p3 != buf.len() {
        proof {
            assert forall|m: Play| wf_play(m) && is_play_line(buf@, m) implies false by {
                let s = choose|s: Seq<u8>|
                    #![trigger is_milli_bytes(s, m.garbage_multiplier.0 as int)]
                    is_milli_bytes(s, m.garbage_multiplier.0 as int) && buf@ == lit(
                        "{\"type\":\"play\",\"garbageMultiplier\":"@,
                    ) + s + enc_play_t1(m);
                lemma_play_chain_any(buf@, m, s);
            }
        }
        return None;
    }
    let m2 = Play { garbage_multiplier: Milli(gmv), garbage_cap };
    proof {
        let sw = buf@.subrange(p0 as int, p1 as int);
        let k1 = lit("{\"type\":\"play\",\"garbageMultiplier\":"@);
        lemma_starts_at_subrange(buf@, 0, k1);
        lemma_starts_at_subrange(buf@, p1 as int, lit(",\"garbageCap\":"@) + m2.garbage_cap.enc());
        lemma_starts_at_subrange(buf@, p2 as int, lit("}"@));
        lemma_subrange_split(buf@, p0 as int, p1 as int);
        lemma_subrange_split(buf@, p1 as int, p2 as int);
        lemma_subrange_split(buf@, p2 as int, p3 as int);
        assert(buf@ =~= buf@.subrange(0, p3 as int));
        assert(buf@ == ((k1 + sw) + (lit(",\"garbageCap\":"@) + m2.garbage_cap.enc())) + lit(
            "}"@,
        ));
        assert(k1 + sw + enc_play_t1(m2) =~= ((k1 + sw) + (lit(",\"garbageCap\":"@)
            + m2.garbage_cap.enc())) + lit("}"@));
        assert(is_milli_bytes(sw, m2.garbage_multiplier.0 as int));
        assert(is_play_line(buf@, m2));
        assert forall|m: Play| wf_play(m) && is_play_line(buf@, m) implies play_eqv(m2, m) by {
            let s = choose|s: Seq<u8>|
                #![trigger is_milli_bytes(s, m.garbage_multiplier.0 as int)]
                is_milli_bytes(s, m.garbage_multiplier.0 as int) && buf@ == lit(
                    "{\"type\":\"play\",\"garbageMultiplier\":"@,
                ) + s + enc_play_t1(m);
            lemma_play_chain_any(buf@, m, s);
            assert(starts_at(buf@, p0 as int, s));
            assert(milli_boundary(buf@, p0 as int + s.len()));
            assert(p1 as int == p0 as int + s.len());
        }
    }
    Some(m2)
}

/// Encode a `play` message as its canonical line.
#[verifier::rlimit(100)]
pub fn encode_play(m: &Play, out: &mut Vec<u8>)
    requires
        wf_play(*m),
    ensures
        final(out)@ == old(out)@ + enc_play(*m),
{
    proof {
        reveal_strlit("{\"type\":\"play\",\"garbageMultiplier\":");
        reveal_strlit(",\"garbageCap\":");
        reveal_strlit("}");
    }
    emit_field(out, "{\"type\":\"play\",\"garbageMultiplier\":", &m.garbage_multiplier);
    emit_field(out, ",\"garbageCap\":", &m.garbage_cap);
    emit_lit(out, "}");
    proof {
        assert(final(out)@ =~= old(out)@ + enc_play(*m));
    }
}


/// The key literals of this line shape: plain ASCII, every later key opening
/// with a comma, the line closing with a brace.
proof fn lemma_config_keys()
    ensures
        "{\"type\":\"config\",\"boardWidth\":".is_ascii(),
        lit("{\"type\":\"config\",\"boardWidth\":"@).len() > 0,
        ",\"boardHeight\":".is_ascii(),
        lit(",\"boardHeight\":"@).len() > 0,
        lit(",\"boardHeight\":"@)[0] == 44,
        ",\"kicks\":".is_ascii(),
        lit(",\"kicks\":"@).len() > 0,
        lit(",\"kicks\":"@)[0] == 44,
        ",\"spins\":".is_ascii(),
        lit(",\"spins\":"@).len() > 0,
        lit(",\"spins\":"@)[0] == 44,
        ",\"comboTable\":".is_ascii(),
        lit(",\"comboTable\":"@).len() > 0,
        lit(",\"comboTable\":"@)[0] == 44,
        ",\"b2bCharging\":".is_ascii(),
        lit(",\"b2bCharging\":"@).len() > 0,
        lit(",\"b2bCharging\":"@)[0] == 44,
        ",\"b2bChargeAt\":".is_ascii(),
        lit(",\"b2bChargeAt\":"@).len() > 0,
        lit(",\"b2bChargeAt\":"@)[0] == 44,
        ",\"b2bChargeBase\":".is_ascii(),
        lit(",\"b2bChargeBase\":"@).len() > 0,
        lit(",\"b2bChargeBase\":"@)[0] == 44,
        ",\"b2bChaining\":".is_ascii(),
        lit(",\"b2bChaining\":"@).len() > 0,
        lit(",\"b2bChaining\":"@)[0] == 44,
        ",\"garbageMultiplier\":".is_ascii(),
        lit(",\"garbageMultiplier\":"@).len() > 0,
        lit(",\"garbageMultiplier\":"@)[0] == 44,
        ",\"garbageCap\":".is_ascii(),
        lit(",\"garbageCap\":"@).len() > 0,
        lit(",\"garbageCap\":"@)[0] == 44,
        ",\"garbageSpecialBonus\":".is_ascii(),
        lit(",\"garbageSpecialBonus\":"@).len() > 0,
        lit(",\"garbageSpecialBonus\":"@)[0] == 44,
        ",\"pcB2b\":".is_ascii(),
        lit(",\"pcB2b\":"@).len() > 0,
        lit(",\"pcB2b\":"@)[0] == 44,
        ",\"pcGarbage\":".is_ascii(),
        lit(",\"pcGarbage\":"@).len() > 0,
        lit(",\"pcGarbage\":"@)[0] == 44,
        ",\"queue\":".is_ascii(),
        lit(",\"queue\":"@).len() > 0,
        lit(",\"queue\":"@)[0] == 44,
        "}".is_ascii(),
        lit("}"@)[0] == 125,
        lit("}"@).len() == 1,
{
    reveal_strlit("{\"type\":\"config\",\"boardWidth\":");
    reveal_strlit(",\"boardHeight\":");
    reveal_strlit(",\"kicks\":");
    reveal_strlit(",\"spins\":");
    reveal_strlit(",\"comboTable\":");
    reveal_strlit(",\"b2bCharging\":");
    reveal_strlit(",\"b2bChargeAt\":");
    reveal_strlit(",\"b2bChargeBase\":");
    reveal_strlit(",\"b2bChaining\":");
    reveal_strlit(",\"garbageMultiplier\":");
    reveal_strlit(",\"garbageCap\":");
    reveal_strlit(",\"garbageSpecialBonus\":");
    reveal_strlit(",\"pcB2b\":");
    reveal_strlit(",\"pcGarbage\":");
    reveal_strlit(",\"queue\":");
    reveal_strlit("}");
}

/// The line from field 2 on.
pub open spec fn enc_config_t1(m: Config) -> Seq<u8> {
    enc_field(",\"boardHeight\":"@, m.board_height) + enc_config_t2(m)
}

/// The line from field 3 on.
pub open spec fn enc_config_t2(m: Config) -> Seq<u8> {
    enc_field(",\"kicks\":"@, m.kicks) + enc_config_t3(m)
}

/// The line from field 4 on.
pub open spec fn enc_config_t3(m: Config) -> Seq<u8> {
    enc_field(",\"spins\":"@, m.spins) + enc_config_t4(m)
}

/// The line from field 5 on.
pub open spec fn enc_config_t4(m: Config) -> Seq<u8> {
    enc_field(",\"comboTable\":"@, m.combo_table) + enc_config_t5(m)
}

/// The line from field 6 on.
pub open spec fn enc_config_t5(m: Config) -> Seq<u8> {
    enc_field(",\"b2bCharging\":"@, m.b2b_charging) + enc_config_t6(m)
}

/// The line from field 7 on.
pub open spec fn enc_config_t6(m: Config) -> Seq<u8> {
    enc_field(",\"b2bChargeAt\":"@, m.b2b_charge_at) + enc_config_t7(m)
}

/// The line from field 8 on.
pub open spec fn enc_config_t7(m: Config) -> Seq<u8> {
    enc_field(",\"b2bChargeBase\":"@, m.b2b_charge_base) + enc_config_t8(m)
}

/// The line from field 9 on.
pub open spec fn enc_config_t8(m: Config) -> Seq<u8> {
    enc_field(",\"b2bChaining\":"@, m.b2b_chaining) + enc_config_t9(m)
}

/// The line from field 10 on.
pub open spec fn enc_config_t9(m: Config) -> Seq<u8> {
    enc_field(",\"garbageMultiplier\":"@, m.garbage_multiplier) + enc_config_t10(m)
}

/// The line from field 11 on.
pub open spec fn enc_config_t10(m: Config) -> Seq<u8> {
    enc_field(",\"garbageCap\":"@, m.garbage_cap) + enc_config_t11(m)
}

/// The line from field 12 on.
pub open spec fn enc_config_t11(m: Config) -> Seq<u8> {
    enc_field(",\"garbageSpecialBonus\":"@, m.garbage_special_bonus) + enc_config_t12(m)
}

/// The line from field 13 on.
pub open spec fn enc_config_t12(m: Config) -> Seq<u8> {
    enc_field(",\"pcB2b\":"@, m.pc_b2b) + enc_config_t13(m)
}

/// The line from field 14 on.
pub open spec fn enc_config_t13(m: Config) -> Seq<u8> {
    enc_field(",\"pcGarbage\":"@, m.pc_garbage) + enc_config_t14(m)
}

/// The line from field 15 on.
pub open spec fn enc_config_t14(m: Config) -> Seq<u8> {
    enc_field(",\"queue\":"@, m.queue) + lit("}"@)
}

/// The canonical line of this message.
pub open spec fn enc_config(m: Config) -> Seq<u8> {
    enc_field("{\"type\":\"config\",\"boardWidth\":"@, m.board_width) + enc_config_t1(m)
}

/// The first 1 fields of the line, in order.
pub open spec fn enc_config_pre1(m: Config) -> Seq<u8> {
    (lit("{\"type\":\"config\",\"boardWidth\":"@) + m.board_width.enc())
}

/// End position of field 1 in the canonical line.
pub open spec fn enc_config_pos1(m: Config) -> int {
    0 + "{\"type\":\"config\",\"boardWidth\":"@.len() as int + m.board_width.enc().len()
}

/// The first 2 fields of the line, in order.
pub open spec fn enc_config_pre2(m: Config) -> Seq<u8> {
    enc_config_pre1(m) + (lit(",\"boardHeight\":"@) + m.board_height.enc())
}

/// End position of field 2 in the canonical line.
pub open spec fn enc_config_pos2(m: Config) -> int {
    enc_config_pos1(m) + ",\"boardHeight\":"@.len() + m.board_height.enc().len()
}

/// The first 3 fields of the line, in order.
pub open spec fn enc_config_pre3(m: Config) -> Seq<u8> {
    enc_config_pre2(m) + (lit(",\"kicks\":"@) + m.kicks.enc())
}

/// End position of field 3 in the canonical line.
pub open spec fn enc_config_pos3(m: Config) -> int {
    enc_config_pos2(m) + ",\"kicks\":"@.len() + m.kicks.enc().len()
}

/// The first 4 fields of the line, in order.
pub open spec fn enc_config_pre4(m: Config) -> Seq<u8> {
    enc_config_pre3(m) + (lit(",\"spins\":"@) + m.spins.enc())
}

/// End position of field 4 in the canonical line.
pub open spec fn enc_config_pos4(m: Config) -> int {
    enc_config_pos3(m) + ",\"spins\":"@.len() + m.spins.enc().len()
}

/// The first 5 fields of the line, in order.
pub open spec fn enc_config_pre5(m: Config) -> Seq<u8> {
    enc_config_pre4(m) + (lit(",\"comboTable\":"@) + m.combo_table.enc())
}

/// End position of field 5 in the canonical line.
pub open spec fn enc_config_pos5(m: Config) -> int {
    enc_config_pos4(m) + ",\"comboTable\":"@.len() + m.combo_table.enc().len()
}

/// The first 6 fields of the line, in order.
pub open spec fn enc_config_pre6(m: Config) -> Seq<u8> {
    enc_config_pre5(m) + (lit(",\"b2bCharging\":"@) + m.b2b_charging.enc())
}

/// End position of field 6 in the canonical line.
pub open spec fn enc_config_pos6(m: Config) -> int {
    enc_config_pos5(m) + ",\"b2bCharging\":"@.len() + m.b2b_charging.enc().len()
}

/// The first 7 fields of the line, in order.
pub open spec fn enc_config_pre7(m: Config) -> Seq<u8> {
    enc_config_pre6(m) + (lit(",\"b2bChargeAt\":"@) + m.b2b_charge_at.enc())
}

/// End position of field 7 in the canonical line.
pub open spec fn enc_config_pos7(m: Config) -> int {
    enc_config_pos6(m) + ",\"b2bChargeAt\":"@.len() + m.b2b_charge_at.enc().len()
}

/// The first 8 fields of the line, in order.
pub open spec fn enc_config_pre8(m: Config) -> Seq<u8> {
    enc_config_pre7(m) + (lit(",\"b2bChargeBase\":"@) + m.b2b_charge_base.enc())
}

/// End position of field 8 in the canonical line.
pub open spec fn enc_config_pos8(m: Config) -> int {
    enc_config_pos7(m) + ",\"b2bChargeBase\":"@.len() + m.b2b_charge_base.enc().len()
}

/// The first 9 fields of the line, in order.
pub open spec fn enc_config_pre9(m: Config) -> Seq<u8> {
    enc_config_pre8(m) + (lit(",\"b2bChaining\":"@) + m.b2b_chaining.enc())
}

/// End position of field 9 in the canonical line.
pub open spec fn enc_config_pos9(m: Config) -> int {
    enc_config_pos8(m) + ",\"b2bChaining\":"@.len() + m.b2b_chaining.enc().len()
}

/// The first 10 fields of the line, in order.
pub open spec fn enc_config_pre10(m: Config) -> Seq<u8> {
    enc_config_pre9(m) + (lit(",\"garbageMultiplier\":"@) + m.garbage_multiplier.enc())
}

/// End position of field 10 in the canonical line.
pub open spec fn enc_config_pos10(m: Config) -> int {
    enc_config_pos9(m) + ",\"garbageMultiplier\":"@.len() + m.garbage_multiplier.enc().len()
}

/// The first 11 fields of the line, in order.
pub open spec fn enc_config_pre11(m: Config) -> Seq<u8> {
    enc_config_pre10(m) + (lit(",\"garbageCap\":"@) + m.garbage_cap.enc())
}

/// End position of field 11 in the canonical line.
pub open spec fn enc_config_pos11(m: Config) -> int {
    enc_config_pos10(m) + ",\"garbageCap\":"@.len() + m.garbage_cap.enc().len()
}

/// The first 12 fields of the line, in order.
pub open spec fn enc_config_pre12(m: Config) -> Seq<u8> {
    enc_config_pre11(m) + (lit(",\"garbageSpecialBonus\":"@) + m.garbage_special_bonus.enc())
}

/// End position of field 12 in the canonical line.
pub open spec fn enc_config_pos12(m: Config) -> int {
    enc_config_pos11(m) + ",\"garbageSpecialBonus\":"@.len() + m.garbage_special_bonus.enc().len()
}

/// The first 13 fields of the line, in order.
pub open spec fn enc_config_pre13(m: Config) -> Seq<u8> {
    enc_config_pre12(m) + (lit(",\"pcB2b\":"@) + m.pc_b2b.enc())
}

/// End position of field 13 in the canonical line.
pub open spec fn enc_config_pos13(m: Config) -> int {
    enc_config_pos12(m) + ",\"pcB2b\":"@.len() + m.pc_b2b.enc().len()
}

/// The first 14 fields of the line, in order.
pub open spec fn enc_config_pre14(m: Config) -> Seq<u8> {
    enc_config_pre13(m) + (lit(",\"pcGarbage\":"@) + m.pc_garbage.enc())
}

/// End position of field 14 in the canonical line.
pub open spec fn enc_config_pos14(m: Config) -> int {
    enc_config_pos13(m) + ",\"pcGarbage\":"@.len() + m.pc_garbage.enc().len()
}

/// The first 15 fields of the line, in order.
pub open spec fn enc_config_pre15(m: Config) -> Seq<u8> {
    enc_config_pre14(m) + (lit(",\"queue\":"@) + m.queue.enc())
}

/// End position of field 15 in the canonical line.
pub open spec fn enc_config_pos15(m: Config) -> int {
    enc_config_pos14(m) + ",\"queue\":"@.len() + m.queue.enc().len()
}

/// Every field of the message has a wire form.
pub open spec fn wf_config(m: Config) -> bool {
    m.board_width.wf() && m.board_height.wf() && m.kicks.wf() && m.spins.wf() && m.combo_table.wf() && m.b2b_charging.wf() && m.b2b_charge_at.wf() && m.b2b_charge_base.wf() && m.b2b_chaining.wf() && m.garbage_multiplier.wf() && m.garbage_cap.wf() && m.garbage_special_bonus.wf() && m.pc_b2b.wf() && m.pc_garbage.wf() && m.queue.wf()
}

/// Field-for-field equality, sequences compared as sequences.
pub open spec fn config_eqv(a: Config, b: Config) -> bool {
    (a.board_width == b.board_width) && (a.board_height == b.board_height) && (a.kicks == b.kicks) && (a.spins == b.spins) && (a.combo_table == b.combo_table) && (a.b2b_charging == b.b2b_charging) && (a.b2b_charge_at == b.b2b_charge_at) && (a.b2b_charge_base == b.b2b_charge_base) && (a.b2b_chaining == b.b2b_chaining) && (a.garbage_multiplier == b.garbage_multiplier) && (a.garbage_cap == b.garbage_cap) && (a.garbage_special_bonus == b.garbage_special_bonus) && (a.pc_b2b == b.pc_b2b) && (a.pc_garbage == b.pc_garbage) && (a.queue@ == b.queue@)
}

/// The first 1 fields followed by the rest make the whole line.
proof fn lemma_config_pre1(m: Config)
    ensures
        enc_config_pre1(m) + enc_config_t1(m) == enc_config(m),
        enc_config_pre1(m).len() == enc_config_pos1(m),
{
    assert(enc_config_pre1(m) + enc_config_t1(m) =~= enc_config(m));
}

/// The first 2 fields followed by the rest make the whole line.
proof fn lemma_config_pre2(m: Config)
    ensures
        enc_config_pre2(m) + enc_config_t2(m) == enc_config(m),
        enc_config_pre2(m).len() == enc_config_pos2(m),
{
    lemma_config_pre1(m);
    assert(enc_config_pre2(m) + enc_config_t2(m) =~= enc_config_pre1(m) + enc_config_t1(m));
}

/// The first 3 fields followed by the rest make the whole line.
proof fn lemma_config_pre3(m: Config)
    ensures
        enc_config_pre3(m) + enc_config_t3(m) == enc_config(m),
        enc_config_pre3(m).len() == enc_config_pos3(m),
{
    lemma_config_pre2(m);
    assert(enc_config_pre3(m) + enc_config_t3(m) =~= enc_config_pre2(m) + enc_config_t2(m));
}

/// The first 4 fields followed by the rest make the whole line.
proof fn lemma_config_pre4(m: Config)
    ensures
        enc_config_pre4(m) + enc_config_t4(m) == enc_config(m),
        enc_config_pre4(m).len() == enc_config_pos4(m),
{
    lemma_config_pre3(m);
    assert(enc_config_pre4(m) + enc_config_t4(m) =~= enc_config_pre3(m) + enc_config_t3(m));
}

/// The first 5 fields followed by the rest make the whole line.
proof fn lemma_config_pre5(m: Config)
    ensures
        enc_config_pre5(m) + enc_config_t5(m) == enc_config(m),
        enc_config_pre5(m).len() == enc_config_pos5(m),
{
    lemma_config_pre4(m);
    assert(enc_config_pre5(m) + enc_config_t5(m) =~= enc_config_pre4(m) + enc_config_t4(m));
}

/// The first 6 fields followed by the rest make the whole line.
proof fn lemma_config_pre6(m: Config)
    ensures
        enc_config_pre6(m) + enc_config_t6(m) == enc_config(m),
        enc_config_pre6(m).len() == enc_config_pos6(m),
{
    lemma_config_pre5(m);
    assert(enc_config_pre6(m) + enc_config_t6(m) =~= enc_config_pre5(m) + enc_config_t5(m));
}

/// The first 7 fields followed by the rest make the whole line.
proof fn lemma_config_pre7(m: Config)
    ensures
        enc_config_pre7(m) + enc_config_t7(m) == enc_config(m),
        enc_config_pre7(m).len() == enc_config_pos7(m),
{
    lemma_config_pre6(m);
    assert(enc_config_pre7(m) + enc_config_t7(m) =~= enc_config_pre6(m) + enc_config_t6(m));
}

/// The first 8 fields followed by the rest make the whole line.
proof fn lemma_config_pre8(m: Config)
    ensures
        enc_config_pre8(m) + enc_config_t8(m) == enc_config(m),
        enc_config_pre8(m).len() == enc_config_pos8(m),
{
    lemma_config_pre7(m);
    assert(enc_config_pre8(m) + enc_config_t8(m) =~= enc_config_pre7(m) + enc_config_t7(m));
}

/// The first 9 fields followed by the rest make the whole line.
proof fn lemma_config_pre9(m: Config)
    ensures
        enc_config_pre9(m) + enc_config_t9(m) == enc_config(m),
        enc_config_pre9(m).len() == enc_config_pos9(m),
{
    lemma_config_pre8(m);
    assert(enc_config_pre9(m) + enc_config_t9(m) =~= enc_config_pre8(m) + enc_config_t8(m));
}

/// The first 10 fields followed by the rest make the whole line.
proof fn lemma_config_pre10(m: Config)
    ensures
        enc_config_pre10(m) + enc_config_t10(m) == enc_config(m),
        enc_config_pre10(m).len() == enc_config_pos10(m),
{
    lemma_config_pre9(m);
    assert(enc_config_pre10(m) + enc_config_t10(m) =~= enc_config_pre9(m) + enc_config_t9(m));
}

/// The first 11 fields followed by the rest make the whole line.
proof fn lemma_config_pre11(m: Config)
    ensures
        enc_config_pre11(m) + enc_config_t11(m) == enc_config(m),
        enc_config_pre11(m).len() == enc_config_pos11(m),
{
    lemma_config_pre10(m);
    assert(enc_config_pre11(m) + enc_config_t11(m) =~= enc_config_pre10(m) + enc_config_t10(m));
}

/// The first 12 fields followed by the rest make the whole line.
proof fn lemma_config_pre12(m: Config)
    ensures
        enc_config_pre12(m) + enc_config_t12(m) == enc_config(m),
        enc_config_pre12(m).len() == enc_config_pos12(m),
{
    lemma_config_pre11(m);
    assert(enc_config_pre12(m) + enc_config_t12(m) =~= enc_config_pre11(m) + enc_config_t11(m));
}

/// The first 13 fields followed by the rest make the whole line.
proof fn lemma_config_pre13(m: Config)
    ensures
        enc_config_pre13(m) + enc_config_t13(m) == enc_config(m),
        enc_config_pre13(m).len() == enc_config_pos13(m),
{
    lemma_config_pre12(m);
    assert(enc_config_pre13(m) + enc_config_t13(m) =~= enc_config_pre12(m) + enc_config_t12(m));
}

/// The first 14 fields followed by the rest make the whole line.
proof fn lemma_config_pre14(m: Config)
    ensures
        enc_config_pre14(m) + enc_config_t14(m) == enc_config(m),
        enc_config_pre14(m).len() == enc_config_pos14(m),
{
    lemma_config_pre13(m);
    assert(enc_config_pre14(m) + enc_config_t14(m) =~= enc_config_pre13(m) + enc_config_t13(m));
}

/// All fields followed by the closing brace make the whole line.
proof fn lemma_config_flat(m: Config)
    ensures
        enc_config_pre15(m) + lit("}"@) == enc_config(m),
        enc_config_pre15(m).len() == enc_config_pos15(m),
        enc_config(m).len() == enc_config_pos15(m) + 1,
{
    lemma_config_keys();
    lemma_config_pre14(m);
    assert(enc_config_pre15(m) + lit("}"@) =~= enc_config_pre14(m) + enc_config_t14(m));
}

/// Peel field 1 off the line at position `p`.
proof fn lemma_config_step0(buf: Seq<u8>, m: Config, p: int)
    requires
        starts_at(buf, p, enc_config(m)),
    ensures
        starts_at(buf, p, lit("{\"type\":\"config\",\"boardWidth\":"@) + m.board_width.enc()),
        starts_at(buf, p + "{\"type\":\"config\",\"boardWidth\":"@.len() + m.board_width.enc().len(), enc_config_t1(m)),
        p + "{\"type\":\"config\",\"boardWidth\":"@.len() + m.board_width.enc().len() < buf.len(),
        buf[p + "{\"type\":\"config\",\"boardWidth\":"@.len() + m.board_width.enc().len()] == 44,
{
    lemma_config_keys();
    lemma_field_step(buf, p, lit("{\"type\":\"config\",\"boardWidth\":"@) + m.board_width.enc(), enc_config_t1(m));
    assert(enc_config_t1(m)[0] == lit(",\"boardHeight\":"@)[0]);
}

/// Peel field 2 off the line at position `p`.
proof fn lemma_config_step1(buf: Seq<u8>, m: Config, p: int)
    requires
        starts_at(buf, p, enc_config_t1(m)),
    ensures
        starts_at(buf, p, lit(",\"boardHeight\":"@) + m.board_height.enc()),
        starts_at(buf, p + ",\"boardHeight\":"@.len() + m.board_height.enc().len(), enc_config_t2(m)),
        p + ",\"boardHeight\":"@.len() + m.board_height.enc().len() < buf.len(),
        buf[p + ",\"boardHeight\":"@.len() + m.board_height.enc().len()] == 44,
{
    lemma_config_keys();
    lemma_field_step(buf, p, lit(",\"boardHeight\":"@) + m.board_height.enc(), enc_config_t2(m));
    assert(enc_config_t2(m)[0] == lit(",\"kicks\":"@)[0]);
}

/// Peel field 3 off the line at position `p`.
proof fn lemma_config_step2(buf: Seq<u8>, m: Config, p: int)
    requires
        starts_at(buf, p, enc_config_t2(m)),
    ensures
        starts_at(buf, p, lit(",\"kicks\":"@) + m.kicks.enc()),
        starts_at(buf, p + ",\"kicks\":"@.len() + m.kicks.enc().len(), enc_config_t3(m)),
        p + ",\"kicks\":"@.len() + m.kicks.enc().len() < buf.len(),
        buf[p + ",\"kicks\":"@.len() + m.kicks.enc().len()] == 44,
{
    lemma_config_keys();
    lemma_field_step(buf, p, lit(",\"kicks\":"@) + m.kicks.enc(), enc_config_t3(m));
    assert(enc_config_t3(m)[0] == lit(",\"spins\":"@)[0]);
}

/// Peel field 4 off the line at position `p`.
proof fn lemma_config_step3(buf: Seq<u8>, m: Config, p: int)
    requires
        starts_at(buf, p, enc_config_t3(m)),
    ensures
        starts_at(buf, p, lit(",\"spins\":"@) + m.spins.enc()),
        starts_at(buf, p + ",\"spins\":"@.len() + m.spins.enc().len(), enc_config_t4(m)),
        p + ",\"spins\":"@.len() + m.spins.enc().len() < buf.len(),
        buf[p + ",\"spins\":"@.len() + m.spins.enc().len()] == 44,
{
    lemma_config_keys();
    lemma_field_step(buf, p, lit(",\"spins\":"@) + m.spins.enc(), enc_config_t4(m));
    assert(enc_config_t4(m)[0] == lit(",\"comboTable\":"@)[0]);
}

/// Peel field 5 off the line at position `p`.
proof fn lemma_config_step4(buf: Seq<u8>, m: Config, p: int)
    requires
        starts_at(buf, p, enc_config_t4(m)),
    ensures
        starts_at(buf, p, lit(",\"comboTable\":"@) + m.combo_table.enc()),
        starts_at(buf, p + ",\"comboTable\":"@.len() + m.combo_table.enc().len(), enc_config_t5(m)),
        p + ",\"comboTable\":"@.len() + m.combo_table.enc().len() < buf.len(),
        buf[p + ",\"comboTable\":"@.len() + m.combo_table.enc().len()] == 44,
{
    lemma_config_keys();
    lemma_field_step(buf, p, lit(",\"comboTable\":"@) + m.combo_table.enc(), enc_config_t5(m));
    assert(enc_config_t5(m)[0] == lit(",\"b2bCharging\":"@)[0]);
}

/// Peel field 6 off the line at position `p`.
proof fn lemma_config_step5(buf: Seq<u8>, m: Config, p: int)
    requires
        starts_at(buf, p, enc_config_t5(m)),
    ensures
        starts_at(buf, p, lit(",\"b2bCharging\":"@) + m.b2b_charging.enc()),
        starts_at(buf, p + ",\"b2bCharging\":"@.len() + m.b2b_charging.enc().len(), enc_config_t6(m)),
        p + ",\"b2bCharging\":"@.len() + m.b2b_charging.enc().len() < buf.len(),
        buf[p + ",\"b2bCharging\":"@.len() + m.b2b_charging.enc().len()] == 44,
{
    lemma_config_keys();
    lemma_field_step(buf, p, lit(",\"b2bCharging\":"@) + m.b2b_charging.enc(), enc_config_t6(m));
    assert(enc_config_t6(m)[0] == lit(",\"b2bChargeAt\":"@)[0]);
}

/// Peel field 7 off the line at position `p`.
proof fn lemma_config_step6(buf: Seq<u8>, m: Config, p: int)
    requires
        starts_at(buf, p, enc_config_t6(m)),
    ensures
        starts_at(buf, p, lit(",\"b2bChargeAt\":"@) + m.b2b_charge_at.enc()),
        starts_at(buf, p + ",\"b2bChargeAt\":"@.len() + m.b2b_charge_at.enc().len(), enc_config_t7(m)),
        p + ",\"b2bChargeAt\":"@.len() + m.b2b_charge_at.enc().len() < buf.len(),
        buf[p + ",\"b2bChargeAt\":"@.len() + m.b2b_charge_at.enc().len()] == 44,
{
    lemma_config_keys();
    lemma_field_step(buf, p, lit(",\"b2bChargeAt\":"@) + m.b2b_charge_at.enc(), enc_config_t7(m));
    assert(enc_config_t7(m)[0] == lit(",\"b2bChargeBase\":"@)[0]);
}

/// Peel field 8 off the line at position `p`.
proof fn lemma_config_step7(buf: Seq<u8>, m: Config, p: int)
    requires
        starts_at(buf, p, enc_config_t7(m)),
    ensures
        starts_at(buf, p, lit(",\"b2bChargeBase\":"@) + m.b2b_charge_base.enc()),
        starts_at(buf, p + ",\"b2bChargeBase\":"@.len() + m.b2b_charge_base.enc().len(), enc_config_t8(m)),
        p + ",\"b2bChargeBase\":"@.len() + m.b2b_charge_base.enc().len() < buf.len(),
        buf[p + ",\"b2bChargeBase\":"@.len() + m.b2b_charge_base.enc().len()] == 44,
{
    lemma_config_keys();
    lemma_field_step(buf, p, lit(",\"b2bChargeBase\":"@) + m.b2b_charge_base.enc(), enc_config_t8(m));
    assert(enc_config_t8(m)[0] == lit(",\"b2bChaining\":"@)[0]);
}

/// Peel field 9 off the line at position `p`.
proof fn lemma_config_step8(buf: Seq<u8>, m: Config, p: int)
    requires
        starts_at(buf, p, enc_config_t8(m)),
    ensures
        starts_at(buf, p, lit(",\"b2bChaining\":"@) + m.b2b_chaining.enc()),
        starts_at(buf, p + ",\"b2bChaining\":"@.len() + m.b2b_chaining.enc().len(), enc_config_t9(m)),
        p + ",\"b2bChaining\":"@.len() + m.b2b_chaining.enc().len() < buf.len(),
        buf[p + ",\"b2bChaining\":"@.len() + m.b2b_chaining.enc().len()] == 44,
{
    lemma_config_keys();
    lemma_field_step(buf, p, lit(",\"b2bChaining\":"@) + m.b2b_chaining.enc(), enc_config_t9(m));
    assert(enc_config_t9(m)[0] == lit(",\"garbageMultiplier\":"@)[0]);
}

/// Peel field 10 off the line at position `p`.
proof fn lemma_config_step9(buf: Seq<u8>, m: Config, p: int)
    requires
        starts_at(buf, p, enc_config_t9(m)),
    ensures
        starts_at(buf, p, lit(",\"garbageMultiplier\":"@) + m.garbage_multiplier.enc()),
        starts_at(buf, p + ",\"garbageMultiplier\":"@.len() + m.garbage_multiplier.enc().len(), enc_config_t10(m)),
        p + ",\"garbageMultiplier\":"@.len() + m.garbage_multiplier.enc().len() < buf.len(),
        buf[p + ",\"garbageMultiplier\":"@.len() + m.garbage_multiplier.enc().len()] == 44,
{
    lemma_config_keys();
    lemma_field_step(buf, p, lit(",\"garbageMultiplier\":"@) + m.garbage_multiplier.enc(), enc_config_t10(m));
    assert(enc_config_t10(m)[0] == lit(",\"garbageCap\":"@)[0]);
}

/// Peel field 11 off the line at position `p`.
proof fn lemma_config_step10(buf: Seq<u8>, m: Config, p: int)
    requires
        starts_at(buf, p, enc_config_t10(m)),
    ensures
        starts_at(buf, p, lit(",\"garbageCap\":"@) + m.garbage_cap.enc()),
        starts_at(buf, p + ",\"garbageCap\":"@.len() + m.garbage_cap.enc().len(), enc_config_t11(m)),
        p + ",\"garbageCap\":"@.len() + m.garbage_cap.enc().len() < buf.len(),
        buf[p + ",\"garbageCap\":"@.len() + m.garbage_cap.enc().len()] == 44,
{
    lemma_config_keys();
    lemma_field_step(buf, p, lit(",\"garbageCap\":"@) + m.garbage_cap.enc(), enc_config_t11(m));
    assert(enc_config_t11(m)[0] == lit(",\"garbageSpecialBonus\":"@)[0]);
}

/// Peel field 12 off the line at position `p`.
proof fn lemma_config_step11(buf: Seq<u8>, m: Config, p: int)
    requires
        starts_at(buf, p, enc_config_t11(m)),
    ensures
        starts_at(buf, p, lit(",\"garbageSpecialBonus\":"@) + m.garbage_special_bonus.enc()),
        starts_at(buf, p + ",\"garbageSpecialBonus\":"@.len() + m.garbage_special_bonus.enc().len(), enc_config_t12(m)),
        p + ",\"garbageSpecialBonus\":"@.len() + m.garbage_special_bonus.enc().len() < buf.len(),
        buf[p + ",\"garbageSpecialBonus\":"@.len() + m.garbage_special_bonus.enc().len()] == 44,
{
    lemma_config_keys();
    lemma_field_step(buf, p, lit(",\"garbageSpecialBonus\":"@) + m.garbage_special_bonus.enc(), enc_config_t12(m));
    assert(enc_config_t12(m)[0] == lit(",\"pcB2b\":"@)[0]);
}

/// Peel field 13 off the line at position `p`.
proof fn lemma_config_step12(buf: Seq<u8>, m: Config, p: int)
    requires
        starts_at(buf, p, enc_config_t12(m)),
    ensures
        starts_at(buf, p, lit(",\"pcB2b\":"@) + m.pc_b2b.enc()),
        starts_at(buf, p + ",\"pcB2b\":"@.len() + m.pc_b2b.enc().len(), enc_config_t13(m)),
        p + ",\"pcB2b\":"@.len() + m.pc_b2b.enc().len() < buf.len(),
        buf[p + ",\"pcB2b\":"@.len() + m.pc_b2b.enc().len()] == 44,
{
    lemma_config_keys();
    lemma_field_step(buf, p, lit(",\"pcB2b\":"@) + m.pc_b2b.enc(), enc_config_t13(m));
    assert(enc_config_t13(m)[0] == lit(",\"pcGarbage\":"@)[0]);
}

/// Peel field 14 off the line at position `p`.
proof fn lemma_config_step13(buf: Seq<u8>, m: Config, p: int)
    requires
        starts_at(buf, p, enc_config_t13(m)),
    ensures
        starts_at(buf, p, lit(",\"pcGarbage\":"@) + m.pc_garbage.enc()),
        starts_at(buf, p + ",\"pcGarbage\":"@.len() + m.pc_garbage.enc().len(), enc_config_t14(m)),
        p + ",\"pcGarbage\":"@.len() + m.pc_garbage.enc().len() < buf.len(),
        buf[p + ",\"pcGarbage\":"@.len() + m.pc_garbage.enc().len()] == 44,
{
    lemma_config_keys();
    lemma_field_step(buf, p, lit(",\"pcGarbage\":"@) + m.pc_garbage.enc(), enc_config_t14(m));
    assert(enc_config_t14(m)[0] == lit(",\"queue\":"@)[0]);
}

/// Peel field 15 off the line at position `p`.
proof fn lemma_config_step14(buf: Seq<u8>, m: Config, p: int)
    requires
        starts_at(buf, p, enc_config_t14(m)),
    ensures
        starts_at(buf, p, lit(",\"queue\":"@) + m.queue.enc()),
        starts_at(buf, p + ",\"queue\":"@.len() + m.queue.enc().len(), lit("}"@)),
        p + ",\"queue\":"@.len() + m.queue.enc().len() < buf.len(),
        buf[p + ",\"queue\":"@.len() + m.queue.enc().len()] == 125,
{
    lemma_config_keys();
    lemma_field_step(buf, p, lit(",\"queue\":"@) + m.queue.enc(), lit("}"@));

}



















/// Whether a slice and a vector hold the same bytes.
fn bytes_match(a: &[u8], b: &Vec<u8>) -> (r: bool)
    ensures
        r <==> a@ == b@,
{
    if a.len() != b.len() {
        proof {
            assert(a@ != b@);
        }
        return false;
    }
    let mut k: usize = 0;
    while k < a.len()
        invariant
            0 <= k <= a@.len(),
            a@.len() == b@.len(),
            forall|t: int| 0 <= t < k ==> a@[t] == b@[t],
        decreases a@.len() - k,
    {
        if a[k] != b[k] {
            return false;
        }
        k = k + 1;
    }
    proof {
        assert(a@ =~= b@);
    }
    true
}


/// The accepted `config` line from field 2 on, with the multiplier slot open.
pub open spec fn enc_config_w1(m: Config, s: Seq<u8>) -> Seq<u8> {
    enc_field(",\"boardHeight\":"@, m.board_height) + enc_config_w2(m, s)
}

/// The accepted `config` line from field 3 on, with the multiplier slot open.
pub open spec fn enc_config_w2(m: Config, s: Seq<u8>) -> Seq<u8> {
    enc_field(",\"kicks\":"@, m.kicks) + enc_config_w3(m, s)
}

/// The accepted `config` line from field 4 on, with the multiplier slot open.
pub open spec fn enc_config_w3(m: Config, s: Seq<u8>) -> Seq<u8> {
    enc_field(",\"spins\":"@, m.spins) + enc_config_w4(m, s)
}

/// The accepted `config` line from field 5 on, with the multiplier slot open.
pub open spec fn enc_config_w4(m: Config, s: Seq<u8>) -> Seq<u8> {
    enc_field(",\"comboTable\":"@, m.combo_table) + enc_config_w5(m, s)
}

/// The accepted `config` line from field 6 on, with the multiplier slot open.
pub open spec fn enc_config_w5(m: Config, s: Seq<u8>) -> Seq<u8> {
    enc_field(",\"b2bCharging\":"@, m.b2b_charging) + enc_config_w6(m, s)
}

/// The accepted `config` line from field 7 on, with the multiplier slot open.
pub open spec fn enc_config_w6(m: Config, s: Seq<u8>) -> Seq<u8> {
    enc_field(",\"b2bChargeAt\":"@, m.b2b_charge_at) + enc_config_w7(m, s)
}

/// The accepted `config` line from field 8 on, with the multiplier slot open.
pub open spec fn enc_config_w7(m: Config, s: Seq<u8>) -> Seq<u8> {
    enc_field(",\"b2bChargeBase\":"@, m.b2b_charge_base) + enc_config_w8(m, s)
}

/// The accepted `config` line from field 9 on, with the multiplier slot open.
pub open spec fn enc_config_w8(m: Config, s: Seq<u8>) -> Seq<u8> {
    enc_field(",\"b2bChaining\":"@, m.b2b_chaining) + enc_config_w9(m, s)
}

/// The accepted `config` line at the multiplier slot: the key, any spelling
/// of the multiplier, then the rest of the canonical line.
pub open spec fn enc_config_w9(m: Config, s: Seq<u8>) -> Seq<u8> {
    (lit(",\"garbageMultiplier\":"@) + s) + enc_config_t10(m)
}

/// One accepted spelling of a whole `config` line.
pub open spec fn enc_config_with(m: Config, s: Seq<u8>) -> Seq<u8> {
    enc_field("{\"type\":\"config\",\"boardWidth\":"@, m.board_width) + enc_config_w1(m, s)
}

/// `line` is one acceptable spelling of the `config` message `m`.
pub open spec fn is_config_line(line: Seq<u8>, m: Config) -> bool {
    exists|s: Seq<u8>|
        #![trigger is_milli_bytes(s, m.garbage_multiplier.0 as int)]
        is_milli_bytes(s, m.garbage_multiplier.0 as int) && line == enc_config_with(m, s)
}

/// The canonical line is one of the accepted spellings.
pub proof fn lemma_config_line_canonical(m: Config)
    requires
        wf_config(m),
    ensures
        is_config_line(enc_config(m), m),
{
    crate::wire::lemma_enc_milli_is_spelling(m.garbage_multiplier.0 as int);
    let s = enc_milli(m.garbage_multiplier.0 as int);
    assert(enc_config_w9(m, s) == enc_config_t9(m));
    assert(enc_config_with(m, s) == enc_config(m));
}

/// Where the first five rule fields of an accepted `config` line stand.
#[verifier::rlimit(100)]
proof fn lemma_config_chain_a(buf: Seq<u8>, m: Config, s: Seq<u8>)
    requires
        wf_config(m),
        is_milli_bytes(s, m.garbage_multiplier.0 as int),
        buf == enc_config_with(m, s),
    ensures
        starts_at(buf, 0, lit("{\"type\":\"config\",\"boardWidth\":"@) + m.board_width.enc()),
        buf[enc_config_pos1(m)] == 44,
        starts_at(buf, enc_config_pos1(m), lit(",\"boardHeight\":"@) + m.board_height.enc()),
        buf[enc_config_pos2(m)] == 44,
        starts_at(buf, enc_config_pos2(m), lit(",\"kicks\":"@) + m.kicks.enc()),
        buf[enc_config_pos3(m)] == 44,
        starts_at(buf, enc_config_pos3(m), lit(",\"spins\":"@) + m.spins.enc()),
        buf[enc_config_pos4(m)] == 44,
        starts_at(buf, enc_config_pos4(m), lit(",\"comboTable\":"@) + m.combo_table.enc()),
        buf[enc_config_pos5(m)] == 44,
        starts_at(buf, enc_config_pos5(m), enc_config_w5(m, s)),
{
    lemma_config_keys();
    assert(starts_at(buf, 0, enc_config_with(m, s)));
    lemma_field_step(
        buf,
        0,
        lit("{\"type\":\"config\",\"boardWidth\":"@) + m.board_width.enc(),
        enc_config_w1(m, s),
    );
    assert(enc_config_w1(m, s)[0] == lit(",\"boardHeight\":"@)[0]);
    lemma_field_step(
        buf,
        enc_config_pos1(m),
        lit(",\"boardHeight\":"@) + m.board_height.enc(),
        enc_config_w2(m, s),
    );
    assert(enc_config_w2(m, s)[0] == lit(",\"kicks\":"@)[0]);
    lemma_field_step(
        buf,
        enc_config_pos2(m),
        lit(",\"kicks\":"@) + m.kicks.enc(),
        enc_config_w3(m, s),
    );
    assert(enc_config_w3(m, s)[0] == lit(",\"spins\":"@)[0]);
    lemma_field_step(
        buf,
        enc_config_pos3(m),
        lit(",\"spins\":"@) + m.spins.enc(),
        enc_config_w4(m, s),
    );
    assert(enc_config_w4(m, s)[0] == lit(",\"comboTable\":"@)[0]);
    lemma_field_step(
        buf,
        enc_config_pos4(m),
        lit(",\"comboTable\":"@) + m.combo_table.enc(),
        enc_config_w5(m, s),
    );
    assert(enc_config_w5(m, s)[0] == lit(",\"b2bCharging\":"@)[0]);
}

/// Where the remaining rule fields and the multiplier slot of an accepted
/// `config` line stand.
#[verifier::rlimit(100)]
proof fn lemma_config_chain_b(buf: Seq<u8>, m: Config, s: Seq<u8>)
    requires
        wf_config(m),
        is_milli_bytes(s, m.garbage_multiplier.0 as int),
        starts_at(buf, enc_config_pos5(m), enc_config_w5(m, s)),
    ensures
        starts_at(buf, enc_config_pos5(m), lit(",\"b2bCharging\":"@) + m.b2b_charging.enc()),
        buf[enc_config_pos6(m)] == 44,
        starts_at(buf, enc_config_pos6(m), lit(",\"b2bChargeAt\":"@) + m.b2b_charge_at.enc()),
        buf[enc_config_pos7(m)] == 44,
        starts_at(buf, enc_config_pos7(m), lit(",\"b2bChargeBase\":"@) + m.b2b_charge_base.enc()),
        buf[enc_config_pos8(m)] == 44,
        starts_at(buf, enc_config_pos8(m), lit(",\"b2bChaining\":"@) + m.b2b_chaining.enc()),
        buf[enc_config_pos9(m)] == 44,
        starts_at(buf, enc_config_pos9(m), lit(",\"garbageMultiplier\":"@)),
        starts_at(buf, enc_config_pos9(m) + ",\"garbageMultiplier\":"@.len(), s),
        milli_boundary(buf, enc_config_pos9(m) + ",\"garbageMultiplier\":"@.len() + s.len()),
        starts_at(buf, enc_config_pos9(m) + ",\"garbageMultiplier\":"@.len() + s.len(), enc_config_t10(m)),
{
    lemma_config_keys();
    lemma_field_step(
        buf,
        enc_config_pos5(m),
        lit(",\"b2bCharging\":"@) + m.b2b_charging.enc(),
        enc_config_w6(m, s),
    );
    assert(enc_config_w6(m, s)[0] == lit(",\"b2bChargeAt\":"@)[0]);
    lemma_field_step(
        buf,
        enc_config_pos6(m),
        lit(",\"b2bChargeAt\":"@) + m.b2b_charge_at.enc(),
        enc_config_w7(m, s),
    );
    assert(enc_config_w7(m, s)[0] == lit(",\"b2bChargeBase\":"@)[0]);
    lemma_field_step(
        buf,
        enc_config_pos7(m),
        lit(",\"b2bChargeBase\":"@) + m.b2b_charge_base.enc(),
        enc_config_w8(m, s),
    );
    assert(enc_config_w8(m, s)[0] == lit(",\"b2bChaining\":"@)[0]);
    lemma_field_step(
        buf,
        enc_config_pos8(m),
        lit(",\"b2bChaining\":"@) + m.b2b_chaining.enc(),
        enc_config_w9(m, s),
    );
    assert(enc_config_w9(m, s)[0] == lit(",\"garbageMultiplier\":"@)[0]);
    lemma_field_step(
        buf,
        enc_config_pos9(m),
        lit(",\"garbageMultiplier\":"@) + s,
        enc_config_t10(m),
    );
    crate::wire::lemma_starts_at_concat(buf, enc_config_pos9(m), lit(",\"garbageMultiplier\":"@), s);
    assert(enc_config_t10(m)[0] == lit(",\"garbageCap\":"@)[0]);
}

/// Where the fields after the multiplier slot stand, relative to the slot's
/// end `q`.
#[verifier::rlimit(100)]
proof fn lemma_config_chain_c(buf: Seq<u8>, m: Config, q: int)
    requires
        wf_config(m),
        starts_at(buf, q, enc_config_t10(m)),
    ensures
        starts_at(buf, q, lit(",\"garbageCap\":"@) + m.garbage_cap.enc()),
        buf[q + ",\"garbageCap\":"@.len() + m.garbage_cap.enc().len()] == 44,
        starts_at(buf, q + ",\"garbageCap\":"@.len() + m.garbage_cap.enc().len(), lit(",\"garbageSpecialBonus\":"@) + m.garbage_special_bonus.enc()),
        buf[q + ",\"garbageCap\":"@.len() + m.garbage_cap.enc().len() + ",\"garbageSpecialBonus\":"@.len() + m.garbage_special_bonus.enc().len()] == 44,
        starts_at(buf, q + ",\"garbageCap\":"@.len() + m.garbage_cap.enc().len() + ",\"garbageSpecialBonus\":"@.len() + m.garbage_special_bonus.enc().len(), lit(",\"pcB2b\":"@) + m.pc_b2b.enc()),
        buf[q + ",\"garbageCap\":"@.len() + m.garbage_cap.enc().len() + ",\"garbageSpecialBonus\":"@.len() + m.garbage_special_bonus.enc().len() + ",\"pcB2b\":"@.len() + m.pc_b2b.enc().len()] == 44,
        starts_at(buf, q + ",\"garbageCap\":"@.len() + m.garbage_cap.enc().len() + ",\"garbageSpecialBonus\":"@.len() + m.garbage_special_bonus.enc().len() + ",\"pcB2b\":"@.len() + m.pc_b2b.enc().len(), lit(",\"pcGarbage\":"@) + m.pc_garbage.enc()),
        buf[q + ",\"garbageCap\":"@.len() + m.garbage_cap.enc().len() + ",\"garbageSpecialBonus\":"@.len() + m.garbage_special_bonus.enc().len() + ",\"pcB2b\":"@.len() + m.pc_b2b.enc().len() + ",\"pcGarbage\":"@.len() + m.pc_garbage.enc().len()] == 44,
        starts_at(buf, q + ",\"garbageCap\":"@.len() + m.garbage_cap.enc().len() + ",\"garbageSpecialBonus\":"@.len() + m.garbage_special_bonus.enc().len() + ",\"pcB2b\":"@.len() + m.pc_b2b.enc().len() + ",\"pcGarbage\":"@.len() + m.pc_garbage.enc().len(), lit(",\"queue\":"@) + m.queue.enc()),
        buf[q + ",\"garbageCap\":"@.len() + m.garbage_cap.enc().len() + ",\"garbageSpecialBonus\":"@.len() + m.garbage_special_bonus.enc().len() + ",\"pcB2b\":"@.len() + m.pc_b2b.enc().len() + ",\"pcGarbage\":"@.len() + m.pc_garbage.enc().len() + ",\"queue\":"@.len() + m.queue.enc().len()] == 125,
        starts_at(buf, q + ",\"garbageCap\":"@.len() + m.garbage_cap.enc().len() + ",\"garbageSpecialBonus\":"@.len() + m.garbage_special_bonus.enc().len() + ",\"pcB2b\":"@.len() + m.pc_b2b.enc().len() + ",\"pcGarbage\":"@.len() + m.pc_garbage.enc().len() + ",\"queue\":"@.len() + m.queue.enc().len(), lit("}"@)),
        q + ",\"garbageCap\":"@.len() + m.garbage_cap.enc().len() + ",\"garbageSpecialBonus\":"@.len() + m.garbage_special_bonus.enc().len() + ",\"pcB2b\":"@.len() + m.pc_b2b.enc().len() + ",\"pcGarbage\":"@.len() + m.pc_garbage.enc().len() + ",\"queue\":"@.len() + m.queue.enc().len() + 1 == q + enc_config_t10(m).len(),
{
    lemma_config_keys();
    lemma_field_step(
        buf,
        q,
        lit(",\"garbageCap\":"@) + m.garbage_cap.enc(),
        enc_config_t11(m),
    );
    assert(enc_config_t11(m)[0] == lit(",\"garbageSpecialBonus\":"@)[0]);
    lemma_field_step(
        buf,
        q + ",\"garbageCap\":"@.len() + m.garbage_cap.enc().len(),
        lit(",\"garbageSpecialBonus\":"@) + m.garbage_special_bonus.enc(),
        enc_config_t12(m),
    );
    assert(enc_config_t12(m)[0] == lit(",\"pcB2b\":"@)[0]);
    lemma_field_step(
        buf,
        q + ",\"garbageCap\":"@.len() + m.garbage_cap.enc().len() + ",\"garbageSpecialBonus\":"@.len() + m.garbage_special_bonus.enc().len(),
        lit(",\"pcB2b\":"@) + m.pc_b2b.enc(),
        enc_config_t13(m),
    );
    assert(enc_config_t13(m)[0] == lit(",\"pcGarbage\":"@)[0]);
    lemma_field_step(
        buf,
        q + ",\"garbageCap\":"@.len() + m.garbage_cap.enc().len() + ",\"garbageSpecialBonus\":"@.len() + m.garbage_special_bonus.enc().len() + ",\"pcB2b\":"@.len() + m.pc_b2b.enc().len(),
        lit(",\"pcGarbage\":"@) + m.pc_garbage.enc(),
        enc_config_t14(m),
    );
    assert(enc_config_t14(m)[0] == lit(",\"queue\":"@)[0]);
    lemma_field_step(
        buf,
        q + ",\"garbageCap\":"@.len() + m.garbage_cap.enc().len() + ",\"garbageSpecialBonus\":"@.len() + m.garbage_special_bonus.enc().len() + ",\"pcB2b\":"@.len() + m.pc_b2b.enc().len() + ",\"pcGarbage\":"@.len() + m.pc_garbage.enc().len(),
        lit(",\"queue\":"@) + m.queue.enc(),
        lit("}"@),
    );
}

/// The length of an accepted `config` line decomposes at the slot.
proof fn lemma_config_with_len(m: Config, s: Seq<u8>)
    ensures
        enc_config_with(m, s).len() == enc_config_pos9(m) + ",\"garbageMultiplier\":"@.len() + s.len()
            + enc_config_t10(m).len(),
{
}

/// The first-five-field facts for any message the line spells.
proof fn lemma_config_line_a(buf: Seq<u8>, m: Config)
    requires
        wf_config(m),
        is_config_line(buf, m),
    ensures
        starts_at(buf, 0, lit("{\"type\":\"config\",\"boardWidth\":"@) + m.board_width.enc()),
        buf[enc_config_pos1(m)] == 44,
        starts_at(buf, enc_config_pos1(m), lit(",\"boardHeight\":"@) + m.board_height.enc()),
        buf[enc_config_pos2(m)] == 44,
        starts_at(buf, enc_config_pos2(m), lit(",\"kicks\":"@) + m.kicks.enc()),
        buf[enc_config_pos3(m)] == 44,
        starts_at(buf, enc_config_pos3(m), lit(",\"spins\":"@) + m.spins.enc()),
        buf[enc_config_pos4(m)] == 44,
        starts_at(buf, enc_config_pos4(m), lit(",\"comboTable\":"@) + m.combo_table.enc()),
        buf[enc_config_pos5(m)] == 44,
        exists|s: Seq<u8>|
            #![trigger enc_config_w5(m, s)]
            is_milli_bytes(s, m.garbage_multiplier.0 as int) && starts_at(
                buf,
                enc_config_pos5(m),
                enc_config_w5(m, s),
            ),
{
    let s = choose|s: Seq<u8>|
        #![trigger is_milli_bytes(s, m.garbage_multiplier.0 as int)]
        is_milli_bytes(s, m.garbage_multiplier.0 as int) && buf == enc_config_with(m, s);
    lemma_config_chain_a(buf, m, s);
}

/// Parse the first five rule fields of a `config` line.
#[verifier::rlimit(100)]
#[verifier::spinoff_prover]
fn parse_config_front1(buf: &[u8]) -> (r: Option<(usize, (i32, i32, KickTable, Spins, ComboTable))>)
    ensures
        r matches Some((j, t)) ==> 0 < j <= buf@.len(),
        forall|m: Config|
            wf_config(m) && is_config_line(buf@, m) ==> (r matches Some((j, t)) && j
                == enc_config_pos5(m) && t.0 == m.board_width && t.1 == m.board_height && t.2 == m.kicks && t.3 == m.spins && t.4 == m.combo_table),
{
    proof {
        lemma_config_keys();
    }
    let r1 = match parse_field::<i32>(buf, 0, "{\"type\":\"config\",\"boardWidth\":") {
        Some(x) => x,
        None => {
            proof {
                assert forall|m: Config| wf_config(m) && is_config_line(buf@, m) implies false by {
                    lemma_config_line_a(buf@, m);
                }
            }
            return None;
        },
    };
    let (p1, f_board_width) = r1;
    let r2 = match parse_field::<i32>(buf, p1, ",\"boardHeight\":") {
        Some(x) => x,
        None => {
            proof {
                assert forall|m: Config| wf_config(m) && is_config_line(buf@, m) implies false by {
                    lemma_config_line_a(buf@, m);
                }
            }
            return None;
        },
    };
    let (p2, f_board_height) = r2;
    let r3 = match parse_field::<KickTable>(buf, p2, ",\"kicks\":") {
        Some(x) => x,
        None => {
            proof {
                assert forall|m: Config| wf_config(m) && is_config_line(buf@, m) implies false by {
                    lemma_config_line_a(buf@, m);
                }
            }
            return None;
        },
    };
    let (p3, f_kicks) = r3;
    let r4 = match parse_field::<Spins>(buf, p3, ",\"spins\":") {
        Some(x) => x,
        None => {
            proof {
                assert forall|m: Config| wf_config(m) && is_config_line(buf@, m) implies false by {
                    lemma_config_line_a(buf@, m);
                }
            }
            return None;
        },
    };
    let (p4, f_spins) = r4;
    let r5 = match parse_field::<ComboTable>(buf, p4, ",\"comboTable\":") {
        Some(x) => x,
        None => {
            proof {
                assert forall|m: Config| wf_config(m) && is_config_line(buf@, m) implies false by {
                    lemma_config_line_a(buf@, m);
                }
            }
            return None;
        },
    };
    let (p5, f_combo_table) = r5;
    proof {
        assert forall|m: Config| wf_config(m) && is_config_line(buf@, m) implies (p5
            == enc_config_pos5(m) && f_board_width == m.board_width && f_board_height
            == m.board_height && f_kicks == m.kicks && f_spins == m.spins && f_combo_table
            == m.combo_table) by {
            lemma_config_line_a(buf@, m);
        }
    }
    Some((p5, (f_board_width, f_board_height, f_kicks, f_spins, f_combo_table)))
}

/// The back-to-back-field facts for any message the line spells.
proof fn lemma_config_line_b2(buf: Seq<u8>, m: Config)
    requires
        wf_config(m),
        is_config_line(buf, m),
    ensures
        starts_at(buf, enc_config_pos5(m), lit(",\"b2bCharging\":"@) + m.b2b_charging.enc()),
        buf[enc_config_pos6(m)] == 44,
        starts_at(buf, enc_config_pos6(m), lit(",\"b2bChargeAt\":"@) + m.b2b_charge_at.enc()),
        buf[enc_config_pos7(m)] == 44,
        starts_at(buf, enc_config_pos7(m), lit(",\"b2bChargeBase\":"@) + m.b2b_charge_base.enc()),
        buf[enc_config_pos8(m)] == 44,
        starts_at(buf, enc_config_pos8(m), lit(",\"b2bChaining\":"@) + m.b2b_chaining.enc()),
        buf[enc_config_pos9(m)] == 44,
        starts_at(buf, enc_config_pos9(m), lit(",\"garbageMultiplier\":"@)),
{
    let s = choose|s: Seq<u8>|
        #![trigger is_milli_bytes(s, m.garbage_multiplier.0 as int)]
        is_milli_bytes(s, m.garbage_multiplier.0 as int) && buf == enc_config_with(m, s);
    lemma_config_chain_a(buf, m, s);
    lemma_config_chain_b(buf, m, s);
}

/// Parse the charge rule fields of a `config` line.
#[verifier::rlimit(100)]
#[verifier::spinoff_prover]
fn parse_config_front2x(buf: &[u8], p: usize) -> (r: Option<(usize, (bool, i32))>)
    requires
        p <= buf@.len(),
    ensures
        r matches Some((j, t)) ==> p < j <= buf@.len(),
        forall|m: Config|
            wf_config(m) && is_config_line(buf@, m) && p as int == enc_config_pos5(m) ==> (
            r matches Some((j, t)) && j == enc_config_pos7(m) && t.0 == m.b2b_charging && t.1
                == m.b2b_charge_at),
{
    proof {
        lemma_config_keys();
    }
    let r6 = match parse_field::<bool>(buf, p, ",\"b2bCharging\":") {
        Some(x) => x,
        None => {
            proof {
                assert forall|m: Config|
                    wf_config(m) && is_config_line(buf@, m) && p as int == enc_config_pos5(
                        m,
                    ) implies false by {
                    lemma_config_line_b2(buf@, m);
                }
            }
            return None;
        },
    };
    let (p6, f_b2b_charging) = r6;
    let r7 = match parse_field::<i32>(buf, p6, ",\"b2bChargeAt\":") {
        Some(x) => x,
        None => {
            proof {
                assert forall|m: Config|
                    wf_config(m) && is_config_line(buf@, m) && p as int == enc_config_pos5(
                        m,
                    ) implies false by {
                    lemma_config_line_b2(buf@, m);
                }
            }
            return None;
        },
    };
    let (p7, f_b2b_charge_at) = r7;
    proof {
        assert forall|m: Config|
            wf_config(m) && is_config_line(buf@, m) && p as int == enc_config_pos5(m) implies (p7
            == enc_config_pos7(m) && f_b2b_charging == m.b2b_charging && f_b2b_charge_at
            == m.b2b_charge_at) by {
            lemma_config_line_b2(buf@, m);
        }
    }
    Some((p7, (f_b2b_charging, f_b2b_charge_at)))
}

/// Parse the chaining rule fields of a `config` line, up to the multiplier
/// slot.
#[verifier::rlimit(100)]
#[verifier::spinoff_prover]
fn parse_config_front2y(buf: &[u8], p: usize) -> (r: Option<(usize, (i32, bool))>)
    requires
        p <= buf@.len(),
    ensures
        r matches Some((j, t)) ==> p < j <= buf@.len(),
        forall|m: Config|
            wf_config(m) && is_config_line(buf@, m) && p as int == enc_config_pos7(m) ==> (
            r matches Some((j, t)) && j == enc_config_pos9(m) + ",\"garbageMultiplier\":"@.len()
                && t.0 == m.b2b_charge_base && t.1 == m.b2b_chaining),
{
    proof {
        lemma_config_keys();
    }
    let r8 = match parse_field::<i32>(buf, p, ",\"b2bChargeBase\":") {
        Some(x) => x,
        None => {
            proof {
                assert forall|m: Config|
                    wf_config(m) && is_config_line(buf@, m) && p as int == enc_config_pos7(
                        m,
                    ) implies false by {
                    lemma_config_line_b2(buf@, m);
                }
            }
            return None;
        },
    };
    let (p8, f_b2b_charge_base) = r8;
    let r9 = match parse_field::<bool>(buf, p8, ",\"b2bChaining\":") {
        Some(x) => x,
        None => {
            proof {
                assert forall|m: Config|
                    wf_config(m) && is_config_line(buf@, m) && p as int == enc_config_pos7(
                        m,
                    ) implies false by {
                    lemma_config_line_b2(buf@, m);
                }
            }
            return None;
        },
    };
    let (p9, f_b2b_chaining) = r9;
    let p10 = match expect_lit(buf, p9, ",\"garbageMultiplier\":") {
        Some(j) => j,
        None => {
            proof {
                assert forall|m: Config|
                    wf_config(m) && is_config_line(buf@, m) && p as int == enc_config_pos7(
                        m,
                    ) implies false by {
                    lemma_config_line_b2(buf@, m);
                }
            }
            return None;
        },
    };
    proof {
        assert forall|m: Config|
            wf_config(m) && is_config_line(buf@, m) && p as int == enc_config_pos7(m) implies (p10
            == enc_config_pos9(m) + ",\"garbageMultiplier\":"@.len() && f_b2b_charge_base
            == m.b2b_charge_base && f_b2b_chaining == m.b2b_chaining) by {
            lemma_config_line_b2(buf@, m);
        }
    }
    Some((p10, (f_b2b_charge_base, f_b2b_chaining)))
}

/// An accepted `config` line, flattened: its pieces in order.
#[verifier::rlimit(100)]
proof fn lemma_config_with_flat(m: Config, s: Seq<u8>)
    ensures
        enc_config_with(m, s) == (lit("{\"type\":\"config\",\"boardWidth\":"@) + m.board_width.enc()) + (lit(",\"boardHeight\":"@) + m.board_height.enc()) + (lit(",\"kicks\":"@) + m.kicks.enc()) + (lit(",\"spins\":"@) + m.spins.enc()) + (lit(",\"comboTable\":"@) + m.combo_table.enc()) + (lit(",\"b2bCharging\":"@) + m.b2b_charging.enc()) + (lit(",\"b2bChargeAt\":"@) + m.b2b_charge_at.enc()) + (lit(",\"b2bChargeBase\":"@) + m.b2b_charge_base.enc()) + (lit(",\"b2bChaining\":"@) + m.b2b_chaining.enc()) + lit(",\"garbageMultiplier\":"@) + s + enc_config_t10(m),
{
    assert((lit("{\"type\":\"config\",\"boardWidth\":"@) + m.board_width.enc()) + enc_config_w1(m, s) =~= (lit("{\"type\":\"config\",\"boardWidth\":"@) + m.board_width.enc()) + (lit(",\"boardHeight\":"@) + m.board_height.enc()) + enc_config_w2(m, s));
    assert((lit("{\"type\":\"config\",\"boardWidth\":"@) + m.board_width.enc()) + (lit(",\"boardHeight\":"@) + m.board_height.enc()) + enc_config_w2(m, s) =~= (lit("{\"type\":\"config\",\"boardWidth\":"@) + m.board_width.enc()) + (lit(",\"boardHeight\":"@) + m.board_height.enc()) + (lit(",\"kicks\":"@) + m.kicks.enc()) + enc_config_w3(m, s));
    assert((lit("{\"type\":\"config\",\"boardWidth\":"@) + m.board_width.enc()) + (lit(",\"boardHeight\":"@) + m.board_height.enc()) + (lit(",\"kicks\":"@) + m.kicks.enc()) + enc_config_w3(m, s) =~= (lit("{\"type\":\"config\",\"boardWidth\":"@) + m.board_width.enc()) + (lit(",\"boardHeight\":"@) + m.board_height.enc()) + (lit(",\"kicks\":"@) + m.kicks.enc()) + (lit(",\"spins\":"@) + m.spins.enc()) + enc_config_w4(m, s));
    assert((lit("{\"type\":\"config\",\"boardWidth\":"@) + m.board_width.enc()) + (lit(",\"boardHeight\":"@) + m.board_height.enc()) + (lit(",\"kicks\":"@) + m.kicks.enc()) + (lit(",\"spins\":"@) + m.spins.enc()) + enc_config_w4(m, s) =~= (lit("{\"type\":\"config\",\"boardWidth\":"@) + m.board_width.enc()) + (lit(",\"boardHeight\":"@) + m.board_height.enc()) + (lit(",\"kicks\":"@) + m.kicks.enc()) + (lit(",\"spins\":"@) + m.spins.enc()) + (lit(",\"comboTable\":"@) + m.combo_table.enc()) + enc_config_w5(m, s));
    assert((lit("{\"type\":\"config\",\"boardWidth\":"@) + m.board_width.enc()) + (lit(",\"boardHeight\":"@) + m.board_height.enc()) + (lit(",\"kicks\":"@) + m.kicks.enc()) + (lit(",\"spins\":"@) + m.spins.enc()) + (lit(",\"comboTable\":"@) + m.combo_table.enc()) + enc_config_w5(m, s) =~= (lit("{\"type\":\"config\",\"boardWidth\":"@) + m.board_width.enc()) + (lit(",\"boardHeight\":"@) + m.board_height.enc()) + (lit(",\"kicks\":"@) + m.kicks.enc()) + (lit(",\"spins\":"@) + m.spins.enc()) + (lit(",\"comboTable\":"@) + m.combo_table.enc()) + (lit(",\"b2bCharging\":"@) + m.b2b_charging.enc()) + enc_config_w6(m, s));
    assert((lit("{\"type\":\"config\",\"boardWidth\":"@) + m.board_width.enc()) + (lit(",\"boardHeight\":"@) + m.board_height.enc()) + (lit(",\"kicks\":"@) + m.kicks.enc()) + (lit(",\"spins\":"@) + m.spins.enc()) + (lit(",\"comboTable\":"@) + m.combo_table.enc()) + (lit(",\"b2bCharging\":"@) + m.b2b_charging.enc()) + enc_config_w6(m, s) =~= (lit("{\"type\":\"config\",\"boardWidth\":"@) + m.board_width.enc()) + (lit(",\"boardHeight\":"@) + m.board_height.enc()) + (lit(",\"kicks\":"@) + m.kicks.enc()) + (lit(",\"spins\":"@) + m.spins.enc()) + (lit(",\"comboTable\":"@) + m.combo_table.enc()) + (lit(",\"b2bCharging\":"@) + m.b2b_charging.enc()) + (lit(",\"b2bChargeAt\":"@) + m.b2b_charge_at.enc()) + enc_config_w7(m, s));
    assert((lit("{\"type\":\"config\",\"boardWidth\":"@) + m.board_width.enc()) + (lit(",\"boardHeight\":"@) + m.board_height.enc()) + (lit(",\"kicks\":"@) + m.kicks.enc()) + (lit(",\"spins\":"@) + m.spins.enc()) + (lit(",\"comboTable\":"@) + m.combo_table.enc()) + (lit(",\"b2bCharging\":"@) + m.b2b_charging.enc()) + (lit(",\"b2bChargeAt\":"@) + m.b2b_charge_at.enc()) + enc_config_w7(m, s) =~= (lit("{\"type\":\"config\",\"boardWidth\":"@) + m.board_width.enc()) + (lit(",\"boardHeight\":"@) + m.board_height.enc()) + (lit(",\"kicks\":"@) + m.kicks.enc()) + (lit(",\"spins\":"@) + m.spins.enc()) + (lit(",\"comboTable\":"@) + m.combo_table.enc()) + (lit(",\"b2bCharging\":"@) + m.b2b_charging.enc()) + (lit(",\"b2bChargeAt\":"@) + m.b2b_charge_at.enc()) + (lit(",\"b2bChargeBase\":"@) + m.b2b_charge_base.enc()) + enc_config_w8(m, s));
    assert((lit("{\"type\":\"config\",\"boardWidth\":"@) + m.board_width.enc()) + (lit(",\"boardHeight\":"@) + m.board_height.enc()) + (lit(",\"kicks\":"@) + m.kicks.enc()) + (lit(",\"spins\":"@) + m.spins.enc()) + (lit(",\"comboTable\":"@) + m.combo_table.enc()) + (lit(",\"b2bCharging\":"@) + m.b2b_charging.enc()) + (lit(",\"b2bChargeAt\":"@) + m.b2b_charge_at.enc()) + (lit(",\"b2bChargeBase\":"@) + m.b2b_charge_base.enc()) + enc_config_w8(m, s) =~= (lit("{\"type\":\"config\",\"boardWidth\":"@) + m.board_width.enc()) + (lit(",\"boardHeight\":"@) + m.board_height.enc()) + (lit(",\"kicks\":"@) + m.kicks.enc()) + (lit(",\"spins\":"@) + m.spins.enc()) + (lit(",\"comboTable\":"@) + m.combo_table.enc()) + (lit(",\"b2bCharging\":"@) + m.b2b_charging.enc()) + (lit(",\"b2bChargeAt\":"@) + m.b2b_charge_at.enc()) + (lit(",\"b2bChargeBase\":"@) + m.b2b_charge_base.enc()) + (lit(",\"b2bChaining\":"@) + m.b2b_chaining.enc()) + enc_config_w9(m, s));
    assert((lit("{\"type\":\"config\",\"boardWidth\":"@) + m.board_width.enc()) + (lit(",\"boardHeight\":"@) + m.board_height.enc()) + (lit(",\"kicks\":"@) + m.kicks.enc()) + (lit(",\"spins\":"@) + m.spins.enc()) + (lit(",\"comboTable\":"@) + m.combo_table.enc()) + (lit(",\"b2bCharging\":"@) + m.b2b_charging.enc()) + (lit(",\"b2bChargeAt\":"@) + m.b2b_charge_at.enc()) + (lit(",\"b2bChargeBase\":"@) + m.b2b_charge_base.enc()) + (lit(",\"b2bChaining\":"@) + m.b2b_chaining.enc()) + enc_config_w9(m, s) =~= (lit("{\"type\":\"config\",\"boardWidth\":"@) + m.board_width.enc()) + (lit(",\"boardHeight\":"@) + m.board_height.enc()) + (lit(",\"kicks\":"@) + m.kicks.enc()) + (lit(",\"spins\":"@) + m.spins.enc()) + (lit(",\"comboTable\":"@) + m.combo_table.enc()) + (lit(",\"b2bCharging\":"@) + m.b2b_charging.enc()) + (lit(",\"b2bChargeAt\":"@) + m.b2b_charge_at.enc()) + (lit(",\"b2bChargeBase\":"@) + m.b2b_charge_base.enc()) + (lit(",\"b2bChaining\":"@) + m.b2b_chaining.enc()) + lit(",\"garbageMultiplier\":"@) + s + enc_config_t10(m));
}

/// Parse the fields of a `config` line after the multiplier slot, to the end
/// of the line.
#[verifier::rlimit(100)]
#[verifier::spinoff_prover]
fn parse_config_back(buf: &[u8], p: usize) -> (r: Option<(usize, (i32, bool, i32, i32, Vec<Mino>))>)
    requires
        p <= buf@.len(),
    ensures
        r matches Some((j, t)) ==> p < j <= buf@.len() && j == buf@.len() && crate::elem::wf_items(
            t.4@,
        ) && buf@.subrange(p as int, j as int) == lit(",\"garbageCap\":"@) + t.0.enc() + lit(",\"garbageSpecialBonus\":"@)
            + t.1.enc() + lit(",\"pcB2b\":"@) + t.2.enc() + lit(",\"pcGarbage\":"@) + t.3.enc() + lit(",\"queue\":"@)
            + t.4.enc() + lit("}"@),
        forall|m: Config|
            #![trigger enc_config_t10(m)]
            wf_config(m) && starts_at(buf@, p as int, enc_config_t10(m)) && p
                + enc_config_t10(m).len() == buf@.len() ==> (r matches Some((j, t)) && j == buf@.len() && t.0 == m.garbage_cap && t.1 == m.garbage_special_bonus && t.2 == m.pc_b2b && t.3 == m.pc_garbage && eqv_items(t.4@, m.queue@)),
{
    proof {
        lemma_config_keys();
    }
    let r11 = match parse_field::<i32>(buf, p, ",\"garbageCap\":") {
        Some(x) => x,
        None => {
            proof {
                assert forall|m: Config| wf_config(m) && starts_at(buf@, p as int, enc_config_t10(m)) && p
                + enc_config_t10(m).len() == buf@.len() implies false by {
                    lemma_config_chain_c(buf@, m, p as int);
                }
            }
            return None;
        },
    };
    let (p11, f_garbage_cap) = r11;
    let r12 = match parse_field::<bool>(buf, p11, ",\"garbageSpecialBonus\":") {
        Some(x) => x,
        None => {
            proof {
                assert forall|m: Config| wf_config(m) && starts_at(buf@, p as int, enc_config_t10(m)) && p
                + enc_config_t10(m).len() == buf@.len() implies false by {
                    lemma_config_chain_c(buf@, m, p as int);
                }
            }
            return None;
        },
    };
    let (p12, f_garbage_special_bonus) = r12;
    let r13 = match parse_field::<i32>(buf, p12, ",\"pcB2b\":") {
        Some(x) => x,
        None => {
            proof {
                assert forall|m: Config| wf_config(m) && starts_at(buf@, p as int, enc_config_t10(m)) && p
                + enc_config_t10(m).len() == buf@.len() implies false by {
                    lemma_config_chain_c(buf@, m, p as int);
                }
            }
            return None;
        },
    };
    let (p13, f_pc_b2b) = r13;
    let r14 = match parse_field::<i32>(buf, p13, ",\"pcGarbage\":") {
        Some(x) => x,
        None => {
            proof {
                assert forall|m: Config| wf_config(m) && starts_at(buf@, p as int, enc_config_t10(m)) && p
                + enc_config_t10(m).len() == buf@.len() implies false by {
                    lemma_config_chain_c(buf@, m, p as int);
                }
            }
            return None;
        },
    };
    let (p14, f_pc_garbage) = r14;
    let r15 = match parse_field::<Vec<Mino>>(buf, p14, ",\"queue\":") {
        Some(x) => x,
        None => {
            proof {
                assert forall|m: Config| wf_config(m) && starts_at(buf@, p as int, enc_config_t10(m)) && p
                + enc_config_t10(m).len() == buf@.len() implies false by {
                    lemma_config_chain_c(buf@, m, p as int);
                }
            }
            return None;
        },
    };
    let (p15, f_queue) = r15;
    let pend = match expect_lit(buf, p15, "}") {
        Some(j) => j,
        None => {
            proof {
                assert forall|m: Config| wf_config(m) && starts_at(buf@, p as int, enc_config_t10(m)) && p
                + enc_config_t10(m).len() == buf@.len() implies false by {
                    lemma_config_chain_c(buf@, m, p as int);
                }
            }
            return None;
        },
    };
    if pend != buf.len() {
        proof {
            assert forall|m: Config| wf_config(m) && starts_at(buf@, p as int, enc_config_t10(m)) && p
                + enc_config_t10(m).len() == buf@.len() implies false by {
                lemma_config_chain_c(buf@, m, p as int);
            }
        }
        return None;
    }
    proof {
        lemma_starts_at_subrange(buf@, p as int, lit(",\"garbageCap\":"@) + f_garbage_cap.enc());
        lemma_starts_at_subrange(buf@, p11 as int, lit(",\"garbageSpecialBonus\":"@) + f_garbage_special_bonus.enc());
        lemma_starts_at_subrange(buf@, p12 as int, lit(",\"pcB2b\":"@) + f_pc_b2b.enc());
        lemma_starts_at_subrange(buf@, p13 as int, lit(",\"pcGarbage\":"@) + f_pc_garbage.enc());
        lemma_starts_at_subrange(buf@, p14 as int, lit(",\"queue\":"@) + f_queue.enc());
        lemma_starts_at_subrange(buf@, p15 as int, lit("}"@));
        lemma_subrange_split(buf@, p11 as int, p12 as int);
        lemma_subrange_split(buf@, p12 as int, p13 as int);
        lemma_subrange_split(buf@, p13 as int, p14 as int);
        lemma_subrange_split(buf@, p14 as int, p15 as int);
        lemma_subrange_split(buf@, p15 as int, pend as int);
        assert(buf@.subrange(p as int, p12 as int) =~= buf@.subrange(p as int, p11 as int)
            + buf@.subrange(p11 as int, p12 as int));
        assert(buf@.subrange(p as int, p13 as int) =~= buf@.subrange(p as int, p12 as int)
            + buf@.subrange(p12 as int, p13 as int));
        assert(buf@.subrange(p as int, p14 as int) =~= buf@.subrange(p as int, p13 as int)
            + buf@.subrange(p13 as int, p14 as int));
        assert(buf@.subrange(p as int, p15 as int) =~= buf@.subrange(p as int, p14 as int)
            + buf@.subrange(p14 as int, p15 as int));
        assert(buf@.subrange(p as int, pend as int) =~= buf@.subrange(p as int, p15 as int)
            + buf@.subrange(p15 as int, pend as int));
    }
    proof {
        assert forall|m: Config|
            #![trigger enc_config_t10(m)]
            wf_config(m) && starts_at(buf@, p as int, enc_config_t10(m)) && p
                + enc_config_t10(m).len() == buf@.len() implies (pend == buf@.len()
            && f_garbage_cap == m.garbage_cap && f_garbage_special_bonus
            == m.garbage_special_bonus && f_pc_b2b == m.pc_b2b && f_pc_garbage == m.pc_garbage
            && eqv_items(f_queue@, m.queue@)) by {
            lemma_config_chain_c(buf@, m, p as int);
        }
    }
    Some((pend, (f_garbage_cap, f_garbage_special_bonus, f_pc_b2b, f_pc_garbage, f_queue)))
}

/// Decode one `config` line whole: sound (whatever is accepted is an
/// accepted spelling of the result) and complete (every accepted spelling of
/// every well-formed message decodes to that message).
#[verifier::rlimit(100)]
#[verifier::spinoff_prover]
pub fn decode_config(buf: &[u8]) -> (r: Option<Config>)
    ensures
        r matches Some(m) ==> wf_config(m) && is_config_line(buf@, m),
        forall|m: Config|
            wf_config(m) && is_config_line(buf@, m) ==> (r matches Some(m2) && config_eqv(m2, m)),
{
    proof {
        lemma_config_keys();
    }
    let front1 = match parse_config_front1(buf) {
        Some(x) => x,
        None => {
            return None;
        },
    };
    let (pa, head1) = front1;
    let front2x = match parse_config_front2x(buf, pa) {
        Some(x) => x,
        None => {
            return None;
        },
    };
    let (pb, head2x) = front2x;
    let front2y = match parse_config_front2y(buf, pb) {
        Some(x) => x,
        None => {
            return None;
        },
    };
    let (pmid, head2y) = front2y;
    let gm = match crate::wire::parse_milli_any(buf, pmid) {
        Some(x) => x,
        None => {
            proof {
                assert forall|m: Config| wf_config(m) && is_config_line(buf@, m) implies false by {
                    let s = choose|s: Seq<u8>|
                        #![trigger is_milli_bytes(s, m.garbage_multiplier.0 as int)]
                        is_milli_bytes(s, m.garbage_multiplier.0 as int) && buf@
                            == enc_config_with(m, s);
                    lemma_config_chain_a(buf@, m, s);
                    lemma_config_with_len(m, s);
                    lemma_config_chain_b(buf@, m, s);
                    lemma_config_chain_c(
                        buf@,
                        m,
                        enc_config_pos9(m) + ",\"garbageMultiplier\":"@.len() + s.len(),
                    );
                    assert(starts_at(buf@, pmid as int, s));
                    assert(milli_boundary(buf@, pmid as int + s.len()));
                }
            }
            return None;
        },
    };
    let (pslot, gmv) = gm;
    let back = match parse_config_back(buf, pslot) {
        Some(x) => x,
        None => {
            proof {
                assert forall|m: Config| wf_config(m) && is_config_line(buf@, m) implies false by {
                    let s = choose|s: Seq<u8>|
                        #![trigger is_milli_bytes(s, m.garbage_multiplier.0 as int)]
                        is_milli_bytes(s, m.garbage_multiplier.0 as int) && buf@
                            == enc_config_with(m, s);
                    lemma_config_chain_a(buf@, m, s);
                    lemma_config_with_len(m, s);
                    lemma_config_chain_b(buf@, m, s);
                    lemma_config_chain_c(
                        buf@,
                        m,
                        enc_config_pos9(m) + ",\"garbageMultiplier\":"@.len() + s.len(),
                    );
                    assert(starts_at(buf@, pmid as int, s));
                    assert(milli_boundary(buf@, pmid as int + s.len()));
                    assert(pslot as int == enc_config_pos9(m) + ",\"garbageMultiplier\":"@.len() + s.len());
                }
            }
            return None;
        },
    };
    let (pend, tail) = back;
    let m2 = Config {
        board_width: head1.0,
        board_height: head1.1,
        kicks: head1.2,
        spins: head1.3,
        combo_table: head1.4,
        b2b_charging: head2x.0,
        b2b_charge_at: head2x.1,
        b2b_charge_base: head2y.0,
        b2b_chaining: head2y.1,
        garbage_multiplier: Milli(gmv),
        garbage_cap: tail.0,
        garbage_special_bonus: tail.1,
        pc_b2b: tail.2,
        pc_garbage: tail.3,
        queue: tail.4,
    };
    let mut relined: Vec<u8> = Vec::new();
    emit_field(&mut relined, "{\"type\":\"config\",\"boardWidth\":", &m2.board_width);
    emit_field(&mut relined, ",\"boardHeight\":", &m2.board_height);
    emit_field(&mut relined, ",\"kicks\":", &m2.kicks);
    emit_field(&mut relined, ",\"spins\":", &m2.spins);
    emit_field(&mut relined, ",\"comboTable\":", &m2.combo_table);
    emit_field(&mut relined, ",\"b2bCharging\":", &m2.b2b_charging);
    emit_field(&mut relined, ",\"b2bChargeAt\":", &m2.b2b_charge_at);
    emit_field(&mut relined, ",\"b2bChargeBase\":", &m2.b2b_charge_base);
    emit_field(&mut relined, ",\"b2bChaining\":", &m2.b2b_chaining);
    emit_lit(&mut relined, ",\"garbageMultiplier\":");
    let slot = vstd::slice::slice_subrange(buf, pmid, pslot);
    relined.extend_from_slice(slot);
    encode_config_t10(&m2, &mut relined);
    let ghost slotb = buf@.subrange(pmid as int, pslot as int);
    proof {
        lemma_config_with_flat(m2, slotb);
        assert(Seq::<u8>::empty() + (lit("{\"type\":\"config\",\"boardWidth\":"@) + m2.board_width.enc()) =~= lit("{\"type\":\"config\",\"boardWidth\":"@)
            + m2.board_width.enc());
        assert(relined@ == enc_config_with(m2, slotb));
    }
    if !bytes_match(buf, &relined) {
        proof {
            assert forall|m: Config| wf_config(m) && is_config_line(buf@, m) implies false by {
                let s = choose|s: Seq<u8>|
                        #![trigger is_milli_bytes(s, m.garbage_multiplier.0 as int)]
                        is_milli_bytes(s, m.garbage_multiplier.0 as int) && buf@
                            == enc_config_with(m, s);
                    lemma_config_chain_a(buf@, m, s);
                    lemma_config_with_len(m, s);
                    lemma_config_chain_b(buf@, m, s);
                    lemma_config_chain_c(
                        buf@,
                        m,
                        enc_config_pos9(m) + ",\"garbageMultiplier\":"@.len() + s.len(),
                    );
                assert(starts_at(buf@, pmid as int, s));
                assert(milli_boundary(buf@, pmid as int + s.len()));
                assert(pslot as int == enc_config_pos9(m) + ",\"garbageMultiplier\":"@.len() + s.len());
                lemma_starts_at_subrange(buf@, pmid as int, s);
                assert(slotb == s);
                crate::elem::lemma_enc_items_eqv(m2.queue@, m.queue@);
                lemma_config_with_flat(m, s);
                assert(relined@ == buf@);
            }
        }
        return None;
    }
    proof {
        assert(is_milli_bytes(slotb, m2.garbage_multiplier.0 as int));
        assert(is_config_line(buf@, m2));
        assert forall|m: Config| wf_config(m) && is_config_line(buf@, m) implies config_eqv(m2, m) by {
            let s = choose|s: Seq<u8>|
                        #![trigger is_milli_bytes(s, m.garbage_multiplier.0 as int)]
                        is_milli_bytes(s, m.garbage_multiplier.0 as int) && buf@
                            == enc_config_with(m, s);
                    lemma_config_chain_a(buf@, m, s);
                    lemma_config_with_len(m, s);
                    lemma_config_chain_b(buf@, m, s);
                    lemma_config_chain_c(
                        buf@,
                        m,
                        enc_config_pos9(m) + ",\"garbageMultiplier\":"@.len() + s.len(),
                    );
            assert(starts_at(buf@, pmid as int, s));
            assert(milli_boundary(buf@, pmid as int + s.len()));
            assert(pslot as int == enc_config_pos9(m) + ",\"garbageMultiplier\":"@.len() + s.len());
            assert(m2.queue@ =~= m.queue@);
        }
    }
    Some(m2)
}

/// Append the line from field 15 on.
fn encode_config_t14(m: &Config, out: &mut Vec<u8>)
    requires
        wf_config(*m),
    ensures
        final(out)@ == old(out)@ + enc_config_t14(*m),
{
    proof {
        lemma_config_keys();
    }
    emit_field(out, ",\"queue\":", &m.queue);
    emit_lit(out, "}");
    proof {
        assert(old(out)@ + (lit(",\"queue\":"@) + m.queue.enc()) + lit("}"@) =~= old(out)@ + enc_config_t14(*m));
    }
}

/// Append the line from field 14 on.
fn encode_config_t13(m: &Config, out: &mut Vec<u8>)
    requires
        wf_config(*m),
    ensures
        final(out)@ == old(out)@ + enc_config_t13(*m),
{
    proof {
        lemma_config_keys();
    }
    emit_field(out, ",\"pcGarbage\":", &m.pc_garbage);
    encode_config_t14(m, out);
    proof {
        assert(old(out)@ + (lit(",\"pcGarbage\":"@) + m.pc_garbage.enc()) + enc_config_t14(*m) =~= old(out)@ + enc_config_t13(*m));
    }
}

/// Append the line from field 13 on.
fn encode_config_t12(m: &Config, out: &mut Vec<u8>)
    requires
        wf_config(*m),
    ensures
        final(out)@ == old(out)@ + enc_config_t12(*m),
{
    proof {
        lemma_config_keys();
    }
    emit_field(out, ",\"pcB2b\":", &m.pc_b2b);
    encode_config_t13(m, out);
    proof {
        assert(old(out)@ + (lit(",\"pcB2b\":"@) + m.pc_b2b.enc()) + enc_config_t13(*m) =~= old(out)@ + enc_config_t12(*m));
    }
}

/// Append the line from field 12 on.
fn encode_config_t11(m: &Config, out: &mut Vec<u8>)
    requires
        wf_config(*m),
    ensures
        final(out)@ == old(out)@ + enc_config_t11(*m),
{
    proof {
        lemma_config_keys();
    }
    emit_field(out, ",\"garbageSpecialBonus\":", &m.garbage_special_bonus);
    encode_config_t12(m, out);
    proof {
        assert(old(out)@ + (lit(",\"garbageSpecialBonus\":"@) + m.garbage_special_bonus.enc()) + enc_config_t12(*m) =~= old(out)@ + enc_config_t11(*m));
    }
}

/// Append the line from field 11 on.
fn encode_config_t10(m: &Config, out: &mut Vec<u8>)
    requires
        wf_config(*m),
    ensures
        final(out)@ == old(out)@ + enc_config_t10(*m),
{
    proof {
        lemma_config_keys();
    }
    emit_field(out, ",\"garbageCap\":", &m.garbage_cap);
    encode_config_t11(m, out);
    proof {
        assert(old(out)@ + (lit(",\"garbageCap\":"@) + m.garbage_cap.enc()) + enc_config_t11(*m) =~= old(out)@ + enc_config_t10(*m));
    }
}

/// Append the line from field 10 on.
fn encode_config_t9(m: &Config, out: &mut Vec<u8>)
    requires
        wf_config(*m),
    ensures
        final(out)@ == old(out)@ + enc_config_t9(*m),
{
    proof {
        lemma_config_keys();
    }
    emit_field(out, ",\"garbageMultiplier\":", &m.garbage_multiplier);
    encode_config_t10(m, out);
    proof {
        assert(old(out)@ + (lit(",\"garbageMultiplier\":"@) + m.garbage_multiplier.enc()) + enc_config_t10(*m) =~= old(out)@ + enc_config_t9(*m));
    }
}

/// Append the line from field 9 on.
fn encode_config_t8(m: &Config, out: &mut Vec<u8>)
    requires
        wf_config(*m),
    ensures
        final(out)@ == old(out)@ + enc_config_t8(*m),
{
    proof {
        lemma_config_keys();
    }
    emit_field(out, ",\"b2bChaining\":", &m.b2b_chaining);
    encode_config_t9(m, out);
    proof {
        assert(old(out)@ + (lit(",\"b2bChaining\":"@) + m.b2b_chaining.enc()) + enc_config_t9(*m) =~= old(out)@ + enc_config_t8(*m));
    }
}

/// Append the line from field 8 on.
fn encode_config_t7(m: &Config, out: &mut Vec<u8>)
    requires
        wf_config(*m),
    ensures
        final(out)@ == old(out)@ + enc_config_t7(*m),
{
    proof {
        lemma_config_keys();
    }
    emit_field(out, ",\"b2bChargeBase\":", &m.b2b_charge_base);
    encode_config_t8(m, out);
    proof {
        assert(old(out)@ + (lit(",\"b2bChargeBase\":"@) + m.b2b_charge_base.enc()) + enc_config_t8(*m) =~= old(out)@ + enc_config_t7(*m));
    }
}

/// Append the line from field 7 on.
fn encode_config_t6(m: &Config, out: &mut Vec<u8>)
    requires
        wf_config(*m),
    ensures
        final(out)@ == old(out)@ + enc_config_t6(*m),
{
    proof {
        lemma_config_keys();
    }
    emit_field(out, ",\"b2bChargeAt\":", &m.b2b_charge_at);
    encode_config_t7(m, out);
    proof {
        assert(old(out)@ + (lit(",\"b2bChargeAt\":"@) + m.b2b_charge_at.enc()) + enc_config_t7(*m) =~= old(out)@ + enc_config_t6(*m));
    }
}

/// Append the line from field 6 on.
fn encode_config_t5(m: &Config, out: &mut Vec<u8>)
    requires
        wf_config(*m),
    ensures
        final(out)@ == old(out)@ + enc_config_t5(*m),
{
    proof {
        lemma_config_keys();
    }
    emit_field(out, ",\"b2bCharging\":", &m.b2b_charging);
    encode_config_t6(m, out);
    proof {
        assert(old(out)@ + (lit(",\"b2bCharging\":"@) + m.b2b_charging.enc()) + enc_config_t6(*m) =~= old(out)@ + enc_config_t5(*m));
    }
}

/// Append the line from field 5 on.
fn encode_config_t4(m: &Config, out: &mut Vec<u8>)
    requires
        wf_config(*m),
    ensures
        final(out)@ == old(out)@ + enc_config_t4(*m),
{
    proof {
        lemma_config_keys();
    }
    emit_field(out, ",\"comboTable\":", &m.combo_table);
    encode_config_t5(m, out);
    proof {
        assert(old(out)@ + (lit(",\"comboTable\":"@) + m.combo_table.enc()) + enc_config_t5(*m) =~= old(out)@ + enc_config_t4(*m));
    }
}

/// Append the line from field 4 on.
fn encode_config_t3(m: &Config, out: &mut Vec<u8>)
    requires
        wf_config(*m),
    ensures
        final(out)@ == old(out)@ + enc_config_t3(*m),
{
    proof {
        lemma_config_keys();
    }
    emit_field(out, ",\"spins\":", &m.spins);
    encode_config_t4(m, out);
    proof {
        assert(old(out)@ + (lit(",\"spins\":"@) + m.spins.enc()) + enc_config_t4(*m) =~= old(out)@ + enc_config_t3(*m));
    }
}

/// Append the line from field 3 on.
fn encode_config_t2(m: &Config, out: &mut Vec<u8>)
    requires
        wf_config(*m),
    ensures
        final(out)@ == old(out)@ + enc_config_t2(*m),
{
    proof {
        lemma_config_keys();
    }
    emit_field(out, ",\"kicks\":", &m.kicks);
    encode_config_t3(m, out);
    proof {
        assert(old(out)@ + (lit(",\"kicks\":"@) + m.kicks.enc()) + enc_config_t3(*m) =~= old(out)@ + enc_config_t2(*m));
    }
}

/// Append the line from field 2 on.
fn encode_config_t1(m: &Config, out: &mut Vec<u8>)
    requires
        wf_config(*m),
    ensures
        final(out)@ == old(out)@ + enc_config_t1(*m),
{
    proof {
        lemma_config_keys();
    }
    emit_field(out, ",\"boardHeight\":", &m.board_height);
    encode_config_t2(m, out);
    proof {
        assert(old(out)@ + (lit(",\"boardHeight\":"@) + m.board_height.enc()) + enc_config_t2(*m) =~= old(out)@ + enc_config_t1(*m));
    }
}

/// Encode this message as its canonical line, appended to `out`.
#[verifier::spinoff_prover]
pub fn encode_config(m: &Config, out: &mut Vec<u8>)
    requires
        wf_config(*m),
    ensures
        final(out)@ == old(out)@ + enc_config(*m),
{
    proof {
        lemma_config_keys();
    }
    emit_field(out, "{\"type\":\"config\",\"boardWidth\":", &m.board_width);
    encode_config_t1(m, out);
    proof {
        assert(old(out)@ + (lit("{\"type\":\"config\",\"boardWidth\":"@) + m.board_width.enc()) + enc_config_t1(*m) =~= old(out)@ + (enc_config(*m)));
    }
}

/// The key literals of this line shape: plain ASCII, every later key opening
/// with a comma, the line closing with a brace.
proof fn lemma_state_keys()
    ensures
        "{\"type\":\"state\",\"board\":".is_ascii(),
        lit("{\"type\":\"state\",\"board\":"@).len() > 0,
        ",\"current\":".is_ascii(),
        lit(",\"current\":"@).len() > 0,
        lit(",\"current\":"@)[0] == 44,
        ",\"hold\":".is_ascii(),
        lit(",\"hold\":"@).len() > 0,
        lit(",\"hold\":"@)[0] == 44,
        ",\"queue\":".is_ascii(),
        lit(",\"queue\":"@).len() > 0,
        lit(",\"queue\":"@)[0] == 44,
        ",\"garbage\":".is_ascii(),
        lit(",\"garbage\":"@).len() > 0,
        lit(",\"garbage\":"@)[0] == 44,
        ",\"combo\":".is_ascii(),
        lit(",\"combo\":"@).len() > 0,
        lit(",\"combo\":"@)[0] == 44,
        ",\"b2b\":".is_ascii(),
        lit(",\"b2b\":"@).len() > 0,
        lit(",\"b2b\":"@)[0] == 44,
        "}".is_ascii(),
        lit("}"@)[0] == 125,
        lit("}"@).len() == 1,
{
    reveal_strlit("{\"type\":\"state\",\"board\":");
    reveal_strlit(",\"current\":");
    reveal_strlit(",\"hold\":");
    reveal_strlit(",\"queue\":");
    reveal_strlit(",\"garbage\":");
    reveal_strlit(",\"combo\":");
    reveal_strlit(",\"b2b\":");
    reveal_strlit("}");
}

/// The line from field 2 on.
pub open spec fn enc_state_t1(m: State) -> Seq<u8> {
    enc_field(",\"current\":"@, m.current) + enc_state_t2(m)
}

/// The line from field 3 on.
pub open spec fn enc_state_t2(m: State) -> Seq<u8> {
    enc_field(",\"hold\":"@, m.hold) + enc_state_t3(m)
}

/// The line from field 4 on.
pub open spec fn enc_state_t3(m: State) -> Seq<u8> {
    enc_field(",\"queue\":"@, m.queue) + enc_state_t4(m)
}

/// The line from field 5 on.
pub open spec fn enc_state_t4(m: State) -> Seq<u8> {
    enc_field(",\"garbage\":"@, m.garbage) + enc_state_t5(m)
}

/// The line from field 6 on.
pub open spec fn enc_state_t5(m: State) -> Seq<u8> {
    enc_field(",\"combo\":"@, m.combo) + enc_state_t6(m)
}

/// The line from field 7 on.
pub open spec fn enc_state_t6(m: State) -> Seq<u8> {
    enc_field(",\"b2b\":"@, m.b2b) + lit("}"@)
}

/// The canonical line of this message.
pub open spec fn enc_state(m: State) -> Seq<u8> {
    enc_field("{\"type\":\"state\",\"board\":"@, m.board) + enc_state_t1(m)
}

/// The first 1 fields of the line, in order.
pub open spec fn enc_state_pre1(m: State) -> Seq<u8> {
    (lit("{\"type\":\"state\",\"board\":"@) + m.board.enc())
}

/// End position of field 1 in the canonical line.
pub open spec fn enc_state_pos1(m: State) -> int {
    0 + "{\"type\":\"state\",\"board\":"@.len() as int + m.board.enc().len()
}

/// The first 2 fields of the line, in order.
pub open spec fn enc_state_pre2(m: State) -> Seq<u8> {
    enc_state_pre1(m) + (lit(",\"current\":"@) + m.current.enc())
}

/// End position of field 2 in the canonical line.
pub open spec fn enc_state_pos2(m: State) -> int {
    enc_state_pos1(m) + ",\"current\":"@.len() + m.current.enc().len()
}

/// The first 3 fields of the line, in order.
pub open spec fn enc_state_pre3(m: State) -> Seq<u8> {
    enc_state_pre2(m) + (lit(",\"hold\":"@) + m.hold.enc())
}

/// End position of field 3 in the canonical line.
pub open spec fn enc_state_pos3(m: State) -> int {
    enc_state_pos2(m) + ",\"hold\":"@.len() + m.hold.enc().len()
}

/// The first 4 fields of the line, in order.
pub open spec fn enc_state_pre4(m: State) -> Seq<u8> {
    enc_state_pre3(m) + (lit(",\"queue\":"@) + m.queue.enc())
}

/// End position of field 4 in the canonical line.
pub open spec fn enc_state_pos4(m: State) -> int {
    enc_state_pos3(m) + ",\"queue\":"@.len() + m.queue.enc().len()
}

/// The first 5 fields of the line, in order.
pub open spec fn enc_state_pre5(m: State) -> Seq<u8> {
    enc_state_pre4(m) + (lit(",\"garbage\":"@) + m.garbage.enc())
}

/// End position of field 5 in the canonical line.
pub open spec fn enc_state_pos5(m: State) -> int {
    enc_state_pos4(m) + ",\"garbage\":"@.len() + m.garbage.enc().len()
}

/// The first 6 fields of the line, in order.
pub open spec fn enc_state_pre6(m: State) -> Seq<u8> {
    enc_state_pre5(m) + (lit(",\"combo\":"@) + m.combo.enc())
}

/// End position of field 6 in the canonical line.
pub open spec fn enc_state_pos6(m: State) -> int {
    enc_state_pos5(m) + ",\"combo\":"@.len() + m.combo.enc().len()
}

/// The first 7 fields of the line, in order.
pub open spec fn enc_state_pre7(m: State) -> Seq<u8> {
    enc_state_pre6(m) + (lit(",\"b2b\":"@) + m.b2b.enc())
}

/// End position of field 7 in the canonical line.
pub open spec fn enc_state_pos7(m: State) -> int {
    enc_state_pos6(m) + ",\"b2b\":"@.len() + m.b2b.enc().len()
}

/// Every field of the message has a wire form.
pub open spec fn wf_state(m: State) -> bool {
    m.board.wf() && m.current.wf() && m.hold.wf() && m.queue.wf() && m.garbage.wf() && m.combo.wf() && m.b2b.wf()
}

/// Field-for-field equality, sequences compared as sequences.
pub open spec fn state_eqv(a: State, b: State) -> bool {
    (a.board@.len() == b.board@.len() && (forall|r: int| 0 <= r < a.board@.len() ==> (#[trigger] a.board@[r])@ == b.board@[r]@)) && (a.current == b.current) && (a.hold == b.hold) && (a.queue@ == b.queue@) && (a.garbage@ == b.garbage@) && (a.combo == b.combo) && (a.b2b == b.b2b)
}

/// The first 1 fields followed by the rest make the whole line.
proof fn lemma_state_pre1(m: State)
    ensures
        enc_state_pre1(m) + enc_state_t1(m) == enc_state(m),
        enc_state_pre1(m).len() == enc_state_pos1(m),
{
    assert(enc_state_pre1(m) + enc_state_t1(m) =~= enc_state(m));
}

/// The first 2 fields followed by the rest make the whole line.
proof fn lemma_state_pre2(m: State)
    ensures
        enc_state_pre2(m) + enc_state_t2(m) == enc_state(m),
        enc_state_pre2(m).len() == enc_state_pos2(m),
{
    lemma_state_pre1(m);
    assert(enc_state_pre2(m) + enc_state_t2(m) =~= enc_state_pre1(m) + enc_state_t1(m));
}

/// The first 3 fields followed by the rest make the whole line.
proof fn lemma_state_pre3(m: State)
    ensures
        enc_state_pre3(m) + enc_state_t3(m) == enc_state(m),
        enc_state_pre3(m).len() == enc_state_pos3(m),
{
    lemma_state_pre2(m);
    assert(enc_state_pre3(m) + enc_state_t3(m) =~= enc_state_pre2(m) + enc_state_t2(m));
}

/// The first 4 fields followed by the rest make the whole line.
proof fn lemma_state_pre4(m: State)
    ensures
        enc_state_pre4(m) + enc_state_t4(m) == enc_state(m),
        enc_state_pre4(m).len() == enc_state_pos4(m),
{
    lemma_state_pre3(m);
    assert(enc_state_pre4(m) + enc_state_t4(m) =~= enc_state_pre3(m) + enc_state_t3(m));
}

/// The first 5 fields followed by the rest make the whole line.
proof fn lemma_state_pre5(m: State)
    ensures
        enc_state_pre5(m) + enc_state_t5(m) == enc_state(m),
        enc_state_pre5(m).len() == enc_state_pos5(m),
{
    lemma_state_pre4(m);
    assert(enc_state_pre5(m) + enc_state_t5(m) =~= enc_state_pre4(m) + enc_state_t4(m));
}

/// The first 6 fields followed by the rest make the whole line.
proof fn lemma_state_pre6(m: State)
    ensures
        enc_state_pre6(m) + enc_state_t6(m) == enc_state(m),
        enc_state_pre6(m).len() == enc_state_pos6(m),
{
    lemma_state_pre5(m);
    assert(enc_state_pre6(m) + enc_state_t6(m) =~= enc_state_pre5(m) + enc_state_t5(m));
}

/// All fields followed by the closing brace make the whole line.
proof fn lemma_state_flat(m: State)
    ensures
        enc_state_pre7(m) + lit("}"@) == enc_state(m),
        enc_state_pre7(m).len() == enc_state_pos7(m),
        enc_state(m).len() == enc_state_pos7(m) + 1,
{
    lemma_state_keys();
    lemma_state_pre6(m);
    assert(enc_state_pre7(m) + lit("}"@) =~= enc_state_pre6(m) + enc_state_t6(m));
}

/// Peel field 1 off the line at position `p`.
proof fn lemma_state_step0(buf: Seq<u8>, m: State, p: int)
    requires
        starts_at(buf, p, enc_state(m)),
    ensures
        starts_at(buf, p, lit("{\"type\":\"state\",\"board\":"@) + m.board.enc()),
        starts_at(buf, p + "{\"type\":\"state\",\"board\":"@.len() + m.board.enc().len(), enc_state_t1(m)),
        p + "{\"type\":\"state\",\"board\":"@.len() + m.board.enc().len() < buf.len(),
        buf[p + "{\"type\":\"state\",\"board\":"@.len() + m.board.enc().len()] == 44,
{
    lemma_state_keys();
    lemma_field_step(buf, p, lit("{\"type\":\"state\",\"board\":"@) + m.board.enc(), enc_state_t1(m));
    assert(enc_state_t1(m)[0] == lit(",\"current\":"@)[0]);
}

/// Peel field 2 off the line at position `p`.
proof fn lemma_state_step1(buf: Seq<u8>, m: State, p: int)
    requires
        starts_at(buf, p, enc_state_t1(m)),
    ensures
        starts_at(buf, p, lit(",\"current\":"@) + m.current.enc()),
        starts_at(buf, p + ",\"current\":"@.len() + m.current.enc().len(), enc_state_t2(m)),
        p + ",\"current\":"@.len() + m.current.enc().len() < buf.len(),
        buf[p + ",\"current\":"@.len() + m.current.enc().len()] == 44,
{
    lemma_state_keys();
    lemma_field_step(buf, p, lit(",\"current\":"@) + m.current.enc(), enc_state_t2(m));
    assert(enc_state_t2(m)[0] == lit(",\"hold\":"@)[0]);
}

/// Peel field 3 off the line at position `p`.
proof fn lemma_state_step2(buf: Seq<u8>, m: State, p: int)
    requires
        starts_at(buf, p, enc_state_t2(m)),
    ensures
        starts_at(buf, p, lit(",\"hold\":"@) + m.hold.enc()),
        starts_at(buf, p + ",\"hold\":"@.len() + m.hold.enc().len(), enc_state_t3(m)),
        p + ",\"hold\":"@.len() + m.hold.enc().len() < buf.len(),
        buf[p + ",\"hold\":"@.len() + m.hold.enc().len()] == 44,
{
    lemma_state_keys();
    lemma_field_step(buf, p, lit(",\"hold\":"@) + m.hold.enc(), enc_state_t3(m));
    assert(enc_state_t3(m)[0] == lit(",\"queue\":"@)[0]);
}

/// Peel field 4 off the line at position `p`.
proof fn lemma_state_step3(buf: Seq<u8>, m: State, p: int)
    requires
        starts_at(buf, p, enc_state_t3(m)),
    ensures
        starts_at(buf, p, lit(",\"queue\":"@) + m.queue.enc()),
        starts_at(buf, p + ",\"queue\":"@.len() + m.queue.enc().len(), enc_state_t4(m)),
        p + ",\"queue\":"@.len() + m.queue.enc().len() < buf.len(),
        buf[p + ",\"queue\":"@.len() + m.queue.enc().len()] == 44,
{
    lemma_state_keys();
    lemma_field_step(buf, p, lit(",\"queue\":"@) + m.queue.enc(), enc_state_t4(m));
    assert(enc_state_t4(m)[0] == lit(",\"garbage\":"@)[0]);
}

/// Peel field 5 off the line at position `p`.
proof fn lemma_state_step4(buf: Seq<u8>, m: State, p: int)
    requires
        starts_at(buf, p, enc_state_t4(m)),
    ensures
        starts_at(buf, p, lit(",\"garbage\":"@) + m.garbage.enc()),
        starts_at(buf, p + ",\"garbage\":"@.len() + m.garbage.enc().len(), enc_state_t5(m)),
        p + ",\"garbage\":"@.len() + m.garbage.enc().len() < buf.len(),
        buf[p + ",\"garbage\":"@.len() + m.garbage.enc().len()] == 44,
{
    lemma_state_keys();
    lemma_field_step(buf, p, lit(",\"garbage\":"@) + m.garbage.enc(), enc_state_t5(m));
    assert(enc_state_t5(m)[0] == lit(",\"combo\":"@)[0]);
}

/// Peel field 6 off the line at position `p`.
proof fn lemma_state_step5(buf: Seq<u8>, m: State, p: int)
    requires
        starts_at(buf, p, enc_state_t5(m)),
    ensures
        starts_at(buf, p, lit(",\"combo\":"@) + m.combo.enc()),
        starts_at(buf, p + ",\"combo\":"@.len() + m.combo.enc().len(), enc_state_t6(m)),
        p + ",\"combo\":"@.len() + m.combo.enc().len() < buf.len(),
        buf[p + ",\"combo\":"@.len() + m.combo.enc().len()] == 44,
{
    lemma_state_keys();
    lemma_field_step(buf, p, lit(",\"combo\":"@) + m.combo.enc(), enc_state_t6(m));
    assert(enc_state_t6(m)[0] == lit(",\"b2b\":"@)[0]);
}

/// Peel field 7 off the line at position `p`.
proof fn lemma_state_step6(buf: Seq<u8>, m: State, p: int)
    requires
        starts_at(buf, p, enc_state_t6(m)),
    ensures
        starts_at(buf, p, lit(",\"b2b\":"@) + m.b2b.enc()),
        starts_at(buf, p + ",\"b2b\":"@.len() + m.b2b.enc().len(), lit("}"@)),
        p + ",\"b2b\":"@.len() + m.b2b.enc().len() < buf.len(),
        buf[p + ",\"b2b\":"@.len() + m.b2b.enc().len()] == 125,
{
    lemma_state_keys();
    lemma_field_step(buf, p, lit(",\"b2b\":"@) + m.b2b.enc(), lit("}"@));

}











/// Facts of field 1 for a line that is some message's canonical form.
proof fn lemma_state_at0(buf: Seq<u8>, m: State)
    requires
        wf_state(m),
        buf == enc_state(m),
    ensures
        starts_at(buf, 0, lit("{\"type\":\"state\",\"board\":"@) + m.board.enc()),
        buf[enc_state_pos1(m)] == 44,
{
    lemma_state_chain(buf, m);
}


/// Facts of field 2 for a line that is some message's canonical form.
proof fn lemma_state_at1(buf: Seq<u8>, m: State)
    requires
        wf_state(m),
        buf == enc_state(m),
    ensures
        starts_at(buf, enc_state_pos1(m), lit(",\"current\":"@) + m.current.enc()),
        buf[enc_state_pos2(m)] == 44,
{
    lemma_state_chain(buf, m);
}


/// Facts of field 3 for a line that is some message's canonical form.
proof fn lemma_state_at2(buf: Seq<u8>, m: State)
    requires
        wf_state(m),
        buf == enc_state(m),
    ensures
        starts_at(buf, enc_state_pos2(m), lit(",\"hold\":"@) + m.hold.enc()),
        buf[enc_state_pos3(m)] == 44,
{
    lemma_state_chain(buf, m);
}


/// Facts of field 4 for a line that is some message's canonical form.
proof fn lemma_state_at3(buf: Seq<u8>, m: State)
    requires
        wf_state(m),
        buf == enc_state(m),
    ensures
        starts_at(buf, enc_state_pos3(m), lit(",\"queue\":"@) + m.queue.enc()),
        buf[enc_state_pos4(m)] == 44,
{
    lemma_state_chain(buf, m);
}


/// Facts of field 5 for a line that is some message's canonical form.
proof fn lemma_state_at4(buf: Seq<u8>, m: State)
    requires
        wf_state(m),
        buf == enc_state(m),
    ensures
        starts_at(buf, enc_state_pos4(m), lit(",\"garbage\":"@) + m.garbage.enc()),
        buf[enc_state_pos5(m)] == 44,
{
    lemma_state_chain(buf, m);
}


/// Facts of field 6 for a line that is some message's canonical form.
proof fn lemma_state_at5(buf: Seq<u8>, m: State)
    requires
        wf_state(m),
        buf == enc_state(m),
    ensures
        starts_at(buf, enc_state_pos5(m), lit(",\"combo\":"@) + m.combo.enc()),
        buf[enc_state_pos6(m)] == 44,
{
    lemma_state_chain(buf, m);
}


/// Facts of field 7 for a line that is some message's canonical form.
proof fn lemma_state_at6(buf: Seq<u8>, m: State)
    requires
        wf_state(m),
        buf == enc_state(m),
    ensures
        starts_at(buf, enc_state_pos6(m), lit(",\"b2b\":"@) + m.b2b.enc()),
        buf[enc_state_pos7(m)] == 125,
{
    lemma_state_chain(buf, m);
}


/// The closing brace and total length for a canonical line.
proof fn lemma_state_atend(buf: Seq<u8>, m: State)
    requires
        wf_state(m),
        buf == enc_state(m),
    ensures
        starts_at(buf, enc_state_pos7(m), lit("}"@)),
        buf.len() == enc_state_pos7(m) + 1,
{
    lemma_state_chain(buf, m);
}


/// Where each piece of a canonical line stands, and the separator bytes.
#[verifier::rlimit(100)]
proof fn lemma_state_chain(buf: Seq<u8>, m: State)
    requires
        wf_state(m),
        buf == enc_state(m),
    ensures
        starts_at(buf, 0, lit("{\"type\":\"state\",\"board\":"@) + m.board.enc()),
        buf[enc_state_pos1(m)] == 44,
        starts_at(buf, enc_state_pos1(m), lit(",\"current\":"@) + m.current.enc()),
        buf[enc_state_pos2(m)] == 44,
        starts_at(buf, enc_state_pos2(m), lit(",\"hold\":"@) + m.hold.enc()),
        buf[enc_state_pos3(m)] == 44,
        starts_at(buf, enc_state_pos3(m), lit(",\"queue\":"@) + m.queue.enc()),
        buf[enc_state_pos4(m)] == 44,
        starts_at(buf, enc_state_pos4(m), lit(",\"garbage\":"@) + m.garbage.enc()),
        buf[enc_state_pos5(m)] == 44,
        starts_at(buf, enc_state_pos5(m), lit(",\"combo\":"@) + m.combo.enc()),
        buf[enc_state_pos6(m)] == 44,
        starts_at(buf, enc_state_pos6(m), lit(",\"b2b\":"@) + m.b2b.enc()),
        buf[enc_state_pos7(m)] == 125,
        starts_at(buf, enc_state_pos7(m), lit("}"@)),
        buf.len() == enc_state_pos7(m) + 1,
{
    assert(starts_at(buf, 0, enc_state(m)));
    lemma_state_step0(buf, m, 0);
    lemma_state_step1(buf, m, enc_state_pos1(m));
    lemma_state_step2(buf, m, enc_state_pos2(m));
    lemma_state_step3(buf, m, enc_state_pos3(m));
    lemma_state_step4(buf, m, enc_state_pos4(m));
    lemma_state_step5(buf, m, enc_state_pos5(m));
    lemma_state_step6(buf, m, enc_state_pos6(m));
    lemma_state_flat(m);
}


/// Decode one canonical line of this shape whole: sound and complete.
#[verifier::rlimit(100)]
#[verifier::spinoff_prover]
pub fn decode_state(buf: &[u8]) -> (r: Option<State>)
    ensures
        r matches Some(mr) ==> wf_state(mr) && buf@ == enc_state(mr),
        forall|m: State|
            wf_state(m) && buf@ == enc_state(m) ==> (r matches Some(m2) && state_eqv(m2, m)),
{
    proof {
        lemma_state_keys();
    }
    let r1 = match parse_field::<Vec<Vec<BoardSquare>>>(buf, 0, "{\"type\":\"state\",\"board\":") {
        Some(x) => x,
        None => {
            proof {
                assert forall|m: State| wf_state(m) && buf@ == enc_state(m) implies false by {
                    lemma_state_at0(buf@, m);
                }
            }
            return None;
        },
    };
    let (p1, f_board) = r1;
    let r2 = match parse_field::<Mino>(buf, p1, ",\"current\":") {
        Some(x) => x,
        None => {
            proof {
                assert forall|m: State| wf_state(m) && buf@ == enc_state(m) implies false by {
                    lemma_state_at0(buf@, m);
                    lemma_state_at1(buf@, m);
                }
            }
            return None;
        },
    };
    let (p2, f_current) = r2;
    let r3 = match parse_field::<Option<Mino>>(buf, p2, ",\"hold\":") {
        Some(x) => x,
        None => {
            proof {
                assert forall|m: State| wf_state(m) && buf@ == enc_state(m) implies false by {
                    lemma_state_at0(buf@, m);
                    lemma_state_at1(buf@, m);
                    lemma_state_at2(buf@, m);
                }
            }
            return None;
        },
    };
    let (p3, f_hold) = r3;
    let r4 = match parse_field::<Vec<Mino>>(buf, p3, ",\"queue\":") {
        Some(x) => x,
        None => {
            proof {
                assert forall|m: State| wf_state(m) && buf@ == enc_state(m) implies false by {
                    lemma_state_at0(buf@, m);
                    lemma_state_at1(buf@, m);
                    lemma_state_at2(buf@, m);
                    lemma_state_at3(buf@, m);
                }
            }
            return None;
        },
    };
    let (p4, f_queue) = r4;
    let r5 = match parse_field::<Vec<i32>>(buf, p4, ",\"garbage\":") {
        Some(x) => x,
        None => {
            proof {
                assert forall|m: State| wf_state(m) && buf@ == enc_state(m) implies false by {
                    lemma_state_at0(buf@, m);
                    lemma_state_at1(buf@, m);
                    lemma_state_at2(buf@, m);
                    lemma_state_at3(buf@, m);
                    lemma_state_at4(buf@, m);
                }
            }
            return None;
        },
    };
    let (p5, f_garbage) = r5;
    let r6 = match parse_field::<i32>(buf, p5, ",\"combo\":") {
        Some(x) => x,
        None => {
            proof {
                assert forall|m: State| wf_state(m) && buf@ == enc_state(m) implies false by {
                    lemma_state_at0(buf@, m);
                    lemma_state_at1(buf@, m);
                    lemma_state_at2(buf@, m);
                    lemma_state_at3(buf@, m);
                    lemma_state_at4(buf@, m);
                    lemma_state_at5(buf@, m);
                }
            }
            return None;
        },
    };
    let (p6, f_combo) = r6;
    let r7 = match parse_field::<i32>(buf, p6, ",\"b2b\":") {
        Some(x) => x,
        None => {
            proof {
                assert forall|m: State| wf_state(m) && buf@ == enc_state(m) implies false by {
                    lemma_state_at0(buf@, m);
                    lemma_state_at1(buf@, m);
                    lemma_state_at2(buf@, m);
                    lemma_state_at3(buf@, m);
                    lemma_state_at4(buf@, m);
                    lemma_state_at5(buf@, m);
                    lemma_state_at6(buf@, m);
                }
            }
            return None;
        },
    };
    let (p7, f_b2b) = r7;
    let pend = match expect_lit(buf, p7, "}") {
        Some(j) => j,
        None => {
            proof {
                assert forall|m: State| wf_state(m) && buf@ == enc_state(m) implies false by {
                    lemma_state_at0(buf@, m);
                    lemma_state_at1(buf@, m);
                    lemma_state_at2(buf@, m);
                    lemma_state_at3(buf@, m);
                    lemma_state_at4(buf@, m);
                    lemma_state_at5(buf@, m);
                    lemma_state_at6(buf@, m);
                    lemma_state_atend(buf@, m);
                }
            }
            return None;
        },
    };
    if pend != buf.len() {
        proof {
            assert forall|m: State| wf_state(m) && buf@ == enc_state(m) implies false by {
                lemma_state_at0(buf@, m);
                lemma_state_at1(buf@, m);
                lemma_state_at2(buf@, m);
                lemma_state_at3(buf@, m);
                lemma_state_at4(buf@, m);
                lemma_state_at5(buf@, m);
                lemma_state_at6(buf@, m);
                lemma_state_atend(buf@, m);
            }
        }
        return None;
    }
    let m2 = State { board: f_board, current: f_current, hold: f_hold, queue: f_queue, garbage: f_garbage, combo: f_combo, b2b: f_b2b };

    let mut relined: Vec<u8> = Vec::new();
    encode_state(&m2, &mut relined);
    if !bytes_match(buf, &relined) {
        proof {
            assert forall|m: State| wf_state(m) && buf@ == enc_state(m) implies false by {
                lemma_state_at0(buf@, m);
                lemma_state_at1(buf@, m);
                lemma_state_at2(buf@, m);
                lemma_state_at3(buf@, m);
                lemma_state_at4(buf@, m);
                lemma_state_at5(buf@, m);
                lemma_state_at6(buf@, m);
                lemma_state_atend(buf@, m);
                crate::elem::lemma_enc_items_eqv(m2.board@, m.board@);
                crate::elem::lemma_enc_items_eqv(m2.queue@, m.queue@);
                crate::elem::lemma_enc_items_eqv(m2.garbage@, m.garbage@);
                assert(enc_state(m2) == enc_state(m));
            }
        }
        return None;
    }
    proof {
        assert forall|m: State| wf_state(m) && buf@ == enc_state(m) implies state_eqv(m2, m) by {
            lemma_state_at0(buf@, m);
            lemma_state_at1(buf@, m);
            lemma_state_at2(buf@, m);
            lemma_state_at3(buf@, m);
            lemma_state_at4(buf@, m);
            lemma_state_at5(buf@, m);
            lemma_state_at6(buf@, m);
            lemma_state_atend(buf@, m);
            assert forall|rr: int| 0 <= rr < f_board@.len() implies (#[trigger] f_board@[rr])@
                == m.board@[rr]@ by {
                assert(f_board@[rr].eqv(&m.board@[rr]));
                assert(f_board@[rr]@ =~= m.board@[rr]@);
            }
            assert(f_queue@ =~= m.queue@);
            assert(f_garbage@ =~= m.garbage@);
        }
    }
    Some(m2)
}

/// Append the line from field 7 on.
fn encode_state_t6(m: &State, out: &mut Vec<u8>)
    requires
        wf_state(*m),
    ensures
        final(out)@ == old(out)@ + enc_state_t6(*m),
{
    proof {
        lemma_state_keys();
    }
    emit_field(out, ",\"b2b\":", &m.b2b);
    emit_lit(out, "}");
    proof {
        assert(old(out)@ + (lit(",\"b2b\":"@) + m.b2b.enc()) + lit("}"@) =~= old(out)@ + enc_state_t6(*m));
    }
}

/// Append the line from field 6 on.
fn encode_state_t5(m: &State, out: &mut Vec<u8>)
    requires
        wf_state(*m),
    ensures
        final(out)@ == old(out)@ + enc_state_t5(*m),
{
    proof {
        lemma_state_keys();
    }
    emit_field(out, ",\"combo\":", &m.combo);
    encode_state_t6(m, out);
    proof {
        assert(old(out)@ + (lit(",\"combo\":"@) + m.combo.enc()) + enc_state_t6(*m) =~= old(out)@ + enc_state_t5(*m));
    }
}

/// Append the line from field 5 on.
fn encode_state_t4(m: &State, out: &mut Vec<u8>)
    requires
        wf_state(*m),
    ensures
        final(out)@ == old(out)@ + enc_state_t4(*m),
{
    proof {
        lemma_state_keys();
    }
    emit_field(out, ",\"garbage\":", &m.garbage);
    encode_state_t5(m, out);
    proof {
        assert(old(out)@ + (lit(",\"garbage\":"@) + m.garbage.enc()) + enc_state_t5(*m) =~= old(out)@ + enc_state_t4(*m));
    }
}

/// Append the line from field 4 on.
fn encode_state_t3(m: &State, out: &mut Vec<u8>)
    requires
        wf_state(*m),
    ensures
        final(out)@ == old(out)@ + enc_state_t3(*m),
{
    proof {
        lemma_state_keys();
    }
    emit_field(out, ",\"queue\":", &m.queue);
    encode_state_t4(m, out);
    proof {
        assert(old(out)@ + (lit(",\"queue\":"@) + m.queue.enc()) + enc_state_t4(*m) =~= old(out)@ + enc_state_t3(*m));
    }
}

/// Append the line from field 3 on.
fn encode_state_t2(m: &State, out: &mut Vec<u8>)
    requires
        wf_state(*m),
    ensures
        final(out)@ == old(out)@ + enc_state_t2(*m),
{
    proof {
        lemma_state_keys();
    }
    emit_field(out, ",\"hold\":", &m.hold);
    encode_state_t3(m, out);
    proof {
        assert(old(out)@ + (lit(",\"hold\":"@) + m.hold.enc()) + enc_state_t3(*m) =~= old(out)@ + enc_state_t2(*m));
    }
}

/// Append the line from field 2 on.
fn encode_state_t1(m: &State, out: &mut Vec<u8>)
    requires
        wf_state(*m),
    ensures
        final(out)@ == old(out)@ + enc_state_t1(*m),
{
    proof {
        lemma_state_keys();
    }
    emit_field(out, ",\"current\":", &m.current);
    encode_state_t2(m, out);
    proof {
        assert(old(out)@ + (lit(",\"current\":"@) + m.current.enc()) + enc_state_t2(*m) =~= old(out)@ + enc_state_t1(*m));
    }
}

/// Encode this message as its canonical line, appended to `out`.
pub fn encode_state(m: &State, out: &mut Vec<u8>)
    requires
        wf_state(*m),
    ensures
        final(out)@ == old(out)@ + enc_state(*m),
{
    proof {
        lemma_state_keys();
    }
    emit_field(out, "{\"type\":\"state\",\"board\":", &m.board);
    encode_state_t1(m, out);
    proof {
        assert(old(out)@ + (lit("{\"type\":\"state\",\"board\":"@) + m.board.enc()) + enc_state_t1(*m) =~= old(out)@ + (enc_state(*m)));
    }
}

/// The key literals of this line shape: plain ASCII, every later key opening
/// with a comma, the line closing with a brace.
proof fn lemma_pieces_keys()
    ensures
        "{\"type\":\"pieces\",\"pieces\":".is_ascii(),
        lit("{\"type\":\"pieces\",\"pieces\":"@).len() > 0,
        "}".is_ascii(),
        lit("}"@)[0] == 125,
        lit("}"@).len() == 1,
{
    reveal_strlit("{\"type\":\"pieces\",\"pieces\":");
    reveal_strlit("}");
}

/// The canonical line of this message.
pub open spec fn enc_pieces(m: Pieces) -> Seq<u8> {
    enc_field("{\"type\":\"pieces\",\"pieces\":"@, m.pieces) + lit("}"@)
}

/// The first 1 fields of the line, in order.
pub open spec fn enc_pieces_pre1(m: Pieces) -> Seq<u8> {
    (lit("{\"type\":\"pieces\",\"pieces\":"@) + m.pieces.enc())
}

/// End position of field 1 in the canonical line.
pub open spec fn enc_pieces_pos1(m: Pieces) -> int {
    0 + "{\"type\":\"pieces\",\"pieces\":"@.len() as int + m.pieces.enc().len()
}

/// Every field of the message has a wire form.
pub open spec fn wf_pieces(m: Pieces) -> bool {
    m.pieces.wf()
}

/// Field-for-field equality, sequences compared as sequences.
pub open spec fn pieces_eqv(a: Pieces, b: Pieces) -> bool {
    (a.pieces@ == b.pieces@)
}

/// All fields followed by the closing brace make the whole line.
proof fn lemma_pieces_flat(m: Pieces)
    ensures
        enc_pieces_pre1(m) + lit("}"@) == enc_pieces(m),
        enc_pieces_pre1(m).len() == enc_pieces_pos1(m),
        enc_pieces(m).len() == enc_pieces_pos1(m) + 1,
{
    lemma_pieces_keys();
    assert(enc_pieces_pre1(m) + lit("}"@) =~= enc_pieces(m));
}

/// Peel field 1 off the line at position `p`.
proof fn lemma_pieces_step0(buf: Seq<u8>, m: Pieces, p: int)
    requires
        starts_at(buf, p, enc_pieces(m)),
    ensures
        starts_at(buf, p, lit("{\"type\":\"pieces\",\"pieces\":"@) + m.pieces.enc()),
        starts_at(buf, p + "{\"type\":\"pieces\",\"pieces\":"@.len() + m.pieces.enc().len(), lit("}"@)),
        p + "{\"type\":\"pieces\",\"pieces\":"@.len() + m.pieces.enc().len() < buf.len(),
        buf[p + "{\"type\":\"pieces\",\"pieces\":"@.len() + m.pieces.enc().len()] == 125,
{
    lemma_pieces_keys();
    lemma_field_step(buf, p, lit("{\"type\":\"pieces\",\"pieces\":"@) + m.pieces.enc(), lit("}"@));

}

/// Where each piece of a canonical line stands, and the separator bytes.
#[verifier::rlimit(100)]
proof fn lemma_pieces_chain(buf: Seq<u8>, m: Pieces)
    requires
        wf_pieces(m),
        buf == enc_pieces(m),
    ensures
        starts_at(buf, 0, lit("{\"type\":\"pieces\",\"pieces\":"@) + m.pieces.enc()),
        buf[enc_pieces_pos1(m)] == 125,
        starts_at(buf, enc_pieces_pos1(m), lit("}"@)),
        buf.len() == enc_pieces_pos1(m) + 1,
{
    assert(starts_at(buf, 0, enc_pieces(m)));
    lemma_pieces_step0(buf, m, 0);
    lemma_pieces_flat(m);
}

/// Facts of field 1 for a line that is some message's canonical form.
proof fn lemma_pieces_at0(buf: Seq<u8>, m: Pieces)
    requires
        wf_pieces(m),
        buf == enc_pieces(m),
    ensures
        starts_at(buf, 0, lit("{\"type\":\"pieces\",\"pieces\":"@) + m.pieces.enc()),
        buf[enc_pieces_pos1(m)] == 125,
{
    lemma_pieces_chain(buf, m);
}

/// The closing brace and total length for a canonical line.
proof fn lemma_pieces_atend(buf: Seq<u8>, m: Pieces)
    requires
        wf_pieces(m),
        buf == enc_pieces(m),
    ensures
        starts_at(buf, enc_pieces_pos1(m), lit("}"@)),
        buf.len() == enc_pieces_pos1(m) + 1,
{
    lemma_pieces_chain(buf, m);
}

/// Decode one canonical line of this shape whole: sound and complete.
#[verifier::rlimit(100)]
#[verifier::spinoff_prover]
pub fn decode_pieces(buf: &[u8]) -> (r: Option<Pieces>)
    ensures
        r matches Some(mr) ==> wf_pieces(mr) && buf@ == enc_pieces(mr),
        forall|m: Pieces| wf_pieces(m) && buf@ == enc_pieces(m) ==> (r matches Some(m2) && pieces_eqv(m2, m)),
{
    proof {
        lemma_pieces_keys();
    }
    let r1 = match parse_field::<Vec<Mino>>(buf, 0, "{\"type\":\"pieces\",\"pieces\":") {
        Some(x) => x,
        None => {
            proof {
                assert forall|m: Pieces| wf_pieces(m) && buf@ == enc_pieces(m) implies false by {
                    lemma_pieces_at0(buf@, m);
                }
            }
            return None;
        },
    };
    let (p1, f_pieces) = r1;
    let pend = match expect_lit(buf, p1, "}") {
        Some(j) => j,
        None => {
            proof {
                assert forall|m: Pieces| wf_pieces(m) && buf@ == enc_pieces(m) implies false by {
                    lemma_pieces_at0(buf@, m);
                    lemma_pieces_atend(buf@, m);
                }
            }
            return None;
        },
    };
    if pend != buf.len() {
        proof {
            assert forall|m: Pieces| wf_pieces(m) && buf@ == enc_pieces(m) implies false by {
                lemma_pieces_at0(buf@, m);
                lemma_pieces_atend(buf@, m);
            }
        }
        return None;
    }
    let m2 = Pieces { pieces: f_pieces };
    proof {
        lemma_starts_at_subrange(buf@, 0, lit("{\"type\":\"pieces\",\"pieces\":"@) + f_pieces.enc());
        assert(buf@.subrange(0, p1 as int) == enc_pieces_pre1(m2));
        lemma_starts_at_subrange(buf@, p1 as int, lit("}"@));
        lemma_subrange_split(buf@, p1 as int, pend as int);
        lemma_pieces_flat(m2);
        assert(buf@ =~= buf@.subrange(0, pend as int));
        assert(buf@ == enc_pieces(m2));
        assert forall|m: Pieces| wf_pieces(m) && buf@ == enc_pieces(m) implies pieces_eqv(m2, m) by {
            lemma_pieces_at0(buf@, m);
            lemma_pieces_atend(buf@, m);
            assert(f_pieces@ =~= m.pieces@);
        }
    }
    Some(m2)
}

/// Encode this message as its canonical line, appended to `out`.
pub fn encode_pieces(m: &Pieces, out: &mut Vec<u8>)
    requires
        wf_pieces(*m),
    ensures
        final(out)@ == old(out)@ + enc_pieces(*m),
{
    proof {
        lemma_pieces_keys();
    }
    emit_field(out, "{\"type\":\"pieces\",\"pieces\":", &m.pieces);
    emit_lit(out, "}");
    proof {
        assert(old(out)@ + (lit("{\"type\":\"pieces\",\"pieces\":"@) + m.pieces.enc()) + lit("}"@) =~= old(out)@ + (enc_pieces(*m)));
    }
}

/// The key literals of this line shape: plain ASCII, every later key opening
/// with a comma, the line closing with a brace.
proof fn lemma_info_keys()
    ensures
        "{\"type\":\"info\",\"name\":".is_ascii(),
        lit("{\"type\":\"info\",\"name\":"@).len() > 0,
        ",\"version\":".is_ascii(),
        lit(",\"version\":"@).len() > 0,
        lit(",\"version\":"@)[0] == 44,
        ",\"author\":".is_ascii(),
        lit(",\"author\":"@).len() > 0,
        lit(",\"author\":"@)[0] == 44,
        "}".is_ascii(),
        lit("}"@)[0] == 125,
        lit("}"@).len() == 1,
{
    reveal_strlit("{\"type\":\"info\",\"name\":");
    reveal_strlit(",\"version\":");
    reveal_strlit(",\"author\":");
    reveal_strlit("}");
}

/// The line from field 2 on.
pub open spec fn enc_info_t1(name_a: AsciiText, version_a: AsciiText, author_a: AsciiText) -> Seq<u8> {
    enc_field(",\"version\":"@, version_a) + enc_info_t2(name_a, version_a, author_a)
}

/// The line from field 3 on.
pub open spec fn enc_info_t2(name_a: AsciiText, version_a: AsciiText, author_a: AsciiText) -> Seq<u8> {
    enc_field(",\"author\":"@, author_a) + lit("}"@)
}

/// The canonical line of this message.
pub open spec fn enc_info(name_a: AsciiText, version_a: AsciiText, author_a: AsciiText) -> Seq<u8> {
    enc_field("{\"type\":\"info\",\"name\":"@, name_a) + enc_info_t1(name_a, version_a, author_a)
}

/// The first 1 fields of the line, in order.
pub open spec fn enc_info_pre1(name_a: AsciiText, version_a: AsciiText, author_a: AsciiText) -> Seq<u8> {
    (lit("{\"type\":\"info\",\"name\":"@) + name_a.enc())
}

/// End position of field 1 in the canonical line.
pub open spec fn enc_info_pos1(name_a: AsciiText, version_a: AsciiText, author_a: AsciiText) -> int {
    0 + "{\"type\":\"info\",\"name\":"@.len() as int + name_a.enc().len()
}

/// The first 2 fields of the line, in order.
pub open spec fn enc_info_pre2(name_a: AsciiText, version_a: AsciiText, author_a: AsciiText) -> Seq<u8> {
    enc_info_pre1(name_a, version_a, author_a) + (lit(",\"version\":"@) + version_a.enc())
}

/// End position of field 2 in the canonical line.
pub open spec fn enc_info_pos2(name_a: AsciiText, version_a: AsciiText, author_a: AsciiText) -> int {
    enc_info_pos1(name_a, version_a, author_a) + ",\"version\":"@.len() + version_a.enc().len()
}

/// The first 3 fields of the line, in order.
pub open spec fn enc_info_pre3(name_a: AsciiText, version_a: AsciiText, author_a: AsciiText) -> Seq<u8> {
    enc_info_pre2(name_a, version_a, author_a) + (lit(",\"author\":"@) + author_a.enc())
}

/// End position of field 3 in the canonical line.
pub open spec fn enc_info_pos3(name_a: AsciiText, version_a: AsciiText, author_a: AsciiText) -> int {
    enc_info_pos2(name_a, version_a, author_a) + ",\"author\":"@.len() + author_a.enc().len()
}

/// Every field of the message has a wire form.
pub open spec fn wf_info(name_a: AsciiText, version_a: AsciiText, author_a: AsciiText) -> bool {
    name_a.wf() && version_a.wf() && author_a.wf()
}

/// The first 1 fields followed by the rest make the whole line.
proof fn lemma_info_pre1(name_a: AsciiText, version_a: AsciiText, author_a: AsciiText)
    ensures
        enc_info_pre1(name_a, version_a, author_a) + enc_info_t1(name_a, version_a, author_a) == enc_info(name_a, version_a, author_a),
        enc_info_pre1(name_a, version_a, author_a).len() == enc_info_pos1(name_a, version_a, author_a),
{
    assert(enc_info_pre1(name_a, version_a, author_a) + enc_info_t1(name_a, version_a, author_a) =~= enc_info(name_a, version_a, author_a));
}

/// The first 2 fields followed by the rest make the whole line.
proof fn lemma_info_pre2(name_a: AsciiText, version_a: AsciiText, author_a: AsciiText)
    ensures
        enc_info_pre2(name_a, version_a, author_a) + enc_info_t2(name_a, version_a, author_a) == enc_info(name_a, version_a, author_a),
        enc_info_pre2(name_a, version_a, author_a).len() == enc_info_pos2(name_a, version_a, author_a),
{
    lemma_info_pre1(name_a, version_a, author_a);
    assert(enc_info_pre2(name_a, version_a, author_a) + enc_info_t2(name_a, version_a, author_a) =~= enc_info_pre1(name_a, version_a, author_a) + enc_info_t1(name_a, version_a, author_a));
}

/// All fields followed by the closing brace make the whole line.
proof fn lemma_info_flat(name_a: AsciiText, version_a: AsciiText, author_a: AsciiText)
    ensures
        enc_info_pre3(name_a, version_a, author_a) + lit("}"@) == enc_info(name_a, version_a, author_a),
        enc_info_pre3(name_a, version_a, author_a).len() == enc_info_pos3(name_a, version_a, author_a),
        enc_info(name_a, version_a, author_a).len() == enc_info_pos3(name_a, version_a, author_a) + 1,
{
    lemma_info_keys();
    lemma_info_pre2(name_a, version_a, author_a);
    assert(enc_info_pre3(name_a, version_a, author_a) + lit("}"@) =~= enc_info_pre2(name_a, version_a, author_a) + enc_info_t2(name_a, version_a, author_a));
}

/// Peel field 1 off the line at position `p`.
proof fn lemma_info_step0(buf: Seq<u8>, name_a: AsciiText, version_a: AsciiText, author_a: AsciiText, p: int)
    requires
        starts_at(buf, p, enc_info(name_a, version_a, author_a)),
    ensures
        starts_at(buf, p, lit("{\"type\":\"info\",\"name\":"@) + name_a.enc()),
        starts_at(buf, p + "{\"type\":\"info\",\"name\":"@.len() + name_a.enc().len(), enc_info_t1(name_a, version_a, author_a)),
        p + "{\"type\":\"info\",\"name\":"@.len() + name_a.enc().len() < buf.len(),
        buf[p + "{\"type\":\"info\",\"name\":"@.len() + name_a.enc().len()] == 44,
{
    lemma_info_keys();
    lemma_field_step(buf, p, lit("{\"type\":\"info\",\"name\":"@) + name_a.enc(), enc_info_t1(name_a, version_a, author_a));
    assert(enc_info_t1(name_a, version_a, author_a)[0] == lit(",\"version\":"@)[0]);
}

/// Peel field 2 off the line at position `p`.
proof fn lemma_info_step1(buf: Seq<u8>, name_a: AsciiText, version_a: AsciiText, author_a: AsciiText, p: int)
    requires
        starts_at(buf, p, enc_info_t1(name_a, version_a, author_a)),
    ensures
        starts_at(buf, p, lit(",\"version\":"@) + version_a.enc()),
        starts_at(buf, p + ",\"version\":"@.len() + version_a.enc().len(), enc_info_t2(name_a, version_a, author_a)),
        p + ",\"version\":"@.len() + version_a.enc().len() < buf.len(),
        buf[p + ",\"version\":"@.len() + version_a.enc().len()] == 44,
{
    lemma_info_keys();
    lemma_field_step(buf, p, lit(",\"version\":"@) + version_a.enc(), enc_info_t2(name_a, version_a, author_a));
    assert(enc_info_t2(name_a, version_a, author_a)[0] == lit(",\"author\":"@)[0]);
}

/// Peel field 3 off the line at position `p`.
proof fn lemma_info_step2(buf: Seq<u8>, name_a: AsciiText, version_a: AsciiText, author_a: AsciiText, p: int)
    requires
        starts_at(buf, p, enc_info_t2(name_a, version_a, author_a)),
    ensures
        starts_at(buf, p, lit(",\"author\":"@) + author_a.enc()),
        starts_at(buf, p + ",\"author\":"@.len() + author_a.enc().len(), lit("}"@)),
        p + ",\"author\":"@.len() + author_a.enc().len() < buf.len(),
        buf[p + ",\"author\":"@.len() + author_a.enc().len()] == 125,
{
    lemma_info_keys();
    lemma_field_step(buf, p, lit(",\"author\":"@) + author_a.enc(), lit("}"@));

}

/// Where each piece of a canonical line stands, and the separator bytes.
#[verifier::rlimit(100)]
proof fn lemma_info_chain(buf: Seq<u8>, name_a: AsciiText, version_a: AsciiText, author_a: AsciiText)
    requires
        wf_info(name_a, version_a, author_a),
        buf == enc_info(name_a, version_a, author_a),
    ensures
        starts_at(buf, 0, lit("{\"type\":\"info\",\"name\":"@) + name_a.enc()),
        buf[enc_info_pos1(name_a, version_a, author_a)] == 44,
        starts_at(buf, enc_info_pos1(name_a, version_a, author_a), lit(",\"version\":"@) + version_a.enc()),
        buf[enc_info_pos2(name_a, version_a, author_a)] == 44,
        starts_at(buf, enc_info_pos2(name_a, version_a, author_a), lit(",\"author\":"@) + author_a.enc()),
        buf[enc_info_pos3(name_a, version_a, author_a)] == 125,
        starts_at(buf, enc_info_pos3(name_a, version_a, author_a), lit("}"@)),
        buf.len() == enc_info_pos3(name_a, version_a, author_a) + 1,
{
    assert(starts_at(buf, 0, enc_info(name_a, version_a, author_a)));
    lemma_info_step0(buf, name_a, version_a, author_a, 0);
    lemma_info_step1(buf, name_a, version_a, author_a, enc_info_pos1(name_a, version_a, author_a));
    lemma_info_step2(buf, name_a, version_a, author_a, enc_info_pos2(name_a, version_a, author_a));
    lemma_info_flat(name_a, version_a, author_a);
}

/// Facts of field 1 for a line that is some message's canonical form.
proof fn lemma_info_at0(buf: Seq<u8>, name_a: AsciiText, version_a: AsciiText, author_a: AsciiText)
    requires
        wf_info(name_a, version_a, author_a),
        buf == enc_info(name_a, version_a, author_a),
    ensures
        starts_at(buf, 0, lit("{\"type\":\"info\",\"name\":"@) + name_a.enc()),
        buf[enc_info_pos1(name_a, version_a, author_a)] == 44,
{
    lemma_info_chain(buf, name_a, version_a, author_a);
}

/// Facts of field 2 for a line that is some message's canonical form.
proof fn lemma_info_at1(buf: Seq<u8>, name_a: AsciiText, version_a: AsciiText, author_a: AsciiText)
    requires
        wf_info(name_a, version_a, author_a),
        buf == enc_info(name_a, version_a, author_a),
    ensures
        starts_at(buf, enc_info_pos1(name_a, version_a, author_a), lit(",\"version\":"@) + version_a.enc()),
        buf[enc_info_pos2(name_a, version_a, author_a)] == 44,
{
    lemma_info_chain(buf, name_a, version_a, author_a);
}

/// Facts of field 3 for a line that is some message's canonical form.
proof fn lemma_info_at2(buf: Seq<u8>, name_a: AsciiText, version_a: AsciiText, author_a: AsciiText)
    requires
        wf_info(name_a, version_a, author_a),
        buf == enc_info(name_a, version_a, author_a),
    ensures
        starts_at(buf, enc_info_pos2(name_a, version_a, author_a), lit(",\"author\":"@) + author_a.enc()),
        buf[enc_info_pos3(name_a, version_a, author_a)] == 125,
{
    lemma_info_chain(buf, name_a, version_a, author_a);
}

/// The closing brace and total length for a canonical line.
proof fn lemma_info_atend(buf: Seq<u8>, name_a: AsciiText, version_a: AsciiText, author_a: AsciiText)
    requires
        wf_info(name_a, version_a, author_a),
        buf == enc_info(name_a, version_a, author_a),
    ensures
        starts_at(buf, enc_info_pos3(name_a, version_a, author_a), lit("}"@)),
        buf.len() == enc_info_pos3(name_a, version_a, author_a) + 1,
{
    lemma_info_chain(buf, name_a, version_a, author_a);
}

/// Decode one canonical line of this shape whole: sound and complete.
#[verifier::rlimit(100)]
#[verifier::spinoff_prover]
pub fn decode_info(buf: &[u8]) -> (r: Option<(AsciiText, AsciiText, AsciiText)>)
    ensures
        r matches Some((name_s, version_s, author_s)) ==> wf_info(name_s, version_s, author_s) && buf@ == enc_info(name_s, version_s, author_s),
        forall|name_a: AsciiText, version_a: AsciiText, author_a: AsciiText| wf_info(name_a, version_a, author_a) && buf@ == enc_info(name_a, version_a, author_a) ==> (r matches Some((name_r, version_r, author_r)) && (name_r.0@ == name_a.0@) && (version_r.0@ == version_a.0@) && (author_r.0@ == author_a.0@)),
{
    proof {
        lemma_info_keys();
    }
    let r1 = match parse_field::<AsciiText>(buf, 0, "{\"type\":\"info\",\"name\":") {
        Some(x) => x,
        None => {
            proof {
                assert forall|name_a: AsciiText, version_a: AsciiText, author_a: AsciiText| wf_info(name_a, version_a, author_a) && buf@ == enc_info(name_a, version_a, author_a) implies false by {
                    lemma_info_at0(buf@, name_a, version_a, author_a);
                }
            }
            return None;
        },
    };
    let (p1, f_name) = r1;
    let r2 = match parse_field::<AsciiText>(buf, p1, ",\"version\":") {
        Some(x) => x,
        None => {
            proof {
                assert forall|name_a: AsciiText, version_a: AsciiText, author_a: AsciiText| wf_info(name_a, version_a, author_a) && buf@ == enc_info(name_a, version_a, author_a) implies false by {
                    lemma_info_at0(buf@, name_a, version_a, author_a);
                    lemma_info_at1(buf@, name_a, version_a, author_a);
                }
            }
            return None;
        },
    };
    let (p2, f_version) = r2;
    let r3 = match parse_field::<AsciiText>(buf, p2, ",\"author\":") {
        Some(x) => x,
        None => {
            proof {
                assert forall|name_a: AsciiText, version_a: AsciiText, author_a: AsciiText| wf_info(name_a, version_a, author_a) && buf@ == enc_info(name_a, version_a, author_a) implies false by {
                    lemma_info_at0(buf@, name_a, version_a, author_a);
                    lemma_info_at1(buf@, name_a, version_a, author_a);
                    lemma_info_at2(buf@, name_a, version_a, author_a);
                }
            }
            return None;
        },
    };
    let (p3, f_author) = r3;
    let pend = match expect_lit(buf, p3, "}") {
        Some(j) => j,
        None => {
            proof {
                assert forall|name_a: AsciiText, version_a: AsciiText, author_a: AsciiText| wf_info(name_a, version_a, author_a) && buf@ == enc_info(name_a, version_a, author_a) implies false by {
                    lemma_info_at0(buf@, name_a, version_a, author_a);
                    lemma_info_at1(buf@, name_a, version_a, author_a);
                    lemma_info_at2(buf@, name_a, version_a, author_a);
                    lemma_info_atend(buf@, name_a, version_a, author_a);
                }
            }
            return None;
        },
    };
    if pend != buf.len() {
        proof {
            assert forall|name_a: AsciiText, version_a: AsciiText, author_a: AsciiText| wf_info(name_a, version_a, author_a) && buf@ == enc_info(name_a, version_a, author_a) implies false by {
                lemma_info_at0(buf@, name_a, version_a, author_a);
                    lemma_info_at1(buf@, name_a, version_a, author_a);
                    lemma_info_at2(buf@, name_a, version_a, author_a);
                lemma_info_atend(buf@, name_a, version_a, author_a);
            }
        }
        return None;
    }

    proof {
        lemma_starts_at_subrange(buf@, 0, lit("{\"type\":\"info\",\"name\":"@) + f_name.enc());
        assert(buf@.subrange(0, p1 as int) == enc_info_pre1(f_name, f_version, f_author));
        lemma_starts_at_subrange(buf@, p1 as int, lit(",\"version\":"@) + f_version.enc());
        lemma_subrange_split(buf@, p1 as int, p2 as int);
        assert(buf@.subrange(0, p2 as int) == enc_info_pre2(f_name, f_version, f_author));
        lemma_starts_at_subrange(buf@, p2 as int, lit(",\"author\":"@) + f_author.enc());
        lemma_subrange_split(buf@, p2 as int, p3 as int);
        assert(buf@.subrange(0, p3 as int) == enc_info_pre3(f_name, f_version, f_author));
        lemma_starts_at_subrange(buf@, p3 as int, lit("}"@));
        lemma_subrange_split(buf@, p3 as int, pend as int);
        lemma_info_flat(f_name, f_version, f_author);
        assert(buf@ =~= buf@.subrange(0, pend as int));
        assert(buf@ == enc_info(f_name, f_version, f_author));
        assert forall|name_a: AsciiText, version_a: AsciiText, author_a: AsciiText| wf_info(name_a, version_a, author_a) && buf@ == enc_info(name_a, version_a, author_a) implies (f_name.0@ == name_a.0@) && (f_version.0@ == version_a.0@) && (f_author.0@ == author_a.0@) by {
            lemma_info_at0(buf@, name_a, version_a, author_a);
                    lemma_info_at1(buf@, name_a, version_a, author_a);
                    lemma_info_at2(buf@, name_a, version_a, author_a);
            lemma_info_atend(buf@, name_a, version_a, author_a);
        }
    }
    Some((f_name, f_version, f_author))
}

/// Append the line from field 3 on.
fn encode_info_t2(name_a: &AsciiText, version_a: &AsciiText, author_a: &AsciiText, out: &mut Vec<u8>)
    requires
        wf_info(*name_a, *version_a, *author_a),
    ensures
        final(out)@ == old(out)@ + enc_info_t2(*name_a, *version_a, *author_a),
{
    proof {
        lemma_info_keys();
    }
    emit_field(out, ",\"author\":", author_a);
    emit_lit(out, "}");
    proof {
        assert(old(out)@ + (lit(",\"author\":"@) + (*author_a).enc()) + lit("}"@) =~= old(out)@ + enc_info_t2(*name_a, *version_a, *author_a));
    }
}

/// Append the line from field 2 on.
fn encode_info_t1(name_a: &AsciiText, version_a: &AsciiText, author_a: &AsciiText, out: &mut Vec<u8>)
    requires
        wf_info(*name_a, *version_a, *author_a),
    ensures
        final(out)@ == old(out)@ + enc_info_t1(*name_a, *version_a, *author_a),
{
    proof {
        lemma_info_keys();
    }
    emit_field(out, ",\"version\":", version_a);
    encode_info_t2(name_a, version_a, author_a, out);
    proof {
        assert(old(out)@ + (lit(",\"version\":"@) + (*version_a).enc()) + enc_info_t2(*name_a, *version_a, *author_a) =~= old(out)@ + enc_info_t1(*name_a, *version_a, *author_a));
    }
}

/// Encode this message as its canonical line, appended to `out`.
pub fn encode_info(name_a: &AsciiText, version_a: &AsciiText, author_a: &AsciiText, out: &mut Vec<u8>)
    requires
        wf_info(*name_a, *version_a, *author_a),
    ensures
        final(out)@ == old(out)@ + enc_info(*name_a, *version_a, *author_a),
{
    proof {
        lemma_info_keys();
    }
    emit_field(out, "{\"type\":\"info\",\"name\":", name_a);
    encode_info_t1(name_a, version_a, author_a, out);
    proof {
        assert(old(out)@ + (lit("{\"type\":\"info\",\"name\":"@) + (*name_a).enc()) + enc_info_t1(*name_a, *version_a, *author_a) =~= old(out)@ + (enc_info(*name_a, *version_a, *author_a)));
    }
}

/// The key literals of this line shape: plain ASCII, every later key opening
/// with a comma, the line closing with a brace.
proof fn lemma_move_msg_keys()
    ensures
        "{\"type\":\"move\",\"keys\":".is_ascii(),
        lit("{\"type\":\"move\",\"keys\":"@).len() > 0,
        "}".is_ascii(),
        lit("}"@)[0] == 125,
        lit("}"@).len() == 1,
{
    reveal_strlit("{\"type\":\"move\",\"keys\":");
    reveal_strlit("}");
}

/// The canonical line of this message.
pub open spec fn enc_move_msg(keys_a: Vec<Move>) -> Seq<u8> {
    enc_field("{\"type\":\"move\",\"keys\":"@, keys_a) + lit("}"@)
}

/// The first 1 fields of the line, in order.
pub open spec fn enc_move_msg_pre1(keys_a: Vec<Move>) -> Seq<u8> {
    (lit("{\"type\":\"move\",\"keys\":"@) + keys_a.enc())
}

/// End position of field 1 in the canonical line.
pub open spec fn enc_move_msg_pos1(keys_a: Vec<Move>) -> int {
    0 + "{\"type\":\"move\",\"keys\":"@.len() as int + keys_a.enc().len()
}

/// Every field of the message has a wire form.
pub open spec fn wf_move_msg(keys_a: Vec<Move>) -> bool {
    keys_a.wf()
}

/// All fields followed by the closing brace make the whole line.
proof fn lemma_move_msg_flat(keys_a: Vec<Move>)
    ensures
        enc_move_msg_pre1(keys_a) + lit("}"@) == enc_move_msg(keys_a),
        enc_move_msg_pre1(keys_a).len() == enc_move_msg_pos1(keys_a),
        enc_move_msg(keys_a).len() == enc_move_msg_pos1(keys_a) + 1,
{
    lemma_move_msg_keys();
    assert(enc_move_msg_pre1(keys_a) + lit("}"@) =~= enc_move_msg(keys_a));
}

/// Peel field 1 off the line at position `p`.
proof fn lemma_move_msg_step0(buf: Seq<u8>, keys_a: Vec<Move>, p: int)
    requires
        starts_at(buf, p, enc_move_msg(keys_a)),
    ensures
        starts_at(buf, p, lit("{\"type\":\"move\",\"keys\":"@) + keys_a.enc()),
        starts_at(buf, p + "{\"type\":\"move\",\"keys\":"@.len() + keys_a.enc().len(), lit("}"@)),
        p + "{\"type\":\"move\",\"keys\":"@.len() + keys_a.enc().len() < buf.len(),
        buf[p + "{\"type\":\"move\",\"keys\":"@.len() + keys_a.enc().len()] == 125,
{
    lemma_move_msg_keys();
    lemma_field_step(buf, p, lit("{\"type\":\"move\",\"keys\":"@) + keys_a.enc(), lit("}"@));

}

/// Where each piece of a canonical line stands, and the separator bytes.
#[verifier::rlimit(100)]
proof fn lemma_move_msg_chain(buf: Seq<u8>, keys_a: Vec<Move>)
    requires
        wf_move_msg(keys_a),
        buf == enc_move_msg(keys_a),
    ensures
        starts_at(buf, 0, lit("{\"type\":\"move\",\"keys\":"@) + keys_a.enc()),
        buf[enc_move_msg_pos1(keys_a)] == 125,
        starts_at(buf, enc_move_msg_pos1(keys_a), lit("}"@)),
        buf.len() == enc_move_msg_pos1(keys_a) + 1,
{
    assert(starts_at(buf, 0, enc_move_msg(keys_a)));
    lemma_move_msg_step0(buf, keys_a, 0);
    lemma_move_msg_flat(keys_a);
}

/// Facts of field 1 for a line that is some message's canonical form.
proof fn lemma_move_msg_at0(buf: Seq<u8>, keys_a: Vec<Move>)
    requires
        wf_move_msg(keys_a),
        buf == enc_move_msg(keys_a),
    ensures
        starts_at(buf, 0, lit("{\"type\":\"move\",\"keys\":"@) + keys_a.enc()),
        buf[enc_move_msg_pos1(keys_a)] == 125,
{
    lemma_move_msg_chain(buf, keys_a);
}

/// The closing brace and total length for a canonical line.
proof fn lemma_move_msg_atend(buf: Seq<u8>, keys_a: Vec<Move>)
    requires
        wf_move_msg(keys_a),
        buf == enc_move_msg(keys_a),
    ensures
        starts_at(buf, enc_move_msg_pos1(keys_a), lit("}"@)),
        buf.len() == enc_move_msg_pos1(keys_a) + 1,
{
    lemma_move_msg_chain(buf, keys_a);
}

/// Decode one canonical line of this shape whole: sound and complete.
#[verifier::rlimit(100)]
#[verifier::spinoff_prover]
pub fn decode_move_msg(buf: &[u8]) -> (r: Option<(Vec<Move>)>)
    ensures
        r matches Some((keys_s)) ==> wf_move_msg(keys_s) && buf@ == enc_move_msg(keys_s),
        forall|keys_a: Vec<Move>| wf_move_msg(keys_a) && buf@ == enc_move_msg(keys_a) ==> (r matches Some((keys_r)) && (keys_r@ == keys_a@)),
{
    proof {
        lemma_move_msg_keys();
    }
    let r1 = match parse_field::<Vec<Move>>(buf, 0, "{\"type\":\"move\",\"keys\":") {
        Some(x) => x,
        None => {
            proof {
                assert forall|keys_a: Vec<Move>| wf_move_msg(keys_a) && buf@ == enc_move_msg(keys_a) implies false by {
                    lemma_move_msg_at0(buf@, keys_a);
                }
            }
            return None;
        },
    };
    let (p1, f_keys) = r1;
    let pend = match expect_lit(buf, p1, "}") {
        Some(j) => j,
        None => {
            proof {
                assert forall|keys_a: Vec<Move>| wf_move_msg(keys_a) && buf@ == enc_move_msg(keys_a) implies false by {
                    lemma_move_msg_at0(buf@, keys_a);
                    lemma_move_msg_atend(buf@, keys_a);
                }
            }
            return None;
        },
    };
    if pend != buf.len() {
        proof {
            assert forall|keys_a: Vec<Move>| wf_move_msg(keys_a) && buf@ == enc_move_msg(keys_a) implies false by {
                lemma_move_msg_at0(buf@, keys_a);
                lemma_move_msg_atend(buf@, keys_a);
            }
        }
        return None;
    }

    proof {
        lemma_starts_at_subrange(buf@, 0, lit("{\"type\":\"move\",\"keys\":"@) + f_keys.enc());
        assert(buf@.subrange(0, p1 as int) == enc_move_msg_pre1(f_keys));
        lemma_starts_at_subrange(buf@, p1 as int, lit("}"@));
        lemma_subrange_split(buf@, p1 as int, pend as int);
        lemma_move_msg_flat(f_keys);
        assert(buf@ =~= buf@.subrange(0, pend as int));
        assert(buf@ == enc_move_msg(f_keys));
        assert forall|keys_a: Vec<Move>| wf_move_msg(keys_a) && buf@ == enc_move_msg(keys_a) implies (f_keys@ == keys_a@) by {
            lemma_move_msg_at0(buf@, keys_a);
            lemma_move_msg_atend(buf@, keys_a);
            assert(f_keys@ =~= keys_a@);
        }
    }
    Some((f_keys))
}

/// Encode this message as its canonical line, appended to `out`.
pub fn encode_move_msg(keys_a: &Vec<Move>, out: &mut Vec<u8>)
    requires
        wf_move_msg(*keys_a),
    ensures
        final(out)@ == old(out)@ + enc_move_msg(*keys_a),
{
    proof {
        lemma_move_msg_keys();
    }
    emit_field(out, "{\"type\":\"move\",\"keys\":", keys_a);
    emit_lit(out, "}");
    proof {
        assert(old(out)@ + (lit("{\"type\":\"move\",\"keys\":"@) + (*keys_a).enc()) + lit("}"@) =~= old(out)@ + (enc_move_msg(*keys_a)));
    }
}


/// Which incoming messages have a wire form.
pub open spec fn wf_incoming(m: Incoming) -> bool {
    match m {
        Incoming::Config(c) => wf_config(c),
        Incoming::State(s) => wf_state(s),
        Incoming::Pieces(p) => wf_pieces(p),
        Incoming::Play(p) => wf_play(p),
    }
}

/// The canonical line of an incoming message.
pub open spec fn enc_incoming(m: Incoming) -> Seq<u8> {
    match m {
        Incoming::Config(c) => enc_config(c),
        Incoming::State(s) => enc_state(s),
        Incoming::Pieces(p) => enc_pieces(p),
        Incoming::Play(p) => enc_play(p),
    }
}

/// Which outgoing messages have a wire form.
pub open spec fn wf_outgoing(m: Outgoing) -> bool {
    match m {
        Outgoing::Info { name, version, author } => wf_info(name, version, author),
        Outgoing::Move { keys } => wf_move_msg(keys),
    }
}

/// The canonical line of an outgoing message.
pub open spec fn enc_outgoing(m: Outgoing) -> Seq<u8> {
    match m {
        Outgoing::Info { name, version, author } => enc_info(name, version, author),
        Outgoing::Move { keys } => enc_move_msg(keys),
    }
}

/// The type-tag byte of an accepted `config` line.
proof fn lemma_config_line_tag(line: Seq<u8>, m: Config)
    requires
        is_config_line(line, m),
    ensures
        line.len() > 10 && line[9] == 99,
{
    reveal_strlit("{\"type\":\"config\",\"boardWidth\":");
    let s = choose|s: Seq<u8>|
        #![trigger is_milli_bytes(s, m.garbage_multiplier.0 as int)]
        is_milli_bytes(s, m.garbage_multiplier.0 as int) && line == enc_config_with(m, s);
    let k1 = lit("{\"type\":\"config\",\"boardWidth\":"@);
    assert(line[9] == (k1 + m.board_width.enc())[9]);
    assert(line.len() >= enc_config_with(m, s).len());
}

/// The type-tag byte of a canonical `state` line.
proof fn lemma_state_line_tag(line: Seq<u8>, m: State)
    requires
        line == enc_state(m),
    ensures
        line.len() > 10 && line[9] == 115,
{
    reveal_strlit("{\"type\":\"state\",\"board\":");
    let k1 = lit("{\"type\":\"state\",\"board\":"@);
    assert(line[9] == (k1 + m.board.enc())[9]);
}

/// The type-tag bytes of a canonical `pieces` line.
proof fn lemma_pieces_line_tag(line: Seq<u8>, m: Pieces)
    requires
        line == enc_pieces(m),
    ensures
        line.len() > 11 && line[9] == 112 && line[10] == 105,
{
    reveal_strlit("{\"type\":\"pieces\",\"pieces\":");
    let k1 = lit("{\"type\":\"pieces\",\"pieces\":"@);
    assert(line[9] == (k1 + m.pieces.enc())[9]);
    assert(line[10] == (k1 + m.pieces.enc())[10]);
}

/// The type-tag bytes of an accepted `play` line.
proof fn lemma_play_line_tag(line: Seq<u8>, m: Play)
    requires
        is_play_line(line, m),
    ensures
        line.len() > 11 && line[9] == 112 && line[10] == 108,
{
    reveal_strlit("{\"type\":\"play\",\"garbageMultiplier\":");
    let s = choose|s: Seq<u8>|
        #![trigger is_milli_bytes(s, m.garbage_multiplier.0 as int)]
        is_milli_bytes(s, m.garbage_multiplier.0 as int) && line == lit(
            "{\"type\":\"play\",\"garbageMultiplier\":"@,
        ) + s + enc_play_t1(m);
    let k1 = lit("{\"type\":\"play\",\"garbageMultiplier\":"@);
    assert(line[9] == ((k1 + s) + enc_play_t1(m))[9]);
    assert(line[10] == ((k1 + s) + enc_play_t1(m))[10]);
}

/// The type-tag byte of a canonical `info` line.
proof fn lemma_info_line_tag(line: Seq<u8>, a: AsciiText, b: AsciiText, c: AsciiText)
    requires
        line == enc_info(a, b, c),
    ensures
        line.len() > 10 && line[9] == 105,
{
    reveal_strlit("{\"type\":\"info\",\"name\":");
    let k1 = lit("{\"type\":\"info\",\"name\":"@);
    assert(line[9] == (k1 + a.enc())[9]);
}

/// The type-tag byte of a canonical `move` line.
proof fn lemma_move_line_tag(line: Seq<u8>, keys: Vec<Move>)
    requires
        line == enc_move_msg(keys),
    ensures
        line.len() > 10 && line[9] == 109,
{
    reveal_strlit("{\"type\":\"move\",\"keys\":");
    let k1 = lit("{\"type\":\"move\",\"keys\":"@);
    assert(line[9] == (k1 + keys.enc())[9]);
}

/// Variant-for-variant, field-for-field equality of incoming messages.
pub open spec fn incoming_eqv(a: Incoming, b: Incoming) -> bool {
    match (a, b) {
        (Incoming::Config(x), Incoming::Config(y)) => config_eqv(x, y),
        (Incoming::State(x), Incoming::State(y)) => state_eqv(x, y),
        (Incoming::Pieces(x), Incoming::Pieces(y)) => pieces_eqv(x, y),
        (Incoming::Play(x), Incoming::Play(y)) => play_eqv(x, y),
        _ => false,
    }
}

/// Variant-for-variant, field-for-field equality of outgoing messages.
pub open spec fn outgoing_eqv(a: Outgoing, b: Outgoing) -> bool {
    match (a, b) {
        (
            Outgoing::Info { name: n1, version: v1, author: a1 },
            Outgoing::Info { name: n2, version: v2, author: a2 },
        ) => n1.0@ == n2.0@ && v1.0@ == v2.0@ && a1.0@ == a2.0@,
        (Outgoing::Move { keys: k1 }, Outgoing::Move { keys: k2 }) => k1@ == k2@,
        _ => false,
    }
}

/// The canonical line of a message is one of its accepted spellings.
pub proof fn lemma_canonical_incoming_line(m: Incoming)
    requires
        wf_incoming(m),
    ensures
        is_incoming_line(enc_incoming(m), m),
{
    match m {
        Incoming::Config(c) => lemma_config_line_canonical(c),
        Incoming::Play(p) => lemma_play_line_canonical(p),
        Incoming::State(s) => {},
        Incoming::Pieces(p) => {},
    }
}

/// `line` is one acceptable spelling of the incoming message `m`: its
/// canonical line, except that numbers may use any standard spelling.
pub open spec fn is_incoming_line(line: Seq<u8>, m: Incoming) -> bool {
    match m {
        Incoming::Config(c) => is_config_line(line, c),
        Incoming::State(s) => line == enc_state(s),
        Incoming::Pieces(p) => line == enc_pieces(p),
        Incoming::Play(p) => is_play_line(line, p),
    }
}

/// Decode one line into an incoming message, dispatching on its type tag.
/// Sound: whatever is accepted is an accepted spelling of the returned
/// message.  Complete: every accepted spelling of every well-formed message
/// decodes to that message (and with [`lemma_canonical_incoming_line`], so
/// does every canonical line); everything else is a fatal framing error.
#[verifier::rlimit(100)]
#[verifier::spinoff_prover]
pub fn decode_incoming(line: &[u8]) -> (r: Result<Incoming, FramingError>)
    ensures
        r matches Ok(m) ==> wf_incoming(m) && is_incoming_line(line@, m),
        forall|m: Incoming|
            wf_incoming(m) && is_incoming_line(line@, m) ==> (r matches Ok(m2) && incoming_eqv(
                m2,
                m,
            )),
{
    if let Some(c) = decode_config(line) {
        proof {
            assert forall|m: Incoming|
                wf_incoming(m) && is_incoming_line(line@, m) implies m is Config by {
                lemma_config_line_tag(line@, c);
                match m {
                    Incoming::Config(x) => {},
                    Incoming::State(x) => lemma_state_line_tag(line@, x),
                    Incoming::Pieces(x) => lemma_pieces_line_tag(line@, x),
                    Incoming::Play(x) => lemma_play_line_tag(line@, x),
                }
            }
        }
        return Ok(Incoming::Config(c));
    }
    if let Some(s) = decode_state(line) {
        proof {
            assert forall|m: Incoming|
                wf_incoming(m) && is_incoming_line(line@, m) implies m is State by {
                lemma_state_line_tag(line@, s);
                match m {
                    Incoming::Config(x) => lemma_config_line_tag(line@, x),
                    Incoming::State(x) => {},
                    Incoming::Pieces(x) => lemma_pieces_line_tag(line@, x),
                    Incoming::Play(x) => lemma_play_line_tag(line@, x),
                }
            }
        }
        return Ok(Incoming::State(s));
    }
    if let Some(p) = decode_pieces(line) {
        proof {
            assert forall|m: Incoming|
                wf_incoming(m) && is_incoming_line(line@, m) implies m is Pieces by {
                lemma_pieces_line_tag(line@, p);
                match m {
                    Incoming::Config(x) => lemma_config_line_tag(line@, x),
                    Incoming::State(x) => lemma_state_line_tag(line@, x),
                    Incoming::Pieces(x) => {},
                    Incoming::Play(x) => lemma_play_line_tag(line@, x),
                }
            }
        }
        return Ok(Incoming::Pieces(p));
    }
    if let Some(p) = decode_play(line) {
        proof {
            assert forall|m: Incoming|
                wf_incoming(m) && is_incoming_line(line@, m) implies m is Play by {
                lemma_play_line_tag(line@, p);
                match m {
                    Incoming::Config(x) => lemma_config_line_tag(line@, x),
                    Incoming::State(x) => lemma_state_line_tag(line@, x),
                    Incoming::Pieces(x) => lemma_pieces_line_tag(line@, x),
                    Incoming::Play(x) => {},
                }
            }
        }
        return Ok(Incoming::Play(p));
    }
    Err(FramingError::Malformed)
}

/// Decode one line into an outgoing message: sound and complete over
/// canonical lines, the inverse of [`encode_outgoing`].
#[verifier::rlimit(100)]
#[verifier::spinoff_prover]
pub fn decode_outgoing(line: &[u8]) -> (r: Result<Outgoing, FramingError>)
    ensures
        r matches Ok(m) ==> wf_outgoing(m) && line@ == enc_outgoing(m),
        forall|m: Outgoing|
            wf_outgoing(m) && line@ == enc_outgoing(m) ==> (r matches Ok(m2) && outgoing_eqv(
                m2,
                m,
            )),
{
    if let Some((name, version, author)) = decode_info(line) {
        proof {
            assert forall|m: Outgoing|
                wf_outgoing(m) && line@ == enc_outgoing(m) implies m is Info by {
                lemma_info_line_tag(line@, name, version, author);
                match m {
                    Outgoing::Info { name: n2, version: v2, author: a2 } => {},
                    Outgoing::Move { keys } => lemma_move_line_tag(line@, keys),
                }
            }
        }
        return Ok(Outgoing::Info { name, version, author });
    }
    if let Some(keys) = decode_move_msg(line) {
        proof {
            assert forall|m: Outgoing|
                wf_outgoing(m) && line@ == enc_outgoing(m) implies m is Move by {
                lemma_move_line_tag(line@, keys);
                match m {
                    Outgoing::Info { name: n2, version: v2, author: a2 } => lemma_info_line_tag(
                        line@,
                        n2,
                        v2,
                        a2,
                    ),
                    Outgoing::Move { keys: k2 } => {},
                }
            }
        }
        return Ok(Outgoing::Move { keys });
    }
    Err(FramingError::Malformed)
}

/// Encode an incoming message as its canonical line.
pub fn encode_incoming(m: &Incoming, out: &mut Vec<u8>)
    requires
        wf_incoming(*m),
    ensures
        final(out)@ == old(out)@ + enc_incoming(*m),
{
    match m {
        Incoming::Config(c) => encode_config(c, out),
        Incoming::State(s) => encode_state(s, out),
        Incoming::Pieces(p) => encode_pieces(p, out),
        Incoming::Play(p) => encode_play(p, out),
    }
}

/// Encode an outgoing message as its canonical line.
pub fn encode_outgoing(m: &Outgoing, out: &mut Vec<u8>)
    requires
        wf_outgoing(*m),
    ensures
        final(out)@ == old(out)@ + enc_outgoing(*m),
{
    match m {
        Outgoing::Info { name, version, author } => encode_info(name, version, author, out),
        Outgoing::Move { keys } => encode_move_msg(keys, out),
    }
}

} // verus!
