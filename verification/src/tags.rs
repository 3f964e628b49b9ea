//! Wire forms of the closed tag sets: each domain enum travels as a quoted
//! token, a hold slot as such a token or the word `null`, and a free string
//! as its bytes between quotes.

use vstd::prelude::*;

use crate::data::{BoardSquare, ComboTable, KickTable, Mino, Move, Spins};
use crate::elem::WireElem;
use crate::protocol::AsciiText;
use crate::wire::{expect_lit, emit_lit, lemma_quoted_unique, lit, quoted, starts_at};

verus! {

impl WireElem for Mino {
    open spec fn wf(&self) -> bool {
        true
    }

    open spec fn enc(&self) -> Seq<u8> {
        match *self {
            Mino::I => lit("\"I\""@),
            Mino::J => lit("\"J\""@),
            Mino::L => lit("\"L\""@),
            Mino::O => lit("\"O\""@),
            Mino::S => lit("\"S\""@),
            Mino::T => lit("\"T\""@),
            Mino::Z => lit("\"Z\""@),
        }
    }

    open spec fn eqv(&self, other: &Self) -> bool {
        *self == *other
    }

    open spec fn compat_after(b: u8) -> bool {
        true
    }

    proof fn lemma_enc_first(&self) {
        lemma_mino_tag(*self);
    }

    proof fn lemma_delims(b: u8) {
    }

    proof fn lemma_eqv_enc(&self, other: &Self) {
    }

    fn emit(&self, out: &mut Vec<u8>) {
        proof {
            lemma_mino_tag(*self);
            reveal_strlit("\"I\"");
            reveal_strlit("\"J\"");
            reveal_strlit("\"L\"");
            reveal_strlit("\"O\"");
            reveal_strlit("\"S\"");
            reveal_strlit("\"T\"");
            reveal_strlit("\"Z\"");
        }
        match *self {
            Mino::I => emit_lit(out, "\"I\""),
            Mino::J => emit_lit(out, "\"J\""),
            Mino::L => emit_lit(out, "\"L\""),
            Mino::O => emit_lit(out, "\"O\""),
            Mino::S => emit_lit(out, "\"S\""),
            Mino::T => emit_lit(out, "\"T\""),
            Mino::Z => emit_lit(out, "\"Z\""),
        }
    }

    fn parse(buf: &[u8], i: usize) -> (r: Option<(usize, Self)>) {
        proof {
            reveal_strlit("\"I\"");
            reveal_strlit("\"J\"");
            reveal_strlit("\"L\"");
            reveal_strlit("\"O\"");
            reveal_strlit("\"S\"");
            reveal_strlit("\"T\"");
            reveal_strlit("\"Z\"");
            lemma_mino_tag(Mino::I);
            lemma_mino_tag(Mino::J);
            lemma_mino_tag(Mino::L);
            lemma_mino_tag(Mino::O);
            lemma_mino_tag(Mino::S);
            lemma_mino_tag(Mino::T);
            lemma_mino_tag(Mino::Z);
        }
        let mut hit: Option<(usize, Mino)> = None;
        if let Some(j) = expect_lit(buf, i, "\"I\"") {
            hit = Some((j, Mino::I));
        } else if let Some(j) = expect_lit(buf, i, "\"J\"") {
            hit = Some((j, Mino::J));
        } else if let Some(j) = expect_lit(buf, i, "\"L\"") {
            hit = Some((j, Mino::L));
        } else if let Some(j) = expect_lit(buf, i, "\"O\"") {
            hit = Some((j, Mino::O));
        } else if let Some(j) = expect_lit(buf, i, "\"S\"") {
            hit = Some((j, Mino::S));
        } else if let Some(j) = expect_lit(buf, i, "\"T\"") {
            hit = Some((j, Mino::T));
        } else if let Some(j) = expect_lit(buf, i, "\"Z\"") {
            hit = Some((j, Mino::Z));
        }
        proof {
            if let Some((j, t)) = hit {
                assert forall|v: Mino|
                    v.wf() && starts_at(buf@, i as int, #[trigger] v.enc()) implies v == t by {
                    lemma_mino_tag(v);
                    lemma_quoted_unique(buf@, i as int, v.enc(), t.enc());
                    lemma_mino_inj(v, t);
                }
            }
        }
        hit
    }
}

/// Every piece tag is a quoted token of its length, starting and ending with
/// a quote.
proof fn lemma_mino_tag(v: Mino)
    ensures
        quoted(v.enc()),
        v.enc()[0] == 34,
        v.enc().len() == 3,
{
    reveal_strlit("\"I\"");
    reveal_strlit("\"J\"");
    reveal_strlit("\"L\"");
    reveal_strlit("\"O\"");
    reveal_strlit("\"S\"");
    reveal_strlit("\"T\"");
    reveal_strlit("\"Z\"");
}

/// Distinct pieces have distinct tags.
proof fn lemma_mino_inj(a: Mino, b: Mino)
    requires
        a.enc() == b.enc(),
    ensures
        a == b,
{
    reveal_strlit("\"I\"");
    reveal_strlit("\"J\"");
    reveal_strlit("\"L\"");
    reveal_strlit("\"O\"");
    reveal_strlit("\"S\"");
    reveal_strlit("\"T\"");
    reveal_strlit("\"Z\"");
    assert(a.enc()[1] == b.enc()[1]);
    assert(a.enc().len() == b.enc().len());
    match a {
        Mino::I => assert(a.enc()[1] == 73),
        Mino::J => assert(a.enc()[1] == 74),
        Mino::L => assert(a.enc()[1] == 76),
        Mino::O => assert(a.enc()[1] == 79),
        Mino::S => assert(a.enc()[1] == 83),
        Mino::T => assert(a.enc()[1] == 84),
        Mino::Z => assert(a.enc()[1] == 90),
    }
    match b {
        Mino::I => assert(b.enc()[1] == 73),
        Mino::J => assert(b.enc()[1] == 74),
        Mino::L => assert(b.enc()[1] == 76),
        Mino::O => assert(b.enc()[1] == 79),
        Mino::S => assert(b.enc()[1] == 83),
        Mino::T => assert(b.enc()[1] == 84),
        Mino::Z => assert(b.enc()[1] == 90),
    }
}


impl WireElem for BoardSquare {
    open spec fn wf(&self) -> bool {
        true
    }

    open spec fn enc(&self) -> Seq<u8> {
        match *self {
            BoardSquare::Empty => lit("\"empty\""@),
            BoardSquare::Piece => lit("\"piece\""@),
            BoardSquare::Garbage => lit("\"garbage\""@),
        }
    }

    open spec fn eqv(&self, other: &Self) -> bool {
        *self == *other
    }

    open spec fn compat_after(b: u8) -> bool {
        true
    }

    proof fn lemma_enc_first(&self) {
        lemma_boardsquare_tag(*self);
    }

    proof fn lemma_delims(b: u8) {
    }

    proof fn lemma_eqv_enc(&self, other: &Self) {
    }

    fn emit(&self, out: &mut Vec<u8>) {
        proof {
            lemma_boardsquare_tag(*self);
            reveal_strlit("\"empty\"");
            reveal_strlit("\"piece\"");
            reveal_strlit("\"garbage\"");
        }
        match *self {
            BoardSquare::Empty => emit_lit(out, "\"empty\""),
            BoardSquare::Piece => emit_lit(out, "\"piece\""),
            BoardSquare::Garbage => emit_lit(out, "\"garbage\""),
        }
    }

    fn parse(buf: &[u8], i: usize) -> (r: Option<(usize, Self)>) {
        proof {
            reveal_strlit("\"empty\"");
            reveal_strlit("\"piece\"");
            reveal_strlit("\"garbage\"");
        }
        let mut hit: Option<(usize, BoardSquare)> = None;
        if let Some(j) = expect_lit(buf, i, "\"empty\"") {
            hit = Some((j, BoardSquare::Empty));
        } else if let Some(j) = expect_lit(buf, i, "\"piece\"") {
            hit = Some((j, BoardSquare::Piece));
        } else if let Some(j) = expect_lit(buf, i, "\"garbage\"") {
            hit = Some((j, BoardSquare::Garbage));
        }
        proof {
            if let Some((j, t)) = hit {
                assert forall|v: BoardSquare|
                    v.wf() && starts_at(buf@, i as int, #[trigger] v.enc()) implies v == t by {
                    lemma_boardsquare_tag(v);
                    lemma_boardsquare_tag(t);
                    lemma_quoted_unique(buf@, i as int, v.enc(), t.enc());
                    lemma_boardsquare_inj(v, t);
                }
            }
        }
        hit
    }
}

/// Every tag of this set is a quoted token.
proof fn lemma_boardsquare_tag(v: BoardSquare)
    ensures
        quoted(v.enc()),
        v.enc()[0] == 34,
{
    reveal_strlit("\"empty\"");
    reveal_strlit("\"piece\"");
    reveal_strlit("\"garbage\"");
}

/// Distinct values of this set have distinct tags.
proof fn lemma_boardsquare_inj(a: BoardSquare, b: BoardSquare)
    requires
        a.enc() == b.enc(),
    ensures
        a == b,
{
    reveal_strlit("\"empty\"");
    reveal_strlit("\"piece\"");
    reveal_strlit("\"garbage\"");
    assert(a.enc()[1] == b.enc()[1]);
    assert(a.enc().len() == b.enc().len());
    match a {
        BoardSquare::Empty => {
            assert(a.enc()[1] == 101);
        },
        BoardSquare::Piece => {
            assert(a.enc()[1] == 112);
        },
        BoardSquare::Garbage => {
            assert(a.enc()[1] == 103);
        },
    }
    match b {
        BoardSquare::Empty => {
            assert(b.enc()[1] == 101);
        },
        BoardSquare::Piece => {
            assert(b.enc()[1] == 112);
        },
        BoardSquare::Garbage => {
            assert(b.enc()[1] == 103);
        },
    }
}


impl WireElem for KickTable {
    open spec fn wf(&self) -> bool {
        true
    }

    open spec fn enc(&self) -> Seq<u8> {
        match *self {
            KickTable::SRS => lit("\"SRS\""@),
            KickTable::SRSPlus => lit("\"SRS+\""@),
            KickTable::SRSX => lit("\"SRS-X\""@),
        }
    }

    open spec fn eqv(&self, other: &Self) -> bool {
        *self == *other
    }

    open spec fn compat_after(b: u8) -> bool {
        true
    }

    proof fn lemma_enc_first(&self) {
        lemma_kicktable_tag(*self);
    }

    proof fn lemma_delims(b: u8) {
    }

    proof fn lemma_eqv_enc(&self, other: &Self) {
    }

    fn emit(&self, out: &mut Vec<u8>) {
        proof {
            lemma_kicktable_tag(*self);
            reveal_strlit("\"SRS\"");
            reveal_strlit("\"SRS+\"");
            reveal_strlit("\"SRS-X\"");
        }
        match *self {
            KickTable::SRS => emit_lit(out, "\"SRS\""),
            KickTable::SRSPlus => emit_lit(out, "\"SRS+\""),
            KickTable::SRSX => emit_lit(out, "\"SRS-X\""),
        }
    }

    fn parse(buf: &[u8], i: usize) -> (r: Option<(usize, Self)>) {
        proof {
            reveal_strlit("\"SRS\"");
            reveal_strlit("\"SRS+\"");
            reveal_strlit("\"SRS-X\"");
        }
        let mut hit: Option<(usize, KickTable)> = None;
        if let Some(j) = expect_lit(buf, i, "\"SRS\"") {
            hit = Some((j, KickTable::SRS));
        } else if let Some(j) = expect_lit(buf, i, "\"SRS+\"") {
            hit = Some((j, KickTable::SRSPlus));
        } else if let Some(j) = expect_lit(buf, i, "\"SRS-X\"") {
            hit = Some((j, KickTable::SRSX));
        }
        proof {
            if let Some((j, t)) = hit {
                assert forall|v: KickTable|
                    v.wf() && starts_at(buf@, i as int, #[trigger] v.enc()) implies v == t by {
                    lemma_kicktable_tag(v);
                    lemma_kicktable_tag(t);
                    lemma_quoted_unique(buf@, i as int, v.enc(), t.enc());
                    lemma_kicktable_inj(v, t);
                }
            }
        }
        hit
    }
}

/// Every tag of this set is a quoted token.
proof fn lemma_kicktable_tag(v: KickTable)
    ensures
        quoted(v.enc()),
        v.enc()[0] == 34,
{
    reveal_strlit("\"SRS\"");
    reveal_strlit("\"SRS+\"");
    reveal_strlit("\"SRS-X\"");
}

/// Distinct values of this set have distinct tags.
proof fn lemma_kicktable_inj(a: KickTable, b: KickTable)
    requires
        a.enc() == b.enc(),
    ensures
        a == b,
{
    reveal_strlit("\"SRS\"");
    reveal_strlit("\"SRS+\"");
    reveal_strlit("\"SRS-X\"");
    assert(a.enc()[1] == b.enc()[1]);
    assert(a.enc().len() == b.enc().len());
    match a {
        KickTable::SRS => {
            assert(a.enc().len() == 5);
            assert(a.enc()[1] == 83);
        },
        KickTable::SRSPlus => {
            assert(a.enc().len() == 6);
            assert(a.enc()[1] == 83);
        },
        KickTable::SRSX => {
            assert(a.enc().len() == 7);
            assert(a.enc()[1] == 83);
        },
    }
    match b {
        KickTable::SRS => {
            assert(b.enc().len() == 5);
            assert(b.enc()[1] == 83);
        },
        KickTable::SRSPlus => {
            assert(b.enc().len() == 6);
            assert(b.enc()[1] == 83);
        },
        KickTable::SRSX => {
            assert(b.enc().len() == 7);
            assert(b.enc()[1] == 83);
        },
    }
}


impl WireElem for ComboTable {
    open spec fn wf(&self) -> bool {
        true
    }

    open spec fn enc(&self) -> Seq<u8> {
        match *self {
            ComboTable::NoBonus => lit("\"none\""@),
            ComboTable::Classic => lit("\"classic-guideline\""@),
            ComboTable::Modern => lit("\"modern-guideline\""@),
            ComboTable::Multiplier => lit("\"multiplier\""@),
        }
    }

    open spec fn eqv(&self, other: &Self) -> bool {
        *self == *other
    }

    open spec fn compat_after(b: u8) -> bool {
        true
    }

    proof fn lemma_enc_first(&self) {
        lemma_combotable_tag(*self);
    }

    proof fn lemma_delims(b: u8) {
    }

    proof fn lemma_eqv_enc(&self, other: &Self) {
    }

    fn emit(&self, out: &mut Vec<u8>) {
        proof {
            lemma_combotable_tag(*self);
            reveal_strlit("\"none\"");
            reveal_strlit("\"classic-guideline\"");
            reveal_strlit("\"modern-guideline\"");
            reveal_strlit("\"multiplier\"");
        }
        match *self {
            ComboTable::NoBonus => emit_lit(out, "\"none\""),
            ComboTable::Classic => emit_lit(out, "\"classic-guideline\""),
            ComboTable::Modern => emit_lit(out, "\"modern-guideline\""),
            ComboTable::Multiplier => emit_lit(out, "\"multiplier\""),
        }
    }

    fn parse(buf: &[u8], i: usize) -> (r: Option<(usize, Self)>) {
        proof {
            reveal_strlit("\"none\"");
            reveal_strlit("\"classic-guideline\"");
            reveal_strlit("\"modern-guideline\"");
            reveal_strlit("\"multiplier\"");
        }
        let mut hit: Option<(usize, ComboTable)> = None;
        if let Some(j) = expect_lit(buf, i, "\"none\"") {
            hit = Some((j, ComboTable::NoBonus));
        } else if let Some(j) = expect_lit(buf, i, "\"classic-guideline\"") {
            hit = Some((j, ComboTable::Classic));
        } else if let Some(j) = expect_lit(buf, i, "\"modern-guideline\"") {
            hit = Some((j, ComboTable::Modern));
        } else if let Some(j) = expect_lit(buf, i, "\"multiplier\"") {
            hit = Some((j, ComboTable::Multiplier));
        }
        proof {
            if let Some((j, t)) = hit {
                assert forall|v: ComboTable|
                    v.wf() && starts_at(buf@, i as int, #[trigger] v.enc()) implies v == t by {
                    lemma_combotable_tag(v);
                    lemma_combotable_tag(t);
                    lemma_quoted_unique(buf@, i as int, v.enc(), t.enc());
                    lemma_combotable_inj(v, t);
                }
            }
        }
        hit
    }
}

/// Every tag of this set is a quoted token.
proof fn lemma_combotable_tag(v: ComboTable)
    ensures
        quoted(v.enc()),
        v.enc()[0] == 34,
{
    reveal_strlit("\"none\"");
    reveal_strlit("\"classic-guideline\"");
    reveal_strlit("\"modern-guideline\"");
    reveal_strlit("\"multiplier\"");
}

/// Distinct values of this set have distinct tags.
proof fn lemma_combotable_inj(a: ComboTable, b: ComboTable)
    requires
        a.enc() == b.enc(),
    ensures
        a == b,
{
    reveal_strlit("\"none\"");
    reveal_strlit("\"classic-guideline\"");
    reveal_strlit("\"modern-guideline\"");
    reveal_strlit("\"multiplier\"");
    assert(a.enc()[1] == b.enc()[1]);
    assert(a.enc().len() == b.enc().len());
    match a {
        ComboTable::NoBonus => {
            assert(a.enc().len() == 6);
            assert(a.enc()[1] == 110);
        },
        ComboTable::Classic => {
            assert(a.enc().len() == 19);
            assert(a.enc()[1] == 99);
        },
        ComboTable::Modern => {
            assert(a.enc().len() == 18);
            assert(a.enc()[1] == 109);
        },
        ComboTable::Multiplier => {
            assert(a.enc().len() == 12);
            assert(a.enc()[1] == 109);
        },
    }
    match b {
        ComboTable::NoBonus => {
            assert(b.enc().len() == 6);
            assert(b.enc()[1] == 110);
        },
        ComboTable::Classic => {
            assert(b.enc().len() == 19);
            assert(b.enc()[1] == 99);
        },
        ComboTable::Modern => {
            assert(b.enc().len() == 18);
            assert(b.enc()[1] == 109);
        },
        ComboTable::Multiplier => {
            assert(b.enc().len() == 12);
            assert(b.enc()[1] == 109);
        },
    }
}


impl WireElem for Spins {
    open spec fn wf(&self) -> bool {
        true
    }

    open spec fn enc(&self) -> Seq<u8> {
        match *self {
            Spins::NoSpins => lit("\"none\""@),
            Spins::T => lit("\"T-spins\""@),
            Spins::TPlus => lit("\"T-spins+\""@),
            Spins::Mini => lit("\"all-mini\""@),
            Spins::MiniPlus => lit("\"all-mini+\""@),
            Spins::All => lit("\"all\""@),
            Spins::AllPlus => lit("\"all+\""@),
            Spins::MiniOnly => lit("\"mini-only\""@),
            Spins::Handheld => lit("\"handheld\""@),
            Spins::Stupid => lit("\"stupid\""@),
        }
    }

    open spec fn eqv(&self, other: &Self) -> bool {
        *self == *other
    }

    open spec fn compat_after(b: u8) -> bool {
        true
    }

    proof fn lemma_enc_first(&self) {
        lemma_spins_tag(*self);
    }

    proof fn lemma_delims(b: u8) {
    }

    proof fn lemma_eqv_enc(&self, other: &Self) {
    }

    fn emit(&self, out: &mut Vec<u8>) {
        proof {
            lemma_spins_tag(*self);
            reveal_strlit("\"none\"");
            reveal_strlit("\"T-spins\"");
            reveal_strlit("\"T-spins+\"");
            reveal_strlit("\"all-mini\"");
            reveal_strlit("\"all-mini+\"");
            reveal_strlit("\"all\"");
            reveal_strlit("\"all+\"");
            reveal_strlit("\"mini-only\"");
            reveal_strlit("\"handheld\"");
            reveal_strlit("\"stupid\"");
        }
        match *self {
            Spins::NoSpins => emit_lit(out, "\"none\""),
            Spins::T => emit_lit(out, "\"T-spins\""),
            Spins::TPlus => emit_lit(out, "\"T-spins+\""),
            Spins::Mini => emit_lit(out, "\"all-mini\""),
            Spins::MiniPlus => emit_lit(out, "\"all-mini+\""),
            Spins::All => emit_lit(out, "\"all\""),
            Spins::AllPlus => emit_lit(out, "\"all+\""),
            Spins::MiniOnly => emit_lit(out, "\"mini-only\""),
            Spins::Handheld => emit_lit(out, "\"handheld\""),
            Spins::Stupid => emit_lit(out, "\"stupid\""),
        }
    }

    fn parse(buf: &[u8], i: usize) -> (r: Option<(usize, Self)>) {
        proof {
            reveal_strlit("\"none\"");
            reveal_strlit("\"T-spins\"");
            reveal_strlit("\"T-spins+\"");
            reveal_strlit("\"all-mini\"");
            reveal_strlit("\"all-mini+\"");
            reveal_strlit("\"all\"");
            reveal_strlit("\"all+\"");
            reveal_strlit("\"mini-only\"");
            reveal_strlit("\"handheld\"");
            reveal_strlit("\"stupid\"");
        }
        let mut hit: Option<(usize, Spins)> = None;
        if let Some(j) = expect_lit(buf, i, "\"none\"") {
            hit = Some((j, Spins::NoSpins));
        } else if let Some(j) = expect_lit(buf, i, "\"T-spins\"") {
            hit = Some((j, Spins::T));
        } else if let Some(j) = expect_lit(buf, i, "\"T-spins+\"") {
            hit = Some((j, Spins::TPlus));
        } else if let Some(j) = expect_lit(buf, i, "\"all-mini\"") {
            hit = Some((j, Spins::Mini));
        } else if let Some(j) = expect_lit(buf, i, "\"all-mini+\"") {
            hit = Some((j, Spins::MiniPlus));
        } else if let Some(j) = expect_lit(buf, i, "\"all\"") {
            hit = Some((j, Spins::All));
        } else if let Some(j) = expect_lit(buf, i, "\"all+\"") {
            hit = Some((j, Spins::AllPlus));
        } else if let Some(j) = expect_lit(buf, i, "\"mini-only\"") {
            hit = Some((j, Spins::MiniOnly));
        } else if let Some(j) = expect_lit(buf, i, "\"handheld\"") {
            hit = Some((j, Spins::Handheld));
        } else if let Some(j) = expect_lit(buf, i, "\"stupid\"") {
            hit = Some((j, Spins::Stupid));
        }
        proof {
            if let Some((j, t)) = hit {
                assert forall|v: Spins|
                    v.wf() && starts_at(buf@, i as int, #[trigger] v.enc()) implies v == t by {
                    lemma_spins_tag(v);
                    lemma_spins_tag(t);
                    lemma_quoted_unique(buf@, i as int, v.enc(), t.enc());
                    lemma_spins_inj(v, t);
                }
            }
        }
        hit
    }
}

/// Every tag of this set is a quoted token.
proof fn lemma_spins_tag(v: Spins)
    ensures
        quoted(v.enc()),
        v.enc()[0] == 34,
{
    reveal_strlit("\"none\"");
    reveal_strlit("\"T-spins\"");
    reveal_strlit("\"T-spins+\"");
    reveal_strlit("\"all-mini\"");
    reveal_strlit("\"all-mini+\"");
    reveal_strlit("\"all\"");
    reveal_strlit("\"all+\"");
    reveal_strlit("\"mini-only\"");
    reveal_strlit("\"handheld\"");
    reveal_strlit("\"stupid\"");
}

/// Distinct values of this set have distinct tags.
proof fn lemma_spins_inj(a: Spins, b: Spins)
    requires
        a.enc() == b.enc(),
    ensures
        a == b,
{
    reveal_strlit("\"none\"");
    reveal_strlit("\"T-spins\"");
    reveal_strlit("\"T-spins+\"");
    reveal_strlit("\"all-mini\"");
    reveal_strlit("\"all-mini+\"");
    reveal_strlit("\"all\"");
    reveal_strlit("\"all+\"");
    reveal_strlit("\"mini-only\"");
    reveal_strlit("\"handheld\"");
    reveal_strlit("\"stupid\"");
    assert(a.enc()[1] == b.enc()[1]);
    assert(a.enc().len() == b.enc().len());
    match a {
        Spins::NoSpins => {
            assert(a.enc().len() == 6);
            assert(a.enc()[1] == 110);
        },
        Spins::T => {
            assert(a.enc().len() == 9);
            assert(a.enc()[1] == 84);
        },
        Spins::TPlus => {
            assert(a.enc().len() == 10);
            assert(a.enc()[1] == 84);
        },
        Spins::Mini => {
            assert(a.enc().len() == 10);
            assert(a.enc()[1] == 97);
        },
        Spins::MiniPlus => {
            assert(a.enc().len() == 11);
            assert(a.enc()[1] == 97);
        },
        Spins::All => {
            assert(a.enc().len() == 5);
            assert(a.enc()[1] == 97);
        },
        Spins::AllPlus => {
            assert(a.enc().len() == 6);
            assert(a.enc()[1] == 97);
        },
        Spins::MiniOnly => {
            assert(a.enc().len() == 11);
            assert(a.enc()[1] == 109);
        },
        Spins::Handheld => {
            assert(a.enc().len() == 10);
            assert(a.enc()[1] == 104);
        },
        Spins::Stupid => {
            assert(a.enc().len() == 8);
            assert(a.enc()[1] == 115);
        },
    }
    match b {
        Spins::NoSpins => {
            assert(b.enc().len() == 6);
            assert(b.enc()[1] == 110);
        },
        Spins::T => {
            assert(b.enc().len() == 9);
            assert(b.enc()[1] == 84);
        },
        Spins::TPlus => {
            assert(b.enc().len() == 10);
            assert(b.enc()[1] == 84);
        },
        Spins::Mini => {
            assert(b.enc().len() == 10);
            assert(b.enc()[1] == 97);
        },
        Spins::MiniPlus => {
            assert(b.enc().len() == 11);
            assert(b.enc()[1] == 97);
        },
        Spins::All => {
            assert(b.enc().len() == 5);
            assert(b.enc()[1] == 97);
        },
        Spins::AllPlus => {
            assert(b.enc().len() == 6);
            assert(b.enc()[1] == 97);
        },
        Spins::MiniOnly => {
            assert(b.enc().len() == 11);
            assert(b.enc()[1] == 109);
        },
        Spins::Handheld => {
            assert(b.enc().len() == 10);
            assert(b.enc()[1] == 104);
        },
        Spins::Stupid => {
            assert(b.enc().len() == 8);
            assert(b.enc()[1] == 115);
        },
    }
}


impl WireElem for Move {
    open spec fn wf(&self) -> bool {
        true
    }

    open spec fn enc(&self) -> Seq<u8> {
        match *self {
            Move::NoOp => lit("\"none\""@),
            Move::Left => lit("\"moveLeft\""@),
            Move::Right => lit("\"moveRight\""@),
            Move::SoftDrop => lit("\"softDrop\""@),
            Move::CCW => lit("\"rotateCCW\""@),
            Move::CW => lit("\"rotateCW\""@),
            Move::Flip => lit("\"rotate180\""@),
            Move::DasLeft => lit("\"dasLeft\""@),
            Move::DasRight => lit("\"dasRight\""@),
            Move::Hold => lit("\"hold\""@),
            Move::HardDrop => lit("\"hardDrop\""@),
        }
    }

    open spec fn eqv(&self, other: &Self) -> bool {
        *self == *other
    }

    open spec fn compat_after(b: u8) -> bool {
        true
    }

    proof fn lemma_enc_first(&self) {
        lemma_move_tag(*self);
    }

    proof fn lemma_delims(b: u8) {
    }

    proof fn lemma_eqv_enc(&self, other: &Self) {
    }

    fn emit(&self, out: &mut Vec<u8>) {
        proof {
            lemma_move_tag(*self);
            reveal_strlit("\"none\"");
            reveal_strlit("\"moveLeft\"");
            reveal_strlit("\"moveRight\"");
            reveal_strlit("\"softDrop\"");
            reveal_strlit("\"rotateCCW\"");
            reveal_strlit("\"rotateCW\"");
            reveal_strlit("\"rotate180\"");
            reveal_strlit("\"dasLeft\"");
            reveal_strlit("\"dasRight\"");
            reveal_strlit("\"hold\"");
            reveal_strlit("\"hardDrop\"");
        }
        match *self {
            Move::NoOp => emit_lit(out, "\"none\""),
            Move::Left => emit_lit(out, "\"moveLeft\""),
            Move::Right => emit_lit(out, "\"moveRight\""),
            Move::SoftDrop => emit_lit(out, "\"softDrop\""),
            Move::CCW => emit_lit(out, "\"rotateCCW\""),
            Move::CW => emit_lit(out, "\"rotateCW\""),
            Move::Flip => emit_lit(out, "\"rotate180\""),
            Move::DasLeft => emit_lit(out, "\"dasLeft\""),
            Move::DasRight => emit_lit(out, "\"dasRight\""),
            Move::Hold => emit_lit(out, "\"hold\""),
            Move::HardDrop => emit_lit(out, "\"hardDrop\""),
        }
    }

    fn parse(buf: &[u8], i: usize) -> (r: Option<(usize, Self)>) {
        proof {
            reveal_strlit("\"none\"");
            reveal_strlit("\"moveLeft\"");
            reveal_strlit("\"moveRight\"");
            reveal_strlit("\"softDrop\"");
            reveal_strlit("\"rotateCCW\"");
            reveal_strlit("\"rotateCW\"");
            reveal_strlit("\"rotate180\"");
            reveal_strlit("\"dasLeft\"");
            reveal_strlit("\"dasRight\"");
            reveal_strlit("\"hold\"");
            reveal_strlit("\"hardDrop\"");
        }
        let mut hit: Option<(usize, Move)> = None;
        if let Some(j) = expect_lit(buf, i, "\"none\"") {
            hit = Some((j, Move::NoOp));
        } else if let Some(j) = expect_lit(buf, i, "\"moveLeft\"") {
            hit = Some((j, Move::Left));
        } else if let Some(j) = expect_lit(buf, i, "\"moveRight\"") {
            hit = Some((j, Move::Right));
        } else if let Some(j) = expect_lit(buf, i, "\"softDrop\"") {
            hit = Some((j, Move::SoftDrop));
        } else if let Some(j) = expect_lit(buf, i, "\"rotateCCW\"") {
            hit = Some((j, Move::CCW));
        } else if let Some(j) = expect_lit(buf, i, "\"rotateCW\"") {
            hit = Some((j, Move::CW));
        } else if let Some(j) = expect_lit(buf, i, "\"rotate180\"") {
            hit = Some((j, Move::Flip));
        } else if let Some(j) = expect_lit(buf, i, "\"dasLeft\"") {
            hit = Some((j, Move::DasLeft));
        } else if let Some(j) = expect_lit(buf, i, "\"dasRight\"") {
            hit = Some((j, Move::DasRight));
        } else if let Some(j) = expect_lit(buf, i, "\"hold\"") {
            hit = Some((j, Move::Hold));
        } else if let Some(j) = expect_lit(buf, i, "\"hardDrop\"") {
            hit = Some((j, Move::HardDrop));
        }
        proof {
            if let Some((j, t)) = hit {
                assert forall|v: Move|
                    v.wf() && starts_at(buf@, i as int, #[trigger] v.enc()) implies v == t by {
                    lemma_move_tag(v);
                    lemma_move_tag(t);
                    lemma_quoted_unique(buf@, i as int, v.enc(), t.enc());
                    lemma_move_inj(v, t);
                }
            }
        }
        hit
    }
}

/// Every tag of this set is a quoted token.
proof fn lemma_move_tag(v: Move)
    ensures
        quoted(v.enc()),
        v.enc()[0] == 34,
{
    reveal_strlit("\"none\"");
    reveal_strlit("\"moveLeft\"");
    reveal_strlit("\"moveRight\"");
    reveal_strlit("\"softDrop\"");
    reveal_strlit("\"rotateCCW\"");
    reveal_strlit("\"rotateCW\"");
    reveal_strlit("\"rotate180\"");
    reveal_strlit("\"dasLeft\"");
    reveal_strlit("\"dasRight\"");
    reveal_strlit("\"hold\"");
    reveal_strlit("\"hardDrop\"");
}

/// Distinct values of this set have distinct tags.
proof fn lemma_move_inj(a: Move, b: Move)
    requires
        a.enc() == b.enc(),
    ensures
        a == b,
{
    reveal_strlit("\"none\"");
    reveal_strlit("\"moveLeft\"");
    reveal_strlit("\"moveRight\"");
    reveal_strlit("\"softDrop\"");
    reveal_strlit("\"rotateCCW\"");
    reveal_strlit("\"rotateCW\"");
    reveal_strlit("\"rotate180\"");
    reveal_strlit("\"dasLeft\"");
    reveal_strlit("\"dasRight\"");
    reveal_strlit("\"hold\"");
    reveal_strlit("\"hardDrop\"");
    assert(a.enc()[1] == b.enc()[1]);
    assert(a.enc().len() == b.enc().len());
    assert(a.enc()[7] == b.enc()[7]);
    match a {
        Move::NoOp => {
            assert(a.enc().len() == 6);
            assert(a.enc()[1] == 110);
        },
        Move::Left => {
            assert(a.enc().len() == 10);
            assert(a.enc()[1] == 109);
            assert(a.enc()[7] == 102);
        },
        Move::Right => {
            assert(a.enc().len() == 11);
            assert(a.enc()[1] == 109);
            assert(a.enc()[7] == 103);
        },
        Move::SoftDrop => {
            assert(a.enc().len() == 10);
            assert(a.enc()[1] == 115);
            assert(a.enc()[7] == 111);
        },
        Move::CCW => {
            assert(a.enc().len() == 11);
            assert(a.enc()[1] == 114);
            assert(a.enc()[7] == 67);
        },
        Move::CW => {
            assert(a.enc().len() == 10);
            assert(a.enc()[1] == 114);
            assert(a.enc()[7] == 67);
        },
        Move::Flip => {
            assert(a.enc().len() == 11);
            assert(a.enc()[1] == 114);
            assert(a.enc()[7] == 49);
        },
        Move::DasLeft => {
            assert(a.enc().len() == 9);
            assert(a.enc()[1] == 100);
            assert(a.enc()[7] == 116);
        },
        Move::DasRight => {
            assert(a.enc().len() == 10);
            assert(a.enc()[1] == 100);
            assert(a.enc()[7] == 104);
        },
        Move::Hold => {
            assert(a.enc().len() == 6);
            assert(a.enc()[1] == 104);
        },
        Move::HardDrop => {
            assert(a.enc().len() == 10);
            assert(a.enc()[1] == 104);
            assert(a.enc()[7] == 111);
        },
    }
    match b {
        Move::NoOp => {
            assert(b.enc().len() == 6);
            assert(b.enc()[1] == 110);
        },
        Move::Left => {
            assert(b.enc().len() == 10);
            assert(b.enc()[1] == 109);
            assert(b.enc()[7] == 102);
        },
        Move::Right => {
            assert(b.enc().len() == 11);
            assert(b.enc()[1] == 109);
            assert(b.enc()[7] == 103);
        },
        Move::SoftDrop => {
            assert(b.enc().len() == 10);
            assert(b.enc()[1] == 115);
            assert(b.enc()[7] == 111);
        },
        Move::CCW => {
            assert(b.enc().len() == 11);
            assert(b.enc()[1] == 114);
            assert(b.enc()[7] == 67);
        },
        Move::CW => {
            assert(b.enc().len() == 10);
            assert(b.enc()[1] == 114);
            assert(b.enc()[7] == 67);
        },
        Move::Flip => {
            assert(b.enc().len() == 11);
            assert(b.enc()[1] == 114);
            assert(b.enc()[7] == 49);
        },
        Move::DasLeft => {
            assert(b.enc().len() == 9);
            assert(b.enc()[1] == 100);
            assert(b.enc()[7] == 116);
        },
        Move::DasRight => {
            assert(b.enc().len() == 10);
            assert(b.enc()[1] == 100);
            assert(b.enc()[7] == 104);
        },
        Move::Hold => {
            assert(b.enc().len() == 6);
            assert(b.enc()[1] == 104);
        },
        Move::HardDrop => {
            assert(b.enc().len() == 10);
            assert(b.enc()[1] == 104);
            assert(b.enc()[7] == 111);
        },
    }
}

impl WireElem for Option<Mino> {
    open spec fn wf(&self) -> bool {
        true
    }

    open spec fn enc(&self) -> Seq<u8> {
        match *self {
            Option::None => lit("null"@),
            Option::Some(m) => m.enc(),
        }
    }

    open spec fn eqv(&self, other: &Self) -> bool {
        *self == *other
    }

    open spec fn compat_after(b: u8) -> bool {
        true
    }

    proof fn lemma_enc_first(&self) {
        reveal_strlit("null");
        if let Some(m) = *self {
            lemma_mino_tag(m);
        }
    }

    proof fn lemma_delims(b: u8) {
    }

    proof fn lemma_eqv_enc(&self, other: &Self) {
    }

    fn emit(&self, out: &mut Vec<u8>) {
        proof {
            reveal_strlit("null");
        }
        match self {
            Option::None => emit_lit(out, "null"),
            Option::Some(m) => m.emit(out),
        }
    }

    fn parse(buf: &[u8], i: usize) -> (r: Option<(usize, Self)>) {
        proof {
            reveal_strlit("null");
        }
        if let Some(j) = expect_lit(buf, i, "null") {
            proof {
                assert forall|v: Option<Mino>|
                    v.wf() && starts_at(buf@, i as int, #[trigger] v.enc()) implies v is None by {
                    if let Some(m) = v {
                        lemma_mino_tag(m);
                        assert(buf@[i as int] == m.enc()[0]);
                        assert(buf@[i as int] == lit("null"@)[0]);
                    }
                }
            }
            return Some((j, None));
        }
        match Mino::parse(buf, i) {
            Some((j, m)) => {
                proof {
                    assert forall|v: Option<Mino>|
                        v.wf() && starts_at(buf@, i as int, #[trigger] v.enc()) implies j == i
                        + v.enc().len() && Some::<Mino>(m).eqv(&v) by {
                        if let Some(m2) = v {
                            assert(starts_at(buf@, i as int, m2.enc()));
                        }
                    }
                }
                Some((j, Some(m)))
            },
            None => {
                proof {
                    assert forall|v: Option<Mino>|
                        v.wf() && starts_at(buf@, i as int, #[trigger] v.enc()) implies false by {
                        if let Some(m2) = v {
                            assert(starts_at(buf@, i as int, m2.enc()));
                        }
                    }
                }
                None
            },
        }
    }
}

impl WireElem for AsciiText {
    open spec fn wf(&self) -> bool {
        AsciiText::wf(*self)
    }

    open spec fn enc(&self) -> Seq<u8> {
        seq![34u8] + self.0@ + seq![34u8]
    }

    open spec fn eqv(&self, other: &Self) -> bool {
        self.0@ == other.0@
    }

    open spec fn compat_after(b: u8) -> bool {
        true
    }

    proof fn lemma_enc_first(&self) {
        assert(self.enc()[0] == 34);
    }

    proof fn lemma_delims(b: u8) {
    }

    proof fn lemma_eqv_enc(&self, other: &Self) {
        assert(self.enc() =~= other.enc());
    }

    fn emit(&self, out: &mut Vec<u8>) {
        out.push(34);
        out.extend_from_slice(self.0.as_slice());
        out.push(34);
        proof {
            assert(final(out)@ =~= old(out)@ + self.enc());
        }
    }

    fn parse(buf: &[u8], i: usize) -> (r: Option<(usize, Self)>) {
        if i == buf.len() || buf[i] != 34 {
            proof {
                assert forall|v: AsciiText|
                    v.wf() && starts_at(buf@, i as int, #[trigger] v.enc()) implies false by {
                    assert(buf@[i as int] == v.enc()[0]);
                }
            }
            return None;
        }
        let mut bytes: Vec<u8> = Vec::new();
        let mut pos: usize = i + 1;
        loop
            invariant
                i + 1 <= pos <= buf@.len(),
                i < buf@.len(),
                buf@[i as int] == 34,
                pos == i + 1 + bytes@.len(),
                bytes@ == buf@.subrange(i as int + 1, pos as int),
                forall|k: int|
                    0 <= k < bytes@.len() ==> 32 <= #[trigger] bytes@[k] <= 126 && bytes@[k] != 34
                        && bytes@[k] != 92,
                forall|v: AsciiText|
                    v.wf() && starts_at(buf@, i as int, #[trigger] v.enc()) ==> bytes@.len()
                        <= v.0@.len() && bytes@ == v.0@.take(bytes@.len() as int),
            decreases buf@.len() - pos,
        {
            proof {
                assert forall|v: AsciiText|
                    v.wf() && starts_at(buf@, i as int, #[trigger] v.enc()) implies pos < buf@.len()
                    && (bytes@.len() < v.0@.len() ==> buf@[pos as int] == v.0@[bytes@.len() as int])
                    && (bytes@.len() == v.0@.len() ==> buf@[pos as int] == 34) by {
                    let n = bytes@.len() as int;
                    assert(v.enc().len() == v.0@.len() + 2);
                    assert(i + v.enc().len() <= buf@.len());
                    if n < v.0@.len() {
                        assert(buf@[i + (1 + n)] == v.enc()[1 + n]);
                        assert(v.enc()[1 + n] == v.0@[n]);
                    } else {
                        assert(buf@[i + (1 + n)] == v.enc()[1 + n]);
                        assert(v.enc()[1 + n] == 34);
                    }
                }
            }
            if pos == buf.len() {
                return None;
            }
            let b = buf[pos];
            if b == 34 {
                proof {
                    assert(starts_at(buf@, i as int, seq![34u8] + bytes@ + seq![34u8])) by {
                        assert forall|k: int|
                            0 <= k < (seq![34u8] + bytes@ + seq![34u8]).len() implies buf@[i + k]
                            == #[trigger] (seq![34u8] + bytes@ + seq![34u8])[k] by {
                            if k == 0 {
                            } else if k <= bytes@.len() {
                                assert(bytes@[k - 1] == buf@[i + 1 + (k - 1)]);
                            }
                        }
                    }
                    assert forall|v: AsciiText|
                        v.wf() && starts_at(buf@, i as int, #[trigger] v.enc()) implies v.0@
                        == bytes@ by {
                        if bytes@.len() < v.0@.len() {
                            assert(buf@[pos as int] == v.0@[bytes@.len() as int]);
                        }
                        assert(v.0@ =~= bytes@);
                    }
                }
                return Some((pos + 1, AsciiText(bytes)));
            }
            if b < 32 || b > 126 || b == 92 {
                proof {
                    assert forall|v: AsciiText|
                        v.wf() && starts_at(buf@, i as int, #[trigger] v.enc()) implies false by {
                        if bytes@.len() < v.0@.len() {
                            assert(buf@[pos as int] == v.0@[bytes@.len() as int]);
                        } else {
                            assert(buf@[pos as int] == 34);
                        }
                    }
                }
                return None;
            }
            bytes.push(b);
            pos = pos + 1;
            proof {
                assert(bytes@ =~= buf@.subrange(i as int + 1, pos as int));
                assert forall|v: AsciiText|
                    v.wf() && starts_at(buf@, i as int, #[trigger] v.enc()) implies bytes@.len()
                    <= v.0@.len() && bytes@ == v.0@.take(bytes@.len() as int) by {
                    assert(bytes@.len() <= v.0@.len()) by {
                        if bytes@.len() > v.0@.len() {
                            assert(buf@[pos as int - 1] == 34);
                        }
                    }
                    assert(bytes@ =~= v.0@.take(bytes@.len() as int));
                }
            }
        }
    }
}

} // verus!
