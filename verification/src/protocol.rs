//! Message schema: the tagged-union shapes carried by the line-delimited
//! transport, one self-contained message per line.

use vstd::prelude::*;

use crate::data::{BoardSquare, ComboTable, KickTable, Mino, Move, Spins};

verus! {

/// An exact non-negative-or-negative decimal number held as an integer count
/// of thousandths, so that the fractional wire values (such as a garbage
/// multiplier of one and a half) are represented without floating point.
#[derive(Clone, Copy, Debug, PartialEq, Eq, Structural)]
pub struct Milli(pub i64);

/// A quoted wire string, held as its bytes.  Well-formed when every byte is
/// printable ASCII and needs no JSON escape (see [`AsciiText::wf`]).
#[derive(Clone, Debug)]
pub struct AsciiText(pub Vec<u8>);

impl AsciiText {
    /// Every byte printable ASCII, no quote, no backslash: such a string is
    /// carried on the wire between quotes with no escaping.
    pub open spec fn wf(self) -> bool {
        forall|k: int|
            0 <= k < self.0@.len() ==> 32 <= #[trigger] self.0@[k] <= 126 && self.0@[k] != 34
                && self.0@[k] != 92
    }
}

/// The `config` message: a full rule snapshot plus an initial piece queue.
/// Field values are as received; validation happens when the session applies
/// the message.
pub struct Config {
    pub board_width: i32,
    pub board_height: i32,
    pub kicks: KickTable,
    pub spins: Spins,
    pub combo_table: ComboTable,
    pub b2b_charging: bool,
    pub b2b_charge_at: i32,
    pub b2b_charge_base: i32,
    pub b2b_chaining: bool,
    pub garbage_multiplier: Milli,
    pub garbage_cap: i32,
    pub garbage_special_bonus: bool,
    pub pc_b2b: i32,
    pub pc_garbage: i32,
    pub queue: Vec<Mino>,
}

/// The `state` message: a full refresh of the mutable session state.
pub struct State {
    pub board: Vec<Vec<BoardSquare>>,
    pub current: Mino,
    pub hold: Option<Mino>,
    pub queue: Vec<Mino>,
    pub garbage: Vec<i32>,
    pub combo: i32,
    pub b2b: i32,
}

/// The `pieces` message: pieces to append to the end of the queue.
pub struct Pieces {
    pub pieces: Vec<Mino>,
}

/// The `play` message: a turn request with its turn-scoped garbage
/// parameters.
pub struct Play {
    pub garbage_multiplier: Milli,
    pub garbage_cap: i32,
}

/// One decoded incoming message, discriminated on the wire by its `type` tag.
pub enum Incoming {
    Config(Config),
    State(State),
    Pieces(Pieces),
    Play(Play),
}

/// One outgoing message: the single `info` greeting, or the `move` response
/// to a turn request.
pub enum Outgoing {
    Info { name: AsciiText, version: AsciiText, author: AsciiText },
    Move { keys: Vec<Move> },
}

} // verus!
