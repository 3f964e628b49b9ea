//! Domain model: the closed sets of piece kinds, board cells, rule-table
//! selectors and input actions, plus the validated per-session rule snapshot.

use vstd::prelude::*;

verus! {

/// One of the seven canonical falling-piece shapes.
#[derive(Clone, Copy, Debug, PartialEq, Eq, Structural)]
pub enum Mino {
    I,
    J,
    L,
    O,
    S,
    T,
    Z,
}

/// The state of one playfield cell.
#[derive(Clone, Copy, Debug, PartialEq, Eq, Structural)]
pub enum BoardSquare {
    Empty,
    Piece,
    Garbage,
}

/// Rotation-resolution ruleset selector.
#[derive(Clone, Copy, Debug, PartialEq, Eq, Structural)]
pub enum KickTable {
    SRS,
    SRSPlus,
    SRSX,
}

/// Policy mapping combo length to a bonus.
#[derive(Clone, Copy, Debug, PartialEq, Eq, Structural)]
pub enum ComboTable {
    NoBonus,
    Classic,
    Modern,
    Multiplier,
}

/// Policy for awarding spin bonuses.
#[derive(Clone, Copy, Debug, PartialEq, Eq, Structural)]
pub enum Spins {
    NoSpins,
    T,
    TPlus,
    Mini,
    MiniPlus,
    All,
    AllPlus,
    MiniOnly,
    Handheld,
    Stupid,
}

/// One discrete control the agent can emit in a `move` response.
#[derive(Clone, Copy, Debug, PartialEq, Eq, Structural)]
pub enum Move {
    NoOp,
    Left,
    Right,
    SoftDrop,
    CCW,
    CW,
    Flip,
    DasLeft,
    DasRight,
    Hold,
    HardDrop,
}

/// A validated session-wide rule snapshot.  Built from a wire `config`
/// message once its values pass validation; immutable for the rest of the
/// session.  The garbage multiplier is held exactly as an integer number of
/// thousandths.
#[derive(Clone, Copy, Debug, PartialEq, Eq, Structural)]
pub struct GameConfig {
    pub board_width: u16,
    pub board_height: u16,
    pub kicks: KickTable,
    pub spins: Spins,
    pub b2b_charging: bool,
    pub b2b_charge_at: i16,
    pub b2b_charge_base: i16,
    pub b2b_chaining: bool,
    pub combo_table: ComboTable,
    pub garbage_multiplier_milli: u32,
    pub pc_b2b: u16,
    pub pc_send: u16,
    pub garbage_special_bonus: bool,
}

} // verus!
