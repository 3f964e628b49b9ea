//! Session state machine and turn dispatch.
//!
//! A session moves `Uninitialized` -> `Configured` -> `Ready` as messages
//! arrive.  [`Session::step`] applies one incoming message: a `config`
//! message (re)configures the session after validation, a `state` message
//! refreshes the mutable game state, a `pieces` message appends to the piece
//! queue, and a `play` message — valid only while `Ready` — yields exactly
//! one `move` response.  A message that is illegal for the current phase is
//! discarded with a recoverable error and the session is left unchanged.

use vstd::prelude::*;

use crate::data::{BoardSquare, GameConfig, Mino, Move};
use crate::protocol::{Config, Incoming, Outgoing, State};

verus! {

/// Lifecycle phase of a session.
#[derive(Clone, Copy, Debug, PartialEq, Eq, Structural)]
pub enum Phase {
    /// No rule configuration received yet.
    Uninitialized,
    /// Rules are set; no full game state received yet.
    Configured,
    /// At least one full `state` message has been applied.
    Ready,
}

/// The error taxonomy of the dispatch layer.  `Configuration` is fatal (no
/// safe default ruleset exists); the others are recoverable.
#[derive(Clone, Copy, Debug, PartialEq, Eq, Structural)]
pub enum SessionError {
    /// Message valid in schema but illegal for the current session state;
    /// the message is discarded and the loop continues.
    StateTransition,
    /// Invalid rule configuration values; the session cannot operate.
    Configuration,
    /// The move chooser produced no usable action sequence; a safe fallback
    /// was emitted in its place.
    MoveChooserFailure,
}

impl SessionError {
    /// Whether the loop must terminate on this error.
    pub fn is_fatal(&self) -> (r: bool)
        ensures
            r == (*self == SessionError::Configuration),
    {
        matches!(*self, SessionError::Configuration)
    }
}

/// What one step of the dispatcher produced: at most one response to write,
/// and at most one error to surface.
pub struct StepOutcome {
    pub response: Option<Outgoing>,
    pub error: Option<SessionError>,
}

/// A wire `config` message carries acceptable rule values: positive board
/// dimensions that fit the validated snapshot, a non-negative garbage
/// multiplier, charge thresholds that fit and are mutually consistent, and
/// perfect-clear bonuses in range.
pub open spec fn valid_config(c: Config) -> bool {
    &&& 0 < c.board_width <= u16::MAX
    &&& 0 < c.board_height <= u16::MAX
    &&& i16::MIN <= c.b2b_charge_at <= i16::MAX
    &&& i16::MIN <= c.b2b_charge_base <= i16::MAX
    &&& (c.b2b_charging ==> c.b2b_charge_base <= c.b2b_charge_at)
    &&& 0 <= c.garbage_multiplier.0 <= u32::MAX
    &&& 0 <= c.pc_b2b <= u16::MAX
    &&& 0 <= c.pc_garbage <= u16::MAX
}

/// The validated snapshot that a valid wire `config` yields.
pub open spec fn spec_game_config(c: Config) -> GameConfig {
    GameConfig {
        board_width: c.board_width as u16,
        board_height: c.board_height as u16,
        kicks: c.kicks,
        spins: c.spins,
        b2b_charging: c.b2b_charging,
        b2b_charge_at: c.b2b_charge_at as i16,
        b2b_charge_base: c.b2b_charge_base as i16,
        b2b_chaining: c.b2b_chaining,
        combo_table: c.combo_table,
        garbage_multiplier_milli: c.garbage_multiplier.0 as u32,
        pc_b2b: c.pc_b2b as u16,
        pc_send: c.pc_garbage as u16,
        garbage_special_bonus: c.garbage_special_bonus,
    }
}

/// Validate a wire `config` message, returning the rule snapshot exactly
/// when every value is acceptable.
pub fn validate_config(c: &Config) -> (r: Option<GameConfig>)
    ensures
        r is Some <==> valid_config(*c),
        r matches Some(g) ==> g == spec_game_config(*c),
{
    if 0 < c.board_width && c.board_width <= u16::MAX as i32 && 0 < c.board_height
        && c.board_height <= u16::MAX as i32 && i16::MIN as i32 <= c.b2b_charge_at
        && c.b2b_charge_at <= i16::MAX as i32 && i16::MIN as i32 <= c.b2b_charge_base
        && c.b2b_charge_base <= i16::MAX as i32 && (!c.b2b_charging || c.b2b_charge_base
        <= c.b2b_charge_at) && 0 <= c.garbage_multiplier.0 && c.garbage_multiplier.0
        <= u32::MAX as i64 && 0 <= c.pc_b2b && c.pc_b2b <= u16::MAX as i32 && 0 <= c.pc_garbage
        && c.pc_garbage <= u16::MAX as i32 {
        Some(
            GameConfig {
                board_width: c.board_width as u16,
                board_height: c.board_height as u16,
                kicks: c.kicks,
                spins: c.spins,
                b2b_charging: c.b2b_charging,
                b2b_charge_at: c.b2b_charge_at as i16,
                b2b_charge_base: c.b2b_charge_base as i16,
                b2b_chaining: c.b2b_chaining,
                combo_table: c.combo_table,
                garbage_multiplier_milli: c.garbage_multiplier.0 as u32,
                pc_b2b: c.pc_b2b as u16,
                pc_send: c.pc_garbage as u16,
                garbage_special_bonus: c.garbage_special_bonus,
            },
        )
    } else {
        None
    }
}

/// A board matches the configured dimensions: exactly `height` rows, each of
/// exactly `width` cells.
pub open spec fn spec_board_ok(board: Seq<Vec<BoardSquare>>, width: int, height: int) -> bool {
    &&& board.len() == height
    &&& forall|r: int| 0 <= r < board.len() ==> (#[trigger] board[r])@.len() == width
}

/// Garbage row counts are never negative.
pub open spec fn spec_garbage_ok(garbage: Seq<i32>) -> bool {
    forall|k: int| 0 <= k < garbage.len() ==> #[trigger] garbage[k] >= 0
}

/// A `state` message fits a rule snapshot when its board has the configured
/// dimensions and its garbage queue holds no negative amount.
pub open spec fn state_fits(s: State, g: GameConfig) -> bool {
    &&& spec_board_ok(s.board@, g.board_width as int, g.board_height as int)
    &&& spec_garbage_ok(s.garbage@)
}

fn check_board(board: &Vec<Vec<BoardSquare>>, width: u16, height: u16) -> (r: bool)
    ensures
        r == spec_board_ok(board@, width as int, height as int),
{
    if board.len() != height as usize {
        return false;
    }
    let mut r: usize = 0;
    while r < board.len()
        invariant
            r <= board@.len(),
            forall|k: int| 0 <= k < r ==> (#[trigger] board@[k])@.len() == width as int,
        decreases board@.len() - r,
    {
        if board[r].len() != width as usize {
            return false;
        }
        r = r + 1;
    }
    true
}

fn check_garbage(garbage: &Vec<i32>) -> (r: bool)
    ensures
        r == spec_garbage_ok(garbage@),
{
    let mut k: usize = 0;
    while k < garbage.len()
        invariant
            k <= garbage@.len(),
            forall|j: int| 0 <= j < k ==> #[trigger] garbage@[j] >= 0,
        decreases garbage@.len() - k,
    {
        if garbage[k] < 0 {
            return false;
        }
        k = k + 1;
    }
    true
}

/// An action sequence the dispatcher may emit: non-empty and terminated by a
/// lock-inducing hard drop, so the engine's turn always completes.
pub open spec fn playable(keys: Seq<Move>) -> bool {
    keys.len() > 0 && keys[keys.len() - 1] == Move::HardDrop
}

/// Whether the external move chooser supplied a usable sequence.
pub open spec fn chooser_ok(chosen: Option<Vec<Move>>) -> bool {
    chosen matches Some(v) && playable(v@)
}

/// The action sequence a `play` response carries: the chooser's sequence
/// when usable, else the safe fallback of a single hard drop.
pub open spec fn response_keys(chosen: Option<Vec<Move>>) -> Seq<Move> {
    match chosen {
        Some(v) => if playable(v@) {
            v@
        } else {
            seq![Move::HardDrop]
        },
        None => seq![Move::HardDrop],
    }
}

/// The effect of a `pieces` message on the piece queue: the new pieces go to
/// the back, in order; nothing is reordered or dropped.
pub open spec fn apply_pieces(queue: Seq<Mino>, pieces: Seq<Mino>) -> Seq<Mino> {
    queue + pieces
}

/// Appending pieces in two messages yields the same queue as one message
/// carrying both batches in order: batching of `pieces` messages cannot
/// change the final queue.
pub proof fn lemma_pieces_append_order(queue: Seq<Mino>, first: Seq<Mino>, second: Seq<Mino>)
    ensures
        apply_pieces(apply_pieces(queue, first), second) == apply_pieces(queue, first + second),
{
    assert(apply_pieces(apply_pieces(queue, first), second) =~= apply_pieces(
        queue,
        first + second,
    ));
}

/// Per-connection session state, owned exclusively by the dispatch loop.
pub struct Session {
    pub phase: Phase,
    pub config: Option<GameConfig>,
    pub board: Vec<Vec<BoardSquare>>,
    pub current: Option<Mino>,
    pub hold: Option<Mino>,
    pub queue: Vec<Mino>,
    pub garbage: Vec<i32>,
    pub combo: i32,
    pub b2b: i32,
}

impl Session {
    /// A session always carries a rule snapshot once past `Uninitialized`,
    /// and a `Ready` session's game state fits that snapshot.
    pub open spec fn wf(self) -> bool {
        &&& (self.phase != Phase::Uninitialized ==> self.config is Some)
        &&& (self.phase == Phase::Ready ==> {
            &&& self.config matches Some(g) && spec_board_ok(
                self.board@,
                g.board_width as int,
                g.board_height as int,
            )
            &&& self.current is Some
            &&& spec_garbage_ok(self.garbage@)
        })
    }

    /// A fresh, unconfigured session.
    pub fn new() -> (s: Session)
        ensures
            s.wf(),
            s.phase == Phase::Uninitialized,
            s.config is None,
            s.queue@.len() == 0,
    {
        Session {
            phase: Phase::Uninitialized,
            config: None,
            board: Vec::new(),
            current: None,
            hold: None,
            queue: Vec::new(),
            garbage: Vec::new(),
            combo: 0,
            b2b: 0,
        }
    }

    /// Apply one incoming message, in arrival order.  `chosen` is the
    /// external move chooser's answer for this turn (consulted only for a
    /// `play` message in a `Ready` session; pass `None` otherwise).
    ///
    /// The contract pins every case: a valid `config` atomically replaces
    /// the whole rule snapshot and reseeds the queue; a fitting `state`
    /// replaces the game state wholesale; `pieces` appends to the queue and
    /// changes nothing else; a `play` while `Ready` yields exactly one
    /// non-empty `move` response and leaves the session unchanged; any
    /// message illegal for the current phase is discarded with a recoverable
    /// error; and no message but `play` ever produces a response.
    pub fn step(&mut self, msg: Incoming, chosen: Option<Vec<Move>>) -> (out: StepOutcome)
        requires
            old(self).wf(),
        ensures
            final(self).wf(),
            // only a play in a ready session produces a response, and then a move
            (out.response is Some) <==> (msg is Play && old(self).phase == Phase::Ready),
            out.response matches Some(o) ==> (o matches Outgoing::Move { keys } && keys@
                == response_keys(chosen) && playable(keys@)),
            // the rule snapshot changes only through a config message
            !(msg is Config) ==> final(self).config == old(self).config,
            // config: full, atomic reconfiguration on valid values, fatal error otherwise
            msg matches Incoming::Config(c) ==> (if valid_config(c) {
                &&& final(self).phase == Phase::Configured
                &&& final(self).config == Some(spec_game_config(c))
                &&& final(self).queue == c.queue
                &&& final(self).board@.len() == 0
                &&& final(self).current is None
                &&& final(self).hold is None
                &&& final(self).garbage@.len() == 0
                &&& final(self).combo == 0
                &&& final(self).b2b == 0
                &&& out.error is None
            } else {
                &&& *final(self) == *old(self)
                &&& out.error == Some(SessionError::Configuration)
            }),
            // state: wholesale replacement when legal and fitting
            msg matches Incoming::State(s) ==> (if old(self).phase == Phase::Uninitialized {
                &&& *final(self) == *old(self)
                &&& out.error == Some(SessionError::StateTransition)
            } else if old(self).config matches Some(g) && state_fits(s, g) {
                &&& final(self).phase == Phase::Ready
                &&& final(self).config == old(self).config
                &&& final(self).board == s.board
                &&& final(self).current == Some(s.current)
                &&& final(self).hold == s.hold
                &&& final(self).queue == s.queue
                &&& final(self).garbage == s.garbage
                &&& final(self).combo == s.combo
                &&& final(self).b2b == s.b2b
                &&& out.error is None
            } else {
                &&& *final(self) == *old(self)
                &&& out.error == Some(SessionError::StateTransition)
            }),
            // pieces: append at the back, touch nothing else
            msg matches Incoming::Pieces(p) ==> (if old(self).phase == Phase::Uninitialized {
                &&& *final(self) == *old(self)
                &&& out.error == Some(SessionError::StateTransition)
            } else {
                &&& final(self).queue@ == apply_pieces(old(self).queue@, p.pieces@)
                &&& final(self).phase == old(self).phase
                &&& final(self).config == old(self).config
                &&& final(self).board == old(self).board
                &&& final(self).current == old(self).current
                &&& final(self).hold == old(self).hold
                &&& final(self).garbage == old(self).garbage
                &&& final(self).combo == old(self).combo
                &&& final(self).b2b == old(self).b2b
                &&& out.error is None
            }),
            // play: never mutates; exactly one response while ready
            msg is Play ==> *final(self) == *old(self),
            msg is Play ==> (if old(self).phase == Phase::Ready {
                out.error == (if chooser_ok(chosen) {
                    Option::<SessionError>::None
                } else {
                    Some(SessionError::MoveChooserFailure)
                })
            } else {
                out.error == Some(SessionError::StateTransition)
            }),
    {
        match msg {
            Incoming::Config(c) => {
                match validate_config(&c) {
                    Some(g) => {
                        self.phase = Phase::Configured;
                        self.config = Some(g);
                        self.board = Vec::new();
                        self.current = None;
                        self.hold = None;
                        self.queue = c.queue;
                        self.garbage = Vec::new();
                        self.combo = 0;
                        self.b2b = 0;
                        StepOutcome { response: None, error: None }
                    },
                    None => StepOutcome {
                        response: None,
                        error: Some(SessionError::Configuration),
                    },
                }
            },
            Incoming::State(s) => {
                if matches!(self.phase, Phase::Uninitialized) {
                    StepOutcome { response: None, error: Some(SessionError::StateTransition) }
                } else {
                    let fits = match &self.config {
                        Some(g) => check_board(&s.board, g.board_width, g.board_height)
                            && check_garbage(&s.garbage),
                        None => false,
                    };
                    if fits {
                        self.phase = Phase::Ready;
                        self.board = s.board;
                        self.current = Some(s.current);
                        self.hold = s.hold;
                        self.queue = s.queue;
                        self.garbage = s.garbage;
                        self.combo = s.combo;
                        self.b2b = s.b2b;
                        StepOutcome { response: None, error: None }
                    } else {
                        StepOutcome { response: None, error: Some(SessionError::StateTransition) }
                    }
                }
            },
            Incoming::Pieces(p) => {
                if matches!(self.phase, Phase::Uninitialized) {
                    StepOutcome { response: None, error: Some(SessionError::StateTransition) }
                } else {
                    let mut incoming_pieces = p.pieces;
                    self.queue.append(&mut incoming_pieces);
                    StepOutcome { response: None, error: None }
                }
            },
            Incoming::Play(_) => {
                if matches!(self.phase, Phase::Ready) {
                    let (keys, failed) = match chosen {
                        Some(v) => {
                            if v.len() > 0 && v[v.len() - 1] == Move::HardDrop {
                                (v, false)
                            } else {
                                (fallback_keys(), true)
                            }
                        },
                        None => (fallback_keys(), true),
                    };
                    StepOutcome {
                        response: Some(Outgoing::Move { keys }),
                        error: if failed {
                            Some(SessionError::MoveChooserFailure)
                        } else {
                            None
                        },
                    }
                } else {
                    StepOutcome { response: None, error: Some(SessionError::StateTransition) }
                }
            },
        }
    }
}

/// The safe default response when the chooser yields nothing usable: lock
/// the active piece in place.
fn fallback_keys() -> (keys: Vec<Move>)
    ensures
        keys@ == seq![Move::HardDrop],
        playable(keys@),
{
    let mut keys: Vec<Move> = Vec::new();
    keys.push(Move::HardDrop);
    keys
}

} // verus!
