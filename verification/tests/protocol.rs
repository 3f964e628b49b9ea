use solver::codec::{decode_incoming, decode_outgoing, encode_incoming, encode_outgoing};
use solver::data::{BoardSquare, ComboTable, KickTable, Mino, Move, Spins};
use solver::protocol::{AsciiText, Config, Incoming, Milli, Outgoing, Pieces, Play, State};
use solver::session::{Phase, Session, SessionError, StepOutcome};

fn sample_config() -> Config {
    Config {
        board_width: 10,
        board_height: 20,
        kicks: KickTable::SRS,
        spins: Spins::NoSpins,
        combo_table: ComboTable::NoBonus,
        b2b_charging: false,
        b2b_charge_at: 2,
        b2b_charge_base: 1,
        b2b_chaining: true,
        garbage_multiplier: Milli(1000),
        garbage_cap: 8,
        garbage_special_bonus: false,
        pc_b2b: 1,
        pc_garbage: 10,
        queue: vec![Mino::I, Mino::O],
    }
}

fn empty_board(w: usize, h: usize) -> Vec<Vec<BoardSquare>> {
    (0..h).map(|_| vec![BoardSquare::Empty; w]).collect()
}

fn sample_state() -> State {
    State {
        board: empty_board(10, 20),
        current: Mino::T,
        hold: None,
        queue: vec![Mino::I],
        garbage: vec![],
        combo: 0,
        b2b: 0,
    }
}

fn encode_line(m: &Incoming) -> Vec<u8> {
    let mut out = Vec::new();
    encode_incoming(m, &mut out);
    out
}

#[test]
fn config_line_has_canonical_form() {
    let line = encode_line(&Incoming::Config(sample_config()));
    let expect = "{\"type\":\"config\",\"boardWidth\":10,\"boardHeight\":20,\"kicks\":\"SRS\",\"spins\":\"none\",\"comboTable\":\"none\",\"b2bCharging\":false,\"b2bChargeAt\":2,\"b2bChargeBase\":1,\"b2bChaining\":true,\"garbageMultiplier\":1.000,\"garbageCap\":8,\"garbageSpecialBonus\":false,\"pcB2b\":1,\"pcGarbage\":10,\"queue\":[\"I\",\"O\"]}";
    assert_eq!(line, expect.as_bytes());
}

#[test]
fn round_trip_config() {
    let line = encode_line(&Incoming::Config(sample_config()));
    let decoded = decode_incoming(&line).expect("canonical config must decode");
    match &decoded {
        Incoming::Config(c) => {
            assert_eq!(c.board_width, 10);
            assert_eq!(c.board_height, 20);
            assert_eq!(c.garbage_multiplier, Milli(1000));
            assert_eq!(c.queue, vec![Mino::I, Mino::O]);
        },
        _ => panic!("wrong shape"),
    }
    assert_eq!(encode_line(&decoded), line);
}

#[test]
fn round_trip_state() {
    let line = encode_line(&Incoming::State(sample_state()));
    let decoded = decode_incoming(&line).expect("canonical state must decode");
    match &decoded {
        Incoming::State(s) => {
            assert_eq!(s.board.len(), 20);
            assert_eq!(s.current, Mino::T);
            assert_eq!(s.hold, None);
            assert_eq!(s.queue, vec![Mino::I]);
            assert_eq!(s.combo, 0);
        },
        _ => panic!("wrong shape"),
    }
    assert_eq!(encode_line(&decoded), line);
}

#[test]
fn round_trip_pieces_and_play() {
    let line = encode_line(&Incoming::Pieces(Pieces { pieces: vec![Mino::S, Mino::Z] }));
    assert_eq!(line, b"{\"type\":\"pieces\",\"pieces\":[\"S\",\"Z\"]}");
    let decoded = decode_incoming(&line).expect("pieces must decode");
    assert_eq!(encode_line(&decoded), line);

    let play = Incoming::Play(Play { garbage_multiplier: Milli(1500), garbage_cap: 8 });
    let line = encode_line(&play);
    assert_eq!(line, b"{\"type\":\"play\",\"garbageMultiplier\":1.500,\"garbageCap\":8}");
    let decoded = decode_incoming(&line).expect("play must decode");
    match &decoded {
        Incoming::Play(p) => {
            assert_eq!(p.garbage_multiplier, Milli(1500));
            assert_eq!(p.garbage_cap, 8);
        },
        _ => panic!("wrong shape"),
    }
    assert_eq!(encode_line(&decoded), line);
}

#[test]
fn round_trip_outgoing() {
    let info = Outgoing::Info {
        name: AsciiText(b"demo".to_vec()),
        version: AsciiText(b"1.0.0".to_vec()),
        author: AsciiText(b"someone".to_vec()),
    };
    let mut line = Vec::new();
    encode_outgoing(&info, &mut line);
    assert_eq!(
        line,
        b"{\"type\":\"info\",\"name\":\"demo\",\"version\":\"1.0.0\",\"author\":\"someone\"}"
    );
    let decoded = decode_outgoing(&line).expect("info must decode");
    let mut line2 = Vec::new();
    encode_outgoing(&decoded, &mut line2);
    assert_eq!(line2, line);

    let mv = Outgoing::Move { keys: vec![Move::Left, Move::CW, Move::HardDrop] };
    let mut line = Vec::new();
    encode_outgoing(&mv, &mut line);
    assert_eq!(line, b"{\"type\":\"move\",\"keys\":[\"moveLeft\",\"rotateCW\",\"hardDrop\"]}");
    let decoded = decode_outgoing(&line).expect("move must decode");
    let mut line2 = Vec::new();
    encode_outgoing(&decoded, &mut line2);
    assert_eq!(line2, line);
}

#[test]
fn malformed_lines_are_fatal_framing_errors() {
    assert!(decode_incoming(b"").is_err());
    assert!(decode_incoming(b"{\"type\":\"bogus\"}").is_err());
    assert!(decode_incoming(b"{\"type\":\"play\",\"garbageMultiplier\":1.000,\"garbageCap\":true}").is_err());
    assert!(decode_incoming(b"{\"type\":\"play\",\"garbageMultiplier\":1.000,\"garbageCap\":8} ").is_err());
}

#[test]
fn scenario_config_moves_to_configured_with_no_output() {
    let mut s = Session::new();
    let out: StepOutcome = s.step(Incoming::Config(sample_config()), None);
    assert!(out.response.is_none());
    assert!(out.error.is_none());
    assert_eq!(s.phase, Phase::Configured);
    assert_eq!(s.queue, vec![Mino::I, Mino::O]);
}

#[test]
fn scenario_state_moves_to_ready_with_no_output() {
    let mut s = Session::new();
    s.step(Incoming::Config(sample_config()), None);
    let out = s.step(Incoming::State(sample_state()), None);
    assert!(out.response.is_none());
    assert!(out.error.is_none());
    assert_eq!(s.phase, Phase::Ready);
    assert_eq!(s.current, Some(Mino::T));
}

#[test]
fn scenario_play_while_ready_emits_exactly_one_move() {
    let mut s = Session::new();
    s.step(Incoming::Config(sample_config()), None);
    s.step(Incoming::State(sample_state()), None);
    let play = Incoming::Play(Play { garbage_multiplier: Milli(1000), garbage_cap: 8 });
    let out = s.step(play, None);
    match out.response {
        Some(Outgoing::Move { keys }) => {
            assert!(!keys.is_empty());
            assert_eq!(*keys.last().unwrap(), Move::HardDrop);
        },
        _ => panic!("a play while ready must yield exactly one move"),
    }
}

#[test]
fn scenario_play_before_state_is_recoverable() {
    let mut s = Session::new();
    let play = Incoming::Play(Play { garbage_multiplier: Milli(1000), garbage_cap: 8 });
    let out = s.step(play, None);
    assert!(out.response.is_none());
    assert_eq!(out.error, Some(SessionError::StateTransition));
    assert!(!SessionError::StateTransition.is_fatal());
    // the session still accepts later messages
    let out = s.step(Incoming::Config(sample_config()), None);
    assert!(out.error.is_none());
    let out = s.step(Incoming::State(sample_state()), None);
    assert!(out.error.is_none());
    assert_eq!(s.phase, Phase::Ready);
}

#[test]
fn chooser_sequence_is_used_when_playable() {
    let mut s = Session::new();
    s.step(Incoming::Config(sample_config()), None);
    s.step(Incoming::State(sample_state()), None);
    let play = Incoming::Play(Play { garbage_multiplier: Milli(1000), garbage_cap: 8 });
    let chosen = vec![Move::DasLeft, Move::CCW, Move::HardDrop];
    let out = s.step(play, Some(chosen.clone()));
    match out.response {
        Some(Outgoing::Move { keys }) => assert_eq!(keys, chosen),
        _ => panic!("expected a move"),
    }
    assert!(out.error.is_none());
}

#[test]
fn unusable_chooser_answer_falls_back_to_hard_drop() {
    let mut s = Session::new();
    s.step(Incoming::Config(sample_config()), None);
    s.step(Incoming::State(sample_state()), None);
    let play = Incoming::Play(Play { garbage_multiplier: Milli(1000), garbage_cap: 8 });
    let out = s.step(play, Some(vec![Move::Left]));
    match out.response {
        Some(Outgoing::Move { keys }) => assert_eq!(keys, vec![Move::HardDrop]),
        _ => panic!("expected a move"),
    }
    assert_eq!(out.error, Some(SessionError::MoveChooserFailure));
}

#[test]
fn invalid_config_is_fatal_and_leaves_session_unchanged() {
    let mut s = Session::new();
    let mut bad = sample_config();
    bad.board_width = 0;
    let out = s.step(Incoming::Config(bad), None);
    assert_eq!(out.error, Some(SessionError::Configuration));
    assert!(SessionError::Configuration.is_fatal());
    assert_eq!(s.phase, Phase::Uninitialized);

    let mut bad = sample_config();
    bad.garbage_multiplier = Milli(-1);
    assert_eq!(s.step(Incoming::Config(bad), None).error, Some(SessionError::Configuration));

    let mut bad = sample_config();
    bad.b2b_charging = true;
    bad.b2b_charge_base = 5;
    bad.b2b_charge_at = 2;
    assert_eq!(s.step(Incoming::Config(bad), None).error, Some(SessionError::Configuration));
}

#[test]
fn pieces_append_in_order_whether_batched_or_not() {
    let mut one = Session::new();
    one.step(Incoming::Config(sample_config()), None);
    let mut two = Session::new();
    two.step(Incoming::Config(sample_config()), None);

    one.step(Incoming::Pieces(Pieces { pieces: vec![Mino::S, Mino::Z] }), None);
    one.step(Incoming::Pieces(Pieces { pieces: vec![Mino::L] }), None);
    two.step(Incoming::Pieces(Pieces { pieces: vec![Mino::S, Mino::Z, Mino::L] }), None);
    assert_eq!(one.queue, two.queue);
    assert_eq!(one.queue, vec![Mino::I, Mino::O, Mino::S, Mino::Z, Mino::L]);
}

#[test]
fn second_config_replaces_rules_wholesale() {
    let mut s = Session::new();
    s.step(Incoming::Config(sample_config()), None);
    s.step(Incoming::State(sample_state()), None);
    let mut next = sample_config();
    next.board_width = 8;
    next.queue = vec![Mino::J];
    let out = s.step(Incoming::Config(next), None);
    assert!(out.error.is_none());
    assert_eq!(s.phase, Phase::Configured);
    assert_eq!(s.config.unwrap().board_width, 8);
    assert_eq!(s.queue, vec![Mino::J]);
}

#[test]
fn mismatched_state_is_discarded() {
    let mut s = Session::new();
    s.step(Incoming::Config(sample_config()), None);
    let mut st = sample_state();
    st.board = empty_board(9, 20);
    let out = s.step(Incoming::State(st), None);
    assert_eq!(out.error, Some(SessionError::StateTransition));
    assert_eq!(s.phase, Phase::Configured);
    let mut st = sample_state();
    st.garbage = vec![-1];
    let out = s.step(Incoming::State(st), None);
    assert_eq!(out.error, Some(SessionError::StateTransition));
}

#[test]
fn decoded_lines_drive_a_whole_session() {
    let mut s = Session::new();
    let cfg_line = encode_line(&Incoming::Config(sample_config()));
    let st_line = encode_line(&Incoming::State(sample_state()));
    let play_line = b"{\"type\":\"play\",\"garbageMultiplier\":1.000,\"garbageCap\":8}".to_vec();
    for line in [&cfg_line, &st_line, &play_line] {
        let msg = decode_incoming(line).expect("line must decode");
        let out = s.step(msg, Some(vec![Move::HardDrop]));
        if let Some(resp) = out.response {
            let mut bytes = Vec::new();
            encode_outgoing(&resp, &mut bytes);
            assert_eq!(bytes, b"{\"type\":\"move\",\"keys\":[\"hardDrop\"]}");
        }
        assert!(out.error.is_none());
    }
    assert_eq!(s.phase, Phase::Ready);
}

#[test]
fn standard_number_spellings_decode() {
    // the spelling of spec scenario three: a one-digit fraction
    let line = b"{\"type\":\"play\",\"garbageMultiplier\":1.0,\"garbageCap\":8}";
    match decode_incoming(line).expect("1.0 must decode") {
        Incoming::Play(p) => {
            assert_eq!(p.garbage_multiplier, Milli(1000));
            assert_eq!(p.garbage_cap, 8);
        },
        _ => panic!("wrong shape"),
    }
    // an integer multiplier
    let line = b"{\"type\":\"play\",\"garbageMultiplier\":2,\"garbageCap\":4}";
    match decode_incoming(line).expect("integer multiplier must decode") {
        Incoming::Play(p) => assert_eq!(p.garbage_multiplier, Milli(2000)),
        _ => panic!("wrong shape"),
    }
    // two fraction digits, and a negative value (rejected later by validation)
    let line = b"{\"type\":\"play\",\"garbageMultiplier\":-0.25,\"garbageCap\":4}";
    match decode_incoming(line).expect("-0.25 must decode") {
        Incoming::Play(p) => assert_eq!(p.garbage_multiplier, Milli(-250)),
        _ => panic!("wrong shape"),
    }
    // an integer multiplier inside a config line
    let mut cfg = sample_config();
    cfg.garbage_multiplier = Milli(3000);
    let canonical = encode_line(&Incoming::Config(cfg));
    let text = String::from_utf8(canonical).unwrap();
    let variant = text.replace("\"garbageMultiplier\":3.000", "\"garbageMultiplier\":3");
    match decode_incoming(variant.as_bytes()).expect("integer config multiplier must decode") {
        Incoming::Config(c) => assert_eq!(c.garbage_multiplier, Milli(3000)),
        _ => panic!("wrong shape"),
    }
}

#[test]
fn overlong_fractions_are_rejected() {
    // a fourth fraction digit is beyond the thousandths resolution
    let line = b"{\"type\":\"play\",\"garbageMultiplier\":1.5000,\"garbageCap\":8}";
    assert!(decode_incoming(line).is_err());
}
