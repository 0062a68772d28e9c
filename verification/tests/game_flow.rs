use scramble_core::ledger::Ledger;
use scramble_core::registry::Registry;
use scramble_core::session::{session_step, SessionAction, SessionEvent, SessionState};
use scramble_core::timer::timer_fire;

fn wire_of(a: &SessionAction) -> &Vec<u8> {
    match a {
        SessionAction::SendWire(v) => v,
        _ => panic!("expected a wire send"),
    }
}

fn opp_of(a: &SessionAction) -> &Vec<u8> {
    match a {
        SessionAction::SendOpponent(v) => v,
        _ => panic!("expected an opponent send"),
    }
}

fn fetched(a: &SessionAction) -> usize {
    match a {
        SessionAction::FetchRound(id) => *id,
        _ => panic!("expected a round fetch"),
    }
}

/// Drives one session up to its seat in room `room_frame`, through the round
/// fetch, and returns its state.
fn join_room(
    led: &mut Ledger,
    reg: &mut Registry,
    room_frame: &[u8],
    content: &[u8],
) -> SessionState {
    let (st, _) = session_step(SessionState::Connecting, SessionEvent::Connected, 0, led, reg);
    let (st, acts) = session_step(
        st,
        SessionEvent::WireText(room_frame.to_vec()),
        0,
        led,
        reg,
    );
    assert_eq!(acts.len(), 1);
    let id = fetched(&acts[0]);
    assert!((1..=49).contains(&id));
    let (st, acts) = session_step(
        st,
        SessionEvent::RoundContent(content.to_vec()),
        0,
        led,
        reg,
    );
    assert!(acts.is_empty());
    st
}

#[test]
fn two_sessions_draw_in_room_a() {
    let mut led = Ledger::new();
    let mut reg = Registry::new();

    let s1 = join_room(&mut led, &mut reg, b"a", b"P,cat,dog");
    assert_eq!(
        s1,
        SessionState::WaitingForOpponent { room: 0, seat: 1, polls: 0 }
    );
    // alone: a poll just counts up
    let (s1, acts) = session_step(s1, SessionEvent::PollTick, 0, &mut led, &mut reg);
    assert!(acts.is_empty());
    assert_eq!(
        s1,
        SessionState::WaitingForOpponent { room: 0, seat: 1, polls: 1 }
    );

    let s2 = join_room(&mut led, &mut reg, b"a", b"P,cat,dog");
    assert_eq!(
        s2,
        SessionState::WaitingForOpponent { room: 0, seat: 2, polls: 0 }
    );

    // the seat-2 session observes both seats and starts the one timer
    let (s2, acts) = session_step(s2, SessionEvent::PollTick, 1, &mut led, &mut reg);
    assert_eq!(s2, SessionState::Playing { room: 0, seat: 2, last_pong: 1 });
    assert_eq!(acts.len(), 2);
    assert_eq!(wire_of(&acts[0]), b"s:P");
    assert!(matches!(acts[1], SessionAction::StartTimer));

    // the seat-1 session observes too, but must not start a second timer
    let (s1, acts) = session_step(s1, SessionEvent::PollTick, 1, &mut led, &mut reg);
    assert_eq!(s1, SessionState::Playing { room: 0, seat: 1, last_pong: 1 });
    assert_eq!(acts.len(), 1);
    assert_eq!(wire_of(&acts[0]), b"s:P");

    // seat 1 guesses "cat": 3 points, relayed to seat 2 as o:3
    let (s1, acts) = session_step(
        s1,
        SessionEvent::WireText(b"g:cat".to_vec()),
        2,
        &mut led,
        &mut reg,
    );
    assert_eq!(acts.len(), 2);
    assert_eq!(wire_of(&acts[0]), b"p:3");
    assert_eq!(opp_of(&acts[1]), b"o:3");

    // seat 2 guesses "cat" again: no credit, score echoed unchanged
    let (s2, acts) = session_step(
        s2,
        SessionEvent::WireText(b"g:cat".to_vec()),
        2,
        &mut led,
        &mut reg,
    );
    assert_eq!(acts.len(), 1);
    assert_eq!(wire_of(&acts[0]), b"p:0");

    // seat 2 guesses "dog": 3 points
    let (s2, acts) = session_step(
        s2,
        SessionEvent::WireText(b"g:dog".to_vec()),
        2,
        &mut led,
        &mut reg,
    );
    assert_eq!(acts.len(), 2);
    assert_eq!(wire_of(&acts[0]), b"p:3");
    assert_eq!(opp_of(&acts[1]), b"o:3");

    // a wrong guess earns nothing
    let (s2, acts) = session_step(
        s2,
        SessionEvent::WireText(b"g:bird".to_vec()),
        3,
        &mut led,
        &mut reg,
    );
    assert_eq!(acts.len(), 1);
    assert_eq!(wire_of(&acts[0]), b"p:3");

    // each score is the total length of that seat's distinct credited words
    assert_eq!(reg.scores(0), Some((3, 3)));

    // the timer fires: 3 vs 3 is a draw for both
    let res = timer_fire(&reg, 0).expect("the match is live");
    assert_eq!(res.seat1_msg, b"f:d".to_vec());
    assert_eq!(res.seat2_msg, b"f:d".to_vec());
    assert!(res.seat1_present && res.seat2_present);

    // each session relays its finish notification and terminates
    let (s1, acts) = session_step(
        s1,
        SessionEvent::OutboxMsg(b"f:d".to_vec()),
        70,
        &mut led,
        &mut reg,
    );
    assert_eq!(s1, SessionState::Terminated);
    assert_eq!(wire_of(&acts[0]), b"f:d");
    assert!(matches!(acts[1], SessionAction::Close));
    let (s2, acts) = session_step(
        s2,
        SessionEvent::OutboxMsg(b"f:d".to_vec()),
        70,
        &mut led,
        &mut reg,
    );
    assert_eq!(s2, SessionState::Terminated);
    assert_eq!(wire_of(&acts[0]), b"f:d");

    // cleanup converged: the room is free again, the match is gone
    assert_eq!(led.snapshot(), vec![0u8, 0, 0, 0]);
    assert!(!reg.has_entry(0));

    // the timer tolerates the match being gone
    assert!(timer_fire(&reg, 0).is_none());
}

#[test]
fn lone_session_times_out_in_room_b() {
    let mut led = Ledger::new();
    let mut reg = Registry::new();
    let mut st = join_room(&mut led, &mut reg, b"b", b"P,cat");
    assert_eq!(led.snapshot(), vec![0u8, 1, 0, 0]);
    let mut got_start = false;
    let mut closed = false;
    for _ in 0..141 {
        let (next, acts) = session_step(st, SessionEvent::PollTick, 0, &mut led, &mut reg);
        st = next;
        for a in &acts {
            match a {
                SessionAction::SendWire(v) => {
                    if v.starts_with(b"s:") {
                        got_start = true;
                    }
                },
                SessionAction::Close => closed = true,
                _ => {},
            }
        }
        if st == SessionState::Terminated {
            break;
        }
    }
    assert!(!got_start, "no start message without an opponent");
    assert!(closed);
    assert_eq!(st, SessionState::Terminated);
    assert_eq!(led.snapshot(), vec![0u8, 0, 0, 0]);
    assert!(!reg.has_entry(1));
}

#[test]
fn peer_close_mid_round_notifies_opponent() {
    let mut led = Ledger::new();
    let mut reg = Registry::new();
    let s1 = join_room(&mut led, &mut reg, b"a", b"P,cat,dog");
    let s2 = join_room(&mut led, &mut reg, b"a", b"P,cat,dog");
    let (s2, _) = session_step(s2, SessionEvent::PollTick, 0, &mut led, &mut reg);
    let (s1, _) = session_step(s1, SessionEvent::PollTick, 0, &mut led, &mut reg);
    assert!(matches!(s1, SessionState::Playing { .. }));

    // seat 1 closes its connection: seat 2 is told f:x, the room is torn down
    let (s1, acts) = session_step(s1, SessionEvent::WireClosed, 5, &mut led, &mut reg);
    assert_eq!(s1, SessionState::Terminated);
    assert_eq!(acts.len(), 2);
    assert_eq!(opp_of(&acts[0]), b"f:x");
    assert!(matches!(acts[1], SessionAction::Close));
    assert_eq!(led.snapshot(), vec![0u8, 0, 0, 0]);
    assert!(!reg.has_entry(0));

    // seat 2 relays the notification and terminates; its cleanup is a no-op
    let (s2, acts) = session_step(
        s2,
        SessionEvent::OutboxMsg(b"f:x".to_vec()),
        5,
        &mut led,
        &mut reg,
    );
    assert_eq!(s2, SessionState::Terminated);
    assert_eq!(wire_of(&acts[0]), b"f:x");
    assert_eq!(led.snapshot(), vec![0u8, 0, 0, 0]);
}

#[test]
fn refresh_limit_disconnects() {
    let mut led = Ledger::new();
    let mut reg = Registry::new();
    let (mut st, _) = session_step(
        SessionState::Connecting,
        SessionEvent::Connected,
        0,
        &mut led,
        &mut reg,
    );
    for i in 0..6 {
        let (next, acts) = session_step(
            st,
            SessionEvent::WireText(b"r".to_vec()),
            0,
            &mut led,
            &mut reg,
        );
        st = next;
        assert_eq!(acts.len(), 1, "refresh {} answers with a snapshot only", i);
        assert_eq!(wire_of(&acts[0]), b"a:0000");
    }
    assert_eq!(st, SessionState::SelectingRoom { refreshes: 6 });
    let (st, acts) = session_step(
        st,
        SessionEvent::WireText(b"r".to_vec()),
        0,
        &mut led,
        &mut reg,
    );
    assert_eq!(st, SessionState::Terminated);
    assert_eq!(acts.len(), 2);
    assert_eq!(wire_of(&acts[0]), b"a:0000");
    assert!(matches!(acts[1], SessionAction::Close));
}

#[test]
fn full_room_refuses_a_third_client() {
    let mut led = Ledger::new();
    let mut reg = Registry::new();
    let _s1 = join_room(&mut led, &mut reg, b"c", b"P,ox");
    let _s2 = join_room(&mut led, &mut reg, b"c", b"P,ox");
    let (st, _) = session_step(
        SessionState::Connecting,
        SessionEvent::Connected,
        0,
        &mut led,
        &mut reg,
    );
    let (st, acts) = session_step(
        st,
        SessionEvent::WireText(b"c".to_vec()),
        0,
        &mut led,
        &mut reg,
    );
    assert_eq!(st, SessionState::Terminated);
    assert_eq!(acts.len(), 1);
    assert!(matches!(acts[0], SessionAction::Close));
    // the full room was not disturbed
    assert_eq!(led.snapshot(), vec![0u8, 0, 2, 0]);
    assert!(reg.both_seated(2));
}

#[test]
fn liveness_timeout_tears_down() {
    let mut led = Ledger::new();
    let mut reg = Registry::new();
    let s1 = join_room(&mut led, &mut reg, b"d", b"P,ax");
    let s2 = join_room(&mut led, &mut reg, b"d", b"P,ax");
    let (_s2, _) = session_step(s2, SessionEvent::PollTick, 0, &mut led, &mut reg);
    let (s1, _) = session_step(s1, SessionEvent::PollTick, 0, &mut led, &mut reg);

    // a fresh tick probes instead of disconnecting
    let (s1, acts) = session_step(s1, SessionEvent::HeartbeatTick, 10, &mut led, &mut reg);
    assert_eq!(acts.len(), 1);
    assert!(matches!(acts[0], SessionAction::SendPing));

    // a pong refreshes the liveness clock
    let (s1, acts) = session_step(s1, SessionEvent::Pong, 15, &mut led, &mut reg);
    assert!(acts.is_empty());
    assert_eq!(s1, SessionState::Playing { room: 3, seat: 1, last_pong: 15 });

    // silence past the threshold ends the session and tells the opponent
    let (s1, acts) = session_step(s1, SessionEvent::HeartbeatTick, 40, &mut led, &mut reg);
    assert_eq!(s1, SessionState::Terminated);
    assert_eq!(opp_of(&acts[0]), b"f:x");
    assert!(matches!(acts[1], SessionAction::Close));
    assert!(!reg.has_entry(3));
}

#[test]
fn provider_failure_aborts_the_match() {
    let mut led = Ledger::new();
    let mut reg = Registry::new();
    let (st, _) = session_step(
        SessionState::Connecting,
        SessionEvent::Connected,
        0,
        &mut led,
        &mut reg,
    );
    let (st, _) = session_step(
        st,
        SessionEvent::WireText(b"a".to_vec()),
        0,
        &mut led,
        &mut reg,
    );
    let (st, acts) = session_step(st, SessionEvent::RoundLookupFailed, 0, &mut led, &mut reg);
    assert_eq!(st, SessionState::Terminated);
    assert_eq!(acts.len(), 1);
    assert!(matches!(acts[0], SessionAction::Close));
    assert_eq!(led.snapshot(), vec![0u8, 0, 0, 0]);
    assert!(!reg.has_entry(0));
}

#[test]
fn send_failure_notifies_opponent() {
    let mut led = Ledger::new();
    let mut reg = Registry::new();
    let s1 = join_room(&mut led, &mut reg, b"a", b"P,cat");
    let s2 = join_room(&mut led, &mut reg, b"a", b"P,cat");
    let (_s2, _) = session_step(s2, SessionEvent::PollTick, 0, &mut led, &mut reg);
    let (s1, _) = session_step(s1, SessionEvent::PollTick, 0, &mut led, &mut reg);
    // a failed wire write means the peer is gone: best-effort f:x, cleanup
    let (s1, acts) = session_step(s1, SessionEvent::WireSendFailed, 1, &mut led, &mut reg);
    assert_eq!(s1, SessionState::Terminated);
    assert_eq!(acts.len(), 2);
    assert_eq!(opp_of(&acts[0]), b"f:x");
    assert!(matches!(acts[1], SessionAction::Close));
    assert!(!reg.has_entry(0));
    assert_eq!(led.snapshot(), vec![0u8, 0, 0, 0]);
}

#[test]
fn waiting_close_notifies_a_seated_opponent() {
    let mut led = Ledger::new();
    let mut reg = Registry::new();
    let _s1 = join_room(&mut led, &mut reg, b"a", b"P,cat");
    let s2 = join_room(&mut led, &mut reg, b"a", b"P,cat");
    // seat 2 disconnects before the round starts: seat 1 is told f:x
    let (s2, acts) = session_step(s2, SessionEvent::WireClosed, 0, &mut led, &mut reg);
    assert_eq!(s2, SessionState::Terminated);
    assert_eq!(acts.len(), 2);
    assert_eq!(opp_of(&acts[0]), b"f:x");
    assert!(matches!(acts[1], SessionAction::Close));
    assert!(!reg.has_entry(0));
    assert_eq!(led.snapshot(), vec![0u8, 0, 0, 0]);
}

#[test]
fn guess_without_a_match_does_nothing() {
    let mut led = Ledger::new();
    let mut reg = Registry::new();
    let s1 = join_room(&mut led, &mut reg, b"a", b"P,cat");
    let s2 = join_room(&mut led, &mut reg, b"a", b"P,cat");
    let (_s2, _) = session_step(s2, SessionEvent::PollTick, 0, &mut led, &mut reg);
    let (s1, _) = session_step(s1, SessionEvent::PollTick, 0, &mut led, &mut reg);
    // the opponent leaves; its cleanup removes the whole match
    let (_, _) = session_step(_s2, SessionEvent::WireClosed, 1, &mut led, &mut reg);
    assert!(!reg.has_entry(0));
    // a guess into the void earns nothing and sends nothing
    let (s1, acts) = session_step(
        s1,
        SessionEvent::WireText(b"g:cat".to_vec()),
        2,
        &mut led,
        &mut reg,
    );
    assert!(acts.is_empty());
    assert!(matches!(s1, SessionState::Playing { .. }));
}

#[test]
fn protocol_noise_is_discarded() {
    let mut led = Ledger::new();
    let mut reg = Registry::new();
    let (st, _) = session_step(
        SessionState::Connecting,
        SessionEvent::Connected,
        0,
        &mut led,
        &mut reg,
    );
    let (st, acts) = session_step(
        st,
        SessionEvent::WireText(b"zz".to_vec()),
        0,
        &mut led,
        &mut reg,
    );
    assert!(acts.is_empty());
    assert_eq!(st, SessionState::SelectingRoom { refreshes: 0 });
}
