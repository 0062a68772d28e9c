//! Connection Session state machine. One session runs per connection; this
//! module holds every decision it makes: room selection, pairing, the
//! playing loop's reaction to wire frames, outbox messages and liveness
//! ticks, and the cleanup that every exit path converges on. The caller
//! (the network shell around the library) owns the socket and the clock,
//! performs the returned actions, and feeds the resulting events back in
//! under the shared state's exclusive lock.

use vstd::prelude::*;
use crate::codec::{
    is_finish, is_finish_frame, opponent_frame, opponent_msg, parse_client, parse_client_spec,
    peer_gone_frame, peer_gone_msg, points_frame, points_msg, rooms_frame, rooms_msg,
    start_frame, start_msg, ClientMsg, ClientMsgModel,
};
use crate::ledger::Ledger;
use crate::registry::{
    credit_effect, fresh_match, match_wf, GuessOutcome, MatchModel, Registry, ROUND_ID_MAX,
    ROUND_ID_MIN,
};
use crate::words::parse_round;
use crate::ROOM_COUNT;

verus! {

/// A client that has sent this many refresh requests without picking a room
/// is disconnected (each refresh stands for 5 time-units of indecision).
pub const MAX_REFRESHES: u8 = 6;

/// A seat that has polled this many times (0.5 time-units apart) without an
/// opponent arriving gives up and aborts the one-sided Match.
pub const MAX_POLLS: u16 = 140;

/// A session whose last liveness response is older than this many time-units
/// at a liveness tick treats its peer as gone.
pub const LIVENESS_TIMEOUT: u64 = 20;

/// The per-connection state machine's states.
#[derive(Clone, Copy, Debug, PartialEq, Eq, Structural)]
pub enum SessionState {
    /// The connection is accepted but nothing has been exchanged.
    Connecting,
    /// The client has its first room snapshot and is choosing.
    SelectingRoom { refreshes: u8 },
    /// A seat is claimed; the opponent has not arrived (or the round is not
    /// installed yet).
    WaitingForOpponent { room: usize, seat: u8, polls: u16 },
    /// Both seats are filled, the round has started.
    Playing { room: usize, seat: u8, last_pong: u64 },
    /// Final state: reached exactly once, always after cleanup.
    Terminated,
}

/// One event handed to the state machine by its caller.
pub enum SessionEvent {
    /// The transport handshake finished.
    Connected,
    /// A text frame arrived on the wire.
    WireText(Vec<u8>),
    /// The peer closed the connection, or reading it failed.
    WireClosed,
    /// A liveness response arrived.
    Pong,
    /// The round provider returned this raw text for the fetched round.
    RoundContent(Vec<u8>),
    /// The round provider had no data for the fetched round.
    RoundLookupFailed,
    /// One waiting-for-opponent poll interval elapsed.
    PollTick,
    /// One liveness-check interval elapsed.
    HeartbeatTick,
    /// Writing to the wire failed.
    WireSendFailed,
    /// Pushing into the opponent's outbox failed.
    OpponentSendFailed,
    /// A message arrived in this session's own outbox.
    OutboxMsg(Vec<u8>),
}

/// Spec-level image of an event.
pub ghost enum EventModel {
    Connected,
    WireText(Seq<u8>),
    WireClosed,
    Pong,
    RoundContent(Seq<u8>),
    RoundLookupFailed,
    PollTick,
    HeartbeatTick,
    WireSendFailed,
    OpponentSendFailed,
    OutboxMsg(Seq<u8>),
}

impl View for SessionEvent {
    type V = EventModel;

    open spec fn view(&self) -> EventModel {
        match self {
            SessionEvent::Connected => EventModel::Connected,
            SessionEvent::WireText(f) => EventModel::WireText(f@),
            SessionEvent::WireClosed => EventModel::WireClosed,
            SessionEvent::Pong => EventModel::Pong,
            SessionEvent::RoundContent(c) => EventModel::RoundContent(c@),
            SessionEvent::RoundLookupFailed => EventModel::RoundLookupFailed,
            SessionEvent::PollTick => EventModel::PollTick,
            SessionEvent::HeartbeatTick => EventModel::HeartbeatTick,
            SessionEvent::WireSendFailed => EventModel::WireSendFailed,
            SessionEvent::OpponentSendFailed => EventModel::OpponentSendFailed,
            SessionEvent::OutboxMsg(m) => EventModel::OutboxMsg(m@),
        }
    }
}

/// One action the caller must perform after a step.
pub enum SessionAction {
    /// Send this text frame to this session's own client.
    SendWire(Vec<u8>),
    /// Push this message into the opponent's outbox.
    SendOpponent(Vec<u8>),
    /// Send a liveness probe on the wire.
    SendPing,
    /// Fetch the round with this identifier from the round provider and
    /// reply with `RoundContent` or `RoundLookupFailed`.
    FetchRound(usize),
    /// Start the room's one-shot Match Timer.
    StartTimer,
    /// Close the connection.
    Close,
}

/// Spec-level image of an action.
pub ghost enum ActionModel {
    SendWire(Seq<u8>),
    SendOpponent(Seq<u8>),
    SendPing,
    FetchRound(nat),
    StartTimer,
    Close,
}

impl DeepView for SessionAction {
    type V = ActionModel;

    open spec fn deep_view(&self) -> ActionModel {
        match self {
            SessionAction::SendWire(f) => ActionModel::SendWire(f@),
            SessionAction::SendOpponent(f) => ActionModel::SendOpponent(f@),
            SessionAction::SendPing => ActionModel::SendPing,
            SessionAction::FetchRound(id) => ActionModel::FetchRound(*id as nat),
            SessionAction::StartTimer => ActionModel::StartTimer,
            SessionAction::Close => ActionModel::Close,
        }
    }
}

/// Structural bounds a session state always satisfies.
pub open spec fn session_inv(st: SessionState) -> bool {
    match st {
        SessionState::SelectingRoom { refreshes } => refreshes <= MAX_REFRESHES,
        SessionState::WaitingForOpponent { room, seat, polls } => {
            &&& room < ROOM_COUNT
            &&& (seat == 1 || seat == 2)
            &&& polls <= MAX_POLLS
        },
        SessionState::Playing { room, seat, .. } => room < ROOM_COUNT && (seat == 1 || seat == 2),
        _ => true,
    }
}

/// How many seats a room's Match holds.
pub open spec fn seat_count(e: Option<MatchModel>) -> int {
    match e {
        None => 0,
        Some(m) => (if m.seat1 { 1int } else { 0int }) + (if m.seat2 { 1int } else { 0int }),
    }
}

/// The concurrency discipline's cross-structure invariant: each room's
/// occupancy count equals the number of seats attached to its Match. Claims
/// and cleanups go through the session machine, which keeps the two ledgers
/// in step; this is what makes seat numbers and occupancy agree under
/// contention.
pub open spec fn consistent(led: Seq<u8>, reg: Seq<Option<MatchModel>>) -> bool {
    &&& led.len() == reg.len()
    &&& forall|i: int| 0 <= i < reg.len() ==> led[i] as int == seat_count(#[trigger] reg[i])
}

/// The one cleanup everything converges on: once cleanup is decided, the
/// room's occupancy returns to 0 and its Match entry is removed,
/// unconditionally — the release does not wait for a Match to exist.
pub open spec fn cleanup_spec(
    led: Seq<u8>,
    reg: Seq<Option<MatchModel>>,
    room: int,
) -> (Seq<u8>, Seq<Option<MatchModel>>) {
    (led.update(room, 0u8), reg.update(room, None))
}

/// Tears down a room, exactly as `cleanup_spec` describes. Safe to run from
/// either session's terminal path, in any order, any number of times.
pub fn cleanup_room(ledger: &mut Ledger, reg: &mut Registry, room: usize)
    requires
        old(ledger).wf(),
        old(reg).wf(),
        room < ROOM_COUNT,
    ensures
        final(ledger).wf(),
        final(reg).wf(),
        final(ledger)@ == cleanup_spec(old(ledger)@, old(reg)@, room as int).0,
        final(reg)@ == cleanup_spec(old(ledger)@, old(reg)@, room as int).1,
        consistent(old(ledger)@, old(reg)@) ==> consistent(final(ledger)@, final(reg)@),
{
    ledger.release(room);
    reg.remove_entry(room);
}

/// Nothing happens: shared state, session state and the wire are untouched.
pub open spec fn step_ignored(
    l0: Seq<u8>,
    r0: Seq<Option<MatchModel>>,
    l1: Seq<u8>,
    r1: Seq<Option<MatchModel>>,
    st: SessionState,
    st2: SessionState,
    acts: Seq<ActionModel>,
) -> bool {
    &&& l1 == l0
    &&& r1 == r0
    &&& st2 == st
    &&& acts.len() == 0
}

/// All rooms but `room` keep their Match entries.
pub open spec fn others_same(
    r0: Seq<Option<MatchModel>>,
    r1: Seq<Option<MatchModel>>,
    room: int,
) -> bool {
    &&& r1.len() == r0.len()
    &&& forall|i: int| 0 <= i < r0.len() && i != room ==> r1[i] == r0[i]
}

/// The session terminated and tore its room down: cleanup ran and the
/// connection is closed, with `extra` sent first.
pub open spec fn step_torn_down(
    l0: Seq<u8>,
    r0: Seq<Option<MatchModel>>,
    l1: Seq<u8>,
    r1: Seq<Option<MatchModel>>,
    room: int,
    st2: SessionState,
    acts: Seq<ActionModel>,
    extra: Seq<ActionModel>,
) -> bool {
    &&& l1 == cleanup_spec(l0, r0, room).0
    &&& r1 == cleanup_spec(l0, r0, room).1
    &&& st2 == SessionState::Terminated
    &&& acts == extra.push(ActionModel::Close)
}

/// Match `f` is Match `m` with the round parsed out of `content` installed:
/// the prompt is the first comma piece of the trimmed text and the answer
/// set holds exactly the remaining pieces, duplicate-free.
pub open spec fn round_installed(m: MatchModel, f: MatchModel, content: Seq<u8>) -> bool {
    exists|ps: Seq<Seq<u8>>| {
        &&& #[trigger] crate::words::is_split_of(crate::words::trim_spec(content), ps)
        &&& f == (MatchModel { prompt: ps[0], words: f.words, round_ready: true, ..m })
        &&& f.words.no_duplicates()
        &&& forall|w: Seq<u8>| #[trigger] f.words.contains(w)
                <==> ps.subrange(1, ps.len() as int).contains(w)
    }
}

/// The whole state machine, one transition per case: what the next session
/// state is, what the shared ledger and registry become, and which actions
/// the caller must perform, for every state and event.
pub open spec fn step_contract(
    st: SessionState,
    ev: EventModel,
    now: u64,
    l0: Seq<u8>,
    r0: Seq<Option<MatchModel>>,
    l1: Seq<u8>,
    r1: Seq<Option<MatchModel>>,
    st2: SessionState,
    acts: Seq<ActionModel>,
) -> bool {
    match st {
        SessionState::Connecting => match ev {
            EventModel::Connected => {
                &&& l1 == l0 && r1 == r0
                &&& st2 == (SessionState::SelectingRoom { refreshes: 0u8 })
                &&& acts == seq![ActionModel::SendWire(rooms_frame(l0))]
            },
            EventModel::WireClosed | EventModel::WireSendFailed => {
                &&& l1 == l0 && r1 == r0
                &&& st2 == SessionState::Terminated
                &&& acts == seq![ActionModel::Close]
            },
            _ => step_ignored(l0, r0, l1, r1, st, st2, acts),
        },
        SessionState::SelectingRoom { refreshes } => match ev {
            EventModel::WireText(frame) => match parse_client_spec(frame) {
                ClientMsgModel::Select(room) => {
                    if l0[room] < 2 {
                        &&& l1 == l0.update(room, (l0[room] + 1) as u8)
                        &&& others_same(r0, r1, room)
                        &&& r1[room] matches Some(f)
                            && ROUND_ID_MIN <= f.round_id <= ROUND_ID_MAX
                            && acts == seq![ActionModel::FetchRound(f.round_id)]
                            && (match r0[room] {
                                None => {
                                    &&& f == (MatchModel { round_id: f.round_id, ..fresh_match() })
                                    &&& st2 == (SessionState::WaitingForOpponent {
                                        room: room as usize,
                                        seat: 1u8,
                                        polls: 0u16,
                                    })
                                },
                                Some(m) => {
                                    &&& !m.seat2  // a full room is ruled out by the occupancy invariant
                                    &&& f == (MatchModel {
                                        seat2: true,
                                        round_id: f.round_id,
                                        ..m
                                    })
                                    &&& (m.round_id != 0 ==> f.round_id == m.round_id)
                                    &&& st2 == (SessionState::WaitingForOpponent {
                                        room: room as usize,
                                        seat: 2u8,
                                        polls: 0u16,
                                    })
                                },
                            })
                    } else {
                        &&& l1 == l0 && r1 == r0
                        &&& st2 == SessionState::Terminated
                        &&& acts == seq![ActionModel::Close]
                    }
                },
                ClientMsgModel::Refresh => {
                    &&& l1 == l0 && r1 == r0
                    &&& if refreshes as int + 1 > MAX_REFRESHES {
                        &&& st2 == SessionState::Terminated
                        &&& acts == seq![
                            ActionModel::SendWire(rooms_frame(l0)),
                            ActionModel::Close,
                        ]
                    } else {
                        &&& st2 == (SessionState::SelectingRoom {
                            refreshes: (refreshes + 1) as u8,
                        })
                        &&& acts == seq![ActionModel::SendWire(rooms_frame(l0))]
                    }
                },
                _ => step_ignored(l0, r0, l1, r1, st, st2, acts),
            },
            EventModel::WireClosed | EventModel::WireSendFailed => {
                &&& l1 == l0 && r1 == r0
                &&& st2 == SessionState::Terminated
                &&& acts == seq![ActionModel::Close]
            },
            _ => step_ignored(l0, r0, l1, r1, st, st2, acts),
        },
        SessionState::WaitingForOpponent { room, seat, polls } => match ev {
            EventModel::PollTick => {
                if r0[room as int] matches Some(m) && m.seat2 && m.round_ready {
                    &&& l1 == l0
                    &&& others_same(r0, r1, room as int)
                    &&& st2 == (SessionState::Playing { room, seat, last_pong: now })
                    &&& (match r0[room as int] {
                        Some(m) => {
                            if seat == 2 && !m.timer_started {
                                &&& r1[room as int]
                                    == Some((MatchModel { timer_started: true, ..m }))
                                &&& acts == seq![
                                    ActionModel::SendWire(start_frame(m.prompt)),
                                    ActionModel::StartTimer,
                                ]
                            } else {
                                &&& r1 == r0
                                &&& acts == seq![ActionModel::SendWire(start_frame(m.prompt))]
                            }
                        },
                        None => false,
                    })
                } else {
                    if polls as int + 1 > MAX_POLLS {
                        step_torn_down(l0, r0, l1, r1, room as int, st2, acts, seq![])
                    } else {
                        &&& l1 == l0 && r1 == r0
                        &&& st2 == (SessionState::WaitingForOpponent {
                            room,
                            seat,
                            polls: (polls + 1) as u16,
                        })
                        &&& acts.len() == 0
                    }
                }
            },
            EventModel::RoundContent(content) => {
                &&& l1 == l0
                &&& st2 == st
                &&& acts.len() == 0
                &&& others_same(r0, r1, room as int)
                &&& (match r0[room as int] {
                    None => r1 == r0,
                    Some(m) => {
                        if !m.round_ready && m.round_id >= ROUND_ID_MIN {
                            r1[room as int] matches Some(f) && round_installed(m, f, content)
                        } else {
                            r1 == r0
                        }
                    },
                })
            },
            EventModel::RoundLookupFailed
            | EventModel::WireClosed
            | EventModel::WireSendFailed => {
                let opp_there = r0[room as int] matches Some(m)
                    && (if seat == 1 { m.seat2 } else { m.seat1 });
                if opp_there {
                    step_torn_down(
                        l0, r0, l1, r1, room as int, st2, acts,
                        seq![ActionModel::SendOpponent(peer_gone_frame())],
                    )
                } else {
                    step_torn_down(l0, r0, l1, r1, room as int, st2, acts, seq![])
                }
            },
            _ => step_ignored(l0, r0, l1, r1, st, st2, acts),
        },
        SessionState::Playing { room, seat, last_pong } => match ev {
            EventModel::WireText(frame) => match parse_client_spec(frame) {
                ClientMsgModel::Guess(g) => {
                    &&& l1 == l0
                    &&& st2 == st
                    &&& others_same(r0, r1, room as int)
                    &&& (match r0[room as int] {
                        None => r1 == r0 && acts.len() == 0,
                        Some(m) => {
                            if m.words.contains(g) {
                                r1[room as int] matches Some(f)
                                    && credit_effect(m, f, seat, g)
                                    && {
                                        let score = if seat == 1 { f.pts1 } else { f.pts2 };
                                        let opp = if seat == 1 { m.seat2 } else { m.seat1 };
                                        if opp {
                                            acts == seq![
                                                ActionModel::SendWire(points_frame(score)),
                                                ActionModel::SendOpponent(
                                                    opponent_frame(score),
                                                ),
                                            ]
                                        } else {
                                            acts == seq![
                                                ActionModel::SendWire(points_frame(score)),
                                            ]
                                        }
                                    }
                            } else {
                                &&& r1 == r0
                                &&& acts == seq![
                                    ActionModel::SendWire(
                                        points_frame(if seat == 1 { m.pts1 } else { m.pts2 }),
                                    ),
                                ]
                            }
                        },
                    })
                },
                _ => step_ignored(l0, r0, l1, r1, st, st2, acts),
            },
            EventModel::Pong => {
                &&& l1 == l0 && r1 == r0
                &&& st2 == (SessionState::Playing { room, seat, last_pong: now })
                &&& acts.len() == 0
            },
            EventModel::OutboxMsg(m) => {
                if is_finish(m) {
                    step_torn_down(
                        l0, r0, l1, r1, room as int, st2, acts,
                        seq![ActionModel::SendWire(m)],
                    )
                } else {
                    &&& l1 == l0 && r1 == r0
                    &&& st2 == st
                    &&& acts == seq![ActionModel::SendWire(m)]
                }
            },
            EventModel::HeartbeatTick => {
                if now - last_pong > LIVENESS_TIMEOUT {
                    let opp_there = r0[room as int] matches Some(m)
                        && (if seat == 1 { m.seat2 } else { m.seat1 });
                    if opp_there {
                        step_torn_down(
                            l0, r0, l1, r1, room as int, st2, acts,
                            seq![ActionModel::SendOpponent(peer_gone_frame())],
                        )
                    } else {
                        step_torn_down(l0, r0, l1, r1, room as int, st2, acts, seq![])
                    }
                } else {
                    &&& l1 == l0 && r1 == r0
                    &&& st2 == st
                    &&& acts == seq![ActionModel::SendPing]
                }
            },
            EventModel::WireClosed | EventModel::WireSendFailed => {
                let opp_there = r0[room as int] matches Some(m)
                    && (if seat == 1 { m.seat2 } else { m.seat1 });
                if opp_there {
                    step_torn_down(
                        l0, r0, l1, r1, room as int, st2, acts,
                        seq![ActionModel::SendOpponent(peer_gone_frame())],
                    )
                } else {
                    step_torn_down(l0, r0, l1, r1, room as int, st2, acts, seq![])
                }
            },
            EventModel::OpponentSendFailed => {
                step_torn_down(
                    l0, r0, l1, r1, room as int, st2, acts,
                    seq![ActionModel::SendWire(peer_gone_frame())],
                )
            },
            _ => step_ignored(l0, r0, l1, r1, st, st2, acts),
        },
        SessionState::Terminated => {
            &&& l1 == l0 && r1 == r0
            &&& st2 == SessionState::Terminated
            &&& acts.len() == 0
        },
    }
}

fn step_selecting(
    refreshes: u8,
    ev: SessionEvent,
    now: u64,
    ledger: &mut Ledger,
    reg: &mut Registry,
) -> (r: (SessionState, Vec<SessionAction>))
    requires
        old(ledger).wf(),
        old(reg).wf(),
        consistent(old(ledger)@, old(reg)@),
        refreshes <= MAX_REFRESHES,
    ensures
        final(ledger).wf(),
        final(reg).wf(),
        consistent(final(ledger)@, final(reg)@),
        session_inv(r.0),
        step_contract(
            (SessionState::SelectingRoom { refreshes }),
            ev@,
            now,
            old(ledger)@,
            old(reg)@,
            final(ledger)@,
            final(reg)@,
            r.0,
            r.1.deep_view(),
        ),
{
    let st = SessionState::SelectingRoom { refreshes };
    match ev {
        SessionEvent::WireText(frame) => {
            match parse_client(&frame) {
                ClientMsg::Select(room) => {
                    let ghost l0 = ledger@;
                    let ghost r0 = reg@;
                    match ledger.try_claim(room) {
                        Some(_n) => {
                            proof {
                                assert(seat_count(r0[room as int]) == l0[room as int]);
                            }
                            match reg.join(room) {
                                Some(seat) => {
                                    match reg.assign_round(room) {
                                        Some(rid) => {
                                            let mut acts: Vec<SessionAction> = Vec::new();
                                            acts.push(SessionAction::FetchRound(rid));
                                            proof {
                                                assert(acts.deep_view() =~= seq![
                                                    ActionModel::FetchRound(rid as nat),
                                                ]);
                                                assert forall|i: int|
                                                    0 <= i < final(reg)@.len()
                                                    implies final(ledger)@[i] as int
                                                        == seat_count(#[trigger] final(reg)@[i])
                                                by {
                                                    if i != room as int {
                                                        assert(final(reg)@[i] == r0[i]);
                                                    }
                                                };
                                            }
                                            (
                                                SessionState::WaitingForOpponent {
                                                    room,
                                                    seat,
                                                    polls: 0,
                                                },
                                                acts,
                                            )
                                        },
                                        None => {
                                            proof {
                                                assert(false);
                                            }
                                            (SessionState::Terminated, Vec::new())
                                        },
                                    }
                                },
                                None => {
                                    proof {
                                        assert(false);
                                    }
                                    (SessionState::Terminated, Vec::new())
                                },
                            }
                        },
                        None => {
                            let mut acts: Vec<SessionAction> = Vec::new();
                            acts.push(SessionAction::Close);
                            proof {
                                assert(acts.deep_view() =~= seq![ActionModel::Close]);
                            }
                            (SessionState::Terminated, acts)
                        },
                    }
                },
                ClientMsg::Refresh => {
                    let counts = ledger.snapshot();
                    let snap = rooms_msg(&counts);
                    let mut acts: Vec<SessionAction> = Vec::new();
                    acts.push(SessionAction::SendWire(snap));
                    if refreshes + 1 > MAX_REFRESHES {
                        acts.push(SessionAction::Close);
                        proof {
                            assert(acts.deep_view() =~= seq![
                                ActionModel::SendWire(rooms_frame(old(ledger)@)),
                                ActionModel::Close,
                            ]);
                        }
                        (SessionState::Terminated, acts)
                    } else {
                        proof {
                            assert(acts.deep_view() =~= seq![
                                ActionModel::SendWire(rooms_frame(old(ledger)@)),
                            ]);
                        }
                        (SessionState::SelectingRoom { refreshes: refreshes + 1 }, acts)
                    }
                },
                _ => (st, Vec::new()),
            }
        },
        SessionEvent::WireClosed | SessionEvent::WireSendFailed => {
            let mut acts: Vec<SessionAction> = Vec::new();
            acts.push(SessionAction::Close);
            proof {
                assert(acts.deep_view() =~= seq![ActionModel::Close]);
            }
            (SessionState::Terminated, acts)
        },
        _ => (st, Vec::new()),
    }
}

fn step_waiting(
    room: usize,
    seat: u8,
    polls: u16,
    ev: SessionEvent,
    now: u64,
    ledger: &mut Ledger,
    reg: &mut Registry,
) -> (r: (SessionState, Vec<SessionAction>))
    requires
        old(ledger).wf(),
        old(reg).wf(),
        consistent(old(ledger)@, old(reg)@),
        room < ROOM_COUNT,
        seat == 1 || seat == 2,
        polls <= MAX_POLLS,
    ensures
        final(ledger).wf(),
        final(reg).wf(),
        consistent(final(ledger)@, final(reg)@),
        session_inv(r.0),
        step_contract(
            (SessionState::WaitingForOpponent { room, seat, polls }),
            ev@,
            now,
            old(ledger)@,
            old(reg)@,
            final(ledger)@,
            final(reg)@,
            r.0,
            r.1.deep_view(),
        ),
{
    let st = SessionState::WaitingForOpponent { room, seat, polls };
    match ev {
        SessionEvent::PollTick => {
            let both = reg.both_seated(room);
            let ready = reg.round_ready(room);
            if both && ready {
                let prompt = reg.prompt_of(room);
                let smsg = start_msg(&prompt);
                let mut acts: Vec<SessionAction> = Vec::new();
                acts.push(SessionAction::SendWire(smsg));
                let mut started = false;
                if seat == 2 {
                    started = reg.start_timer_if_needed(room);
                }
                if started {
                    acts.push(SessionAction::StartTimer);
                    proof {
                        let m = old(reg)@[room as int]->Some_0;
                        assert(acts.deep_view() =~= seq![
                            ActionModel::SendWire(start_frame(m.prompt)),
                            ActionModel::StartTimer,
                        ]);
                        assert forall|i: int| 0 <= i < final(reg)@.len()
                            implies final(ledger)@[i] as int
                                == seat_count(#[trigger] final(reg)@[i]) by {
                            if i != room as int {
                                assert(final(reg)@[i] == old(reg)@[i]);
                            }
                        };
                    }
                } else {
                    proof {
                        let m = old(reg)@[room as int]->Some_0;
                        assert(final(reg)@ =~= old(reg)@);
                        assert(acts.deep_view() =~= seq![
                            ActionModel::SendWire(start_frame(m.prompt)),
                        ]);
                    }
                }
                (SessionState::Playing { room, seat, last_pong: now }, acts)
            } else {
                if polls >= MAX_POLLS {
                    cleanup_room(ledger, reg, room);
                    let mut acts: Vec<SessionAction> = Vec::new();
                    acts.push(SessionAction::Close);
                    proof {
                        assert(acts.deep_view() =~= seq![ActionModel::Close]);
                        assert(acts.deep_view() =~= Seq::<ActionModel>::empty().push(
                            ActionModel::Close,
                        ));
                    }
                    (SessionState::Terminated, acts)
                } else {
                    (
                        SessionState::WaitingForOpponent { room, seat, polls: polls + 1 },
                        Vec::new(),
                    )
                }
            }
        },
        SessionEvent::RoundContent(content) => {
            let data = parse_round(&content);
            let ghost r0 = reg@;
            reg.install_round(room, data);
            proof {
                let ps = choose|ps: Seq<Seq<u8>>| {
                    &&& #[trigger] crate::words::is_split_of(
                        crate::words::trim_spec(content@),
                        ps,
                    )
                    &&& data.prompt@ == ps[0]
                    &&& forall|w: Seq<u8>| #[trigger] data.words.deep_view().contains(w)
                            <==> ps.subrange(1, ps.len() as int).contains(w)
                };
                match r0[room as int] {
                    None => {
                        assert(final(reg)@ =~= r0);
                    },
                    Some(m) => {
                        if !m.round_ready && m.round_id >= ROUND_ID_MIN {
                            let f = final(reg)@[room as int]->Some_0;
                            assert(crate::words::is_split_of(
                                crate::words::trim_spec(content@),
                                ps,
                            ));
                            assert(f == (MatchModel {
                                prompt: ps[0],
                                words: f.words,
                                round_ready: true,
                                ..m
                            }));
                            assert(round_installed(m, f, content@));
                        } else {
                            assert(final(reg)@ =~= r0);
                        }
                    },
                }
                assert forall|i: int| 0 <= i < final(reg)@.len()
                    implies final(ledger)@[i] as int == seat_count(#[trigger] final(reg)@[i]) by {
                    if i != room as int {
                        assert(final(reg)@[i] == r0[i]);
                    }
                };
            }
            (st, Vec::new())
        },
        SessionEvent::RoundLookupFailed
        | SessionEvent::WireClosed
        | SessionEvent::WireSendFailed => {
            let other: u8 = if seat == 1 { 2 } else { 1 };
            let opp = reg.seat_present(room, other);
            let mut acts: Vec<SessionAction> = Vec::new();
            if opp {
                acts.push(SessionAction::SendOpponent(peer_gone_msg()));
            }
            cleanup_room(ledger, reg, room);
            acts.push(SessionAction::Close);
            proof {
                if opp {
                    assert(acts.deep_view() =~= seq![
                        ActionModel::SendOpponent(peer_gone_frame()),
                    ].push(ActionModel::Close));
                } else {
                    assert(acts.deep_view() =~= Seq::<ActionModel>::empty().push(
                        ActionModel::Close,
                    ));
                }
            }
            (SessionState::Terminated, acts)
        },
        _ => (st, Vec::new()),
    }
}

fn step_playing(
    room: usize,
    seat: u8,
    last_pong: u64,
    ev: SessionEvent,
    now: u64,
    ledger: &mut Ledger,
    reg: &mut Registry,
) -> (r: (SessionState, Vec<SessionAction>))
    requires
        old(ledger).wf(),
        old(reg).wf(),
        consistent(old(ledger)@, old(reg)@),
        room < ROOM_COUNT,
        seat == 1 || seat == 2,
        now >= last_pong,
    ensures
        final(ledger).wf(),
        final(reg).wf(),
        consistent(final(ledger)@, final(reg)@),
        session_inv(r.0),
        step_contract(
            (SessionState::Playing { room, seat, last_pong }),
            ev@,
            now,
            old(ledger)@,
            old(reg)@,
            final(ledger)@,
            final(reg)@,
            r.0,
            r.1.deep_view(),
        ),
{
    let st = SessionState::Playing { room, seat, last_pong };
    match ev {
        SessionEvent::WireText(frame) => {
            match parse_client(&frame) {
                ClientMsg::Guess(w) => {
                    let ghost r0 = reg@;
                    let out = reg.process_guess(room, seat, &w);
                    proof {
                        assert forall|i: int| 0 <= i < final(reg)@.len()
                            implies final(ledger)@[i] as int
                                == seat_count(#[trigger] final(reg)@[i]) by {
                            if i != room as int {
                                assert(final(reg)@[i] == r0[i]);
                            }
                        };
                    }
                    match out {
                        GuessOutcome::Absent => {
                            proof {
                                assert(final(reg)@ =~= r0);
                            }
                            (st, Vec::new())
                        },
                        GuessOutcome::Credit { score, opponent_present } => {
                            let mut acts: Vec<SessionAction> = Vec::new();
                            acts.push(SessionAction::SendWire(points_msg(score)));
                            if opponent_present {
                                acts.push(SessionAction::SendOpponent(opponent_msg(score)));
                                proof {
                                    assert(acts.deep_view() =~= seq![
                                        ActionModel::SendWire(points_frame(score as nat)),
                                        ActionModel::SendOpponent(opponent_frame(score as nat)),
                                    ]);
                                }
                            } else {
                                proof {
                                    assert(acts.deep_view() =~= seq![
                                        ActionModel::SendWire(points_frame(score as nat)),
                                    ]);
                                }
                            }
                            (st, acts)
                        },
                        GuessOutcome::NoCredit { score } => {
                            let mut acts: Vec<SessionAction> = Vec::new();
                            acts.push(SessionAction::SendWire(points_msg(score)));
                            proof {
                                assert(final(reg)@ =~= r0);
                                assert(acts.deep_view() =~= seq![
                                    ActionModel::SendWire(points_frame(score as nat)),
                                ]);
                            }
                            (st, acts)
                        },
                    }
                },
                _ => (st, Vec::new()),
            }
        },
        SessionEvent::Pong => {
            (SessionState::Playing { room, seat, last_pong: now }, Vec::new())
        },
        SessionEvent::OutboxMsg(m) => {
            if is_finish_frame(&m) {
                cleanup_room(ledger, reg, room);
                let ghost mm = m@;
                let mut acts: Vec<SessionAction> = Vec::new();
                acts.push(SessionAction::SendWire(m));
                acts.push(SessionAction::Close);
                proof {
                    assert(acts.deep_view() =~= seq![ActionModel::SendWire(mm)].push(
                        ActionModel::Close,
                    ));
                }
                (SessionState::Terminated, acts)
            } else {
                let ghost mm = m@;
                let mut acts: Vec<SessionAction> = Vec::new();
                acts.push(SessionAction::SendWire(m));
                proof {
                    assert(acts.deep_view() =~= seq![ActionModel::SendWire(mm)]);
                }
                (st, acts)
            }
        },
        SessionEvent::HeartbeatTick => {
            if now - last_pong > LIVENESS_TIMEOUT {
                let other: u8 = if seat == 1 { 2 } else { 1 };
                let opp = reg.seat_present(room, other);
                let mut acts: Vec<SessionAction> = Vec::new();
                if opp {
                    acts.push(SessionAction::SendOpponent(peer_gone_msg()));
                }
                cleanup_room(ledger, reg, room);
                acts.push(SessionAction::Close);
                proof {
                    if opp {
                        assert(acts.deep_view() =~= seq![
                            ActionModel::SendOpponent(peer_gone_frame()),
                        ].push(ActionModel::Close));
                    } else {
                        assert(acts.deep_view() =~= Seq::<ActionModel>::empty().push(
                            ActionModel::Close,
                        ));
                    }
                }
                (SessionState::Terminated, acts)
            } else {
                let mut acts: Vec<SessionAction> = Vec::new();
                acts.push(SessionAction::SendPing);
                proof {
                    assert(acts.deep_view() =~= seq![ActionModel::SendPing]);
                }
                (st, acts)
            }
        },
        SessionEvent::WireClosed | SessionEvent::WireSendFailed => {
            let other: u8 = if seat == 1 { 2 } else { 1 };
            let opp = reg.seat_present(room, other);
            let mut acts: Vec<SessionAction> = Vec::new();
            if opp {
                acts.push(SessionAction::SendOpponent(peer_gone_msg()));
            }
            cleanup_room(ledger, reg, room);
            acts.push(SessionAction::Close);
            proof {
                if opp {
                    assert(acts.deep_view() =~= seq![
                        ActionModel::SendOpponent(peer_gone_frame()),
                    ].push(ActionModel::Close));
                } else {
                    assert(acts.deep_view() =~= Seq::<ActionModel>::empty().push(
                        ActionModel::Close,
                    ));
                }
            }
            (SessionState::Terminated, acts)
        },
        SessionEvent::OpponentSendFailed => {
            cleanup_room(ledger, reg, room);
            let mut acts: Vec<SessionAction> = Vec::new();
            acts.push(SessionAction::SendWire(peer_gone_msg()));
            acts.push(SessionAction::Close);
            proof {
                assert(acts.deep_view() =~= seq![
                    ActionModel::SendWire(peer_gone_frame()),
                ].push(ActionModel::Close));
            }
            (SessionState::Terminated, acts)
        },
        _ => (st, Vec::new()),
    }
}

/// Runs one transition of the Connection Session state machine: from the
/// current session state and one ready event, under exclusive access to the
/// shared Room Ledger and Match Registry, to the next session state and the
/// actions the caller must perform. `now` is the caller's monotonic clock in
/// time-units. The whole transition relation is `step_contract`.
pub fn session_step(
    st: SessionState,
    ev: SessionEvent,
    now: u64,
    ledger: &mut Ledger,
    reg: &mut Registry,
) -> (r: (SessionState, Vec<SessionAction>))
    requires
        old(ledger).wf(),
        old(reg).wf(),
        consistent(old(ledger)@, old(reg)@),
        session_inv(st),
        st matches SessionState::Playing { last_pong, .. } ==> now >= last_pong,
    ensures
        final(ledger).wf(),
        final(reg).wf(),
        consistent(final(ledger)@, final(reg)@),
        session_inv(r.0),
        step_contract(
            st,
            ev@,
            now,
            old(ledger)@,
            old(reg)@,
            final(ledger)@,
            final(reg)@,
            r.0,
            r.1.deep_view(),
        ),
{
    match st {
        SessionState::Connecting => match ev {
            SessionEvent::Connected => {
                let counts = ledger.snapshot();
                let snap = rooms_msg(&counts);
                let mut acts: Vec<SessionAction> = Vec::new();
                acts.push(SessionAction::SendWire(snap));
                proof {
                    assert(acts.deep_view() =~= seq![
                        ActionModel::SendWire(rooms_frame(old(ledger)@)),
                    ]);
                }
                (SessionState::SelectingRoom { refreshes: 0 }, acts)
            },
            SessionEvent::WireClosed | SessionEvent::WireSendFailed => {
                let mut acts: Vec<SessionAction> = Vec::new();
                acts.push(SessionAction::Close);
                proof {
                    assert(acts.deep_view() =~= seq![ActionModel::Close]);
                }
                (SessionState::Terminated, acts)
            },
            _ => (SessionState::Connecting, Vec::new()),
        },
        SessionState::SelectingRoom { refreshes } => {
            step_selecting(refreshes, ev, now, ledger, reg)
        },
        SessionState::WaitingForOpponent { room, seat, polls } => {
            step_waiting(room, seat, polls, ev, now, ledger, reg)
        },
        SessionState::Playing { room, seat, last_pong } => {
            step_playing(room, seat, last_pong, ev, now, ledger, reg)
        },
        SessionState::Terminated => (SessionState::Terminated, Vec::new()),
    }
}

/// Cleanup is idempotent: after one cleanup of a room, a second cleanup of
/// the same room changes nothing.
pub proof fn lemma_cleanup_idempotent(led: Seq<u8>, reg: Seq<Option<MatchModel>>, room: int)
    requires
        0 <= room < led.len(),
        0 <= room < reg.len(),
    ensures
        cleanup_spec(
            cleanup_spec(led, reg, room).0,
            cleanup_spec(led, reg, room).1,
            room,
        ) == cleanup_spec(led, reg, room),
{
    assert(led.update(room, 0u8).update(room, 0u8) =~= led.update(room, 0u8));
    assert(reg.update(room, None).update(room, None) =~= reg.update(room, None));
}

/// Every transition into Terminated from a state that holds a seat leaves
/// that room free: its occupancy count is 0 and its Match entry is gone.
/// With `lemma_cleanup_idempotent`, a second cleanup of the room is a no-op.
pub proof fn lemma_terminated_room_freed(
    st: SessionState,
    ev: EventModel,
    now: u64,
    l0: Seq<u8>,
    r0: Seq<Option<MatchModel>>,
    l1: Seq<u8>,
    r1: Seq<Option<MatchModel>>,
    st2: SessionState,
    acts: Seq<ActionModel>,
    room: int,
)
    requires
        step_contract(st, ev, now, l0, r0, l1, r1, st2, acts),
        session_inv(st),
        l0.len() == ROOM_COUNT,
        r0.len() == ROOM_COUNT,
        st2 == SessionState::Terminated,
        match st {
            SessionState::WaitingForOpponent { room: rm, .. } => rm == room,
            SessionState::Playing { room: rm, .. } => rm == room,
            _ => false,
        },
    ensures
        r1[room] is None,
        l1[room] == 0,
{
}

/// Exactly one Match Timer per Match: a step emits `StartTimer` only from a
/// seat-2 session whose room's Match has both seats filled and no timer yet,
/// and it sets the flag in the same step; and no step ever takes a started
/// flag away while the Match lives. Along any run, each Match therefore
/// starts at most one timer, and only once both seats are filled.
pub proof fn lemma_timer_started_once(
    st: SessionState,
    ev: EventModel,
    now: u64,
    l0: Seq<u8>,
    r0: Seq<Option<MatchModel>>,
    l1: Seq<u8>,
    r1: Seq<Option<MatchModel>>,
    st2: SessionState,
    acts: Seq<ActionModel>,
)
    requires
        step_contract(st, ev, now, l0, r0, l1, r1, st2, acts),
        session_inv(st),
        r0.len() == ROOM_COUNT,
        forall|i: int| 0 <= i < r0.len()
            ==> (#[trigger] r0[i] matches Some(m) ==> match_wf(m)),
    ensures
        acts.contains(ActionModel::StartTimer) ==> (st matches
            SessionState::WaitingForOpponent { room, seat, .. }
            && seat == 2
            && (r0[room as int] matches Some(m) && m.seat1 && m.seat2 && !m.timer_started)
            && (r1[room as int] matches Some(f) && f.timer_started)),
        forall|i: int| 0 <= i < r0.len() && 0 <= i < r1.len()
            ==> match (r0[i], #[trigger] r1[i]) {
                (Some(m), Some(f)) => m.timer_started ==> f.timer_started,
                _ => true,
            },
{
    if acts.contains(ActionModel::StartTimer) {
        let j = choose|j: int| 0 <= j < acts.len() && acts[j] == ActionModel::StartTimer;
        match st {
            SessionState::WaitingForOpponent { room, seat, polls } => {
                match ev {
                    EventModel::PollTick => {
                        if r0[room as int] matches Some(m) && m.seat2 && m.round_ready {
                        } else {
                            assert(false);
                        }
                    },
                    _ => {
                        assert(false);
                    },
                }
            },
            _ => {
                assert(false);
            },
        }
    }
}

} // verus!
