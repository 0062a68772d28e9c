//! Wire-message codec: every frame the server sends or the client may send,
//! as byte strings with an exact mathematical description.
//!
//! Server frames: `a:NNNN` (room snapshot), `s:<prompt>` (round start),
//! `p:<score>` (own score echo), `o:<score>` (opponent's score),
//! `f:u` / `f:o` / `f:d` (finish: win / loss / draw), `f:x` (peer gone).
//! Client frames: `a`..`d` (select a room), `r` (refresh), `g:<word>` (guess).

use vstd::prelude::*;
use crate::outcome::Outcome;
use crate::ROOM_COUNT;

verus! {

pub const BYTE_COLON: u8 = 58;
pub const BYTE_COMMA: u8 = 44;
pub const BYTE_ZERO: u8 = 48;
pub const TAG_ROOMS: u8 = 97; // 'a'
pub const TAG_START: u8 = 115; // 's'
pub const TAG_POINTS: u8 = 112; // 'p'
pub const TAG_OPPONENT: u8 = 111; // 'o'
pub const TAG_FINISH: u8 = 102; // 'f'
pub const TAG_GUESS: u8 = 103; // 'g'
pub const BYTE_REFRESH: u8 = 114; // 'r'
pub const BYTE_WIN: u8 = 117; // 'u'
pub const BYTE_LOSS: u8 = 111; // 'o'
pub const BYTE_DRAW: u8 = 100; // 'd'
pub const BYTE_GONE: u8 = 120; // 'x'

/// Decimal digits of `n`, most significant first, as ASCII bytes.
pub open spec fn dec_digits(n: nat) -> Seq<u8>
    decreases n,
{
    if n < 10 {
        seq![(n + BYTE_ZERO) as u8]
    } else {
        dec_digits(n / 10).push(((n % 10) + BYTE_ZERO) as u8)
    }
}

/// Renders `n` in decimal, exactly as `dec_digits` describes.
pub fn usize_to_dec(n: usize) -> (r: Vec<u8>)
    ensures
        r@ == dec_digits(n as nat),
    decreases n,
{
    if n < 10 {
        let mut v: Vec<u8> = Vec::new();
        v.push((n as u8) + BYTE_ZERO);
        proof {
            assert(v@ =~= dec_digits(n as nat));
        }
        v
    } else {
        let mut v = usize_to_dec(n / 10);
        v.push(((n % 10) as u8) + BYTE_ZERO);
        proof {
            assert(v@ =~= dec_digits(n as nat));
        }
        v
    }
}

/// The room-snapshot frame: `a:` followed by one digit per room.
pub open spec fn rooms_frame(counts: Seq<u8>) -> Seq<u8> {
    seq![TAG_ROOMS, BYTE_COLON] + counts.map_values(|c: u8| (c + BYTE_ZERO) as u8)
}

/// Builds the room-snapshot frame from the per-room occupancy counts.
pub fn rooms_msg(counts: &Vec<u8>) -> (r: Vec<u8>)
    requires
        counts@.len() == ROOM_COUNT,
        forall|i: int| 0 <= i < counts@.len() ==> counts@[i] <= 2,
    ensures
        r@ == rooms_frame(counts@),
{
    let mut v: Vec<u8> = Vec::new();
    v.push(TAG_ROOMS);
    v.push(BYTE_COLON);
    let mut i: usize = 0;
    while i < counts.len()
        invariant
            i <= counts@.len(),
            counts@.len() == ROOM_COUNT,
            forall|k: int| 0 <= k < counts@.len() ==> counts@[k] <= 2,
            v@ == seq![TAG_ROOMS, BYTE_COLON]
                + counts@.subrange(0, i as int).map_values(|c: u8| (c + BYTE_ZERO) as u8),
        decreases counts@.len() - i,
    {
        v.push(counts[i] + BYTE_ZERO);
        i = i + 1;
        proof {
            assert(counts@.subrange(0, i as int).map_values(|c: u8| (c + BYTE_ZERO) as u8)
                =~= counts@.subrange(0, i - 1).map_values(|c: u8| (c + BYTE_ZERO) as u8)
                    .push((counts@[i - 1] + BYTE_ZERO) as u8));
        }
    }
    proof {
        assert(counts@.subrange(0, counts@.len() as int) =~= counts@);
        assert(v@ =~= rooms_frame(counts@));
    }
    v
}

/// A frame made of a tag byte, a colon, and a payload.
pub open spec fn tagged_frame(tag: u8, payload: Seq<u8>) -> Seq<u8> {
    seq![tag, BYTE_COLON] + payload
}

/// Builds `<tag>:<payload>`.
pub fn tagged_msg(tag: u8, payload: &Vec<u8>) -> (r: Vec<u8>)
    ensures
        r@ == tagged_frame(tag, payload@),
{
    let mut v: Vec<u8> = Vec::new();
    v.push(tag);
    v.push(BYTE_COLON);
    let mut i: usize = 0;
    while i < payload.len()
        invariant
            i <= payload@.len(),
            v@ == seq![tag, BYTE_COLON] + payload@.subrange(0, i as int),
        decreases payload@.len() - i,
    {
        v.push(payload[i]);
        i = i + 1;
        proof {
            assert(seq![tag, BYTE_COLON] + payload@.subrange(0, i as int)
                =~= (seq![tag, BYTE_COLON] + payload@.subrange(0, i - 1)).push(payload@[i - 1]));
        }
    }
    proof {
        assert(payload@.subrange(0, payload@.len() as int) =~= payload@);
    }
    v
}

/// The round-start frame: `s:<prompt>`.
pub open spec fn start_frame(prompt: Seq<u8>) -> Seq<u8> {
    tagged_frame(TAG_START, prompt)
}

/// Builds the round-start frame.
pub fn start_msg(prompt: &Vec<u8>) -> (r: Vec<u8>)
    ensures
        r@ == start_frame(prompt@),
{
    tagged_msg(TAG_START, prompt)
}

/// The own-score echo frame: `p:<score>`.
pub open spec fn points_frame(score: nat) -> Seq<u8> {
    tagged_frame(TAG_POINTS, dec_digits(score))
}

/// Builds the own-score echo frame.
pub fn points_msg(score: usize) -> (r: Vec<u8>)
    ensures
        r@ == points_frame(score as nat),
{
    let digits = usize_to_dec(score);
    tagged_msg(TAG_POINTS, &digits)
}

/// The opponent-score frame: `o:<score>`.
pub open spec fn opponent_frame(score: nat) -> Seq<u8> {
    tagged_frame(TAG_OPPONENT, dec_digits(score))
}

/// Builds the opponent-score frame.
pub fn opponent_msg(score: usize) -> (r: Vec<u8>)
    ensures
        r@ == opponent_frame(score as nat),
{
    let digits = usize_to_dec(score);
    tagged_msg(TAG_OPPONENT, &digits)
}

/// The finish frame for one seat's outcome: `f:u`, `f:o` or `f:d`.
pub open spec fn finish_frame(o: Outcome) -> Seq<u8> {
    match o {
        Outcome::Win => seq![TAG_FINISH, BYTE_COLON, BYTE_WIN],
        Outcome::Loss => seq![TAG_FINISH, BYTE_COLON, BYTE_LOSS],
        Outcome::Draw => seq![TAG_FINISH, BYTE_COLON, BYTE_DRAW],
    }
}

/// Builds the finish frame for one seat's outcome.
pub fn finish_msg(o: Outcome) -> (r: Vec<u8>)
    ensures
        r@ == finish_frame(o),
{
    let b = match o {
        Outcome::Win => BYTE_WIN,
        Outcome::Loss => BYTE_LOSS,
        Outcome::Draw => BYTE_DRAW,
    };
    let mut v: Vec<u8> = Vec::new();
    v.push(TAG_FINISH);
    v.push(BYTE_COLON);
    v.push(b);
    proof {
        assert(v@ =~= finish_frame(o));
    }
    v
}

/// The peer-disconnected frame: `f:x`.
pub open spec fn peer_gone_frame() -> Seq<u8> {
    seq![TAG_FINISH, BYTE_COLON, BYTE_GONE]
}

/// Builds the peer-disconnected frame.
pub fn peer_gone_msg() -> (r: Vec<u8>)
    ensures
        r@ == peer_gone_frame(),
{
    let mut v: Vec<u8> = Vec::new();
    v.push(TAG_FINISH);
    v.push(BYTE_COLON);
    v.push(BYTE_GONE);
    proof {
        assert(v@ =~= peer_gone_frame());
    }
    v
}

/// Whether a frame is a finish notification (`f:` prefix): a session that
/// relays one from its outbox terminates afterwards.
pub open spec fn is_finish(m: Seq<u8>) -> bool {
    m.len() >= 2 && m[0] == TAG_FINISH && m[1] == BYTE_COLON
}

/// Tests for the `f:` prefix.
pub fn is_finish_frame(m: &Vec<u8>) -> (r: bool)
    ensures
        r == is_finish(m@),
{
    m.len() >= 2 && m[0] == TAG_FINISH && m[1] == BYTE_COLON
}

/// A client frame, decoded.
pub enum ClientMsg {
    /// Select the room with this index.
    Select(usize),
    /// Ask for a fresh room snapshot.
    Refresh,
    /// Guess this word.
    Guess(Vec<u8>),
    /// Anything else: a protocol error, discarded.
    Other,
}

/// Spec-level image of a decoded client frame.
pub ghost enum ClientMsgModel {
    Select(int),
    Refresh,
    Guess(Seq<u8>),
    Other,
}

impl View for ClientMsg {
    type V = ClientMsgModel;

    open spec fn view(&self) -> ClientMsgModel {
        match self {
            ClientMsg::Select(i) => ClientMsgModel::Select(*i as int),
            ClientMsg::Refresh => ClientMsgModel::Refresh,
            ClientMsg::Guess(w) => ClientMsgModel::Guess(w@),
            ClientMsg::Other => ClientMsgModel::Other,
        }
    }
}

/// What a client frame decodes to: a single room letter `a`..`d` selects that
/// room, `r` asks for a refresh, `g:<word>` guesses, all else is noise.
pub open spec fn parse_client_spec(s: Seq<u8>) -> ClientMsgModel {
    if s.len() == 1 && TAG_ROOMS <= s[0] < TAG_ROOMS + ROOM_COUNT {
        ClientMsgModel::Select(s[0] - TAG_ROOMS)
    } else if s == seq![BYTE_REFRESH] {
        ClientMsgModel::Refresh
    } else if s.len() >= 2 && s[0] == TAG_GUESS && s[1] == BYTE_COLON {
        ClientMsgModel::Guess(s.subrange(2, s.len() as int))
    } else {
        ClientMsgModel::Other
    }
}

/// Decodes a client frame, exactly as `parse_client_spec` describes.
pub fn parse_client(frame: &Vec<u8>) -> (r: ClientMsg)
    ensures
        r@ == parse_client_spec(frame@),
        r matches ClientMsg::Select(i) ==> i < ROOM_COUNT,
{
    if frame.len() == 1 && TAG_ROOMS <= frame[0] && frame[0] < TAG_ROOMS + (ROOM_COUNT as u8) {
        ClientMsg::Select((frame[0] - TAG_ROOMS) as usize)
    } else if frame.len() == 1 && frame[0] == BYTE_REFRESH {
        proof {
            assert(frame@ =~= seq![BYTE_REFRESH]);
        }
        ClientMsg::Refresh
    } else if frame.len() >= 2 && frame[0] == TAG_GUESS && frame[1] == BYTE_COLON {
        let mut w: Vec<u8> = Vec::new();
        let mut i: usize = 2;
        while i < frame.len()
            invariant
                2 <= i <= frame@.len(),
                w@ == frame@.subrange(2, i as int),
            decreases frame@.len() - i,
        {
            w.push(frame[i]);
            i = i + 1;
            proof {
                assert(frame@.subrange(2, i as int)
                    =~= frame@.subrange(2, i - 1).push(frame@[i - 1]));
            }
        }
        proof {
            assert(frame@ != seq![BYTE_REFRESH]);
        }
        ClientMsg::Guess(w)
    } else {
        proof {
            if frame@ == seq![BYTE_REFRESH] {
                assert(frame@.len() == 1 && frame@[0] == BYTE_REFRESH);
            }
        }
        ClientMsg::Other
    }
}

} // verus!
