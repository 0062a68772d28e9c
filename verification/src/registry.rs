//! Match Registry: one optional live Match per room, created lazily on the
//! first seat claim, mutated by both sessions' score updates, and removed by
//! cleanup. Scores carry a ghost record of the words they were earned with,
//! so that "score = total length of the distinct correctly guessed words"
//! is an invariant, not a convention.

use rand::Rng;
use vstd::prelude::*;
use crate::words::{
    find_word, lemma_member_len_le_sum, lemma_no_dups_push, lemma_push_contains,
    lemma_remove_contains, lemma_sum_lens_push, lemma_sum_lens_remove, sum_lens, RoundData,
};
use crate::ROOM_COUNT;

verus! {

/// Round identifiers handed out by the round provider: 0 means "unassigned",
/// assigned identifiers lie in [`ROUND_ID_MIN`, `ROUND_ID_MAX`].
pub const ROUND_ID_MIN: usize = 1;
pub const ROUND_ID_MAX: usize = 49;

/// Relies on `rand::Rng::gen_range` over `lo..=hi`: the sample lies in the
/// given range; `lo <= hi` keeps the range nonempty, which is the one case
/// in which `gen_range` panics.
#[verifier::external_body]
fn draw_in_range(lo: usize, hi: usize) -> (r: usize)
    requires
        lo <= hi,
    ensures
        lo <= r <= hi,
{
    rand::thread_rng().gen_range(lo..=hi)
}

/// Spec-level image of one live Match.
#[verifier::ext_equal]
pub ghost struct MatchModel {
    /// Seat 1's outbox is attached.
    pub seat1: bool,
    /// Seat 2's outbox is attached.
    pub seat2: bool,
    pub pts1: nat,
    pub pts2: nat,
    /// 0 while unassigned.
    pub round_id: nat,
    pub prompt: Seq<u8>,
    /// Remaining acceptable answers, shared by both seats: first committer
    /// wins, so a word can be credited at most once per match.
    pub words: Seq<Seq<u8>>,
    /// The round's prompt and answers have been installed.
    pub round_ready: bool,
    pub timer_started: bool,
    /// Words credited to seat 1, in credit order.
    pub credited1: Seq<Seq<u8>>,
    /// Words credited to seat 2, in credit order.
    pub credited2: Seq<Seq<u8>>,
}

/// The Match a first seat claim creates.
pub open spec fn fresh_match() -> MatchModel {
    MatchModel {
        seat1: true,
        seat2: false,
        pts1: 0,
        pts2: 0,
        round_id: 0,
        prompt: Seq::empty(),
        words: Seq::empty(),
        round_ready: false,
        timer_started: false,
        credited1: Seq::empty(),
        credited2: Seq::empty(),
    }
}

/// Invariant of one live Match.
pub open spec fn match_wf(m: MatchModel) -> bool {
    &&& m.seat1
    &&& m.timer_started ==> m.seat2
    &&& m.pts1 == sum_lens(m.credited1)
    &&& m.pts2 == sum_lens(m.credited2)
    &&& m.words.no_duplicates()
    &&& m.credited1.no_duplicates()
    &&& m.credited2.no_duplicates()
    &&& forall|w: Seq<u8>| #[trigger] m.credited1.contains(w)
        ==> !m.words.contains(w) && !m.credited2.contains(w)
    &&& forall|w: Seq<u8>| #[trigger] m.credited2.contains(w) ==> !m.words.contains(w)
    &&& m.pts1 + m.pts2 + sum_lens(m.words) <= usize::MAX
    &&& !m.round_ready ==> {
        &&& m.pts1 == 0
        &&& m.pts2 == 0
        &&& m.credited1.len() == 0
        &&& m.credited2.len() == 0
        &&& m.words.len() == 0
    }
    &&& m.round_id <= ROUND_ID_MAX
    &&& m.round_ready ==> m.round_id >= ROUND_ID_MIN
}

/// One live Match: the executable state behind `MatchModel`.
pub struct MatchState {
    seat1: bool,
    seat2: bool,
    pts1: usize,
    pts2: usize,
    round_id: usize,
    prompt: Vec<u8>,
    words: Vec<Vec<u8>>,
    round_ready: bool,
    timer_started: bool,
    credited1: Ghost<Seq<Seq<u8>>>,
    credited2: Ghost<Seq<Seq<u8>>>,
}

impl View for MatchState {
    type V = MatchModel;

    closed spec fn view(&self) -> MatchModel {
        MatchModel {
            seat1: self.seat1,
            seat2: self.seat2,
            pts1: self.pts1 as nat,
            pts2: self.pts2 as nat,
            round_id: self.round_id as nat,
            prompt: self.prompt@,
            words: self.words.deep_view(),
            round_ready: self.round_ready,
            timer_started: self.timer_started,
            credited1: self.credited1@,
            credited2: self.credited2@,
        }
    }
}

/// What processing one guess came to.
#[derive(Clone, Copy, Debug, PartialEq, Eq, Structural)]
pub enum GuessOutcome {
    /// The room holds no Match: nothing to report.
    Absent,
    /// The guess was in the remaining answer set: it was removed, the
    /// guesser's score grew by its length.
    Credit { score: usize, opponent_present: bool },
    /// No credit: the word was not (or no longer) acceptable; the score is
    /// echoed unchanged.
    NoCredit { score: usize },
}

/// How a credited guess `g` by `seat` turns Match `m` into Match `f`: the
/// word leaves the shared remaining set, the guesser's score grows by its
/// length and the word joins that seat's credited record; everything else
/// stands.
pub open spec fn credit_effect(m: MatchModel, f: MatchModel, seat: u8, g: Seq<u8>) -> bool {
    &&& f.seat1 == m.seat1
    &&& f.seat2 == m.seat2
    &&& f.round_id == m.round_id
    &&& f.prompt == m.prompt
    &&& f.round_ready == m.round_ready
    &&& f.timer_started == m.timer_started
    &&& f.words.no_duplicates()
    &&& forall|w: Seq<u8>| #[trigger] f.words.contains(w) <==> (m.words.contains(w) && w != g)
    &&& if seat == 1 {
        &&& f.pts1 == m.pts1 + g.len()
        &&& f.pts2 == m.pts2
        &&& f.credited1 == m.credited1.push(g)
        &&& f.credited2 == m.credited2
    } else {
        &&& f.pts2 == m.pts2 + g.len()
        &&& f.pts1 == m.pts1
        &&& f.credited2 == m.credited2.push(g)
        &&& f.credited1 == m.credited1
    }
}

/// A word credited to either seat is no longer in the remaining answer set,
/// so it can never be credited again, to anyone: credit is first-committer-
/// wins, once per word per match.
pub proof fn lemma_no_double_credit(m: MatchModel, w: Seq<u8>)
    requires
        match_wf(m),
        m.credited1.contains(w) || m.credited2.contains(w),
    ensures
        !m.words.contains(w),
{
}

/// Each seat's score is exactly the total length of the distinct words
/// credited to that seat, and no word is credited to both seats.
pub proof fn lemma_scores_are_credit_sums(m: MatchModel)
    requires
        match_wf(m),
    ensures
        m.pts1 == sum_lens(m.credited1),
        m.pts2 == sum_lens(m.credited2),
        m.credited1.no_duplicates(),
        m.credited2.no_duplicates(),
        forall|w: Seq<u8>| #[trigger] m.credited1.contains(w) ==> !m.credited2.contains(w),
{
}

/// The shared mapping from room to live Match.
pub struct Registry {
    entries: Vec<Option<MatchState>>,
}

impl View for Registry {
    type V = Seq<Option<MatchModel>>;

    closed spec fn view(&self) -> Seq<Option<MatchModel>> {
        Seq::new(
            self.entries@.len(),
            |i: int|
                match self.entries@[i] {
                    Some(m) => Some(m@),
                    None => None,
                },
        )
    }
}

impl Registry {
    /// Every room's entry, when present, is a well-formed Match.
    pub open spec fn wf(self) -> bool {
        &&& self@.len() == ROOM_COUNT
        &&& forall|i: int| 0 <= i < self@.len()
            ==> (#[trigger] self@[i] matches Some(m) ==> match_wf(m))
    }

    /// A fresh registry: no live matches.
    pub fn new() -> (r: Registry)
        ensures
            r.wf(),
            forall|i: int| 0 <= i < ROOM_COUNT ==> r@[i] is None,
    {
        let mut entries: Vec<Option<MatchState>> = Vec::new();
        entries.push(None);
        entries.push(None);
        entries.push(None);
        entries.push(None);
        Registry { entries }
    }

    /// Lazily creates the room's Match and attaches the caller to its first
    /// empty seat. The first successful claimant is seat 1; the second
    /// distinct one is always seat 2; a full match refuses the claim and is
    /// left untouched. Seat order is the order of these calls, nothing else.
    pub fn join(&mut self, room: usize) -> (seat: Option<u8>)
        requires
            old(self).wf(),
            room < ROOM_COUNT,
        ensures
            final(self).wf(),
            final(self)@.len() == old(self)@.len(),
            forall|i: int| 0 <= i < old(self)@.len() && i != room as int
                ==> final(self)@[i] == old(self)@[i],
            match old(self)@[room as int] {
                None => seat == Some(1u8) && final(self)@[room as int] == Some(fresh_match()),
                Some(m) => {
                    if !m.seat2 {
                        &&& seat == Some(2u8)
                        &&& final(self)@[room as int] == Some((MatchModel { seat2: true, ..m }))
                    } else {
                        &&& seat is None
                        &&& final(self)@[room as int] == old(self)@[room as int]
                    }
                },
            },
    {
        let ghost old_view = self@;
        let ent = &mut self.entries[room];
        let seat: Option<u8> = match ent {
            None => {
                let prompt: Vec<u8> = Vec::new();
                let words: Vec<Vec<u8>> = Vec::new();
                let fresh = MatchState {
                    seat1: true,
                    seat2: false,
                    pts1: 0,
                    pts2: 0,
                    round_id: 0,
                    prompt,
                    words,
                    round_ready: false,
                    timer_started: false,
                    credited1: Ghost(Seq::empty()),
                    credited2: Ghost(Seq::empty()),
                };
                proof {
                    assert(fresh@ =~~= fresh_match());
                }
                *ent = Some(fresh);
                Some(1)
            },
            Some(ms) => {
                if !ms.seat2 {
                    ms.seat2 = true;
                    Some(2)
                } else {
                    None
                }
            },
        };
        proof {
            assert(final(self)@ =~= old_view.update(room as int, final(self)@[room as int]));
        }
        seat
    }

    /// Removes the room's Match entry, if any.
    pub fn remove_entry(&mut self, room: usize)
        requires
            old(self).wf(),
            room < ROOM_COUNT,
        ensures
            final(self).wf(),
            final(self)@ == old(self)@.update(room as int, None),
    {
        let ghost old_view = self@;
        let ent = &mut self.entries[room];
        *ent = None;
        proof {
            assert(final(self)@ =~= old_view.update(room as int, None));
        }
    }

    /// Whether the room holds a live Match.
    pub fn has_entry(&self, room: usize) -> (r: bool)
        requires
            self.wf(),
            room < ROOM_COUNT,
        ensures
            r == (self@[room as int] is Some),
    {
        self.entries[room].is_some()
    }

    /// Whether both seats of the room's Match are attached.
    pub fn both_seated(&self, room: usize) -> (r: bool)
        requires
            self.wf(),
            room < ROOM_COUNT,
        ensures
            r == (self@[room as int] matches Some(m) && m.seat1 && m.seat2),
    {
        match &self.entries[room] {
            Some(m) => m.seat1 && m.seat2,
            None => false,
        }
    }

    /// Whether the given seat of the room's Match is attached.
    pub fn seat_present(&self, room: usize, seat: u8) -> (r: bool)
        requires
            self.wf(),
            room < ROOM_COUNT,
            seat == 1 || seat == 2,
        ensures
            r == (self@[room as int] matches Some(m)
                && (if seat == 1 { m.seat1 } else { m.seat2 })),
    {
        match &self.entries[room] {
            Some(m) => if seat == 1 { m.seat1 } else { m.seat2 },
            None => false,
        }
    }

    /// Whether the room's Match has its round installed.
    pub fn round_ready(&self, room: usize) -> (r: bool)
        requires
            self.wf(),
            room < ROOM_COUNT,
        ensures
            r == (self@[room as int] matches Some(m) && m.round_ready),
    {
        match &self.entries[room] {
            Some(m) => m.round_ready,
            None => false,
        }
    }

    /// The two scores of the room's Match, if one is live.
    pub fn scores(&self, room: usize) -> (r: Option<(usize, usize)>)
        requires
            self.wf(),
            room < ROOM_COUNT,
        ensures
            match self@[room as int] {
                Some(m) => (r matches Some(p) && p.0 == m.pts1 && p.1 == m.pts2),
                None => r is None,
            },
    {
        match &self.entries[room] {
            Some(m) => Some((m.pts1, m.pts2)),
            None => None,
        }
    }

    /// Assigns the room's round identifier if it has none yet (drawn from
    /// the provider's range), and returns the identifier in force; lazily,
    /// exactly once per Match. A room without a Match gets nothing.
    pub fn assign_round(&mut self, room: usize) -> (r: Option<usize>)
        requires
            old(self).wf(),
            room < ROOM_COUNT,
        ensures
            final(self).wf(),
            final(self)@.len() == old(self)@.len(),
            forall|i: int| 0 <= i < old(self)@.len() && i != room as int
                ==> final(self)@[i] == old(self)@[i],
            match old(self)@[room as int] {
                None => r is None && final(self)@[room as int] == old(self)@[room as int],
                Some(m) => {
                    if m.round_id == 0 {
                        &&& final(self)@[room as int] matches Some(f)
                            && ROUND_ID_MIN <= f.round_id <= ROUND_ID_MAX
                            && f == (MatchModel { round_id: f.round_id, ..m })
                            && (r matches Some(id) && id == f.round_id)
                    } else {
                        &&& final(self)@[room as int] == old(self)@[room as int]
                        &&& r matches Some(id) && id == m.round_id
                    }
                },
            },
    {
        let ghost old_view = self@;
        let ent = &mut self.entries[room];
        let r: Option<usize> = match ent {
            None => None,
            Some(ms) => {
                if ms.round_id == 0 {
                    ms.round_id = draw_in_range(ROUND_ID_MIN, ROUND_ID_MAX);
                }
                Some(ms.round_id)
            },
        };
        proof {
            assert(final(self)@ =~= old_view.update(room as int, final(self)@[room as int]));
        }
        r
    }

    /// Installs the round's prompt and answer set into the room's Match,
    /// once: a Match whose round is already installed, or whose round
    /// identifier is still unassigned, is left untouched.
    pub fn install_round(&mut self, room: usize, data: RoundData)
        requires
            old(self).wf(),
            room < ROOM_COUNT,
            data.words.deep_view().no_duplicates(),
            sum_lens(data.words.deep_view()) <= usize::MAX,
        ensures
            final(self).wf(),
            final(self)@.len() == old(self)@.len(),
            forall|i: int| 0 <= i < old(self)@.len() && i != room as int
                ==> final(self)@[i] == old(self)@[i],
            match old(self)@[room as int] {
                None => final(self)@[room as int] == old(self)@[room as int],
                Some(m) => {
                    if !m.round_ready && m.round_id >= ROUND_ID_MIN {
                        final(self)@[room as int] == Some(
                            (MatchModel {
                                prompt: data.prompt@,
                                words: data.words.deep_view(),
                                round_ready: true,
                                ..m
                            }),
                        )
                    } else {
                        final(self)@[room as int] == old(self)@[room as int]
                    }
                },
            },
    {
        let ghost old_view = self@;
        let ent = &mut self.entries[room];
        match ent {
            None => {},
            Some(ms) => {
                if !ms.round_ready && ms.round_id >= ROUND_ID_MIN {
                    ms.prompt = data.prompt;
                    ms.words = data.words;
                    ms.round_ready = true;
                }
            },
        }
        proof {
            assert(final(self)@ =~= old_view.update(room as int, final(self)@[room as int]));
        }
    }

    /// Marks the room's Match Timer as started, if both seats are filled and
    /// it has not been started yet; says whether this call was the one that
    /// started it. At most one call per Match ever returns true, and only
    /// once both seats are filled.
    pub fn start_timer_if_needed(&mut self, room: usize) -> (started: bool)
        requires
            old(self).wf(),
            room < ROOM_COUNT,
        ensures
            final(self).wf(),
            final(self)@.len() == old(self)@.len(),
            forall|i: int| 0 <= i < old(self)@.len() && i != room as int
                ==> final(self)@[i] == old(self)@[i],
            started == (old(self)@[room as int] matches Some(m) && m.seat2
                && !m.timer_started),
            match old(self)@[room as int] {
                None => final(self)@[room as int] == old(self)@[room as int],
                Some(m) => {
                    if m.seat2 && !m.timer_started {
                        final(self)@[room as int]
                            == Some((MatchModel { timer_started: true, ..m }))
                    } else {
                        final(self)@[room as int] == old(self)@[room as int]
                    }
                },
            },
    {
        let ghost old_view = self@;
        let ent = &mut self.entries[room];
        let started = match ent {
            None => false,
            Some(ms) => {
                if ms.seat2 && !ms.timer_started {
                    ms.timer_started = true;
                    true
                } else {
                    false
                }
            },
        };
        proof {
            assert(final(self)@ =~= old_view.update(room as int, final(self)@[room as int]));
        }
        started
    }

    /// Handles one guess by the given seat, under the registry's exclusive
    /// access: a guess that is in the remaining answer set is removed from it
    /// (first committer wins, either seat) and credited to the guesser with
    /// the word's length in points; any other guess earns nothing and the
    /// guesser's score is echoed unchanged. Scores never decrease.
    pub fn process_guess(&mut self, room: usize, seat: u8, guess: &Vec<u8>) -> (r: GuessOutcome)
        requires
            old(self).wf(),
            room < ROOM_COUNT,
            seat == 1 || seat == 2,
        ensures
            final(self).wf(),
            final(self)@.len() == old(self)@.len(),
            forall|i: int| 0 <= i < old(self)@.len() && i != room as int
                ==> final(self)@[i] == old(self)@[i],
            match old(self)@[room as int] {
                None => {
                    &&& r == GuessOutcome::Absent
                    &&& final(self)@[room as int] == old(self)@[room as int]
                },
                Some(m) => {
                    if m.words.contains(guess@) {
                        final(self)@[room as int] matches Some(f)
                            && credit_effect(m, f, seat, guess@)
                            && r == (GuessOutcome::Credit {
                                score: (if seat == 1 { m.pts1 + guess@.len() } else {
                                    m.pts2 + guess@.len()
                                }) as usize,
                                opponent_present: if seat == 1 { m.seat2 } else { m.seat1 },
                            })
                    } else {
                        &&& final(self)@[room as int] == old(self)@[room as int]
                        &&& r == (GuessOutcome::NoCredit {
                            score: (if seat == 1 { m.pts1 } else { m.pts2 }) as usize,
                        })
                    }
                },
            },
            match (old(self)@[room as int], final(self)@[room as int]) {
                (Some(m), Some(f)) => f.pts1 >= m.pts1 && f.pts2 >= m.pts2,
                _ => true,
            },
    {
        let ghost old_view = self@;
        let ent = &mut self.entries[room];
        let r: GuessOutcome = match ent {
            None => GuessOutcome::Absent,
            Some(ms) => {
                let ghost m0 = ms@;
                proof {
                    assert(old_view[room as int] == Some(m0));
                    assert(match_wf(m0));
                }
                match find_word(&ms.words, guess) {
                    Some(i) => {
                        let ghost old_words = ms.words@;
                        let ghost old_deep = ms.words.deep_view();
                        proof {
                            lemma_member_len_le_sum(old_deep, i as int);
                        }
                        let glen = guess.len();
                        let _removed = ms.words.remove(i);
                        proof {
                            old_words.remove_ensures(i as int);
                            old_deep.remove_ensures(i as int);
                            assert forall|j: int| 0 <= j < ms.words.deep_view().len()
                                implies ms.words.deep_view()[j] == old_deep.remove(i as int)[j] by {
                                if j < i as int {
                                    assert(ms.words@[j] == old_words[j]);
                                } else {
                                    assert(ms.words@[j] == old_words[j + 1]);
                                }
                            };
                            assert(ms.words.deep_view() =~= old_deep.remove(i as int));
                        }
                        let new_score: usize;
                        if seat == 1 {
                            ms.pts1 = ms.pts1 + glen;
                            ms.credited1 = Ghost(ms.credited1@.push(guess@));
                            new_score = ms.pts1;
                        } else {
                            ms.pts2 = ms.pts2 + glen;
                            ms.credited2 = Ghost(ms.credited2@.push(guess@));
                            new_score = ms.pts2;
                        }
                        proof {
                            let g = guess@;
                            assert(old_deep.contains(g));
                            lemma_sum_lens_remove(old_deep, i as int);
                            if seat == 1 {
                                lemma_sum_lens_push(m0.credited1, g);
                                lemma_no_dups_push(m0.credited1, g);
                            } else {
                                lemma_sum_lens_push(m0.credited2, g);
                                lemma_no_dups_push(m0.credited2, g);
                            }
                            let f = ms@;
                            assert forall|w: Seq<u8>| #[trigger] f.words.contains(w)
                                implies (m0.words.contains(w) && w != g) by {
                                lemma_remove_contains(old_deep, i as int, w);
                            };
                            assert forall|w: Seq<u8>| m0.words.contains(w) && w != g
                                implies #[trigger] f.words.contains(w) by {
                                lemma_remove_contains(old_deep, i as int, w);
                            };
                            assert forall|w: Seq<u8>| #[trigger] f.credited1.contains(w)
                                implies !f.words.contains(w) && !f.credited2.contains(w) by {
                                if seat == 1 {
                                    lemma_push_contains(m0.credited1, g, w);
                                } else {
                                    lemma_push_contains(m0.credited2, g, w);
                                }
                            };
                            assert forall|w: Seq<u8>| #[trigger] f.credited2.contains(w)
                                implies !f.words.contains(w) by {
                                if seat == 2 {
                                    lemma_push_contains(m0.credited2, g, w);
                                }
                            };
                            assert(match_wf(f));
                        }
                        let opponent_present = if seat == 1 { ms.seat2 } else { ms.seat1 };
                        GuessOutcome::Credit { score: new_score, opponent_present }
                    },
                    None => {
                        let score = if seat == 1 { ms.pts1 } else { ms.pts2 };
                        GuessOutcome::NoCredit { score }
                    },
                }
            },
        };
        proof {
            assert(final(self)@ =~= old_view.update(room as int, final(self)@[room as int]));
        }
        r
    }

    /// A copy of the room's prompt; empty if the room has no Match.
    pub fn prompt_of(&self, room: usize) -> (r: Vec<u8>)
        requires
            self.wf(),
            room < ROOM_COUNT,
        ensures
            match self@[room as int] {
                Some(m) => r@ == m.prompt,
                None => r@.len() == 0,
            },
    {
        match &self.entries[room] {
            Some(m) => crate::words::clone_bytes(&m.prompt),
            None => Vec::new(),
        }
    }
}

} // verus!
