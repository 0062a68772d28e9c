//! Round content: the raw provider text is trimmed, split on commas into the
//! scrambled prompt (first piece) and the accepted answers (remaining pieces,
//! kept as a duplicate-free set of byte strings).

use vstd::prelude::*;
use crate::codec::BYTE_COMMA;

verus! {

/// The deep view of a byte vector is its plain view.
pub proof fn lemma_bytes_deep(v: Vec<u8>)
    ensures
        v.deep_view() == v@,
{
    assert(v.deep_view() =~= v@);
}

/// Membership in a sequence extended by one element.
pub proof fn lemma_push_contains(s: Seq<Seq<u8>>, x: Seq<u8>, w: Seq<u8>)
    ensures
        s.push(x).contains(w) <==> s.contains(w) || w == x,
{
    if s.contains(w) {
        let j = choose|j: int| 0 <= j < s.len() && s[j] == w;
        assert(s.push(x)[j] == w);
    }
    assert(s.push(x)[s.len() as int] == x);
    if s.push(x).contains(w) && w != x {
        let j = choose|j: int| 0 <= j < s.push(x).len() && s.push(x)[j] == w;
        assert(s[j] == w);
    }
}

/// Pushing a fresh element keeps a sequence duplicate-free.
pub proof fn lemma_no_dups_push(s: Seq<Seq<u8>>, x: Seq<u8>)
    requires
        s.no_duplicates(),
        !s.contains(x),
    ensures
        s.push(x).no_duplicates(),
{
    assert forall|i: int, j: int|
        0 <= i < s.push(x).len() && 0 <= j < s.push(x).len() && i != j
        implies s.push(x)[i] != s.push(x)[j] by {
        if i < s.len() && j < s.len() {
            assert(s.push(x)[i] == s[i] && s.push(x)[j] == s[j]);
        } else if j == s.len() {
            assert(s.push(x)[i] == s[i]);
            if s[i] == x {
                assert(s.contains(x));
            }
        } else {
            assert(s.push(x)[j] == s[j]);
            if s[j] == x {
                assert(s.contains(x));
            }
        }
    };
}

/// Total length of a sequence of byte strings.
pub open spec fn sum_lens(ws: Seq<Seq<u8>>) -> nat
    decreases ws.len(),
{
    if ws.len() == 0 {
        0
    } else {
        sum_lens(ws.drop_last()) + ws.last().len()
    }
}

pub proof fn lemma_sum_lens_push(ws: Seq<Seq<u8>>, w: Seq<u8>)
    ensures
        sum_lens(ws.push(w)) == sum_lens(ws) + w.len(),
{
    assert(ws.push(w).drop_last() =~= ws);
    assert(ws.push(w).last() == w);
}

/// Any member's length is at most the total length.
pub proof fn lemma_member_len_le_sum(ws: Seq<Seq<u8>>, i: int)
    requires
        0 <= i < ws.len(),
    ensures
        ws[i].len() <= sum_lens(ws),
    decreases ws.len(),
{
    if i == ws.len() - 1 {
        assert(ws.last() == ws[i]);
    } else {
        lemma_member_len_le_sum(ws.drop_last(), i);
        assert(ws.drop_last()[i] == ws[i]);
    }
}

/// Removing one element takes exactly its length out of the total.
pub proof fn lemma_sum_lens_remove(ws: Seq<Seq<u8>>, i: int)
    requires
        0 <= i < ws.len(),
    ensures
        sum_lens(ws.remove(i)) + ws[i].len() == sum_lens(ws),
    decreases ws.len(),
{
    if i == ws.len() - 1 {
        assert(ws.remove(i) =~= ws.drop_last());
    } else {
        lemma_sum_lens_remove(ws.drop_last(), i);
        assert(ws.remove(i).drop_last() =~= ws.drop_last().remove(i));
        assert(ws.remove(i).last() == ws.last());
        assert(ws.drop_last()[i] == ws[i]);
    }
}

/// The tail of a sequence weighs at most the whole.
pub proof fn lemma_sum_lens_tail(ps: Seq<Seq<u8>>)
    requires
        ps.len() >= 1,
    ensures
        sum_lens(ps.subrange(1, ps.len() as int)) <= sum_lens(ps),
    decreases ps.len(),
{
    if ps.len() == 1 {
        assert(ps.subrange(1, 1) =~= Seq::<Seq<u8>>::empty());
    } else {
        lemma_sum_lens_tail(ps.drop_last());
        assert(ps.subrange(1, ps.len() as int).drop_last()
            =~= ps.drop_last().subrange(1, ps.drop_last().len() as int));
        assert(ps.subrange(1, ps.len() as int).last() == ps.last());
    }
}

/// The pieces joined back with a comma between neighbours.
pub open spec fn join_commas(ps: Seq<Seq<u8>>) -> Seq<u8>
    decreases ps.len(),
{
    if ps.len() == 0 {
        Seq::empty()
    } else if ps.len() == 1 {
        ps[0]
    } else {
        ps[0] + seq![BYTE_COMMA] + join_commas(ps.drop_first())
    }
}

pub open spec fn comma_free(p: Seq<u8>) -> bool {
    forall|i: int| 0 <= i < p.len() ==> p[i] != BYTE_COMMA
}

/// `ps` is the comma split of `s`: comma-free pieces that joined with commas
/// give `s` back. Such a decomposition is unique, so this pins the split.
pub open spec fn is_split_of(s: Seq<u8>, ps: Seq<Seq<u8>>) -> bool {
    &&& ps.len() >= 1
    &&& join_commas(ps) == s
    &&& forall|i: int| 0 <= i < ps.len() ==> comma_free(#[trigger] ps[i])
}

/// A byte string has exactly one decomposition into comma-free pieces, so
/// `is_split_of` pins the split completely.
pub proof fn lemma_split_unique(s: Seq<u8>, ps1: Seq<Seq<u8>>, ps2: Seq<Seq<u8>>)
    requires
        is_split_of(s, ps1),
        is_split_of(s, ps2),
    ensures
        ps1 == ps2,
    decreases ps1.len(),
{
    if ps1.len() == 1 && ps2.len() == 1 {
        assert(ps1 =~= ps2);
    } else if ps1.len() == 1 {
        assert(s[ps2[0].len() as int] == BYTE_COMMA);
        assert(comma_free(ps1[0]));
        assert(false);
    } else if ps2.len() == 1 {
        assert(s[ps1[0].len() as int] == BYTE_COMMA);
        assert(comma_free(ps2[0]));
        assert(false);
    } else {
        let l1 = ps1[0].len() as int;
        let l2 = ps2[0].len() as int;
        assert(s[l1] == BYTE_COMMA);
        assert(s[l2] == BYTE_COMMA);
        if l1 < l2 {
            assert(s[l1] == ps2[0][l1]);
            assert(false);
        }
        if l2 < l1 {
            assert(s[l2] == ps1[0][l2]);
            assert(false);
        }
        assert forall|i: int| 0 <= i < l1 implies ps1[0][i] == ps2[0][i] by {
            assert(s[i] == ps1[0][i]);
            assert(s[i] == ps2[0][i]);
        };
        assert(ps1[0] =~= ps2[0]);
        let tail = s.subrange(l1 + 1, s.len() as int);
        assert(join_commas(ps1.drop_first()) =~= tail);
        assert(join_commas(ps2.drop_first()) =~= tail);
        assert(forall|i: int| 0 <= i < ps1.drop_first().len()
            ==> comma_free(#[trigger] ps1.drop_first()[i]));
        assert(forall|i: int| 0 <= i < ps2.drop_first().len()
            ==> comma_free(#[trigger] ps2.drop_first()[i]));
        lemma_split_unique(tail, ps1.drop_first(), ps2.drop_first());
        assert(ps1.len() == ps2.len());
        assert forall|i: int| 0 <= i < ps1.len() implies ps1[i] == ps2[i] by {
            if i > 0 {
                assert(ps1.drop_first()[i - 1] == ps1[i]);
                assert(ps2.drop_first()[i - 1] == ps2[i]);
            }
        };
        assert(ps1 =~= ps2);
    }
}

pub proof fn lemma_join_push(ps: Seq<Seq<u8>>, q: Seq<u8>)
    requires
        ps.len() >= 1,
    ensures
        join_commas(ps.push(q)) == join_commas(ps) + seq![BYTE_COMMA] + q,
    decreases ps.len(),
{
    if ps.len() == 1 {
        assert(ps.push(q).drop_first() =~= seq![q]);
        assert(join_commas(seq![q]) == q);
        assert(join_commas(ps.push(q)) == ps[0] + seq![BYTE_COMMA] + q);
    } else {
        lemma_join_push(ps.drop_first(), q);
        assert(ps.push(q).drop_first() =~= ps.drop_first().push(q));
        assert(join_commas(ps.push(q))
            == ps[0] + seq![BYTE_COMMA] + (join_commas(ps.drop_first()) + seq![BYTE_COMMA] + q));
        assert(ps[0] + seq![BYTE_COMMA] + (join_commas(ps.drop_first()) + seq![BYTE_COMMA] + q)
            =~= (ps[0] + seq![BYTE_COMMA] + join_commas(ps.drop_first())) + seq![BYTE_COMMA] + q);
    }
}

/// Splits `s` on commas. The result is the unique decomposition of `s` into
/// comma-free pieces, and its total piece length never exceeds `s`'s length.
pub fn split_commas_vec(s: &Vec<u8>) -> (r: Vec<Vec<u8>>)
    ensures
        is_split_of(s@, r.deep_view()),
        sum_lens(r.deep_view()) <= s@.len(),
{
    let mut done: Vec<Vec<u8>> = Vec::new();
    let mut cur: Vec<u8> = Vec::new();
    let mut i: usize = 0;
    while i < s.len()
        invariant
            i <= s@.len(),
            join_commas(done.deep_view().push(cur@)) == s@.subrange(0, i as int),
            forall|k: int| 0 <= k < done.deep_view().len()
                ==> comma_free(#[trigger] done.deep_view()[k]),
            comma_free(cur@),
            sum_lens(done.deep_view()) + cur@.len() <= i,
        decreases s@.len() - i,
    {
        let b = s[i];
        if b == BYTE_COMMA {
            let ghost old_done = done.deep_view();
            let ghost old_cur = cur@;
            done.push(cur);
            cur = Vec::new();
            proof {
                assert(done.deep_view() =~~= old_done.push(old_cur));
                lemma_join_push(old_done.push(old_cur), cur@);
                assert(join_commas(done.deep_view().push(cur@))
                    =~= s@.subrange(0, (i + 1) as int));
                lemma_sum_lens_push(old_done, old_cur);
            }
        } else {
            let ghost old_cur = cur@;
            cur.push(b);
            proof {
                let d = done.deep_view();
                if d.len() == 0 {
                    assert(join_commas(d.push(cur@)) == cur@);
                    assert(cur@ =~= s@.subrange(0, (i + 1) as int));
                } else {
                    lemma_join_push(d, old_cur);
                    lemma_join_push(d, cur@);
                    assert(join_commas(d) + seq![BYTE_COMMA] + cur@
                        =~= (join_commas(d) + seq![BYTE_COMMA] + old_cur).push(b));
                    assert(join_commas(d.push(cur@)) =~= s@.subrange(0, (i + 1) as int));
                }
            }
        }
        i = i + 1;
    }
    let ghost last_done = done.deep_view();
    let ghost last_cur = cur@;
    done.push(cur);
    proof {
        assert(done.deep_view() =~~= last_done.push(last_cur));
        lemma_sum_lens_push(last_done, last_cur);
        assert(s@.subrange(0, s@.len() as int) =~= s@);
    }
    done
}

pub open spec fn is_ws(b: u8) -> bool {
    b == 32 || b == 9 || b == 10 || b == 13
}

/// `s` without its leading whitespace.
pub open spec fn trim_front(s: Seq<u8>) -> Seq<u8>
    decreases s.len(),
{
    if s.len() > 0 && is_ws(s[0]) {
        trim_front(s.drop_first())
    } else {
        s
    }
}

/// `s` without its trailing whitespace.
pub open spec fn trim_back(s: Seq<u8>) -> Seq<u8>
    decreases s.len(),
{
    if s.len() > 0 && is_ws(s.last()) {
        trim_back(s.drop_last())
    } else {
        s
    }
}

/// `s` without leading and trailing whitespace.
pub open spec fn trim_spec(s: Seq<u8>) -> Seq<u8> {
    trim_back(trim_front(s))
}

fn is_ws_byte(b: u8) -> (r: bool)
    ensures
        r == is_ws(b),
{
    b == 32 || b == 9 || b == 10 || b == 13
}

/// Removes leading and trailing whitespace, exactly as `trim_spec` describes.
pub fn trim_bytes(s: &Vec<u8>) -> (r: Vec<u8>)
    ensures
        r@ == trim_spec(s@),
{
    let n = s.len();
    proof {
        assert(s@.subrange(0, n as int) =~= s@);
    }
    let mut lo: usize = 0;
    while lo < n && is_ws_byte(s[lo])
        invariant
            lo <= n == s@.len(),
            trim_front(s@) == trim_front(s@.subrange(lo as int, n as int)),
        decreases n - lo,
    {
        proof {
            let t = s@.subrange(lo as int, n as int);
            assert(t.drop_first() =~= s@.subrange(lo + 1, n as int));
        }
        lo = lo + 1;
    }
    proof {
        assert(trim_front(s@) == s@.subrange(lo as int, n as int));
    }
    let mut hi: usize = n;
    while hi > lo && is_ws_byte(s[hi - 1])
        invariant
            lo <= hi <= n == s@.len(),
            trim_front(s@) == s@.subrange(lo as int, n as int),
            trim_back(s@.subrange(lo as int, n as int))
                == trim_back(s@.subrange(lo as int, hi as int)),
        decreases hi,
    {
        proof {
            let t = s@.subrange(lo as int, hi as int);
            assert(t.drop_last() =~= s@.subrange(lo as int, hi - 1));
        }
        hi = hi - 1;
    }
    proof {
        assert(trim_spec(s@) == s@.subrange(lo as int, hi as int));
    }
    let mut r: Vec<u8> = Vec::new();
    let mut i: usize = lo;
    while i < hi
        invariant
            lo <= i <= hi <= s@.len(),
            r@ == s@.subrange(lo as int, i as int),
        decreases hi - i,
    {
        r.push(s[i]);
        i = i + 1;
        proof {
            assert(s@.subrange(lo as int, i as int)
                =~= s@.subrange(lo as int, i - 1).push(s@[i - 1]));
        }
    }
    proof {
        assert(r@ == trim_spec(s@));
    }
    r
}

/// Byte-string equality.
pub fn bytes_eq(a: &Vec<u8>, b: &Vec<u8>) -> (r: bool)
    ensures
        r == (a@ == b@),
{
    if a.len() != b.len() {
        return false;
    }
    let mut i: usize = 0;
    while i < a.len()
        invariant
            i <= a@.len() == b@.len(),
            forall|k: int| 0 <= k < i ==> a@[k] == b@[k],
        decreases a@.len() - i,
    {
        if a[i] != b[i] {
            return false;
        }
        i = i + 1;
    }
    proof {
        assert(a@ =~= b@);
    }
    true
}

/// Whether the word set `ws` holds `w`.
pub fn contains_word(ws: &Vec<Vec<u8>>, w: &Vec<u8>) -> (r: bool)
    ensures
        r == ws.deep_view().contains(w@),
{
    let mut i: usize = 0;
    while i < ws.len()
        invariant
            i <= ws@.len(),
            forall|k: int| 0 <= k < i ==> ws.deep_view()[k] != w@,
        decreases ws@.len() - i,
    {
        let hit = bytes_eq(&ws[i], w);
        proof {
            lemma_bytes_deep(ws@[i as int]);
        }
        if hit {
            proof {
                assert(ws.deep_view()[i as int] == w@);
            }
            return true;
        }
        i = i + 1;
    }
    false
}

/// A fresh copy of a byte string.
pub fn clone_bytes(v: &Vec<u8>) -> (r: Vec<u8>)
    ensures
        r@ == v@,
{
    let mut r: Vec<u8> = Vec::new();
    let mut i: usize = 0;
    while i < v.len()
        invariant
            i <= v@.len(),
            r@ == v@.subrange(0, i as int),
        decreases v@.len() - i,
    {
        r.push(v[i]);
        i = i + 1;
        proof {
            assert(v@.subrange(0, i as int) =~= v@.subrange(0, i - 1).push(v@[i - 1]));
        }
    }
    proof {
        assert(v@.subrange(0, v@.len() as int) =~= v@);
    }
    r
}

/// Collects the pieces of `ps` from index `start` on into a duplicate-free
/// word set holding exactly the words that occur there.
pub fn dedup_from(ps: &Vec<Vec<u8>>, start: usize) -> (r: Vec<Vec<u8>>)
    requires
        start <= ps@.len(),
    ensures
        r.deep_view().no_duplicates(),
        forall|w: Seq<u8>| #[trigger] r.deep_view().contains(w)
            <==> ps.deep_view().subrange(start as int, ps.deep_view().len() as int).contains(w),
        sum_lens(r.deep_view())
            <= sum_lens(ps.deep_view().subrange(start as int, ps.deep_view().len() as int)),
{
    let ghost tail = ps.deep_view().subrange(start as int, ps.deep_view().len() as int);
    let mut r: Vec<Vec<u8>> = Vec::new();
    let mut i: usize = start;
    while i < ps.len()
        invariant
            start <= i <= ps@.len(),
            tail == ps.deep_view().subrange(start as int, ps.deep_view().len() as int),
            r.deep_view().no_duplicates(),
            forall|w: Seq<u8>| #[trigger] r.deep_view().contains(w)
                <==> tail.subrange(0, i - start).contains(w),
            sum_lens(r.deep_view()) <= sum_lens(tail.subrange(0, i - start)),
        decreases ps@.len() - i,
    {
        let ghost old_r = r.deep_view();
        let ghost prefix = tail.subrange(0, i - start);
        let ghost wv = ps.deep_view()[i as int];
        proof {
            lemma_bytes_deep(ps@[i as int]);
        }
        let present = contains_word(&r, &ps[i]);
        if !present {
            let w = clone_bytes(&ps[i]);
            r.push(w);
            proof {
                assert(r.deep_view() =~~= old_r.push(wv));
                lemma_no_dups_push(old_r, wv);
            }
        }
        i = i + 1;
        proof {
            assert(tail.subrange(0, i - start) =~= prefix.push(wv));
            lemma_sum_lens_push(prefix, wv);
            lemma_sum_lens_push(old_r, wv);
            assert forall|w: Seq<u8>| #[trigger] r.deep_view().contains(w)
                <==> tail.subrange(0, i - start).contains(w) by {
                lemma_push_contains(old_r, wv, w);
                lemma_push_contains(prefix, wv, w);
            };
        }
    }
    proof {
        assert(tail.subrange(0, tail.len() as int) =~= tail);
    }
    r
}

/// Membership after removing position `i` from a duplicate-free sequence.
pub proof fn lemma_remove_contains(s: Seq<Seq<u8>>, i: int, w: Seq<u8>)
    requires
        0 <= i < s.len(),
        s.no_duplicates(),
    ensures
        s.remove(i).contains(w) <==> (s.contains(w) && w != s[i]),
{
    s.remove_ensures(i);
    if s.remove(i).contains(w) {
        let j = choose|j: int| 0 <= j < s.remove(i).len() && s.remove(i)[j] == w;
        if j < i {
            assert(s[j] == w);
        } else {
            assert(s[j + 1] == w);
        }
    }
    if s.contains(w) && w != s[i] {
        let j = choose|j: int| 0 <= j < s.len() && s[j] == w;
        if j < i {
            assert(s.remove(i)[j] == w);
        } else {
            assert(s.remove(i)[j - 1] == w);
        }
    }
}

/// Index of `w` in the word set, if it is there.
pub fn find_word(ws: &Vec<Vec<u8>>, w: &Vec<u8>) -> (r: Option<usize>)
    ensures
        match r {
            Some(i) => i < ws.deep_view().len() && ws.deep_view()[i as int] == w@,
            None => !ws.deep_view().contains(w@),
        },
{
    let mut i: usize = 0;
    while i < ws.len()
        invariant
            i <= ws@.len(),
            forall|k: int| 0 <= k < i ==> ws.deep_view()[k] != w@,
        decreases ws@.len() - i,
    {
        let hit = bytes_eq(&ws[i], w);
        proof {
            lemma_bytes_deep(ws@[i as int]);
        }
        if hit {
            return Some(i);
        }
        i = i + 1;
    }
    None
}

/// One round's content: the scrambled prompt and the accepted answers.
pub struct RoundData {
    pub prompt: Vec<u8>,
    pub words: Vec<Vec<u8>>,
}

/// Parses raw provider text: after trimming whitespace, the first
/// comma-separated piece is the prompt and the remaining pieces form the
/// duplicate-free answer set.
pub fn parse_round(content: &Vec<u8>) -> (r: RoundData)
    ensures
        r.words.deep_view().no_duplicates(),
        sum_lens(r.words.deep_view()) <= usize::MAX,
        exists|ps: Seq<Seq<u8>>| {
            &&& #[trigger] is_split_of(trim_spec(content@), ps)
            &&& r.prompt@ == ps[0]
            &&& forall|w: Seq<u8>| #[trigger] r.words.deep_view().contains(w)
                    <==> ps.subrange(1, ps.len() as int).contains(w)
        },
{
    let trimmed = trim_bytes(content);
    let n = trimmed.len();
    let pieces = split_commas_vec(&trimmed);
    let prompt = clone_bytes(&pieces[0]);
    let words = dedup_from(&pieces, 1);
    proof {
        let ps = pieces.deep_view();
        lemma_bytes_deep(pieces@[0]);
        lemma_sum_lens_tail(ps);
        assert(sum_lens(words.deep_view()) <= n);
        assert(is_split_of(trim_spec(content@), ps));
        assert(prompt@ == ps[0]);
    }
    RoundData { prompt, words }
}

} // verus!
