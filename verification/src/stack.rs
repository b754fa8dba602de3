//! The card-stack engine: an ordered sequence of card identities with
//! construction, cutting, merging, shuffling, drawing, moving and measuring
//! operations.

use vstd::prelude::*;

use crate::card::{
    spec_card_of_value, spec_card_text, spec_default_value, spec_next_value, spec_parse_card,
    Card, IllegalStringError, JokersPerDeck,
};

verus! {

/// An ordered stack of cards, top of the stack first. A stack may hold
/// several decks' worth of cards, so identities may repeat.
#[derive(PartialEq, Clone, Debug)]
pub struct Cards(pub Vec<Card>);

impl View for Cards {
    type V = Seq<Card>;

    open spec fn view(&self) -> Seq<Card> {
        self.0@
    }
}

/// The two halves of a cut stack: the top part and the bottom part.
pub struct TwoStacks(pub Cards, pub Cards);

/// How the two halves of a cut are interleaved when merged: strict
/// alternation starting from the top half's bottom card (IN), strict
/// alternation starting from the bottom half's bottom card (OUT), or a coin
/// flip at every step (RANDOM).
#[derive(PartialEq, Eq, Clone, Copy, Debug, Structural)]
pub enum MergeType {
    IN,
    OUT,
    RANDOM,
}

/// Exact-alternation (faro) interleave of two equal-length halves. An IN
/// merge puts the bottom half's cards at even positions; an OUT merge puts
/// the top half's cards there, keeping the outermost cards in place.
pub open spec fn spec_faro(top: Seq<Card>, bottom: Seq<Card>, inward: bool) -> Seq<Card> {
    Seq::new(
        top.len() + bottom.len(),
        |j: int|
            if inward {
                if j % 2 == 0 {
                    bottom[j / 2]
                } else {
                    top[j / 2]
                }
            } else {
                if j % 2 == 0 {
                    top[j / 2]
                } else {
                    bottom[j / 2]
                }
            },
    )
}

/// One faro round over a whole stack: a midpoint cut followed by the faro
/// interleave of the halves.
pub open spec fn spec_faro_once(s: Seq<Card>, inward: bool) -> Seq<Card> {
    spec_faro(
        s.subrange(0, (s.len() / 2) as int),
        s.subrange((s.len() / 2) as int, s.len() as int),
        inward,
    )
}

/// `n` faro rounds over a whole stack.
pub open spec fn spec_faro_rounds(s: Seq<Card>, n: nat, inward: bool) -> Seq<Card>
    decreases n,
{
    if n == 0 {
        s
    } else {
        spec_faro_once(spec_faro_rounds(s, (n - 1) as nat, inward), inward)
    }
}

/// `r` interleaves `top` and `bottom`: it can be built back to front by
/// repeatedly taking the last remaining card of either half.
pub open spec fn spec_is_riffle(top: Seq<Card>, bottom: Seq<Card>, r: Seq<Card>) -> bool
    decreases r.len(),
{
    if r.len() == 0 {
        top.len() == 0 && bottom.len() == 0
    } else {
        (top.len() > 0 && r.last() == top.last() && spec_is_riffle(
            top.drop_last(),
            bottom,
            r.drop_last(),
        )) || (bottom.len() > 0 && r.last() == bottom.last() && spec_is_riffle(
            top,
            bottom.drop_last(),
            r.drop_last(),
        ))
    }
}

/// Putting one more card on the front of the top half and on the front of
/// an interleave leaves an interleave.
proof fn lemma_riffle_prepend_top(top: Seq<Card>, bottom: Seq<Card>, r: Seq<Card>, x: Card)
    requires
        spec_is_riffle(top, bottom, r),
    ensures
        spec_is_riffle(seq![x] + top, bottom, seq![x] + r),
    decreases r.len(),
{
    let t1 = seq![x] + top;
    let r1 = seq![x] + r;
    if r.len() == 0 {
        assert(t1 =~= seq![x]);
        assert(r1 =~= seq![x]);
        assert(t1.drop_last() =~= Seq::<Card>::empty());
        assert(r1.drop_last() =~= Seq::<Card>::empty());
        assert(spec_is_riffle(t1.drop_last(), bottom, r1.drop_last()));
    } else if top.len() > 0 && r.last() == top.last() && spec_is_riffle(
        top.drop_last(),
        bottom,
        r.drop_last(),
    ) {
        lemma_riffle_prepend_top(top.drop_last(), bottom, r.drop_last(), x);
        assert(t1.drop_last() =~= seq![x] + top.drop_last());
        assert(r1.drop_last() =~= seq![x] + r.drop_last());
        assert(t1.last() == top.last());
        assert(r1.last() == r.last());
    } else {
        lemma_riffle_prepend_top(top, bottom.drop_last(), r.drop_last(), x);
        assert(r1.drop_last() =~= seq![x] + r.drop_last());
        assert(r1.last() == r.last());
    }
}

/// Putting one more card on the front of the bottom half and on the front
/// of an interleave leaves an interleave.
proof fn lemma_riffle_prepend_bottom(top: Seq<Card>, bottom: Seq<Card>, r: Seq<Card>, x: Card)
    requires
        spec_is_riffle(top, bottom, r),
    ensures
        spec_is_riffle(top, seq![x] + bottom, seq![x] + r),
    decreases r.len(),
{
    let b1 = seq![x] + bottom;
    let r1 = seq![x] + r;
    if r.len() == 0 {
        assert(b1 =~= seq![x]);
        assert(r1 =~= seq![x]);
        assert(b1.drop_last() =~= Seq::<Card>::empty());
        assert(r1.drop_last() =~= Seq::<Card>::empty());
        assert(spec_is_riffle(top, b1.drop_last(), r1.drop_last()));
    } else if bottom.len() > 0 && r.last() == bottom.last() && spec_is_riffle(
        top,
        bottom.drop_last(),
        r.drop_last(),
    ) {
        lemma_riffle_prepend_bottom(top, bottom.drop_last(), r.drop_last(), x);
        assert(b1.drop_last() =~= seq![x] + bottom.drop_last());
        assert(r1.drop_last() =~= seq![x] + r.drop_last());
        assert(b1.last() == bottom.last());
        assert(r1.last() == r.last());
    } else {
        lemma_riffle_prepend_bottom(top.drop_last(), bottom, r.drop_last(), x);
        assert(r1.drop_last() =~= seq![x] + r.drop_last());
        assert(r1.last() == r.last());
    }
}

/// An interleave of two halves holds exactly their cards.
proof fn lemma_riffle_multiset(top: Seq<Card>, bottom: Seq<Card>, r: Seq<Card>)
    requires
        spec_is_riffle(top, bottom, r),
    ensures
        r.len() == top.len() + bottom.len(),
        r.to_multiset() == top.to_multiset().add(bottom.to_multiset()),
    decreases r.len(),
{
    broadcast use vstd::seq_lib::group_to_multiset_ensures;

    if r.len() == 0 {
        assert(r.to_multiset() =~= top.to_multiset().add(bottom.to_multiset()));
    } else if top.len() > 0 && r.last() == top.last() && spec_is_riffle(
        top.drop_last(),
        bottom,
        r.drop_last(),
    ) {
        lemma_riffle_multiset(top.drop_last(), bottom, r.drop_last());
        assert(r =~= r.drop_last().push(top.last()));
        assert(top =~= top.drop_last().push(top.last()));
        assert(r.to_multiset() =~= top.to_multiset().add(bottom.to_multiset()));
    } else {
        lemma_riffle_multiset(top, bottom.drop_last(), r.drop_last());
        assert(r =~= r.drop_last().push(bottom.last()));
        assert(bottom =~= bottom.drop_last().push(bottom.last()));
        assert(r.to_multiset() =~= top.to_multiset().add(bottom.to_multiset()));
    }
}

/// Greedy chain growth of the rising-sequence scan: from position `k`
/// onward, each unmarked position whose default value follows `v` in
/// new-deck order is marked and becomes the chain's new tail value.
pub open spec fn spec_chain_mark(
    s: Seq<Card>,
    jokers: int,
    marked: Seq<bool>,
    k: int,
    v: int,
) -> Seq<bool>
    decreases s.len() - k,
{
    if k < 0 || k >= s.len() {
        marked
    } else if spec_default_value(s[k]) == spec_next_value(v, jokers) && !marked[k] {
        spec_chain_mark(s, jokers, marked.update(k, true), k + 1, spec_default_value(s[k]))
    } else {
        spec_chain_mark(s, jokers, marked, k + 1, v)
    }
}

/// The rising-sequence scan from position `i` on: an unmarked position
/// starts a new sequence and is counted, then the chain from it is marked;
/// the last position closes its own sequence when still unmarked.
pub open spec fn spec_scan(s: Seq<Card>, jokers: int, marked: Seq<bool>, i: int, n: int) -> int
    decreases s.len() - i,
{
    if i < 0 || i >= s.len() - 1 {
        n + if s.len() > 0 && !marked[s.len() - 1] {
            1int
        } else {
            0int
        }
    } else {
        let n1 = n + if !marked[i] {
            1int
        } else {
            0int
        };
        let m1 = marked.update(i, true);
        spec_scan(
            s,
            jokers,
            spec_chain_mark(s, jokers, m1, i + 1, spec_default_value(s[i])),
            i + 1,
            n1,
        )
    }
}

/// The rising-sequence count of a stack of at least one full deck, with
/// the per-deck joker count inferred from the length: the whole-deck count
/// from the remainder past the 52-card decks, taken as zero when it is not
/// a real joker count.
pub open spec fn spec_rs_metric(s: Seq<Card>) -> int {
    let deck_cnt = s.len() as int / 52;
    let inferred = (s.len() as int % 52) / deck_cnt;
    let jokers = if inferred > 2 {
        0int
    } else {
        inferred
    };
    spec_scan(s, jokers, Seq::new(s.len(), |i: int| false), 0, 0)
}

/// The text of a whole stack: its cards' two-character tokens joined by
/// single spaces.
pub open spec fn spec_cards_text(s: Seq<Card>) -> Seq<char>
    decreases s.len(),
{
    if s.len() == 0 {
        Seq::empty()
    } else if s.len() == 1 {
        spec_card_text(s[0])
    } else {
        spec_cards_text(s.drop_last()) + seq![' '] + spec_card_text(s.last())
    }
}

/// Index of the first space of `t`, or its length when it has none.
pub open spec fn spec_split_first(t: Seq<char>) -> int
    decreases t.len(),
{
    if t.len() == 0 {
        0
    } else if t[0] == ' ' {
        0
    } else {
        1 + spec_split_first(t.drop_first())
    }
}

/// The stack denoted by space-separated card tokens, if every token, the
/// empty one included, is a well-formed card.
pub open spec fn spec_parse_cards(t: Seq<char>) -> Option<Seq<Card>>
    decreases t.len(),
    via spec_parse_cards_decreases
{
    let i = spec_split_first(t);
    let head = spec_parse_card(t.subrange(0, i));
    if i == t.len() {
        match head {
            Some(c) => Some(seq![c]),
            None => None,
        }
    } else {
        match head {
            None => None,
            Some(c) => match spec_parse_cards(t.subrange(i + 1, t.len() as int)) {
                None => None,
                Some(rest) => Some(seq![c] + rest),
            },
        }
    }
}

/// The first-space index always lies between 0 and the length.
proof fn lemma_split_first_bounds(t: Seq<char>)
    ensures
        0 <= spec_split_first(t) <= t.len(),
    decreases t.len(),
{
    if t.len() > 0 && t[0] != ' ' {
        lemma_split_first_bounds(t.drop_first());
    }
}

#[via_fn]
proof fn spec_parse_cards_decreases(t: Seq<char>) {
    lemma_split_first_bounds(t);
}

/// A position with only non-spaces before it and a space or the end at it
/// is where `spec_split_first` points.
pub(crate) proof fn lemma_split_first_at(t: Seq<char>, p: int)
    requires
        0 <= p <= t.len(),
        p < t.len() ==> t[p] == ' ',
        forall|k: int| 0 <= k < p ==> t[k] != ' ',
    ensures
        spec_split_first(t) == p,
    decreases t.len(),
{
    if t.len() == 0 {
    } else if t[0] == ' ' {
    } else {
        lemma_split_first_at(t.drop_first(), p - 1);
    }
}

/// Number of positions of `s` holding `c`.
pub open spec fn spec_count_matches(s: Seq<Card>, c: Card) -> int
    decreases s.len(),
{
    if s.len() == 0 {
        0
    } else {
        spec_count_matches(s.drop_last(), c) + if s.last() == c {
            1int
        } else {
            0int
        }
    }
}

/// `p` is the position of the `nth` (0-based) occurrence of `c` in `s`.
pub open spec fn spec_nth_match(s: Seq<Card>, c: Card, nth: int, p: int) -> bool {
    &&& 0 <= p < s.len()
    &&& s[p] == c
    &&& spec_count_matches(s.subrange(0, p), c) == nth
}

/// Position reached from `start` after `delta` steps around a ring of `len`
/// positions, where crossing an end counts as one step.
pub open spec fn spec_ring_pos(len: int, start: int, delta: int) -> int {
    (start + delta) % len
}

/// Position reached from `start` after `delta` steps when the ends of the
/// stack are glued into a circle, so that crossing them is not itself a
/// step: the modular move corrected by one place when it wrapped.
pub open spec fn spec_circular_pos(len: int, start: int, delta: int) -> int {
    let t = spec_ring_pos(len, start, delta);
    if delta > 0 && t < start {
        t + 1
    } else if delta < 0 && t > start {
        t - 1
    } else {
        t
    }
}

/// The count of matches never exceeds the length.
pub(crate) proof fn lemma_count_matches_bounds(s: Seq<Card>, c: Card)
    ensures
        0 <= spec_count_matches(s, c) <= s.len(),
    decreases s.len(),
{
    if s.len() > 0 {
        lemma_count_matches_bounds(s.drop_last(), c);
    }
}

/// Counting matches distributes over concatenation.
pub(crate) proof fn lemma_count_matches_concat(a: Seq<Card>, b: Seq<Card>, c: Card)
    ensures
        spec_count_matches(a + b, c) == spec_count_matches(a, c) + spec_count_matches(b, c),
    decreases b.len(),
{
    if b.len() == 0 {
        assert(a + b =~= a);
    } else {
        lemma_count_matches_concat(a, b.drop_last(), c);
        assert((a + b).drop_last() =~= a + b.drop_last());
        assert((a + b).last() == b.last());
    }
}

/// An `nth` occurrence witnesses that more than `nth` matches exist.
proof fn lemma_nth_match_implies_count(s: Seq<Card>, c: Card, nth: int, p: int)
    requires
        spec_nth_match(s, c, nth, p),
    ensures
        spec_count_matches(s, c) > nth,
{
    let front = s.subrange(0, p + 1);
    let back = s.subrange(p + 1, s.len() as int);
    assert(s =~= front + back);
    assert(front.drop_last() =~= s.subrange(0, p));
    lemma_count_matches_concat(front, back, c);
    lemma_count_matches_bounds(back, c);
}

/// Position reached from `start` after `delta` ring steps, executable twin
/// of `spec_ring_pos`.
fn wrap_position(len: usize, start: usize, delta: isize) -> (r: usize)
    requires
        len > 0,
        start < len,
    ensures
        r == spec_ring_pos(len as int, start as int, delta as int),
        r < len,
{
    let l: u128 = len as u128;
    let s: u128 = start as u128;
    if delta >= 0 {
        let d: u128 = delta as u128;
        let e: u128 = (s + d) % l;
        proof {
            vstd::arithmetic::div_mod::lemma_mod_bound((s + d) as int, l as int);
        }
        e as usize
    } else {
        let neg: u128 = (-(delta as i128)) as u128;
        let red: u128 = neg % l;
        let e: u128 = (s + l - red) % l;
        proof {
            let li = l as int;
            let si = s as int;
            let di = delta as int;
            let negi = neg as int;
            let redi = red as int;
            vstd::arithmetic::div_mod::lemma_mod_bound(negi, li);
            vstd::arithmetic::div_mod::lemma_mod_bound((si + li - redi) as int, li);
            vstd::arithmetic::div_mod::lemma_fundamental_div_mod(negi, li);
            let q = negi / li;
            assert((si + di) - (si + li - redi) == (-q - 1) * li) by (nonlinear_arith)
                requires
                    negi == li * q + redi,
                    di == -negi,
            ;
            vstd::arithmetic::div_mod::lemma_mod_multiples_basic(-q - 1, li);
            vstd::arithmetic::div_mod::lemma_mod_equivalence(
                si + di,
                si + li - redi,
                li,
            );
        }
        e as usize
    }
}

/// Relies on rand's thread-local generator through `Rng::gen_range`, which
/// returns a value within the given range and panics only on an empty one.
#[verifier::external_body]
fn pick_index(lo: usize, hi: usize) -> (r: usize)
    requires
        lo < hi,
    ensures
        lo <= r < hi,
{
    rand::Rng::gen_range(&mut rand::thread_rng(), lo..hi)
}

/// Relies on rand's thread-local generator through `Rng::gen::<bool>`;
/// nothing is promised of which boolean comes back.
#[verifier::external_body]
fn flip_coin() -> bool {
    rand::Rng::gen::<bool>(&mut rand::thread_rng())
}

/// Copies a card vector element for element.
fn clone_cards(v: &Vec<Card>) -> (r: Vec<Card>)
    ensures
        r@ == v@,
{
    let mut out: Vec<Card> = Vec::new();
    let mut i: usize = 0;
    while i < v.len()
        invariant
            i <= v@.len(),
            out@ == v@.subrange(0, i as int),
        decreases v@.len() - i,
    {
        out.push(v[i]);
        proof {
            assert(out@ =~= v@.subrange(0, i + 1));
        }
        i = i + 1;
    }
    proof {
        assert(out@ =~= v@);
    }
    out
}

/// Removes and returns the last card of a non-empty vector.
fn pop_card(v: &mut Vec<Card>) -> (r: Card)
    requires
        old(v)@.len() > 0,
    ensures
        r == old(v)@.last(),
        final(v)@ == old(v)@.drop_last(),
{
    let r = v.pop();
    match r {
        Some(c) => c,
        None => unreached(),
    }
}

impl TwoStacks {
    /// Merges the two halves into one stack, drawing repeatedly from the
    /// bottom of one half and correcting the order at the end, as a physical
    /// riffle does. IN and OUT alternate strictly; RANDOM flips a coin at
    /// every draw; a depleted half simply yields to the other. The result is
    /// always an interleave of the halves, and an IN or OUT merge of two
    /// equal halves is exactly the faro interleave.
    pub fn merge(self, m_type: MergeType) -> (r: Cards)
        requires
            self.0@.len() + self.1@.len() <= usize::MAX,
        ensures
            r@.len() == self.0@.len() + self.1@.len(),
            r@.to_multiset() == self.0@.to_multiset().add(self.1@.to_multiset()),
            spec_is_riffle(self.0@, self.1@, r@),
            self.0@.len() == self.1@.len() && m_type == MergeType::IN ==> r@ == spec_faro(
                self.0@,
                self.1@,
                true,
            ),
            self.0@.len() == self.1@.len() && m_type == MergeType::OUT ==> r@ == spec_faro(
                self.0@,
                self.1@,
                false,
            ),
    {
        let TwoStacks(top_cards, bottom_cards) = self;
        let mut top = top_cards.0;
        let mut bottom = bottom_cards.0;
        let ghost orig_t = top@;
        let ghost orig_b = bottom@;
        let ghost n = orig_t.len() as int;
        let ghost det = orig_t.len() == orig_b.len() && (m_type == MergeType::IN || m_type
            == MergeType::OUT);
        let ghost inward = m_type == MergeType::IN;
        let total = top.len() + bottom.len();
        let mut acc: Vec<Card> = Vec::new();
        let ghost mut t_tail: Seq<Card> = Seq::empty();
        let ghost mut b_tail: Seq<Card> = Seq::empty();
        proof {
            assert(orig_t =~= top@ + t_tail);
            assert(orig_b =~= bottom@ + b_tail);
            assert(acc@.reverse() =~= Seq::<Card>::empty());
        }
        let mut i: usize = 0;
        while i < total
            invariant
                i <= total,
                total == orig_t.len() + orig_b.len(),
                acc@.len() == i,
                top@.len() + bottom@.len() == total - i,
                orig_t == top@ + t_tail,
                orig_b == bottom@ + b_tail,
                spec_is_riffle(t_tail, b_tail, acc@.reverse()),
                inward == (m_type == MergeType::IN),
                det == (orig_t.len() == orig_b.len() && (m_type == MergeType::IN || m_type
                    == MergeType::OUT)),
                n == orig_t.len() as int,
                det ==> top@ == orig_t.subrange(0, n - spec_top_pops(i as int, inward)),
                det ==> bottom@ == orig_b.subrange(0, n - (i - spec_top_pops(i as int, inward))),
                det ==> forall|k: int|
                    0 <= k < i ==> acc@[k] == spec_det_acc_card(orig_t, orig_b, n, k, inward),
            decreases total - i,
        {
            let top_first = match m_type {
                MergeType::IN => i % 2 == 0,
                MergeType::OUT => i % 2 == 1,
                MergeType::RANDOM => flip_coin(),
            };
            let c: Card;
            let ghost mut from_top: bool = false;
            if top_first {
                if top.len() > 0 {
                    c = pop_card(&mut top);
                    proof {
                        from_top = true;
                    }
                } else {
                    c = pop_card(&mut bottom);
                    proof {
                        from_top = false;
                    }
                }
            } else {
                if bottom.len() > 0 {
                    c = pop_card(&mut bottom);
                    proof {
                        from_top = false;
                    }
                } else {
                    c = pop_card(&mut top);
                    proof {
                        from_top = true;
                    }
                }
            }
            let ghost acc_before = acc@;
            acc.push(c);
            proof {
                let old_rev = acc_before.reverse();
                assert(acc@.drop_last() =~= acc_before);
                assert(acc@.reverse() =~= seq![c] + old_rev);
                if from_top {
                    lemma_riffle_prepend_top(t_tail, b_tail, old_rev, c);
                    t_tail = seq![c] + t_tail;
                    assert(orig_t =~= top@ + t_tail);
                } else {
                    lemma_riffle_prepend_bottom(t_tail, b_tail, old_rev, c);
                    b_tail = seq![c] + b_tail;
                    assert(orig_b =~= bottom@ + b_tail);
                }
                if det {
                    lemma_det_merge_step(orig_t, orig_b, n, i as int, inward, from_top);
                    assert(top@ =~= orig_t.subrange(0, n - spec_top_pops(i + 1, inward)));
                    assert(bottom@ =~= orig_b.subrange(0, n - (i + 1 - spec_top_pops(i + 1, inward))));
                }
            }
            i = i + 1;
        }
        let mut merged = Cards(acc);
        merged.reverse();
        proof {
            assert(t_tail =~= orig_t);
            assert(b_tail =~= orig_b);
            lemma_riffle_multiset(orig_t, orig_b, merged@);
            if det {
                assert(merged@ =~= spec_faro(orig_t, orig_b, inward));
            }
        }
        merged
    }
}

/// Cards popped from the top half after `i` strictly alternating draws: the
/// IN pattern draws from the top half first.
pub open spec fn spec_top_pops(i: int, inward: bool) -> int {
    if inward {
        (i + 1) / 2
    } else {
        i / 2
    }
}

/// The card placed by draw `k` of a strictly alternating merge of two
/// halves of length `n`.
pub open spec fn spec_det_acc_card(
    orig_t: Seq<Card>,
    orig_b: Seq<Card>,
    n: int,
    k: int,
    inward: bool,
) -> Card {
    if (k % 2 == 0) == inward {
        orig_t[n - 1 - spec_top_pops(k, inward)]
    } else {
        orig_b[n - 1 - (k - spec_top_pops(k, inward))]
    }
}

/// Bookkeeping for one strictly alternating draw: which half it comes from
/// and how the pop counters move.
proof fn lemma_det_merge_step(
    orig_t: Seq<Card>,
    orig_b: Seq<Card>,
    n: int,
    i: int,
    inward: bool,
    from_top: bool,
)
    requires
        n == orig_t.len(),
        n == orig_b.len(),
        0 <= i < 2 * n,
        from_top == ((i % 2 == 0) == inward),
    ensures
        from_top ==> spec_top_pops(i + 1, inward) == spec_top_pops(i, inward) + 1,
        !from_top ==> spec_top_pops(i + 1, inward) == spec_top_pops(i, inward),
        0 <= spec_top_pops(i, inward) <= i,
        from_top ==> spec_top_pops(i, inward) < n,
        !from_top ==> i - spec_top_pops(i, inward) < n,
{
}

impl Cards {
    /// Builds `count` decks' worth of cards in new-deck order, each deck
    /// carrying `jokers_cnt` jokers: position `i` holds the card whose
    /// default value is `i` reduced to one deck, 1-based.
    #[verifier::rlimit(60)]
    pub fn new(count: usize, jokers_cnt: JokersPerDeck) -> (r: Cards)
        requires
            count * (52 + jokers_cnt.spec_count() as int) <= usize::MAX,
        ensures
            r@.len() == count * (52 + jokers_cnt.spec_count() as int),
            forall|i: int|
                0 <= i < r@.len() ==> r@[i] == spec_card_of_value(
                    (i % (52 + jokers_cnt.spec_count() as int)) + 1,
                ),
    {
        proof {
            use_type_invariant(&jokers_cnt);
        }
        let per: usize = 52 + jokers_cnt.get() as usize;
        let total: usize = count * per;
        let mut v: Vec<Card> = Vec::new();
        let mut i: usize = 0;
        while i < total
            invariant
                i <= total,
                per == 52 + jokers_cnt.spec_count() as int,
                52 <= per <= 54,
                v@.len() == i,
                forall|j: int|
                    0 <= j < i ==> v@[j] == spec_card_of_value((j % (per as int)) + 1),
            decreases total - i,
        {
            let pos: usize = i % per;
            proof {
                assert(pos < per);
            }
            v.push(crate::card::card_of_value((pos + 1) as u8));
            i = i + 1;
        }
        Cards(v)
    }

    /// Splits the stack before the card at `index`: the top part has length
    /// `index`. An index at or past the end yields the whole stack and an
    /// empty bottom.
    pub fn cut(self, index: usize) -> (r: TwoStacks)
        ensures
            index < self@.len() ==> r.0@ == self@.subrange(0, index as int) && r.1@
                == self@.subrange(index as int, self@.len() as int),
            index >= self@.len() ==> r.0@ == self@ && r.1@ == Seq::<Card>::empty(),
    {
        let mut top = self;
        if index >= top.0.len() {
            return TwoStacks(top, Cards(Vec::new()));
        }
        let bottom = top.0.split_off(index);
        TwoStacks(top, Cards(bottom))
    }

    /// First position holding `card`, or `None` when the card is absent.
    pub fn find(&self, card: Card) -> (r: Option<usize>)
        ensures
            r matches Some(i) ==> i < self@.len() && self@[i as int] == card && (forall|j: int|
                0 <= j < i ==> self@[j] != card),
            r is None ==> forall|j: int| 0 <= j < self@.len() ==> self@[j] != card,
    {
        let mut i: usize = 0;
        while i < self.0.len()
            invariant
                i <= self@.len(),
                forall|j: int| 0 <= j < i ==> self@[j] != card,
            decreases self@.len() - i,
        {
            if self.0[i] == card {
                return Some(i);
            }
            i = i + 1;
        }
        None
    }

    /// Removes and returns the first `count` cards; rejects a count larger
    /// than the stack.
    pub fn draw_count(&mut self, count: usize) -> (r: Result<Cards, &'static str>)
        ensures
            count <= old(self)@.len() ==> (r matches Ok(d) && d@ == old(self)@.subrange(
                0,
                count as int,
            ) && final(self)@ == old(self)@.subrange(count as int, old(self)@.len() as int)),
            count > old(self)@.len() ==> r is Err && final(self)@ == old(self)@,
    {
        if count > self.0.len() {
            return Err("Can not draw more than are available");
        }
        let mut rest = self.0.split_off(count);
        core::mem::swap(&mut self.0, &mut rest);
        Ok(Cards(rest))
    }

    /// Removes and returns every card strictly before the first occurrence
    /// of `card`; `None`, leaving the stack whole, when the card is absent.
    pub fn draw_till(&mut self, card: Card) -> (r: Option<Cards>)
        ensures
            r matches Some(d) ==> exists|p: int|
                0 <= p < old(self)@.len() && old(self)@[p] == card && (forall|j: int|
                    0 <= j < p ==> old(self)@[j] != card) && d@ == old(self)@.subrange(0, p)
                    && final(self)@ == old(self)@.subrange(p, old(self)@.len() as int),
            r is None ==> final(self)@ == old(self)@ && (forall|j: int|
                0 <= j < old(self)@.len() ==> old(self)@[j] != card),
    {
        match self.find(card) {
            None => None,
            Some(p) => {
                let drawn = self.draw_count(p);
                match drawn {
                    Ok(d) => Some(d),
                    Err(_) => None,
                }
            },
        }
    }

    /// Appends another stack below this one.
    pub fn append(&mut self, cards: Cards)
        ensures
            final(self)@ == old(self)@ + cards@,
    {
        let mut cards = cards;
        self.0.append(&mut cards.0);
    }

    /// Read-only access to the card at `index`; rejects an index past the
    /// end.
    pub fn look_at(&self, index: usize) -> (r: Result<&Card, &'static str>)
        ensures
            index < self@.len() ==> (r matches Ok(c) && *c == self@[index as int]),
            index >= self@.len() ==> r is Err,
    {
        if index >= self.0.len() {
            return Err("Index beyond end of Cards");
        }
        Ok(&self.0[index])
    }

    /// Reverses the order of the stack in place.
    pub fn reverse(&mut self)
        ensures
            final(self)@ == old(self)@.reverse(),
    {
        let n = self.0.len();
        let mut out: Vec<Card> = Vec::new();
        let mut i: usize = 0;
        while i < n
            invariant
                i <= n,
                n == self@.len(),
                out@.len() == i,
                forall|j: int| 0 <= j < i ==> out@[j] == self@[n - 1 - j],
            decreases n - i,
        {
            out.push(self.0[n - 1 - i]);
            i = i + 1;
        }
        proof {
            assert(out@ =~= old(self)@.reverse());
        }
        self.0 = out;
    }

    /// The stack as the sequence of its cards' default values.
    pub fn by_def_raw_values(&self) -> (r: Vec<u8>)
        ensures
            r@.len() == self@.len(),
            forall|i: int| 0 <= i < r@.len() ==> r@[i] == spec_default_value(self@[i]),
    {
        let mut values: Vec<u8> = Vec::new();
        let mut i: usize = 0;
        while i < self.0.len()
            invariant
                i <= self@.len(),
                values@.len() == i,
                forall|j: int| 0 <= j < i ==> values@[j] == spec_default_value(self@[j]),
            decreases self@.len() - i,
        {
            values.push(self.0[i].default_value().get());
            i = i + 1;
        }
        values
    }

    /// Repositions the `match_index`-th (0-based) occurrence of `card` by
    /// `position_change` places, wrapping modulo the stack length, so that
    /// crossing either end counts as exactly one step. Returns whether the
    /// occurrence was found; an absent card leaves the stack unchanged.
    pub fn move_card(&mut self, card: Card, match_index: usize, position_change: isize) -> (r:
        bool)
        ensures
            r == (spec_count_matches(old(self)@, card) > match_index),
            !r ==> final(self)@ == old(self)@,
            r ==> exists|p: int|
                spec_nth_match(old(self)@, card, match_index as int, p) && final(self)@ == old(
                    self,
                )@.remove(p).insert(
                    spec_ring_pos(old(self)@.len() as int, p, position_change as int),
                    card,
                ),
    {
        let found = self.find_nth(card, match_index);
        match found {
            None => false,
            Some(p) => {
                let len = self.0.len();
                let end = wrap_position(len, p, position_change);
                let c = self.0.remove(p);
                self.0.insert(end, c);
                proof {
                    lemma_nth_match_implies_count(old(self)@, card, match_index as int, p as int);
                    assert(spec_nth_match(old(self)@, card, match_index as int, p as int) && self@
                        == old(self)@.remove(p as int).insert(
                        spec_ring_pos(old(self)@.len() as int, p as int, position_change as int),
                        card,
                    ));
                }
                true
            },
        }
    }

    /// Repositions the `match_index`-th (0-based) occurrence of `card` by
    /// `position_change` places as if the cards lay on a circle: wrapping
    /// past either end does not itself count as a step, which the
    /// implementation applies as a one-step correction after the modular
    /// move. Returns whether the occurrence was found.
    pub fn move_card_circular(&mut self, card: Card, match_index: usize, position_change: isize)
        -> (r: bool)
        ensures
            r == (spec_count_matches(old(self)@, card) > match_index),
            !r ==> final(self)@ == old(self)@,
            r ==> exists|p: int|
                spec_nth_match(old(self)@, card, match_index as int, p) && final(self)@ == old(
                    self,
                )@.remove(p).insert(
                    spec_circular_pos(old(self)@.len() as int, p, position_change as int),
                    card,
                ),
    {
        let found = self.find_nth(card, match_index);
        match found {
            None => false,
            Some(p) => {
                let len = self.0.len();
                let target = wrap_position(len, p, position_change);
                let end = if position_change > 0 && target < p {
                    target + 1
                } else if position_change < 0 && target > p {
                    target - 1
                } else {
                    target
                };
                let c = self.0.remove(p);
                self.0.insert(end, c);
                proof {
                    lemma_nth_match_implies_count(old(self)@, card, match_index as int, p as int);
                    assert(spec_nth_match(old(self)@, card, match_index as int, p as int) && self@
                        == old(self)@.remove(p as int).insert(
                        spec_circular_pos(
                            old(self)@.len() as int,
                            p as int,
                            position_change as int,
                        ),
                        card,
                    ));
                }
                true
            },
        }
    }

    /// Position of the `nth` (0-based) occurrence of `card`, or `None` when
    /// there are at most `nth` occurrences.
    fn find_nth(&self, card: Card, nth: usize) -> (r: Option<usize>)
        ensures
            r matches Some(p) ==> spec_nth_match(self@, card, nth as int, p as int),
            r is None ==> spec_count_matches(self@, card) <= nth,
    {
        let mut i: usize = 0;
        let mut seen: usize = 0;
        while i < self.0.len()
            invariant
                i <= self@.len(),
                seen == spec_count_matches(self@.subrange(0, i as int), card),
                seen <= nth,
            decreases self@.len() - i,
        {
            proof {
                assert(self@.subrange(0, i + 1).drop_last() =~= self@.subrange(0, i as int));
            }
            if self.0[i] == card {
                if seen == nth {
                    return Some(i);
                }
                seen = seen + 1;
            }
            i = i + 1;
        }
        proof {
            assert(self@.subrange(0, self@.len() as int) =~= self@);
            lemma_count_matches_bounds(self@, card);
        }
        None
    }

    /// Performs `riffle_count` perfect in-shuffles: a midpoint cut followed
    /// by an IN merge, which leaves the old bottom card of the top half on
    /// the bottom of the result.
    pub fn in_shuffle(&mut self, riffle_count: usize)
        ensures
            final(self)@.len() == old(self)@.len(),
            final(self)@.to_multiset() == old(self)@.to_multiset(),
            old(self)@.len() % 2 == 0 ==> final(self)@ == spec_faro_rounds(
                old(self)@,
                riffle_count as nat,
                true,
            ),
    {
        self.faro_rounds(riffle_count, true);
    }

    /// Performs `riffle_count` perfect out-shuffles: a midpoint cut followed
    /// by an OUT merge, which keeps the top and bottom cards in place.
    pub fn out_shuffle(&mut self, riffle_count: usize)
        ensures
            final(self)@.len() == old(self)@.len(),
            final(self)@.to_multiset() == old(self)@.to_multiset(),
            old(self)@.len() % 2 == 0 ==> final(self)@ == spec_faro_rounds(
                old(self)@,
                riffle_count as nat,
                false,
            ),
    {
        self.faro_rounds(riffle_count, false);
    }

    /// Shared body of `in_shuffle` and `out_shuffle`.
    fn faro_rounds(&mut self, riffle_count: usize, inward: bool)
        ensures
            final(self)@.len() == old(self)@.len(),
            final(self)@.to_multiset() == old(self)@.to_multiset(),
            old(self)@.len() % 2 == 0 ==> final(self)@ == spec_faro_rounds(
                old(self)@,
                riffle_count as nat,
                inward,
            ),
    {
        let m_type = if inward {
            MergeType::IN
        } else {
            MergeType::OUT
        };
        let mut i: usize = 0;
        while i < riffle_count
            invariant
                i <= riffle_count,
                self@.len() == old(self)@.len(),
                self@.to_multiset() == old(self)@.to_multiset(),
                m_type == (if inward {
                    MergeType::IN
                } else {
                    MergeType::OUT
                }),
                old(self)@.len() % 2 == 0 ==> self@ == spec_faro_rounds(
                    old(self)@,
                    i as nat,
                    inward,
                ),
            decreases riffle_count - i,
        {
            let ghost pre = self@;
            let half = self.0.len() / 2;
            let current = Cards(clone_cards(&self.0));
            let halves = current.cut(half);
            proof {
                assert(pre =~= halves.0@ + halves.1@);
                vstd::seq_lib::lemma_multiset_commutative(halves.0@, halves.1@);
            }
            let merged = halves.merge(m_type);
            proof {
                if old(self)@.len() % 2 == 0 {
                    assert(merged@ == spec_faro_once(pre, inward));
                }
            }
            *self = merged;
            i = i + 1;
        }
    }

    /// Shuffle quality as the number of maximal rising sequences: runs of
    /// cards whose default values climb by exactly one step in new-deck
    /// order, found by a greedy left-to-right scan in which every position
    /// joins exactly one sequence (lone positions count as runs of one). A
    /// fresh stack scores 1, one perfect riffle scores 2, and a fully
    /// random stack concentrates near half the stack length. The per-deck
    /// joker count is inferred from the stack length.
    pub fn shuffle_rs_metric(&self) -> (r: usize)
        requires
            self@.len() >= 52,
        ensures
            r == spec_rs_metric(self@),
    {
        let len = self.0.len();
        let deck_cnt = len / 52;
        let mut jokers_per_deck = (len % 52) / deck_cnt;
        if jokers_per_deck > 2 {
            jokers_per_deck = 0;
        }
        let jokers = match JokersPerDeck::new(jokers_per_deck as u8) {
            Some(j) => j,
            None => unreached(),
        };
        let ghost jk = jokers.spec_count() as int;
        let mut marked: Vec<bool> = vec![false; len];
        proof {
            assert(marked@ =~= Seq::new(self@.len(), |i: int| false));
        }
        let mut n: usize = 0;
        let mut i: usize = 0;
        while i < len - 1
            invariant
                len == self@.len(),
                len >= 52,
                i <= len - 1,
                n <= i,
                marked@.len() == len,
                jk == jokers.spec_count() as int,
                spec_scan(self@, jk, marked@, i as int, n as int) == spec_rs_metric(self@),
            decreases len - 1 - i,
        {
            let ghost marked_in = marked@;
            let ghost n_in = n as int;
            if !marked[i] {
                marked[i] = true;
                n = n + 1;
            }
            proof {
                assert(marked@ =~= marked_in.update(i as int, true));
            }
            let mut this = self.0[i];
            let mut k = i + 1;
            let ghost target = spec_chain_mark(
                self@,
                jk,
                marked@,
                (i + 1) as int,
                spec_default_value(self@[i as int]),
            );
            while k < len
                invariant
                    len == self@.len(),
                    i < k <= len,
                    marked@.len() == len,
                    jk == jokers.spec_count() as int,
                    spec_chain_mark(self@, jk, marked@, k as int, spec_default_value(this))
                        == target,
                decreases len - k,
            {
                let next_val = this.next_def_val_in_sequence(jokers).get();
                let cand_val = self.0[k].default_value().get();
                if cand_val == next_val && !marked[k] {
                    marked[k] = true;
                    this = self.0[k];
                }
                k = k + 1;
            }
            proof {
                assert(marked@ == target);
                assert(spec_scan(self@, jk, marked_in, i as int, n_in) == spec_scan(
                    self@,
                    jk,
                    marked@,
                    i + 1,
                    n as int,
                ));
            }
            i = i + 1;
        }
        if !marked[len - 1] {
            n = n + 1;
        }
        n
    }

    /// Fisher-Yates randomization: each position below the last two is
    /// swapped with a uniformly random position at or after it. The result
    /// is a permutation of the input.
    pub fn shuffle_fy(&mut self)
        requires
            old(self)@.len() >= 2,
        ensures
            final(self)@.len() == old(self)@.len(),
            final(self)@.to_multiset() == old(self)@.to_multiset(),
    {
        let n = self.0.len();
        let mut i: usize = 0;
        while i < n - 2
            invariant
                n == self@.len(),
                n >= 2,
                i <= n - 2,
                self@.to_multiset() == old(self)@.to_multiset(),
            decreases n - 2 - i,
        {
            let j = pick_index(i, n);
            let ghost before = self@;
            let a = self.0[i];
            let b = self.0[j];
            self.0[i] = b;
            self.0[j] = a;
            proof {
                broadcast use vstd::seq_lib::group_to_multiset_ensures;
                broadcast use vstd::multiset::group_multiset_axioms;

                let s1 = before.update(i as int, b);
                let s2 = s1.update(j as int, a);
                assert(self@ == s2);
                vstd::seq_lib::to_multiset_update(before, i as int, b);
                vstd::seq_lib::to_multiset_update(s1, j as int, a);
                assert(s1[j as int] == b);
                assert(s2.to_multiset() =~= before.to_multiset());
            }
            i = i + 1;
        }
    }

    /// Renders the stack as space-separated two-character card tokens.
    pub fn to_string(&self) -> (r: String)
        ensures
            r@ == spec_cards_text(self@),
    {
        let mut out = String::new();
        let mut i: usize = 0;
        while i < self.0.len()
            invariant
                i <= self@.len(),
                out@ == spec_cards_text(self@.subrange(0, i as int)),
            decreases self@.len() - i,
        {
            if i != 0 {
                proof {
                    reveal_strlit(" ");
                    assert((" ")@ =~= seq![' ']);
                }
                out.append(" ");
            }
            let card_text = self.0[i].to_string();
            out.append(card_text.as_str());
            proof {
                assert(self@.subrange(0, i + 1).drop_last() =~= self@.subrange(0, i as int));
                assert(self@.subrange(0, i + 1).last() == self@[i as int]);
                if i == 0 {
                    assert(out@ =~= spec_cards_text(self@.subrange(0, 1)));
                }
            }
            i = i + 1;
        }
        proof {
            assert(self@.subrange(0, self@.len() as int) =~= self@);
        }
        out
    }

    /// Parses a stack from space-separated two-character card tokens; any
    /// malformed token, a doubled separator included, is rejected.
    pub fn from_str(s: &str) -> (r: Result<Cards, IllegalStringError>)
        ensures
            r matches Ok(cs) ==> spec_parse_cards(s@) == Some(cs@),
            r is Err ==> spec_parse_cards(s@) is None,
    {
        let n = s.unicode_len();
        let mut acc: Vec<Card> = Vec::new();
        let mut pos: usize = 0;
        proof {
            assert(s@.subrange(0, n as int) =~= s@);
            match spec_parse_cards(s@) {
                Some(r0) => {
                    assert(Seq::<Card>::empty() + r0 =~= r0);
                },
                None => {},
            }
        }
        loop
            invariant
                pos <= n,
                n == s@.len(),
                (spec_parse_cards(s@.subrange(pos as int, n as int)) matches Some(rest)
                    ==> spec_parse_cards(s@) == Some(acc@ + rest)),
                (spec_parse_cards(s@.subrange(pos as int, n as int)) is None ==> spec_parse_cards(
                    s@,
                ) is None),
            decreases n - pos,
        {
            let ghost u = s@.subrange(pos as int, n as int);
            let mut j = pos;
            while j < n && s.get_char(j) != ' '
                invariant
                    pos <= j <= n,
                    n == s@.len(),
                    forall|k: int| pos <= k < j ==> s@[k] != ' ',
                decreases n - j,
            {
                j = j + 1;
            }
            proof {
                lemma_split_first_at(u, j - pos);
                assert(u.subrange(0, j - pos) =~= s@.subrange(pos as int, j as int));
            }
            let tok = s.substring_char(pos, j);
            let parsed = crate::card::Card::from_str(tok);
            match parsed {
                Err(e) => {
                    return Err(e);
                },
                Ok(c) => {
                    acc.push(c);
                },
            }
            if j == n {
                proof {
                    let c = acc@.last();
                    assert(spec_parse_cards(u) == Some(seq![c]));
                    assert(acc@.drop_last() + seq![c] =~= acc@);
                }
                return Ok(Cards(acc));
            }
            proof {
                let c = acc@.last();
                let u2 = s@.subrange(pos + 1 + (j - pos), n as int);
                assert(u.subrange(j - pos + 1, u.len() as int) =~= u2);
                match spec_parse_cards(u2) {
                    Some(rest2) => {
                        assert(spec_parse_cards(u) == Some(seq![c] + rest2));
                        assert(acc@.drop_last() + (seq![c] + rest2) =~= acc@ + rest2);
                    },
                    None => {},
                }
            }
            pos = j + 1;
        }
    }

    /// Number of cards in the stack.
    pub fn len(&self) -> (r: usize)
        ensures
            r == self@.len(),
    {
        self.0.len()
    }

    /// Whether the stack holds no cards.
    pub fn is_empty(&self) -> (r: bool)
        ensures
            r == (self@.len() == 0),
    {
        self.0.is_empty()
    }
}

} // verus!
