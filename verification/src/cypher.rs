//! The Solitaire (Pontifex) keystream state machine and the cipher facade:
//! passphrase-keyed deck derivation, keystream generation, and modular
//! letter encryption and decryption.

use vstd::multiset::Multiset;
use vstd::prelude::*;

use crate::card::{
    spec_card_of_value, spec_cipher_value, Card, JokerId, JokersPerDeck,
};
use crate::stack::{
    spec_circular_pos, spec_count_matches, spec_nth_match, Cards, TwoStacks,
};
use crate::text::{
    card_val_into_let_val, letter_into_value, spec_all_upper, value_into_letter, CypherText,
    KeyStream, Passphrase, PlainText,
};

verus! {

/// A fresh one-deck stack with both jokers, in new-deck order.
pub open spec fn spec_new_deck() -> Seq<Card> {
    Seq::new(54, |i: int| spec_card_of_value(i + 1))
}

/// A stack fit for the keystream state machine: 54 cards holding exactly
/// one of each joker.
pub open spec fn spec_valid_key_deck(s: Seq<Card>) -> bool {
    &&& s.len() == 54
    &&& s.to_multiset().count(Card::Joker(JokerId::A)) == 1
    &&& s.to_multiset().count(Card::Joker(JokerId::B)) == 1
}

/// First position of `c` in `s` (the length when absent).
pub open spec fn spec_first_index(s: Seq<Card>, c: Card) -> int
    decreases s.len(),
{
    if s.len() == 0 {
        0
    } else if s[0] == c {
        0
    } else {
        1 + spec_first_index(s.drop_first(), c)
    }
}

/// The stack after its first `c` moves `delta` circular steps.
pub open spec fn spec_move_joker(s: Seq<Card>, c: Card, delta: int) -> Seq<Card> {
    let p = spec_first_index(s, c);
    s.remove(p).insert(spec_circular_pos(s.len() as int, p, delta), c)
}

/// The triple cut: the segments above and below the two jokers swap, the
/// jokers and everything between them stay in place.
pub open spec fn spec_triple_cut(s: Seq<Card>) -> Seq<Card> {
    let pa = spec_first_index(s, Card::Joker(JokerId::A));
    let pb = spec_first_index(s, Card::Joker(JokerId::B));
    let i = if pa <= pb {
        pa
    } else {
        pb
    };
    let j = if pa <= pb {
        pb
    } else {
        pa
    };
    s.subrange(j + 1, s.len() as int) + s.subrange(i, j + 1) + s.subrange(0, i)
}

/// A cut that keeps the bottom card fixed: the top `v` cards move to just
/// above the bottom card.
pub open spec fn spec_bottom_cut(s: Seq<Card>, v: int) -> Seq<Card> {
    s.subrange(v, s.len() - 1) + s.subrange(0, v) + seq![s.last()]
}

/// The count cut: a bottom-fixed cut counted out by the bottom card's
/// cipher value.
pub open spec fn spec_count_cut(s: Seq<Card>) -> Seq<Card> {
    spec_bottom_cut(s, spec_cipher_value(s.last()))
}

/// One full advance of the keystream state machine: move Joker A one step,
/// Joker B two steps, triple cut, count cut.
pub open spec fn spec_advance(s: Seq<Card>) -> Seq<Card> {
    spec_count_cut(
        spec_triple_cut(
            spec_move_joker(spec_move_joker(s, Card::Joker(JokerId::A), 1), Card::Joker(JokerId::B), 2),
        ),
    )
}

/// The deck after `m` advances.
pub open spec fn spec_advances(s: Seq<Card>, m: nat) -> Seq<Card>
    decreases m,
{
    if m == 0 {
        s
    } else {
        spec_advance(spec_advances(s, (m - 1) as nat))
    }
}

/// The letter byte that an advanced deck emits, if any: the card found by
/// counting out the top card's cipher value emits its own cipher value
/// reduced to a letter, while a joker there emits nothing.
pub open spec fn spec_emit(s: Seq<Card>) -> Option<u8> {
    let v = spec_cipher_value(s[0]);
    let cand = s[v];
    if cand is Joker {
        None
    } else {
        Some((((spec_cipher_value(cand) - 1) % 26) + 65) as u8)
    }
}

/// The letter bytes emitted by the first `m` advances of a deck.
pub open spec fn spec_emitted(s: Seq<Card>, m: nat) -> Seq<u8>
    decreases m,
{
    if m == 0 {
        Seq::empty()
    } else {
        spec_emitted(s, (m - 1) as nat) + match spec_emit(spec_advances(s, m)) {
            Some(b) => seq![b],
            None => Seq::empty(),
        }
    }
}

/// The key deck derived from a passphrase: each letter advances the fresh
/// deck once and then applies a bottom-fixed cut counted by the letter's
/// value.
pub open spec fn spec_keyed_deck(pp: Seq<u8>) -> Seq<Card>
    decreases pp.len(),
{
    if pp.len() == 0 {
        spec_new_deck()
    } else {
        spec_bottom_cut(spec_advance(spec_keyed_deck(pp.drop_last())), pp.last() - 64)
    }
}

/// Cap on the advances one keystream request may run: far beyond any
/// reachable state count, it only bounds the otherwise open-ended search
/// for the next emitting state.
pub const ADVANCE_FUEL: u64 = 0xffff_ffff_ffff_ffff;

/// A text length rounded up to the next multiple of five.
pub open spec fn spec_round5(n: int) -> int {
    ((n + 4) / 5) * 5
}

/// The byte that encrypts plaintext letter `p` under keystream letter `k`:
/// the letters' values add modulo 26.
pub open spec fn spec_enc_byte(p: int, k: int) -> int {
    (p + k - 129) % 26 + 65
}

/// The byte that decrypts cyphertext letter `c` under keystream letter
/// `k`: the keystream value is subtracted modulo 26.
pub open spec fn spec_dec_byte(c: int, k: int) -> int {
    (c + 25 - k) % 26 + 65
}

/// Letterwise encryption of a plaintext under a keystream.
pub open spec fn spec_encrypt(pt: Seq<u8>, ks: Seq<u8>) -> Seq<u8> {
    Seq::new(pt.len(), |i: int| spec_enc_byte(pt[i] as int, ks[i] as int) as u8)
}

/// Letterwise decryption of a cyphertext under a keystream.
pub open spec fn spec_decrypt(ct: Seq<u8>, ks: Seq<u8>) -> Seq<u8> {
    Seq::new(ct.len(), |i: int| spec_dec_byte(ct[i] as int, ks[i] as int) as u8)
}

/// Counting matches agrees with the multiset count.
proof fn lemma_count_matches_eq_multiset(s: Seq<Card>, c: Card)
    ensures
        spec_count_matches(s, c) == s.to_multiset().count(c),
    decreases s.len(),
{
    broadcast use vstd::seq_lib::group_to_multiset_ensures;

    if s.len() == 0 {
        assert(s.to_multiset() =~= Multiset::<Card>::empty());
    } else {
        lemma_count_matches_eq_multiset(s.drop_last(), c);
        assert(s =~= s.drop_last().push(s.last()));
        assert(s.to_multiset() =~= s.drop_last().to_multiset().insert(s.last()));
    }
}

/// A prefix holds no matches exactly when none of its positions match.
proof fn lemma_count_zero_iff(s: Seq<Card>, c: Card)
    ensures
        spec_count_matches(s, c) == 0 <==> (forall|j: int| 0 <= j < s.len() ==> s[j] != c),
    decreases s.len(),
{
    if s.len() > 0 {
        lemma_count_zero_iff(s.drop_last(), c);
        crate::stack::lemma_count_matches_bounds(s.drop_last(), c);
        if spec_count_matches(s, c) == 0 {
            assert forall|j: int| 0 <= j < s.len() implies s[j] != c by {
                if j < s.len() - 1 {
                    assert(s.drop_last()[j] == s[j]);
                }
            }
        }
    }
}

/// The first position holding `c`, characterized: `c` is there and nowhere
/// earlier.
proof fn lemma_first_index_of(s: Seq<Card>, c: Card, p: int)
    requires
        0 <= p < s.len(),
        s[p] == c,
        forall|j: int| 0 <= j < p ==> s[j] != c,
    ensures
        spec_first_index(s, c) == p,
    decreases s.len(),
{
    if s[0] != c {
        lemma_first_index_of(s.drop_first(), c, p - 1);
    }
}

/// The position of the 0th match is the first index.
proof fn lemma_nth0_is_first(s: Seq<Card>, c: Card, p: int)
    requires
        spec_nth_match(s, c, 0, p),
    ensures
        spec_first_index(s, c) == p,
{
    lemma_count_zero_iff(s.subrange(0, p), c);
    assert forall|j: int| 0 <= j < p implies s[j] != c by {
        assert(s.subrange(0, p)[j] == s[j]);
    }
    lemma_first_index_of(s, c, p);
}

/// Properties of the first index when the card is present.
proof fn lemma_first_index_props(s: Seq<Card>, c: Card)
    requires
        s.to_multiset().count(c) > 0,
    ensures
        0 <= spec_first_index(s, c) < s.len(),
        s[spec_first_index(s, c)] == c,
    decreases s.len(),
{
    broadcast use vstd::seq_lib::group_to_multiset_ensures;

    assert(s.contains(c));
    let w = choose|w: int| 0 <= w < s.len() && s[w] == c;
    if s.len() > 0 && s[0] != c {
        assert(s.drop_first().to_multiset().count(c) > 0) by {
            assert(s.drop_first()[w - 1] == c);
            assert(s.drop_first().contains(c));
        }
        lemma_first_index_props(s.drop_first(), c);
    }
}

/// Moving a joker circularly permutes the stack.
proof fn lemma_move_joker_preserves(s: Seq<Card>, c: Card, delta: int)
    requires
        s.len() > 0,
        s.to_multiset().count(c) > 0,
    ensures
        spec_move_joker(s, c, delta).len() == s.len(),
        spec_move_joker(s, c, delta).to_multiset() == s.to_multiset(),
{
    broadcast use vstd::seq_lib::group_to_multiset_ensures;
    broadcast use vstd::seq_lib::to_multiset_insert;
    broadcast use vstd::multiset::group_multiset_axioms;

    lemma_first_index_props(s, c);
    let p = spec_first_index(s, c);
    let q = spec_circular_pos(s.len() as int, p, delta);
    assert(0 <= q < s.len()) by {
        vstd::arithmetic::div_mod::lemma_mod_bound(p + delta, s.len() as int);
    }
    let removed = s.remove(p);
    assert(removed.to_multiset() == s.to_multiset().remove(s[p]));
    assert(removed.insert(q, c).to_multiset() == removed.to_multiset().insert(c));
    assert(s.to_multiset().remove(c).insert(c) =~= s.to_multiset());
}

/// A stack reassembled from three consecutive segments in another order is
/// a permutation of the original.
proof fn lemma_three_cut_preserves(s: Seq<Card>, i: int, j: int)
    requires
        0 <= i <= j < s.len(),
    ensures
        (s.subrange(j + 1, s.len() as int) + s.subrange(i, j + 1) + s.subrange(0, i)).to_multiset()
            == s.to_multiset(),
        (s.subrange(j + 1, s.len() as int) + s.subrange(i, j + 1) + s.subrange(0, i)).len()
            == s.len(),
{
    let a = s.subrange(0, i);
    let b = s.subrange(i, j + 1);
    let c = s.subrange(j + 1, s.len() as int);
    assert(s =~= a + b + c);
    vstd::seq_lib::lemma_multiset_commutative(a + b, c);
    vstd::seq_lib::lemma_multiset_commutative(a, b);
    vstd::seq_lib::lemma_multiset_commutative(c + b, a);
    vstd::seq_lib::lemma_multiset_commutative(c, b);
    assert((c + b + a).to_multiset() =~= s.to_multiset());
}

/// A bottom-fixed cut permutes the stack.
proof fn lemma_bottom_cut_preserves(s: Seq<Card>, v: int)
    requires
        0 <= v < s.len(),
    ensures
        spec_bottom_cut(s, v).to_multiset() == s.to_multiset(),
        spec_bottom_cut(s, v).len() == s.len(),
{
    broadcast use vstd::seq_lib::group_to_multiset_ensures;

    let a = s.subrange(0, v);
    let b = s.subrange(v, s.len() - 1);
    let last = seq![s.last()];
    assert(s =~= a + b + last);
    vstd::seq_lib::lemma_multiset_commutative(a + b, last);
    vstd::seq_lib::lemma_multiset_commutative(a, b);
    vstd::seq_lib::lemma_multiset_commutative(b + a, last);
    vstd::seq_lib::lemma_multiset_commutative(b, a);
    assert((b + a + last).to_multiset() =~= s.to_multiset());
}

/// Every card's cipher value lies in 1..=53.
pub proof fn lemma_cipher_value_bounds(c: Card)
    ensures
        1 <= spec_cipher_value(c) <= 53,
{
}

/// A bottom-fixed cut of a stack that held `v` in 0..len keeps the
/// machine's deck valid.
proof fn lemma_bottom_cut_valid(s: Seq<Card>, v: int)
    requires
        spec_valid_key_deck(s),
        0 <= v < s.len(),
    ensures
        spec_valid_key_deck(spec_bottom_cut(s, v)),
{
    lemma_bottom_cut_preserves(s, v);
}

/// Joker counts of a fresh deck's prefixes: Joker A sits only at position
/// 52, Joker B only at position 53.
proof fn lemma_new_deck_joker_counts(k: int)
    requires
        0 <= k <= 54,
    ensures
        spec_count_matches(spec_new_deck().subrange(0, k), Card::Joker(JokerId::A)) == if k >= 53 {
            1int
        } else {
            0int
        },
        spec_count_matches(spec_new_deck().subrange(0, k), Card::Joker(JokerId::B)) == if k >= 54 {
            1int
        } else {
            0int
        },
    decreases k,
{
    if k > 0 {
        lemma_new_deck_joker_counts(k - 1);
        assert(spec_new_deck().subrange(0, k).drop_last() =~= spec_new_deck().subrange(0, k - 1));
        assert(spec_new_deck().subrange(0, k).last() == spec_card_of_value(k));
    }
}

/// A fresh two-joker deck is a valid machine deck.
proof fn lemma_new_deck_valid()
    ensures
        spec_valid_key_deck(spec_new_deck()),
{
    lemma_new_deck_joker_counts(54);
    assert(spec_new_deck().subrange(0, 54) =~= spec_new_deck());
    lemma_count_matches_eq_multiset(spec_new_deck(), Card::Joker(JokerId::A));
    lemma_count_matches_eq_multiset(spec_new_deck(), Card::Joker(JokerId::B));
}

/// One advance keeps the machine's deck valid.
proof fn lemma_advance_valid(s: Seq<Card>)
    requires
        spec_valid_key_deck(s),
    ensures
        spec_valid_key_deck(spec_advance(s)),
        spec_advance(s).to_multiset() == s.to_multiset(),
{
    let fa = Card::Joker(JokerId::A);
    let fb = Card::Joker(JokerId::B);
    lemma_move_joker_preserves(s, fa, 1);
    let s1 = spec_move_joker(s, fa, 1);
    lemma_move_joker_preserves(s1, fb, 2);
    let s2 = spec_move_joker(s1, fb, 2);
    lemma_first_index_props(s2, fa);
    lemma_first_index_props(s2, fb);
    let pa = spec_first_index(s2, fa);
    let pb = spec_first_index(s2, fb);
    let i = if pa <= pb {
        pa
    } else {
        pb
    };
    let j = if pa <= pb {
        pb
    } else {
        pa
    };
    lemma_three_cut_preserves(s2, i, j);
    let s3 = spec_triple_cut(s2);
    lemma_cipher_value_bounds(s3.last());
    lemma_bottom_cut_preserves(s3, spec_cipher_value(s3.last()));
}

/// A bottom-fixed cut: splits off the top `v` cards and reinserts them
/// just above the bottom card, which stays in place.
fn bottom_fixed_cut(deck: Cards, v: usize) -> (r: Cards)
    requires
        v < deck@.len(),
    ensures
        r@ == spec_bottom_cut(deck@, v as int),
{
    let ghost s = deck@;
    let TwoStacks(top, bottom_part) = deck.cut(v);
    let mut bottom = bottom_part;
    let popped = match bottom.0.pop() {
        Some(c) => c,
        None => unreached(),
    };
    bottom.append(top);
    let mut last_one: Vec<Card> = Vec::new();
    last_one.push(popped);
    bottom.append(Cards(last_one));
    proof {
        assert(bottom@ =~= spec_bottom_cut(s, v as int));
    }
    bottom
}

/// One full advance of the key deck: Joker A moves one circular step and
/// Joker B two, the triple cut swaps the segments outside the jokers, and
/// the count cut, counted by the bottom card's cipher value, leaves the
/// bottom card fixed.
#[verifier::rlimit(100)]
pub fn next_deck_state(key_deck: Cards) -> (r: Cards)
    requires
        spec_valid_key_deck(key_deck@),
    ensures
        r@ == spec_advance(key_deck@),
        spec_valid_key_deck(r@),
{
    let fa = Card::Joker(JokerId::A);
    let fb = Card::Joker(JokerId::B);
    let mut deck = key_deck;
    let ghost s0 = deck@;

    proof {
        lemma_count_matches_eq_multiset(s0, fa);
    }
    let _found_a = deck.move_card_circular(fa, 0, 1);
    proof {
        let p = choose|p: int|
            spec_nth_match(s0, fa, 0, p) && deck@ == s0.remove(p).insert(
                spec_circular_pos(s0.len() as int, p, 1),
                fa,
            );
        lemma_nth0_is_first(s0, fa, p);
        lemma_move_joker_preserves(s0, fa, 1);
        assert(deck@ == spec_move_joker(s0, fa, 1));
    }
    let ghost s1 = deck@;

    proof {
        lemma_count_matches_eq_multiset(s1, fb);
    }
    let _found_b = deck.move_card_circular(fb, 0, 2);
    proof {
        let p = choose|p: int|
            spec_nth_match(s1, fb, 0, p) && deck@ == s1.remove(p).insert(
                spec_circular_pos(s1.len() as int, p, 2),
                fb,
            );
        lemma_nth0_is_first(s1, fb, p);
        lemma_move_joker_preserves(s1, fb, 2);
        assert(deck@ == spec_move_joker(s1, fb, 2));
    }
    let ghost s2 = deck@;

    proof {
        lemma_count_matches_eq_multiset(s2, fa);
        lemma_count_matches_eq_multiset(s2, fb);
    }
    let above_fa_opt = deck.draw_till(fa);
    let mut above_fa = match above_fa_opt {
        Some(c) => c,
        None => {
            proof {
                lemma_count_zero_iff(s2, fa);
            }
            unreached()
        },
    };
    let ghost pa = choose|p: int|
        0 <= p < s2.len() && s2[p] == fa && (forall|j: int| 0 <= j < p ==> s2[j] != fa)
            && above_fa@ == s2.subrange(0, p) && deck@ == s2.subrange(p, s2.len() as int);
    proof {
        lemma_first_index_of(s2, fa, pa);
    }
    let ghost af = s2.subrange(0, pa);

    let above_both_opt = above_fa.draw_till(fb);
    match above_both_opt {
        Some(above_both) => {
            let ghost qb = choose|q: int|
                0 <= q < af.len() && af[q] == fb && (forall|j: int| 0 <= j < q ==> af[j] != fb)
                    && above_both@ == af.subrange(0, q) && above_fa@ == af.subrange(
                    q,
                    af.len() as int,
                );
            let ghost pb = qb;
            proof {
                assert(s2[pb] == fb);
                assert forall|j: int| 0 <= j < pb implies s2[j] != fb by {
                    assert(af[j] == s2[j]);
                }
                lemma_first_index_of(s2, fb, pb);
            }
            let fb_cards = match above_fa.draw_count(1) {
                Ok(c) => c,
                Err(_) => unreached(),
            };
            let fa_cards = match deck.draw_count(1) {
                Ok(c) => c,
                Err(_) => unreached(),
            };
            deck.append(fb_cards);
            deck.append(above_fa);
            deck.append(fa_cards);
            deck.append(above_both);
            proof {
                assert(deck@ =~= spec_triple_cut(s2));
            }
        },
        None => {
            let above_fb_opt = deck.draw_till(fb);
            match above_fb_opt {
                Some(above_fb_found) => {
                    let mut above_fb = above_fb_found;
                    let ghost mid = s2.subrange(pa, s2.len() as int);
                    let ghost qb = choose|q: int|
                        0 <= q < mid.len() && mid[q] == fb && (forall|j: int|
                            0 <= j < q ==> mid[j] != fb) && above_fb@ == mid.subrange(0, q)
                            && deck@ == mid.subrange(q, mid.len() as int);
                    let ghost pb = pa + qb;
                    proof {
                        assert(s2[pb] == fb);
                        assert forall|j: int| 0 <= j < pb implies s2[j] != fb by {
                            if j < pa {
                                assert(af[j] == s2[j]);
                            } else {
                                assert(mid[j - pa] == s2[j]);
                            }
                        }
                        lemma_first_index_of(s2, fb, pb);
                        assert(qb != 0);
                    }
                    let fa_cards = match above_fb.draw_count(1) {
                        Ok(c) => c,
                        Err(_) => unreached(),
                    };
                    let fb_cards = match deck.draw_count(1) {
                        Ok(c) => c,
                        Err(_) => unreached(),
                    };
                    deck.append(fa_cards);
                    deck.append(above_fb);
                    deck.append(fb_cards);
                    deck.append(above_fa);
                    proof {
                        assert(deck@ =~= spec_triple_cut(s2));
                    }
                },
                None => {
                    proof {
                        let mid = s2.subrange(pa, s2.len() as int);
                        assert(s2 =~= af + mid);
                        crate::stack::lemma_count_matches_concat(af, mid, fb);
                        lemma_count_zero_iff(af, fb);
                        lemma_count_zero_iff(mid, fb);
                        assert forall|j: int| 0 <= j < af.len() implies af[j] != fb by {
                            assert(af[j] == s2[j]);
                        }
                    }
                    unreached()
                },
            }
        },
    }
    let ghost s3 = deck@;
    proof {
        lemma_first_index_props(s2, fa);
        lemma_first_index_props(s2, fb);
        let ia = spec_first_index(s2, fa);
        let ib = spec_first_index(s2, fb);
        let i = if ia <= ib {
            ia
        } else {
            ib
        };
        let j = if ia <= ib {
            ib
        } else {
            ia
        };
        lemma_three_cut_preserves(s2, i, j);
    }
    let deck_len = deck.len();
    let bottom_card = match deck.look_at(deck_len - 1) {
        Ok(c) => *c,
        Err(_) => unreached(),
    };
    let v = bottom_card.value();
    proof {
        lemma_cipher_value_bounds(bottom_card);
    }
    let result = bottom_fixed_cut(deck, v as usize);
    proof {
        assert(result@ == spec_count_cut(s3));
        lemma_advance_valid(s0);
    }
    result
}

/// Derives a key deck from a passphrase, starting from a fresh two-joker
/// deck: each letter runs one full advance and then a bottom-fixed cut
/// counted by the letter's value. This is the basic algorithm, without the
/// optional final step.
pub fn key_deck_from_passphrase(passphrase: &Passphrase) -> (r: Cards)
    requires
        passphrase.wf(),
    ensures
        r@ == spec_keyed_deck(passphrase@),
        spec_valid_key_deck(r@),
{
    let jokers = match JokersPerDeck::new(2) {
        Some(j) => j,
        None => unreached(),
    };
    let mut deck = Cards::new(1, jokers);
    proof {
        assert forall|i: int| 0 <= i < 54 implies deck@[i] == spec_card_of_value(i + 1) by {
            assert(i % 54int == i);
        }
        assert(deck@ =~= spec_new_deck());
        lemma_new_deck_valid();
        assert(passphrase@.subrange(0, 0) =~= Seq::<u8>::empty());
    }
    let mut i: usize = 0;
    while i < passphrase.0.len()
        invariant
            i <= passphrase@.len(),
            passphrase.wf(),
            deck@ == spec_keyed_deck(passphrase@.subrange(0, i as int)),
            spec_valid_key_deck(deck@),
        decreases passphrase@.len() - i,
    {
        deck = next_deck_state(deck);
        let letter = passphrase.0[i];
        let lv = letter_into_value(letter);
        let ghost before = deck@;
        deck = bottom_fixed_cut(deck, lv as usize);
        proof {
            assert(passphrase@.subrange(0, i + 1).drop_last() =~= passphrase@.subrange(
                0,
                i as int,
            ));
            assert(passphrase@.subrange(0, i + 1).last() == passphrase@[i as int]);
            lemma_bottom_cut_valid(before, lv as int);
        }
        i = i + 1;
    }
    proof {
        assert(passphrase@.subrange(0, passphrase@.len() as int) =~= passphrase@);
    }
    deck
}

/// Generates a keystream of the requested length, rounded up to a multiple
/// of five, by advancing the key deck and extracting zero or one letter
/// per advance. The result is always a prefix of the deck's emission
/// sequence; it reaches the full rounded length unless the state machine
/// were to run an astronomical number of advances without emitting.
pub fn get_key_stream(key_deck: Cards, key_length: usize) -> (r: KeyStream)
    requires
        spec_valid_key_deck(key_deck@),
        key_length <= usize::MAX - 4,
    ensures
        r.wf(),
        exists|m: nat|
            r@ == spec_emitted(key_deck@, m) && (r@.len() == spec_round5(key_length as int) || m
                == ADVANCE_FUEL),
    {
    let ghost orig = key_deck@;
    let mut deck = key_deck;
    let mut out: Vec<u8> = Vec::new();
    let target = ((key_length + 4) / 5) * 5;
    let mut fuel: u64 = ADVANCE_FUEL;
    let ghost mut m: nat = 0;
    proof {
        assert(out@ =~= spec_emitted(orig, 0));
    }
    while out.len() < target && fuel > 0
        invariant
            target == spec_round5(key_length as int),
            out@.len() <= target,
            spec_all_upper(out@),
            out@ == spec_emitted(orig, m),
            deck@ == spec_advances(orig, m),
            spec_valid_key_deck(deck@),
            m == ADVANCE_FUEL - fuel,
        decreases fuel,
    {
        deck = next_deck_state(deck);
        proof {
            m = m + 1;
        }
        let top_card = match deck.look_at(0) {
            Ok(c) => *c,
            Err(_) => unreached(),
        };
        let v = top_card.value();
        proof {
            lemma_cipher_value_bounds(top_card);
        }
        let candidate = match deck.look_at(v as usize) {
            Ok(c) => *c,
            Err(_) => unreached(),
        };
        let is_joker = match candidate {
            Card::Joker(_) => true,
            _ => false,
        };
        if !is_joker {
            proof {
                lemma_cipher_value_bounds(candidate);
            }
            let lv = card_val_into_let_val(candidate.value());
            out.push(value_into_letter(lv));
            proof {
                assert(out@ =~= spec_emitted(orig, m));
            }
        } else {
            proof {
                assert(out@ =~= spec_emitted(orig, m));
            }
        }
        fuel = fuel - 1;
    }
    proof {
        assert(out@ == spec_emitted(orig, m) && (out@.len() == spec_round5(key_length as int) || m
            == ADVANCE_FUEL));
    }
    KeyStream(out)
}

/// Encrypts a plaintext under a keystream at least as long: each letter
/// value is added to its keystream letter's value modulo 26.
pub fn encrypt(pt: &PlainText, ks: &KeyStream) -> (r: CypherText)
    requires
        pt.wf(),
        ks.wf(),
        pt@.len() <= ks@.len(),
    ensures
        r@ == spec_encrypt(pt@, ks@),
        r.wf(),
{
    let mut out: Vec<u8> = Vec::new();
    let mut i: usize = 0;
    while i < pt.0.len()
        invariant
            i <= pt@.len(),
            pt@.len() <= ks@.len(),
            pt.wf(),
            ks.wf(),
            out@.len() == i,
            forall|j: int|
                0 <= j < i ==> out@[j] == spec_enc_byte(pt@[j] as int, ks@[j] as int) as u8,
        decreases pt@.len() - i,
    {
        let p = letter_into_value(pt.0[i]);
        let k = letter_into_value(ks.0[i]);
        let c = value_into_letter((p + k - 1) % 26 + 1);
        out.push(c);
        i = i + 1;
    }
    proof {
        assert(out@ =~= spec_encrypt(pt@, ks@));
    }
    CypherText(out)
}

/// Decrypts a cyphertext under a keystream at least as long: each
/// keystream letter's value is subtracted modulo 26.
pub fn decrypt(ct: &CypherText, ks: &KeyStream) -> (r: PlainText)
    requires
        ct.wf(),
        ks.wf(),
        ct@.len() <= ks@.len(),
    ensures
        r@ == spec_decrypt(ct@, ks@),
        r.wf(),
{
    let mut out: Vec<u8> = Vec::new();
    let mut i: usize = 0;
    while i < ct.0.len()
        invariant
            i <= ct@.len(),
            ct@.len() <= ks@.len(),
            ct.wf(),
            ks.wf(),
            out@.len() == i,
            forall|j: int|
                0 <= j < i ==> out@[j] == spec_dec_byte(ct@[j] as int, ks@[j] as int) as u8,
        decreases ct@.len() - i,
    {
        let c = letter_into_value(ct.0[i]);
        let k = letter_into_value(ks.0[i]);
        let p = value_into_letter((c + 26 - k - 1) % 26 + 1);
        out.push(p);
        i = i + 1;
    }
    proof {
        assert(out@ =~= spec_decrypt(ct@, ks@));
    }
    PlainText(out)
}

} // verus!
