//! Global laws of the library, proved once and for all: the cipher round
//! trip and the periodicity of the perfect (faro) shuffles.

use vstd::arithmetic::div_mod::{
    lemma_fundamental_div_mod, lemma_mod_bound, lemma_mod_multiples_vanish,
    lemma_mul_mod_noop_general, lemma_mul_mod_noop_left, lemma_mul_mod_noop_right,
};
use vstd::arithmetic::power::{lemma_pow1, lemma_pow_adds, pow};
use vstd::prelude::*;

use crate::card::{spec_card_text, spec_parse_card, Card};
use crate::cypher::{spec_dec_byte, spec_decrypt, spec_enc_byte, spec_encrypt};
use crate::stack::{spec_cards_text, spec_faro_once, spec_faro_rounds, spec_parse_cards};
use crate::text::spec_all_upper;

verus! {

/// Round trip of the cipher: for every plaintext and every at-least-as-long
/// keystream, both of uppercase letters, decrypting the encryption under
/// the same keystream recovers the plaintext exactly.
pub proof fn lemma_encrypt_then_decrypt(pt: Seq<u8>, ks: Seq<u8>)
    requires
        spec_all_upper(pt),
        spec_all_upper(ks),
        pt.len() <= ks.len(),
    ensures
        spec_decrypt(spec_encrypt(pt, ks), ks) == pt,
{
    let ct = spec_encrypt(pt, ks);
    assert forall|i: int| 0 <= i < pt.len() implies spec_decrypt(ct, ks)[i] == pt[i] by {
        let p = pt[i] as int;
        let k = ks[i] as int;
        lemma_enc_dec_byte(p, k);
    }
    assert(spec_decrypt(ct, ks) =~= pt);
}

/// Round trip of one letter: subtracting the keystream value undoes adding
/// it, modulo 26.
proof fn lemma_enc_dec_byte(p: int, k: int)
    requires
        65 <= p <= 90,
        65 <= k <= 90,
    ensures
        spec_dec_byte(spec_enc_byte(p, k), k) == p,
{
    let a = p + k - 129;
    lemma_fundamental_div_mod(a, 26);
    lemma_mod_bound(a, 26);
    let q = a / 26;
    let e = a % 26;
    // The decryption input differs from p - 39 by a multiple of 26.
    assert(e + 65 + 25 - k == (-q) * 26 + (p - 39));
    lemma_mod_multiples_vanish(-q, p - 39, 26);
    lemma_mod_multiples_vanish(1, p - 65, 26);
    lemma_mod_bound(p - 65, 26);
    assert((p - 65) % 26 == p - 65) by {
        vstd::arithmetic::div_mod::lemma_small_mod((p - 65) as nat, 26);
    }
}

/// Each card's two-character token holds no separator and parses back to
/// the card it renders.
proof fn lemma_card_token(c: Card)
    ensures
        spec_card_text(c).len() == 2,
        spec_card_text(c)[0] != ' ',
        spec_card_text(c)[1] != ' ',
        spec_parse_card(spec_card_text(c)) == Some(c),
{
}

/// The rendering of a stack, read from the front: the first card's token,
/// then, if more cards follow, a space and the rendering of the rest.
proof fn lemma_cards_text_front(s: Seq<Card>)
    requires
        s.len() >= 1,
    ensures
        s.len() == 1 ==> spec_cards_text(s) == spec_card_text(s[0]),
        s.len() > 1 ==> spec_cards_text(s) == spec_card_text(s[0]) + seq![' ']
            + spec_cards_text(s.drop_first()),
    decreases s.len(),
{
    if s.len() == 1 {
    } else if s.len() == 2 {
        assert(s.drop_last() =~= seq![s[0]]);
        assert(s.drop_first() =~= seq![s[1]]);
        assert(spec_cards_text(seq![s[0]]) == spec_card_text(s[0]));
        assert(spec_cards_text(seq![s[1]]) == spec_card_text(s[1]));
        assert(spec_cards_text(s) == spec_cards_text(seq![s[0]]) + seq![' '] + spec_card_text(
            s.last(),
        ));
        assert(spec_cards_text(s) =~= spec_card_text(s[0]) + seq![' '] + spec_cards_text(
            s.drop_first(),
        ));
    } else {
        lemma_cards_text_front(s.drop_last());
        assert(s.drop_last().drop_first() =~= s.drop_first().drop_last());
        assert(s.drop_first().last() == s.last());
        assert(s.drop_last()[0] == s[0]);
        assert(spec_cards_text(s) == spec_cards_text(s.drop_last()) + seq![' '] + spec_card_text(
            s.last(),
        ));
        assert(spec_cards_text(s.drop_last()) == spec_card_text(s[0]) + seq![' ']
            + spec_cards_text(s.drop_last().drop_first()));
        assert(spec_cards_text(s.drop_first()) == spec_cards_text(s.drop_first().drop_last())
            + seq![' '] + spec_card_text(s.drop_first().last()));
        assert(spec_cards_text(s) =~= spec_card_text(s[0]) + seq![' '] + spec_cards_text(
            s.drop_first(),
        ));
    }
}

/// Card-notation round trip: parsing the rendering of any non-empty stack
/// yields the stack itself.
pub proof fn lemma_cards_notation_round_trip(s: Seq<Card>)
    requires
        s.len() >= 1,
    ensures
        spec_parse_cards(spec_cards_text(s)) == Some(s),
    decreases s.len(),
{
    let u = spec_cards_text(s);
    lemma_card_token(s[0]);
    lemma_cards_text_front(s);
    if s.len() == 1 {
        assert(u == spec_card_text(s[0]));
        crate::stack::lemma_split_first_at(u, 2);
        assert(u.subrange(0, 2) =~= spec_card_text(s[0]));
        assert(seq![s[0]] =~= s);
    } else {
        let rest = spec_cards_text(s.drop_first());
        assert(u[0] == spec_card_text(s[0])[0]);
        assert(u[1] == spec_card_text(s[0])[1]);
        assert(u[2] == ' ');
        crate::stack::lemma_split_first_at(u, 2);
        assert(u.subrange(0, 2) =~= spec_card_text(s[0]));
        assert(u.subrange(3, u.len() as int) =~= rest);
        lemma_cards_notation_round_trip(s.drop_first());
        assert(seq![s[0]] + s.drop_first() =~= s);
    }
}

/// Where the cards of one faro round come from: position `j` receives the
/// card of position `spec_faro_source`.
pub open spec fn spec_faro_source(len: int, j: int, inward: bool) -> int {
    let n = len / 2;
    if inward {
        if j % 2 == 0 {
            n + j / 2
        } else {
            j / 2
        }
    } else {
        if j % 2 == 0 {
            j / 2
        } else {
            n + j / 2
        }
    }
}

/// One faro round of an even-length stack moves the card of position
/// `spec_faro_source(len, j)` to position `j`.
proof fn lemma_faro_once_index(s: Seq<Card>, inward: bool)
    requires
        s.len() % 2 == 0,
    ensures
        spec_faro_once(s, inward).len() == s.len(),
        forall|j: int|
            0 <= j < s.len() ==> #[trigger] spec_faro_once(s, inward)[j] == s[spec_faro_source(
                s.len() as int,
                j,
                inward,
            )],
{
    assert forall|j: int| 0 <= j < s.len() implies #[trigger] spec_faro_once(s, inward)[j]
        == s[spec_faro_source(s.len() as int, j, inward)] by {
        let n = s.len() as int / 2;
        assert(0 <= spec_faro_source(s.len() as int, j, inward) < s.len());
    }
}

/// For a 52-card stack, the in-shuffle source position in modular form:
/// counting positions from one, an in-shuffle multiplies by 27 modulo 53.
proof fn lemma_in_source_mod(j: int)
    requires
        0 <= j < 52,
    ensures
        spec_faro_source(52, j, true) == (27 * (j + 1)) % 53 - 1,
{
    if j % 2 == 0 {
        let t = j / 2;
        assert(27 * (j + 1) == 53 * t + (t + 27));
        lemma_mod_multiples_vanish(t, t + 27, 53);
        vstd::arithmetic::div_mod::lemma_small_mod((t + 27) as nat, 53);
    } else {
        let t = j / 2;
        assert(27 * (j + 1) == 53 * (t + 1) + (t + 1));
        lemma_mod_multiples_vanish(t + 1, t + 1, 53);
        vstd::arithmetic::div_mod::lemma_small_mod((t + 1) as nat, 53);
    }
}

/// For a 52-card stack, the out-shuffle source position in modular form:
/// an out-shuffle multiplies positions by 26 modulo 51 and fixes the last
/// card.
proof fn lemma_out_source_mod(j: int)
    requires
        0 <= j < 52,
    ensures
        j < 51 ==> spec_faro_source(52, j, false) == (26 * j) % 51,
        j == 51 ==> spec_faro_source(52, j, false) == 51,
{
    if j < 51 {
        if j % 2 == 0 {
            let t = j / 2;
            assert(26 * j == 51 * t + t);
            lemma_mod_multiples_vanish(t, t, 51);
            vstd::arithmetic::div_mod::lemma_small_mod(t as nat, 51);
        } else {
            let t = j / 2;
            assert(26 * j == 51 * t + (t + 26));
            lemma_mod_multiples_vanish(t, t + 26, 51);
            vstd::arithmetic::div_mod::lemma_small_mod((t + 26) as nat, 51);
        }
    }
}

/// After `m` in-shuffles of a 52-card stack, position `j` holds the card
/// whose one-based position was `27^m (j+1) mod 53`.
proof fn lemma_in_rounds_index(s: Seq<Card>, m: nat)
    requires
        s.len() == 52,
    ensures
        spec_faro_rounds(s, m, true).len() == 52,
        forall|j: int|
            0 <= j < 52 ==> #[trigger] spec_faro_rounds(s, m, true)[j] == s[(pow(27, m) * (j + 1))
                % 53 - 1],
    decreases m,
{
    if m == 0 {
        assert forall|j: int| 0 <= j < 52 implies #[trigger] spec_faro_rounds(s, m, true)[j] == s[(
        pow(27, m) * (j + 1)) % 53 - 1] by {
            vstd::arithmetic::power::lemma_pow0(27);
            vstd::arithmetic::div_mod::lemma_small_mod((j + 1) as nat, 53);
        }
    } else {
        let prev = spec_faro_rounds(s, (m - 1) as nat, true);
        lemma_in_rounds_index(s, (m - 1) as nat);
        lemma_faro_once_index(prev, true);
        assert forall|j: int| 0 <= j < 52 implies #[trigger] spec_faro_rounds(s, m, true)[j] == s[(
        pow(27, m) * (j + 1)) % 53 - 1] by {
            lemma_in_source_mod(j);
            let src = (27 * (j + 1)) % 53 - 1;
            assert(spec_faro_rounds(s, m, true)[j] == prev[src]);
            lemma_mod_bound(27 * (j + 1), 53);
            assert(prev[src] == s[(pow(27, (m - 1) as nat) * (src + 1)) % 53 - 1]);
            lemma_mul_mod_noop_right(pow(27, (m - 1) as nat), 27 * (j + 1), 53);
            assert(pow(27, (m - 1) as nat) * (27 * (j + 1)) == (27 * pow(27, (m - 1) as nat)) * (j
                + 1)) by (nonlinear_arith);
            assert(pow(27, m) == 27 * pow(27, (m - 1) as nat)) by {
                lemma_pow1(27);
                lemma_pow_adds(27, 1, (m - 1) as nat);
            }
        }
    }
}

/// After `m` out-shuffles of a 52-card stack, position `j < 51` holds the
/// card of position `26^m j mod 51`, and the last card stays put.
proof fn lemma_out_rounds_index(s: Seq<Card>, m: nat)
    requires
        s.len() == 52,
    ensures
        spec_faro_rounds(s, m, false).len() == 52,
        forall|j: int|
            0 <= j < 51 ==> #[trigger] spec_faro_rounds(s, m, false)[j] == s[(pow(26, m) * j)
                % 51],
        spec_faro_rounds(s, m, false)[51] == s[51],
    decreases m,
{
    if m == 0 {
        assert forall|j: int| 0 <= j < 51 implies #[trigger] spec_faro_rounds(s, m, false)[j]
            == s[(pow(26, m) * j) % 51] by {
            vstd::arithmetic::power::lemma_pow0(26);
            vstd::arithmetic::div_mod::lemma_small_mod(j as nat, 51);
        }
    } else {
        let prev = spec_faro_rounds(s, (m - 1) as nat, false);
        lemma_out_rounds_index(s, (m - 1) as nat);
        lemma_faro_once_index(prev, false);
        lemma_out_source_mod(51);
        assert forall|j: int| 0 <= j < 51 implies #[trigger] spec_faro_rounds(s, m, false)[j]
            == s[(pow(26, m) * j) % 51] by {
            lemma_out_source_mod(j);
            let src = (26 * j) % 51;
            assert(spec_faro_rounds(s, m, false)[j] == prev[src]);
            lemma_mod_bound(26 * j, 51);
            assert(prev[src] == s[(pow(26, (m - 1) as nat) * src) % 51]);
            lemma_mul_mod_noop_right(pow(26, (m - 1) as nat), 26 * j, 51);
            assert(pow(26, (m - 1) as nat) * (26 * j) == (26 * pow(26, (m - 1) as nat)) * j)
                by (nonlinear_arith);
            assert(pow(26, m) == 26 * pow(26, (m - 1) as nat)) by {
                lemma_pow1(26);
                lemma_pow_adds(26, 1, (m - 1) as nat);
            }
        }
    }
}

/// The multiplier of 52 in-shuffles is the identity modulo 53.
proof fn lemma_pow27_52_mod53()
    ensures
        pow(27, 52) % 53 == 1,
{
    lemma_pow1(27);
    lemma_pow_adds(27, 1, 1);
    assert(pow(27, 2) == 729);
    lemma_pow_adds(27, 2, 2);
    lemma_mul_mod_noop_general(pow(27, 2), pow(27, 2), 53);
    assert(pow(27, 4) % 53 == 10);
    lemma_pow_adds(27, 4, 4);
    lemma_mul_mod_noop_general(pow(27, 4), pow(27, 4), 53);
    assert(pow(27, 8) % 53 == 47);
    lemma_pow_adds(27, 8, 8);
    lemma_mul_mod_noop_general(pow(27, 8), pow(27, 8), 53);
    assert(pow(27, 16) % 53 == 36);
    lemma_pow_adds(27, 16, 16);
    lemma_mul_mod_noop_general(pow(27, 16), pow(27, 16), 53);
    assert(pow(27, 32) % 53 == 24);
    lemma_pow_adds(27, 32, 16);
    lemma_mul_mod_noop_general(pow(27, 32), pow(27, 16), 53);
    assert(pow(27, 48) % 53 == 16);
    lemma_pow_adds(27, 48, 4);
    lemma_mul_mod_noop_general(pow(27, 48), pow(27, 4), 53);
}

/// The multiplier of 8 out-shuffles is the identity modulo 51.
proof fn lemma_pow26_8_mod51()
    ensures
        pow(26, 8) % 51 == 1,
{
    lemma_pow1(26);
    lemma_pow_adds(26, 1, 1);
    assert(pow(26, 2) == 676);
    lemma_pow_adds(26, 2, 2);
    lemma_mul_mod_noop_general(pow(26, 2), pow(26, 2), 51);
    assert(pow(26, 4) % 51 == 16);
    lemma_pow_adds(26, 4, 4);
    lemma_mul_mod_noop_general(pow(26, 4), pow(26, 4), 51);
}

/// Perfect-shuffle periodicity, inward: fifty-two in-shuffles restore any
/// 52-card stack to its original order.
pub proof fn lemma_in_shuffle_period(s: Seq<Card>)
    requires
        s.len() == 52,
    ensures
        spec_faro_rounds(s, 52, true) == s,
{
    lemma_in_rounds_index(s, 52);
    lemma_pow27_52_mod53();
    assert forall|j: int| 0 <= j < 52 implies #[trigger] spec_faro_rounds(s, 52, true)[j] == s[j]
        by {
        lemma_mul_mod_noop_left(pow(27, 52), j + 1, 53);
        vstd::arithmetic::div_mod::lemma_small_mod((j + 1) as nat, 53);
    }
    assert(spec_faro_rounds(s, 52, true) =~= s);
}

/// Perfect-shuffle periodicity, outward: eight out-shuffles restore any
/// 52-card stack to its original order.
pub proof fn lemma_out_shuffle_period(s: Seq<Card>)
    requires
        s.len() == 52,
    ensures
        spec_faro_rounds(s, 8, false) == s,
{
    lemma_out_rounds_index(s, 8);
    lemma_pow26_8_mod51();
    assert forall|j: int| 0 <= j < 51 implies #[trigger] spec_faro_rounds(s, 8, false)[j] == s[j]
        by {
        lemma_mul_mod_noop_left(pow(26, 8), j, 51);
        vstd::arithmetic::div_mod::lemma_small_mod(j as nat, 51);
    }
    assert(spec_faro_rounds(s, 8, false) =~= s);
}

} // verus!
