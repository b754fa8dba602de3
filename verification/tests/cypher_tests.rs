use solitaire_cypher::{
    decrypt, encrypt, get_key_stream, key_deck_from_passphrase, next_deck_state, Card, Cards,
    CypherText, JokerId, JokersPerDeck, KeyStream, Passphrase, PlainText,
};

fn cypher_for(passphrase: &str, plaintext: &str) -> (CypherText, KeyStream, PlainText) {
    let pt = PlainText::from_str(plaintext);
    let key_deck = if passphrase.is_empty() {
        Cards::new(1, JokersPerDeck::new(2).unwrap())
    } else {
        let pp = Passphrase::from_str(passphrase).unwrap();
        key_deck_from_passphrase(&pp)
    };
    let ks = get_key_stream(key_deck, pt.len());
    let ct = encrypt(&pt, &ks);
    (ct, ks, pt)
}

#[test]
fn test_vectors_from_wiki() {
    // The published vectors: a passphrase, a plaintext, and the expected
    // cyphertext; an empty passphrase means the unkeyed deck.
    let vectors = [
        ("", "AAAAAAAAAAAAAAA", "EXKYI ZSGEH UNTIQ"),
        ("bcd", "AAAAAAAAAAAAAAA", "FMUBY BMAXH NQXCJ"),
        ("cryptonomicon", "SOLITAIRE", "KIRAK SFJAN"),
    ];
    let mut got_one = false;
    for (pp_str, pt_str, ct_str) in vectors {
        let (ct, ks, pt) = cypher_for(pp_str, pt_str);
        assert_eq!(ct.ct_to_string(), ct_str);
        let recovered = decrypt(&ct, &ks);
        assert_eq!(recovered.pt_to_string(), pt.pt_to_string());
        got_one = true;
    }
    assert!(got_one, "failed to run any test vectors");
}

#[test]
fn test_published_vector_solitaire() {
    let (ct, ks, _pt) = cypher_for("cryptonomicon", "SOLITAIRE");
    assert_eq!(ct.ct_to_string(), "KIRAK SFJAN");
    let recovered = decrypt(&ct, &ks);
    assert_eq!(recovered.pt_to_string(), "SOLITAIREX");
}

#[test]
fn test_no_key_vector() {
    let (ct, _ks, _pt) = cypher_for("", "AAAAAAAAAAAAAAA");
    assert_eq!(ct.ct_to_string(), "EXKYI ZSGEH UNTIQ");
}

#[test]
fn test_encrypt_known_keystream() {
    let pt = PlainText::from_str("DONOT USEPC");
    let ks = KeyStream::from_str("KDWUP ONOWT");
    let ct = encrypt(&pt, &ks);
    assert_eq!(ct.ct_to_string(), "OSKJJ JGTMW");
    let recovered = decrypt(&ct, &ks);
    assert_eq!(recovered.pt_to_string(), "DONOTUSEPC");
}

#[test]
fn test_round_trip_with_rederived_key() {
    let plain = "THE QUICK BROWN FOX JUMPS OVER THE LAZY DOG";
    let pt = PlainText::from_str(plain);
    let pp1 = Passphrase::from_str("pontifex").unwrap();
    let deck1 = key_deck_from_passphrase(&pp1);
    let ks1 = get_key_stream(deck1, pt.len());
    let ct = encrypt(&pt, &ks1);

    // Decrypt with an independently re-derived, identical key deck.
    let pp2 = Passphrase::from_str("pontifex").unwrap();
    let deck2 = key_deck_from_passphrase(&pp2);
    let ks2 = get_key_stream(deck2, ct.len());
    let recovered = decrypt(&ct, &ks2);
    assert_eq!(recovered.pt_to_string(), pt.pt_to_string());
    assert_eq!(pt.len() % 5, 0, "plaintext should be padded to fives");
}

#[test]
fn test_plaintext_padding_and_filtering() {
    let pt = PlainText::from_str("Don't use PC");
    assert_eq!(pt.pt_to_string(), "DONTUSEPCX");
    let pt = PlainText::from_str("HELLO");
    assert_eq!(pt.len(), 5);
    let pt = PlainText::from_str("");
    assert!(pt.is_empty());
    let pt = PlainText::from_str("a1b2c!");
    assert_eq!(pt.pt_to_string(), "ABCXX");
}

#[test]
fn test_cyphertext_and_keystream_parsing() {
    let ct = CypherText::from_str("GibberishLetters");
    assert_eq!(ct.ct_to_string(), "GIBBE RISHL ETTER S");
    let ks = KeyStream::from_str("GibberishLetters");
    assert_eq!(ks.ks_to_string(), "GIBBE RISHL ETTER S");
    let ks = KeyStream::from_str("kd wu-p onowt!");
    assert_eq!(ks.ks_to_string(), "KDWUP ONOWT");
    assert_eq!(KeyStream::new().len(), 0);
    assert!(CypherText::new().is_empty());
}

#[test]
fn test_passphrase_rules() {
    let pp = Passphrase::from_str("cryptoNOMicon").unwrap();
    assert_eq!(pp.pp_to_string(), "CRYPTONOMICON");
    // Apostrophes are stripped to ease use of published vectors.
    let pp = Passphrase::from_str("'bcd'").unwrap();
    assert_eq!(pp.pp_to_string(), "BCD");
    assert!(Passphrase::from_str("crypto NOMicon").is_err());
    assert!(Passphrase::from_str("cryp%^&omicon").is_err());
    let pp = Passphrase::from_str("").unwrap();
    assert!(pp.is_empty());
}

#[test]
fn test_keystream_length_rounds_up() {
    let deck = Cards::new(1, JokersPerDeck::new(2).unwrap());
    let ks = get_key_stream(deck, 10);
    assert_eq!(ks.len(), 10);
    let deck = Cards::new(1, JokersPerDeck::new(2).unwrap());
    let ks = get_key_stream(deck, 11);
    assert_eq!(ks.len(), 15);
    let deck = Cards::new(1, JokersPerDeck::new(2).unwrap());
    let ks = get_key_stream(deck, 0);
    assert_eq!(ks.len(), 0);
}

#[test]
fn test_next_deck_state_first_advance() {
    // From the unkeyed deck, the first advance emits 4: the top card's
    // value counts down to the card worth 4 (the published first output).
    let deck = Cards::new(1, JokersPerDeck::new(2).unwrap());
    let deck = next_deck_state(deck);
    assert_eq!(deck.len(), 54);
    // Joker A moved below Joker B at the bottom region of the deck.
    let top = *deck.look_at(0).unwrap();
    let v = top.value() as usize;
    let candidate = *deck.look_at(v).unwrap();
    assert_eq!(candidate.value() % 26, 4);
    assert!(candidate != Card::Joker(JokerId::A) && candidate != Card::Joker(JokerId::B));
}

#[test]
fn test_keyed_deck_is_permutation() {
    let pp = Passphrase::from_str("cryptonomicon").unwrap();
    let deck = key_deck_from_passphrase(&pp);
    assert_eq!(deck.len(), 54);
    let mut values = deck.by_def_raw_values();
    values.sort();
    let expected: Vec<u8> = (1..=54).collect();
    assert_eq!(values, expected);
}
