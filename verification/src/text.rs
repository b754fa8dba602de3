//! Letter sequences for the cipher: plaintext, cyphertext, passphrase and
//! keystream, each an ordered sequence of uppercase ASCII letters, together
//! with the bounded letter/value codec.

use vstd::prelude::*;

verus! {

/// `b` is the ASCII code of an uppercase letter.
pub open spec fn spec_is_upper(b: u8) -> bool {
    65 <= b <= 90
}

/// Every byte of `l` is an uppercase letter.
pub open spec fn spec_all_upper(l: Seq<u8>) -> bool {
    forall|i: int| 0 <= i < l.len() ==> spec_is_upper(#[trigger] l[i])
}

/// The uppercase-letter byte denoted by a character: ASCII letters map to
/// their uppercase code, everything else to nothing.
pub open spec fn spec_letter_byte(c: char) -> Option<u8> {
    let u = c as int;
    if 97 <= u <= 122 {
        Some((u - 32) as u8)
    } else if 65 <= u <= 90 {
        Some(u as u8)
    } else {
        None
    }
}

/// The uppercase-letter bytes of a text, non-letters discarded.
pub open spec fn spec_letters_of(t: Seq<char>) -> Seq<u8>
    decreases t.len(),
{
    if t.len() == 0 {
        Seq::empty()
    } else {
        spec_letters_of(t.drop_last()) + match spec_letter_byte(t.last()) {
            Some(b) => seq![b],
            None => Seq::empty(),
        }
    }
}

/// `l` right-padded with 'X' to a multiple of five letters.
pub open spec fn spec_pad_x(l: Seq<u8>) -> Seq<u8> {
    l + Seq::new(((5 - l.len() % 5) % 5) as nat, |i: int| 88u8)
}

/// The text with its apostrophes removed.
pub open spec fn spec_strip_ticks(t: Seq<char>) -> Seq<char>
    decreases t.len(),
{
    if t.len() == 0 {
        Seq::empty()
    } else {
        spec_strip_ticks(t.drop_last()) + if t.last() == '\'' {
            Seq::empty()
        } else {
            seq![t.last()]
        }
    }
}

/// The uppercase-letter bytes of a passphrase text, or nothing if any
/// character, after apostrophes are removed, is not a letter.
pub open spec fn spec_passphrase_of(t: Seq<char>) -> Option<Seq<u8>>
    decreases t.len(),
{
    if t.len() == 0 {
        Some(Seq::empty())
    } else {
        match (spec_passphrase_of(t.drop_last()), spec_letter_byte(t.last())) {
            (Some(front), Some(b)) => Some(front + seq![b]),
            _ => None,
        }
    }
}

/// The character rendering an uppercase-letter byte.
pub open spec fn spec_letter_char(b: u8) -> char {
    ("ABCDEFGHIJKLMNOPQRSTUVWXYZ")@[b - 65]
}

/// The plain rendering of letters, one character each.
pub open spec fn spec_plain_text(l: Seq<u8>) -> Seq<char>
    decreases l.len(),
{
    if l.len() == 0 {
        Seq::empty()
    } else {
        spec_plain_text(l.drop_last()) + seq![spec_letter_char(l.last())]
    }
}

/// The grouped rendering of letters: blocks of five characters separated by
/// single spaces.
pub open spec fn spec_grouped_text(l: Seq<u8>) -> Seq<char>
    decreases l.len(),
{
    if l.len() == 0 {
        Seq::empty()
    } else {
        spec_grouped_text(l.drop_last()) + (if l.len() > 1 && (l.len() - 1) % 5 == 0 {
            seq![' ']
        } else {
            Seq::empty()
        }) + seq![spec_letter_char(l.last())]
    }
}

/// Letters extracted from a text are uppercase letters.
pub proof fn lemma_letters_of_upper(t: Seq<char>)
    ensures
        spec_all_upper(spec_letters_of(t)),
    decreases t.len(),
{
    if t.len() > 0 {
        lemma_letters_of_upper(t.drop_last());
    }
}

/// A parsed passphrase consists of uppercase letters.
pub proof fn lemma_passphrase_of_upper(t: Seq<char>)
    ensures
        spec_passphrase_of(t) matches Some(l) ==> spec_all_upper(l),
    decreases t.len(),
{
    if t.len() > 0 {
        lemma_passphrase_of_upper(t.drop_last());
    }
}

/// The cipher value of an uppercase letter: 1 for 'A' through 26 for 'Z'.
pub(crate) fn letter_into_value(b: u8) -> (r: u8)
    requires
        spec_is_upper(b),
    ensures
        r == b - 64,
        1 <= r <= 26,
{
    b - 64
}

/// The uppercase letter of a cipher value in 1..=26.
pub(crate) fn value_into_letter(v: u8) -> (r: u8)
    requires
        1 <= v <= 26,
    ensures
        r == v + 64,
        spec_is_upper(r),
{
    v + 64
}

/// A card's cipher value reduced to a letter value in 1..=26.
pub(crate) fn card_val_into_let_val(cv: u8) -> (r: u8)
    requires
        1 <= cv <= 53,
    ensures
        r == (cv - 1) % 26 + 1,
        1 <= r <= 26,
{
    (cv - 1) % 26 + 1
}

/// Collects the uppercase-letter bytes of a text, non-letters discarded.
fn collect_letters(s: &str) -> (r: Vec<u8>)
    ensures
        r@ == spec_letters_of(s@),
{
    let n = s.unicode_len();
    let mut out: Vec<u8> = Vec::new();
    let mut i: usize = 0;
    while i < n
        invariant
            i <= n,
            n == s@.len(),
            out@ == spec_letters_of(s@.subrange(0, i as int)),
        decreases n - i,
    {
        let c = s.get_char(i);
        let u = c as u32;
        proof {
            assert(s@.subrange(0, i + 1).drop_last() =~= s@.subrange(0, i as int));
            assert(s@.subrange(0, i + 1).last() == s@[i as int]);
        }
        if 97 <= u && u <= 122 {
            out.push((u - 32) as u8);
        } else if 65 <= u && u <= 90 {
            out.push(u as u8);
        } else {
            proof {
                assert(out@ =~= spec_letters_of(s@.subrange(0, i + 1)));
            }
        }
        i = i + 1;
    }
    proof {
        assert(s@.subrange(0, n as int) =~= s@);
    }
    out
}

/// Renders letters as characters, grouped in blocks of five when asked.
fn render_letters(l: &Vec<u8>, grouped: bool) -> (r: String)
    requires
        spec_all_upper(l@),
    ensures
        grouped ==> r@ == spec_grouped_text(l@),
        !grouped ==> r@ == spec_plain_text(l@),
{
    let alphabet = "ABCDEFGHIJKLMNOPQRSTUVWXYZ";
    proof {
        reveal_strlit("ABCDEFGHIJKLMNOPQRSTUVWXYZ");
        assert(alphabet@.len() == 26);
    }
    let mut out = String::new();
    let mut i: usize = 0;
    while i < l.len()
        invariant
            i <= l@.len(),
            spec_all_upper(l@),
            alphabet@ == ("ABCDEFGHIJKLMNOPQRSTUVWXYZ")@,
            alphabet@.len() == 26,
            grouped ==> out@ == spec_grouped_text(l@.subrange(0, i as int)),
            !grouped ==> out@ == spec_plain_text(l@.subrange(0, i as int)),
        decreases l@.len() - i,
    {
        if grouped && i != 0 && i % 5 == 0 {
            proof {
                reveal_strlit(" ");
                assert((" ")@ =~= seq![' ']);
            }
            out.append(" ");
        }
        let b = l[i];
        let idx = (b - 65) as usize;
        out.append(alphabet.substring_char(idx, idx + 1));
        proof {
            assert(l@.subrange(0, i + 1).drop_last() =~= l@.subrange(0, i as int));
            assert(l@.subrange(0, i + 1).last() == l@[i as int]);
            assert(alphabet@.subrange(idx as int, idx + 1) =~= seq![
                spec_letter_char(l@[i as int]),
            ]);
        }
        i = i + 1;
    }
    proof {
        assert(l@.subrange(0, l@.len() as int) =~= l@);
    }
    out
}

/// An ordered collection of uppercase letters meant as plaintext: built
/// from arbitrary text by discarding non-letters, uppercasing, and padding
/// with 'X' to a multiple of five letters.
#[derive(Debug, Clone, Default)]
pub struct PlainText(pub Vec<u8>);

impl View for PlainText {
    type V = Seq<u8>;

    open spec fn view(&self) -> Seq<u8> {
        self.0@
    }
}

impl PlainText {
    /// Every byte is an uppercase letter.
    pub open spec fn wf(&self) -> bool {
        spec_all_upper(self@)
    }

    /// The empty plaintext.
    pub fn new() -> (r: PlainText)
        ensures
            r@ == Seq::<u8>::empty(),
            r.wf(),
    {
        PlainText(Vec::new())
    }

    /// Number of letters held.
    pub fn len(&self) -> (r: usize)
        ensures
            r == self@.len(),
    {
        self.0.len()
    }

    /// Whether no letters are held.
    pub fn is_empty(&self) -> (r: bool)
        ensures
            r == (self@.len() == 0),
    {
        self.0.is_empty()
    }

    /// Builds a plaintext from arbitrary text: lower-case letters are
    /// uppercased, non-letters are silently discarded, and the result is
    /// right-padded with 'X' to a multiple of five letters.
    pub fn from_str(s: &str) -> (r: PlainText)
        ensures
            r@ == spec_pad_x(spec_letters_of(s@)),
            r.wf(),
    {
        let mut letters = collect_letters(s);
        let pad = (5 - letters.len() % 5) % 5;
        let ghost base = letters@;
        let mut k: usize = 0;
        while k < pad
            invariant
                k <= pad,
                pad == (5 - base.len() % 5) % 5,
                letters@ == base + Seq::new(k as nat, |i: int| 88u8),
            decreases pad - k,
        {
            letters.push(88);
            proof {
                assert(letters@ =~= base + Seq::new((k + 1) as nat, |i: int| 88u8));
            }
            k = k + 1;
        }
        proof {
            lemma_letters_of_upper(s@);
            assert(letters@ =~= spec_pad_x(base));
        }
        PlainText(letters)
    }

    /// Renders the plaintext as its letters, unseparated.
    pub fn pt_to_string(&self) -> (r: String)
        requires
            self.wf(),
        ensures
            r@ == spec_plain_text(self@),
    {
        render_letters(&self.0, false)
    }
}

/// An ordered collection of uppercase letters meant as cyphertext: built
/// from arbitrary text by discarding non-letters and uppercasing.
#[derive(Debug, Default)]
pub struct CypherText(pub Vec<u8>);

impl View for CypherText {
    type V = Seq<u8>;

    open spec fn view(&self) -> Seq<u8> {
        self.0@
    }
}

impl CypherText {
    /// Every byte is an uppercase letter.
    pub open spec fn wf(&self) -> bool {
        spec_all_upper(self@)
    }

    /// The empty cyphertext.
    pub fn new() -> (r: CypherText)
        ensures
            r@ == Seq::<u8>::empty(),
            r.wf(),
    {
        CypherText(Vec::new())
    }

    /// Number of letters held.
    pub fn len(&self) -> (r: usize)
        ensures
            r == self@.len(),
    {
        self.0.len()
    }

    /// Whether no letters are held.
    pub fn is_empty(&self) -> (r: bool)
        ensures
            r == (self@.len() == 0),
    {
        self.0.is_empty()
    }

    /// Builds a cyphertext from arbitrary text: lower-case letters are
    /// uppercased and non-letters are silently discarded.
    pub fn from_str(s: &str) -> (r: CypherText)
        ensures
            r@ == spec_letters_of(s@),
            r.wf(),
    {
        proof {
            lemma_letters_of_upper(s@);
        }
        CypherText(collect_letters(s))
    }

    /// Renders the cyphertext in blocks of five letters separated by
    /// spaces.
    pub fn ct_to_string(&self) -> (r: String)
        requires
            self.wf(),
        ensures
            r@ == spec_grouped_text(self@),
    {
        render_letters(&self.0, true)
    }
}

/// An ordered collection of uppercase letters meant as a passphrase:
/// apostrophes are dropped and any other non-letter is rejected.
#[derive(Debug, Default)]
pub struct Passphrase(pub Vec<u8>);

impl View for Passphrase {
    type V = Seq<u8>;

    open spec fn view(&self) -> Seq<u8> {
        self.0@
    }
}

impl Passphrase {
    /// Every byte is an uppercase letter.
    pub open spec fn wf(&self) -> bool {
        spec_all_upper(self@)
    }

    /// The empty passphrase.
    pub fn new() -> (r: Passphrase)
        ensures
            r@ == Seq::<u8>::empty(),
            r.wf(),
    {
        Passphrase(Vec::new())
    }

    /// Number of letters held.
    pub fn len(&self) -> (r: usize)
        ensures
            r == self@.len(),
    {
        self.0.len()
    }

    /// Whether no letters are held.
    pub fn is_empty(&self) -> (r: bool)
        ensures
            r == (self@.len() == 0),
    {
        self.0.is_empty()
    }

    /// Builds a passphrase from text: apostrophes are removed, lower-case
    /// letters are uppercased, and any remaining non-letter is rejected.
    pub fn from_str(s: &str) -> (r: Result<Passphrase, &'static str>)
        ensures
            r matches Ok(pp) ==> spec_passphrase_of(spec_strip_ticks(s@)) == Some(pp@) && pp.wf(),
            r is Err ==> spec_passphrase_of(spec_strip_ticks(s@)) is None,
    {
        let n = s.unicode_len();
        let mut out: Vec<u8> = Vec::new();
        let mut i: usize = 0;
        while i < n
            invariant
                i <= n,
                n == s@.len(),
                spec_passphrase_of(spec_strip_ticks(s@.subrange(0, i as int))) == Some(out@),
            decreases n - i,
        {
            let c = s.get_char(i);
            let ghost pre = s@.subrange(0, i as int);
            proof {
                assert(s@.subrange(0, i + 1).drop_last() =~= pre);
                assert(s@.subrange(0, i + 1).last() == s@[i as int]);
            }
            if c != '\'' {
                let u = c as u32;
                let b: u8;
                if 97 <= u && u <= 122 {
                    b = (u - 32) as u8;
                } else if 65 <= u && u <= 90 {
                    b = u as u8;
                } else {
                    proof {
                        let stripped = spec_strip_ticks(s@.subrange(0, i + 1));
                        assert(stripped =~= spec_strip_ticks(pre) + seq![s@[i as int]]);
                        assert(stripped.drop_last() =~= spec_strip_ticks(pre));
                        lemma_passphrase_none_extends(s@, i as int);
                    }
                    return Err("string contains non-letter");
                }
                out.push(b);
                proof {
                    let stripped = spec_strip_ticks(s@.subrange(0, i + 1));
                    assert(stripped =~= spec_strip_ticks(pre) + seq![s@[i as int]]);
                    assert(stripped.drop_last() =~= spec_strip_ticks(pre));
                    assert(out@ =~= out@.drop_last() + seq![b]);
                }
            } else {
                proof {
                    assert(spec_strip_ticks(s@.subrange(0, i + 1)) =~= spec_strip_ticks(pre));
                }
            }
            i = i + 1;
        }
        proof {
            assert(s@.subrange(0, n as int) =~= s@);
            lemma_passphrase_of_upper(spec_strip_ticks(s@));
        }
        Ok(Passphrase(out))
    }

    /// Renders the passphrase as its letters, unseparated.
    pub fn pp_to_string(&self) -> (r: String)
        requires
            self.wf(),
        ensures
            r@ == spec_plain_text(self@),
    {
        render_letters(&self.0, false)
    }
}

/// An ordered collection of uppercase letters meant as a keystream.
#[derive(Debug, Default)]
pub struct KeyStream(pub Vec<u8>);

impl View for KeyStream {
    type V = Seq<u8>;

    open spec fn view(&self) -> Seq<u8> {
        self.0@
    }
}

impl KeyStream {
    /// Every byte is an uppercase letter.
    pub open spec fn wf(&self) -> bool {
        spec_all_upper(self@)
    }

    /// The empty keystream.
    pub fn new() -> (r: KeyStream)
        ensures
            r@ == Seq::<u8>::empty(),
            r.wf(),
    {
        KeyStream(Vec::new())
    }

    /// Number of letters held.
    pub fn len(&self) -> (r: usize)
        ensures
            r == self@.len(),
    {
        self.0.len()
    }

    /// Whether no letters are held.
    pub fn is_empty(&self) -> (r: bool)
        ensures
            r == (self@.len() == 0),
    {
        self.0.is_empty()
    }

    /// Builds a keystream from arbitrary text: lower-case letters are
    /// uppercased and non-letters are silently discarded.
    pub fn from_str(s: &str) -> (r: KeyStream)
        ensures
            r@ == spec_letters_of(s@),
            r.wf(),
    {
        proof {
            lemma_letters_of_upper(s@);
        }
        KeyStream(collect_letters(s))
    }

    /// Renders the keystream in blocks of five letters separated by spaces.
    pub fn ks_to_string(&self) -> (r: String)
        requires
            self.wf(),
        ensures
            r@ == spec_grouped_text(self@),
    {
        render_letters(&self.0, true)
    }
}

/// Once a prefix's passphrase parse has failed on a non-letter, the whole
/// text's parse fails too.
proof fn lemma_passphrase_none_extends(t: Seq<char>, i: int)
    requires
        0 <= i < t.len(),
        spec_passphrase_of(spec_strip_ticks(t.subrange(0, i + 1))) is None,
    ensures
        spec_passphrase_of(spec_strip_ticks(t)) is None,
    decreases t.len() - i,
{
    if i + 1 == t.len() {
        assert(t.subrange(0, t.len() as int) =~= t);
    } else {
        let pre = t.subrange(0, i + 1);
        let next = t.subrange(0, i + 2);
        assert(next.drop_last() =~= pre);
        assert(spec_strip_ticks(next) =~= spec_strip_ticks(pre) + (if next.last() == '\'' {
            Seq::<char>::empty()
        } else {
            seq![next.last()]
        }));
        if next.last() == '\'' {
            assert(spec_strip_ticks(next) =~= spec_strip_ticks(pre));
        } else {
            let st = spec_strip_ticks(next);
            assert(st.drop_last() =~= spec_strip_ticks(pre));
        }
        lemma_passphrase_none_extends(t, i + 1);
    }
}

} // verus!
