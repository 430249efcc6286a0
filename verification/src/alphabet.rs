//! The character set that the cipher works over.
//!
//! An [`Alphabet`] is a duplicate-free list of characters with a stable
//! identifier. Its order is the canonical order; the secret ordering is the
//! job of a [`Key`](crate::key::Key).

use std::collections::HashSet;
use vstd::prelude::*;

use crate::error::{MusubiError, Result};
use crate::text::push_chars;

verus! {

broadcast use vstd::std_specs::hash::group_hash_axioms;

/// The identifier of the default alphabet.
pub const DEFAULT_V1_ID: &'static str = "default-v1";

const HIRAGANA_SEION: &'static str = "あいうえおかきくけこさしすせそたちつてとなにぬねのはひふへほまみむめもやゆよらりるれろわをん";

const HIRAGANA_DAKUON: &'static str = "がぎぐげござじずぜぞだぢづでどばびぶべぼ";

const HIRAGANA_HANDAKUON: &'static str = "ぱぴぷぺぽ";

const HIRAGANA_KOGAKI: &'static str = "ぁぃぅぇぉっゃゅょ";

/// The printable ASCII characters, U+0020 (space) through U+007E (`~`).
pub open spec fn ascii_printable() -> Seq<char> {
    Seq::new(95, |i: int| (0x20 + i) as char)
}

/// The characters of the default alphabet in canonical order: the 46 plain
/// hiragana, the 20 voiced ones, the 5 half-voiced ones, the 9 small ones,
/// then the 95 printable ASCII characters.
pub open spec fn default_v1_chars() -> Seq<char> {
    "あいうえおかきくけこさしすせそたちつてとなにぬねのはひふへほまみむめもやゆよらりるれろわをん"@
        + "がぎぐげござじずぜぞだぢづでどばびぶべぼ"@ + "ぱぴぷぺぽ"@ + "ぁぃぅぇぉっゃゅょ"@
        + ascii_printable()
}

/// The default alphabet is the 80 hiragana followed by every printable ASCII
/// character, U+0020 through U+007E, in code order: so it holds each of
/// those characters.
pub proof fn law_default_v1_contents()
    ensures
        default_v1_chars().len() == 175,
        default_v1_chars().take(80)
            == "あいうえおかきくけこさしすせそたちつてとなにぬねのはひふへほまみむめもやゆよらりるれろわをん"@
            + "がぎぐげござじずぜぞだぢづでどばびぶべぼ"@ + "ぱぴぷぺぽ"@ + "ぁぃぅぇぉっゃゅょ"@,
        forall|i: int| 0 <= i < 95 ==> #[trigger] default_v1_chars()[80 + i] as u32 == 0x20 + i,
        forall|c: char| 0x20 <= c as u32 <= 0x7e ==> #[trigger] default_v1_chars().contains(c),
{
    reveal_strlit(
        "あいうえおかきくけこさしすせそたちつてとなにぬねのはひふへほまみむめもやゆよらりるれろわをん",
    );
    reveal_strlit("がぎぐげござじずぜぞだぢづでどばびぶべぼ");
    reveal_strlit("ぱぴぷぺぽ");
    reveal_strlit("ぁぃぅぇぉっゃゅょ");
    let s = default_v1_chars();
    let hira = "あいうえおかきくけこさしすせそたちつてとなにぬねのはひふへほまみむめもやゆよらりるれろわをん"@
        + "がぎぐげござじずぜぞだぢづでどばびぶべぼ"@ + "ぱぴぷぺぽ"@ + "ぁぃぅぇぉっゃゅょ"@;
    assert(hira.len() == 80);
    assert(s == hira + ascii_printable());
    assert(s.take(80) == hira);
    assert forall|i: int| 0 <= i < 95 implies #[trigger] s[80 + i] as u32 == 0x20 + i by {
        assert(s[80 + i] == ascii_printable()[i]);
        assert(ascii_printable()[i] == (0x20 + i) as char);
    }
    assert forall|c: char| 0x20 <= c as u32 <= 0x7e implies #[trigger] s.contains(c) by {
        let i = c as u32 - 0x20;
        assert(s[80 + i] as u32 == c as u32);
        char_code_injective(s[80 + i], c);
    }
}

/// `j` is the first position of `s` whose character already occurred before it.
pub open spec fn is_first_repeat(s: Seq<char>, j: int) -> bool {
    &&& 0 <= j < s.len()
    &&& s.take(j).contains(s[j])
    &&& s.take(j).no_duplicates()
}

proof fn lemma_first_repeat_unique(s: Seq<char>, j: int)
    requires
        is_first_repeat(s, j),
    ensures
        forall|k: int| #[trigger] is_first_repeat(s, k) ==> k == j,
{
    assert forall|k: int| #[trigger] is_first_repeat(s, k) implies k == j by {
        if k < j {
            let a = choose|a: int| 0 <= a < k && s.take(k)[a] == s[k];
            assert(s.take(j)[a] == s.take(j)[k]);
        } else if j < k {
            let a = choose|a: int| 0 <= a < j && s.take(j)[a] == s[j];
            assert(s.take(k)[a] == s.take(k)[j]);
        }
    }
}

/// A list with a repeated character has a first position at which a
/// character repeats.
pub proof fn lemma_first_repeat_exists(s: Seq<char>)
    requires
        !s.no_duplicates(),
    ensures
        exists|j: int| is_first_repeat(s, j),
    decreases s.len(),
{
    let t = s.drop_last();
    if !t.no_duplicates() {
        lemma_first_repeat_exists(t);
        let j = choose|j: int| is_first_repeat(t, j);
        assert(t.take(j) == s.take(j));
        assert(is_first_repeat(s, j));
    } else {
        let (a, b) = choose|a: int, b: int|
            0 <= a < s.len() && 0 <= b < s.len() && a != b && s[a] == s[b];
        let n = s.len() - 1;
        if a != n && b != n {
            assert(t[a] == t[b]);
        }
        assert(a == n || b == n);
        let other = if a == n { b } else { a };
        assert(s.take(n) == t);
        assert(s.take(n)[other] == s[n]);
        assert(is_first_repeat(s, n));
    }
}

/// Two characters with the same code are the same character.
pub(crate) proof fn char_code_injective(a: char, b: char)
    requires
        a as u32 == b as u32,
    ensures
        a == b,
{
}

/// A finite, ordered set of characters that the cipher can operate on,
/// identified by a string so that keys and ciphertexts can name it.
#[derive(Debug)]
pub struct Alphabet {
    chars: Vec<char>,
    id: String,
}

impl Alphabet {
    #[verifier::type_invariant]
    pub(crate) open spec fn well_formed(self) -> bool {
        self.char_seq().len() > 0 && self.char_seq().no_duplicates()
    }

    /// The characters of the alphabet in canonical order.
    pub closed spec fn char_seq(self) -> Seq<char> {
        self.chars@
    }

    /// The identifier of the alphabet.
    pub closed spec fn id_view(self) -> Seq<char> {
        self.id@
    }

    /// Builds an alphabet from an ordered list of characters.
    ///
    /// The list must be non-empty and hold no character twice; its order
    /// becomes the canonical order.
    pub fn new(id: &str, chars: Vec<char>) -> (r: Result<Alphabet>)
        ensures
            r is Ok <==> chars@.len() > 0 && chars@.no_duplicates(),
            chars@.len() == 0 ==> r == Err::<Alphabet, MusubiError>(MusubiError::EmptyAlphabet),
            forall|j: int| #[trigger]
                is_first_repeat(chars@, j) ==> r == Err::<Alphabet, MusubiError>(
                    MusubiError::DuplicateAlphabetChar { ch: chars@[j] },
                ),
            r matches Ok(a) ==> a.char_seq() == chars@ && a.id_view() == id@,
    {
        if chars.len() == 0 {
            return Err(MusubiError::EmptyAlphabet);
        }
        let mut seen: HashSet<u32> = HashSet::with_capacity(chars.len());
        let mut i: usize = 0;
        while i < chars.len()
            invariant
                0 <= i <= chars@.len(),
                chars@.take(i as int).no_duplicates(),
                forall|k: u32|
                    seen@.contains(k) <==> exists|j: int|
                        0 <= j < i && #[trigger] (chars@[j] as u32) == k,
            decreases chars@.len() - i,
        {
            let c = chars[i];
            if !seen.insert(c as u32) {
                proof {
                    assert(seen@.contains(c as u32));
                    let j = choose|j: int| 0 <= j < i && #[trigger] (chars@[j] as u32) == (c as u32);
                    assert(chars@[j] as u32 == c as u32);
                    char_code_injective(chars@[j], c);
                    assert(chars@.take(i as int)[j] == c);
                    assert(is_first_repeat(chars@, i as int));
                    lemma_first_repeat_unique(chars@, i as int);
                }
                return Err(MusubiError::DuplicateAlphabetChar { ch: c });
            }
            proof {
                let t = chars@.take(i as int + 1);
                assert(t == chars@.take(i as int).push(c));
                assert forall|a: int, b: int| 0 <= a < b < t.len() implies t[a] != t[b] by {
                    if b == i {
                        if t[a] == t[b] {
                            assert(seen@.contains(chars@[a] as u32));
                        }
                    }
                }
            }
            i = i + 1;
        }
        proof {
            assert(chars@.take(chars@.len() as int) == chars@);
        }
        Ok(Alphabet { chars, id: String::from_str(id) })
    }

    /// The default alphabet: 175 characters (80 hiragana, then the printable
    /// ASCII range) under the identifier `"default-v1"`.
    pub fn default_v1() -> (r: Alphabet)
        ensures
            r.char_seq() == default_v1_chars(),
            r.id_view() == DEFAULT_V1_ID@,
            r.char_seq().len() == 175,
            r.char_seq().no_duplicates(),
            forall|i: int| 0 <= i < 95 ==> #[trigger] r.char_seq()[80 + i] as u32 == 0x20 + i,
            forall|c: char| 0x20 <= c as u32 <= 0x7e ==> #[trigger] r.char_seq().contains(c),
    {
        let mut chars: Vec<char> = Vec::with_capacity(175);
        push_chars(&mut chars, HIRAGANA_SEION);
        push_chars(&mut chars, HIRAGANA_DAKUON);
        push_chars(&mut chars, HIRAGANA_HANDAKUON);
        push_chars(&mut chars, HIRAGANA_KOGAKI);
        let ghost hira = chars@;
        let mut b: u8 = 0x20;
        while b <= 0x7e
            invariant
                0x20 <= b <= 0x7f,
                chars@ == hira + ascii_printable().take(b - 0x20),
            decreases 0x7f - b,
        {
            chars.push(b as char);
            proof {
                assert(ascii_printable().take(b - 0x20 + 1) == ascii_printable().take(b - 0x20).push(
                    b as char,
                ));
            }
            b = b + 1;
        }
        proof {
            reveal_strlit(
                "あいうえおかきくけこさしすせそたちつてとなにぬねのはひふへほまみむめもやゆよらりるれろわをん",
            );
            reveal_strlit("がぎぐげござじずぜぞだぢづでどばびぶべぼ");
            reveal_strlit("ぱぴぷぺぽ");
            reveal_strlit("ぁぃぅぇぉっゃゅょ");
            assert(ascii_printable().take(95) == ascii_printable());
            assert(chars@ == default_v1_chars());
            assert(hira.len() == 80);
            assert(hira.no_duplicates());
            assert(forall|i: int| 0 <= i < 80 ==> #[trigger] hira[i] as int >= 0x3041);
            assert(default_v1_chars().no_duplicates());
        }
        proof {
            law_default_v1_contents();
        }
        match Self::new(DEFAULT_V1_ID, chars) {
            Ok(a) => a,
            Err(_) => {
                proof {
                    assert(false);
                }
                Alphabet { chars: Vec::new(), id: String::new() }
            },
        }
    }

    /// The stable identifier that ciphertexts and keys record.
    pub fn id(&self) -> (r: &str)
        ensures
            r@ == self.id_view(),
    {
        self.id.as_str()
    }

    /// The number of characters in the alphabet (never zero).
    pub fn len(&self) -> (r: usize)
        ensures
            r == self.char_seq().len(),
            r > 0,
    {
        proof {
            use_type_invariant(self);
        }
        self.chars.len()
    }

    /// Always `false`: an alphabet is never empty.
    pub fn is_empty(&self) -> (r: bool)
        ensures
            r == (self.char_seq().len() == 0),
            !r,
    {
        proof {
            use_type_invariant(self);
        }
        false
    }

    /// The characters in canonical order; they are non-empty and distinct.
    pub fn chars(&self) -> (r: &[char])
        ensures
            r@ == self.char_seq(),
            r@.len() > 0,
            r@.no_duplicates(),
    {
        proof {
            use_type_invariant(self);
        }
        self.chars.as_slice()
    }

    /// Whether `c` belongs to the alphabet.
    pub fn contains(&self, c: char) -> (r: bool)
        ensures
            r == self.char_seq().contains(c),
    {
        let mut i: usize = 0;
        while i < self.chars.len()
            invariant
                0 <= i <= self.chars@.len(),
                forall|j: int| 0 <= j < i ==> self.chars@[j] != c,
            decreases self.chars@.len() - i,
        {
            if self.chars[i] == c {
                return true;
            }
            i = i + 1;
        }
        false
    }
}

impl Clone for Alphabet {
    /// A copy of the alphabet.
    fn clone(&self) -> (r: Alphabet)
        ensures
            r.char_seq() == self.char_seq(),
            r.id_view() == self.id_view(),
    {
        proof {
            use_type_invariant(self);
        }
        let chars = self.chars.clone();
        proof {
            assert(chars@ == self.chars@);
        }
        Alphabet { chars, id: self.id.clone() }
    }

}

} // verus!
