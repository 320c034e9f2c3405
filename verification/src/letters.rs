//! The alphabet of the dictionary: the 26 lowercase letters.
//!
//! Words are handled internally as vectors of letter indices (`0` for `a`
//! through `25` for `z`).  This module converts between strings and index
//! words, and defines the lexicographic order used to rank suggestions.

use vstd::prelude::*;
use vstd::string::StrSliceExecFns;
use vstd::string::StringExecFns;

verus! {

/// How many letters the alphabet has; every node of the trie has this many
/// child slots.
pub const ALPHABET: u8 = 26;

/// The code point of `a`, the first letter of the alphabet.
pub const LETTER_BASE: u32 = 97;

/// The code point of `A`; uppercase input is folded to lowercase.
pub const UPPER_BASE: u32 = 65;

/// True if `c` is a lowercase letter `a` through `z`.
pub open spec fn is_lower(c: char) -> bool {
    LETTER_BASE <= (c as u32) && (c as u32) < LETTER_BASE + (ALPHABET as u32)
}

/// True if `c` is an uppercase letter `A` through `Z`.
pub open spec fn is_upper(c: char) -> bool {
    UPPER_BASE <= (c as u32) && (c as u32) < UPPER_BASE + (ALPHABET as u32)
}

/// True if `c` can appear in a dictionary word once folded to lowercase.
pub open spec fn char_ok(c: char) -> bool {
    is_lower(c) || is_upper(c)
}

/// The letter index (0 through 25) of a letter in either case.
pub open spec fn char_index(c: char) -> u8
    recommends
        char_ok(c),
{
    if is_upper(c) {
        (c as u32 - UPPER_BASE) as u8
    } else {
        (c as u32 - LETTER_BASE) as u8
    }
}

/// True if `w` is a word over the alphabet: every entry is a letter index.
pub open spec fn valid_word(w: Seq<u8>) -> bool {
    forall|i: int| 0 <= i < w.len() ==> w[i] < ALPHABET
}

/// The lowercase letter with index `b`.
pub open spec fn letter(b: u8) -> char
    recommends
        b < ALPHABET,
{
    (((b as u32) + LETTER_BASE) as u8) as char
}

/// True if every character of `s` is a letter in either case.
pub open spec fn str_ok(s: Seq<char>) -> bool {
    forall|i: int| 0 <= i < s.len() ==> char_ok(s[i])
}

/// The index word that a letter string folds to.
pub open spec fn fold_str(s: Seq<char>) -> Seq<u8>
    recommends
        str_ok(s),
{
    Seq::new(s.len(), |i: int| char_index(s[i]))
}

/// The lowercase string that an index word spells.
pub open spec fn word_chars(w: Seq<u8>) -> Seq<char>
    recommends
        valid_word(w),
{
    Seq::new(w.len(), |i: int| letter(w[i]))
}

/// Folds a string to an index word: uppercase letters are lowered, and any
/// character outside the two letter ranges makes the whole string invalid.
pub fn normalize(s: &str) -> (r: Option<Vec<u8>>)
    ensures
        r is Some <==> str_ok(s@),
        r matches Some(w) ==> w@ == fold_str(s@) && valid_word(w@),
{
    let n = s.unicode_len();
    let mut out: Vec<u8> = Vec::new();
    let mut i: usize = 0;
    while i < n
        invariant
            0 <= i <= n,
            n == s@.len(),
            forall|j: int| 0 <= j < i ==> char_ok(s@[j]),
            out@.len() == i,
            forall|j: int| 0 <= j < i ==> out@[j] == char_index(s@[j]),
        decreases n - i,
    {
        let c = s.get_char(i);
        let v = c as u32;
        if UPPER_BASE <= v && v < UPPER_BASE + ALPHABET as u32 {
            out.push((v - UPPER_BASE) as u8);
        } else if LETTER_BASE <= v && v < LETTER_BASE + ALPHABET as u32 {
            out.push((v - LETTER_BASE) as u8);
        } else {
            return None;
        }
        i = i + 1;
    }
    proof {
        assert(out@ =~= fold_str(s@));
    }
    Some(out)
}

/// The lowercase letter character with index `b`.
pub fn letter_char(b: u8) -> (r: char)
    requires
        b < ALPHABET,
    ensures
        r == letter(b),
{
    (b + 97) as char
}

/// The one-letter string slice for letter index `b`.
pub fn letter_str(b: u8) -> (r: &'static str)
    requires
        b < ALPHABET,
    ensures
        r@.len() == 1,
        r@[0] == letter(b),
{
    proof {
        reveal_strlit("a");
        reveal_strlit("b");
        reveal_strlit("c");
        reveal_strlit("d");
        reveal_strlit("e");
        reveal_strlit("f");
        reveal_strlit("g");
        reveal_strlit("h");
        reveal_strlit("i");
        reveal_strlit("j");
        reveal_strlit("k");
        reveal_strlit("l");
        reveal_strlit("m");
        reveal_strlit("n");
        reveal_strlit("o");
        reveal_strlit("p");
        reveal_strlit("q");
        reveal_strlit("r");
        reveal_strlit("s");
        reveal_strlit("t");
        reveal_strlit("u");
        reveal_strlit("v");
        reveal_strlit("w");
        reveal_strlit("x");
        reveal_strlit("y");
        reveal_strlit("z");
    }
    match b {
        0 => "a",
        1 => "b",
        2 => "c",
        3 => "d",
        4 => "e",
        5 => "f",
        6 => "g",
        7 => "h",
        8 => "i",
        9 => "j",
        10 => "k",
        11 => "l",
        12 => "m",
        13 => "n",
        14 => "o",
        15 => "p",
        16 => "q",
        17 => "r",
        18 => "s",
        19 => "t",
        20 => "u",
        21 => "v",
        22 => "w",
        23 => "x",
        24 => "y",
        _ => "z",
    }
}

/// Spells an index word as a lowercase string.
pub fn word_to_string(w: &Vec<u8>) -> (r: String)
    requires
        valid_word(w@),
    ensures
        r@ == word_chars(w@),
{
    let mut out = String::new();
    let mut i: usize = 0;
    while i < w.len()
        invariant
            0 <= i <= w@.len(),
            valid_word(w@),
            out@ == word_chars(w@).subrange(0, i as int),
        decreases w@.len() - i,
    {
        out.append(letter_str(w[i]));
        i = i + 1;
        proof {
            assert(out@ =~= word_chars(w@).subrange(0, i as int));
        }
    }
    proof {
        assert(word_chars(w@).subrange(0, w@.len() as int) =~= word_chars(w@));
    }
    out
}

/// The lexicographic order on index words.  Because `letter` is strictly
/// increasing, this coincides with the usual order on the lowercase strings
/// the words spell.
pub open spec fn lex_le(a: Seq<u8>, b: Seq<u8>) -> bool
    decreases a.len(),
{
    if a.len() == 0 {
        true
    } else if b.len() == 0 {
        false
    } else if a[0] < b[0] {
        true
    } else if a[0] > b[0] {
        false
    } else {
        lex_le(a.drop_first(), b.drop_first())
    }
}

/// The strict lexicographic order.
pub open spec fn lex_lt(a: Seq<u8>, b: Seq<u8>) -> bool {
    lex_le(a, b) && a != b
}

/// A word precedes any proper extension of itself.
pub proof fn lemma_lex_le_extend(p: Seq<u8>, x: Seq<u8>)
    ensures
        lex_le(p, p + x),
    decreases p.len(),
{
    if p.len() > 0 {
        assert((p + x).len() > 0);
        assert((p + x)[0] == p[0]);
        lemma_lex_le_extend(p.drop_first(), x);
        assert((p + x).drop_first() =~= p.drop_first() + x);
    }
}

/// Words with a common leading part compare as their tails do.
pub proof fn lemma_lex_le_common(c: Seq<u8>, u: Seq<u8>, v: Seq<u8>)
    ensures
        lex_le(c + u, c + v) <==> lex_le(u, v),
    decreases c.len(),
{
    if c.len() == 0 {
        assert(c + u =~= u);
        assert(c + v =~= v);
    } else {
        assert((c + u)[0] == c[0]);
        assert((c + v)[0] == c[0]);
        lemma_lex_le_common(c.drop_first(), u, v);
        assert((c + u).drop_first() =~= c.drop_first() + u);
        assert((c + v).drop_first() =~= c.drop_first() + v);
    }
}

/// Appending to a common leading part is injective.
pub proof fn lemma_concat_inj(c: Seq<u8>, u: Seq<u8>, v: Seq<u8>)
    requires
        c + u == c + v,
    ensures
        u == v,
{
    assert((c + u).len() == c.len() + u.len());
    assert((c + v).len() == c.len() + v.len());
    assert(u.len() == v.len());
    assert forall|k: int| 0 <= k < u.len() implies u[k] == v[k] by {
        assert((c + u)[c.len() + k] == u[k]);
        assert((c + v)[c.len() + k] == v[k]);
    }
    assert(u =~= v);
}

/// The order is total.
pub proof fn lemma_lex_total(a: Seq<u8>, b: Seq<u8>)
    ensures
        lex_le(a, b) || lex_le(b, a),
    decreases a.len(),
{
    if a.len() > 0 && b.len() > 0 && a[0] == b[0] {
        lemma_lex_total(a.drop_first(), b.drop_first());
    }
}

/// The order is antisymmetric: mutually comparable words are equal.
pub proof fn lemma_lex_antisym(a: Seq<u8>, b: Seq<u8>)
    requires
        lex_le(a, b),
        lex_le(b, a),
    ensures
        a == b,
    decreases a.len(),
{
    if a.len() == 0 {
        assert(b.len() == 0);
        assert(a =~= b);
    } else {
        assert(b.len() > 0);
        assert(a[0] == b[0]);
        lemma_lex_antisym(a.drop_first(), b.drop_first());
        assert(a.len() == b.len());
        assert forall|i: int| 0 <= i < a.len() implies a[i] == b[i] by {
            if i > 0 {
                assert(a[i] == a.drop_first()[i - 1]);
                assert(b[i] == b.drop_first()[i - 1]);
            }
        }
        assert(a =~= b);
    }
}

/// The order is transitive.
pub proof fn lemma_lex_trans(a: Seq<u8>, b: Seq<u8>, c: Seq<u8>)
    requires
        lex_le(a, b),
        lex_le(b, c),
    ensures
        lex_le(a, c),
    decreases a.len(),
{
    if a.len() > 0 && b.len() > 0 && c.len() > 0 && a[0] == b[0] && b[0] == c[0] {
        lemma_lex_trans(a.drop_first(), b.drop_first(), c.drop_first());
    }
}

/// Compares the tails of two words from position `i` on.
fn lex_le_from(a: &Vec<u8>, b: &Vec<u8>, i: usize) -> (r: bool)
    requires
        i <= a@.len(),
        i <= b@.len(),
    ensures
        r == lex_le(a@.skip(i as int), b@.skip(i as int)),
    decreases a@.len() - i,
{
    if i == a.len() {
        true
    } else if i == b.len() {
        false
    } else if a[i] < b[i] {
        true
    } else if a[i] > b[i] {
        false
    } else {
        let r = lex_le_from(a, b, i + 1);
        proof {
            assert(a@.skip(i as int).drop_first() =~= a@.skip(i + 1));
            assert(b@.skip(i as int).drop_first() =~= b@.skip(i + 1));
        }
        r
    }
}

/// Compares two words in the suggestion ranking order.
pub fn lex_le_word(a: &Vec<u8>, b: &Vec<u8>) -> (r: bool)
    ensures
        r == lex_le(a@, b@),
{
    let r = lex_le_from(a, b, 0);
    proof {
        assert(a@.skip(0) =~= a@);
        assert(b@.skip(0) =~= b@);
    }
    r
}

} // verus!
