//! The suggestion engine: exact lookup, then candidates one edit away, then
//! candidates two edits away, ranked by frequency and then alphabetically.

use vstd::prelude::*;
use vstd::string::StringExecFns;
use crate::letters::{
    fold_str, lex_le, lemma_lex_antisym, lemma_lex_total, lemma_lex_trans, str_ok, valid_word,
    word_chars, ALPHABET,
};
use crate::trie::Trie;

verus! {

/// The words obtainable by deleting one character of `w`.
pub open spec fn del_set(w: Seq<u8>) -> Set<Seq<u8>> {
    Set::new(|s: Seq<u8>| exists|i: int| 0 <= i < w.len() && s == w.remove(i))
}

/// `w` with the characters at positions `i` and `j` exchanged.
pub open spec fn swap_at(w: Seq<u8>, i: int, j: int) -> Seq<u8> {
    w.update(i, w[j]).update(j, w[i])
}

/// The words obtainable by exchanging two differing characters of `w`.
pub open spec fn trans_set(w: Seq<u8>) -> Set<Seq<u8>> {
    Set::new(
        |s: Seq<u8>|
            exists|i: int, j: int|
                0 <= i < j < w.len() && w[i] != w[j] && s == swap_at(w, i, j),
    )
}

/// The words obtainable by replacing one character of `w` with any letter
/// (the replacement may equal the original character).
pub open spec fn subst_set(w: Seq<u8>) -> Set<Seq<u8>> {
    Set::new(
        |s: Seq<u8>|
            exists|i: int, b: u8| 0 <= i < w.len() && b < ALPHABET && s == w.update(i, b),
    )
}

/// The words obtainable by inserting any letter into any gap of `w`.
pub open spec fn ins_set(w: Seq<u8>) -> Set<Seq<u8>> {
    Set::new(
        |s: Seq<u8>|
            exists|i: int, b: u8| 0 <= i <= w.len() && b < ALPHABET && s == w.insert(i, b),
    )
}

/// All words one edit away from `w`: one deletion, transposition,
/// substitution or insertion.
pub open spec fn ed1_set(w: Seq<u8>) -> Set<Seq<u8>> {
    del_set(w).union(trans_set(w)).union(subst_set(w)).union(ins_set(w))
}

/// All words two edits away from `w`: one edit applied to a member of the
/// one-edit set.  The set may overlap the one-edit set and may contain `w`
/// itself; it is only a pool of candidates to test against the dictionary.
pub open spec fn ed2_set(w: Seq<u8>) -> Set<Seq<u8>> {
    Set::new(|s: Seq<u8>| exists|v: Seq<u8>| ed1_set(w).contains(v) && ed1_set(v).contains(s))
}

/// True if the word `s` occurs among the vectors of `l`.
pub open spec fn in_list(l: Seq<Vec<u8>>, s: Seq<u8>) -> bool {
    exists|k: int| 0 <= k < l.len() && l[k]@ == s
}

/// The set of words a candidate list holds.
pub open spec fn list_set(l: Seq<Vec<u8>>) -> Set<Seq<u8>> {
    Set::new(|s: Seq<u8>| in_list(l, s))
}

/// Every vector of the list is a word over the alphabet.
pub open spec fn list_valid(l: Seq<Vec<u8>>) -> bool {
    forall|k: int| 0 <= k < l.len() ==> valid_word(#[trigger] l[k]@)
}

/// Appending one word to a list adds exactly that word to the words it
/// holds.
proof fn lemma_in_list_push(prev: Seq<Vec<u8>>, now: Seq<Vec<u8>>, c: Vec<u8>)
    requires
        now == prev.push(c),
    ensures
        forall|s: Seq<u8>| in_list(now, s) <==> in_list(prev, s) || c@ == s,
{
    assert forall|s: Seq<u8>| in_list(now, s) <==> in_list(prev, s) || c@ == s by {
        if in_list(now, s) {
            let k = choose|k: int| 0 <= k < now.len() && now[k]@ == s;
            if k < prev.len() {
                assert(prev[k]@ == s);
            }
        }
        if in_list(prev, s) {
            let k = choose|k: int| 0 <= k < prev.len() && prev[k]@ == s;
            assert(now[k]@ == s);
        }
        if c@ == s {
            assert(now[prev.len() as int]@ == s);
        }
    }
}

/// Copies an index word.
fn copy_word(w: &Vec<u8>) -> (r: Vec<u8>)
    ensures
        r@ == w@,
{
    let mut r: Vec<u8> = Vec::new();
    let mut i: usize = 0;
    while i < w.len()
        invariant
            0 <= i <= w@.len(),
            r@ == w@.subrange(0, i as int),
        decreases w@.len() - i,
    {
        r.push(w[i]);
        i = i + 1;
        proof {
            assert(r@ =~= w@.subrange(0, i as int));
        }
    }
    proof {
        assert(r@ =~= w@);
    }
    r
}

/// One word ranks before another: strictly higher frequency, or equal
/// frequency and alphabetically no later.
pub open spec fn ranks_before(t: Trie, a: Seq<u8>, b: Seq<u8>) -> bool {
    t.word_freq(a) > t.word_freq(b) || (t.word_freq(a) == t.word_freq(b) && lex_le(a, b))
}

/// The ranking is transitive.
proof fn lemma_ranks_trans(t: Trie, a: Seq<u8>, b: Seq<u8>, c: Seq<u8>)
    requires
        ranks_before(t, a, b),
        ranks_before(t, b, c),
    ensures
        ranks_before(t, a, c),
{
    if t.word_freq(a) == t.word_freq(b) && t.word_freq(b) == t.word_freq(c) {
        lemma_lex_trans(a, b, c);
    }
}

/// The best dictionary match of a candidate pool: a stored word of the pool
/// that ranks before every stored word of the pool.
pub open spec fn is_best_match(t: Trie, pool: Set<Seq<u8>>, w: Seq<u8>) -> bool {
    &&& pool.contains(w)
    &&& t.word_freq(w) >= 1
    &&& forall|v: Seq<u8>| pool.contains(v) && t.word_freq(v) >= 1 ==> ranks_before(t, w, v)
}

/// Some word of the pool is stored in the dictionary.
pub open spec fn has_match(t: Trie, pool: Set<Seq<u8>>) -> bool {
    exists|v: Seq<u8>| pool.contains(v) && t.word_freq(v) >= 1
}

/// A pool has at most one best match, so the chosen suggestion depends only
/// on the set of candidates and the dictionary, never on the order the
/// candidates were generated or scanned in.
pub proof fn lemma_best_match_unique(t: Trie, pool: Set<Seq<u8>>, a: Seq<u8>, b: Seq<u8>)
    requires
        is_best_match(t, pool, a),
        is_best_match(t, pool, b),
    ensures
        a == b,
{
    assert(ranks_before(t, a, b));
    assert(ranks_before(t, b, a));
    lemma_lex_antisym(a, b);
}

/// The spelling corrector: a dictionary and the suggestion search over it.
#[derive(Debug)]
pub struct SpellCorrector {
    dictionary: Trie,
}

/// Membership after one generation pass: the new list holds the old words
/// and exactly the single-deletion variants besides.
spec fn del_ext(prev: Seq<Vec<u8>>, now: Seq<Vec<u8>>, w: Seq<u8>) -> bool {
    forall|s: Seq<u8>| in_list(now, s) <==> in_list(prev, s) || del_set(w).contains(s)
}

/// The same for transpositions.
spec fn trans_ext(prev: Seq<Vec<u8>>, now: Seq<Vec<u8>>, w: Seq<u8>) -> bool {
    forall|s: Seq<u8>| in_list(now, s) <==> in_list(prev, s) || trans_set(w).contains(s)
}

/// The same for substitutions.
spec fn subst_ext(prev: Seq<Vec<u8>>, now: Seq<Vec<u8>>, w: Seq<u8>) -> bool {
    forall|s: Seq<u8>| in_list(now, s) <==> in_list(prev, s) || subst_set(w).contains(s)
}

/// The same for insertions.
spec fn ins_ext(prev: Seq<Vec<u8>>, now: Seq<Vec<u8>>, w: Seq<u8>) -> bool {
    forall|s: Seq<u8>| in_list(now, s) <==> in_list(prev, s) || ins_set(w).contains(s)
}

/// The same for the whole one-edit set.
spec fn ed1_ext(prev: Seq<Vec<u8>>, now: Seq<Vec<u8>>, w: Seq<u8>) -> bool {
    forall|s: Seq<u8>| in_list(now, s) <==> in_list(prev, s) || ed1_set(w).contains(s)
}

/// The same for one edit applied to every member of `l`.
spec fn ed2_ext(prev: Seq<Vec<u8>>, now: Seq<Vec<u8>>, l: Seq<Vec<u8>>) -> bool {
    forall|s: Seq<u8>| in_list(now, s) <==> in_list(prev, s) || exists|k: int|
        0 <= k < l.len() && ed1_set(#[trigger] l[k]@).contains(s)
}

/// Appending a valid word keeps every list entry valid.
proof fn lemma_list_valid_push(prev: Seq<Vec<u8>>, now: Seq<Vec<u8>>, c: Vec<u8>)
    requires
        list_valid(prev),
        valid_word(c@),
        now == prev.push(c),
    ensures
        list_valid(now),
{
    assert forall|k: int| 0 <= k < now.len() implies valid_word(#[trigger] now[k]@) by {
        if k < prev.len() {
            assert(now[k] == prev[k]);
        } else {
            assert(now[k] == c);
        }
    }
}

/// Deletion loop invariant: the list holds the base words and the variants
/// with a position before `i` deleted.
spec fn del_upto(base: Seq<Vec<u8>>, now: Seq<Vec<u8>>, w: Seq<u8>, i: int) -> bool {
    forall|s: Seq<u8>| in_list(now, s) <==> in_list(base, s) || exists|k: int|
        0 <= k < i && s == w.remove(k)
}

proof fn lemma_del_start(base: Seq<Vec<u8>>, w: Seq<u8>)
    ensures
        del_upto(base, base, w, 0),
{
    assert forall|s: Seq<u8>| in_list(base, s) <==> in_list(base, s) || exists|k: int|
        0 <= k < 0 && s == w.remove(k) by {
        if exists|k: int| 0 <= k < 0 && s == w.remove(k) {
            let k = choose|k: int| 0 <= k < 0 && s == w.remove(k);
        }
    }
}

proof fn lemma_del_step(
    base: Seq<Vec<u8>>,
    prev: Seq<Vec<u8>>,
    now: Seq<Vec<u8>>,
    c: Vec<u8>,
    w: Seq<u8>,
    i: int,
)
    requires
        del_upto(base, prev, w, i),
        0 <= i < w.len(),
        now == prev.push(c),
        c@ == w.remove(i),
    ensures
        del_upto(base, now, w, i + 1),
{
    lemma_in_list_push(prev, now, c);
    assert forall|s: Seq<u8>| in_list(now, s) <==> in_list(base, s) || exists|k: int|
        0 <= k < i + 1 && s == w.remove(k) by {
        if in_list(now, s) && !in_list(prev, s) {
            assert(c@ == s);
            assert(s == w.remove(i));
        }
        if exists|k: int| 0 <= k < i + 1 && s == w.remove(k) {
            let k = choose|k: int| 0 <= k < i + 1 && s == w.remove(k);
            if k < i {
                assert(exists|k2: int| 0 <= k2 < i && s == w.remove(k2));
                assert(in_list(prev, s));
            } else {
                assert(c@ == s);
            }
        }
    }
}

proof fn lemma_del_finish(base: Seq<Vec<u8>>, now: Seq<Vec<u8>>, w: Seq<u8>)
    requires
        del_upto(base, now, w, w.len() as int),
    ensures
        del_ext(base, now, w),
{
    assert forall|s: Seq<u8>| in_list(now, s) <==> in_list(base, s) || del_set(w).contains(s) by {
        if in_list(now, s) {
        }
        if del_set(w).contains(s) {
            let k = choose|k: int| 0 <= k < w.len() && s == w.remove(k);
            assert(exists|k2: int| 0 <= k2 < w.len() && s == w.remove(k2));
        }
    }
}

/// Transposition loop invariant: pairs before `(i, j)` in the scan order
/// have been exchanged.
spec fn trans_seen(w: Seq<u8>, i: int, j: int, s: Seq<u8>) -> bool {
    exists|k: int, l: int|
        0 <= k < l < w.len() && w[k] != w[l] && (k < i || (k == i && l < j)) && s == swap_at(
            w,
            k,
            l,
        )
}

spec fn trans_upto(base: Seq<Vec<u8>>, now: Seq<Vec<u8>>, w: Seq<u8>, i: int, j: int) -> bool {
    forall|s: Seq<u8>| in_list(now, s) <==> in_list(base, s) || trans_seen(w, i, j, s)
}

proof fn lemma_trans_start(base: Seq<Vec<u8>>, w: Seq<u8>)
    ensures
        trans_upto(base, base, w, 0, 1),
{
    assert forall|s: Seq<u8>| in_list(base, s) <==> in_list(base, s) || trans_seen(w, 0, 1, s) by {
        if trans_seen(w, 0, 1, s) {
            let (k, l) = choose|k: int, l: int|
                0 <= k < l < w.len() && w[k] != w[l] && (k < 0 || (k == 0 && l < 1)) && s
                    == swap_at(w, k, l);
            assert(false);
        }
    }
}

proof fn lemma_trans_push(
    base: Seq<Vec<u8>>,
    prev: Seq<Vec<u8>>,
    now: Seq<Vec<u8>>,
    c: Vec<u8>,
    w: Seq<u8>,
    i: int,
    j: int,
)
    requires
        trans_upto(base, prev, w, i, j),
        0 <= i < j < w.len(),
        w[i] != w[j],
        now == prev.push(c),
        c@ == swap_at(w, i, j),
    ensures
        trans_upto(base, now, w, i, j + 1),
{
    lemma_in_list_push(prev, now, c);
    assert forall|s: Seq<u8>| in_list(now, s) <==> in_list(base, s) || trans_seen(w, i, j + 1, s)
    by {
        if in_list(now, s) && !in_list(prev, s) {
            assert(c@ == s);
            assert(s == swap_at(w, i, j));
        }
        if trans_seen(w, i, j + 1, s) {
            let (k, l) = choose|k: int, l: int|
                0 <= k < l < w.len() && w[k] != w[l] && (k < i || (k == i && l < j + 1)) && s
                    == swap_at(w, k, l);
            if k < i || l < j {
                assert(trans_seen(w, i, j, s));
                assert(in_list(prev, s));
            } else {
                assert(c@ == s);
            }
        }
    }
}

proof fn lemma_trans_skip(base: Seq<Vec<u8>>, now: Seq<Vec<u8>>, w: Seq<u8>, i: int, j: int)
    requires
        trans_upto(base, now, w, i, j),
        0 <= i < j < w.len(),
        w[i] == w[j],
    ensures
        trans_upto(base, now, w, i, j + 1),
{
    assert forall|s: Seq<u8>| in_list(now, s) <==> in_list(base, s) || trans_seen(w, i, j + 1, s)
    by {
        if trans_seen(w, i, j + 1, s) {
            let (k, l) = choose|k: int, l: int|
                0 <= k < l < w.len() && w[k] != w[l] && (k < i || (k == i && l < j + 1)) && s
                    == swap_at(w, k, l);
            assert(!(k == i && l == j));
            assert(trans_seen(w, i, j, s));
        }
        if trans_seen(w, i, j, s) {
            let (k, l) = choose|k: int, l: int|
                0 <= k < l < w.len() && w[k] != w[l] && (k < i || (k == i && l < j)) && s
                    == swap_at(w, k, l);
            assert(trans_seen(w, i, j + 1, s));
        }
    }
}

proof fn lemma_trans_outer(base: Seq<Vec<u8>>, now: Seq<Vec<u8>>, w: Seq<u8>, i: int)
    requires
        trans_upto(base, now, w, i, w.len() as int),
        0 <= i,
    ensures
        trans_upto(base, now, w, i + 1, i + 2),
{
    assert forall|s: Seq<u8>| in_list(now, s) <==> in_list(base, s) || trans_seen(
        w,
        i + 1,
        i + 2,
        s,
    ) by {
        if trans_seen(w, i + 1, i + 2, s) {
            let (k, l) = choose|k: int, l: int|
                0 <= k < l < w.len() && w[k] != w[l] && (k < i + 1 || (k == i + 1 && l < i + 2))
                    && s == swap_at(w, k, l);
            assert(k < i || (k == i && l < w.len()));
            assert(trans_seen(w, i, w.len() as int, s));
        }
        if trans_seen(w, i, w.len() as int, s) {
            let (k, l) = choose|k: int, l: int|
                0 <= k < l < w.len() && w[k] != w[l] && (k < i || (k == i && l < w.len())) && s
                    == swap_at(w, k, l);
            assert(k < i + 1);
            assert(trans_seen(w, i + 1, i + 2, s));
        }
    }
}

proof fn lemma_trans_finish(base: Seq<Vec<u8>>, now: Seq<Vec<u8>>, w: Seq<u8>, i: int, j: int)
    requires
        trans_upto(base, now, w, i, j),
        i >= w.len(),
    ensures
        trans_ext(base, now, w),
{
    assert forall|s: Seq<u8>| in_list(now, s) <==> in_list(base, s) || trans_set(w).contains(s)
    by {
        if trans_seen(w, i, j, s) {
            let (k, l) = choose|k: int, l: int|
                0 <= k < l < w.len() && w[k] != w[l] && (k < i || (k == i && l < j)) && s
                    == swap_at(w, k, l);
            assert(trans_set(w).contains(s));
        }
        if trans_set(w).contains(s) {
            let (k, l) = choose|k: int, l: int|
                0 <= k < l < w.len() && w[k] != w[l] && s == swap_at(w, k, l);
            assert(trans_seen(w, i, j, s));
        }
    }
}

/// Substitution loop invariant: positions before `i`, and letters before `b`
/// at position `i`, have been substituted.
spec fn subst_seen(w: Seq<u8>, i: int, b: int, s: Seq<u8>) -> bool {
    exists|k: int, c: u8|
        0 <= k < w.len() && c < ALPHABET && (k < i || (k == i && (c as int) < b)) && s
            == w.update(k, c)
}

spec fn subst_upto(base: Seq<Vec<u8>>, now: Seq<Vec<u8>>, w: Seq<u8>, i: int, b: int) -> bool {
    forall|s: Seq<u8>| in_list(now, s) <==> in_list(base, s) || subst_seen(w, i, b, s)
}

proof fn lemma_subst_start(base: Seq<Vec<u8>>, w: Seq<u8>)
    ensures
        subst_upto(base, base, w, 0, 0),
{
    assert forall|s: Seq<u8>| in_list(base, s) <==> in_list(base, s) || subst_seen(w, 0, 0, s) by {
        if subst_seen(w, 0, 0, s) {
            let (k, c) = choose|k: int, c: u8|
                0 <= k < w.len() && c < ALPHABET && (k < 0 || (k == 0 && (c as int) < 0)) && s
                    == w.update(k, c);
            assert(false);
        }
    }
}

proof fn lemma_subst_push(
    base: Seq<Vec<u8>>,
    prev: Seq<Vec<u8>>,
    now: Seq<Vec<u8>>,
    c0: Vec<u8>,
    w: Seq<u8>,
    i: int,
    b: u8,
)
    requires
        subst_upto(base, prev, w, i, b as int),
        0 <= i < w.len(),
        b < ALPHABET,
        now == prev.push(c0),
        c0@ == w.update(i, b),
    ensures
        subst_upto(base, now, w, i, b as int + 1),
{
    lemma_in_list_push(prev, now, c0);
    assert forall|s: Seq<u8>| in_list(now, s) <==> in_list(base, s) || subst_seen(
        w,
        i,
        b as int + 1,
        s,
    ) by {
        if in_list(now, s) && !in_list(prev, s) {
            assert(c0@ == s);
            assert(s == w.update(i, b));
        }
        if subst_seen(w, i, b as int + 1, s) {
            let (k, c) = choose|k: int, c: u8|
                0 <= k < w.len() && c < ALPHABET && (k < i || (k == i && (c as int) < b as int + 1))
                    && s == w.update(k, c);
            if k < i || (c as int) < b as int {
                assert(subst_seen(w, i, b as int, s));
                assert(in_list(prev, s));
            } else {
                assert(c == b);
                assert(c0@ == s);
            }
        }
    }
}

proof fn lemma_subst_outer(base: Seq<Vec<u8>>, now: Seq<Vec<u8>>, w: Seq<u8>, i: int)
    requires
        subst_upto(base, now, w, i, ALPHABET as int),
        0 <= i,
    ensures
        subst_upto(base, now, w, i + 1, 0),
{
    assert forall|s: Seq<u8>| in_list(now, s) <==> in_list(base, s) || subst_seen(w, i + 1, 0, s)
    by {
        if subst_seen(w, i + 1, 0, s) {
            let (k, c) = choose|k: int, c: u8|
                0 <= k < w.len() && c < ALPHABET && (k < i + 1 || (k == i + 1 && (c as int) < 0))
                    && s == w.update(k, c);
            assert(k < i || (k == i && (c as int) < ALPHABET as int));
            assert(subst_seen(w, i, ALPHABET as int, s));
        }
        if subst_seen(w, i, ALPHABET as int, s) {
            let (k, c) = choose|k: int, c: u8|
                0 <= k < w.len() && c < ALPHABET && (k < i || (k == i && (c as int)
                    < ALPHABET as int)) && s == w.update(k, c);
            assert(subst_seen(w, i + 1, 0, s));
        }
    }
}

proof fn lemma_subst_finish(base: Seq<Vec<u8>>, now: Seq<Vec<u8>>, w: Seq<u8>, i: int)
    requires
        subst_upto(base, now, w, i, 0),
        i >= w.len(),
    ensures
        subst_ext(base, now, w),
{
    assert forall|s: Seq<u8>| in_list(now, s) <==> in_list(base, s) || subst_set(w).contains(s)
    by {
        if subst_seen(w, i, 0, s) {
            let (k, c) = choose|k: int, c: u8|
                0 <= k < w.len() && c < ALPHABET && (k < i || (k == i && (c as int) < 0)) && s
                    == w.update(k, c);
            assert(subst_set(w).contains(s));
        }
        if subst_set(w).contains(s) {
            let (k, c) = choose|k: int, c: u8|
                0 <= k < w.len() && c < ALPHABET && s == w.update(k, c);
            assert(subst_seen(w, i, 0, s));
        }
    }
}

/// Insertion loop invariant: gaps before `i`, and letters before `b` at gap
/// `i`, have been inserted.
spec fn ins_seen(w: Seq<u8>, i: int, b: int, s: Seq<u8>) -> bool {
    exists|k: int, c: u8|
        0 <= k <= w.len() && c < ALPHABET && (k < i || (k == i && (c as int) < b)) && s
            == w.insert(k, c)
}

spec fn ins_upto(base: Seq<Vec<u8>>, now: Seq<Vec<u8>>, w: Seq<u8>, i: int, b: int) -> bool {
    forall|s: Seq<u8>| in_list(now, s) <==> in_list(base, s) || ins_seen(w, i, b, s)
}

proof fn lemma_ins_start(base: Seq<Vec<u8>>, w: Seq<u8>)
    ensures
        ins_upto(base, base, w, 0, 0),
{
    assert forall|s: Seq<u8>| in_list(base, s) <==> in_list(base, s) || ins_seen(w, 0, 0, s) by {
        if ins_seen(w, 0, 0, s) {
            let (k, c) = choose|k: int, c: u8|
                0 <= k <= w.len() && c < ALPHABET && (k < 0 || (k == 0 && (c as int) < 0)) && s
                    == w.insert(k, c);
            assert(false);
        }
    }
}

proof fn lemma_ins_push(
    base: Seq<Vec<u8>>,
    prev: Seq<Vec<u8>>,
    now: Seq<Vec<u8>>,
    c0: Vec<u8>,
    w: Seq<u8>,
    i: int,
    b: u8,
)
    requires
        ins_upto(base, prev, w, i, b as int),
        0 <= i <= w.len(),
        b < ALPHABET,
        now == prev.push(c0),
        c0@ == w.insert(i, b),
    ensures
        ins_upto(base, now, w, i, b as int + 1),
{
    lemma_in_list_push(prev, now, c0);
    assert forall|s: Seq<u8>| in_list(now, s) <==> in_list(base, s) || ins_seen(
        w,
        i,
        b as int + 1,
        s,
    ) by {
        if in_list(now, s) && !in_list(prev, s) {
            assert(c0@ == s);
            assert(s == w.insert(i, b));
        }
        if ins_seen(w, i, b as int + 1, s) {
            let (k, c) = choose|k: int, c: u8|
                0 <= k <= w.len() && c < ALPHABET && (k < i || (k == i && (c as int) < b as int
                    + 1)) && s == w.insert(k, c);
            if k < i || (c as int) < b as int {
                assert(ins_seen(w, i, b as int, s));
                assert(in_list(prev, s));
            } else {
                assert(c == b);
                assert(c0@ == s);
            }
        }
    }
}

proof fn lemma_ins_outer(base: Seq<Vec<u8>>, now: Seq<Vec<u8>>, w: Seq<u8>, i: int)
    requires
        ins_upto(base, now, w, i, ALPHABET as int),
        0 <= i,
    ensures
        ins_upto(base, now, w, i + 1, 0),
{
    assert forall|s: Seq<u8>| in_list(now, s) <==> in_list(base, s) || ins_seen(w, i + 1, 0, s)
    by {
        if ins_seen(w, i + 1, 0, s) {
            let (k, c) = choose|k: int, c: u8|
                0 <= k <= w.len() && c < ALPHABET && (k < i + 1 || (k == i + 1 && (c as int) < 0))
                    && s == w.insert(k, c);
            assert(k < i || (k == i && (c as int) < ALPHABET as int));
            assert(ins_seen(w, i, ALPHABET as int, s));
        }
        if ins_seen(w, i, ALPHABET as int, s) {
            let (k, c) = choose|k: int, c: u8|
                0 <= k <= w.len() && c < ALPHABET && (k < i || (k == i && (c as int)
                    < ALPHABET as int)) && s == w.insert(k, c);
            assert(ins_seen(w, i + 1, 0, s));
        }
    }
}

proof fn lemma_ins_finish(base: Seq<Vec<u8>>, now: Seq<Vec<u8>>, w: Seq<u8>, i: int)
    requires
        ins_upto(base, now, w, i, 0),
        i > w.len(),
    ensures
        ins_ext(base, now, w),
{
    assert forall|s: Seq<u8>| in_list(now, s) <==> in_list(base, s) || ins_set(w).contains(s) by {
        if ins_seen(w, i, 0, s) {
            let (k, c) = choose|k: int, c: u8|
                0 <= k <= w.len() && c < ALPHABET && (k < i || (k == i && (c as int) < 0)) && s
                    == w.insert(k, c);
            assert(ins_set(w).contains(s));
        }
        if ins_set(w).contains(s) {
            let (k, c) = choose|k: int, c: u8|
                0 <= k <= w.len() && c < ALPHABET && s == w.insert(k, c);
            assert(ins_seen(w, i, 0, s));
        }
    }
}

/// The four passes together produce exactly the one-edit set.
proof fn lemma_ed1_compose(
    a: Seq<Vec<u8>>,
    b: Seq<Vec<u8>>,
    c: Seq<Vec<u8>>,
    d: Seq<Vec<u8>>,
    e: Seq<Vec<u8>>,
    w: Seq<u8>,
)
    requires
        del_ext(a, b, w),
        trans_ext(b, c, w),
        subst_ext(c, d, w),
        ins_ext(d, e, w),
    ensures
        ed1_ext(a, e, w),
{
    assert forall|s: Seq<u8>| in_list(e, s) <==> in_list(a, s) || ed1_set(w).contains(s) by {
        assert(in_list(e, s) <==> in_list(d, s) || ins_set(w).contains(s));
        assert(in_list(d, s) <==> in_list(c, s) || subst_set(w).contains(s));
        assert(in_list(c, s) <==> in_list(b, s) || trans_set(w).contains(s));
        assert(in_list(b, s) <==> in_list(a, s) || del_set(w).contains(s));
        assert(ed1_set(w).contains(s) <==> del_set(w).contains(s) || trans_set(w).contains(s)
            || subst_set(w).contains(s) || ins_set(w).contains(s));
    }
}

/// Two-edit loop invariant: members before `m` have been expanded.
spec fn gen2_upto(base: Seq<Vec<u8>>, now: Seq<Vec<u8>>, l: Seq<Vec<u8>>, m: int) -> bool {
    forall|s: Seq<u8>| in_list(now, s) <==> in_list(base, s) || exists|k: int|
        0 <= k < m && ed1_set(#[trigger] l[k]@).contains(s)
}

proof fn lemma_gen2_start(base: Seq<Vec<u8>>, l: Seq<Vec<u8>>)
    ensures
        gen2_upto(base, base, l, 0),
{
    assert forall|s: Seq<u8>| in_list(base, s) <==> in_list(base, s) || exists|k: int|
        0 <= k < 0 && ed1_set(#[trigger] l[k]@).contains(s) by {
        if exists|k: int| 0 <= k < 0 && ed1_set(#[trigger] l[k]@).contains(s) {
            let k = choose|k: int| 0 <= k < 0 && ed1_set(#[trigger] l[k]@).contains(s);
        }
    }
}

proof fn lemma_gen2_step(
    base: Seq<Vec<u8>>,
    prev: Seq<Vec<u8>>,
    now: Seq<Vec<u8>>,
    l: Seq<Vec<u8>>,
    m: int,
)
    requires
        gen2_upto(base, prev, l, m),
        0 <= m < l.len(),
        ed1_ext(prev, now, l[m]@),
    ensures
        gen2_upto(base, now, l, m + 1),
{
    assert forall|s: Seq<u8>| in_list(now, s) <==> in_list(base, s) || exists|k: int|
        0 <= k < m + 1 && ed1_set(#[trigger] l[k]@).contains(s) by {
        if in_list(now, s) && !in_list(prev, s) {
            assert(ed1_set(l[m]@).contains(s));
        }
        if exists|k: int| 0 <= k < m + 1 && ed1_set(#[trigger] l[k]@).contains(s) {
            let k = choose|k: int| 0 <= k < m + 1 && ed1_set(#[trigger] l[k]@).contains(s);
            if k < m {
                assert(exists|k2: int| 0 <= k2 < m && ed1_set(#[trigger] l[k2]@).contains(s));
                assert(in_list(prev, s));
            } else {
                assert(in_list(now, s));
            }
        }
    }
}

impl SpellCorrector {
    /// Adds every single-deletion variant of `word` to `words`.
    fn delete_char(words: &mut Vec<Vec<u8>>, word: &Vec<u8>)
        requires
            valid_word(word@),
            list_valid(old(words)@),
        ensures
            list_valid(final(words)@),
            del_ext(old(words)@, final(words)@, word@),
    {
        let ghost base = words@;
        proof {
            lemma_del_start(base, word@);
        }
        let mut i: usize = 0;
        while i < word.len()
            invariant
                0 <= i <= word@.len(),
                valid_word(word@),
                list_valid(words@),
                del_upto(base, words@, word@, i as int),
            decreases word@.len() - i,
        {
            let mut cand = copy_word(word);
            cand.remove(i);
            let ghost candv = cand;
            let ghost prev = words@;
            words.push(cand);
            proof {
                assert(valid_word(candv@));
                lemma_list_valid_push(prev, words@, candv);
                lemma_del_step(base, prev, words@, candv, word@, i as int);
            }
            i = i + 1;
        }
        proof {
            lemma_del_finish(base, words@, word@);
        }
    }

    /// Adds every variant of `word` with two differing characters exchanged.
    fn transpose_char(words: &mut Vec<Vec<u8>>, word: &Vec<u8>)
        requires
            valid_word(word@),
            list_valid(old(words)@),
        ensures
            list_valid(final(words)@),
            trans_ext(old(words)@, final(words)@, word@),
    {
        let ghost base = words@;
        let n = word.len();
        proof {
            lemma_trans_start(base, word@);
        }
        let mut i: usize = 0;
        while i < n
            invariant
                0 <= i <= n,
                n == word@.len(),
                valid_word(word@),
                list_valid(words@),
                trans_upto(base, words@, word@, i as int, i as int + 1),
            decreases n - i,
        {
            let mut j: usize = i + 1;
            while j < n
                invariant
                    0 <= i < j <= n,
                    n == word@.len(),
                    valid_word(word@),
                    list_valid(words@),
                    trans_upto(base, words@, word@, i as int, j as int),
                decreases n - j,
            {
                if word[i] != word[j] {
                    let mut cand = copy_word(word);
                    let wi = word[i];
                    let wj = word[j];
                    cand.set(i, wj);
                    cand.set(j, wi);
                    let ghost candv = cand;
                    let ghost prev = words@;
                    proof {
                        assert(candv@ == swap_at(word@, i as int, j as int));
                        assert(valid_word(candv@));
                    }
                    words.push(cand);
                    proof {
                        lemma_list_valid_push(prev, words@, candv);
                        lemma_trans_push(base, prev, words@, candv, word@, i as int, j as int);
                    }
                } else {
                    proof {
                        lemma_trans_skip(base, words@, word@, i as int, j as int);
                    }
                }
                j = j + 1;
            }
            proof {
                lemma_trans_outer(base, words@, word@, i as int);
            }
            i = i + 1;
        }
        proof {
            if n == 0 {
                lemma_trans_finish(base, words@, word@, 0, 1);
            } else {
                lemma_trans_finish(base, words@, word@, n as int, n as int + 1);
            }
        }
    }

    /// Adds every variant of `word` with one position replaced by each
    /// letter of the alphabet (the no-change replacement included).
    fn alternate_char(words: &mut Vec<Vec<u8>>, word: &Vec<u8>)
        requires
            valid_word(word@),
            list_valid(old(words)@),
        ensures
            list_valid(final(words)@),
            subst_ext(old(words)@, final(words)@, word@),
    {
        let ghost base = words@;
        let n = word.len();
        proof {
            lemma_subst_start(base, word@);
        }
        let mut i: usize = 0;
        while i < n
            invariant
                0 <= i <= n,
                n == word@.len(),
                valid_word(word@),
                list_valid(words@),
                subst_upto(base, words@, word@, i as int, 0),
            decreases n - i,
        {
            let mut b: u8 = 0;
            while b < ALPHABET
                invariant
                    0 <= i < n,
                    0 <= b <= ALPHABET,
                    n == word@.len(),
                    valid_word(word@),
                    list_valid(words@),
                    subst_upto(base, words@, word@, i as int, b as int),
                decreases ALPHABET - b,
            {
                let mut cand = copy_word(word);
                cand.set(i, b);
                let ghost candv = cand;
                let ghost prev = words@;
                proof {
                    assert(candv@ == word@.update(i as int, b));
                    assert(valid_word(candv@));
                }
                words.push(cand);
                proof {
                    lemma_list_valid_push(prev, words@, candv);
                    lemma_subst_push(base, prev, words@, candv, word@, i as int, b);
                }
                b = b + 1;
            }
            proof {
                lemma_subst_outer(base, words@, word@, i as int);
            }
            i = i + 1;
        }
        proof {
            lemma_subst_finish(base, words@, word@, n as int);
        }
    }

    /// Adds every variant of `word` with each letter of the alphabet
    /// inserted into each gap.
    fn insert_char(words: &mut Vec<Vec<u8>>, word: &Vec<u8>)
        requires
            valid_word(word@),
            list_valid(old(words)@),
            word@.len() < usize::MAX,
        ensures
            list_valid(final(words)@),
            ins_ext(old(words)@, final(words)@, word@),
    {
        let ghost base = words@;
        let n = word.len();
        proof {
            lemma_ins_start(base, word@);
        }
        let mut i: usize = 0;
        while i <= n
            invariant
                0 <= i <= n + 1,
                n == word@.len(),
                n < usize::MAX,
                valid_word(word@),
                list_valid(words@),
                ins_upto(base, words@, word@, i as int, 0),
            decreases n + 1 - i,
        {
            let mut b: u8 = 0;
            while b < ALPHABET
                invariant
                    0 <= i <= n,
                    0 <= b <= ALPHABET,
                    n == word@.len(),
                    valid_word(word@),
                    list_valid(words@),
                    ins_upto(base, words@, word@, i as int, b as int),
                decreases ALPHABET - b,
            {
                let mut cand = copy_word(word);
                cand.insert(i, b);
                let ghost candv = cand;
                let ghost prev = words@;
                proof {
                    assert(candv@ == word@.insert(i as int, b));
                    assert(valid_word(candv@));
                }
                words.push(cand);
                proof {
                    lemma_list_valid_push(prev, words@, candv);
                    lemma_ins_push(base, prev, words@, candv, word@, i as int, b);
                }
                b = b + 1;
            }
            proof {
                lemma_ins_outer(base, words@, word@, i as int);
            }
            i = i + 1;
        }
        proof {
            lemma_ins_finish(base, words@, word@, n as int + 1);
        }
    }

    /// Adds every word one edit away from `word` to `words`.
    fn gen_edit_dist1(words: &mut Vec<Vec<u8>>, word: &Vec<u8>)
        requires
            valid_word(word@),
            list_valid(old(words)@),
            word@.len() < usize::MAX,
        ensures
            list_valid(final(words)@),
            ed1_ext(old(words)@, final(words)@, word@),
    {
        let ghost a = words@;
        Self::delete_char(words, word);
        let ghost b = words@;
        Self::transpose_char(words, word);
        let ghost c = words@;
        Self::alternate_char(words, word);
        let ghost d = words@;
        Self::insert_char(words, word);
        proof {
            lemma_ed1_compose(a, b, c, d, words@, word@);
        }
    }

    /// Adds every word one edit away from any member of `list` to `words`:
    /// with `list` holding the one-edit candidates of a query, this yields
    /// its two-edit candidate pool.
    fn gen_edit_dist2(words: &mut Vec<Vec<u8>>, list: &Vec<Vec<u8>>)
        requires
            list_valid(list@),
            forall|k: int| 0 <= k < list@.len() ==> (#[trigger] list@[k]@).len() < usize::MAX,
            list_valid(old(words)@),
        ensures
            list_valid(final(words)@),
            ed2_ext(old(words)@, final(words)@, list@),
    {
        let ghost base = words@;
        proof {
            lemma_gen2_start(base, list@);
        }
        let mut m: usize = 0;
        while m < list.len()
            invariant
                0 <= m <= list@.len(),
                list_valid(list@),
                forall|k: int| 0 <= k < list@.len() ==> (#[trigger] list@[k]@).len() < usize::MAX,
                list_valid(words@),
                gen2_upto(base, words@, list@, m as int),
            decreases list@.len() - m,
        {
            let ghost prev = words@;
            Self::gen_edit_dist1(words, &list[m]);
            proof {
                lemma_gen2_step(base, prev, words@, list@, m as int);
            }
            m = m + 1;
        }
    }
}

impl SpellCorrector {
    /// Scans a candidate pool and returns its best dictionary match: the
    /// stored candidate of highest frequency, the alphabetically first on a
    /// tie.  Returns nothing exactly when no candidate is stored.
    fn select_best(t: &Trie, cands: &Vec<Vec<u8>>) -> (r: Option<Vec<u8>>)
        requires
            t.wf(),
            list_valid(cands@),
        ensures
            match r {
                Some(v) => is_best_match(*t, list_set(cands@), v@) && valid_word(v@),
                None => !has_match(*t, list_set(cands@)),
            },
    {
        let mut best: Option<Vec<u8>> = None;
        let mut best_freq: u32 = 0;
        let mut i: usize = 0;
        while i < cands.len()
            invariant
                0 <= i <= cands@.len(),
                t.wf(),
                list_valid(cands@),
                match best {
                    Some(b) => {
                        &&& valid_word(b@)
                        &&& best_freq as nat == t.word_freq(b@)
                        &&& best_freq >= 1
                        &&& exists|k: int| 0 <= k < i && cands@[k]@ == b@
                        &&& forall|k: int|
                            0 <= k < i && t.word_freq(#[trigger] cands@[k]@) >= 1 ==> ranks_before(
                                *t,
                                b@,
                                cands@[k]@,
                            )
                    },
                    None => forall|k: int| 0 <= k < i ==> t.word_freq(#[trigger] cands@[k]@) == 0,
                },
            decreases cands@.len() - i,
        {
            let f = t.freq_of_word(&cands[i]);
            if f >= 1 {
                let replace: bool = match &best {
                    None => true,
                    Some(b) => f > best_freq || (f == best_freq && crate::letters::lex_le_word(
                        &cands[i],
                        b,
                    )),
                };
                if replace {
                    proof {
                        let cv = cands@[i as int]@;
                        match &best {
                            Some(b) => {
                                assert(ranks_before(*t, cv, b@));
                                assert forall|k: int|
                                    0 <= k < i + 1 && t.word_freq(#[trigger] cands@[k]@) >= 1
                                    implies ranks_before(*t, cv, cands@[k]@) by {
                                    if k < i {
                                        lemma_ranks_trans(*t, cv, b@, cands@[k]@);
                                    } else {
                                        lemma_lex_total(cv, cv);
                                    }
                                }
                            },
                            None => {
                                assert forall|k: int|
                                    0 <= k < i + 1 && t.word_freq(#[trigger] cands@[k]@) >= 1
                                    implies ranks_before(*t, cv, cands@[k]@) by {
                                    lemma_lex_total(cv, cv);
                                }
                            },
                        }
                    }
                    best = Some(copy_word(&cands[i]));
                    best_freq = f;
                } else {
                    proof {
                        match &best {
                            Some(b) => {
                                if f == best_freq {
                                    lemma_lex_total(cands@[i as int]@, b@);
                                }
                                assert(ranks_before(*t, b@, cands@[i as int]@));
                            },
                            None => {},
                        }
                    }
                }
            }
            i = i + 1;
        }
        proof {
            match &best {
                Some(b) => {
                    assert(list_set(cands@).contains(b@));
                    assert forall|v: Seq<u8>|
                        list_set(cands@).contains(v) && t.word_freq(v) >= 1 implies ranks_before(
                            *t,
                            b@,
                            v,
                        ) by {
                        let k = choose|k: int| 0 <= k < cands@.len() && cands@[k]@ == v;
                        assert(t.word_freq(cands@[k]@) >= 1);
                    }
                },
                None => {
                    if has_match(*t, list_set(cands@)) {
                        let v = choose|v: Seq<u8>|
                            list_set(cands@).contains(v) && t.word_freq(v) >= 1;
                        let k = choose|k: int| 0 <= k < cands@.len() && cands@[k]@ == v;
                        assert(t.word_freq(cands@[k]@) == 0);
                    }
                },
            }
        }
        best
    }
}

/// How often the words of a token list would be counted: each token that is
/// made of letters, and not empty, counts once for the index word it folds
/// to.
pub open spec fn token_freq(tokens: Seq<Seq<char>>, w: Seq<u8>) -> nat
    decreases tokens.len(),
{
    if tokens.len() == 0 {
        0
    } else {
        token_freq(tokens.drop_last(), w) + (if str_ok(tokens.last()) && tokens.last().len() > 0
            && fold_str(tokens.last()) == w {
            1nat
        } else {
            0nat
        })
    }
}

/// The summed length of a token list.
pub open spec fn total_len(tokens: Seq<Seq<char>>) -> nat
    decreases tokens.len(),
{
    if tokens.len() == 0 {
        0
    } else {
        total_len(tokens.drop_last()) + tokens.last().len()
    }
}

/// A word is counted at most once per token.
proof fn lemma_token_freq_bound(tokens: Seq<Seq<char>>, w: Seq<u8>)
    ensures
        token_freq(tokens, w) <= tokens.len(),
    decreases tokens.len(),
{
    if tokens.len() > 0 {
        lemma_token_freq_bound(tokens.drop_last(), w);
    }
}

/// A prefix of a token list is no longer, in summed length, than the whole.
proof fn lemma_total_len_mono(tokens: Seq<Seq<char>>, i: int)
    requires
        0 <= i <= tokens.len(),
    ensures
        total_len(tokens.take(i)) <= total_len(tokens),
    decreases tokens.len() - i,
{
    if i < tokens.len() {
        lemma_total_len_mono(tokens, i + 1);
        assert(tokens.take(i + 1).drop_last() =~= tokens.take(i));
        assert(tokens.take(i + 1).last() == tokens[i]);
    } else {
        assert(tokens.take(i) =~= tokens);
    }
}

/// The dictionary model the loader has built from the first `i` tokens.
spec fn loaded_upto(d: Trie, tokens: Seq<Seq<char>>, i: int) -> bool {
    forall|w: Seq<u8>| d.word_freq(w) == token_freq(tokens.take(i), w)
}

impl SpellCorrector {
    /// Well-formedness of the corrector: its dictionary is well-formed.
    pub closed spec fn wf(self) -> bool {
        self.dictionary.wf()
    }

    /// How often the index word `w` is stored in the dictionary.
    pub closed spec fn word_freq(self, w: Seq<u8>) -> nat {
        self.dictionary.word_freq(w)
    }

    /// The dictionary the corrector searches.
    pub closed spec fn spec_dict(self) -> Trie {
        self.dictionary
    }

    /// The corrector's word frequencies are those of its dictionary, so the
    /// loader's promises and the suggestion contract speak of one model.
    pub proof fn lemma_word_freq_agrees(self)
        ensures
            forall|w: Seq<u8>| self.word_freq(w) == self.spec_dict().word_freq(w),
    {
    }

    /// A corrector is well-formed exactly when its dictionary is, so the
    /// dictionary's laws apply to the dictionary behind a corrector.
    pub proof fn lemma_wf_agrees(self)
        ensures
            self.wf() <==> self.spec_dict().wf(),
    {
    }

    /// A corrector with an empty dictionary.
    pub fn new() -> (r: Self)
        ensures
            r.wf(),
            forall|w: Seq<u8>| r.word_freq(w) == 0,
            r.spec_dict().spec_node_count() == 1,
            r.spec_dict().spec_word_count() == 0,
            forall|p: Seq<u8>| r.spec_dict().has_path(p) <==> p.len() == 0,
    {
        SpellCorrector { dictionary: Trie::new() }
    }

    /// Replaces the dictionary with one built from the given tokens: each
    /// token is folded to lowercase and inserted; a token with a character
    /// outside the letters is skipped, as is an empty one.  Afterwards every
    /// word's frequency is its number of occurrences among the tokens.
    pub fn use_dictionary_words(&mut self, words: &Vec<String>)
        requires
            words@.len() <= i32::MAX as nat,
            1 + total_len(words.deep_view()) <= i32::MAX as nat,
        ensures
            final(self).wf(),
            forall|w: Seq<u8>| final(self).word_freq(w) == token_freq(words.deep_view(), w),
    {
        self.dictionary = Trie::new();
        let ghost toks = words.deep_view();
        proof {
            assert(toks.len() == words@.len());
            assert forall|w: Seq<u8>| self.dictionary.word_freq(w) == token_freq(
                toks.take(0),
                w,
            ) by {
                assert(toks.take(0).len() == 0);
            }
        }
        let mut i: usize = 0;
        while i < words.len()
            invariant
                0 <= i <= words@.len(),
                toks == words.deep_view(),
                toks.len() == words@.len(),
                words@.len() <= i32::MAX as nat,
                1 + total_len(toks) <= i32::MAX as nat,
                self.dictionary.wf(),
                self.dictionary.spec_node_count() as nat <= 1 + total_len(toks.take(i as int)),
                self.dictionary.spec_word_count() as nat <= i,
                loaded_upto(self.dictionary, toks, i as int),
            decreases words@.len() - i,
        {
            let ghost d0 = self.dictionary;
            let ghost tok = toks[i as int];
            proof {
                assert(loaded_upto(d0, toks, i as int));
                assert(tok == words@[i as int]@);
                assert(toks.take(i as int + 1).drop_last() =~= toks.take(i as int));
                assert(toks.take(i as int + 1).last() == tok);
                lemma_total_len_mono(toks, i as int + 1);
                lemma_token_freq_bound(toks.take(i as int), fold_str(tok));
                assert(d0.word_freq(fold_str(tok)) == token_freq(toks.take(i as int), fold_str(
                    tok,
                )));
            }
            let _ = self.dictionary.add(&words[i]);
            proof {
                assert forall|w: Seq<u8>| self.dictionary.word_freq(w) == token_freq(
                    toks.take(i as int + 1),
                    w,
                ) by {
                    assert(d0.word_freq(w) == token_freq(toks.take(i as int), w));
                    if str_ok(tok) {
                        assert(fold_str(tok).len() == tok.len());
                    }
                }
            }
            i = i + 1;
        }
        proof {
            assert(toks.take(toks.len() as int) =~= toks);
            assert forall|w: Seq<u8>| self.word_freq(w) == token_freq(toks, w) by {
                assert(self.dictionary.word_freq(w) == token_freq(
                    toks.take(toks.len() as int),
                    w,
                ));
            }
        }
    }
}

/// A word one edit away is at most one character longer.
proof fn lemma_ed1_len(w: Seq<u8>, s: Seq<u8>)
    requires
        ed1_set(w).contains(s),
    ensures
        s.len() <= w.len() + 1,
{
    if del_set(w).contains(s) {
        let i = choose|i: int| 0 <= i < w.len() && s == w.remove(i);
    } else if trans_set(w).contains(s) {
        let (i, j) = choose|i: int, j: int|
            0 <= i < j < w.len() && w[i] != w[j] && s == swap_at(w, i, j);
    } else if subst_set(w).contains(s) {
        let (i, b) = choose|i: int, b: u8|
            0 <= i < w.len() && b < ALPHABET && s == w.update(i, b);
    } else {
        assert(ins_set(w).contains(s));
        let (i, b) = choose|i: int, b: u8|
            0 <= i <= w.len() && b < ALPHABET && s == w.insert(i, b);
    }
}

/// The message of the not-found error: the original query, before case
/// folding, quoted inside the fixed wording.
pub open spec fn not_found_message(input: Seq<char>) -> Seq<char> {
    "Unable to find word \""@ + input + "\""@
}

/// Builds the not-found error message for a query.
fn render_not_found(input_word: String) -> (r: String)
    ensures
        r@ == not_found_message(input_word@),
{
    let mut msg = String::from_str("Unable to find word \"");
    msg.append(input_word.as_str());
    msg.append("\"");
    msg
}

impl SpellCorrector {
    /// Suggests a correction for `input_word`.
    ///
    /// The word is folded to lowercase.  If it is stored in the dictionary
    /// it is returned unchanged (lowercased).  Otherwise the best-ranked
    /// stored word among the candidates one edit away is returned; failing
    /// that, the best among the candidates two edits away.  If the word
    /// holds a character outside the letters, or no candidate within two
    /// edits is stored, the search fails and hands the input back unchanged
    /// as the error.
    pub fn suggest_similar_word(&self, input_word: String) -> (r: Result<String, String>)
        requires
            self.wf(),
            input_word@.len() + 2 <= usize::MAX as nat,
        ensures
            r matches Err(e) ==> e@ == not_found_message(input_word@),
            !str_ok(input_word@) ==> r is Err,
            str_ok(input_word@) ==> {
                let w = fold_str(input_word@);
                &&& (self.word_freq(w) >= 1 ==> (r matches Ok(out) && out@ == word_chars(w)))
                &&& (self.word_freq(w) == 0 && has_match(self.spec_dict(), ed1_set(w)) ==> (
                r matches Ok(out) && exists|v: Seq<u8>|
                    is_best_match(self.spec_dict(), ed1_set(w), v) && out@ == word_chars(v)))
                &&& (self.word_freq(w) == 0 && !has_match(self.spec_dict(), ed1_set(w))
                    && has_match(self.spec_dict(), ed2_set(w)) ==> (r matches Ok(out) && exists|
                    v: Seq<u8>,
                |
                    is_best_match(self.spec_dict(), ed2_set(w), v) && out@ == word_chars(v)))
                &&& (self.word_freq(w) == 0 && !has_match(self.spec_dict(), ed1_set(w))
                    && !has_match(self.spec_dict(), ed2_set(w)) ==> r is Err)
            },
    {
        match crate::letters::normalize(input_word.as_str()) {
            None => Err(render_not_found(input_word)),
            Some(w) => {
                let f = self.dictionary.freq_of_word(&w);
                if f >= 1 {
                    return Ok(crate::letters::word_to_string(&w));
                }
                let mut ed1: Vec<Vec<u8>> = Vec::new();
                Self::gen_edit_dist1(&mut ed1, &w);
                proof {
                    assert forall|s: Seq<u8>| in_list(ed1@, s) <==> ed1_set(w@).contains(s) by {
                        assert(in_list(ed1@, s) <==> in_list(Seq::<Vec<u8>>::empty(), s) || ed1_set(
                            w@,
                        ).contains(s));
                        if in_list(Seq::<Vec<u8>>::empty(), s) {
                            let k = choose|k: int|
                                0 <= k < Seq::<Vec<u8>>::empty().len() && Seq::<Vec<
                                    u8,
                                >>::empty()[k]@ == s;
                        }
                    }
                    assert(list_set(ed1@) =~= ed1_set(w@));
                }
                match Self::select_best(&self.dictionary, &ed1) {
                    Some(b) => {
                        return Ok(crate::letters::word_to_string(&b));
                    },
                    None => {},
                }
                let mut ed2: Vec<Vec<u8>> = Vec::new();
                proof {
                    assert forall|k: int| 0 <= k < ed1@.len() implies (#[trigger] ed1@[k]@).len()
                        < usize::MAX by {
                        assert(in_list(ed1@, ed1@[k]@));
                        lemma_ed1_len(w@, ed1@[k]@);
                    }
                }
                Self::gen_edit_dist2(&mut ed2, &ed1);
                proof {
                    assert forall|s: Seq<u8>| in_list(ed2@, s) <==> ed2_set(w@).contains(s) by {
                        assert(in_list(ed2@, s) <==> in_list(Seq::<Vec<u8>>::empty(), s) || exists|
                            k: int,
                        | 0 <= k < ed1@.len() && ed1_set(#[trigger] ed1@[k]@).contains(s));
                        if in_list(Seq::<Vec<u8>>::empty(), s) {
                            let k = choose|k: int|
                                0 <= k < Seq::<Vec<u8>>::empty().len() && Seq::<Vec<
                                    u8,
                                >>::empty()[k]@ == s;
                        }
                        if exists|k: int|
                            0 <= k < ed1@.len() && ed1_set(#[trigger] ed1@[k]@).contains(s) {
                            let k = choose|k: int|
                                0 <= k < ed1@.len() && ed1_set(#[trigger] ed1@[k]@).contains(s);
                            assert(in_list(ed1@, ed1@[k]@));
                            assert(ed1_set(w@).contains(ed1@[k]@));
                            assert(ed2_set(w@).contains(s));
                        }
                        if ed2_set(w@).contains(s) {
                            let v = choose|v: Seq<u8>|
                                ed1_set(w@).contains(v) && ed1_set(v).contains(s);
                            assert(in_list(ed1@, v));
                            let k = choose|k: int| 0 <= k < ed1@.len() && ed1@[k]@ == v;
                            assert(ed1_set(ed1@[k]@).contains(s));
                        }
                    }
                    assert(list_set(ed2@) =~= ed2_set(w@));
                }
                match Self::select_best(&self.dictionary, &ed2) {
                    Some(b) => Ok(crate::letters::word_to_string(&b)),
                    None => Err(render_not_found(input_word)),
                }
            },
        }
    }
}

} // verus!
