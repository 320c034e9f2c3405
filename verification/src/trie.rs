//! The dictionary: a 26-way prefix tree with per-word frequency counts.
//!
//! Each stored word is a path from the sentinel root, one child slot per
//! letter; the node at the end of the path counts how many times the word was
//! inserted.  A node exists only if some stored word runs through it, so the
//! whole tree shape is determined by the stored words and their counts.

use vstd::prelude::*;
use crate::letters::{fold_str, letter, str_ok, valid_word, ALPHABET};

verus! {

/// The error a dictionary operation reports when a word holds a character
/// that is not a letter in either case.
#[derive(Clone, Copy, Debug, PartialEq, Eq, Structural)]
pub enum DictError {
    InvalidCharacter,
}

/// One node of the prefix tree: the letter it is reached by, how many times
/// the word ending here was inserted, and one child slot per letter.
#[derive(Debug)]
pub struct Node {
    data: char,
    freq: u32,
    children: Vec<Option<Box<Node>>>,
}

impl Node {
    /// The letter this node is reached by (the sentinel root holds `'\0'`).
    pub closed spec fn spec_value(self) -> char {
        self.data
    }

    /// How many times the word ending at this node was inserted.
    pub closed spec fn spec_freq(self) -> u32 {
        self.freq
    }

    /// The child slots, one per letter.
    pub closed spec fn spec_children(self) -> Seq<Option<Box<Node>>> {
        self.children@
    }

    /// The frequency of the word `w` read downward from this node.
    pub closed spec fn freq_of(self, w: Seq<u8>) -> nat
        decreases w.len(),
    {
        if w.len() == 0 {
            self.freq as nat
        } else if (w[0] as int) < self.children@.len() {
            match self.children@[w[0] as int] {
                Some(c) => c.freq_of(w.drop_first()),
                None => 0,
            }
        } else {
            0
        }
    }

    /// True if the chain of child slots labelled `w` exists below this node.
    pub closed spec fn is_path(self, w: Seq<u8>) -> bool
        decreases w.len(),
    {
        w.len() == 0 || {
            &&& (w[0] as int) < self.children@.len()
            &&& match self.children@[w[0] as int] {
                Some(c) => c.is_path(w.drop_first()),
                None => false,
            }
        }
    }

    /// True if some word below this node (or ending at it) has been inserted.
    pub closed spec fn has_stored(self) -> bool {
        exists|w: Seq<u8>| self.freq_of(w) >= 1
    }

    /// The number of nodes of this subtree, itself included.
    pub closed spec fn count_nodes(self) -> nat
        decreases self, 0int,
    {
        1 + Node::count_nodes_children(self.children@, 0)
    }

    /// The number of nodes of the subtrees hanging off slots `i` and later.
    pub closed spec fn count_nodes_children(s: Seq<Option<Box<Node>>>, i: int) -> nat
        decreases s, s.len() - i + 1,
    {
        if i < 0 || i >= s.len() {
            0
        } else {
            (match s[i] {
                Some(c) => c.count_nodes(),
                None => 0,
            }) + Node::count_nodes_children(s, i + 1)
        }
    }

    /// The number of distinct stored words of this subtree: the nodes with a
    /// nonzero frequency.
    pub closed spec fn words_in(self) -> nat
        decreases self, 0int,
    {
        (if self.freq >= 1 {
            1nat
        } else {
            0nat
        }) + Node::words_in_children(self.children@, 0)
    }

    /// The number of stored words of the subtrees hanging off slots `i` on.
    pub closed spec fn words_in_children(s: Seq<Option<Box<Node>>>, i: int) -> nat
        decreases s, s.len() - i + 1,
    {
        if i < 0 || i >= s.len() {
            0
        } else {
            (match s[i] {
                Some(c) => c.words_in(),
                None => 0,
            }) + Node::words_in_children(s, i + 1)
        }
    }

    /// Well-formedness: 26 child slots, every occupied slot `i` holds a
    /// well-formed node reached by letter `i`, and no subtree is empty of
    /// stored words (nodes exist only along paths of stored words).
    pub closed spec fn wf(self) -> bool
        decreases self, 0int,
    {
        &&& self.children@.len() == ALPHABET as int
        &&& Node::wf_children(self.children@, 0)
    }

    /// Well-formedness of the slots `i` and later.
    pub closed spec fn wf_children(s: Seq<Option<Box<Node>>>, i: int) -> bool
        decreases s, s.len() - i + 1,
    {
        i < 0 || i >= s.len() || {
            &&& match s[i] {
                Some(c) => c.wf() && c.data == letter(i as u8) && c.has_stored(),
                None => true,
            }
            &&& Node::wf_children(s, i + 1)
        }
    }

    /// The subtree count of one slot.
    pub closed spec fn opt_count(o: Option<Box<Node>>) -> nat {
        match o {
            Some(c) => c.count_nodes(),
            None => 0,
        }
    }

    /// The stored-word count of one slot.
    pub closed spec fn opt_words(o: Option<Box<Node>>) -> nat {
        match o {
            Some(c) => c.words_in(),
            None => 0,
        }
    }

    /// The frequency of `w` below one slot, zero for an empty slot.
    pub closed spec fn opt_freq(o: Option<Box<Node>>, w: Seq<u8>) -> nat {
        match o {
            Some(c) => c.freq_of(w),
            None => 0,
        }
    }
}

/// A slot at or after position `i` meets the per-slot conditions.
proof fn lemma_wf_children_at(s: Seq<Option<Box<Node>>>, i: int, j: int)
    requires
        Node::wf_children(s, i),
        0 <= i <= j < s.len(),
    ensures
        s[j] matches Some(c) ==> c.wf() && c.data == letter(j as u8) && c.has_stored(),
    decreases j - i,
{
    if i < j {
        lemma_wf_children_at(s, i + 1, j);
    }
}

/// Replacing slot `j` with a node that meets the per-slot conditions keeps
/// the slots well-formed.
proof fn lemma_wf_children_update(
    s: Seq<Option<Box<Node>>>,
    j: int,
    c2: Box<Node>,
    i: int,
)
    requires
        Node::wf_children(s, i),
        0 <= i,
        0 <= j < s.len(),
        c2.wf(),
        c2.data == letter(j as u8),
        c2.has_stored(),
    ensures
        Node::wf_children(s.update(j, Some(c2)), i),
    decreases s.len() - i,
{
    if 0 <= i < s.len() {
        lemma_wf_children_update(s, j, c2, i + 1);
        assert(s.update(j, Some(c2)).len() == s.len());
        if i != j {
            assert(s.update(j, Some(c2))[i] == s[i]);
        }
    }
}

/// How the subtree count over slots `i` and later changes when slot `j` is
/// replaced: by the difference of the two slots if `j` is in range, else not
/// at all.
proof fn lemma_count_children_update(
    s: Seq<Option<Box<Node>>>,
    j: int,
    v: Option<Box<Node>>,
    i: int,
)
    requires
        0 <= i,
        0 <= j < s.len(),
    ensures
        i <= j ==> Node::count_nodes_children(s.update(j, v), i) + Node::opt_count(s[j])
            == Node::count_nodes_children(s, i) + Node::opt_count(v),
        i > j ==> Node::count_nodes_children(s.update(j, v), i)
            == Node::count_nodes_children(s, i),
    decreases s.len() - i,
{
    if i < s.len() {
        lemma_count_children_update(s, j, v, i + 1);
        if i != j {
            assert(s.update(j, v)[i] == s[i]);
        }
    }
}

/// The same for the stored-word count.
proof fn lemma_words_children_update(
    s: Seq<Option<Box<Node>>>,
    j: int,
    v: Option<Box<Node>>,
    i: int,
)
    requires
        0 <= i,
        0 <= j < s.len(),
    ensures
        i <= j ==> Node::words_in_children(s.update(j, v), i) + Node::opt_words(s[j])
            == Node::words_in_children(s, i) + Node::opt_words(v),
        i > j ==> Node::words_in_children(s.update(j, v), i)
            == Node::words_in_children(s, i),
    decreases s.len() - i,
{
    if i < s.len() {
        lemma_words_children_update(s, j, v, i + 1);
        if i != j {
            assert(s.update(j, v)[i] == s[i]);
        }
    }
}

/// Slots that are all empty hold no nodes and no words and are well-formed.
proof fn lemma_children_all_none(s: Seq<Option<Box<Node>>>, i: int)
    requires
        forall|j: int| 0 <= j < s.len() ==> s[j] is None,
    ensures
        Node::count_nodes_children(s, i) == 0,
        Node::words_in_children(s, i) == 0,
        Node::wf_children(s, i),
    decreases s.len() - i,
{
    if 0 <= i < s.len() {
        lemma_children_all_none(s, i + 1);
    }
}

/// One slot's subtree count is no more than the count over all slots from
/// `i` on.
proof fn lemma_count_children_bound(s: Seq<Option<Box<Node>>>, i: int, j: int)
    requires
        0 <= i <= j < s.len(),
    ensures
        Node::opt_count(s[j]) <= Node::count_nodes_children(s, i),
    decreases j - i,
{
    if i < j {
        lemma_count_children_bound(s, i + 1, j);
    }
}

/// Removing a slot and putting a value back in its place is the same as
/// replacing the slot.
proof fn lemma_remove_insert(s: Seq<Option<Box<Node>>>, j: int, v: Option<Box<Node>>)
    requires
        0 <= j < s.len(),
    ensures
        s.remove(j).insert(j, v) =~= s.update(j, v),
{
}

/// True if `p` is a leading part of `q`.
pub open spec fn is_prefix_of(p: Seq<u8>, q: Seq<u8>) -> bool {
    p.len() <= q.len() && p == q.take(p.len() as int)
}

impl Node {
    /// The length of the longest leading part of `w` whose node path exists
    /// below this node.
    pub closed spec fn stem(self, w: Seq<u8>) -> nat
        decreases w.len(),
    {
        if w.len() == 0 {
            0
        } else if (w[0] as int) < self.children@.len() {
            match self.children@[w[0] as int] {
                Some(c) => 1 + c.stem(w.drop_first()),
                None => 0,
            }
        } else {
            0
        }
    }
}

/// The stem is never longer than the word.
proof fn lemma_stem_le(n: Node, w: Seq<u8>)
    ensures
        n.stem(w) <= w.len(),
    decreases w.len(),
{
    if w.len() > 0 && (w[0] as int) < n.spec_children().len() {
        match n.spec_children()[w[0] as int] {
            Some(c) => {
                lemma_stem_le(*c, w.drop_first());
            },
            None => {},
        }
    }
}

/// A leading part of `w` is a path exactly when it is no longer than the
/// stem of `w`.
proof fn lemma_stem_char(n: Node, w: Seq<u8>, j: int)
    requires
        0 <= j <= w.len(),
    ensures
        n.is_path(w.take(j)) <==> j <= n.stem(w),
    decreases j,
{
    if j == 0 {
        assert(w.take(0) =~= Seq::<u8>::empty());
    } else {
        let p = w.take(j);
        assert(p.len() == j);
        assert(p[0] == w[0]);
        if (w[0] as int) < n.spec_children().len() {
            match n.spec_children()[w[0] as int] {
                Some(c) => {
                    lemma_stem_char(*c, w.drop_first(), j - 1);
                    assert(p.drop_first() =~= w.drop_first().take(j - 1));
                },
                None => {},
            }
        }
    }
}

/// A nonempty word is a leading part of a nonempty word exactly when their
/// first letters agree and the rest is a leading part of the rest.
proof fn lemma_prefix_cons(p: Seq<u8>, q: Seq<u8>)
    requires
        p.len() > 0,
        q.len() > 0,
    ensures
        is_prefix_of(p, q) <==> (p[0] == q[0] && is_prefix_of(p.drop_first(), q.drop_first())),
{
    if is_prefix_of(p, q) {
        assert(p[0] == q.take(p.len() as int)[0]);
        assert forall|k: int| 0 <= k < p.len() - 1 implies p.drop_first()[k] == q.drop_first().take(
            p.len() - 1,
        )[k] by {
            assert(p.drop_first()[k] == p[k + 1]);
            assert(p[k + 1] == q.take(p.len() as int)[k + 1]);
            assert(q.drop_first()[k] == q[k + 1]);
        }
        assert(p.drop_first() =~= q.drop_first().take(p.len() - 1));
    }
    if p[0] == q[0] && is_prefix_of(p.drop_first(), q.drop_first()) {
        assert forall|k: int| 0 <= k < p.len() implies p[k] == q.take(p.len() as int)[k] by {
            if k > 0 {
                assert(p[k] == p.drop_first()[k - 1]);
                assert(p.drop_first()[k - 1] == q.drop_first().take(p.len() - 1)[k - 1]);
                assert(q.drop_first()[k - 1] == q[k]);
            }
        }
        assert(p =~= q.take(p.len() as int));
    }
}

/// A word with a nonzero frequency lies on an existing path.
pub proof fn lemma_freq_path(n: Node, w: Seq<u8>)
    requires
        n.freq_of(w) >= 1,
    ensures
        n.is_path(w),
    decreases w.len(),
{
    if w.len() > 0 {
        match n.spec_children()[w[0] as int] {
            Some(c) => {
                lemma_freq_path(*c, w.drop_first());
            },
            None => {},
        }
    }
}

impl Node {
    /// A fresh node reached by `data`: frequency zero, all slots empty.
    pub fn new(data: char) -> (r: Self)
        ensures
            r.spec_value() == data,
            r.spec_freq() == 0,
            r.spec_children().len() == ALPHABET as int,
            forall|j: int| 0 <= j < ALPHABET as int ==> r.spec_children()[j] is None,
            forall|w: Seq<u8>| r.freq_of(w) == 0,
            r.count_nodes() == 1,
            r.words_in() == 0,
            r.wf(),
    {
        let mut children: Vec<Option<Box<Node>>> = Vec::new();
        let mut i: usize = 0;
        while i < ALPHABET as usize
            invariant
                0 <= i <= ALPHABET as usize,
                children@.len() == i,
                forall|j: int| 0 <= j < i ==> children@[j] is None,
            decreases ALPHABET as usize - i,
        {
            children.push(None);
            i = i + 1;
        }
        let r = Node { data, freq: 0, children };
        proof {
            lemma_children_all_none(r.children@, 0);
            assert forall|w: Seq<u8>| r.freq_of(w) == 0 by {
                if w.len() > 0 && (w[0] as int) < r.children@.len() {
                    assert(r.children@[w[0] as int] is None);
                }
            }
        }
        r
    }

    /// The letter this node is reached by.
    pub fn get_value(&self) -> (r: char)
        ensures
            r == self.spec_value(),
    {
        self.data
    }

    /// How many times the word ending at this node was inserted.
    pub fn get_freq(&self) -> (r: u32)
        ensures
            r == self.spec_freq(),
    {
        self.freq
    }

    /// The child slots, one per letter in alphabetic order.
    pub fn get_children(&self) -> (r: &Vec<Option<Box<Node>>>)
        ensures
            r@ == self.spec_children(),
    {
        &self.children
    }

    /// Counts one more insertion of the word ending at this node.
    pub fn increment_freq(&mut self)
        requires
            old(self).spec_freq() < u32::MAX,
        ensures
            final(self).spec_freq() == old(self).spec_freq() + 1,
            final(self).spec_value() == old(self).spec_value(),
            final(self).spec_children() == old(self).spec_children(),
    {
        self.freq = self.freq + 1;
    }
}

impl Node {
    /// Inserts the tail of `w` from position `i` downward from this node.
    /// Returns how many nodes were created and whether a new distinct word
    /// was stored.
    fn add_to_node(node: &mut Node, w: &Vec<u8>, i: usize) -> (added: (u32, bool))
        requires
            old(node).wf(),
            valid_word(w@),
            i <= w@.len(),
            old(node).freq_of(w@.skip(i as int)) < u32::MAX,
            old(node).count_nodes() + (w@.len() - i) <= i32::MAX,
        ensures
            final(node).wf(),
            final(node).spec_value() == old(node).spec_value(),
            final(node).has_stored(),
            forall|s: Seq<u8>| final(node).freq_of(s)
                == old(node).freq_of(s) + (if s == w@.skip(i as int) { 1nat } else { 0nat }),
            final(node).count_nodes() == old(node).count_nodes() + added.0,
            added.0 <= w@.len() - i,
            added.1 <==> old(node).freq_of(w@.skip(i as int)) == 0,
            final(node).words_in() == old(node).words_in() + (if added.1 { 1nat } else { 0nat }),
            old(node).is_path(w@.skip(i as int)) ==> added.0 == 0,
            added.0 + old(node).stem(w@.skip(i as int)) == w@.len() - i,
            forall|p: Seq<u8>| final(node).is_path(p) <==> old(node).is_path(p) || (p.len() > 0
                && is_prefix_of(p, w@.skip(i as int))),
        decreases w@.len() - i,
    {
        let ghost orig = *node;
        let ghost tail = w@.skip(i as int);
        if i == w.len() {
            proof {
                assert(tail =~= Seq::<u8>::empty());
            }
            let was_zero = node.get_freq() == 0;
            node.increment_freq();
            proof {
                assert forall|s: Seq<u8>| node.freq_of(s)
                    == orig.freq_of(s) + (if s == tail { 1nat } else { 0nat }) by {
                    if s.len() == 0 {
                        assert(s =~= tail);
                    } else {
                        assert(s.len() != tail.len());
                        assert(node.children@ == orig.children@);
                    }
                }
                assert(node.freq_of(tail) >= 1);
                assert(node.count_nodes() == orig.count_nodes());
                assert(node.words_in() == orig.words_in() + (if was_zero { 1nat } else { 0nat }));
                assert(node.wf());
                assert(orig.stem(tail) == 0);
                assert forall|p: Seq<u8>| node.is_path(p) <==> orig.is_path(p) || (p.len() > 0
                    && is_prefix_of(p, tail)) by {
                    if p.len() > 0 {
                        assert(!is_prefix_of(p, tail));
                        assert(node.children@ == orig.children@);
                    }
                }
            }
            (0u32, was_zero)
        } else {
            let idx = w[i] as usize;
            let ghost tail1 = w@.skip(i as int + 1);
            proof {
                assert(w@[i as int] < ALPHABET);
                assert(tail.len() == w@.len() - i);
                assert(tail[0] == w@[i as int]);
                assert(tail.drop_first() =~= tail1);
                lemma_wf_children_at(orig.children@, 0, idx as int);
                lemma_count_children_bound(orig.children@, 0, idx as int);
            }
            let taken = node.children.remove(idx);
            let mut child: Box<Node>;
            let created: bool;
            match taken {
                Some(c) => {
                    child = c;
                    created = false;
                },
                None => {
                    child = Box::new(Node::new(crate::letters::letter_char(w[i])));
                    created = true;
                    proof {
                        assert(orig.freq_of(tail) == 0);
                    }
                },
            }
            let ghost child0 = child;
            proof {
                assert(child0.freq_of(tail1) == orig.freq_of(tail));
                assert(child0.count_nodes() + (w@.len() - (i + 1)) <= i32::MAX);
                if created {
                    assert(orig.stem(tail) == 0);
                    if tail1.len() > 0 {
                        assert(child0.spec_children()[tail1[0] as int] is None);
                    }
                    assert(child0.stem(tail1) == 0);
                } else {
                    assert(orig.stem(tail) == 1 + child0.stem(tail1));
                }
            }
            let (an, aw) = Node::add_to_node(&mut *child, w, i + 1);
            let ghost childf = child;
            node.children.insert(idx, Some(child));
            proof {
                lemma_remove_insert(orig.children@, idx as int, Some(childf));
                assert(node.children@ =~= orig.children@.update(idx as int, Some(childf)));
                lemma_wf_children_update(orig.children@, idx as int, childf, 0);
                assert(node.wf());
                lemma_count_children_update(
                    orig.children@,
                    idx as int,
                    Some(childf),
                    0,
                );
                lemma_words_children_update(
                    orig.children@,
                    idx as int,
                    Some(childf),
                    0,
                );
                assert(node.count_nodes() == orig.count_nodes() + an + (if created {
                    1nat
                } else {
                    0nat
                }));
                assert forall|s: Seq<u8>| node.freq_of(s)
                    == orig.freq_of(s) + (if s == tail { 1nat } else { 0nat }) by {
                    if s.len() == 0 {
                        assert(s.len() != tail.len());
                    } else {
                        let j = s[0] as int;
                        if j == idx as int {
                            assert(node.children@[j] == Some(childf));
                            assert(childf.freq_of(s.drop_first())
                                == child0.freq_of(s.drop_first()) + (if s.drop_first() == tail1 {
                                1nat
                            } else {
                                0nat
                            }));
                            if s.drop_first() == tail1 {
                                assert(s.len() == tail.len());
                                assert forall|k: int| 0 <= k < s.len() implies s[k] == tail[k] by {
                                    if k > 0 {
                                        assert(s[k] == s.drop_first()[k - 1]);
                                        assert(tail[k] == tail.drop_first()[k - 1]);
                                    }
                                }
                                assert(s =~= tail);
                            } else {
                                assert(s != tail);
                            }
                        } else if j < ALPHABET as int {
                            assert(node.children@[j] == orig.children@[j]);
                            assert(s != tail);
                        } else {
                            assert(s != tail);
                        }
                    }
                }
                assert(node.freq_of(tail) == orig.freq_of(tail) + 1);
                if orig.is_path(tail) {
                    assert(!created);
                    assert(child0.is_path(tail1));
                }
                assert(is_prefix_of(Seq::<u8>::empty(), tail1)) by {
                    assert(tail1.take(0) =~= Seq::<u8>::empty());
                }
                assert forall|p: Seq<u8>| node.is_path(p) <==> orig.is_path(p) || (p.len() > 0
                    && is_prefix_of(p, tail)) by {
                    if p.len() > 0 {
                        let j = p[0] as int;
                        let p1 = p.drop_first();
                        lemma_prefix_cons(p, tail);
                        assert(tail.drop_first() == tail1);
                        if p1.len() == 0 {
                            assert(p1 =~= Seq::<u8>::empty());
                            assert(is_prefix_of(p1, tail1));
                        }
                        if j == idx as int {
                            assert(node.children@[j] == Some(childf));
                            assert(childf.is_path(p1) <==> child0.is_path(p1) || (p1.len() > 0
                                && is_prefix_of(p1, tail1)));
                            if created {
                                assert(orig.children@[j] is None);
                                assert(!orig.is_path(p));
                                if p1.len() > 0 {
                                    if (p1[0] as int) < ALPHABET as int {
                                        assert(child0.spec_children()[p1[0] as int] is None);
                                    }
                                    assert(!child0.is_path(p1));
                                }
                            } else {
                                assert(orig.children@[j] == Some(child0));
                                assert(orig.is_path(p) <==> child0.is_path(p1));
                            }
                        } else if j < ALPHABET as int {
                            assert(node.children@[j] == orig.children@[j]);
                            if is_prefix_of(p, tail) {
                                assert(p[0] == tail[0]);
                            }
                        } else {
                            assert(!is_prefix_of(p, tail));
                        }
                    }
                }
            }
            let more: u32 = if created {
                1
            } else {
                0
            };
            (an + more, aw)
        }
    }
}

/// The dictionary: a prefix tree of stored words, with the total node count
/// and the distinct stored-word count kept alongside.
#[derive(Debug)]
pub struct Trie {
    root: Node,
    num_nodes: u32,
    num_words: u32,
}

impl Trie {
    /// Well-formedness: the tree is well-formed, the sentinel root stores no
    /// word, and the two counters agree with the tree.
    pub closed spec fn wf(self) -> bool {
        &&& self.root.wf()
        &&& self.root.spec_freq() == 0
        &&& self.num_nodes as nat == self.root.count_nodes()
        &&& self.num_words as nat == self.root.words_in()
        &&& self.num_nodes <= i32::MAX as u32
        &&& self.num_words <= i32::MAX as u32
    }

    /// How many times the word `w` (as letter indices) has been inserted.
    pub closed spec fn word_freq(self, w: Seq<u8>) -> nat {
        self.root.freq_of(w)
    }

    /// The number of nodes of the tree, the sentinel root included.
    pub closed spec fn spec_node_count(self) -> u32 {
        self.num_nodes
    }

    /// The number of distinct stored words.
    pub closed spec fn spec_word_count(self) -> u32 {
        self.num_words
    }

    /// The root node of the tree.
    pub closed spec fn spec_root(self) -> Node {
        self.root
    }

    /// True if the chain of child slots labelled `p` exists: exactly the
    /// nonempty leading parts of the inserted words, plus the empty path at
    /// the root.
    pub closed spec fn has_path(self, p: Seq<u8>) -> bool {
        self.root.is_path(p)
    }

    /// The length of the longest leading part of `w` whose path already
    /// exists, found by extending the path one letter at a time from `k`.
    pub open spec fn stored_prefix_from(self, w: Seq<u8>, k: int) -> nat
        decreases w.len() - k,
    {
        if k < 0 || k >= w.len() {
            w.len()
        } else if !self.has_path(w.take(k + 1)) {
            k as nat
        } else {
            self.stored_prefix_from(w, k + 1)
        }
    }

    /// The length of the longest leading part of `w` whose path already
    /// exists.  Inserting `w` creates one node per remaining letter.
    pub open spec fn stored_prefix_len(self, w: Seq<u8>) -> nat {
        self.stored_prefix_from(w, 0)
    }

    /// An empty dictionary: one sentinel node, no words.
    pub fn new() -> (r: Self)
        ensures
            r.wf(),
            forall|w: Seq<u8>| r.word_freq(w) == 0,
            r.spec_node_count() == 1,
            r.spec_word_count() == 0,
            forall|p: Seq<u8>| r.has_path(p) <==> p.len() == 0,
    {
        let r = Trie { root: Node::new('\0'), num_nodes: 1, num_words: 0 };
        proof {
            assert forall|p: Seq<u8>| r.has_path(p) <==> p.len() == 0 by {
                if p.len() > 0 && (p[0] as int) < ALPHABET as int {
                    assert(r.spec_root().spec_children()[p[0] as int] is None);
                }
            }
        }
        r
    }
}

impl Default for Trie {
    /// The same empty dictionary that `Trie::new` builds.
    fn default() -> (r: Self)
        ensures
            r.wf(),
            forall|w: Seq<u8>| r.word_freq(w) == 0,
            r.spec_node_count() == 1,
            r.spec_word_count() == 0,
    {
        Trie::new()
    }
}

impl Default for Node {
    /// A fresh sentinel node: no letter, frequency zero, all slots empty.
    fn default() -> (r: Self)
        ensures
            r.spec_freq() == 0,
            forall|w: Seq<u8>| r.freq_of(w) == 0,
            r.count_nodes() == 1,
            r.words_in() == 0,
            r.wf(),
    {
        Node::new('\0')
    }
}

/// Counting path-extending letters from any reached position lands on the
/// stem of the word.
proof fn lemma_stored_prefix_agrees(t: Trie, w: Seq<u8>, k: int)
    requires
        0 <= k <= t.spec_root().stem(w),
    ensures
        t.stored_prefix_from(w, k) == t.spec_root().stem(w),
    decreases w.len() - k,
{
    lemma_stem_le(t.spec_root(), w);
    if k >= w.len() {
        assert(t.spec_root().stem(w) == w.len());
    } else {
        lemma_stem_char(t.spec_root(), w, k + 1);
        if t.has_path(w.take(k + 1)) {
            lemma_stored_prefix_agrees(t, w, k + 1);
        }
    }
}

/// A path's leading parts are paths too.
pub proof fn lemma_has_path_prefix(t: Trie, p: Seq<u8>, q: Seq<u8>)
    requires
        t.has_path(q),
        is_prefix_of(p, q),
    ensures
        t.has_path(p),
{
    lemma_is_path_prefix(t.spec_root(), p, q);
}

/// The node-level induction behind `lemma_has_path_prefix`.
proof fn lemma_is_path_prefix(n: Node, p: Seq<u8>, q: Seq<u8>)
    requires
        n.is_path(q),
        is_prefix_of(p, q),
    ensures
        n.is_path(p),
    decreases p.len(),
{
    if p.len() > 0 {
        assert(q.len() > 0);
        lemma_prefix_cons(p, q);
        assert(p[0] == q[0]);
        match n.spec_children()[q[0] as int] {
            Some(c) => {
                lemma_is_path_prefix(*c, p.drop_first(), q.drop_first());
            },
            None => {},
        }
    }
}

impl Trie {

    /// Inserts one word.  Uppercase letters are folded to lowercase; a word
    /// with any other character is rejected unchanged.  The word's frequency
    /// rises by one; the first insertion of a distinct nonempty word also
    /// raises the word count.  Inserting the empty word changes nothing.
    pub fn add(&mut self, word: &String) -> (r: Result<(), DictError>)
        requires
            old(self).wf(),
            str_ok(word@) ==> old(self).spec_node_count() as nat + word@.len() <= i32::MAX as nat,
            str_ok(word@) && word@.len() > 0 ==> old(self).word_freq(fold_str(word@)) < u32::MAX,
            str_ok(word@) && word@.len() > 0 && old(self).word_freq(fold_str(word@)) == 0
                ==> old(self).spec_word_count() < i32::MAX as u32,
        ensures
            final(self).wf(),
            r is Ok <==> str_ok(word@),
            !str_ok(word@) ==> *final(self) == *old(self) && r == Err::<(), DictError>(DictError::InvalidCharacter),
            str_ok(word@) ==> forall|s: Seq<u8>| final(self).word_freq(s)
                == old(self).word_freq(s)
                + (if s == fold_str(word@) && s.len() > 0 { 1nat } else { 0nat }),
            str_ok(word@) ==> final(self).spec_word_count() as nat
                == old(self).spec_word_count() as nat
                + (if word@.len() > 0 && old(self).word_freq(fold_str(word@)) == 0 { 1nat } else { 0nat }),
            str_ok(word@) ==> final(self).spec_node_count() as nat
                <= old(self).spec_node_count() as nat + word@.len(),
            str_ok(word@) && word@.len() > 0 ==> final(self).spec_node_count() as nat
                + old(self).stored_prefix_len(fold_str(word@))
                == old(self).spec_node_count() as nat + word@.len(),
            str_ok(word@) ==> forall|p: Seq<u8>| final(self).has_path(p) <==> old(self).has_path(p)
                || (word@.len() > 0 && p.len() > 0 && is_prefix_of(p, fold_str(word@))),
            str_ok(word@) && old(self).word_freq(fold_str(word@)) >= 1 ==> {
                &&& final(self).spec_node_count() == old(self).spec_node_count()
                &&& final(self).spec_word_count() == old(self).spec_word_count()
            },
            str_ok(word@) && word@.len() == 0 ==> *final(self) == *old(self),
    {
        match crate::letters::normalize(word.as_str()) {
            None => Err(DictError::InvalidCharacter),
            Some(v) => {
                if v.len() == 0 {
                    return Ok(());
                }
                proof {
                    assert(v@.skip(0) =~= v@);
                    if self.root.freq_of(v@) >= 1 {
                        lemma_freq_path(self.root, v@);
                    }
                }
                let (an, aw) = Node::add_to_node(&mut self.root, &v, 0);
                self.num_nodes = self.num_nodes + an;
                if aw {
                    self.num_words = self.num_words + 1;
                }
                proof {
                    assert(self.root.freq_of(Seq::<u8>::empty())
                        == old(self).root.freq_of(Seq::<u8>::empty()));
                    lemma_stored_prefix_agrees(*old(self), v@, 0);
                }
                Ok(())
            },
        }
    }
}

impl Node {
    /// Walks the path labelled by the tail of `w` from position `i` and
    /// returns the node it ends at, if the whole path exists.
    fn seek<'a>(node: &'a Node, w: &Vec<u8>, i: usize) -> (r: Option<&'a Node>)
        requires
            node.wf(),
            valid_word(w@),
            i <= w@.len(),
        ensures
            match r {
                Some(n) => {
                    &&& node.is_path(w@.skip(i as int))
                    &&& n.spec_freq() as nat == node.freq_of(w@.skip(i as int))
                    &&& n.wf()
                },
                None => {
                    &&& !node.is_path(w@.skip(i as int))
                    &&& node.freq_of(w@.skip(i as int)) == 0
                },
            },
        decreases w@.len() - i,
    {
        if i == w.len() {
            proof {
                assert(w@.skip(i as int) =~= Seq::<u8>::empty());
            }
            Some(node)
        } else {
            let idx = w[i] as usize;
            proof {
                assert(w@[i as int] < ALPHABET);
                lemma_wf_children_at(node.children@, 0, idx as int);
                assert(w@.skip(i as int).drop_first() =~= w@.skip(i as int + 1));
            }
            match &node.children[idx] {
                Some(c) => Node::seek(c, w, i + 1),
                None => None,
            }
        }
    }
}

impl Trie {
    /// Looks a word up.  Returns the terminal node exactly when the word,
    /// folded to lowercase, is stored with a nonzero frequency; a word that
    /// is only a prefix of stored words, or that holds a character outside
    /// the letters, is absent.
    pub fn find<'a>(&'a self, word: &String) -> (r: Option<&'a Node>)
        requires
            self.wf(),
        ensures
            match r {
                Some(n) => {
                    &&& str_ok(word@)
                    &&& self.word_freq(fold_str(word@)) >= 1
                    &&& n.spec_freq() as nat == self.word_freq(fold_str(word@))
                },
                None => !str_ok(word@) || self.word_freq(fold_str(word@)) == 0,
            },
    {
        match crate::letters::normalize(word.as_str()) {
            None => None,
            Some(v) => {
                proof {
                    assert(v@.skip(0) =~= v@);
                }
                match Node::seek(&self.root, &v, 0) {
                    Some(n) => {
                        if n.get_freq() >= 1 {
                            Some(n)
                        } else {
                            None
                        }
                    },
                    None => None,
                }
            },
        }
    }

    /// The frequency of an index word, zero when it is not stored.
    pub fn freq_of_word(&self, w: &Vec<u8>) -> (r: u32)
        requires
            self.wf(),
            valid_word(w@),
        ensures
            r as nat == self.word_freq(w@),
    {
        proof {
            assert(w@.skip(0) =~= w@);
        }
        match Node::seek(&self.root, w, 0) {
            Some(n) => n.get_freq(),
            None => 0,
        }
    }

    /// The number of distinct stored words.
    pub fn get_word_count(&self) -> (r: u32)
        ensures
            r == self.spec_word_count(),
    {
        self.num_words
    }

    /// The number of nodes of the tree, the sentinel root included.
    pub fn get_node_count(&self) -> (r: u32)
        ensures
            r == self.spec_node_count(),
    {
        self.num_nodes
    }
}

impl Node {
    /// Structural equality of two subtrees: equal frequency here and, slot by
    /// slot, equally occupied slots with structurally equal subtrees.
    pub closed spec fn node_eq(a: Node, b: Node) -> bool
        decreases a, 0int,
    {
        &&& a.freq == b.freq
        &&& a.children@.len() == b.children@.len()
        &&& Node::children_eq(a.children@, b.children@, 0)
    }

    /// One pair of slots is equally occupied, with structurally equal
    /// subtrees when occupied.
    pub closed spec fn slots_eq(a: Option<Box<Node>>, b: Option<Box<Node>>) -> bool {
        match a {
            Some(ca) => match b {
                Some(cb) => Node::node_eq(*ca, *cb),
                None => false,
            },
            None => b is None,
        }
    }

    /// Structural equality of the slots `i` and later.
    pub closed spec fn children_eq(
        sa: Seq<Option<Box<Node>>>,
        sb: Seq<Option<Box<Node>>>,
        i: int,
    ) -> bool
        decreases sa, sa.len() - i + 1,
    {
        i < 0 || i >= sa.len() || i >= sb.len() || {
            &&& match sa[i] {
                Some(ca) => match sb[i] {
                    Some(cb) => Node::node_eq(*ca, *cb),
                    None => false,
                },
                None => sb[i] is None,
            }
            &&& Node::children_eq(sa, sb, i + 1)
        }
    }
}

/// Slot-by-slot equality from position `i` on is the same as equality at
/// every single position from `i` on.
proof fn lemma_children_eq_iff(
    sa: Seq<Option<Box<Node>>>,
    sb: Seq<Option<Box<Node>>>,
    i: int,
)
    requires
        0 <= i,
        sa.len() == sb.len(),
    ensures
        Node::children_eq(sa, sb, i) <==> forall|j: int|
            i <= j < sa.len() ==> Node::slots_eq(sa[j], sb[j]),
    decreases sa.len() - i,
{
    if i < sa.len() {
        lemma_children_eq_iff(sa, sb, i + 1);
    }
}

/// Structurally equal subtrees store the same words with the same
/// frequencies.
pub proof fn lemma_node_eq_same_freqs(a: Node, b: Node, w: Seq<u8>)
    requires
        Node::node_eq(a, b),
    ensures
        a.freq_of(w) == b.freq_of(w),
    decreases w.len(),
{
    if w.len() > 0 {
        let j = w[0] as int;
        if j < a.children@.len() {
            lemma_children_eq_iff(a.children@, b.children@, 0);
            assert(Node::slots_eq(a.children@[j], b.children@[j]));
            match a.children@[j] {
                Some(ca) => match b.children@[j] {
                    Some(cb) => {
                        lemma_node_eq_same_freqs(*ca, *cb, w.drop_first());
                    },
                    None => {},
                },
                None => {},
            }
        }
    }
}

/// The frequency of a word one slot down, seen from the parent.
proof fn lemma_freq_of_cons(n: Node, j: u8, w: Seq<u8>)
    requires
        n.spec_children().len() == ALPHABET as int,
        j < ALPHABET,
    ensures
        n.freq_of(seq![j] + w) == Node::opt_freq(n.spec_children()[j as int], w),
{
    let cw = seq![j] + w;
    assert(cw.len() == w.len() + 1);
    assert(cw[0] == j);
    assert(cw.drop_first() =~= w);
}

/// Two well-formed subtrees that store the same words with the same
/// frequencies have the same node count, the same stored-word count, and are
/// structurally equal.  This holds because a well-formed tree keeps no node
/// off the paths of its stored words, so its whole shape is a function of
/// what it stores.
pub proof fn lemma_same_words_same_structure(a: Node, b: Node)
    requires
        a.wf(),
        b.wf(),
        forall|w: Seq<u8>| a.freq_of(w) == b.freq_of(w),
    ensures
        a.count_nodes() == b.count_nodes(),
        a.words_in() == b.words_in(),
        Node::node_eq(a, b),
    decreases a, 1int,
{
    assert(a.freq_of(Seq::<u8>::empty()) == b.freq_of(Seq::<u8>::empty()));
    assert forall|j: int, w: Seq<u8>| 0 <= j < ALPHABET as int implies
        Node::opt_freq(a.spec_children()[j], w) == Node::opt_freq(b.spec_children()[j], w) by {
        lemma_freq_of_cons(a, j as u8, w);
        lemma_freq_of_cons(b, j as u8, w);
        assert(a.freq_of(seq![j as u8] + w) == b.freq_of(seq![j as u8] + w));
    }
    assert forall|j: int| 0 <= j < ALPHABET as int implies
        (a.spec_children()[j] is Some <==> b.spec_children()[j] is Some) by {
        lemma_wf_children_at(a.spec_children(), 0, j);
        lemma_wf_children_at(b.spec_children(), 0, j);
        match a.spec_children()[j] {
            Some(ca) => {
                let w = choose|w: Seq<u8>| ca.freq_of(w) >= 1;
                assert(Node::opt_freq(a.spec_children()[j], w) >= 1);
                assert(Node::opt_freq(b.spec_children()[j], w) >= 1);
            },
            None => {},
        }
        match b.spec_children()[j] {
            Some(cb) => {
                let w = choose|w: Seq<u8>| cb.freq_of(w) >= 1;
                assert(Node::opt_freq(b.spec_children()[j], w) >= 1);
                assert(Node::opt_freq(a.spec_children()[j], w) >= 1);
            },
            None => {},
        }
    }
    lemma_same_words_children(a.spec_children(), b.spec_children(), 0);
}

/// The slot-by-slot induction behind `lemma_same_words_same_structure`.
proof fn lemma_same_words_children(
    sa: Seq<Option<Box<Node>>>,
    sb: Seq<Option<Box<Node>>>,
    i: int,
)
    requires
        0 <= i,
        sa.len() == sb.len(),
        Node::wf_children(sa, 0),
        Node::wf_children(sb, 0),
        forall|j: int| 0 <= j < sa.len() ==> (sa[j] is Some <==> sb[j] is Some),
        forall|j: int, w: Seq<u8>| 0 <= j < sa.len()
            ==> Node::opt_freq(sa[j], w) == Node::opt_freq(sb[j], w),
    ensures
        Node::count_nodes_children(sa, i) == Node::count_nodes_children(sb, i),
        Node::words_in_children(sa, i) == Node::words_in_children(sb, i),
        Node::children_eq(sa, sb, i),
    decreases sa, sa.len() - i + 1,
{
    if i < sa.len() {
        lemma_same_words_children(sa, sb, i + 1);
        match sa[i] {
            Some(ca) => {
                match sb[i] {
                    Some(cb) => {
                        lemma_wf_children_at(sa, 0, i);
                        lemma_wf_children_at(sb, 0, i);
                        assert forall|w: Seq<u8>| ca.freq_of(w) == cb.freq_of(w) by {
                            assert(Node::opt_freq(sa[i], w) == Node::opt_freq(sb[i], w));
                        }
                        lemma_same_words_same_structure(*ca, *cb);
                    },
                    None => {
                        assert(false);
                    },
                }
            },
            None => {
                assert(sb[i] is None);
            },
        }
    }
}

impl Node {
    /// Decides structural equality of two subtrees.
    pub fn compare(a: &Node, b: &Node) -> (r: bool)
        ensures
            r == Node::node_eq(*a, *b),
        decreases *a,
    {
        if a.get_freq() != b.get_freq() {
            return false;
        }
        let alen = a.children.len();
        if alen != b.children.len() {
            return false;
        }
        proof {
            lemma_children_eq_iff(a.children@, b.children@, 0);
        }
        let mut i: usize = 0;
        while i < alen
            invariant
                0 <= i <= alen,
                alen == a.children@.len(),
                alen == b.children@.len(),
                forall|j: int| 0 <= j < i ==> Node::slots_eq(a.children@[j], b.children@[j]),
            decreases alen - i,
        {
            let eq_here = match (&a.children[i], &b.children[i]) {
                (Some(ca), Some(cb)) => Node::compare(ca, cb),
                (None, None) => true,
                _ => false,
            };
            if !eq_here {
                proof {
                    assert(!Node::slots_eq(a.children@[i as int], b.children@[i as int]));
                    lemma_children_eq_iff(a.children@, b.children@, 0);
                }
                return false;
            }
            i = i + 1;
        }
        proof {
            lemma_children_eq_iff(a.children@, b.children@, 0);
            assert(Node::children_eq(a.children@, b.children@, 0));
        }
        true
    }
}

impl Trie {
    /// What `==` means on dictionaries: equal counters and structurally
    /// equal trees.
    pub open spec fn eq_spec_trie(self, other: Trie) -> bool {
        &&& self.spec_word_count() == other.spec_word_count()
        &&& self.spec_node_count() == other.spec_node_count()
        &&& Node::node_eq(self.spec_root(), other.spec_root())
    }
}

impl PartialEq for Trie {
    /// Compares the counters first, then the trees.
    fn eq(&self, other: &Trie) -> (r: bool) {
        if self.num_words != other.num_words {
            return false;
        }
        if self.num_nodes != other.num_nodes {
            return false;
        }
        Node::compare(&self.root, &other.root)
    }
}

impl vstd::std_specs::cmp::PartialEqSpecImpl for Trie {
    open spec fn obeys_eq_spec() -> bool {
        true
    }

    open spec fn eq_spec(&self, other: &Trie) -> bool {
        self.eq_spec_trie(*other)
    }
}

/// Two well-formed dictionaries compare equal exactly when they store the
/// same words with the same frequencies; dictionaries built from the same
/// words therefore also report equal node and word counts, however the
/// insertions were ordered.
pub proof fn lemma_trie_eq_is_same_words(t1: Trie, t2: Trie)
    requires
        t1.wf(),
        t2.wf(),
    ensures
        t1.eq_spec_trie(t2) <==> forall|w: Seq<u8>| t1.word_freq(w) == t2.word_freq(w),
{
    if t1.eq_spec_trie(t2) {
        assert forall|w: Seq<u8>| t1.word_freq(w) == t2.word_freq(w) by {
            lemma_node_eq_same_freqs(t1.spec_root(), t2.spec_root(), w);
        }
    }
    if forall|w: Seq<u8>| t1.word_freq(w) == t2.word_freq(w) {
        assert forall|w: Seq<u8>| t1.spec_root().freq_of(w) == t2.spec_root().freq_of(w) by {
            assert(t1.word_freq(w) == t2.word_freq(w));
        }
        lemma_same_words_same_structure(t1.spec_root(), t2.spec_root());
    }
}

impl Node {
    /// The stored words of this subtree in depth-first, letter-ascending
    /// order, each carrying the path `prefix` already walked to reach this
    /// node.  A word is emitted when its terminal node is reached, before
    /// the words it is a proper prefix of.
    pub closed spec fn word_list(self, prefix: Seq<u8>) -> Seq<Seq<u8>>
        decreases self, 0int,
    {
        Node::word_list_children(self.children@, prefix, 0)
    }

    /// The words of the subtrees hanging off slots `i` and later.
    pub closed spec fn word_list_children(
        s: Seq<Option<Box<Node>>>,
        prefix: Seq<u8>,
        i: int,
    ) -> Seq<Seq<u8>>
        decreases s, s.len() - i + 1,
    {
        if i < 0 || i >= s.len() {
            Seq::empty()
        } else {
            (match s[i] {
                Some(c) => (if c.spec_freq() >= 1 {
                    seq![prefix.push(i as u8)]
                } else {
                    Seq::empty()
                }) + c.word_list(prefix.push(i as u8)),
                None => Seq::empty(),
            }) + Node::word_list_children(s, prefix, i + 1)
        }
    }

    /// Appends the stored words of this subtree to `out` in depth-first,
    /// letter-ascending order; `prefix` is the path walked so far and is
    /// handed back unchanged.
    fn collect_words(node: &Node, prefix: &mut Vec<u8>, out: &mut Vec<Vec<u8>>)
        requires
            node.wf(),
            valid_word(old(prefix)@),
        ensures
            final(prefix)@ == old(prefix)@,
            final(out)@.len() == old(out)@.len() + node.word_list(old(prefix)@).len(),
            forall|k: int| 0 <= k < old(out)@.len() ==> final(out)@[k] == old(out)@[k],
            forall|k: int| 0 <= k < node.word_list(old(prefix)@).len()
                ==> #[trigger] final(out)@[old(out)@.len() + k]@
                    == node.word_list(old(prefix)@)[k]
                    && valid_word(final(out)@[old(out)@.len() + k]@),
        decreases *node, 0int,
    {
        let ghost pre = prefix@;
        let ghost base = out@;
        let ghost full = Node::word_list_children(node.spec_children(), pre, 0);
        let mut i: usize = 0;
        while i < ALPHABET as usize
            invariant
                0 <= i <= ALPHABET as usize,
                node.wf(),
                valid_word(pre),
                prefix@ == pre,
                full == Node::word_list_children(node.spec_children(), pre, 0),
                out@.len() + Node::word_list_children(node.spec_children(), pre, i as int).len()
                    == base.len() + full.len(),
                forall|k: int| 0 <= k < base.len() ==> out@[k] == base[k],
                forall|k: int| 0 <= k < out@.len() - base.len()
                    ==> #[trigger] out@[base.len() + k]@ == full[k]
                        && valid_word(out@[base.len() + k]@),
            decreases ALPHABET as usize - i,
        {
            proof {
                lemma_wf_children_at(node.spec_children(), 0, i as int);
                lemma_word_list_children_split(node.spec_children(), pre, i as int);
                lemma_word_list_suffix_index(node.spec_children(), pre, i as int);
            }
            let ghost wli = Node::word_list_children(node.spec_children(), pre, i as int);
            let ghost wli1 = Node::word_list_children(node.spec_children(), pre, i as int + 1);
            let ghost cur: int = out@.len() - base.len();
            proof {
                assert(cur == full.len() - wli.len());
            }
            match &node.children[i] {
                Some(c) => {
                    let ghost cwl = c.word_list(pre.push(i as u8));
                    prefix.push(i as u8);
                    proof {
                        assert(valid_word(prefix@));
                        assert(wli == (if c.spec_freq() >= 1 {
                            seq![pre.push(i as u8)]
                        } else {
                            Seq::<Seq<u8>>::empty()
                        }) + cwl + wli1);
                    }
                    if c.get_freq() >= 1 {
                        let mut word: Vec<u8> = Vec::new();
                        let mut k: usize = 0;
                        while k < prefix.len()
                            invariant
                                0 <= k <= prefix@.len(),
                                word@ == prefix@.subrange(0, k as int),
                            decreases prefix@.len() - k,
                        {
                            word.push(prefix[k]);
                            k = k + 1;
                            proof {
                                assert(word@ =~= prefix@.subrange(0, k as int));
                            }
                        }
                        proof {
                            assert(word@ =~= prefix@);
                        }
                        out.push(word);
                    }
                    let ghost head: int = if c.spec_freq() >= 1 { 1 } else { 0 };
                    let ghost mid = out@;
                    proof {
                        assert(mid.len() == base.len() + cur + head);
                        assert forall|k: int| 0 <= k < cwl.len()
                            implies wli[head + k] == #[trigger] cwl[k] by {}
                        if head == 1 {
                            assert(mid[base.len() + cur]@ == pre.push(i as u8));
                            assert(wli[0] == pre.push(i as u8));
                        }
                    }
                    Node::collect_words(c, prefix, out);
                    let popped = prefix.pop();
                    proof {
                        assert(prefix@ =~= pre);
                        assert(out@.len() == mid.len() + cwl.len());
                        assert forall|k: int| 0 <= k < out@.len() - base.len() implies
                            #[trigger] out@[base.len() + k]@ == full[k]
                                && valid_word(out@[base.len() + k]@) by {
                            if k < cur {
                                assert(out@[base.len() + k] == mid[base.len() + k]);
                            } else if k == cur && head == 1 {
                                assert(out@[base.len() + k] == mid[base.len() + k]);
                                assert(full[full.len() - wli.len() + 0] == wli[0]);
                            } else {
                                let m = k - cur - head;
                                assert(out@[mid.len() + m]@ == cwl[m]);
                                assert(wli[head + m] == cwl[m]);
                                assert(full[full.len() - wli.len() + (head + m)]
                                    == wli[head + m]);
                            }
                        }
                        assert(out@.len() + wli1.len() == base.len() + full.len());
                    }
                },
                None => {
                    proof {
                        assert(wli == wli1);
                    }
                },
            }
            i = i + 1;
        }
        proof {
            assert(Node::word_list_children(node.spec_children(), pre, ALPHABET as int).len()
                == 0);
            assert(node.word_list(pre) == full);
        }
    }
}

/// The word list over slots `i` and later splits into slot `i`'s words and
/// the rest.
proof fn lemma_word_list_children_split(s: Seq<Option<Box<Node>>>, prefix: Seq<u8>, i: int)
    requires
        0 <= i < s.len(),
    ensures
        Node::word_list_children(s, prefix, i) == (match s[i] {
            Some(c) => (if c.spec_freq() >= 1 {
                seq![prefix.push(i as u8)]
            } else {
                Seq::<Seq<u8>>::empty()
            }) + c.word_list(prefix.push(i as u8)),
            None => Seq::<Seq<u8>>::empty(),
        }) + Node::word_list_children(s, prefix, i + 1),
{
}

/// The word list over slots `i` and later is the tail of the full word
/// list, aligned at the end.
proof fn lemma_word_list_suffix_index(s: Seq<Option<Box<Node>>>, prefix: Seq<u8>, i: int)
    requires
        0 <= i,
    ensures
        Node::word_list_children(s, prefix, i).len()
            <= Node::word_list_children(s, prefix, 0).len(),
        forall|k: int| 0 <= k < Node::word_list_children(s, prefix, i).len()
            ==> Node::word_list_children(s, prefix, 0)[
                Node::word_list_children(s, prefix, 0).len()
                    - Node::word_list_children(s, prefix, i).len() + k]
                == #[trigger] Node::word_list_children(s, prefix, i)[k],
    decreases i,
{
    if i > 0 && i <= s.len() {
        lemma_word_list_suffix_index(s, prefix, i - 1);
        lemma_word_list_children_split(s, prefix, i - 1);
        let full = Node::word_list_children(s, prefix, 0);
        let prev = Node::word_list_children(s, prefix, i - 1);
        let this = Node::word_list_children(s, prefix, i);
        let sw = prev.len() - this.len();
        assert forall|k: int| 0 <= k < this.len() implies full[full.len() - this.len() + k]
            == #[trigger] this[k] by {
            assert(prev[sw + k] == this[k]);
            assert(full[full.len() - prev.len() + (sw + k)] == prev[sw + k]);
        }
    }
}

/// A concatenation holds an entry exactly when one of its parts does.
proof fn lemma_contains_add(a: Seq<Seq<u8>>, b: Seq<Seq<u8>>, x: Seq<u8>)
    ensures
        (a + b).contains(x) <==> a.contains(x) || b.contains(x),
{
    if (a + b).contains(x) {
        let k = choose|k: int| 0 <= k < (a + b).len() && (a + b)[k] == x;
        if k < a.len() {
            assert(a[k] == x);
        } else {
            assert(b[k - a.len()] == x);
        }
    }
    if a.contains(x) {
        let k = choose|k: int| 0 <= k < a.len() && a[k] == x;
        assert((a + b)[k] == x);
    }
    if b.contains(x) {
        let k = choose|k: int| 0 <= k < b.len() && b[k] == x;
        assert((a + b)[a.len() + k] == x);
    }
}

/// The words listed for the slots `i` and later are exactly the prefix
/// followed by a stored word that starts with a letter of slot `i` or later.
proof fn lemma_word_list_children_words(s: Seq<Option<Box<Node>>>, prefix: Seq<u8>, i: int)
    requires
        Node::wf_children(s, 0),
        s.len() == ALPHABET as int,
        0 <= i,
    ensures
        forall|p: Seq<u8>| #[trigger] Node::word_list_children(s, prefix, i).contains(p)
            <==> exists|w: Seq<u8>|
            w.len() > 0 && i <= w[0] < ALPHABET && Node::opt_freq(s[w[0] as int], w.drop_first())
                >= 1 && p == prefix + w,
    decreases s, s.len() - i + 1,
{
    if i >= s.len() {
        assert forall|p: Seq<u8>| #[trigger] Node::word_list_children(s, prefix, i).contains(p)
            <==> exists|w: Seq<u8>|
            w.len() > 0 && i <= w[0] < ALPHABET && Node::opt_freq(s[w[0] as int], w.drop_first())
                >= 1 && p == prefix + w by {
            if exists|w: Seq<u8>|
                w.len() > 0 && i <= w[0] < ALPHABET && Node::opt_freq(
                    s[w[0] as int],
                    w.drop_first(),
                ) >= 1 && p == prefix + w {
                let w = choose|w: Seq<u8>|
                    w.len() > 0 && i <= w[0] < ALPHABET && Node::opt_freq(
                        s[w[0] as int],
                        w.drop_first(),
                    ) >= 1 && p == prefix + w;
                assert(false);
            }
        }
    } else {
        lemma_word_list_children_words(s, prefix, i + 1);
        lemma_word_list_children_split(s, prefix, i);
        lemma_wf_children_at(s, 0, i);
        let head: Seq<Seq<u8>> = match s[i] {
            Some(c) => (if c.spec_freq() >= 1 {
                seq![prefix.push(i as u8)]
            } else {
                Seq::<Seq<u8>>::empty()
            }) + c.word_list(prefix.push(i as u8)),
            None => Seq::<Seq<u8>>::empty(),
        };
        let rest = Node::word_list_children(s, prefix, i + 1);
        match s[i] {
            Some(c) => {
                lemma_word_list_words(*c, prefix.push(i as u8));
            },
            None => {},
        }
        assert forall|p: Seq<u8>| #[trigger] Node::word_list_children(s, prefix, i).contains(p)
            <==> exists|w: Seq<u8>|
            w.len() > 0 && i <= w[0] < ALPHABET && Node::opt_freq(s[w[0] as int], w.drop_first())
                >= 1 && p == prefix + w by {
            lemma_contains_add(head, rest, p);
            match s[i] {
                Some(c) => {
                    lemma_contains_add(
                        if c.spec_freq() >= 1 {
                            seq![prefix.push(i as u8)]
                        } else {
                            Seq::<Seq<u8>>::empty()
                        },
                        c.word_list(prefix.push(i as u8)),
                        p,
                    );
                },
                None => {},
            }
            if Node::word_list_children(s, prefix, i).contains(p) {
                if head.contains(p) {
                    match s[i] {
                        Some(c) => {
                            if c.spec_freq() >= 1 && p == prefix.push(i as u8) {
                                let w = seq![i as u8];
                                assert(w.drop_first() =~= Seq::<u8>::empty());
                                assert(prefix + w =~= prefix.push(i as u8));
                                assert(Node::opt_freq(s[w[0] as int], w.drop_first()) >= 1);
                            } else {
                                assert(c.word_list(prefix.push(i as u8)).contains(p));
                                let w0 = choose|w0: Seq<u8>|
                                    w0.len() > 0 && c.freq_of(w0) >= 1 && p == prefix.push(
                                        i as u8,
                                    ) + w0;
                                let w = seq![i as u8] + w0;
                                assert(w.drop_first() =~= w0);
                                assert(prefix + w =~= prefix.push(i as u8) + w0);
                                assert(Node::opt_freq(s[w[0] as int], w.drop_first()) >= 1);
                            }
                        },
                        None => {},
                    }
                } else {
                    let w = choose|w: Seq<u8>|
                        w.len() > 0 && i + 1 <= w[0] < ALPHABET && Node::opt_freq(
                            s[w[0] as int],
                            w.drop_first(),
                        ) >= 1 && p == prefix + w;
                    assert(i <= w[0] < ALPHABET);
                }
            }
            if exists|w: Seq<u8>|
                w.len() > 0 && i <= w[0] < ALPHABET && Node::opt_freq(
                    s[w[0] as int],
                    w.drop_first(),
                ) >= 1 && p == prefix + w {
                let w = choose|w: Seq<u8>|
                    w.len() > 0 && i <= w[0] < ALPHABET && Node::opt_freq(
                        s[w[0] as int],
                        w.drop_first(),
                    ) >= 1 && p == prefix + w;
                if w[0] == i as u8 {
                    match s[i] {
                        Some(c) => {
                            if w.len() == 1 {
                                assert(w.drop_first() =~= Seq::<u8>::empty());
                                assert(c.freq_of(Seq::<u8>::empty()) >= 1);
                                assert(c.spec_freq() >= 1);
                                assert(p =~= prefix.push(i as u8));
                                assert(seq![prefix.push(i as u8)][0] == prefix.push(i as u8));
                                assert(seq![prefix.push(i as u8)].contains(p));
                                assert(head.contains(p));
                            } else {
                                let w0 = w.drop_first();
                                assert(w0.len() > 0);
                                assert(c.freq_of(w0) >= 1);
                                assert(p =~= prefix.push(i as u8) + w0);
                                assert(c.word_list(prefix.push(i as u8)).contains(p));
                            }
                        },
                        None => {
                            assert(false);
                        },
                    }
                } else {
                    assert(i + 1 <= w[0]);
                    assert(rest.contains(p));
                }
            }
        }
    }
}

/// A word stands in a well-formed subtree's listing exactly when it is
/// stored below that subtree: the listing is complete and lists nothing
/// else.
proof fn lemma_word_list_words(n: Node, prefix: Seq<u8>)
    requires
        n.wf(),
    ensures
        forall|p: Seq<u8>| #[trigger] n.word_list(prefix).contains(p) <==> exists|w: Seq<u8>|
            w.len() > 0 && #[trigger] n.freq_of(w) >= 1 && p == prefix + w,
    decreases n, 1int,
{
    lemma_word_list_children_words(n.spec_children(), prefix, 0);
    assert forall|p: Seq<u8>| #[trigger] n.word_list(prefix).contains(p) <==> exists|w: Seq<u8>|
        w.len() > 0 && #[trigger] n.freq_of(w) >= 1 && p == prefix + w by {
        if n.word_list(prefix).contains(p) {
            assert(Node::word_list_children(n.spec_children(), prefix, 0).contains(p));
            let w = choose|w: Seq<u8>|
                w.len() > 0 && 0 <= w[0] < ALPHABET && Node::opt_freq(
                    n.spec_children()[w[0] as int],
                    w.drop_first(),
                ) >= 1 && p == prefix + w;
            assert(n.freq_of(w) == Node::opt_freq(n.spec_children()[w[0] as int], w.drop_first()));
            assert(w.len() > 0 && n.freq_of(w) >= 1 && p == prefix + w);
        }
        if exists|w: Seq<u8>| w.len() > 0 && #[trigger] n.freq_of(w) >= 1 && p == prefix + w {
            let w = choose|w: Seq<u8>| w.len() > 0 && n.freq_of(w) >= 1 && p == prefix + w;
            if (w[0] as int) < ALPHABET as int {
                assert(Node::opt_freq(n.spec_children()[w[0] as int], w.drop_first()) == n.freq_of(
                    w,
                ));
                assert(w.len() > 0 && 0 <= w[0] < ALPHABET && Node::opt_freq(
                    n.spec_children()[w[0] as int],
                    w.drop_first(),
                ) >= 1 && p == prefix + w);
                assert(Node::word_list_children(n.spec_children(), prefix, 0).contains(p));
            } else {
                assert(n.freq_of(w) == 0);
            }
        }
    }
}

/// Equal slot occupancy gives equal index sums.
proof fn lemma_index_sum_eq(sa: Seq<Option<Box<Node>>>, sb: Seq<Option<Box<Node>>>, i: int)
    requires
        sa.len() == sb.len(),
        forall|j: int| 0 <= j < sa.len() ==> (sa[j] is Some <==> sb[j] is Some),
    ensures
        Trie::index_sum(sa, i) == Trie::index_sum(sb, i),
    decreases sa.len() - i,
{
    if 0 <= i < sa.len() {
        lemma_index_sum_eq(sa, sb, i + 1);
    }
}

/// Dictionaries that compare equal hash equal.
pub proof fn lemma_eq_same_hash(t1: Trie, t2: Trie)
    requires
        t1.eq_spec_trie(t2),
    ensures
        t1.spec_hash() == t2.spec_hash(),
{
    let sa = t1.spec_root().spec_children();
    let sb = t2.spec_root().spec_children();
    lemma_children_eq_iff(sa, sb, 0);
    assert forall|j: int| 0 <= j < sa.len() implies (sa[j] is Some <==> sb[j] is Some) by {
        assert(Node::slots_eq(sa[j], sb[j]));
    }
    lemma_index_sum_eq(sa, sb, 0);
}

/// A root slot is occupied exactly when its one-letter path exists.
pub proof fn lemma_child_occupancy(t: Trie)
    requires
        t.wf(),
    ensures
        forall|b: u8| b < ALPHABET ==> (t.spec_root().spec_children()[b as int] is Some
            <==> #[trigger] t.has_path(seq![b])),
{
    assert forall|b: u8| b < ALPHABET implies (t.spec_root().spec_children()[b as int] is Some
        <==> #[trigger] t.has_path(seq![b])) by {
        let p = seq![b];
        assert(p[0] == b);
        assert(p.drop_first() =~= Seq::<u8>::empty());
        match t.spec_root().spec_children()[b as int] {
            Some(c) => {
                assert(c.is_path(p.drop_first()));
            },
            None => {},
        }
    }
}

/// Structurally equal subtrees list the same words.
proof fn lemma_node_eq_word_list(a: Node, b: Node, prefix: Seq<u8>)
    requires
        Node::node_eq(a, b),
    ensures
        a.word_list(prefix) == b.word_list(prefix),
    decreases a, 1int,
{
    lemma_children_eq_iff(a.spec_children(), b.spec_children(), 0);
    lemma_node_eq_word_list_children(a.spec_children(), b.spec_children(), prefix, 0);
}

/// The slot-by-slot induction behind `lemma_node_eq_word_list`.
proof fn lemma_node_eq_word_list_children(
    sa: Seq<Option<Box<Node>>>,
    sb: Seq<Option<Box<Node>>>,
    prefix: Seq<u8>,
    i: int,
)
    requires
        sa.len() == sb.len(),
        forall|j: int| 0 <= j < sa.len() ==> Node::slots_eq(sa[j], sb[j]),
    ensures
        Node::word_list_children(sa, prefix, i) == Node::word_list_children(sb, prefix, i),
    decreases sa, sa.len() - i + 1,
{
    if 0 <= i < sa.len() {
        lemma_node_eq_word_list_children(sa, sb, prefix, i + 1);
        assert(Node::slots_eq(sa[i], sb[i]));
        match sa[i] {
            Some(ca) => {
                match sb[i] {
                    Some(cb) => {
                        assert(ca.spec_freq() == cb.spec_freq());
                        lemma_node_eq_word_list(*ca, *cb, prefix.push(i as u8));
                    },
                    None => {
                        assert(false);
                    },
                }
            },
            None => {
                assert(sb[i] is None);
            },
        }
    }
}

/// Dictionaries that compare equal render the same listing.
pub proof fn lemma_eq_same_listing(t1: Trie, t2: Trie)
    requires
        t1.eq_spec_trie(t2),
    ensures
        t1.spec_listing() == t2.spec_listing(),
{
    lemma_node_eq_word_list(t1.spec_root(), t2.spec_root(), Seq::<u8>::empty());
}

/// The listing behind `Trie::to_string` holds exactly the stored words: it
/// is complete, and it lists nothing that is not stored.
pub proof fn lemma_listing_words(t: Trie)
    requires
        t.wf(),
    ensures
        forall|p: Seq<u8>| #[trigger] t.spec_root().word_list(Seq::<u8>::empty()).contains(p)
            <==> (p.len() > 0 && t.word_freq(p) >= 1),
{
    lemma_word_list_words(t.spec_root(), Seq::<u8>::empty());
    assert forall|p: Seq<u8>| #[trigger] t.spec_root().word_list(Seq::<u8>::empty()).contains(p)
        <==> (p.len() > 0 && t.word_freq(p) >= 1) by {
        if t.spec_root().word_list(Seq::<u8>::empty()).contains(p) {
            let w = choose|w: Seq<u8>|
                w.len() > 0 && t.spec_root().freq_of(w) >= 1 && p == Seq::<u8>::empty() + w;
            assert(p =~= w);
        }
        if p.len() > 0 && t.word_freq(p) >= 1 {
            assert(Seq::<u8>::empty() + p =~= p);
            assert(p.len() > 0 && t.spec_root().freq_of(p) >= 1 && p == Seq::<u8>::empty() + p);
        }
    }
}

/// All entries a listing holds for the slots `i` and later are strictly
/// increasing in the suggestion ranking order.
proof fn lemma_word_list_children_sorted(s: Seq<Option<Box<Node>>>, prefix: Seq<u8>, i: int)
    requires
        Node::wf_children(s, 0),
        s.len() == ALPHABET as int,
        0 <= i,
    ensures
        forall|k1: int, k2: int|
            0 <= k1 < k2 < Node::word_list_children(s, prefix, i).len()
                ==> crate::letters::lex_lt(
                #[trigger] Node::word_list_children(s, prefix, i)[k1],
                #[trigger] Node::word_list_children(s, prefix, i)[k2],
            ),
    decreases s, s.len() - i + 1,
{
    if i < s.len() {
        lemma_word_list_children_sorted(s, prefix, i + 1);
        lemma_word_list_children_split(s, prefix, i);
        lemma_word_list_children_words(s, prefix, i + 1);
        lemma_wf_children_at(s, 0, i);
        let wl = Node::word_list_children(s, prefix, i);
        let rest = Node::word_list_children(s, prefix, i + 1);
        match s[i] {
            Some(c) => {
                lemma_word_list_sorted(*c, prefix.push(i as u8));
                lemma_word_list_words(*c, prefix.push(i as u8));
                let sub = c.word_list(prefix.push(i as u8));
                let head: int = if c.spec_freq() >= 1 {
                    1
                } else {
                    0
                };
                let sw = (if c.spec_freq() >= 1 {
                    seq![prefix.push(i as u8)]
                } else {
                    Seq::<Seq<u8>>::empty()
                }) + sub;
                assert(wl == sw + rest);
                assert(sw.len() == head + sub.len());
                assert(prefix.push(i as u8) =~= prefix + seq![i as u8]);
                // every slot-`i` entry is the prefix followed by a word that
                // starts with letter `i`
                assert forall|k: int| 0 <= k < sw.len() implies exists|u: Seq<u8>|
                    u.len() > 0 && u[0] == i as u8 && #[trigger] sw[k] == prefix + u by {
                    if head == 1 && k == 0 {
                        let u = seq![i as u8];
                        assert(sw[0] == prefix.push(i as u8));
                        assert(sw[0] == prefix + u);
                    } else {
                        let m = k - head;
                        assert(sw[k] == sub[m]);
                        assert(sub.contains(sub[m]));
                        let w1 = choose|w1: Seq<u8>|
                            w1.len() > 0 && c.freq_of(w1) >= 1 && sub[m] == prefix.push(i as u8)
                                + w1;
                        let u = seq![i as u8] + w1;
                        assert((prefix + seq![i as u8]) + w1 =~= prefix + u);
                        assert(u[0] == i as u8);
                        assert(sw[k] == prefix + u);
                    }
                }
                assert forall|k1: int, k2: int| 0 <= k1 < k2 < wl.len() implies
                    crate::letters::lex_lt(#[trigger] wl[k1], #[trigger] wl[k2]) by {
                    if k2 < sw.len() {
                        // both entries come from slot i
                        assert(wl[k1] == sw[k1]);
                        assert(wl[k2] == sw[k2]);
                        if head == 1 && k1 == 0 {
                            assert(sw[k2] == sub[k2 - 1]);
                            assert(sub.contains(sub[k2 - 1]));
                            let w1 = choose|w1: Seq<u8>|
                                w1.len() > 0 && c.freq_of(w1) >= 1 && sub[k2 - 1] == prefix.push(
                                    i as u8,
                                ) + w1;
                            crate::letters::lemma_lex_le_extend(prefix.push(i as u8), w1);
                            assert((prefix.push(i as u8) + w1).len() > prefix.push(
                                i as u8,
                            ).len());
                        } else {
                            assert(sw[k1] == sub[k1 - head]);
                            assert(sw[k2] == sub[k2 - head]);
                        }
                    } else if k1 >= sw.len() {
                        // both entries come from later slots
                        assert(wl[k1] == rest[k1 - sw.len()]);
                        assert(wl[k2] == rest[k2 - sw.len()]);
                    } else {
                        // slot-i entry against a later-slot entry
                        assert(wl[k1] == sw[k1]);
                        assert(wl[k2] == rest[k2 - sw.len()]);
                        let u = choose|u: Seq<u8>|
                            u.len() > 0 && u[0] == i as u8 && sw[k1] == prefix + u;
                        assert(rest.contains(rest[k2 - sw.len()]));
                        let v = choose|v: Seq<u8>|
                            v.len() > 0 && i + 1 <= v[0] < ALPHABET && Node::opt_freq(
                                s[v[0] as int],
                                v.drop_first(),
                            ) >= 1 && rest[k2 - sw.len()] == prefix + v;
                        assert(crate::letters::lex_le(u, v));
                        crate::letters::lemma_lex_le_common(prefix, u, v);
                        if wl[k1] == wl[k2] {
                            crate::letters::lemma_concat_inj(prefix, u, v);
                        }
                    }
                }
            },
            None => {
                assert(wl == Seq::<Seq<u8>>::empty() + rest);
                assert(Seq::<Seq<u8>>::empty() + rest =~= rest);
                assert forall|k1: int, k2: int| 0 <= k1 < k2 < wl.len() implies
                    crate::letters::lex_lt(#[trigger] wl[k1], #[trigger] wl[k2]) by {
                    assert(wl[k1] == rest[k1]);
                    assert(wl[k2] == rest[k2]);
                }
            },
        }
    }
}

/// A well-formed subtree's listing is strictly increasing.
proof fn lemma_word_list_sorted(n: Node, prefix: Seq<u8>)
    requires
        n.wf(),
    ensures
        forall|k1: int, k2: int|
            0 <= k1 < k2 < n.word_list(prefix).len() ==> crate::letters::lex_lt(
                #[trigger] n.word_list(prefix)[k1],
                #[trigger] n.word_list(prefix)[k2],
            ),
    decreases n, 1int,
{
    lemma_word_list_children_sorted(n.spec_children(), prefix, 0);
    assert(n.word_list(prefix) == Node::word_list_children(n.spec_children(), prefix, 0));
    assert forall|k1: int, k2: int| 0 <= k1 < k2 < n.word_list(prefix).len() implies
        crate::letters::lex_lt(
            #[trigger] n.word_list(prefix)[k1],
            #[trigger] n.word_list(prefix)[k2],
        ) by {
        assert(n.word_list(prefix)[k1] == Node::word_list_children(
            n.spec_children(),
            prefix,
            0,
        )[k1]);
        assert(n.word_list(prefix)[k2] == Node::word_list_children(
            n.spec_children(),
            prefix,
            0,
        )[k2]);
    }
}

/// The listing behind `Trie::to_string` is strictly increasing in the
/// ranking order: together with `lemma_listing_words` it is the sorted,
/// duplicate-free sequence of all stored words.
pub proof fn lemma_listing_sorted(t: Trie)
    requires
        t.wf(),
    ensures
        forall|k1: int, k2: int|
            0 <= k1 < k2 < t.spec_root().word_list(Seq::<u8>::empty()).len()
                ==> crate::letters::lex_lt(
                #[trigger] t.spec_root().word_list(Seq::<u8>::empty())[k1],
                #[trigger] t.spec_root().word_list(Seq::<u8>::empty())[k2],
            ),
{
    lemma_word_list_sorted(t.spec_root(), Seq::<u8>::empty());
}

/// Inserting an already-stored word again raises only its frequency: the
/// node and word counters keep their values.  `t1` is any well-formed
/// dictionary storing `w` and `t2` the dictionary after one more insertion
/// of `w`, related as `Trie::add` promises.
pub proof fn lemma_duplicate_insert_counts(t1: Trie, t2: Trie, w: Seq<u8>)
    requires
        t1.wf(),
        w.len() > 0,
        t1.word_freq(w) >= 1,
        forall|s: Seq<u8>| t2.word_freq(s) == t1.word_freq(s) + (if s == w && w.len() > 0 {
            1nat
        } else {
            0nat
        }),
        t2.spec_word_count() as nat == t1.spec_word_count() as nat + (if w.len() > 0
            && t1.word_freq(w) == 0 {
            1nat
        } else {
            0nat
        }),
        t2.spec_node_count() as nat + t1.stored_prefix_len(w) == t1.spec_node_count() as nat
            + w.len(),
    ensures
        t2.spec_node_count() == t1.spec_node_count(),
        t2.spec_word_count() == t1.spec_word_count(),
        t2.word_freq(w) == t1.word_freq(w) + 1,
{
    lemma_freq_path(t1.spec_root(), w);
    lemma_stem_le(t1.spec_root(), w);
    lemma_stem_char(t1.spec_root(), w, w.len() as int);
    assert(w.take(w.len() as int) =~= w);
    assert(t1.spec_root().stem(w) == w.len());
    lemma_stored_prefix_agrees(t1, w, 0);
}

/// Inserting a word into an empty dictionary stores it with frequency one.
/// `t0` is the empty dictionary and `t1` the dictionary after the insertion,
/// related as `Trie::new` and `Trie::add` promise.
pub proof fn lemma_first_insert_frequency(t0: Trie, t1: Trie, w: Seq<u8>)
    requires
        forall|s: Seq<u8>| t0.word_freq(s) == 0,
        w.len() > 0,
        forall|s: Seq<u8>| t1.word_freq(s) == t0.word_freq(s) + (if s == w && w.len() > 0 {
            1nat
        } else {
            0nat
        }),
    ensures
        t1.word_freq(w) == 1,
{
}

/// Inserting the same word twice gives it frequency two, and the second
/// insertion leaves the distinct-word count unchanged.  `t0` is the empty
/// dictionary and `t1`, `t2` the dictionaries after the first and second
/// insertion, related as `Trie::add` promises.
pub proof fn lemma_reinsert_keeps_word_count(t0: Trie, t1: Trie, t2: Trie, w: Seq<u8>)
    requires
        forall|s: Seq<u8>| t0.word_freq(s) == 0,
        w.len() > 0,
        forall|s: Seq<u8>| t1.word_freq(s) == t0.word_freq(s) + (if s == w && w.len() > 0 {
            1nat
        } else {
            0nat
        }),
        t1.spec_word_count() as nat == t0.spec_word_count() as nat + (if w.len() > 0
            && t0.word_freq(w) == 0 {
            1nat
        } else {
            0nat
        }),
        forall|s: Seq<u8>| t2.word_freq(s) == t1.word_freq(s) + (if s == w && w.len() > 0 {
            1nat
        } else {
            0nat
        }),
        t2.spec_word_count() as nat == t1.spec_word_count() as nat + (if w.len() > 0
            && t1.word_freq(w) == 0 {
            1nat
        } else {
            0nat
        }),
    ensures
        t2.word_freq(w) == 2,
        t2.spec_word_count() == t1.spec_word_count(),
{
    assert(t1.word_freq(w) == 1);
}

impl Trie {
    /// The first `k` words rendered one per line: a newline between
    /// neighbouring words, none at either end.
    pub open spec fn render_upto(ws: Seq<Seq<u8>>, k: int) -> Seq<char>
        decreases k,
    {
        if k <= 0 {
            Seq::empty()
        } else if k == 1 {
            crate::letters::word_chars(ws[0])
        } else {
            Self::render_upto(ws, k - 1) + seq!['\n'] + crate::letters::word_chars(ws[k - 1])
        }
    }

    /// The listing of the dictionary: every stored word, spelled lowercase,
    /// in depth-first letter-ascending order, one per line.
    pub open spec fn spec_listing(self) -> Seq<char> {
        Self::render_upto(
            self.spec_root().word_list(Seq::empty()),
            self.spec_root().word_list(Seq::empty()).len() as int,
        )
    }

    /// Renders the listing of the dictionary.
    pub fn to_string(&self) -> (r: String)
        requires
            self.wf(),
        ensures
            r@ == self.spec_listing(),
    {
        let ghost wl = self.spec_root().word_list(Seq::<u8>::empty());
        let mut words: Vec<Vec<u8>> = Vec::new();
        let mut prefix: Vec<u8> = Vec::new();
        Node::collect_words(&self.root, &mut prefix, &mut words);
        proof {
            assert forall|j: int| 0 <= j < wl.len() implies #[trigger] words@[j]@ == wl[j]
                && valid_word(words@[j]@) by {
                assert(words@[0 + j]@ == wl[j]);
                assert(valid_word(words@[0 + j]@));
            }
        }
        let mut out = String::new();
        let mut k: usize = 0;
        while k < words.len()
            invariant
                0 <= k <= words@.len(),
                words@.len() == wl.len(),
                forall|j: int| 0 <= j < wl.len()
                    ==> #[trigger] words@[j]@ == wl[j] && valid_word(words@[j]@),
                out@ == Self::render_upto(wl, k as int),
            decreases words@.len() - k,
        {
            if k > 0 {
                out.append("\n");
                proof {
                    reveal_strlit("\n");
                    assert("\n"@ =~= seq!['\n']);
                }
            }
            let line = crate::letters::word_to_string(&words[k]);
            out.append(line.as_str());
            k = k + 1;
            proof {
                assert(out@ =~= Self::render_upto(wl, k as int));
            }
        }
        proof {
            assert(out@ == Self::render_upto(wl, wl.len() as int));
            assert(self.spec_listing() == Self::render_upto(wl, wl.len() as int));
        }
        out
    }
}

/// The occupied-slot index sum is small: at most 26 for each slot from `i`
/// on.
proof fn lemma_index_sum_range(s: Seq<Option<Box<Node>>>, i: int)
    requires
        0 <= i,
        s.len() <= 26,
    ensures
        0 <= Trie::index_sum(s, i),
        Trie::index_sum(s, i) <= 26 * (if i <= s.len() {
            s.len() - i
        } else {
            0
        }),
        Trie::index_sum(s, i) <= 676,
    decreases s.len() - i,
{
    if i < s.len() {
        lemma_index_sum_range(s, i + 1);
    }
}

impl Trie {
    /// The sum of the letter indices of the occupied slots `i` and later.
    pub open spec fn index_sum(s: Seq<Option<Box<Node>>>, i: int) -> int
        decreases s.len() - i,
    {
        if i < 0 || i >= s.len() {
            0
        } else {
            (if s[i] is Some {
                i
            } else {
                0
            }) + Self::index_sum(s, i + 1)
        }
    }

    /// The hash of a dictionary: the index sum of the root's occupied slots,
    /// or-ed with the bitwise and of the node and word counters.
    pub open spec fn spec_hash(self) -> i32 {
        (Self::index_sum(self.spec_root().spec_children(), 0) as i32) | ((
        self.spec_node_count() as i32) & (self.spec_word_count() as i32))
    }

    /// Computes the hash of the dictionary.
    pub fn hash_code(&self) -> (r: i32)
        requires
            self.wf(),
        ensures
            r == self.spec_hash(),
    {
        let ghost s = self.spec_root().spec_children();
        let mut sum: i32 = 0;
        let mut i: usize = 0;
        proof {
            lemma_index_sum_range(s, 0);
        }
        while i < ALPHABET as usize
            invariant
                0 <= i <= ALPHABET as usize,
                self.wf(),
                s == self.spec_root().spec_children(),
                sum + Self::index_sum(s, i as int) == Self::index_sum(s, 0),
                0 <= Self::index_sum(s, 0) <= 676,
                0 <= Self::index_sum(s, i as int) <= 676,
            decreases ALPHABET as usize - i,
        {
            proof {
                lemma_index_sum_range(s, i as int + 1);
            }
            if self.root.children[i].is_some() {
                sum = sum + i as i32;
            }
            i = i + 1;
        }
        sum | ((self.num_nodes as i32) & (self.num_words as i32))
    }
}

} // verus!
