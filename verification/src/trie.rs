//! A dictionary trie keyed by character.
//!
//! Each node stores its outgoing edges as two parallel vectors, one of
//! edge labels and one of child nodes, plus a flag marking whether the
//! path from the root to the node spells a complete dictionary word.

use vstd::prelude::*;

verus! {

/// Index of the first occurrence of `c` in `keys`, or `-1` if absent.
spec fn key_index(keys: Seq<char>, c: char) -> int
    decreases keys.len(),
{
    if keys.len() == 0 {
        -1
    } else if keys[0] == c {
        0
    } else if key_index(keys.drop_first(), c) < 0 {
        -1
    } else {
        key_index(keys.drop_first(), c) + 1
    }
}

/// One node of the trie: parallel vectors of edge labels and child
/// nodes, and an end-of-word flag.
pub struct TrieNode {
    keys: Vec<char>,
    children: Vec<TrieNode>,
    is_end_of_word: bool,
}

/// A dictionary trie owning a single root node, which represents the
/// empty prefix.
pub struct Trie {
    root: TrieNode,
}

impl TrieNode {
    /// Well-formedness: the two edge vectors run in parallel, edge
    /// labels are unique within a node (shared prefixes are merged
    /// into a single path), and every child is well-formed in turn.
    pub closed spec fn wf(self) -> bool
        decreases self,
    {
        &&& self.keys@.len() == self.children@.len()
        &&& (forall|i: int, j: int|
            0 <= i < j < self.keys@.len() ==> self.keys@[i] != self.keys@[j])
        &&& (forall|i: int|
            0 <= i < self.children@.len() ==> (#[trigger] self.children@[i]).wf())
    }

    /// The word `w` is in the subtree rooted at this node: walking its
    /// characters along matching edges ends at a node whose
    /// end-of-word flag is set.
    pub closed spec fn holds_word(self, w: Seq<char>) -> bool
        decreases w.len(),
    {
        if w.len() == 0 {
            self.is_end_of_word
        } else {
            let ki = key_index(self.keys@, w[0]);
            if ki >= 0 {
                self.children@[ki].holds_word(w.drop_first())
            } else {
                false
            }
        }
    }

    /// `key_index` returns either `-1` or the position of `c`.
    proof fn lemma_key_index_props(keys: Seq<char>, c: char)
        ensures
            key_index(keys, c) >= 0 ==> key_index(keys, c) < keys.len() && keys[key_index(
                keys,
                c,
            )] == c,
            key_index(keys, c) >= -1,
        decreases keys.len(),
    {
        if keys.len() > 0 && keys[0] != c {
            Self::lemma_key_index_props(keys.drop_first(), c);
        }
    }

    /// If `c` first occurs at position `j`, `key_index` returns `j`.
    proof fn lemma_key_index_first(keys: Seq<char>, c: char, j: int)
        requires
            0 <= j < keys.len(),
            keys[j] == c,
            forall|m: int| 0 <= m < j ==> keys[m] != c,
        ensures
            key_index(keys, c) == j,
        decreases keys.len(),
    {
        if j > 0 {
            Self::lemma_key_index_first(keys.drop_first(), c, j - 1);
        }
    }

    /// If `c` occurs nowhere in `keys`, `key_index` returns `-1`.
    proof fn lemma_key_index_none(keys: Seq<char>, c: char)
        requires
            forall|m: int| 0 <= m < keys.len() ==> keys[m] != c,
        ensures
            key_index(keys, c) == -1,
        decreases keys.len(),
    {
        if keys.len() > 0 {
            Self::lemma_key_index_none(keys.drop_first(), c);
        }
    }

    /// Appending a fresh label leaves earlier lookups unchanged and
    /// makes the new label found at the end.
    proof fn lemma_key_index_push(keys: Seq<char>, c: char, d: char)
        ensures
            key_index(keys.push(c), d) == if key_index(keys, d) >= 0 {
                key_index(keys, d)
            } else if d == c {
                keys.len() as int
            } else {
                -1
            },
        decreases keys.len(),
    {
        Self::lemma_key_index_props(keys, d);
        let p = keys.push(c);
        assert(p.len() == keys.len() + 1);
        if keys.len() == 0 {
            assert(p[0] == c);
            if d == c {
                assert(key_index(p, d) == 0);
            } else {
                assert(p.drop_first() =~= Seq::<char>::empty());
                assert(key_index(p.drop_first(), d) == -1);
                assert(key_index(p, d) == -1);
            }
        } else {
            assert(p[0] == keys[0]);
            if keys[0] == d {
                assert(key_index(p, d) == 0);
                assert(key_index(keys, d) == 0);
            } else {
                let kdf = keys.drop_first();
                assert(p.drop_first() =~= kdf.push(c));
                Self::lemma_key_index_push(kdf, c, d);
                Self::lemma_key_index_props(kdf, d);
                if key_index(kdf, d) >= 0 {
                    assert(key_index(p.drop_first(), d) == key_index(kdf, d));
                    assert(key_index(p, d) == key_index(kdf, d) + 1);
                    assert(key_index(keys, d) == key_index(kdf, d) + 1);
                } else if d == c {
                    assert(key_index(p.drop_first(), d) == kdf.len() as int);
                    assert(key_index(p, d) == kdf.len() + 1);
                    assert(key_index(keys, d) == -1);
                } else {
                    assert(key_index(p.drop_first(), d) == -1);
                    assert(key_index(p, d) == -1);
                    assert(key_index(keys, d) == -1);
                }
            }
        }
    }

    /// Two non-empty sequences with the same head and the same tail
    /// are equal.
    proof fn lemma_cons_eq(a: Seq<char>, b: Seq<char>)
        requires
            a.len() > 0,
            b.len() > 0,
            a[0] == b[0],
            a.drop_first() == b.drop_first(),
        ensures
            a == b,
    {
        assert(a.drop_first().len() == a.len() - 1);
        assert(b.drop_first().len() == b.len() - 1);
        assert forall|k: int| 0 <= k < a.len() implies a[k] == b[k] by {
            if k > 0 {
                assert(a[k] == a.drop_first()[k - 1]);
                assert(b[k] == b.drop_first()[k - 1]);
            }
        }
        assert(a =~= b);
    }

    /// Every child of a well-formed node is well-formed.
    proof fn lemma_wf_child(t: TrieNode, j: int)
        requires
            t.wf(),
            0 <= j < t.children@.len(),
        ensures
            t.children@[j].wf(),
    {
        assert(0 <= j < t.children@.len());
    }

    /// Insert the suffix of `word` that starts at `i` into this
    /// subtree, creating one node per remaining character and setting
    /// the end-of-word flag on the last.  The words held afterwards
    /// are exactly the words held before plus that suffix.
    fn insert_from(&mut self, word: &Vec<char>, i: usize)
        requires
            old(self).wf(),
            i <= word@.len(),
        ensures
            final(self).wf(),
            forall|w: Seq<char>|
                final(self).holds_word(w) <==> (old(self).holds_word(w) || w == word@.skip(
                    i as int,
                )),
        decreases word@.len() - i,
    {
        if i == word.len() {
            self.is_end_of_word = true;
            proof {
                assert(word@.skip(i as int) =~= Seq::<char>::empty());
                assert forall|w: Seq<char>|
                    self.holds_word(w) <==> (old(self).holds_word(w) || w == word@.skip(
                        i as int,
                    )) by {
                    if w.len() == 0 {
                        assert(w =~= word@.skip(i as int));
                    } else {
                        let ki = key_index(self.keys@, w[0]);
                        assert(self.keys@ == old(self).keys@);
                        assert(key_index(old(self).keys@, w[0]) == ki);
                        if ki >= 0 {
                            Self::lemma_key_index_props(self.keys@, w[0]);
                            assert(self.children@[ki] == old(self).children@[ki]);
                        }
                        assert(self.holds_word(w) == old(self).holds_word(w));
                        assert(w != word@.skip(i as int));
                    }
                }
            }
        } else {
            let c = word[i];
            let ghost old_self = *old(self);
            // Linear scan for an existing edge labelled `c`.
            let mut j: usize = 0;
            while j < self.keys.len() && self.keys[j] != c
                invariant
                    j <= self.keys@.len(),
                    forall|m: int| 0 <= m < j ==> self.keys@[m] != c,
                    *self == old_self,
                decreases self.keys@.len() - j,
            {
                j += 1;
            }
            if j < self.keys.len() {
                proof {
                    Self::lemma_key_index_first(self.keys@, c, j as int);
                    Self::lemma_wf_child(old_self, j as int);
                }
                let mut child = self.children.remove(j);
                child.insert_from(word, i + 1);
                self.children.insert(j, child);
                proof {
                    assert(self.children@ =~= old_self.children@.update(
                        j as int,
                        self.children@[j as int],
                    ));
                    Self::lemma_insert_update(
                        old_self,
                        *self,
                        old_self.children@[j as int],
                        self.children@[j as int],
                        word@,
                        i as int,
                        j as int,
                    );
                }
            } else {
                proof {
                    Self::lemma_key_index_none(self.keys@, c);
                }
                let mut child = TrieNode::new();
                child.insert_from(word, i + 1);
                self.keys.push(c);
                self.children.push(child);
                proof {
                    Self::lemma_insert_fresh(
                        old_self,
                        *self,
                        self.children@.last(),
                        word@,
                        i as int,
                    );
                }
            }
        }
    }

    /// The characterization of `insert_from` in the case where the
    /// child at position `j` (labelled `word[i]`) was replaced.
    proof fn lemma_insert_update(
        pre: TrieNode,
        post: TrieNode,
        old_child: TrieNode,
        new_child: TrieNode,
        word: Seq<char>,
        i: int,
        j: int,
    )
        requires
            pre.wf(),
            0 <= i < word.len(),
            0 <= j < pre.keys@.len(),
            key_index(pre.keys@, word[i]) == j,
            post.keys@ == pre.keys@,
            post.children@ == pre.children@.update(j, new_child),
            post.is_end_of_word == pre.is_end_of_word,
            old_child == pre.children@[j],
            new_child.wf(),
            forall|w: Seq<char>|
                new_child.holds_word(w) <==> (old_child.holds_word(w) || w == word.skip(i + 1)),
        ensures
            post.wf(),
            forall|w: Seq<char>|
                post.holds_word(w) <==> (pre.holds_word(w) || w == word.skip(i)),
    {
        let c = word[i];
        let sfx = word.skip(i);
        assert(sfx.len() == word.len() - i);
        assert(sfx[0] == c);
        assert(sfx.drop_first() =~= word.skip(i + 1));
        Self::lemma_key_index_props(pre.keys@, c);
        assert(pre.keys@[j] == c);
        assert forall|m: int| 0 <= m < post.children@.len() implies (#[trigger] post.children@[m]).wf()
            by {
            if m != j {
                assert(post.children@[m] == pre.children@[m]);
            }
        }
        assert forall|w: Seq<char>|
            post.holds_word(w) <==> (pre.holds_word(w) || w == sfx) by {
            if w.len() == 0 {
                assert(w != sfx);
                assert(post.holds_word(w) == pre.holds_word(w));
            } else {
                let ki = key_index(post.keys@, w[0]);
                Self::lemma_key_index_props(post.keys@, w[0]);
                if w[0] == c {
                    assert(ki == j);
                    assert(post.children@[j] == new_child);
                    assert(post.holds_word(w) == new_child.holds_word(w.drop_first()));
                    assert(pre.holds_word(w) == old_child.holds_word(w.drop_first()));
                    assert(new_child.holds_word(w.drop_first()) <==> (old_child.holds_word(
                        w.drop_first(),
                    ) || w.drop_first() == word.skip(i + 1)));
                    if w.drop_first() == word.skip(i + 1) {
                        Self::lemma_cons_eq(w, sfx);
                    }
                    if w == sfx {
                        assert(w.drop_first() == sfx.drop_first());
                    }
                } else {
                    if ki >= 0 {
                        assert(post.keys@[ki] == w[0]);
                        assert(ki != j);
                        assert(post.children@[ki] == pre.children@[ki]);
                    }
                    assert(post.holds_word(w) == pre.holds_word(w));
                    assert(w != sfx);
                }
            }
        }
    }

    /// The characterization of `insert_from` in the case where a fresh
    /// edge labelled `word[i]` was appended.
    proof fn lemma_insert_fresh(
        pre: TrieNode,
        post: TrieNode,
        new_child: TrieNode,
        word: Seq<char>,
        i: int,
    )
        requires
            pre.wf(),
            0 <= i < word.len(),
            key_index(pre.keys@, word[i]) == -1,
            forall|m: int| 0 <= m < pre.keys@.len() ==> pre.keys@[m] != word[i],
            post.keys@ == pre.keys@.push(word[i]),
            post.children@ == pre.children@.push(new_child),
            post.is_end_of_word == pre.is_end_of_word,
            new_child.wf(),
            forall|w: Seq<char>| new_child.holds_word(w) <==> w == word.skip(i + 1),
        ensures
            post.wf(),
            forall|w: Seq<char>|
                post.holds_word(w) <==> (pre.holds_word(w) || w == word.skip(i)),
    {
        let c = word[i];
        let sfx = word.skip(i);
        let n = pre.keys@.len() as int;
        assert(sfx.len() == word.len() - i);
        assert(sfx[0] == c);
        assert(sfx.drop_first() =~= word.skip(i + 1));
        assert forall|m: int| 0 <= m < post.children@.len() implies (#[trigger] post.children@[m]).wf()
            by {
            if m < n {
                assert(post.children@[m] == pre.children@[m]);
            }
        }
        assert forall|a: int, b: int|
            0 <= a < b < post.keys@.len() implies post.keys@[a] != post.keys@[b] by {
            if b == n {
                assert(pre.keys@[a] != c);
            }
        }
        assert forall|w: Seq<char>|
            post.holds_word(w) <==> (pre.holds_word(w) || w == sfx) by {
            if w.len() == 0 {
                assert(w != sfx);
                assert(post.holds_word(w) == pre.holds_word(w));
            } else {
                Self::lemma_key_index_push(pre.keys@, c, w[0]);
                let ki = key_index(post.keys@, w[0]);
                Self::lemma_key_index_props(pre.keys@, w[0]);
                if w[0] == c {
                    assert(ki == n);
                    assert(post.children@[n] == new_child);
                    assert(post.holds_word(w) == new_child.holds_word(w.drop_first()));
                    assert(key_index(pre.keys@, w[0]) == -1);
                    assert(!pre.holds_word(w));
                    assert(new_child.holds_word(w.drop_first()) <==> w.drop_first() == word.skip(
                        i + 1,
                    ));
                    if w.drop_first() == word.skip(i + 1) {
                        Self::lemma_cons_eq(w, sfx);
                    }
                    if w == sfx {
                        assert(w.drop_first() == sfx.drop_first());
                    }
                } else {
                    assert(w != sfx);
                    if key_index(pre.keys@, w[0]) >= 0 {
                        let m = key_index(pre.keys@, w[0]);
                        assert(ki == m);
                        assert(post.children@[m] == pre.children@[m]);
                        assert(post.holds_word(w) == pre.holds_word(w));
                    } else {
                        assert(ki == -1);
                        assert(!post.holds_word(w));
                        assert(!pre.holds_word(w));
                    }
                }
            }
        }
    }

    /// A fresh node: no children, flag unset, so no word is held.
    pub fn new() -> (n: TrieNode)
        ensures
            n.wf(),
            forall|w: Seq<char>| !n.holds_word(w),
    {
        let n = TrieNode { keys: Vec::new(), children: Vec::new(), is_end_of_word: false };
        proof {
            assert forall|w: Seq<char>| !n.holds_word(w) by {
                if w.len() > 0 {
                    assert(key_index(n.keys@, w[0]) == -1);
                }
            }
        }
        n
    }
}

/// The characters of `s`, one per Unicode scalar value.
fn chars_of(s: &str) -> (v: Vec<char>)
    ensures
        v@ == s@,
{
    let n = s.unicode_len();
    let mut v: Vec<char> = Vec::new();
    let mut k: usize = 0;
    while k < n
        invariant
            k <= n,
            n == s@.len(),
            v@ == s@.take(k as int),
        decreases n - k,
    {
        let c = s.get_char(k);
        v.push(c);
        k += 1;
        proof {
            assert(v@ =~= s@.take(k as int));
        }
    }
    proof {
        assert(s@.take(n as int) =~= s@);
    }
    v
}

impl Trie {
    /// Well-formedness of the whole trie.
    pub closed spec fn wf(self) -> bool {
        self.root.wf()
    }

    /// The word `w` is in the dictionary this trie was built from.
    pub closed spec fn holds_word(self, w: Seq<char>) -> bool {
        self.root.holds_word(w)
    }

    /// Length of the shortest prefix of `text` of length at least `l`
    /// that is a dictionary word, or `0` if there is none.
    pub open spec fn match_len_from(self, text: Seq<char>, l: int) -> int
        decreases text.len() - l + 1,
    {
        if l < 1 || l > text.len() {
            0
        } else if self.holds_word(text.take(l)) {
            l
        } else {
            self.match_len_from(text, l + 1)
        }
    }

    /// Length of the shortest non-empty prefix of `text` that is a
    /// dictionary word, or `0` if no prefix matches.
    pub open spec fn first_match_len(self, text: Seq<char>) -> int {
        self.match_len_from(text, 1)
    }

    /// The prefixes of `text` of length at least `l` that are
    /// dictionary words, ordered from shortest to longest.
    pub open spec fn match_list_from(self, text: Seq<char>, l: int) -> Seq<Seq<char>>
        decreases text.len() - l + 1,
    {
        if l < 1 || l > text.len() {
            Seq::empty()
        } else if self.holds_word(text.take(l)) {
            seq![text.take(l)] + self.match_list_from(text, l + 1)
        } else {
            self.match_list_from(text, l + 1)
        }
    }

    /// All non-empty prefixes of `text` that are dictionary words,
    /// ordered from shortest to longest.
    pub open spec fn prefix_matches(self, text: Seq<char>) -> Seq<Seq<char>> {
        self.match_list_from(text, 1)
    }

    /// An empty trie: no word is in it.
    pub fn new() -> (t: Trie)
        ensures
            t.wf(),
            forall|w: Seq<char>| !t.holds_word(w),
    {
        Trie { root: TrieNode::new() }
    }

    /// Insert a word into the trie.  Afterwards the trie holds exactly
    /// the words it held before plus `word`.  Inserting the empty
    /// string would create a degenerate zero-length token, so it is
    /// ignored; inserting a word already present changes nothing
    /// observable.
    pub fn insert(&mut self, word: &str)
        requires
            old(self).wf(),
        ensures
            final(self).wf(),
            word@.len() == 0 ==> *final(self) == *old(self),
            forall|w: Seq<char>|
                (#[trigger] final(self).holds_word(w)) <==> (old(self).holds_word(w) || (
                word@.len() > 0 && w == word@)),
    {
        let n = word.unicode_len();
        if n > 0 {
            let cs = chars_of(word);
            self.root.insert_from(&cs, 0);
            proof {
                assert(word@.skip(0) =~= word@);
            }
        }
    }

    /// The head of the match list is the shortest matching prefix:
    /// `match_list_from` and `match_len_from` agree.
    pub(crate) proof fn lemma_match_list_first(t: Trie, text: Seq<char>, l: int)
        requires
            1 <= l,
        ensures
            t.match_len_from(text, l) == 0 <==> t.match_list_from(text, l).len() == 0,
            t.match_len_from(text, l) != 0 ==> l <= t.match_len_from(text, l) <= text.len()
                && t.holds_word(text.take(t.match_len_from(text, l)))
                && t.match_list_from(text, l)[0] == text.take(t.match_len_from(text, l)),
        decreases text.len() - l + 1,
    {
        if 1 <= l <= text.len() && !t.holds_word(text.take(l)) {
            Self::lemma_match_list_first(t, text, l + 1);
        }
    }

    /// If no prefix of `text` with length in `[l, text.len()]` is a
    /// dictionary word, no match is found from `l` on.
    pub proof fn lemma_no_prefix_match(t: Trie, text: Seq<char>, l: int)
        requires
            1 <= l,
            forall|m: int| l <= m <= text.len() ==> !t.holds_word(#[trigger] text.take(m)),
        ensures
            t.match_len_from(text, l) == 0,
        decreases text.len() - l + 1,
    {
        if l <= text.len() {
            Self::lemma_no_prefix_match(t, text, l + 1);
        }
    }

    /// Inserting a word that the trie already holds changes nothing
    /// about which words it holds: a second insertion of the same word
    /// is invisible to every matching query.
    ///
    /// `t0` is a trie before, `t1` after one insertion of `word`, and
    /// `t2` after a second insertion of the same word, each step
    /// related as the contract of [`Trie::insert`] states.
    pub proof fn lemma_insert_idempotent(t0: Trie, t1: Trie, t2: Trie, word: Seq<char>)
        requires
            word.len() > 0,
            forall|w: Seq<char>| t1.holds_word(w) <==> (t0.holds_word(w) || w == word),
            forall|w: Seq<char>| t2.holds_word(w) <==> (t1.holds_word(w) || w == word),
        ensures
            forall|w: Seq<char>| t2.holds_word(w) <==> t1.holds_word(w),
    {
    }

    /// Two tries holding the same words find the same shortest match.
    pub proof fn lemma_same_words_same_match_len(a: Trie, b: Trie, text: Seq<char>, l: int)
        requires
            forall|w: Seq<char>| a.holds_word(w) <==> b.holds_word(w),
        ensures
            a.match_len_from(text, l) == b.match_len_from(text, l),
        decreases text.len() - l + 1,
    {
        if 1 <= l <= text.len() {
            assert(a.holds_word(text.take(l)) == b.holds_word(text.take(l)));
            if !a.holds_word(text.take(l)) {
                Self::lemma_same_words_same_match_len(a, b, text, l + 1);
            }
        }
    }

    /// Two tries holding the same words find the same prefix matches.
    pub proof fn lemma_same_words_same_matches(a: Trie, b: Trie, text: Seq<char>, l: int)
        requires
            forall|w: Seq<char>| a.holds_word(w) <==> b.holds_word(w),
        ensures
            a.match_list_from(text, l) == b.match_list_from(text, l),
        decreases text.len() - l + 1,
    {
        if 1 <= l <= text.len() {
            assert(a.holds_word(text.take(l)) == b.holds_word(text.take(l)));
            Self::lemma_same_words_same_matches(a, b, text, l + 1);
        }
    }

    /// If no prefix of `text` with length in `[l, text.len()]` is a
    /// dictionary word, the match list from `l` on is empty.
    proof fn lemma_match_list_empty(t: Trie, text: Seq<char>, l: int)
        requires
            1 <= l,
            forall|m: int| l <= m <= text.len() ==> !t.holds_word(#[trigger] text.take(m)),
        ensures
            t.match_list_from(text, l) == Seq::<Seq<char>>::empty(),
        decreases text.len() - l + 1,
    {
        if l <= text.len() {
            Self::lemma_match_list_empty(t, text, l + 1);
        }
    }

    /// Walk `text` from the root, recording the consumed prefix each
    /// time an end-of-word node is visited.  Returns all dictionary
    /// words that are prefixes of `text`, ordered from shortest to
    /// longest, or `None` if there are none.
    pub fn search_longest_prefix(&self, text: &str) -> (r: Option<Vec<String>>)
        requires
            self.wf(),
        ensures
            match r {
                None => self.prefix_matches(text@).len() == 0,
                Some(v) => v@.len() > 0 && v@.map_values(|s: String| s@) == self.prefix_matches(
                    text@,
                ),
            },
    {
        let n = text.unicode_len();
        let mut node: &TrieNode = &self.root;
        let mut found: Vec<String> = Vec::new();
        let mut k: usize = 0;
        while k < n
            invariant
                k <= n,
                n == text@.len(),
                self.wf(),
                node.wf(),
                forall|v: Seq<char>|
                    self.root.holds_word(text@.take(k as int) + v) == #[trigger] node.holds_word(
                        v,
                    ),
                self.match_list_from(text@, 1) == found@.map_values(|s: String| s@)
                    + self.match_list_from(text@, k + 1),
            ensures
                k <= n,
                n == text@.len(),
                self.match_list_from(text@, 1) == found@.map_values(|s: String| s@)
                    + self.match_list_from(text@, k + 1),
                self.match_list_from(text@, k + 1) == Seq::<Seq<char>>::empty(),
            decreases n - k,
        {
            let c = text.get_char(k);
            let mut j: usize = 0;
            while j < node.keys.len() && node.keys[j] != c
                invariant
                    j <= node.keys@.len(),
                    forall|m: int| 0 <= m < j ==> node.keys@[m] != c,
                decreases node.keys@.len() - j,
            {
                j += 1;
            }
            if j < node.keys.len() {
                proof {
                    TrieNode::lemma_key_index_first(node.keys@, c, j as int);
                    TrieNode::lemma_wf_child(*node, j as int);
                }
                let child: &TrieNode = &node.children[j];
                proof {
                    assert forall|v: Seq<char>|
                        self.root.holds_word(text@.take(k + 1) + v) == #[trigger] child.holds_word(
                            v,
                        ) by {
                        let u = seq![c] + v;
                        assert(u[0] == c);
                        assert(u.drop_first() =~= v);
                        assert(text@.take(k + 1) + v =~= text@.take(k as int) + u);
                        assert(node.holds_word(u) == child.holds_word(v));
                        assert(self.root.holds_word(text@.take(k as int) + u)
                            == node.holds_word(u));
                    }
                    assert(text@.take(k + 1) + Seq::<char>::empty() =~= text@.take(k + 1));
                    assert(child.holds_word(Seq::<char>::empty()) == child.is_end_of_word);
                    assert(self.root.holds_word(text@.take(k + 1)) == child.is_end_of_word);
                }
                let ghost prev = found@;
                if child.is_end_of_word {
                    let m = text.substring_char(0, k + 1);
                    found.push(m.to_owned());
                    proof {
                        assert(found@.last()@ =~= text@.take(k + 1));
                        assert(found@.map_values(|s: String| s@) =~= prev.map_values(
                            |s: String| s@,
                        ) + seq![text@.take(k + 1)]);
                        assert(prev.map_values(|s: String| s@) + (seq![text@.take(k + 1)]
                            + self.match_list_from(text@, k + 2)) =~= found@.map_values(
                            |s: String| s@,
                        ) + self.match_list_from(text@, k + 2));
                    }
                } else {
                    proof {
                        assert(self.match_list_from(text@, k + 1) == self.match_list_from(
                            text@,
                            k + 2,
                        ));
                    }
                }
                node = child;
                k += 1;
            } else {
                proof {
                    TrieNode::lemma_key_index_none(node.keys@, c);
                    assert forall|l: int|
                        k + 1 <= l <= n implies !self.holds_word(#[trigger] text@.take(l)) by {
                        let u = text@.subrange(k as int, l);
                        assert(text@.take(l) =~= text@.take(k as int) + u);
                        assert(u.len() == l - k);
                        assert(u[0] == text@[k as int]);
                        assert(!node.holds_word(u));
                        assert(self.root.holds_word(text@.take(k as int) + u) == node.holds_word(
                            u,
                        ));
                    }
                    Self::lemma_match_list_empty(*self, text@, k + 1);
                }
                break ;
            }
        }
        proof {
            assert(found@.map_values(|s: String| s@) + Seq::<Seq<char>>::empty()
                =~= found@.map_values(|s: String| s@));
        }
        if found.len() == 0 {
            None
        } else {
            Some(found)
        }
    }
}

} // verus!

