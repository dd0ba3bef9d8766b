//! Greedy dictionary segmentation.
//!
//! A single left-to-right pass over the input.  At each position the
//! trie is asked for all dictionary words that are prefixes of the
//! remaining text; if any exist the shortest one is emitted as a token
//! (the first match recorded by the walk).  Otherwise one character is
//! emitted as a fallback token, together with an immediately following
//! combining mark from the fixed Thai tone/vowel-mark set, so that a
//! mark is never separated from its base character.

use vstd::prelude::*;
use vstd::seq_lib::*;
use crate::trie::Trie;

verus! {

/// The fixed set of Thai combining tone/vowel marks that must never be
/// split from their base character when neither forms a dictionary
/// word on its own.
pub open spec fn is_combining_mark(c: char) -> bool {
    c == '\u{0e47}' || c == '\u{0e48}' || c == '\u{0e49}' || c == '\u{0e4a}' || c == '\u{0e4b}'
}

/// Runtime test for [`is_combining_mark`].
pub fn combining_mark(c: char) -> (b: bool)
    ensures
        b == is_combining_mark(c),
{
    c == '\u{0e47}' || c == '\u{0e48}' || c == '\u{0e49}' || c == '\u{0e4a}' || c == '\u{0e4b}'
}

/// The token sequence that greedy segmentation of `text` against the
/// dictionary `t` produces.  At each step, the shortest matching
/// dictionary prefix is consumed; with no match, one character is
/// consumed, or two when the second is a combining mark.
pub open spec fn segmentation(t: Trie, text: Seq<char>) -> Seq<Seq<char>>
    decreases text.len(),
{
    if text.len() == 0 {
        Seq::empty()
    } else {
        let l = t.first_match_len(text);
        if 1 <= l <= text.len() {
            seq![text.take(l)] + segmentation(t, text.skip(l))
        } else if text.len() >= 2 && is_combining_mark(text[1]) {
            seq![text.take(2)] + segmentation(t, text.skip(2))
        } else {
            seq![text.take(1)] + segmentation(t, text.skip(1))
        }
    }
}

/// Concatenating the tokens of `segmentation` reproduces the input
/// exactly: no characters are dropped, added, or reordered.
pub proof fn lemma_segmentation_round_trip(t: Trie, text: Seq<char>)
    ensures
        segmentation(t, text).flatten() == text,
    decreases text.len(),
{
    if text.len() == 0 {
        assert(segmentation(t, text).flatten() =~= text);
    } else {
        let l = t.first_match_len(text);
        let k: int = if 1 <= l <= text.len() {
            l
        } else if text.len() >= 2 && is_combining_mark(text[1]) {
            2
        } else {
            1
        };
        let s = segmentation(t, text);
        assert(s == seq![text.take(k)] + segmentation(t, text.skip(k)));
        lemma_segmentation_round_trip(t, text.skip(k));
        assert(s.len() > 0);
        assert(s.first() == text.take(k));
        assert(s.drop_first() =~= segmentation(t, text.skip(k)));
        assert(s.flatten() == s.first() + s.drop_first().flatten());
        assert(text.take(k) + text.skip(k) =~= text);
    }
}

/// The segmentation of the empty input is the empty token list.
pub proof fn lemma_segmentation_empty(t: Trie)
    ensures
        segmentation(t, Seq::<char>::empty()) == Seq::<Seq<char>>::empty(),
{
}

/// When no prefix of `text` is a dictionary word and the second
/// character is a combining mark, the fallback token keeps the mark
/// attached to its base character: the first emitted token is the
/// two-character prefix.
pub proof fn lemma_unmatched_mark_merged(t: Trie, text: Seq<char>)
    requires
        text.len() >= 2,
        forall|l: int| 1 <= l <= text.len() ==> !t.holds_word(#[trigger] text.take(l)),
        is_combining_mark(text[1]),
    ensures
        segmentation(t, text).len() > 0,
        segmentation(t, text)[0] == text.take(2),
{
    Trie::lemma_no_prefix_match(t, text, 1);
    assert(segmentation(t, text) == seq![text.take(2)] + segmentation(t, text.skip(2)));
}

/// Two tries holding the same words segment every text identically:
/// segmentation depends on the dictionary only through which words it
/// holds.
pub proof fn lemma_same_words_same_segmentation(a: Trie, b: Trie, text: Seq<char>)
    requires
        forall|w: Seq<char>| a.holds_word(w) <==> b.holds_word(w),
    ensures
        segmentation(a, text) == segmentation(b, text),
    decreases text.len(),
{
    if text.len() > 0 {
        Trie::lemma_same_words_same_match_len(a, b, text, 1);
        let l = a.first_match_len(text);
        let k: int = if 1 <= l <= text.len() {
            l
        } else if text.len() >= 2 && is_combining_mark(text[1]) {
            2
        } else {
            1
        };
        lemma_same_words_same_segmentation(a, b, text.skip(k));
    }
}

/// Segment `text` against the dictionary in `trie`.
///
/// A single pass: at each position the shortest dictionary prefix of
/// the remaining text is emitted as a token; where none matches, a
/// one-character fallback token is emitted, extended to two characters
/// when the next character is a combining mark.  Every input yields a
/// complete token list whose concatenation is exactly `text`; the
/// empty input yields the empty list.
pub fn segment_thai_text(text: &str, trie: &Trie) -> (r: Vec<String>)
    requires
        trie.wf(),
    ensures
        r@.map_values(|s: String| s@) == segmentation(*trie, text@),
        r@.map_values(|s: String| s@).flatten() == text@,
        text@.len() == 0 ==> r@.len() == 0,
{
    let n = text.unicode_len();
    let mut result: Vec<String> = Vec::new();
    let mut i: usize = 0;
    proof {
        assert(text@.skip(0) =~= text@);
        assert(result@.map_values(|s: String| s@) + segmentation(*trie, text@) =~= segmentation(
            *trie,
            text@,
        ));
    }
    while i < n
        invariant
            i <= n,
            n == text@.len(),
            trie.wf(),
            segmentation(*trie, text@) == result@.map_values(|s: String| s@) + segmentation(
                *trie,
                text@.skip(i as int),
            ),
        decreases n - i,
    {
        let ghost i0 = i as int;
        let ghost tail = text@.skip(i0);
        let ghost prev = result@;
        let rest = text.substring_char(i, n);
        proof {
            assert(rest@ =~= tail);
        }
        match trie.search_longest_prefix(rest) {
            Some(found) => {
                let word: String = found[0].clone();
                proof {
                    Trie::lemma_match_list_first(*trie, tail, 1);
                    assert(found@.map_values(|s: String| s@)[0] == word@);
                }
                let ghost m = trie.first_match_len(tail);
                let wl = word.as_str().unicode_len();
                result.push(word);
                i += wl;
                proof {
                    assert(word@ == tail.take(m));
                    assert(wl == m);
                    assert(segmentation(*trie, tail) == seq![tail.take(m)] + segmentation(
                        *trie,
                        tail.skip(m),
                    ));
                    assert(tail.skip(m) =~= text@.skip(i as int));
                    assert(result@.map_values(|s: String| s@) =~= prev.map_values(|s: String| s@)
                        + seq![tail.take(m)]);
                    assert(prev.map_values(|s: String| s@) + (seq![tail.take(m)] + segmentation(
                        *trie,
                        text@.skip(i as int),
                    )) =~= result@.map_values(|s: String| s@) + segmentation(
                        *trie,
                        text@.skip(i as int),
                    ));
                }
            },
            None => {
                proof {
                    Trie::lemma_match_list_first(*trie, tail, 1);
                    assert(trie.first_match_len(tail) == 0);
                }
                if i + 1 < n && combining_mark(text.get_char(i + 1)) {
                    let tok = text.substring_char(i, i + 2);
                    result.push(tok.to_owned());
                    i += 2;
                    proof {
                        assert(tail[1] == text@[i0 + 1]);
                        assert(tail.len() >= 2);
                        assert(segmentation(*trie, tail) == seq![tail.take(2)] + segmentation(
                            *trie,
                            tail.skip(2),
                        ));
                        assert(tok@ =~= tail.take(2));
                        assert(tail.skip(2) =~= text@.skip(i as int));
                        assert(result@.map_values(|s: String| s@) =~= prev.map_values(
                            |s: String| s@,
                        ) + seq![tail.take(2)]);
                        assert(prev.map_values(|s: String| s@) + (seq![tail.take(2)]
                            + segmentation(*trie, text@.skip(i as int))) =~= result@.map_values(
                            |s: String| s@,
                        ) + segmentation(*trie, text@.skip(i as int)));
                    }
                } else {
                    let tok = text.substring_char(i, i + 1);
                    result.push(tok.to_owned());
                    i += 1;
                    proof {
                        if tail.len() >= 2 {
                            assert(tail[1] == text@[i0 + 1]);
                            assert(!is_combining_mark(tail[1]));
                        }
                        assert(segmentation(*trie, tail) == seq![tail.take(1)] + segmentation(
                            *trie,
                            tail.skip(1),
                        ));
                        assert(tok@ =~= tail.take(1));
                        assert(tail.skip(1) =~= text@.skip(i as int));
                        assert(result@.map_values(|s: String| s@) =~= prev.map_values(
                            |s: String| s@,
                        ) + seq![tail.take(1)]);
                        assert(prev.map_values(|s: String| s@) + (seq![tail.take(1)]
                            + segmentation(*trie, text@.skip(i as int))) =~= result@.map_values(
                            |s: String| s@,
                        ) + segmentation(*trie, text@.skip(i as int)));
                    }
                }
            },
        }
    }
    proof {
        assert(text@.skip(n as int) =~= Seq::<char>::empty());
        assert(segmentation(*trie, text@.skip(n as int)) == Seq::<Seq<char>>::empty());
        assert(result@.map_values(|s: String| s@) + Seq::<Seq<char>>::empty()
            =~= result@.map_values(|s: String| s@));
        lemma_segmentation_round_trip(*trie, text@);
    }
    result
}

} // verus!

