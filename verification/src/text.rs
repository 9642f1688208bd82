//! Characters, words and blank lines of text.
use vstd::prelude::*;
use vstd::utf8::*;

verus! {

/// Whether `c` is white space: one of the characters to which Unicode gives
/// the property `White_Space`.
pub open spec fn is_space(c: char) -> bool {
    let u = c as u32;
    ||| 0x09 <= u <= 0x0D
    ||| u == 0x20
    ||| u == 0x85
    ||| u == 0xA0
    ||| u == 0x1680
    ||| 0x2000 <= u <= 0x200A
    ||| u == 0x2028
    ||| u == 0x2029
    ||| u == 0x202F
    ||| u == 0x205F
    ||| u == 0x3000
}

/// Whether a word starts at index `i` of `text`: with a character that is no
/// white space, at the start of the text or behind white space.
pub open spec fn starts_word(text: Seq<char>, i: int) -> bool {
    !is_space(text[i]) && (i == 0 || is_space(text[i - 1]))
}

/// The number of words of `text`. A word is a stretch of characters that are
/// no white space and that reaches as far as it can to both sides.
pub open spec fn word_count(text: Seq<char>) -> nat
    decreases text.len(),
{
    if text.len() == 0 {
        0
    } else {
        word_count(text.drop_last()) + if starts_word(text, text.len() - 1) {
            1nat
        } else {
            0nat
        }
    }
}

/// Whether `text` is blank: it holds nothing but white space.
pub open spec fn is_blank(text: Seq<char>) -> bool {
    forall|i: int| 0 <= i < text.len() ==> is_space(#[trigger] text[i])
}

/// There are no more words than characters.
pub proof fn lemma_word_count_bound(text: Seq<char>)
    ensures
        word_count(text) <= text.len(),
    decreases text.len(),
{
    if text.len() > 0 {
        lemma_word_count_bound(text.drop_last());
    }
}

/// The words of two texts one after the other are the words of the first and
/// the words of the second, where the first ends with white space or is
/// empty: no word reaches from one into the other.
pub proof fn lemma_word_count_concat(a: Seq<char>, b: Seq<char>)
    requires
        a.len() == 0 || is_space(a.last()),
    ensures
        word_count(a + b) == word_count(a) + word_count(b),
    decreases b.len(),
{
    if b.len() == 0 {
        assert(a + b =~= a);
    } else {
        lemma_word_count_concat(a, b.drop_last());
        assert((a + b).drop_last() =~= a + b.drop_last());
        let i = b.len() - 1;
        assert((a + b)[a.len() + i] == b[i]);
        if i > 0 {
            assert((a + b)[a.len() + i - 1] == b[i - 1]);
        } else if a.len() > 0 {
            assert((a + b)[a.len() - 1] == a.last());
        }
    }
}

/// Text takes at least one byte for each character.
pub proof fn lemma_encoded_len(text: Seq<char>)
    ensures
        text.len() <= encode_utf8(text).len(),
    decreases text.len(),
{
    if text.len() > 0 {
        lemma_encoded_len(text.drop_first());
    }
}

/// Whether `c` is white space.
pub fn is_whitespace(c: char) -> (space: bool)
    ensures
        space == is_space(c),
{
    let u: u32 = c as u32;
    (0x09 <= u && u <= 0x0D) || u == 0x20 || u == 0x85 || u == 0xA0 || u == 0x1680 || (0x2000 <= u
        && u <= 0x200A) || u == 0x2028 || u == 0x2029 || u == 0x202F || u == 0x205F || u == 0x3000
}

/// The numbers of words and of characters of `text`, in this order.
pub fn measure(text: &str) -> (sizes: (usize, usize))
    ensures
        sizes.0 == word_count(text@),
        sizes.1 == text@.len(),
{
    let limit = text.as_bytes().len();
    proof {
        lemma_encoded_len(text@);
    }
    let mut words: usize = 0;
    let mut chars: usize = 0;
    let mut in_word = false;
    for c in it: text.chars()
        invariant
            it.seq() == text@,
            text@.len() <= limit,
            chars == it.index(),
            words == word_count(text@.take(it.index())),
            words <= chars,
            in_word == (it.index() > 0 && !is_space(text@[it.index() - 1])),
    {
        let ghost before = text@.take(it.index());
        let ghost now = text@.take(it.index() + 1);
        proof {
            assert(now.drop_last() =~= before);
        }
        let space = is_whitespace(c);
        if !space && !in_word {
            words += 1;
        }
        in_word = !space;
        chars += 1;
    }
    proof {
        assert(text@.take(text@.len() as int) =~= text@);
    }
    (words, chars)
}

/// Whether `text` is blank.
pub fn is_blank_text(text: &str) -> (blank: bool)
    ensures
        blank == is_blank(text@),
{
    let mut blank = true;
    for c in it: text.chars()
        invariant
            it.seq() == text@,
            blank == is_blank(text@.take(it.index())),
    {
        let ghost before = text@.take(it.index());
        let ghost now = text@.take(it.index() + 1);
        proof {
            if is_blank(before) && is_space(c) {
                assert forall|i: int| 0 <= i < now.len() implies is_space(#[trigger] now[i]) by {
                    if i < before.len() {
                        assert(now[i] == before[i]);
                    }
                }
            } else if !is_space(c) {
                assert(now[it.index()] == c);
            } else {
                let i = choose|i: int| 0 <= i < before.len() && !is_space(#[trigger] before[i]);
                assert(now[i] == before[i]);
            }
        }
        blank = blank && is_whitespace(c);
    }
    proof {
        assert(text@.take(text@.len() as int) =~= text@);
    }
    blank
}

} // verus!
