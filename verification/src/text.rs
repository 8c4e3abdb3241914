//! Text as it is measured and built for usage output.

use vstd::prelude::*;
use vstd::string::*;
use vstd::utf8::*;

verus! {

/// `String::push` appends the character to the end of the string.
pub assume_specification[ String::push ](s: &mut String, ch: char)
    ensures
        final(s)@ == old(s)@.push(ch),
;

/// The width of a text in columns: the number of bytes it takes in UTF-8.
pub open spec fn width(s: Seq<char>) -> nat {
    encode_utf8(s).len()
}

/// The width of a string.
pub fn text_width(s: &str) -> (n: usize)
    ensures
        n == width(s@),
{
    s.as_bytes().len()
}

/// A run of `n` spaces.
pub open spec fn spaces(n: nat) -> Seq<char> {
    Seq::new(n, |i: int| ' ')
}

/// Widths add up.
pub proof fn lemma_width_add(a: Seq<char>, b: Seq<char>)
    ensures
        width(a + b) == width(a) + width(b),
    decreases a.len(),
{
    if a.len() == 0 {
        assert(a + b =~= b);
    } else {
        assert((a + b).drop_first() =~= a.drop_first() + b);
        lemma_width_add(a.drop_first(), b);
    }
}

/// A character of the ASCII range is one column wide.
pub proof fn lemma_width_ascii(c: char)
    requires
        c as u32 <= 0x7f,
    ensures
        width(seq![c]) == 1,
{
    assert(seq![c].drop_first() =~= Seq::<char>::empty());
    assert(encode_utf8(Seq::<char>::empty()) =~= Seq::<u8>::empty());
    assert(seq![c][0] == c);
    assert(encode_utf8(seq![c]) =~= encode_scalar(c as u32));
}

/// A text with one more character is wider by that character.
pub proof fn lemma_width_push(a: Seq<char>, c: char)
    ensures
        width(a.push(c)) == width(a) + width(seq![c]),
{
    assert(a.push(c) =~= a + seq![c]);
    lemma_width_add(a, seq![c]);
}

/// A run of `n` spaces is `n` columns wide.
pub proof fn lemma_width_spaces(n: nat)
    ensures
        width(spaces(n)) == n,
    decreases n,
{
    if n == 0 {
        assert(spaces(0) =~= Seq::<char>::empty());
    } else {
        assert(spaces(n) =~= spaces((n - 1) as nat).push(' '));
        lemma_width_push(spaces((n - 1) as nat), ' ');
        lemma_width_ascii(' ');
        lemma_width_spaces((n - 1) as nat);
    }
}

/// Appends `n` spaces to `res`.
pub fn push_spaces(res: &mut String, n: usize)
    ensures
        final(res)@ == old(res)@ + spaces(n as nat),
{
    let mut i: usize = 0;
    assert(res@ =~= old(res)@ + spaces(0));
    while i < n
        invariant
            i <= n,
            res@ == old(res)@ + spaces(i as nat),
        decreases n - i,
    {
        res.push(' ');
        i += 1;
        assert(res@ =~= old(res)@ + spaces(i as nat));
    }
}

/// Whether a character separates words: the result of `char::is_whitespace`.
pub uninterp spec fn is_white_space(c: char) -> bool;

/// `char::is_whitespace` is a fixed property of the character.
pub assume_specification[ char::is_whitespace ](c: char) -> (b: bool)
    ensures
        b == is_white_space(c),
;

/// A text with a mark on each character that separates words.
pub open spec fn marked(text: Seq<char>) -> Seq<(char, bool)> {
    text.map_values(|c: char| (c, is_white_space(c)))
}

/// The words that end within `text`, and the word that `text` ends in the
/// middle of (empty if it ends between words).  A marked character
/// separates words.
pub open spec fn word_scan(text: Seq<(char, bool)>) -> (Seq<Seq<char>>, Seq<char>)
    decreases text.len(),
{
    if text.len() == 0 {
        (Seq::empty(), Seq::empty())
    } else {
        let (done, cur) = word_scan(text.drop_last());
        let (c, mark) = text.last();
        if !mark {
            (done, cur.push(c))
        } else if cur.len() > 0 {
            (done.push(cur), Seq::empty())
        } else {
            (done, cur)
        }
    }
}

/// The words of a marked text: its longest runs of characters without a
/// mark, in order.
pub open spec fn marked_words(text: Seq<(char, bool)>) -> Seq<Seq<char>> {
    let (done, cur) = word_scan(text);
    if cur.len() > 0 {
        done.push(cur)
    } else {
        done
    }
}

/// The words of a text: its longest runs of characters that are not white
/// space, in order.
pub open spec fn words(text: Seq<char>) -> Seq<Seq<char>> {
    marked_words(marked(text))
}

/// The texts that a list of strings holds.
pub open spec fn texts(v: Seq<String>) -> Seq<Seq<char>> {
    v.map_values(|w: String| w@)
}

/// Splits a text into words at the characters that are marked.
pub fn split_marked(text: &Vec<(char, bool)>) -> (r: Vec<String>)
    ensures
        texts(r@) == marked_words(text@),
{
    let mut done: Vec<String> = Vec::new();
    let mut cur = String::new();
    let mut i: usize = 0;
    assert(text@.take(0) =~= Seq::<(char, bool)>::empty());
    while i < text.len()
        invariant
            i <= text@.len(),
            (texts(done@), cur@) == word_scan(text@.take(i as int)),
        decreases text@.len() - i,
    {
        let (c, mark) = text[i];
        let ghost before = text@.take(i as int);
        let ghost after = text@.take(i + 1);
        proof {
            assert(after.drop_last() =~= before);
            assert(after.last() == (c, mark));
        }
        if !mark {
            cur.push(c);
        } else if !cur.as_str().is_empty() {
            let ghost word = cur@;
            done.push(cur);
            cur = String::new();
            assert(texts(done@) =~= word_scan(before).0.push(word));
        }
        i += 1;
    }
    assert(text@.take(text@.len() as int) =~= text@);
    if !cur.as_str().is_empty() {
        let ghost word = cur@;
        let ghost full = texts(done@);
        done.push(cur);
        assert(texts(done@) =~= full.push(word));
    }
    done
}

/// Marks the characters of a text that are white space.
pub fn mark_chars(text: &str) -> (r: Vec<(char, bool)>)
    ensures
        r@ == marked(text@),
{
    let mut chars: Vec<(char, bool)> = Vec::new();
    for c in it: text.chars()
        invariant
            it.seq() == text@,
            chars@ == marked(text@.take(it.index() as int)),
    {
        chars.push((c, c.is_whitespace()));
        assert(chars@ =~= marked(text@.take(it.index() + 1)));
    }
    assert(text@.take(text@.len() as int) =~= text@);
    chars
}

/// Splits a text into its words.
pub fn split_words(text: &str) -> (r: Vec<String>)
    ensures
        texts(r@) == words(text@),
{
    let chars = mark_chars(text);
    split_marked(&chars)
}

} // verus!
