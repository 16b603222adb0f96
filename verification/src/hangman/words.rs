//! The choice of the secret word among the lines of a text.

use vstd::prelude::*;
use rand::Rng;
use crate::hangman::text::chars_to_string;

verus! {

/// Whether `c` is white space: whether it has the property `White_Space` of
/// the Unicode character database. These are the tab, the line feed, the
/// vertical tab, the form feed, the carriage return, the space, the next-line
/// control, the no-break space, the Ogham space mark, the spaces of fixed
/// width from the en quad to the hair space, the line and the paragraph
/// separator, the narrow no-break space, the medium mathematical space and
/// the ideographic space.
pub open spec fn whitespace(c: char) -> bool {
    let n = c as u32;
    ||| 0x0009 <= n <= 0x000d
    ||| n == 0x0020
    ||| n == 0x0085
    ||| n == 0x00a0
    ||| n == 0x1680
    ||| 0x2000 <= n <= 0x200a
    ||| n == 0x2028
    ||| n == 0x2029
    ||| n == 0x202f
    ||| n == 0x205f
    ||| n == 0x3000
}

/// `char::is_whitespace` of std: whether the character has the property
/// `White_Space` of the Unicode character database. The contract writes the
/// characters with that property out, as `whitespace` lists them.
#[verifier::external_body]
fn is_whitespace(c: char) -> (b: bool)
    ensures
        b == whitespace(c),
{
    c.is_whitespace()
}

/// `Rng::gen_range` of rand, on the generator that `rand::thread_rng` hands
/// out, with the bounds `0` and `bound`. It panics unless the lower bound is
/// under the upper one, and it returns a number from the lower bound up to,
/// but not including, the upper one. Which number is left open: two calls
/// with one bound may differ. (The generator is seeded from the operating
/// system when a thread first asks for it, and panics if that fails.)
#[verifier::external_body]
fn random_index(bound: usize) -> (index: usize)
    requires
        0 < bound,
    ensures
        index < bound,
{
    rand::thread_rng().gen_range(0, bound)
}

/// The pieces into which the line feeds cut `text`. A text without a line
/// feed is one piece, and a text that ends in one has an empty last piece.
pub open spec fn spec_lines(text: Seq<char>) -> Seq<Seq<char>>
    decreases text.len(),
{
    if text.len() == 0 {
        seq![Seq::empty()]
    } else {
        let front = spec_lines(text.drop_last());
        if text.last() == '\n' {
            front.push(Seq::empty())
        } else {
            front.drop_last().push(front.last().push(text.last()))
        }
    }
}

/// `s` without the white space at its start.
pub open spec fn spec_trim_start(s: Seq<char>) -> Seq<char>
    decreases s.len(),
{
    if s.len() > 0 && whitespace(s.first()) {
        spec_trim_start(s.drop_first())
    } else {
        s
    }
}

/// `s` without the white space at its end.
pub open spec fn spec_trim_end(s: Seq<char>) -> Seq<char>
    decreases s.len(),
{
    if s.len() > 0 && whitespace(s.last()) {
        spec_trim_end(s.drop_last())
    } else {
        s
    }
}

/// `s` without the white space at its start and at its end.
pub open spec fn spec_trim(s: Seq<char>) -> Seq<char> {
    spec_trim_end(spec_trim_start(s))
}

/// The texts of `lines`, in their order.
pub open spec fn texts(lines: Seq<Vec<char>>) -> Seq<Seq<char>> {
    lines.map_values(|line: Vec<char>| line@)
}

/// Cuts `text` at its line feeds.
pub fn split_lines(text: &str) -> (lines: Vec<Vec<char>>)
    ensures
        texts(lines@) == spec_lines(text@),
        lines@.len() > 0,
{
    let mut lines: Vec<Vec<char>> = Vec::new();
    let mut current: Vec<char> = Vec::new();
    for c in it: text.chars()
        invariant
            it.seq() == text@,
            texts(lines@).push(current@) == spec_lines(text@.take(it.index() as int)),
    {
        let ghost seen = text@.take(it.index() as int);
        let ghost longer = text@.take(it.index() + 1);
        proof {
            assert(longer.drop_last() == seen);
            assert(longer.last() == c);
        }
        if c == '\n' {
            lines.push(current);
            current = Vec::new();
            proof {
                assert(texts(lines@).push(current@) == spec_lines(longer));
            }
        } else {
            let ghost shorter = current@;
            current.push(c);
            proof {
                assert(texts(lines@).push(shorter).drop_last() == texts(lines@));
                assert(texts(lines@).push(current@) == spec_lines(longer));
            }
        }
    }
    proof {
        assert(text@.take(text@.len() as int) == text@);
    }
    lines.push(current);
    lines
}

/// Removes the white space at the start and at the end of `chars`.
pub fn trim(chars: &Vec<char>) -> (trimmed: Vec<char>)
    ensures
        trimmed@ == spec_trim(chars@),
{
    let ghost s = chars@;
    let mut start: usize = 0;
    proof {
        assert(s.subrange(0, s.len() as int) == s);
    }
    while start < chars.len() && is_whitespace(chars[start])
        invariant
            s == chars@,
            0 <= start <= s.len(),
            spec_trim_start(s) == spec_trim_start(s.subrange(start as int, s.len() as int)),
        decreases s.len() - start,
    {
        proof {
            let rest = s.subrange(start as int, s.len() as int);
            assert(rest.first() == s[start as int]);
            assert(rest.drop_first() == s.subrange(start + 1, s.len() as int));
        }
        start += 1;
    }
    let ghost kept = s.subrange(start as int, s.len() as int);
    proof {
        if start < s.len() {
            assert(kept.first() == s[start as int]);
        }
        assert(spec_trim_start(s) == kept);
    }
    let mut end: usize = chars.len();
    while end > start && is_whitespace(chars[end - 1])
        invariant
            s == chars@,
            0 <= start <= end <= s.len(),
            kept == s.subrange(start as int, s.len() as int),
            spec_trim_end(kept) == spec_trim_end(s.subrange(start as int, end as int)),
        decreases end,
    {
        proof {
            let rest = s.subrange(start as int, end as int);
            assert(rest.last() == s[end - 1]);
            assert(rest.drop_last() == s.subrange(start as int, end - 1));
        }
        end -= 1;
    }
    proof {
        let rest = s.subrange(start as int, end as int);
        if end > start {
            assert(rest.last() == s[end - 1]);
        }
        assert(spec_trim_end(kept) == rest);
    }
    let mut trimmed: Vec<char> = Vec::new();
    let mut i: usize = start;
    while i < end
        invariant
            s == chars@,
            0 <= start <= i <= end <= s.len(),
            trimmed@ == s.subrange(start as int, i as int),
        decreases end - i,
    {
        trimmed.push(chars[i]);
        i += 1;
        proof {
            assert(s.subrange(start as int, i as int) == s.subrange(start as int, i - 1).push(
                s[i - 1],
            ));
        }
    }
    trimmed
}

/// The word on line `index` of `words`, without the white space around it.
pub fn choose_word(words: &Vec<Vec<char>>, index: usize) -> (word: String)
    requires
        index < words@.len(),
    ensures
        word@ == spec_trim(words@[index as int]@),
{
    let trimmed: Vec<char> = trim(&words[index]);
    chars_to_string(&trimmed)
}

/// Picks one line of `file_string` by chance and returns it without the
/// white space around it. Every line may be picked, the empty one behind a
/// last line feed too.
pub fn pick_a_random_word(file_string: &str) -> (word: String)
    ensures
        exists|i: int|
            0 <= i < spec_lines(file_string@).len() && word@ == spec_trim(
                #[trigger] spec_lines(file_string@)[i],
            ),
{
    let words: Vec<Vec<char>> = split_lines(file_string);
    let index: usize = random_index(words.len());
    proof {
        assert(texts(words@)[index as int] == words@[index as int]@);
    }
    choose_word(&words, index)
}

} // verus!
