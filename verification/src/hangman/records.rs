//! The records of the letters of a word: where each letter stands, and how
//! many of its places have been found.

use vstd::prelude::*;
use std::collections::HashMap;

verus! {

broadcast use vstd::std_specs::hash::group_hash_axioms;

/// The places of `c` in `word`, in rising order.
pub open spec fn positions(word: Seq<char>, c: char) -> Seq<u32>
    decreases word.len(),
{
    if word.len() == 0 {
        Seq::empty()
    } else if word.last() == c {
        positions(word.drop_last(), c).push((word.len() - 1) as u32)
    } else {
        positions(word.drop_last(), c)
    }
}

/// `positions(word, c)` has at most one entry for each place of `word`, and
/// each entry is a place of `word` that holds `c`.
pub proof fn lemma_positions_in_word(word: Seq<char>, c: char)
    requires
        word.len() <= u32::MAX + 1,
    ensures
        positions(word, c).len() <= word.len(),
        forall|k: int|
            0 <= k < positions(word, c).len() ==> (#[trigger] positions(word, c)[k]) < word.len()
                && word[positions(word, c)[k] as int] == c,
        positions(word, c).len() > 0 <==> word.contains(c),
    decreases word.len(),
{
    if word.len() > 0 {
        let front = word.drop_last();
        lemma_positions_in_word(front, c);
        assert forall|k: int| 0 <= k < positions(word, c).len() implies (#[trigger] positions(
            word,
            c,
        )[k]) < word.len() && word[positions(word, c)[k] as int] == c by {
            if k < positions(front, c).len() {
                assert(positions(word, c)[k] == positions(front, c)[k]);
                assert(front[positions(front, c)[k] as int] == c);
            }
        }
        if word.contains(c) {
            let i = choose|i: int| 0 <= i < word.len() && word[i] == c;
            if i < word.len() - 1 {
                assert(front[i] == c);
            }
        }
        if front.contains(c) {
            let i = choose|i: int| 0 <= i < front.len() && front[i] == c;
            assert(word[i] == c);
        }
    }
}

/// A start of `word` holds a letter no more often than `word` does.
pub proof fn lemma_positions_of_prefix(word: Seq<char>, n: int, c: char)
    requires
        0 <= n <= word.len(),
    ensures
        positions(word.take(n), c).len() <= positions(word, c).len(),
    decreases word.len(),
{
    if n == word.len() {
        assert(word.take(n) == word);
    } else {
        lemma_positions_of_prefix(word.drop_last(), n, c);
        assert(word.drop_last().take(n) == word.take(n));
    }
}

/// Whether the records of `word` can be kept in 32-bit counters: each place
/// has a number, and no letter stands in it more often than such a counter
/// can say.
pub open spec fn countable(word: Seq<char>) -> bool {
    &&& word.len() <= u32::MAX + 1
    &&& forall|c: char| (#[trigger] positions(word, c)).len() <= u32::MAX
}

/// A word of at most `u32::MAX` letters is countable.
pub proof fn lemma_short_word_countable(word: Seq<char>)
    requires
        word.len() <= u32::MAX,
    ensures
        countable(word),
{
    assert forall|c: char| (#[trigger] positions(word, c)).len() <= u32::MAX by {
        lemma_positions_in_word(word, c);
    }
}

/// A word made of one letter alone holds it at every place.
proof fn lemma_positions_of_uniform_word(word: Seq<char>, c: char)
    requires
        forall|i: int| 0 <= i < word.len() ==> word[i] == c,
    ensures
        positions(word, c).len() == word.len(),
    decreases word.len(),
{
    if word.len() > 0 {
        lemma_positions_of_uniform_word(word.drop_last(), c);
    }
}

/// A letter stands at fewer places than the word has, once another letter
/// stands at one of them.
proof fn lemma_positions_of_mixed_word(word: Seq<char>, c: char, other: int)
    requires
        word.len() <= u32::MAX + 1,
        0 <= other < word.len(),
        word[other] != c,
    ensures
        positions(word, c).len() < word.len(),
    decreases word.len(),
{
    let front = word.drop_last();
    if word.last() == c {
        assert(front[other] == word[other]);
        lemma_positions_of_mixed_word(front, c, other);
    } else {
        lemma_positions_in_word(front, c);
    }
}

/// Whether the records of `word` can be kept in 32-bit counters.
pub fn fits_counters(word: &Vec<char>) -> (fits: bool)
    ensures
        fits == countable(word@),
{
    let len: usize = word.len();
    if len <= u32::MAX as usize {
        proof {
            lemma_short_word_countable(word@);
        }
        return true;
    }
    if len - 1 > u32::MAX as usize {
        return false;
    }
    let first: char = word[0];
    let mut i: usize = 1;
    while i < len
        invariant
            len == word@.len(),
            len == u32::MAX + 1,
            first == word@[0],
            1 <= i <= len,
            forall|j: int| 0 <= j < i ==> word@[j] == first,
        decreases len - i,
    {
        if word[i] != first {
            proof {
                assert forall|c: char| (#[trigger] positions(word@, c)).len() <= u32::MAX by {
                    if c == first {
                        lemma_positions_of_mixed_word(word@, c, i as int);
                    } else {
                        lemma_positions_of_mixed_word(word@, c, 0);
                    }
                }
            }
            return true;
        }
        i += 1;
    }
    proof {
        lemma_positions_of_uniform_word(word@, first);
    }
    false
}

/// The number under which the record of a letter is kept.
pub open spec fn key_of(c: char) -> u32 {
    c as u32
}

/// Two letters with one key are one letter.
proof fn lemma_key_of_distinct(c: char, d: char)
    ensures
        key_of(c) == key_of(d) ==> c == d,
{
}

/// What is known of one letter of the secret word.
#[derive(Debug, PartialEq, Eq)]
pub struct CharInWord {
    /// How often the letter stands in the word.
    pub num: u32,
    /// How many of its places have been found.
    pub guessed_num: u32,
    /// Its places in the word, in rising order.
    pub idxs: Vec<u32>,
}

impl CharInWord {
    /// Whether the counters agree with the places.
    pub open spec fn consistent(self) -> bool {
        &&& self.num == self.idxs@.len()
        &&& self.guessed_num <= self.idxs@.len()
    }

    /// The record of letter `c` of `word` before any guess.
    pub open spec fn fresh_for(self, word: Seq<char>, c: char) -> bool {
        &&& self.idxs@ == positions(word, c)
        &&& self.num == self.idxs@.len()
        &&& self.guessed_num == 0
    }
}

/// The answer to one guess: the place that the letter uncovers, or none.
#[derive(Debug, Clone, Copy, PartialEq, Eq, Structural)]
pub enum Index {
    Yes(u32),
    No,
}

/// A record for each letter of a word.
///
/// It is modelled by the map from letters to their records.
pub struct Statistic {
    entries: HashMap<u32, CharInWord>,
}

impl View for Statistic {
    type V = Map<char, CharInWord>;

    closed spec fn view(&self) -> Map<char, CharInWord> {
        Map::new(
            |c: char| self.entries@.contains_key(key_of(c)),
            |c: char| self.entries@[key_of(c)],
        )
    }
}

impl Statistic {
    #[verifier::type_invariant]
    spec fn kept(self) -> bool {
        forall|k: u32| self.entries@.contains_key(k) ==> (#[trigger] self.entries@[k]).consistent()
    }

    /// The record of `ch`, if the word holds that letter.
    pub fn get(&self, ch: char) -> (record: Option<&CharInWord>)
        ensures
            match record {
                Some(r) => self@.contains_key(ch) && *r == self@[ch] && r.consistent(),
                None => !self@.contains_key(ch),
            },
    {
        proof {
            use_type_invariant(self);
        }
        let key: u32 = ch as u32;
        self.entries.get(&key)
    }
}

/// What a guess of `ch` answers on the records `stat`, and the records after
/// it: a letter with a place not yet found uncovers the first such place and
/// counts it as found; any other guess changes nothing.
pub open spec fn spec_is_char_in_word(stat: Map<char, CharInWord>, ch: char) -> (
    Index,
    Map<char, CharInWord>,
) {
    if stat.contains_key(ch) && stat[ch].guessed_num < stat[ch].idxs@.len() {
        (
            Index::Yes(stat[ch].idxs@[stat[ch].guessed_num as int]),
            stat.insert(
                ch,
                CharInWord {
                    num: stat[ch].num,
                    guessed_num: (stat[ch].guessed_num + 1) as u32,
                    idxs: stat[ch].idxs,
                },
            ),
        )
    } else {
        (Index::No, stat)
    }
}

/// Looks `ch` up in the records and, where one of its places is still
/// covered, uncovers the first of them.
pub fn is_char_in_word(ch: char, statistic: &mut Statistic) -> (found: Index)
    ensures
        (found, final(statistic)@) == spec_is_char_in_word(old(statistic)@, ch),
{
    proof {
        use_type_invariant(&*statistic);
    }
    let key: u32 = ch as u32;
    assert(key == key_of(ch));
    let mut entries: HashMap<u32, CharInWord> = HashMap::new();
    core::mem::swap(&mut entries, &mut statistic.entries);
    let ghost before = entries@;
    let found = match entries.remove(&key) {
        Some(ciw) => {
            let mut ciw = ciw;
            let found = if (ciw.guessed_num as usize) < ciw.idxs.len() {
                let ch_idx: u32 = ciw.idxs[ciw.guessed_num as usize];
                ciw.guessed_num += 1;
                Index::Yes(ch_idx)
            } else {
                Index::No
            };
            entries.insert(key, ciw);
            proof {
                if found is No {
                    assert(entries@ =~= before);
                }
            }
            found
        },
        None => {
            proof {
                assert(entries@ =~= before);
            }
            Index::No
        },
    };
    core::mem::swap(&mut entries, &mut statistic.entries);
    proof {
        let expected = spec_is_char_in_word(old(statistic)@, ch).1;
        assert forall|c: char| #[trigger] expected.contains_key(c) <==> statistic@.contains_key(c) by {
            if c != ch {
                lemma_key_of_distinct(c, ch);
            }
        }
        assert forall|c: char| #[trigger] expected.contains_key(c) implies expected[c] == statistic@[c] by {
            if c != ch {
                lemma_key_of_distinct(c, ch);
            }
        }
        assert(statistic@.dom() =~= expected.dom());
        assert(statistic@ =~= expected);
    }
    found
}

/// Builds the records of a word: for each of its letters the places where it
/// stands, none of them found yet.
pub fn word_statistic(secret_word_chars: &Vec<char>) -> (statistic: Statistic)
    requires
        countable(secret_word_chars@),
    ensures
        forall|c: char| #[trigger] statistic@.contains_key(c) <==> secret_word_chars@.contains(c),
        forall|c: char| #[trigger]
            statistic@.contains_key(c) ==> statistic@[c].fresh_for(secret_word_chars@, c),
{
    let mut entries: HashMap<u32, CharInWord> = HashMap::new();
    let mut idx: usize = 0;
    let ghost word = secret_word_chars@;
    while idx < secret_word_chars.len()
        invariant
            word == secret_word_chars@,
            countable(word),
            0 <= idx <= word.len(),
            forall|k: u32| #[trigger]
                entries@.contains_key(k) ==> exists|c: char| key_of(c) == k && word.take(
                    idx as int,
                ).contains(c),
            forall|c: char|
                word.take(idx as int).contains(c) ==> #[trigger] entries@.contains_key(key_of(c)),
            forall|c: char| #[trigger]
                entries@.contains_key(key_of(c)) ==> entries@[key_of(c)].fresh_for(
                    word.take(idx as int),
                    c,
                ),
        decreases word.len() - idx,
    {
        let ch: char = secret_word_chars[idx];
        let key: u32 = ch as u32;
        assert(key == key_of(ch));
        let ghost before = entries@;
        let ghost seen = word.take(idx as int);
        let ghost longer = word.take(idx + 1);
        proof {
            assert(longer.drop_last() == seen);
            assert(longer.last() == ch);
            lemma_positions_in_word(seen, ch);
            lemma_positions_of_prefix(word, idx + 1, ch);
            assert(positions(longer, ch) == positions(seen, ch).push(idx as u32));
            assert(positions(word, ch).len() <= u32::MAX);
        }
        let mut a: CharInWord = match entries.remove(&key) {
            Some(found) => found,
            None => CharInWord { num: 0, guessed_num: 0, idxs: Vec::new() },
        };
        a.num += 1;
        a.idxs.push(idx as u32);
        entries.insert(key, a);
        proof {
            assert(longer[idx as int] == ch);
            assert forall|k: u32| #[trigger] entries@.contains_key(k) implies exists|c: char|
                key_of(c) == k && longer.contains(c) by {
                if k == key {
                    assert(key_of(ch) == k && longer.contains(ch));
                } else {
                    assert(before.contains_key(k));
                    let c = choose|c: char| key_of(c) == k && seen.contains(c);
                    let i = choose|i: int| 0 <= i < seen.len() && seen[i] == c;
                    assert(longer[i] == c);
                }
            }
            assert forall|c: char| longer.contains(c) implies #[trigger] entries@.contains_key(
                key_of(c),
            ) by {
                if c != ch {
                    let i = choose|i: int| 0 <= i < longer.len() && longer[i] == c;
                    assert(seen[i] == c);
                }
            }
            assert forall|c: char| #[trigger] entries@.contains_key(key_of(c)) implies entries@[key_of(
                c,
            )].fresh_for(longer, c) by {
                if c != ch {
                    lemma_key_of_distinct(c, ch);
                    assert(before.contains_key(key_of(c)));
                    assert(entries@[key_of(c)] == before[key_of(c)]);
                    assert(positions(longer, c) == positions(seen, c));
                } else {
                    assert(c == ch);
                    assert(key_of(c) == key);
                    assert(positions(longer, c) == positions(seen, c).push(idx as u32));
                    assert(entries@[key] == a);
                    if before.contains_key(key) {
                        assert(before[key_of(ch)].fresh_for(seen, ch));
                        assert(a.idxs@ == before[key].idxs@.push(idx as u32));
                    } else {
                        assert(!seen.contains(ch));
                        assert(positions(seen, ch).len() == 0);
                        assert(a.idxs@ == Seq::<u32>::empty().push(idx as u32));
                    }
                    assert(a.idxs@ == positions(longer, c));
                    assert(a.guessed_num == 0);
                    assert(a.num == a.idxs@.len());
                }
            }
        }
        idx += 1;
    }
    proof {
        assert(word.take(idx as int) == word);
    }
    let statistic = Statistic { entries: entries };
    proof {
        assert forall|c: char| #[trigger] statistic@.contains_key(c) <==> word.contains(c) by {
            if statistic@.contains_key(c) {
                let d = choose|d: char| key_of(d) == key_of(c) && word.contains(d);
                lemma_key_of_distinct(d, c);
            }
        }
    }
    statistic
}

} // verus!
