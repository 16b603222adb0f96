//! One game, round by round.

use vstd::prelude::*;
use crate::hangman::records::{
    countable, is_char_in_word, lemma_positions_in_word, positions, spec_is_char_in_word,
    word_statistic, CharInWord, Index, Statistic,
};
use crate::hangman::text::{chars_to_string, same_chars};

verus! {

/// How many wrong guesses a game allows.
pub const NUM_INCORRECT_GUESSES: u32 = 10;

/// Whether `c` is a letter: whether it has Unicode's property `Alphabetic`.
pub uninterp spec fn alphabetic(c: char) -> bool;

/// `char::is_alphabetic` of std. Its answer depends on the character alone:
/// it is the property `Alphabetic` of the Unicode standard, as the std that
/// the library is built with has it. That is a table too long to write down
/// here, so the contract gives the answer a name.
#[verifier::external_body]
fn is_alphabetic(c: char) -> (b: bool)
    ensures
        b == alphabetic(c),
{
    c.is_alphabetic()
}

/// How one round of the game ended.
#[derive(Debug, Clone, Copy, PartialEq, Eq, Structural)]
pub enum Round {
    /// The guess was no letter; nothing has changed.
    NotALetter,
    /// The letter uncovered the given place, and places are still covered.
    Hit(u32),
    /// The letter uncovered the last covered place.
    Won,
    /// The letter has no covered place left in the word.
    Miss,
}

/// A game as the contracts see it.
pub struct GameView {
    /// The word to be found.
    pub secret: Seq<char>,
    /// The word as the player sees it: `-` at each covered place.
    pub so_far: Seq<char>,
    /// The number of wrong guesses made.
    pub incorrect: nat,
    /// The letters guessed in the rounds played to their end.
    pub guessed: Seq<char>,
    /// The records of the letters.
    pub statistic: Map<char, CharInWord>,
}

/// The outcome of a guess of `ch` in the game `g`, and the game after it.
///
/// A guess that is no letter changes nothing. A letter with a covered place
/// uncovers the first of them; if the word is complete by that, the game is
/// won at once, and else the letter joins the guessed ones. Any other letter
/// counts as a wrong guess and joins the guessed ones.
pub open spec fn spec_guess(g: GameView, ch: char) -> (Round, GameView) {
    if !alphabetic(ch) {
        (Round::NotALetter, g)
    } else {
        let (found, statistic) = spec_is_char_in_word(g.statistic, ch);
        match found {
            Index::Yes(idx) => {
                let so_far = g.so_far.update(idx as int, ch);
                if so_far == g.secret {
                    (Round::Won, GameView { so_far, statistic, ..g })
                } else {
                    (
                        Round::Hit(idx),
                        GameView { so_far, statistic, guessed: g.guessed.push(ch), ..g },
                    )
                }
            },
            Index::No => (
                Round::Miss,
                GameView { incorrect: g.incorrect + 1, guessed: g.guessed.push(ch), ..g },
            ),
        }
    }
}

/// The state of one game.
pub struct Game {
    secret_word_chars: Vec<char>,
    guess_incorrect_num: u32,
    guess_correct_chars: Vec<char>,
    statistic: Statistic,
    cur_guessed_chars: Vec<char>,
}

impl View for Game {
    type V = GameView;

    closed spec fn view(&self) -> GameView {
        GameView {
            secret: self.secret_word_chars@,
            so_far: self.guess_correct_chars@,
            incorrect: self.guess_incorrect_num as nat,
            guessed: self.cur_guessed_chars@,
            statistic: self.statistic@,
        }
    }
}

impl Game {
    #[verifier::type_invariant]
    spec fn sound(self) -> bool {
        &&& countable(self.secret_word_chars@)
        &&& self.guess_correct_chars@.len() == self.secret_word_chars@.len()
        &&& self.guess_incorrect_num <= NUM_INCORRECT_GUESSES
        &&& forall|c: char| #[trigger]
            self.statistic@.contains_key(c) ==> self.statistic@[c].idxs@ == positions(
                self.secret_word_chars@,
                c,
            )
        &&& forall|i: int|
            0 <= i < self.guess_correct_chars@.len() ==> #[trigger] self.guess_correct_chars@[i]
                == '-' || self.guess_correct_chars@[i] == self.secret_word_chars@[i]
    }

    /// A game on `secret_word_chars` in which nothing has been guessed: every
    /// place is covered and each letter of the word has its fresh record.
    pub fn new(secret_word_chars: Vec<char>) -> (game: Game)
        requires
            countable(secret_word_chars@),
        ensures
            game@.secret == secret_word_chars@,
            game@.so_far == Seq::new(secret_word_chars@.len(), |i: int| '-'),
            game@.incorrect == 0,
            game@.guessed == Seq::<char>::empty(),
            forall|c: char| #[trigger]
                game@.statistic.contains_key(c) <==> secret_word_chars@.contains(c),
            forall|c: char| #[trigger]
                game@.statistic.contains_key(c) ==> game@.statistic[c].fresh_for(
                    secret_word_chars@,
                    c,
                ),
    {
        let mut guess_correct_chars: Vec<char> = Vec::new();
        let mut i: usize = 0;
        while i < secret_word_chars.len()
            invariant
                0 <= i <= secret_word_chars.len(),
                guess_correct_chars@ == Seq::new(i as nat, |i: int| '-'),
            decreases secret_word_chars.len() - i,
        {
            guess_correct_chars.push('-');
            i += 1;
        }
        let statistic = word_statistic(&secret_word_chars);
        Game {
            secret_word_chars: secret_word_chars,
            guess_incorrect_num: 0,
            guess_correct_chars: guess_correct_chars,
            statistic: statistic,
            cur_guessed_chars: Vec::new(),
        }
    }

    /// The number of wrong guesses that the player may still make.
    pub fn guesses_left(&self) -> (left: u32)
        ensures
            left == NUM_INCORRECT_GUESSES - self@.incorrect,
    {
        proof {
            use_type_invariant(self);
        }
        NUM_INCORRECT_GUESSES - self.guess_incorrect_num
    }

    /// The word as the player sees it.
    pub fn word_so_far(&self) -> (text: String)
        ensures
            text@ == self@.so_far,
    {
        chars_to_string(&self.guess_correct_chars)
    }

    /// The letters guessed so far, in the order of the guesses.
    pub fn guessed_letters(&self) -> (text: String)
        ensures
            text@ == self@.guessed,
    {
        chars_to_string(&self.cur_guessed_chars)
    }

    /// Plays one round with the guess `ch`: gives the outcome of the round and
    /// the game after it.
    pub fn guess(self, ch: char) -> (next: (Round, Game))
        requires
            self@.incorrect < NUM_INCORRECT_GUESSES,
        ensures
            (next.0, next.1@) == spec_guess(self@, ch),
    {
        proof {
            use_type_invariant(&self);
        }
        if !is_alphabetic(ch) {
            return (Round::NotALetter, self);
        }
        let Game {
            secret_word_chars,
            guess_incorrect_num,
            guess_correct_chars,
            statistic,
            cur_guessed_chars,
        } = self;
        let mut guess_incorrect_num = guess_incorrect_num;
        let mut guess_correct_chars = guess_correct_chars;
        let mut statistic = statistic;
        let mut cur_guessed_chars = cur_guessed_chars;
        let ghost before = statistic@;
        let found: Index = is_char_in_word(ch, &mut statistic);
        proof {
            lemma_positions_in_word(secret_word_chars@, ch);
            assert forall|c: char| #[trigger] statistic@.contains_key(c) implies statistic@[c].idxs@
                == positions(secret_word_chars@, c) by {
                assert(before.contains_key(c));
            }
        }
        let round: Round = match found {
            Index::Yes(idx) => {
                guess_correct_chars.set(idx as usize, ch);
                if same_chars(&guess_correct_chars, &secret_word_chars) {
                    Round::Won
                } else {
                    cur_guessed_chars.push(ch);
                    Round::Hit(idx)
                }
            },
            Index::No => {
                guess_incorrect_num += 1;
                cur_guessed_chars.push(ch);
                Round::Miss
            },
        };
        let game = Game {
            secret_word_chars: secret_word_chars,
            guess_incorrect_num: guess_incorrect_num,
            guess_correct_chars: guess_correct_chars,
            statistic: statistic,
            cur_guessed_chars: cur_guessed_chars,
        };
        (round, game)
    }
}

} // verus!
