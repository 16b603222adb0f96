use exercises::hangman::game::{Game, Round, NUM_INCORRECT_GUESSES};
use exercises::hangman::records::{
    fits_counters, is_char_in_word, word_statistic, CharInWord, Index,
};
use exercises::hangman::text::{chars_to_string, guess_from_line};
use exercises::hangman::words::{choose_word, pick_a_random_word, split_lines, trim};

fn chars(text: &str) -> Vec<char> {
    text.chars().collect()
}

#[test]
fn chars_to_string_keeps_the_order() {
    assert_eq!(chars_to_string(&chars("hello")), "hello");
    assert_eq!(chars_to_string(&chars("")), "");
    assert_eq!(chars_to_string(&vec!['-', 'é', '-']), "-é-");
}

#[test]
fn word_statistic_records_each_letter() {
    let statistic = word_statistic(&chars("hello"));
    assert_eq!(
        statistic.get('l'),
        Some(&CharInWord { num: 2, guessed_num: 0, idxs: vec![2, 3] })
    );
    assert_eq!(
        statistic.get('h'),
        Some(&CharInWord { num: 1, guessed_num: 0, idxs: vec![0] })
    );
    assert_eq!(
        statistic.get('o'),
        Some(&CharInWord { num: 1, guessed_num: 0, idxs: vec![4] })
    );
    assert_eq!(statistic.get('z'), None);
    assert_eq!(statistic.get('H'), None);
}

#[test]
fn word_statistic_of_empty_word_has_no_record() {
    let statistic = word_statistic(&Vec::new());
    assert_eq!(statistic.get('a'), None);
}

#[test]
fn is_char_in_word_uncovers_one_place_per_guess() {
    let mut statistic = word_statistic(&chars("banana"));
    assert_eq!(is_char_in_word('a', &mut statistic), Index::Yes(1));
    assert_eq!(is_char_in_word('a', &mut statistic), Index::Yes(3));
    assert_eq!(statistic.get('a').unwrap().guessed_num, 2);
    assert_eq!(is_char_in_word('n', &mut statistic), Index::Yes(2));
    assert_eq!(is_char_in_word('a', &mut statistic), Index::Yes(5));
    assert_eq!(is_char_in_word('a', &mut statistic), Index::No);
    assert_eq!(
        statistic.get('a'),
        Some(&CharInWord { num: 3, guessed_num: 3, idxs: vec![1, 3, 5] })
    );
    assert_eq!(is_char_in_word('x', &mut statistic), Index::No);
    assert_eq!(statistic.get('x'), None);
    assert_eq!(statistic.get('b').unwrap().guessed_num, 0);
}

#[test]
fn new_game_covers_every_place() {
    let game = Game::new(chars("rust"));
    assert_eq!(game.word_so_far(), "----");
    assert_eq!(game.guessed_letters(), "");
    assert_eq!(game.guesses_left(), NUM_INCORRECT_GUESSES);
    assert_eq!(NUM_INCORRECT_GUESSES, 10);
}

#[test]
fn game_is_won_when_the_last_place_is_uncovered() {
    let game = Game::new(chars("noon"));
    let (round, game) = game.guess('o');
    assert_eq!(round, Round::Hit(1));
    assert_eq!(game.word_so_far(), "-o--");
    let (round, game) = game.guess('n');
    assert_eq!(round, Round::Hit(0));
    let (round, game) = game.guess('x');
    assert_eq!(round, Round::Miss);
    assert_eq!(game.guesses_left(), 9);
    let (round, game) = game.guess('o');
    assert_eq!(round, Round::Hit(2));
    assert_eq!(game.word_so_far(), "noo-");
    assert_eq!(game.guessed_letters(), "onxo");
    let (round, game) = game.guess('n');
    assert_eq!(round, Round::Won);
    assert_eq!(game.word_so_far(), "noon");
    assert_eq!(game.guessed_letters(), "onxo");
    assert_eq!(game.guesses_left(), 9);
}

#[test]
fn game_counts_wrong_guesses_down_to_none() {
    let mut game = Game::new(chars("a"));
    for i in 0..NUM_INCORRECT_GUESSES {
        assert_eq!(game.guesses_left(), NUM_INCORRECT_GUESSES - i);
        let (round, next) = game.guess('b');
        assert_eq!(round, Round::Miss);
        game = next;
    }
    assert_eq!(game.guesses_left(), 0);
    assert_eq!(game.word_so_far(), "-");
    assert_eq!(game.guessed_letters(), "bbbbbbbbbb");
}

#[test]
fn letter_found_everywhere_counts_as_wrong() {
    let game = Game::new(chars("ab"));
    let (round, game) = game.guess('a');
    assert_eq!(round, Round::Hit(0));
    let (round, game) = game.guess('a');
    assert_eq!(round, Round::Miss);
    assert_eq!(game.guesses_left(), 9);
    assert_eq!(game.word_so_far(), "a-");
}

#[test]
fn guess_that_is_no_letter_changes_nothing() {
    let game = Game::new(chars("a1"));
    let (round, game) = game.guess('1');
    assert_eq!(round, Round::NotALetter);
    let (round, game) = game.guess(' ');
    assert_eq!(round, Round::NotALetter);
    let (round, game) = game.guess('-');
    assert_eq!(round, Round::NotALetter);
    assert_eq!(game.word_so_far(), "--");
    assert_eq!(game.guessed_letters(), "");
    assert_eq!(game.guesses_left(), 10);
    let (round, game) = game.guess('é');
    assert_eq!(round, Round::Miss);
    assert_eq!(game.guessed_letters(), "é");
}

#[test]
fn split_lines_cuts_at_each_line_feed() {
    assert_eq!(split_lines("ab\ncd"), vec![chars("ab"), chars("cd")]);
    assert_eq!(split_lines("ab\n"), vec![chars("ab"), chars("")]);
    assert_eq!(split_lines(""), vec![chars("")]);
    assert_eq!(split_lines("\n\n"), vec![chars(""), chars(""), chars("")]);
    assert_eq!(split_lines("a\r\nb"), vec![chars("a\r"), chars("b")]);
}

#[test]
fn trim_removes_white_space_at_both_ends_only() {
    assert_eq!(trim(&chars("  a b \t\r")), chars("a b"));
    assert_eq!(trim(&chars("word")), chars("word"));
    assert_eq!(trim(&chars(" \u{a0}\u{3000} ")), chars(""));
    assert_eq!(trim(&chars("")), chars(""));
    assert_eq!(trim(&chars("x ")), chars("x"));
    assert_eq!(trim(&chars(" x")), chars("x"));
}

#[test]
fn choose_word_trims_the_chosen_line() {
    let words = split_lines("apple\r\n banana \ncherry");
    assert_eq!(choose_word(&words, 0), "apple");
    assert_eq!(choose_word(&words, 1), "banana");
    assert_eq!(choose_word(&words, 2), "cherry");
}

#[test]
fn pick_a_random_word_of_one_line_gives_that_line() {
    for _ in 0..50 {
        assert_eq!(pick_a_random_word(" apple "), "apple");
    }
}

#[test]
fn pick_a_random_word_gives_one_of_the_lines() {
    let mut seen_empty = false;
    let mut seen_word = false;
    for _ in 0..400 {
        let word = pick_a_random_word("apple\nbanana\n");
        assert!(word == "apple" || word == "banana" || word == "");
        if word == "" {
            seen_empty = true;
        } else {
            seen_word = true;
        }
    }
    assert!(seen_empty && seen_word);
}

#[test]
fn guess_from_line_takes_the_first_byte() {
    assert_eq!(guess_from_line("a\n"), Some('a'));
    assert_eq!(guess_from_line("xyz"), Some('x'));
    assert_eq!(guess_from_line("\n"), Some('\n'));
    assert_eq!(guess_from_line(""), None);
    assert_eq!(guess_from_line("é"), Some('\u{c3}'));
}

#[test]
fn words_of_ordinary_length_fit_the_counters() {
    assert!(fits_counters(&chars("")));
    assert!(fits_counters(&chars("aaaa")));
    assert!(fits_counters(&chars("hangman")));
}

#[test]
fn trim_takes_exactly_the_white_space_characters_for_white_space() {
    for code in 0..=0x10ffffu32 {
        if let Some(c) = char::from_u32(code) {
            let white = (0x0009..=0x000d).contains(&code)
                || code == 0x0020
                || code == 0x0085
                || code == 0x00a0
                || code == 0x1680
                || (0x2000..=0x200a).contains(&code)
                || code == 0x2028
                || code == 0x2029
                || code == 0x202f
                || code == 0x205f
                || code == 0x3000;
            assert_eq!(trim(&vec![c]).is_empty(), white, "code {:#x}", code);
            assert_eq!(c.is_whitespace(), white, "code {:#x}", code);
        }
    }
}
