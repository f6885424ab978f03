use wordle_solver::evaluate::Score;
use wordle_solver::game::{feedback, Feedback, GameStatus, WordleGame, GUESS_BUDGET};
use wordle_solver::rank::{compare_ranked, rank, Ranked};
use wordle_solver::stats::{LetterStatistics, LetterStats, StatsError};
use wordle_solver::word::{letter_index, Word};
use std::cmp::Ordering;

fn word(s: &str) -> Word {
    Word::parse(s).unwrap()
}

fn letter(c: char) -> u8 {
    letter_index(c).unwrap()
}

fn corpus(words: &[&str]) -> Vec<Word> {
    words.iter().map(|s| word(s)).collect()
}

fn small_stats() -> LetterStatistics {
    LetterStatistics::build(&corpus(&["crane", "slate", "brine"])).unwrap()
}

fn spelled(w: &Word) -> String {
    (0..5).map(|i| w.letter_char(i)).collect()
}

#[test]
fn parse_accepts_five_letters_in_either_case() {
    let w = word("CrAnE");
    assert_eq!(w.letters, [2, 17, 0, 13, 4]);
    assert_eq!(spelled(&w), "crane");
}

#[test]
fn parse_refuses_other_text() {
    assert!(Word::parse("").is_none());
    assert!(Word::parse("cran").is_none());
    assert!(Word::parse("cranes").is_none());
    assert!(Word::parse("cr4ne").is_none());
    assert!(Word::parse("cr ne").is_none());
    assert!(Word::parse("cränе").is_none());
}

#[test]
fn letter_index_of_letters_and_others() {
    assert_eq!(letter_index('a'), Some(0));
    assert_eq!(letter_index('Z'), Some(25));
    assert_eq!(letter_index('-'), None);
}

#[test]
fn same_as_and_contains_letter() {
    assert!(word("crane").same_as(&word("CRANE")));
    assert!(!word("crane").same_as(&word("crate")));
    assert!(word("crane").contains_letter(letter('n')));
    assert!(!word("crane").contains_letter(letter('s')));
}

#[test]
fn stats_of_three_words() {
    let st = small_stats();
    assert_eq!(st.corpus_size(), 3);
    let e = st.letter_stats(letter('e'));
    assert_eq!(e.global_count, 3);
    assert_eq!(e.local_count[4], 3);
    assert_eq!(e.local_count[0], 0);
    assert_eq!(e.global_freq(), (3, 15));
    let (n, d) = e.global_freq();
    assert_eq!(n as f64 / d as f64, 0.2);
    assert_eq!(e.local_freq(4), (3, 3));
    assert_eq!(st.global_count(letter('r')), 2);
    assert_eq!(st.local_count(letter('r'), 1), 2);
    assert_eq!(st.global_count(letter('z')), 0);
}

#[test]
fn stats_of_empty_corpus_is_refused() {
    assert_eq!(LetterStatistics::build(&Vec::new()).unwrap_err(), StatsError::EmptyCorpus);
}

#[test]
fn letter_stats_new_and_calculate_freqs() {
    let mut s = LetterStats::new();
    assert_eq!(s.global_count, 0);
    assert_eq!(s.local_count, [0; 5]);
    s.global_count = 4;
    s.calculate_freqs(20);
    assert_eq!(s.global_freq(), (4, 20));
    assert_eq!(s.local_freq(2), (0, 4));
}

#[test]
fn feedback_of_bears_against_crane() {
    let answer = word("crane");
    let guess = word("bears");
    let colours: Vec<Feedback> = (0..5).map(|i| feedback(&answer, &guess, i)).collect();
    assert_eq!(
        colours,
        vec![Feedback::Grey, Feedback::Yellow, Feedback::Green, Feedback::Yellow, Feedback::Grey]
    );
}

#[test]
fn guess_bears_against_crane_records_constraints() {
    let mut g = WordleGame::new(word("crane"));
    g.guess(word("bears"));
    assert!(g.is_grey(letter('b')));
    assert!(g.is_yellow(1, letter('e')));
    assert!(!g.is_grey(letter('e')));
    assert_eq!(g.green_at(2), Some(letter('a')));
    assert!(g.is_yellow(3, letter('r')));
    assert!(g.is_grey(letter('s')));
    assert_eq!(g.green_at(0), None);
    assert!(!g.is_yellow(0, letter('r')));
    assert_eq!(g.guess_count(), 1);
    assert!(g.guess_at(0).same_as(&word("bears")));
    assert!(!g.has_won());
}

#[test]
fn new_game_has_no_guesses() {
    let g = WordleGame::new(word("crane"));
    assert!(!g.has_won());
    assert_eq!(g.guess_count(), 0);
    assert_eq!(g.status(), GameStatus::InProgress);
    assert!(g.answer().same_as(&word("crane")));
}

#[test]
fn guessing_the_answer_wins_all_green() {
    let mut g = WordleGame::new(word("crane"));
    g.guess(word("bears"));
    g.guess(word("crane"));
    assert!(g.has_won());
    assert_eq!(g.status(), GameStatus::Won);
    let answer = word("crane");
    for i in 0..5 {
        assert_eq!(g.green_at(i), Some(answer.letter(i)));
    }
}

#[test]
fn game_is_lost_after_the_budget() {
    let mut g = WordleGame::new(word("crane"));
    for _ in 0..GUESS_BUDGET {
        assert_eq!(g.status(), GameStatus::InProgress);
        g.guess(word("bears"));
    }
    assert_eq!(g.status(), GameStatus::Lost);
}

#[test]
fn constraints_persist_over_later_guesses() {
    let mut g = WordleGame::new(word("crane"));
    g.guess(word("bears"));
    g.guess(word("crate"));
    g.guess(word("slime"));
    assert!(g.is_grey(letter('b')));
    assert!(g.is_grey(letter('s')));
    assert!(g.is_grey(letter('t')));
    assert!(g.is_yellow(1, letter('e')));
    assert!(g.is_yellow(3, letter('r')));
    assert_eq!(g.green_at(2), Some(letter('a')));
    assert_eq!(g.green_at(4), Some(letter('e')));
}

#[test]
fn consider_guess_on_fresh_game_sums_unseen_letters() {
    let st = small_stats();
    let g = WordleGame::new(word("crane"));
    let s = g.consider_guess(&st, &word("slate")).unwrap();
    assert_eq!(
        s,
        Score { green_count: 0, yellow_count: 0, grey_count: 0, global_information: 8, local_information: 8 }
    );
}

#[test]
fn consider_guess_counts_a_repeated_letter_once() {
    let st = small_stats();
    let g = WordleGame::new(word("crane"));
    let s = g.consider_guess(&st, &word("eerie")).unwrap();
    assert_eq!(
        s,
        Score { green_count: 0, yellow_count: 0, grey_count: 0, global_information: 6, local_information: 0 }
    );
}

#[test]
fn consider_guess_after_a_guess() {
    let st = small_stats();
    let mut g = WordleGame::new(word("crane"));
    g.guess(word("bears"));
    assert_eq!(
        g.consider_guess(&st, &word("crane")).unwrap(),
        Score { green_count: 1, yellow_count: 2, grey_count: 0, global_information: 3, local_information: 3 }
    );
    assert_eq!(
        g.consider_guess(&st, &word("brine")).unwrap(),
        Score { green_count: 0, yellow_count: 2, grey_count: 1, global_information: 3, local_information: 3 }
    );
    assert_eq!(
        g.consider_guess(&st, &word("tease")).unwrap(),
        Score { green_count: 1, yellow_count: 1, grey_count: 2, global_information: 1, local_information: 0 }
    );
}

#[test]
fn consider_guess_of_a_played_word_is_none() {
    let st = small_stats();
    let mut g = WordleGame::new(word("crane"));
    g.guess(word("bears"));
    assert!(g.consider_guess(&st, &word("BEARS")).is_none());
}

#[test]
fn consider_guess_is_repeatable_and_bounded() {
    let st = small_stats();
    let mut g = WordleGame::new(word("crane"));
    g.guess(word("bears"));
    for w in ["crane", "brine", "tease", "slate", "eerie"] {
        let a = g.consider_guess(&st, &word(w)).unwrap();
        let b = g.consider_guess(&st, &word(w)).unwrap();
        assert_eq!(a, b);
        assert!(a.green_count + a.yellow_count + a.grey_count <= 5);
    }
}

#[test]
fn rank_orders_best_first() {
    let st = small_stats();
    let g = WordleGame::new(word("crane"));
    let r = rank(&g, &st, &corpus(&["slate", "crane", "brine"]));
    let words: Vec<String> = r.iter().map(|x| spelled(&x.word)).collect();
    assert_eq!(words, vec!["crane", "brine", "slate"]);
    assert_eq!(r[0].index, 1);
    assert_eq!(r[0].score.global_information, 10);
    assert_eq!(r[1].score.global_information, 9);
}

#[test]
fn rank_drops_played_words_and_grey_letters() {
    let st = small_stats();
    let mut g = WordleGame::new(word("crane"));
    g.guess(word("bears"));
    let r = rank(&g, &st, &corpus(&["crane", "slate", "brine", "bears"]));
    assert_eq!(r.len(), 1);
    assert!(r[0].word.same_as(&word("crane")));
    assert_eq!(r[0].index, 0);
}

#[test]
fn rank_with_no_survivors_is_empty() {
    let st = small_stats();
    let mut g = WordleGame::new(word("crane"));
    g.guess(word("bears"));
    let r = rank(&g, &st, &corpus(&["bears", "beast", "sable"]));
    assert!(r.is_empty());
    let r = rank(&g, &st, &Vec::new());
    assert!(r.is_empty());
}

#[test]
fn rank_breaks_ties_by_later_corpus_place() {
    let st = small_stats();
    let g = WordleGame::new(word("crane"));
    let r = rank(&g, &st, &corpus(&["slate", "slate"]));
    assert_eq!(r.len(), 2);
    assert_eq!(r[0].index, 1);
    assert_eq!(r[1].index, 0);
}

fn entry(green: usize, yellow: usize, local: u128, global: u128, index: usize) -> Ranked {
    Ranked {
        word: word("crane"),
        index,
        score: Score {
            green_count: green,
            yellow_count: yellow,
            grey_count: 0,
            global_information: global,
            local_information: local,
        },
    }
}

#[test]
fn compare_ranked_follows_key_precedence() {
    assert_eq!(compare_ranked(&entry(2, 0, 0, 0, 0), &entry(1, 5, 9, 9, 0)), Ordering::Less);
    assert_eq!(compare_ranked(&entry(1, 2, 0, 0, 0), &entry(1, 1, 9, 9, 0)), Ordering::Less);
    assert_eq!(compare_ranked(&entry(1, 1, 5, 0, 0), &entry(1, 1, 4, 9, 0)), Ordering::Less);
    assert_eq!(compare_ranked(&entry(1, 1, 4, 7, 0), &entry(1, 1, 4, 6, 3)), Ordering::Less);
    assert_eq!(compare_ranked(&entry(1, 1, 4, 6, 0), &entry(1, 1, 4, 7, 3)), Ordering::Greater);
    assert_eq!(compare_ranked(&entry(1, 1, 4, 6, 3), &entry(1, 1, 4, 6, 0)), Ordering::Less);
    assert_eq!(compare_ranked(&entry(1, 1, 4, 6, 3), &entry(1, 1, 4, 6, 3)), Ordering::Equal);
}
