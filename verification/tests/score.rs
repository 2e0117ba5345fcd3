use wordle_bot::chunks::{add_scores, chunk_ranges};
use wordle_bot::{Guess, Wordle};

fn list(words: &[&str]) -> Vec<String> {
    words.iter().map(|w| w.to_string()).collect()
}

fn pairs(ranking: &[(&String, usize)]) -> Vec<(String, usize)> {
    ranking.iter().map(|(w, s)| (w.to_string(), *s)).collect()
}

fn expect(entries: &[(&str, usize)]) -> Vec<(String, usize)> {
    entries.iter().map(|(w, s)| (w.to_string(), *s)).collect()
}

#[test]
fn next_sums_what_stays_possible_over_every_target() {
    let game = Wordle::new(list(&["aaaaa", "bbbbb", "aabbb", "ccccc", "ababa"]));
    assert_eq!(
        pairs(&game.next()),
        expect(&[("aabbb", 5), ("ababa", 5), ("aaaaa", 7), ("bbbbb", 7), ("ccccc", 17)])
    );
}

#[test]
fn next_scores_words_that_are_no_longer_possible() {
    let mut game = Wordle::new(list(&["fzzza", "fghij", "klmno", "edcba"]));
    game.guess(Guess::guess("edcba", "fghij"));
    // Equal scores: the words that are still possible come first.
    assert_eq!(
        pairs(&game.next()),
        expect(&[("fghij", 2), ("klmno", 2), ("fzzza", 2), ("edcba", 4)])
    );
}

#[test]
fn next_scores_everything_zero_when_nothing_is_possible() {
    let mut game = Wordle::new(list(&["crane", "slate"]));
    game.guess(Guess::guess("zzzzz", "zzzzz"));
    assert!(game.possible().is_empty());
    assert_eq!(pairs(&game.next()), expect(&[("crane", 0), ("slate", 0)]));
    assert_eq!(pairs(&game.next_parallel(3)), expect(&[("crane", 0), ("slate", 0)]));
}

#[test]
fn next_lists_a_repeated_word_once() {
    let game = Wordle::new(list(&["aaaaa", "bbbbb", "aaaaa"]));
    // Three targets; each guess tells the two words apart: 2 * 2 + 1.
    assert_eq!(pairs(&game.next()), expect(&[("aaaaa", 5), ("bbbbb", 5)]));
}

#[test]
fn any_number_of_workers_gives_the_ranking_of_next() {
    let vocabulary =
        list(&["crane", "slate", "crate", "brick", "trace", "grace", "caret", "stare", "least"]);
    let mut game = Wordle::new(vocabulary);
    for round in 0..2 {
        let sequential = pairs(&game.next());
        assert_eq!(sequential.len(), 9);
        let targets = game.possible().len();
        for workers in 0..targets + 3 {
            assert_eq!(pairs(&game.next_parallel(workers)), sequential);
        }
        if round == 0 {
            game.guess(Guess::guess("brick", "grace"));
        }
    }
}

#[test]
fn the_shares_of_the_chunks_add_up_to_the_scores() {
    let mut game = Wordle::new(list(&["crane", "slate", "crate", "brick", "trace", "grace"]));
    game.guess(Guess::guess("slate", "grace"));
    let targets = game.possible().len();
    let whole = game.partial_scores(0, targets);
    for workers in 1..targets + 1 {
        let mut total = game.partial_scores(0, 0);
        assert_eq!(total, vec![0; 6]);
        for (lo, hi) in chunk_ranges(targets, workers) {
            assert!(add_scores(&mut total, &game.partial_scores(lo, hi)));
        }
        assert_eq!(total, whole);
    }
    assert_eq!(pairs(&game.rank(&whole)), pairs(&game.next()));
}

#[test]
fn partial_scores_of_one_target() {
    let game = Wordle::new(list(&["aaaaa", "bbbbb", "aabbb", "ccccc", "ababa"]));
    // Against the target `bbbbb`: what each guess leaves possible.
    assert_eq!(game.partial_scores(1, 2), vec![2, 1, 1, 4, 1]);
    assert_eq!(game.partial_scores(3, 4), vec![2, 2, 1, 1, 1]);
    assert_eq!(game.partial_scores(1, 4), vec![5, 4, 3, 9, 3]);
}

#[test]
fn chunks_are_equal_but_for_the_last() {
    assert_eq!(chunk_ranges(10, 3), vec![(0, 3), (3, 6), (6, 10)]);
    assert_eq!(chunk_ranges(10, 4), vec![(0, 2), (2, 4), (4, 6), (6, 10)]);
    assert_eq!(chunk_ranges(9, 3), vec![(0, 3), (3, 6), (6, 9)]);
    assert_eq!(chunk_ranges(7, 1), vec![(0, 7)]);
}

#[test]
fn no_chunk_is_empty() {
    assert_eq!(chunk_ranges(2, 5), vec![(0, 1), (1, 2)]);
    assert_eq!(chunk_ranges(3, 3), vec![(0, 1), (1, 2), (2, 3)]);
    assert_eq!(chunk_ranges(1, usize::MAX), vec![(0, 1)]);
}

#[test]
fn no_worker_counts_as_one() {
    assert_eq!(chunk_ranges(10, 0), vec![(0, 10)]);
}

#[test]
fn no_target_makes_no_chunk() {
    assert_eq!(chunk_ranges(0, 4), Vec::new());
    assert_eq!(chunk_ranges(0, 0), Vec::new());
}

#[test]
fn add_scores_adds_position_by_position() {
    let mut total = vec![1, 2, 3];
    assert!(add_scores(&mut total, &vec![10, 20, 30]));
    assert_eq!(total, vec![11, 22, 33]);
}

#[test]
fn add_scores_refuses_what_does_not_fit() {
    let mut total = vec![1, usize::MAX - 1, 3];
    assert!(!add_scores(&mut total, &vec![10, 2, 30]));
    assert_eq!(total, vec![1, usize::MAX - 1, 3]);
    assert!(add_scores(&mut total, &vec![10, 1, 30]));
    assert_eq!(total, vec![11, usize::MAX, 33]);
}

#[test]
fn add_scores_refuses_another_length() {
    let mut total = vec![1, 2, 3];
    assert!(!add_scores(&mut total, &vec![1, 2]));
    assert!(!add_scores(&mut total, &vec![1, 2, 3, 4]));
    assert_eq!(total, vec![1, 2, 3]);
}

#[test]
fn rank_orders_by_total_then_possible_then_position() {
    let mut game = Wordle::new(list(&["fzzza", "fghij", "klmno", "edcba", "fghij"]));
    game.guess(Guess::guess("edcba", "fghij"));
    assert_eq!(
        pairs(&game.rank(&vec![3, 3, 1, 1, 0])),
        expect(&[("klmno", 1), ("edcba", 1), ("fghij", 3), ("fzzza", 3)])
    );
    assert_eq!(
        pairs(&game.rank(&vec![0, 0, 0, 0, 9])),
        expect(&[("fghij", 0), ("klmno", 0), ("fzzza", 0), ("edcba", 0)])
    );
}

#[test]
fn best_marks_the_possible_words() {
    let mut game = Wordle::new(list(&["fzzza", "fghij", "klmno", "edcba"]));
    game.guess(Guess::guess("edcba", "fghij"));
    let ranking = game.next();
    let best: Vec<(String, usize, bool)> =
        game.best(&ranking, 3).iter().map(|(w, s, p)| (w.to_string(), *s, *p)).collect();
    assert_eq!(
        best,
        vec![
            ("fghij".to_string(), 2, true),
            ("klmno".to_string(), 2, true),
            ("fzzza".to_string(), 2, false),
        ]
    );
    assert_eq!(game.best(&ranking, 25).len(), 4);
    assert!(game.best(&ranking, 0).is_empty());
}
