use wordle_solver::dictionary::Dictionary;
use wordle_solver::puzzle::CharCheck;
use wordle_solver::puzzle::CheckWordError;
use wordle_solver::puzzle::Puzzle;
use wordle_solver::puzzle::PuzzleError;

const WORDS: &[&str; 4] = &["def", "asd", "abc", "xyz"];

fn make_dic(words: &[&str]) -> Dictionary {
    Dictionary::new(words.iter().map(|&s| s.to_owned()).collect())
}

fn hidden_of(puzzle: &Puzzle, candidates: &[&str]) -> String {
    for w in candidates {
        if puzzle.check_word(w).unwrap().is_solved() {
            return (*w).to_owned();
        }
    }
    panic!("hidden word not among the candidates");
}

#[test]
fn test_check_word_lowercases_input_word() {
    let puzzle = Puzzle::from_word("abc".to_owned());

    let w = "ABC";
    let check = puzzle.check_word(w).unwrap();
    assert_eq!(check.word(), w.to_lowercase());
    assert_eq!(check.len(), 3);
    for i in 0..check.len() {
        assert_eq!(check.get(i).1, CharCheck::GuessedExact);
    }
}

#[test]
fn test_check_word_exact() {
    let puzzle = Puzzle::from_word("abc".to_owned());

    let w = "abc";
    let check = puzzle.check_word(w).unwrap();
    assert_eq!(check.word(), w);
    assert_eq!(check.len(), 3);
    for (i, w_ch) in w.chars().enumerate() {
        assert_eq!(check.get(i).0, w_ch);
        assert_eq!(check.get(i).1, CharCheck::GuessedExact);
    }
}

#[test]
fn test_check_word_wrong() {
    let puzzle = Puzzle::from_word("abc".to_owned());

    let w = "def";
    let check = puzzle.check_word(w).unwrap();
    assert_eq!(check.word(), w);
    assert_eq!(check.len(), 3);
    for (i, w_ch) in w.chars().enumerate() {
        assert_eq!(check.get(i).0, w_ch);
        assert_eq!(check.get(i).1, CharCheck::NotGuessed);
    }
}

#[test]
fn test_check_word_wrong_place() {
    let puzzle = Puzzle::from_word("abc".to_owned());

    let w = "cab";
    let check = puzzle.check_word(w).unwrap();
    assert_eq!(check.word(), w);
    assert_eq!(check.len(), 3);
    for (i, w_ch) in w.chars().enumerate() {
        assert_eq!(check.get(i).0, w_ch);
        assert_eq!(check.get(i).1, CharCheck::GuessedWrongPlace);
    }
}

#[test]
fn test_check_word_1() {
    let puzzle = Puzzle::from_word("abc".to_owned());

    let w = "bad";
    let check = puzzle.check_word(w).unwrap();
    assert_eq!(check.word(), w);
    assert_eq!(check.len(), 3);
    assert_eq!(check.get(0).1, CharCheck::GuessedWrongPlace);
    assert_eq!(check.get(1).1, CharCheck::GuessedWrongPlace);
    assert_eq!(check.get(2).1, CharCheck::NotGuessed);
}

#[test]
fn test_new_is_random() {
    let dic = make_dic(WORDS);

    for _ in 0.. {
        let puzzle1 = Puzzle::new(3, &dic).unwrap();
        let puzzle2 = Puzzle::new(3, &dic).unwrap();
        if hidden_of(&puzzle1, WORDS) != hidden_of(&puzzle2, WORDS) {
            return;
        }
    }
    unreachable!()
}

#[test]
fn test_check_word_mismatched_length_fails() {
    let puzzle = Puzzle::from_word("abc".to_owned());
    let err = puzzle.check_word("abcd").unwrap_err();
    assert_eq!(err, CheckWordError::InvalidLength);
}

#[test]
fn test_new_on_empty_length_bucket_fails() {
    let dic = make_dic(&["abc", "def"]);
    let err = Puzzle::new(2, &dic).unwrap_err();
    assert_eq!(err, PuzzleError::NoWordsForLen(2));
}

#[test]
fn test_new_draws_word_of_requested_length() {
    let dic = make_dic(&["a", "bc", "def", "asd"]);
    let puzzle = Puzzle::new(3, &dic).unwrap();
    assert_eq!(puzzle.len(), 3);
    let hidden = hidden_of(&puzzle, &["def", "asd"]);
    assert_eq!(hidden.chars().count(), 3);
}

#[test]
fn test_is_solved_only_when_all_exact() {
    let puzzle = Puzzle::from_word("abc".to_owned());
    assert!(puzzle.check_word("abc").unwrap().is_solved());
    assert!(!puzzle.check_word("abd").unwrap().is_solved());
    assert!(!puzzle.check_word("cab").unwrap().is_solved());
}

#[test]
fn test_check_feedback_has_one_pair_per_position() {
    let puzzle = Puzzle::from_word("house".to_owned());
    let check = puzzle.check_word("mouse").unwrap();
    assert_eq!(check.len(), 5);
}
