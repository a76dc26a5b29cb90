use wordle_solver::dictionary::Dictionary;
use wordle_solver::puzzle::CharCheck;
use wordle_solver::puzzle::CheckWordError;
use wordle_solver::puzzle::Puzzle;
use wordle_solver::puzzle::WordCheck;
use wordle_solver::solver::NaiveSolver;
use wordle_solver::solver::SolveError;
use wordle_solver::solver::WordsChooser;

fn make_dic(words: &[&str]) -> Dictionary {
    Dictionary::new(words.iter().map(|&s| s.to_owned()).collect())
}

fn fold_feedback(chooser: &mut WordsChooser, check: &WordCheck) {
    for i in 0..check.len() {
        let (ch, ty) = check.get(i);
        match ty {
            CharCheck::GuessedExact => chooser.add_wanted_at_pos(i, ch),
            CharCheck::GuessedWrongPlace => chooser.add_wanted_not_at_pos(i, ch),
            CharCheck::NotGuessed => chooser.add_except(ch),
        }
    }
}

fn word_vec(words: &[&str]) -> Vec<String> {
    words.iter().map(|&s| s.to_owned()).collect()
}

#[test]
fn test_scenario_feedback_prunes_candidates() {
    let puzzle = Puzzle::from_word("abc".to_owned());
    let check = puzzle.check_word("abz").unwrap();
    assert_eq!(check.get(0), ('a', CharCheck::GuessedExact));
    assert_eq!(check.get(1), ('b', CharCheck::GuessedExact));
    assert_eq!(check.get(2), ('z', CharCheck::NotGuessed));

    let mut chooser = WordsChooser::new();
    fold_feedback(&mut chooser, &check);
    let remaining = chooser.filter(&word_vec(&["abc", "def", "abz"]));
    assert!(remaining.iter().any(|w| w == "abc"));
    assert!(!remaining.iter().any(|w| w == "def"));
    assert!(!remaining.iter().any(|w| w == "abz"));
}

#[test]
fn test_filter_is_monotone() {
    let candidates = word_vec(&["abc", "abd", "xyz", "bca"]);
    let mut chooser = WordsChooser::new();
    chooser.add_wanted_at_pos(0, 'a');
    let remaining = chooser.filter(&candidates);
    assert!(remaining.len() <= candidates.len());
    for w in &remaining {
        assert!(candidates.iter().any(|c| c == w));
    }
    assert!(remaining.iter().any(|w| w == "abc"));
    assert!(remaining.iter().any(|w| w == "abd"));
    assert!(!remaining.iter().any(|w| w == "xyz"));
    assert!(!remaining.iter().any(|w| w == "bca"));
}

#[test]
fn test_absent_letter_retracts_fixed_position() {
    let mut chooser = WordsChooser::new();
    chooser.add_wanted_at_pos(0, 'a');
    assert!(chooser.filter(&word_vec(&["abc"])).len() == 1);
    chooser.add_except('a');
    assert!(chooser.filter(&word_vec(&["abc"])).is_empty());
    assert!(chooser.filter(&word_vec(&["xyz"])).len() == 1);
}

#[test]
fn test_positive_signal_clears_absent_letter() {
    let mut chooser = WordsChooser::new();
    chooser.add_except('a');
    assert!(chooser.filter(&word_vec(&["abc"])).is_empty());
    chooser.add_wanted_at_pos(0, 'a');
    assert_eq!(chooser.filter(&word_vec(&["abc"])).len(), 1);
}

#[test]
fn test_wrong_place_excludes_that_position() {
    let mut chooser = WordsChooser::new();
    chooser.add_wanted_not_at_pos(0, 'c');
    let remaining = chooser.filter(&word_vec(&["cab", "abc"]));
    assert!(!remaining.iter().any(|w| w == "cab"));
    assert!(remaining.iter().any(|w| w == "abc"));
}

#[test]
fn test_solver_finds_hidden_word() {
    let dic = make_dic(&["abc", "def", "abz", "xyz"]);
    let puzzle = Puzzle::new(3, &dic).unwrap();
    let mut solver = NaiveSolver::new();
    let word = solver.solve(&puzzle, &dic).unwrap();
    assert!(puzzle.check_word(&word).unwrap().is_solved());
}

#[test]
fn test_solver_empty_dictionary() {
    let dic = make_dic(&["ab", "cd"]);
    let puzzle = Puzzle::from_word("abc".to_owned());
    let mut solver = NaiveSolver::new();
    let err = solver.solve(&puzzle, &dic).unwrap_err();
    assert_eq!(err, SolveError::EmptyDictionary);
}

#[test]
fn test_solver_solution_not_found() {
    let dic = make_dic(&["abc"]);
    let puzzle = Puzzle::from_word("zzz".to_owned());
    let mut solver = NaiveSolver::new();
    let err = solver.solve(&puzzle, &dic).unwrap_err();
    assert_eq!(err, SolveError::SolutionNotFound);
}

#[test]
fn test_solve_error_wraps_check_word_error() {
    let err = SolveError::from(CheckWordError::InvalidLength);
    assert_eq!(err, SolveError::CheckWordError(CheckWordError::InvalidLength));
}

#[test]
fn test_solver_terminates_within_candidate_count() {
    // every round consumes at least one candidate, so a four-word bucket
    // is decided after at most four checks
    let dic = make_dic(&["aaa", "bbb", "ccc", "ddd"]);
    for _ in 0..20 {
        let puzzle = Puzzle::new(3, &dic).unwrap();
        let mut solver = NaiveSolver::new();
        assert!(solver.solve(&puzzle, &dic).is_ok());
    }
}
