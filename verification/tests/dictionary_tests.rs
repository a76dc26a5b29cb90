use wordle_solver::dictionary::Dictionary;
use wordle_solver::dictionary::Words;

fn make_dic(words: &[&str]) -> Dictionary {
    Dictionary::new(words.iter().map(|&s| s.to_owned()).collect())
}

fn has_word(dic: &Dictionary, length: usize, word: &str) -> bool {
    dic.get(length)
        .unwrap()
        .get_words()
        .iter()
        .any(|w| w == word)
}

fn freq_entry(words: &Words, c: char) -> Option<usize> {
    words
        .get_freqs()
        .iter()
        .find(|p| p.0 == c)
        .map(|p| p.1)
}

#[test]
fn test_from_vec_works() {
    let words = &["a", "b", "bc", "de", "def", "asd"];
    let dic = make_dic(words);
    assert_eq!(dic.bucket_count(), 3);
    assert!(has_word(&dic, 1, "a"));
    assert!(has_word(&dic, 1, "b"));
    assert!(has_word(&dic, 2, "bc"));
    assert!(has_word(&dic, 2, "de"));
    assert!(has_word(&dic, 3, "def"));
    assert!(has_word(&dic, 3, "asd"));
}

#[test]
fn test_from_vec_works_and_trims_whitespaces() {
    let dic = make_dic(&["abc", "de ", " a ", "\na\n", "\r\n def \r\n"]);
    assert_eq!(dic.bucket_count(), 3);
    assert!(has_word(&dic, 1, "a"));
    assert!(has_word(&dic, 2, "de"));
    assert!(has_word(&dic, 3, "abc"));
    assert!(has_word(&dic, 3, "def"));
}

#[test]
fn test_from_vec_works_and_lowercases_words() {
    let dic = make_dic(&["ABC", "DEf"]);
    assert_eq!(dic.bucket_count(), 1);
    assert_eq!(dic.get(3).unwrap().get_words().len(), 2);
    assert!(has_word(&dic, 3, "abc"));
    assert!(has_word(&dic, 3, "def"));
}

fn make_words(list: &[&str]) -> Words {
    Words::new(list.iter().map(|&s| s.to_owned()).collect())
}

#[test]
fn test_new_builds_correct_frequency() {
    let words = make_words(&["abc", "aab", "aba"]);
    assert_eq!(freq_entry(&words, 'a'), Some(5));
    assert_eq!(freq_entry(&words, 'b'), Some(3));
    assert_eq!(freq_entry(&words, 'c'), Some(1));
}

#[test]
fn test_freq() {
    let words = make_words(&["abc", "aab", "aba"]);
    assert_eq!(words.freq("abc"), 9);
    assert_eq!(words.freq("aaa"), 15);
    assert_eq!(words.freq("ddd"), 0);
}

#[test]
fn test_unique_freq() {
    let words = make_words(&["abc", "aab", "aba"]);
    assert_eq!(words.unique_freq("abc"), 9);
    assert_eq!(words.unique_freq("aaa"), 5);
    assert_eq!(words.unique_freq("ddd"), 0);
}

#[test]
fn test_words_of_length_have_that_length() {
    let dic = make_dic(&["a", "bc", "def", "ghij", "de", "xyz"]);
    for length in 1..=4usize {
        for w in dic.get(length).unwrap().get_words() {
            assert_eq!(w.chars().count(), length);
        }
    }
}

#[test]
fn test_duplicates_collapse() {
    let dic = make_dic(&["abc", "ABC", " abc ", "def"]);
    assert_eq!(dic.get(3).unwrap().get_words().len(), 2);
}

#[test]
fn test_missing_length_has_no_group() {
    let dic = make_dic(&["abc"]);
    assert!(dic.get(2).is_none());
    assert!(dic.get(3).is_some());
}

#[test]
fn test_try_new_matches_new() {
    let raw: Vec<String> = ["abc", "de"].iter().map(|&s| s.to_owned()).collect();
    let dic = Dictionary::try_new(raw).unwrap();
    assert_eq!(dic.bucket_count(), 2);
    assert!(has_word(&dic, 3, "abc"));
}
