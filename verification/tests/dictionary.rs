use hangman2::dictionary::Dictionary;

#[test]
fn from_words_filters_and_groups() {
    let dict = Dictionary::from_words(["hello", "world", "hi", "RUST", "123", "a-b", ""].iter().copied());
    assert_eq!(dict.words_of_length(5).len(), 2); // hello, world
    assert_eq!(dict.words_of_length(2).len(), 1); // hi
    assert_eq!(dict.words_of_length(4).len(), 1); // rust (lowered)
    assert_eq!(dict.words_of_length(3).len(), 0); // "a-b" filtered out
}

#[test]
fn deduplicates() {
    let dict = Dictionary::from_words(["cat", "cat", "CAT"].iter().copied());
    assert_eq!(dict.words_of_length(3).len(), 1);
}

#[test]
fn available_lengths_sorted() {
    let dict = Dictionary::from_words(["zoo", "hi", "hello"].iter().copied());
    assert_eq!(dict.available_lengths(), vec![2, 3, 5]);
}

#[test]
fn words_are_trimmed_and_sorted() {
    let dict = Dictionary::from_words(["  zoo \n", "\tApe", "cat\u{a0}", "caf\u{e9}"].iter().copied());
    assert_eq!(dict.words_of_length(3), &[b"ape".to_vec(), b"cat".to_vec(), b"zoo".to_vec()]);
    assert_eq!(dict.words_of_length(4).len(), 0);
    assert_eq!(dict.total_words(), 3);
}

#[test]
fn unknown_length_has_no_words() {
    let dict = Dictionary::from_words(["cat"].iter().copied());
    assert!(dict.words_of_length(7).is_empty());
    assert_eq!(dict.available_lengths(), vec![3]);
}
