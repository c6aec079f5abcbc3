use srch::words::dict_words_from_text;
use srch::words::filter;
use srch::words::get_dict_path;
use srch::words::get_unique_words_from_string;
use srch::words::resolve_dict_path;

#[test]
fn filter_strips_and_lowercases() {
    assert_eq!(filter(&"Let's".to_string()), "lets".to_string());
    assert_eq!(filter(&"Cats!".to_string()), "cats".to_string());
    assert_eq!(filter(&"HELLO".to_string()), "hello".to_string());
    assert_eq!(filter(&"a1b2c3".to_string()), "abc".to_string());
}

#[test]
fn filter_of_no_alphabetic_characters_is_empty() {
    assert_eq!(filter(&"123!?".to_string()), "".to_string());
    assert_eq!(filter(&"".to_string()), "".to_string());
}

#[test]
fn filter_handles_non_ascii() {
    assert_eq!(filter(&"Äpfel".to_string()), "äpfel".to_string());
}

#[test]
fn unique_words_keep_first_occurrence_order() {
    let text = "b a b a c".to_string();
    assert_eq!(
        get_unique_words_from_string(&text),
        vec!["b".to_string(), "a".to_string(), "c".to_string()]
    );
}

#[test]
fn unique_words_are_normalized_before_dedup() {
    let text = "Dog dog DOG!".to_string();
    assert_eq!(get_unique_words_from_string(&text), vec!["dog".to_string()]);
}

#[test]
fn unique_words_of_empty_text() {
    assert_eq!(get_unique_words_from_string(&"".to_string()), Vec::<String>::new());
    assert_eq!(get_unique_words_from_string(&"  \t\n ".to_string()), Vec::<String>::new());
}

#[test]
fn fully_filtered_tokens_become_one_empty_word() {
    let text = "123 456 cat".to_string();
    assert_eq!(
        get_unique_words_from_string(&text),
        vec!["".to_string(), "cat".to_string()]
    );
}

#[test]
fn words_split_at_every_ascii_whitespace() {
    let text = "one\ttwo\nthree\rfour five".to_string();
    assert_eq!(
        get_unique_words_from_string(&text),
        vec![
            "one".to_string(),
            "two".to_string(),
            "three".to_string(),
            "four".to_string(),
            "five".to_string()
        ]
    );
}

#[test]
fn dict_path_default() {
    assert_eq!(get_dict_path(), "/usr/share/dict/words".to_string());
}

#[test]
fn dict_path_prefers_local_words_file() {
    assert_eq!(resolve_dict_path(true), ".words".to_string());
    assert_eq!(resolve_dict_path(false), "/usr/share/dict/words".to_string());
}

#[test]
fn dict_words_one_per_line() {
    let text = "cat\ndog\nfish\n".to_string();
    assert_eq!(
        dict_words_from_text(&text),
        vec!["cat".to_string(), "dog".to_string(), "fish".to_string()]
    );
}

#[test]
fn dict_words_without_trailing_newline() {
    let text = "cat\ndog".to_string();
    assert_eq!(dict_words_from_text(&text), vec!["cat".to_string(), "dog".to_string()]);
}

#[test]
fn dict_words_strip_carriage_returns() {
    let text = "cat\r\ndog\r\n".to_string();
    assert_eq!(dict_words_from_text(&text), vec!["cat".to_string(), "dog".to_string()]);
}

#[test]
fn dict_words_keep_inner_empty_lines() {
    let text = "cat\n\ndog\n".to_string();
    assert_eq!(
        dict_words_from_text(&text),
        vec!["cat".to_string(), "".to_string(), "dog".to_string()]
    );
}

#[test]
fn dict_words_of_empty_text() {
    assert_eq!(dict_words_from_text(&"".to_string()), Vec::<String>::new());
}
