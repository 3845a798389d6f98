use slugify::options::{slugify_with, SlugOptions};
use slugify::{slugify, slugify_transliterated};

#[test]
fn basic() {
    assert_eq!(slugify("hello world", "", "-", None), "hello-world");
    assert_eq!(slugify("hello world-", "", "-", None), "hello-world");
    assert_eq!(slugify("hello world ", "", "-", None), "hello-world");
}

#[test]
fn test_email() {
    assert_eq!(slugify("alice@bob.com", "", "-", None), "alice-bob-com");
}

#[test]
fn test_starts_with_number() {
    assert_eq!(slugify("10 amazing secrets", "", "-", None), "10-amazing-secrets");
}

#[test]
fn test_contains_numbers() {
    assert_eq!(slugify("the 101 dalmatians", "", "-", None), "the-101-dalmatians");
}

#[test]
fn test_ends_with_number() {
    assert_eq!(slugify("lucky number 7", "", "-", None), "lucky-number-7");
}

#[test]
fn test_numbers_only() {
    assert_eq!(slugify("101", "", "-", None), "101");
}

#[test]
fn test_numbers_and_symbols() {
    assert_eq!(slugify("1000 reasons you are #1", "", "-", None), "1000-reasons-you-are-1");
}

#[test]
fn test_stop_words() {
    assert_eq!(slugify("hello world", "world", "-", None), "hello");
    assert_eq!(slugify("hello world", "world", "-", None), "hello");
}

#[test]
fn test_differently_cased_stopword_match() {
    assert_eq!(slugify("Foo A FOO B foo C", "foo", "-", None), "a-b-c");
}

#[test]
fn test_multiple_stop_words() {
    assert_eq!(
        slugify("the quick brown fox jumps over the lazy dog", "the", "-", None),
        "quick-brown-fox-jumps-over-lazy-dog"
    );
    assert_eq!(
        slugify("the quick brown fox jumps over the lazy dog", "the,fox", "-", None),
        "quick-brown-jumps-over-lazy-dog"
    );
    assert_eq!(
        slugify("the quick brown fox jumps over the lazy dog", "the,fox", "-", None),
        "quick-brown-jumps-over-lazy-dog"
    );
}

#[test]
fn test_stopwords_with_different_separator() {
    assert_eq!(
        slugify("the quick brown fox jumps over the lazy dog", "the", " ", None),
        "quick brown fox jumps over lazy dog"
    );
    assert_eq!(
        slugify("the quick brown fox jumps over the lazy dog", "the", " ", None),
        "quick brown fox jumps over lazy dog"
    );
}

#[test]
fn test_separator() {
    assert_eq!(slugify("hello world", "", ".", None), "hello.world");
    assert_eq!(slugify("hello world", "", "_", None), "hello_world");
    assert_eq!(slugify("hello world", "", "_", None), "hello_world");
}

#[test]
fn test_phonetic_conversion() {
    assert_eq!(slugify("影師嗎", "", "-", None), "ying-shi-ma");
}

#[test]
fn test_accented_text() {
    assert_eq!(slugify("Æúű--cool?", "", "-", None), "aeuu-cool");
    assert_eq!(slugify("Nín hǎo. Wǒ shì zhōng guó rén", "", "-", None), "nin-hao-wo-shi-zhong-guo-ren");
}

#[test]
fn test_accented_text_non_word_chars() {
    assert_eq!(slugify("jaja---lol-méméméoo--a", "", "-", None), "jaja-lol-mememeoo-a");
}

#[test]
fn test_cyrillic_text() {
    assert_eq!(slugify("Компьютер", "", "-", None), "komp-iuter");
}

#[test]
fn test_macro() {
    assert_eq!(slugify("Компьютер", "", "-", None), "komp-iuter");
    assert_eq!(slugify("hello world", "", "-", None), "hello-world");
    assert_eq!(slugify("hello world", "", " ", None), "hello world");
    assert_eq!(slugify("hello world", "", "-", Some(5)), "hello");
    assert_eq!(slugify("hello world", "", "-", Some(6)), "hello");
    assert_eq!(slugify("hello world", "", " ", Some(8)), "hello wo");
    assert_eq!(slugify("hello world", "", "x", Some(8)), "helloxwo");
    assert_eq!(slugify("the hello world", "the", "-", None), "hello-world");
    assert_eq!(slugify("the hello world", "the", "-", Some(5)), "hello");
    assert_eq!(slugify("the hello world", "the", "-", Some(10)), "hello-worl");
    assert_eq!(slugify("the hello world", "the", "-", Some(20)), "hello-world");
}

#[test]
fn empty_separator_joins_words() {
    assert_eq!(slugify("hello world", "", "", None), "helloworld");
    assert_eq!(slugify("hello-world", "", "", None), "helloworld");
    assert_eq!(slugify("hello-world", "", "", Some(7)), "hellowo");
}

#[test]
fn empty_input_gives_empty_slug() {
    assert_eq!(slugify("", "", "-", None), "");
    assert_eq!(slugify("  --  ", "", "-", None), "");
    assert_eq!(slugify("hello", "", "-", Some(0)), "");
}

#[test]
fn reslugifying_changes_nothing() {
    for s in ["Hello, World!", "  Æúű--cool? ", "影師嗎", "a--b__c", "-x-"] {
        let once = slugify(s, "", "-", None);
        assert_eq!(slugify(&once, "", "-", None), once);
    }
}

#[test]
fn result_alphabet_and_separator_placement() {
    let r = slugify("  __Hello,,  World!! 42 __ ", "", "_", None);
    assert_eq!(r, "hello_world_42");
    assert!(r.chars().all(|c| c.is_ascii_lowercase() || c.is_ascii_digit() || c == '_'));
    assert!(!r.starts_with('_') && !r.ends_with('_'));
    assert!(!r.contains("__"));
}

#[test]
fn length_cap_strips_exposed_separator() {
    let r = slugify("hello world again", "", "-", Some(6));
    assert_eq!(r, "hello");
    assert!(r.chars().count() <= 6);
    assert_eq!(slugify("ab cd", "", "-", Some(100)), "ab-cd");
}

#[test]
fn stop_word_is_gone() {
    let r = slugify("the cat and the hat", "the,and", "-", None);
    assert_eq!(r, "cat-hat");
    assert!(!r.contains("the") && !r.contains("and"));
    assert_eq!(slugify("feather", "the", "-", None), "fea-r");
}

#[test]
fn transliterated_input_is_used_as_given() {
    assert_eq!(slugify_transliterated("Hello World", "", "-", None), "hello-world");
    assert_eq!(slugify_transliterated("Æb", "", "-", None), "b");
    assert_eq!(slugify("Æb", "", "-", None), "aeb");
}

#[test]
fn multi_character_separator_is_used_whole_between_words() {
    assert_eq!(slugify("a b", "", "-x", None), "a-xb");
}

#[test]
fn options_resolve_to_the_full_call() {
    let d = SlugOptions::default();
    assert_eq!(slugify_with("hello world", &d), "hello-world");
    assert_eq!(slugify_with("hello world", &SlugOptions::default().separator(".")), "hello.world");
    assert_eq!(slugify_with("hello world", &SlugOptions::default().max_length(5)), "hello");
    assert_eq!(
        slugify_with("the hello world", &SlugOptions::default().stop_words("the").separator("-")),
        "hello-world"
    );
    assert_eq!(
        slugify_with("the hello world", &SlugOptions::default().separator(".").max_length(10)),
        "the.hello"
    );
    assert_eq!(
        slugify_with("the hello world", &SlugOptions::default().stop_words("the").max_length(5)),
        "hello"
    );
    assert_eq!(
        slugify_with(
            "the hello world",
            &SlugOptions::default().stop_words("the").separator("-").max_length(20)
        ),
        "hello-world"
    );
}
