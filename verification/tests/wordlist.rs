use reweave::wordlist::{
    expand_blacklist, filter_words, generate_variants, parse_word_set, remove_non_lowercase, remove_short_words,
};

fn words(ws: &[&str]) -> Vec<String> {
    ws.iter().map(|w| w.to_string()).collect()
}

#[test]
fn variants_of_a_root() {
    assert_eq!(generate_variants("work"), words(&["work", "works", "workes", "workd", "worked", "working"]));
}

#[test]
fn blacklist_expansion_holds_each_variant_once() {
    let mut out = expand_blacklist(&words(&["a", "a"]));
    out.sort();
    assert_eq!(out, words(&["a", "ad", "aed", "aes", "aing", "as"]));
}

#[test]
fn short_and_non_lowercase_words_go() {
    assert_eq!(remove_short_words(words(&["abc", "abcd", "héé"]), 4), words(&["abcd", "héé"]));
    assert_eq!(remove_non_lowercase(words(&["abc", "Abc", "a1", "ok"])), words(&["abc", "ok"]));
}

#[test]
fn blacklisted_words_go() {
    assert_eq!(filter_words(words(&["good", "bad", "fine"]), &words(&["bad"])), words(&["good", "fine"]));
}

#[test]
fn word_set_is_trimmed_lowercase_and_distinct() {
    let mut out = parse_word_set(" Cat\ncat\nDog \n");
    out.sort();
    assert_eq!(out, words(&["cat", "dog"]));
}
