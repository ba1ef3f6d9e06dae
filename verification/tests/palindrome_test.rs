use learn_rs::my_algorithms::palindrome::{is_palindrome, is_palindrome_regex};

#[test]
fn palindrome_test() {
    // palindrome samples
    assert!(is_palindrome("A man, a plan, a canal: Panama!"));
    assert!(is_palindrome("Dammit I’m mad."));
    assert!(is_palindrome("Engage le jeu que je le gagne."));
    assert!(is_palindrome("I topi non avevano nipoti."));
    assert!(is_palindrome("Autore, ero tua."));
    assert!(is_palindrome("Socorram-me subi no onibus em Marrocos."));
    assert!(is_palindrome("A mala nada na lama."));
    assert!(is_palindrome("А тот суп – пустота."));
    assert!(is_palindrome("Нажал кабан на баклажан."));

    // non-palindrome samples
    assert!(!is_palindrome("Lorem ipsum dolor sit amet,"));
    assert!(!is_palindrome("consectetur adipiscing elit,"));
    assert!(!is_palindrome(
        "sed do eiusmod tempor incididunt ut labore et dolore magna aliqua."
    ));
    assert!(!is_palindrome("A plan, a man, a canal: Panama!"));
    assert!(!is_palindrome("Нажал баклажан на кабан."));
}

#[test]
fn palindrome_regex_test() {
    assert!(is_palindrome_regex("A man, a plan, a canal: Panama!"));
    assert!(!is_palindrome_regex("A plan, a man, a canal: Panama!"));
}

#[test]
fn palindrome_empty_is_not() {
    assert!(!is_palindrome(""));
}
