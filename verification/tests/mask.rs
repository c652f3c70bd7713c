use contact_relay::email::looks_like_email;
use contact_relay::mask::{conceal, mask_email, mask_secret, CONCEALED_LEN};

#[test]
fn secret_shows_its_prefix_and_at_least_four_stars() {
    assert_eq!(mask_secret("", 2), "<empty>");
    assert_eq!(mask_secret("", 0), "<empty>");
    assert_eq!(mask_secret("hunter2", 2), "hu*****");
    assert_eq!(mask_secret("abc", 2), "ab****");
    assert_eq!(mask_secret("ab", 2), "ab****");
    assert_eq!(mask_secret("a", 5), "a****");
    assert_eq!(mask_secret("password", 0), "********");
    assert_eq!(mask_secret("pässwörd!", 3), "päs******");
    assert_eq!(mask_secret("x", usize::MAX), "x****");
}

#[test]
fn email_keeps_half_of_the_local_part_and_the_domain() {
    assert_eq!(mask_email("alice@example.com"), "ali**@example.com");
    assert_eq!(mask_email("bob@example.com"), "bo*@example.com");
    assert_eq!(mask_email("ab@x"), "a*@x");
    assert_eq!(mask_email("a@x"), "a*@x");
    assert_eq!(mask_email("@x"), "*@x");
    assert_eq!(mask_email("a@b@c"), "a*@b@c");
    assert_eq!(mask_email("éèà@x"), "éè*@x");
    assert_eq!(mask_email("user@"), "us**@");
}

#[test]
fn text_without_an_at_sign_is_masked_as_a_secret() {
    assert_eq!(mask_email("noat"), "no****");
    assert_eq!(mask_email("administrator"), "ad***********");
    assert_eq!(mask_email(""), "<empty>");
}

#[test]
fn address_shape() {
    assert!(looks_like_email("a@b.c"));
    assert!(looks_like_email("team@example.com"));
    assert!(looks_like_email("a@b@c"));
    assert!(looks_like_email("é@bc"));
    assert!(!looks_like_email("a@b"));
    assert!(!looks_like_email("é@b"));
    assert!(!looks_like_email("@abcd"));
    assert!(!looks_like_email("abcd@"));
    assert!(!looks_like_email("a@@bc"));
    assert!(!looks_like_email("abcde"));
    assert!(!looks_like_email(""));
    assert!(!looks_like_email("@"));
}

#[test]
fn concealed_secret_is_a_fixed_run_of_asterisks() {
    assert_eq!(conceal(), "********");
    assert_eq!(conceal().chars().count(), CONCEALED_LEN);
}
