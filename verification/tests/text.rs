use scavenger_hunt::matcher::{answers_match, normalize, remove_accent};
use scavenger_hunt::media::{image_filename, media_filename_in, media_filename_out};
use scavenger_hunt::password;
use scavenger_hunt::errors::ServerError;
use scavenger_hunt::text::{characters, decimal_string, string_of, trim};

const HASH_OF_PASSWORD: &str =
    "$argon2id$v=19$m=256,t=2,p=1$c29tZXNhbHQ$nf65EOgLrQMR/uIPnA4rEsF5h7TKyQwu9U1bMCHGi/4";

#[test]
fn trim_strips_whitespace_at_both_ends() {
    assert_eq!(trim("  go there  "), "go there");
    assert_eq!(trim(" what is the color of the sky?  "), "what is the color of the sky?");
    assert_eq!(trim("blue"), "blue");
    assert_eq!(trim("\t\n blue \r\n"), "blue");
    assert_eq!(trim("\u{a0}\u{3000}blue\u{2003}"), "blue");
    assert_eq!(trim("a  b"), "a  b");
    assert_eq!(trim(" \u{e9}t\u{e9} "), "\u{e9}t\u{e9}");
}

#[test]
fn trim_of_whitespace_alone_is_empty() {
    assert_eq!(trim(""), "");
    assert_eq!(trim("   "), "");
    assert_eq!(trim("\t\n"), "");
}

#[test]
fn trim_keeps_what_is_no_whitespace() {
    assert_eq!(trim("_blue_"), "_blue_");
    assert_eq!(trim("\u{200b}blue"), "\u{200b}blue");
    assert_eq!(trim(" . "), ".");
}

#[test]
fn characters_and_back() {
    assert_eq!(characters("a\u{e9}z"), vec!['a', '\u{e9}', 'z']);
    assert_eq!(characters(""), Vec::<char>::new());
    let v = vec!['h', 'e', 'l', 'l', 'o'];
    assert_eq!(string_of(&v, 0, 5), "hello");
    assert_eq!(string_of(&v, 1, 3), "el");
    assert_eq!(string_of(&v, 2, 2), "");
}

#[test]
fn decimal_string_writes_every_integer() {
    assert_eq!(decimal_string(0), "0");
    assert_eq!(decimal_string(7), "7");
    assert_eq!(decimal_string(10), "10");
    assert_eq!(decimal_string(12), "12");
    assert_eq!(decimal_string(1009), "1009");
    assert_eq!(decimal_string(-1), "-1");
    assert_eq!(decimal_string(-120), "-120");
    assert_eq!(decimal_string(2147483647), "2147483647");
    assert_eq!(decimal_string(-2147483648), "-2147483648");
}

#[test]
fn accents_of_e_are_removed() {
    assert_eq!(remove_accent('\u{e9}'), 'e');
    assert_eq!(remove_accent('\u{ea}'), 'e');
    assert_eq!(remove_accent('\u{e8}'), 'e');
    assert_eq!(remove_accent('\u{c9}'), 'E');
    assert_eq!(remove_accent('\u{ca}'), 'E');
    assert_eq!(remove_accent('\u{c8}'), 'E');
    assert_eq!(remove_accent('e'), 'e');
    assert_eq!(remove_accent('\u{e0}'), '\u{e0}');
    assert_eq!(remove_accent('\u{eb}'), '\u{eb}');
    assert_eq!(remove_accent('\''), '\'');
}

#[test]
fn normalize_keeps_letters_numbers_and_whitespace() {
    assert_eq!(normalize("Le Parc de la T\u{ea}te d'Or"), "Le Parc de la Tete dOr");
    assert_eq!(normalize("parc tete dor"), "parc tete dor");
    assert_eq!(normalize("  Blue, 42!  "), "  Blue 42  ");
    assert_eq!(normalize("\u{c9}t\u{e9}\t(\u{e8}re)"), "Ete\tere");
    assert_eq!(normalize("a-b_c.d"), "abcd");
    assert_eq!(normalize("\u{e0} \u{e7}a"), "\u{e0} \u{e7}a");
    assert_eq!(normalize("?!"), "");
    assert_eq!(normalize(""), "");
}

#[test]
fn close_answers_are_right() {
    assert!(answers_match("blue", "blue"));
    assert!(answers_match("parc tete dor", "Le Parc de la T\u{ea}te d'Or"));
    assert!(answers_match("Le Parc de la T\u{ea}te d'Or", "Le Parc de la T\u{ea}te d'Or"));
    assert!(answers_match("le parc de la tete d'or", "Le Parc de la T\u{ea}te d'Or"));
    assert!(answers_match("t\u{ea}te", "Le Parc de la T\u{ea}te d'Or"));
    assert!(answers_match("BLUE", "blue"));
    assert!(answers_match("  b l u e  ", "blue"));
    assert!(answers_match("bl", "blue"));
    assert!(answers_match("b.l.u.e!", "blue"));
}

#[test]
fn unrelated_answers_are_wrong() {
    assert!(!answers_match("yellow", "blue"));
    assert!(!answers_match("blues", "blue"));
    assert!(!answers_match("eulb", "blue"));
    assert!(!answers_match("green", "Le Parc de la T\u{ea}te d'Or"));
}

#[test]
fn empty_answers_are_wrong() {
    assert!(!answers_match("", "blue"));
    assert!(!answers_match("   ", "blue"));
    assert!(!answers_match("?!", "blue"));
    assert!(!answers_match("blue", ""));
    assert!(!answers_match("", ""));
}

#[test]
fn password_is_verified_against_its_hash() {
    assert!(password::verify("password", HASH_OF_PASSWORD));
    assert!(!password::verify("sassword", HASH_OF_PASSWORD));
    assert!(!password::verify("", HASH_OF_PASSWORD));
    assert!(!password::verify(" password", HASH_OF_PASSWORD));
}

#[test]
fn nothing_verifies_against_what_is_no_hash() {
    assert!(!password::verify("password", "password"));
    assert!(!password::verify("password", ""));
    assert!(!password::verify("", ""));
    assert!(!password::verify("password", "$argon2id$v=19$m=256,t=2,p=1$c29tZXNhbHQ"));
}

#[test]
fn hash_is_salted_and_verifies() {
    let first = password::hash("Test password").unwrap();
    let second = password::hash("Test password").unwrap();
    assert_ne!(first, "Test password");
    assert!(first.starts_with("$argon2id$"));
    assert_ne!(first, second);
    assert!(password::verify("Test password", &first));
    assert!(password::verify("Test password", &second));
    assert!(!password::verify("Wrong test password", &first));
}

#[test]
fn hash_takes_an_empty_password() {
    let hashed: Result<String, ServerError> = password::hash("");
    let hashed = hashed.unwrap();
    assert!(password::verify("", &hashed));
    assert!(!password::verify(" ", &hashed));
}

#[test]
fn image_is_named_after_the_step() {
    assert_eq!(image_filename(12), "data/items/images/12.jpg");
    assert_eq!(image_filename(0), "data/items/images/0.jpg");
    assert_eq!(image_filename(-3), "data/items/images/-3.jpg");
}

#[test]
fn media_is_named_after_the_step_and_its_extension() {
    assert_eq!(media_filename_in(3, &"mp3".to_string()), "data/items/medias/3.mp3");
    assert_eq!(media_filename_in(3, &String::new()), "data/items/medias/3");
    assert_eq!(media_filename_in(1200, &"tar.gz".to_string()), "data/items/medias/1200.tar.gz");
}

#[test]
fn media_is_found_by_the_stem_of_its_name() {
    let names = vec![
        Some("1.jpg".to_string()),
        Some("12.mp3".to_string()),
        Some("12.wav".to_string()),
        Some("7".to_string()),
        Some("8.tar.gz".to_string()),
        Some(".9".to_string()),
        Some("010.mp3".to_string()),
    ];
    assert_eq!(media_filename_out(12, &names), Some(1));
    assert_eq!(media_filename_out(1, &names), Some(0));
    assert_eq!(media_filename_out(7, &names), Some(3));
    assert_eq!(media_filename_out(8, &names), Some(4));
    assert_eq!(media_filename_out(2, &names), None);
    assert_eq!(media_filename_out(9, &names), None);
    assert_eq!(media_filename_out(10, &names), None);
    assert_eq!(media_filename_out(121, &names), None);
    assert_eq!(media_filename_out(12, &Vec::new()), None);
}

#[test]
fn media_search_ends_at_a_name_that_is_no_text() {
    let names = vec![Some("1.jpg".to_string()), None, Some("12.mp3".to_string())];
    assert_eq!(media_filename_out(1, &names), Some(0));
    assert_eq!(media_filename_out(12, &names), None);
}
