use ownership::case_study;
use ownership::document;
use ownership::slices;

#[test]
fn documents_own_their_words() {
    let mut doc = document::new_document(vec![String::from("hello")]);
    document::add_word(&mut doc, String::from("world"));
    let words = document::get_words(&doc);
    assert_eq!(words, ["hello", "world"]);
}

#[test]
fn add_ten_appends_the_suffix() {
    let out = case_study::add_ten(String::from("nine"));
    assert_eq!(out, "nine plus ten");
}

#[test]
fn returning_ownership_instead_of_references() {
    assert_eq!(case_study::solution1_1(), "Hello world");
    assert_eq!(case_study::solution1_2(), "Hello world");
    assert_eq!(*case_study::solution1_3(), "Hello world");
    let mut slot = String::from("old contents");
    case_study::solution1_4(&mut slot);
    assert_eq!(slot, "Hello world");
}

#[test]
fn joining_names() {
    let name = vec![String::from("Ferris"), String::from("Rustacean")];
    assert_eq!(case_study::stringify_name_with_title(&name), "Ferris Rustacean");
    assert_eq!(case_study::join_with_spaces(&name), "Ferris Rustacean");
    assert_eq!(case_study::join_with_spaces(&vec![]), "");
    assert_eq!(
        case_study::join_with_spaces(&vec![String::from("solo")]),
        "solo"
    );
}

#[test]
fn titling_a_name_without_touching_it() {
    let name = vec![String::from("Ferris"), String::from("Rustacean")];
    assert_eq!(case_study::solution2_1(&name), "Ferris Rustacean Esq.");
    assert_eq!(case_study::solution2_2(&name), "Ferris Rustacean Esq.");
    // the original is untouched by both
    assert_eq!(name.len(), 2);
    assert_eq!(name[1], "Rustacean");
}

#[test]
fn faux_solutions_mutate_or_consume() {
    let mut name = vec![String::from("Ferris"), String::from("Rustacean")];
    assert_eq!(case_study::faux_solution2_1(&mut name), "Ferris Rustacean Esq.");
    // the caller's data now carries the suffix: the surprise
    assert_eq!(name.len(), 3);
    assert_eq!(name[2], "Esq.");

    let name2 = vec![String::from("Ferris")];
    assert_eq!(case_study::faux_solution2_2(name2), "Ferris Esq.");
}

#[test]
fn pushing_only_strings_longer_than_the_largest() {
    let mut dst = vec![
        String::from("like"),
        String::from("a"),
        String::from("good"),
        String::from("neighbor"),
    ];
    let src = [String::from("State Farm"), String::from("tiny")];
    case_study::solution3(&mut dst, &src);
    assert_eq!(dst.len(), 5);
    assert_eq!(dst[4], "State Farm");
}

#[test]
fn all_three_fixes_agree() {
    let src = [String::from("State Farm"), String::from("tiny")];
    let start = vec![
        String::from("like"),
        String::from("a"),
        String::from("good"),
        String::from("neighbor"),
    ];
    let mut a = start.clone();
    let mut b = start.clone();
    let mut c = start.clone();
    case_study::solution3(&mut a, &src);
    case_study::semi_solution3_1(&mut b, &src);
    case_study::semi_solution3_2(&mut c, &src);
    assert_eq!(a, b);
    assert_eq!(b, c);
    assert_eq!(a.last().unwrap(), "State Farm");
}

#[test]
fn copying_out_of_collections() {
    assert_eq!(case_study::safe_copy(), 0);
    assert_eq!(case_study::solution4_2(), "Hello world");
    assert_eq!(case_study::solution4_3(), "Hello world");
}

#[test]
fn first_field_of_a_tuple() {
    let name = (String::from("Ferris"), String::from("Rustacean"));
    assert_eq!(case_study::get_first(&name), "Ferris");
}

#[test]
fn first_word_end_position() {
    assert_eq!(
        slices::the_problem(&String::from("barfoo foo baz bar qux fooqux barbaz")),
        6
    );
    assert_eq!(slices::the_problem(&String::from(" leading")), 0);
    assert_eq!(slices::the_problem(&String::from("nospace")), 7);
    assert_eq!(slices::the_problem(&String::from("")), 0);
}

#[test]
fn cutting_at_the_first_bar() {
    let s = String::from("Never met 'em|Never met 'em");
    let (left, right) = slices::showcase_string_slices(&s);
    assert_eq!(left, "Never met 'em");
    assert_eq!(right, "Never met 'em");

    let s2 = String::from("a|b|c");
    let (l2, r2) = slices::showcase_string_slices(&s2);
    assert_eq!(l2, "a");
    assert_eq!(r2, "b|c");

    let s3 = String::from("|tail");
    let (l3, r3) = slices::showcase_string_slices(&s3);
    assert_eq!(l3, "");
    assert_eq!(r3, "tail");
}

#[test]
fn slicing_at_the_computed_point() {
    // last space at byte 5, so the cut lands at byte 2
    assert_eq!(slices::gimme_a_slice(&String::from("ab cd ef")), "ab");
    // no space: the cut lands at half the length
    assert_eq!(slices::gimme_a_slice(&String::from("abcd")), "ab");
    assert_eq!(slices::gimme_a_slice(&String::from("")), "");
}
