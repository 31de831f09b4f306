use product_search::index::{has_position, intersect};
use product_search::text::{chars_of, contains_chars, matches_at, str_contains};

#[test]
fn characters_in_order() {
    assert_eq!(chars_of("abc"), vec!['a', 'b', 'c']);
    assert_eq!(chars_of(""), Vec::<char>::new());
    assert_eq!(chars_of("Móv"), vec!['M', 'ó', 'v']);
}

#[test]
fn occurrence_at_an_offset() {
    let hay = chars_of("Laptop");
    let top = chars_of("top");
    assert!(matches_at(&top, &hay, 3));
    assert!(!matches_at(&top, &hay, 2));
    assert!(!matches_at(&top, &hay, 0));
    assert!(matches_at(&Vec::new(), &hay, 6));
    assert!(matches_at(&hay, &hay, 0));
    assert!(!matches_at(&top, &hay, 4));
    assert!(!matches_at(&top, &hay, 7));
    assert!(!matches_at(&Vec::new(), &hay, 7));
    assert!(!matches_at(&hay, &top, 0));
}

#[test]
fn containment_of_character_runs() {
    let hay = chars_of("Smartphone");
    assert!(contains_chars(&hay, &chars_of("Smart")));
    assert!(contains_chars(&hay, &chars_of("phone")));
    assert!(contains_chars(&hay, &chars_of("rtph")));
    assert!(contains_chars(&hay, &chars_of("e")));
    assert!(contains_chars(&hay, &chars_of("")));
    assert!(!contains_chars(&hay, &chars_of("phones")));
    assert!(!contains_chars(&hay, &chars_of("smart")));
    assert!(!contains_chars(&hay, &chars_of("Smartphone ")));
    assert!(contains_chars(&Vec::new(), &Vec::new()));
    assert!(!contains_chars(&Vec::new(), &chars_of("a")));
}

#[test]
fn containment_of_strings() {
    assert!(str_contains("Laptop", "top"));
    assert!(str_contains("Laptop", "Laptop"));
    assert!(str_contains("Laptop", ""));
    assert!(!str_contains("Laptop", "Tablet"));
    assert!(!str_contains("top", "Laptop"));
    assert!(str_contains("aaab", "aab"));
    assert!(!str_contains("aaab", "aba"));
    assert!(str_contains("Eletrônicos", "ônic"));
    assert!(!str_contains("Eletrônicos", "onic"));
}

#[test]
fn membership_in_a_position_list() {
    let list: Vec<usize> = vec![1, 4, 9];
    assert!(has_position(&list, 1));
    assert!(has_position(&list, 9));
    assert!(!has_position(&list, 0));
    assert!(!has_position(&list, 5));
    assert!(!has_position(&Vec::new(), 0));
}

#[test]
fn intersection_keeps_common_positions_in_order() {
    let left: Vec<usize> = vec![0, 2, 3, 7, 8];
    let right: Vec<usize> = vec![1, 2, 7, 9];
    assert_eq!(intersect(&left, &right), vec![2, 7]);
    assert_eq!(intersect(&right, &left), vec![2, 7]);
    assert_eq!(intersect(&left, &left), left);
    assert_eq!(intersect(&left, &Vec::new()), Vec::<usize>::new());
    assert_eq!(intersect(&Vec::new(), &right), Vec::<usize>::new());
    assert_eq!(intersect(&left, &vec![4, 5, 6]), Vec::<usize>::new());
}
