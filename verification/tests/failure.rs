use fuzzyrs::failure::build_failure_function;

fn table_of(term: &str) -> Vec<isize> {
    let chars: Vec<char> = term.chars().collect();
    build_failure_function(&chars)
}

#[test]
fn table_of_the_empty_term() {
    assert_eq!(table_of(""), vec![-1]);
}

#[test]
fn table_of_one_character() {
    assert_eq!(table_of("A"), vec![-1, 0]);
}

#[test]
fn table_without_repetition() {
    assert_eq!(table_of("ABC"), vec![-1, 0, 0, 0]);
}

#[test]
fn table_of_a_repeated_character() {
    assert_eq!(table_of("AAAA"), vec![-1, -1, -1, -1, 3]);
    assert_eq!(table_of("AAB"), vec![-1, -1, 1, 0]);
}

#[test]
fn tables_of_textbook_terms() {
    assert_eq!(table_of("ABCDABD"), vec![-1, 0, 0, 0, -1, 0, 2, 0]);
    assert_eq!(table_of("ABACABABC"), vec![-1, 0, -1, 1, -1, 0, -1, 3, 2, 0]);
    assert_eq!(table_of("ABACABABA"), vec![-1, 0, -1, 1, -1, 0, -1, 3, -1, 3]);
    assert_eq!(
        table_of("PARTICIPATE IN PARACHUTE"),
        vec![-1, 0, 0, 0, 0, 0, 0, -1, 0, 2, 0, 0, 0, 0, 0, -1, 0, 0, 3, 0, 0, 0, 0, 0, 0]
    );
}

#[test]
fn table_resumes_on_the_character_not_on_the_entry() {
    // After "ABA" the next "A" continues the border "A".
    assert_eq!(table_of("ABAA"), vec![-1, 0, -1, 1, 1]);
    assert_eq!(table_of("ABAAB"), vec![-1, 0, -1, 1, 0, 2]);
}

#[test]
fn table_has_one_entry_more_than_the_term() {
    for term in ["", "x", "xy", "hello world", "ääää"] {
        let table = table_of(term);
        assert_eq!(table.len(), term.chars().count() + 1);
        assert_eq!(table[0], -1);
    }
}
