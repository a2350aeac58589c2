use fmt_compare_nostd::{eq_chunks, verdict, Comparator};

#[test]
fn chunks_with_empty_piece_match() {
    assert!(eq_chunks(&["ab", "", "c"], "abc"));
}

#[test]
fn chunking_does_not_change_the_verdict() {
    let whole: &[&str] = &["Display D"];
    let by_char: &[&str] = &["D", "i", "s", "p", "l", "a", "y", " ", "D"];
    let uneven: &[&str] = &["Disp", "", "lay D"];
    for expected in ["Display D", "Display", "Display DD", "Totally different str", ""] {
        let verdict = eq_chunks(whole, expected);
        assert_eq!(eq_chunks(by_char, expected), verdict);
        assert_eq!(eq_chunks(uneven, expected), verdict);
    }
    assert!(eq_chunks(by_char, "Display D"));
}

#[test]
fn chunk_edge_cases() {
    assert!(eq_chunks(&[], ""));
    assert!(eq_chunks(&["", ""], ""));
    assert!(!eq_chunks(&[], "a"));
    assert!(!eq_chunks(&["a"], ""));
    assert!(!eq_chunks(&["Display"], "Display D"));
    assert!(!eq_chunks(&["Display D", "D"], "Display D"));
    assert!(!eq_chunks(&["Totally"], "Display D"));
}

#[test]
fn multibyte_chunks() {
    assert!(eq_chunks(&["h", "é", "llo"], "héllo"));
    assert!(!eq_chunks(&["h", "e", "llo"], "héllo"));
    assert!(!eq_chunks(&["hé", "ll"], "héllo"));
}

#[test]
fn comparator_steps() {
    let mut cmp = Comparator::new("abc");
    assert!(!cmp.is_valid());
    assert!(cmp.write_str("ab").is_ok());
    assert!(!cmp.is_valid());
    assert!(cmp.write_str("x").is_err());
    assert!(cmp.write_str("").is_ok());
    assert!(cmp.write_str("cd").is_err());
    assert!(cmp.write_str("c").is_ok());
    assert!(cmp.is_valid());
    assert!(cmp.write_str("c").is_err());
    assert!(cmp.write_str("").is_ok());
    assert!(cmp.is_valid());
}

#[test]
fn comparator_exact_chunk() {
    let mut cmp = Comparator::new("Display D");
    assert!(cmp.write_str("Display D").is_ok());
    assert!(cmp.is_valid());
    let mut empty = Comparator::new("");
    assert!(empty.is_valid());
    assert!(empty.write_str("a").is_err());
    assert!(empty.is_valid());
}

#[test]
fn verdict_needs_success_and_full_match() {
    let mut cmp = Comparator::new("ab");
    assert!(!verdict(true, &cmp));
    assert!(cmp.write_str("ab").is_ok());
    assert!(verdict(true, &cmp));
    assert!(!verdict(false, &cmp));
}
