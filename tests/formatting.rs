use core::fmt::{Display, Formatter, Result};
use fmt_compare_nostd::{eq_debug, eq_debug_traced, eq_display, eq_display_traced};

#[derive(Debug)]
struct D {}

impl Display for D {
    fn fmt(&self, f: &mut Formatter<'_>) -> Result {
        f.write_str("Display D")
    }
}

/// Writes its rendering as three pieces, one of them empty.
struct Pieces {}

impl Display for Pieces {
    fn fmt(&self, f: &mut Formatter<'_>) -> Result {
        f.write_str("ab")?;
        f.write_str("")?;
        f.write_str("c")
    }
}

/// Writes nothing at all.
struct Blank {}

impl Display for Blank {
    fn fmt(&self, _f: &mut Formatter<'_>) -> Result {
        Ok(())
    }
}

/// Writes the expected text, then reports a failure of its own.
struct Failing {}

impl Display for Failing {
    fn fmt(&self, f: &mut Formatter<'_>) -> Result {
        f.write_str("ok")?;
        Err(core::fmt::Error)
    }
}

#[test]
fn it_works() {
    assert!(eq_display(&D {}, "Display D"));
}

#[test]
fn too_short() {
    assert!(!eq_display(&D {}, "Display"));
}

#[test]
fn too_long() {
    assert!(!eq_display(&D {}, "Display DD"));
}

#[test]
fn different() {
    assert!(!eq_display(&D {}, "Totally different str"));
}

#[test]
fn lib_it_works() {
    assert!(eq_debug(&D {}, "D"));
}

#[test]
fn lib_too_short() {
    assert!(!eq_debug(&D {}, ""));
}

#[test]
fn lib_too_long() {
    assert!(!eq_debug(&D {}, "DD"));
}

#[test]
fn lib_different() {
    assert!(!eq_debug(&D {}, "A"));
}

#[test]
fn pieces_with_empty_chunk_match() {
    assert!(eq_display(&Pieces {}, "abc"));
    assert!(!eq_display(&Pieces {}, "ab"));
    assert!(!eq_display(&Pieces {}, "abcd"));
}

#[test]
fn empty_rendering() {
    assert!(eq_display(&Blank {}, ""));
    assert!(!eq_display(&Blank {}, "x"));
}

#[test]
fn formatting_failure_is_a_mismatch() {
    assert!(!eq_display(&Failing {}, "ok"));
}

#[test]
fn debug_of_std_values() {
    assert!(eq_debug(&Some(42u8), "Some(42)"));
    assert!(eq_debug(&"hé", "\"hé\""));
    assert!(!eq_debug(&vec![1, 2], "[1, 2 ]"));
    assert!(eq_display(&12345u32, "12345"));
}

#[test]
fn traced_outcome_and_status() {
    let (r, ok, _) = eq_display_traced(&D {}, "Display D");
    assert!(r && ok);
    let (r, ok, _) = eq_display_traced(&D {}, "Display");
    assert!(!r && !ok);
    let (r, ok, _) = eq_display_traced(&Blank {}, "x");
    assert!(!r && ok);
    let (r, ok, _) = eq_display_traced(&Failing {}, "ok");
    assert!(!r && !ok);
    let (r, ok, _) = eq_debug_traced(&D {}, "D");
    assert!(r && ok);
    let (r, ok, _) = eq_debug_traced(&D {}, "DD");
    assert!(!r && ok);
}
