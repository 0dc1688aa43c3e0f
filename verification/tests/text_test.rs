use matrix_benchmark::text::{endung_test, praefix_test, putzen, teile, u32_zu_text, zahl_aus_text};

#[test]
fn zahlen_schreiben() {
    assert_eq!(u32_zu_text(0), "0");
    assert_eq!(u32_zu_text(7), "7");
    assert_eq!(u32_zu_text(1234), "1234");
    assert_eq!(u32_zu_text(4294967295), "4294967295");
}

#[test]
fn zahlen_lesen() {
    assert_eq!(zahl_aus_text("42"), Some(42));
    assert_eq!(zahl_aus_text(" 42\t"), Some(42));
    assert_eq!(zahl_aus_text("0"), Some(0));
    assert_eq!(zahl_aus_text("4294967295"), Some(4294967295));
    assert_eq!(zahl_aus_text("4294967296"), None);
    assert_eq!(zahl_aus_text(""), None);
    assert_eq!(zahl_aus_text("  "), None);
    assert_eq!(zahl_aus_text("12x"), None);
    assert_eq!(zahl_aus_text("-3"), None);
}

#[test]
fn runde_zahlen() {
    for wert in [0u32, 1, 9, 10, 99, 100, 1000, 123456789] {
        assert_eq!(zahl_aus_text(&u32_zu_text(wert)), Some(wert));
    }
}

#[test]
fn texte_zerteilen() {
    let stuecke = teile("a,b,,c", ',');
    assert_eq!(stuecke, vec!["a", "b", "", "c"]);
    assert_eq!(teile("abc", ','), vec!["abc"]);
    assert_eq!(teile("", ','), vec![""]);
    assert_eq!(teile(",", ','), vec!["", ""]);
}

#[test]
fn putzen_und_praefix() {
    assert_eq!(putzen("  ab c \t"), "ab c");
    assert_eq!(putzen(""), "");
    assert!(praefix_test("model name : x", "model name"));
    assert!(!praefix_test("model", "model name"));
    assert!(endung_test("matrix.txt", ".txt"));
    assert!(!endung_test("matrix.dat", ".txt"));
    assert!(!endung_test("txt", ".txt"));
}
