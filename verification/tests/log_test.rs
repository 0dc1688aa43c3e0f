use matrix_benchmark::log::{kopfzeile, messzeile, speichern};
use matrix_benchmark::topologie::ProzessorSpecs;

fn testprozessor() -> ProzessorSpecs {
    ProzessorSpecs {
        name: "TestCPU".to_string(),
        logisch: 8,
        physisch: 4,
        hyperthreading: 2,
    }
}

#[test]
fn kopfzeile_nach_muster() {
    assert_eq!(kopfzeile(&testprozessor()), "TestCPU,8,4,2");
}

#[test]
fn messzeile_nach_muster() {
    assert_eq!(messzeile(2, 6, "1.25"), "2,6,1.25");
}

#[test]
fn frische_datei_mit_kopfzeile() {
    let inhalt = speichern(
        false,
        &vec![6],
        &vec!["1.25".to_string()],
        2,
        &testprozessor(),
    );
    assert_eq!(inhalt, "TestCPU,8,4,2\n2,6,1.25\n");
}

#[test]
fn bestehende_datei_ohne_kopfzeile() {
    let inhalt = speichern(
        true,
        &vec![6, 10],
        &vec!["1.25".to_string(), "2.5".to_string()],
        3,
        &testprozessor(),
    );
    assert_eq!(inhalt, "3,6,1.25\n3,10,2.5\n");
}

#[test]
fn ueberzaehlige_groessen_bleiben_aussen() {
    let inhalt = speichern(
        true,
        &vec![6, 10, 20],
        &vec!["1.0".to_string()],
        2,
        &testprozessor(),
    );
    assert_eq!(inhalt, "2,6,1.0\n");
}
