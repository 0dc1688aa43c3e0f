use matrix_benchmark::eingabe::{dateiname, kern_umwandeln, n_umwandeln, Settings};
use matrix_benchmark::fehler::Fehler;

#[test]
fn n_umwandeln_sortiert_und_eindeutig() {
    assert_eq!(n_umwandeln("3,1,2,2"), Ok(vec![1, 2, 3]));
}

#[test]
fn n_umwandeln_mit_leerraum() {
    assert_eq!(n_umwandeln(" 10 , 30 ,100"), Ok(vec![10, 30, 100]));
}

#[test]
fn n_umwandeln_ohne_komma() {
    assert_eq!(n_umwandeln("5"), Err(Fehler::Konfiguration));
}

#[test]
fn n_umwandeln_unlesbares_stueck() {
    assert_eq!(n_umwandeln("1,x"), Err(Fehler::Konfiguration));
    assert_eq!(n_umwandeln("1,"), Err(Fehler::Konfiguration));
    assert_eq!(n_umwandeln("1,4294967296"), Err(Fehler::Konfiguration));
}

#[test]
fn kern_umwandeln_kommaform() {
    assert_eq!(kern_umwandeln("1,3,2", 4), Ok(vec![1, 2, 3]));
}

#[test]
fn kern_umwandeln_spanne() {
    assert_eq!(kern_umwandeln("2-5", 8), Ok(vec![2, 3, 4, 5]));
    assert_eq!(kern_umwandeln("3-3", 8), Ok(vec![3]));
}

#[test]
fn kern_umwandeln_verworfen() {
    assert_eq!(kern_umwandeln("5", 8), Err(Fehler::Konfiguration));
    assert_eq!(kern_umwandeln("1,9", 4), Err(Fehler::Konfiguration));
    assert_eq!(kern_umwandeln("3-1", 8), Err(Fehler::Konfiguration));
    assert_eq!(kern_umwandeln("1-2-3", 8), Err(Fehler::Konfiguration));
    assert_eq!(kern_umwandeln("2-9", 8), Err(Fehler::Konfiguration));
}

#[test]
fn dateiname_endung() {
    assert_eq!(dateiname("ergebnis"), "ergebnis.txt".to_string());
    assert_eq!(dateiname("matrix.txt"), "matrix.txt".to_string());
}

#[test]
fn einstellungen_tragen_ihre_felder() {
    let s = Settings {
        kerne: vec![0, 1],
        n: vec![6, 10],
        threads: 2,
        log: "matrix.txt".to_string(),
        flagge: true,
    };
    assert_eq!(s.kerne, vec![0, 1]);
    assert_eq!(s.n, vec![6, 10]);
    assert_eq!(s.threads, 2);
    assert_eq!(s.log, "matrix.txt");
    assert!(s.flagge);
}

#[test]
fn fehlerarten_unterscheidbar() {
    assert_ne!(Fehler::Konfiguration, Fehler::Topologie);
    assert_ne!(Fehler::Berechnung, Fehler::EinAusgabe);
    assert_eq!(Fehler::Konfiguration, Fehler::Konfiguration);
}
