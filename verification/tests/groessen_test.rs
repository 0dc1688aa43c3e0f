use matrix_benchmark::fehler::Fehler;
use matrix_benchmark::groessen::konvertieren;

#[test]
fn folge_bis_dreissig() {
    assert_eq!(konvertieren(6, "30"), Ok(vec![6, 10, 16, 22, 28, 30]));
}

#[test]
fn folge_mit_leerraum_im_ziel() {
    assert_eq!(konvertieren(6, " 40 "), Ok(vec![6, 10, 16, 22, 28, 34, 40]));
}

#[test]
fn folge_ueber_die_bereiche() {
    let folge = konvertieren(6, "2500").unwrap();
    assert_eq!(folge.first(), Some(&6));
    assert_eq!(folge.last(), Some(&2500));
    for fenster in folge.windows(2) {
        assert!(fenster[0] < fenster[1]);
        let schritt = match fenster[0] {
            0..=9 => 4,
            10..=99 => 6,
            100..=999 => 100,
            1000..=9999 => 500,
            _ => 1000,
        };
        assert!(fenster[1] == fenster[0] + schritt || fenster[1] == *folge.last().unwrap());
    }
}

#[test]
fn ziel_muss_lesbar_und_groesser_sein() {
    assert_eq!(konvertieren(6, "5"), Err(Fehler::Konfiguration));
    assert_eq!(konvertieren(6, "6"), Err(Fehler::Konfiguration));
    assert_eq!(konvertieren(6, "abc"), Err(Fehler::Konfiguration));
    assert_eq!(konvertieren(6, ""), Err(Fehler::Konfiguration));
}

#[test]
fn folge_ab_null() {
    assert_eq!(konvertieren(0, "3"), Ok(vec![0, 3]));
}
