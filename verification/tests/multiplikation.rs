use matrix_benchmark::matrix::{
    multiplikation, multiplikation_geprueft, single_matrixmultiplikation, vergleich, zeilen_band,
    einsetzen, Bereich,
};
use matrix_benchmark::fehler::Fehler;
use matrix_benchmark::zufall::{zufall_matrix, Zufall};

fn nullmatrix(n: usize) -> Vec<Vec<u32>> {
    vec![vec![0u32; n]; n]
}

#[test]
fn kleines_produkt_exakt() {
    let a = vec![vec![1u32, 2], vec![3, 4]];
    let b = vec![vec![5u32, 6], vec![7, 8]];
    let mut c = nullmatrix(2);
    single_matrixmultiplikation(&a, &b, &mut c, 2);
    assert_eq!(c, vec![vec![19u32, 22], vec![43, 50]]);
    let mut p = nullmatrix(2);
    multiplikation(&a, &b, &mut p, 2, 2);
    assert_eq!(p, vec![vec![19u32, 22], vec![43, 50]]);
}

#[test]
fn parallel_gleich_referenz_sechs_mal_sechs() {
    let mut zufall = Zufall::neu(0xDEADBEEFCAFEBABE);
    let a = zufall_matrix(6, &mut zufall);
    let b = zufall_matrix(6, &mut zufall);
    let mut kontrolle = nullmatrix(6);
    single_matrixmultiplikation(&a, &b, &mut kontrolle, 6);
    let mut parallel = nullmatrix(6);
    multiplikation(&a, &b, &mut parallel, 6, 3);
    assert_eq!(kontrolle, parallel);
    assert_eq!(vergleich(&kontrolle, &parallel), None);
}

#[test]
fn parallel_gleich_referenz_viele_threadzahlen() {
    let mut zufall = Zufall::neu(7);
    let a = zufall_matrix(10, &mut zufall);
    let b = zufall_matrix(10, &mut zufall);
    let mut kontrolle = nullmatrix(10);
    single_matrixmultiplikation(&a, &b, &mut kontrolle, 10);
    for k in [1usize, 2, 3, 4, 10, 25] {
        let mut parallel = nullmatrix(10);
        multiplikation(&a, &b, &mut parallel, 10, k);
        assert_eq!(kontrolle, parallel);
    }
}

#[test]
fn band_und_einsetzen() {
    let a = vec![vec![1u32, 2], vec![3, 4]];
    let b = vec![vec![5u32, 6], vec![7, 8]];
    let band = zeilen_band(&a, &b, Bereich { anfang: 1, ende: 2 }, 2);
    assert_eq!(band.len(), 1);
    assert_eq!(band[0].0, 1);
    assert_eq!(band[0].1, vec![43u32, 50]);
    let mut c = nullmatrix(2);
    einsetzen(&mut c, band);
    assert_eq!(c, vec![vec![0u32, 0], vec![43, 50]]);
}

#[test]
fn geprueft_rechnet() {
    let mut zufall = Zufall::neu(3);
    let a = zufall_matrix(5, &mut zufall);
    let b = zufall_matrix(5, &mut zufall);
    let mut c = nullmatrix(5);
    assert_eq!(multiplikation_geprueft(&a, &b, &mut c, 5, 2), Ok(()));
    let mut kontrolle = nullmatrix(5);
    single_matrixmultiplikation(&a, &b, &mut kontrolle, 5);
    assert_eq!(c, kontrolle);
}

#[test]
fn geprueft_weist_grosse_zellen_ab() {
    let a = vec![vec![10u32, 2], vec![3, 4]];
    let b = vec![vec![5u32, 6], vec![7, 8]];
    let mut c = nullmatrix(2);
    assert_eq!(
        multiplikation_geprueft(&a, &b, &mut c, 2, 1),
        Err(Fehler::Berechnung)
    );
    assert_eq!(c, nullmatrix(2));
}

#[test]
fn geprueft_weist_falsche_masse_ab() {
    let a = vec![vec![1u32, 2], vec![3, 4]];
    let b = vec![vec![5u32, 6]];
    let mut c = nullmatrix(2);
    assert_eq!(
        multiplikation_geprueft(&a, &b, &mut c, 2, 1),
        Err(Fehler::Berechnung)
    );
}

#[test]
fn vergleich_meldet_erste_abweichung() {
    let gut = vec![vec![1u32, 2], vec![3, 4]];
    let mut schlecht = gut.clone();
    schlecht[0][1] = 9;
    schlecht[1][0] = 9;
    assert_eq!(vergleich(&gut, &schlecht), Some((0, 1, 2, 9)));
    assert_eq!(vergleich(&gut, &gut), None);
}

#[test]
fn zufallsmatrix_ziffern() {
    let mut zufall = Zufall::neu(11);
    let m = zufall_matrix(8, &mut zufall);
    assert_eq!(m.len(), 8);
    for zeile in &m {
        assert_eq!(zeile.len(), 8);
        for wert in zeile {
            assert!(*wert < 10);
        }
    }
    let erster = m[0][0];
    assert!(m.iter().any(|zeile| zeile.iter().any(|w| *w != erster)));
}

#[test]
fn zufall_deterministisch() {
    let mut z1 = Zufall::neu(42);
    let mut z2 = Zufall::neu(42);
    let a1 = zufall_matrix(6, &mut z1);
    let b1 = zufall_matrix(6, &mut z1);
    let a2 = zufall_matrix(6, &mut z2);
    let b2 = zufall_matrix(6, &mut z2);
    assert_eq!(a1, a2);
    assert_eq!(b1, b2);
}
