use matrix_benchmark::matrix::{teilbereiche, Bereich};

#[test]
fn teilbereiche_sechs_durch_drei() {
    let r = teilbereiche(6, 3);
    assert_eq!(
        r,
        vec![
            Bereich { anfang: 0, ende: 2 },
            Bereich { anfang: 2, ende: 4 },
            Bereich { anfang: 4, ende: 6 },
        ]
    );
}

#[test]
fn teilbereiche_zehn_durch_drei() {
    let r = teilbereiche(10, 3);
    assert_eq!(
        r,
        vec![
            Bereich { anfang: 0, ende: 4 },
            Bereich { anfang: 4, ende: 7 },
            Bereich { anfang: 7, ende: 10 },
        ]
    );
}

#[test]
fn teilbereiche_ein_arbeiter() {
    let r = teilbereiche(6, 1);
    assert_eq!(r, vec![Bereich { anfang: 0, ende: 6 }]);
}

#[test]
fn teilbereiche_klemmung() {
    let r = teilbereiche(4, 9);
    assert_eq!(r.len(), 4);
    for (z, b) in r.iter().enumerate() {
        assert_eq!(b.anfang, z);
        assert_eq!(b.ende, z + 1);
    }
}

#[test]
fn teilbereiche_rein() {
    let r1 = teilbereiche(1000, 7);
    let r2 = teilbereiche(1000, 7);
    assert_eq!(r1, r2);
}

#[test]
fn teilbereiche_deckung() {
    for n in [1usize, 2, 5, 10, 17, 100] {
        for k in [1usize, 2, 3, 7, 10, 23] {
            let r = teilbereiche(n, k);
            let mut getroffen = vec![0usize; n];
            let mut laengen: Vec<usize> = Vec::new();
            for b in &r {
                assert!(b.anfang <= b.ende && b.ende <= n);
                laengen.push(b.ende - b.anfang);
                for zeile in b.anfang..b.ende {
                    getroffen[zeile] += 1;
                }
            }
            for zeile in 0..n {
                assert_eq!(getroffen[zeile], 1);
            }
            let summe: usize = laengen.iter().sum();
            assert_eq!(summe, n);
            let kleinste = laengen.iter().min().unwrap();
            let groesste = laengen.iter().max().unwrap();
            assert!(groesste - kleinste <= 1);
        }
    }
}
