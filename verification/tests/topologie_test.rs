use matrix_benchmark::fehler::Fehler;
use matrix_benchmark::topologie::{pinnen_liste, ProzessorSpecs};

fn testprozessor() -> ProzessorSpecs {
    ProzessorSpecs {
        name: "TestCPU".to_string(),
        logisch: 8,
        physisch: 4,
        hyperthreading: 2,
    }
}

#[test]
fn cpuinfo_wird_gelesen() {
    let cpuinfo = "processor\t: 0\n\
                   model name\t: TestCPU 9000\n\
                   siblings\t: 8\n\
                   cpu cores\t: 4\n\
                   processor\t: 1\n\
                   model name\t: AndererName\n";
    let p = ProzessorSpecs::new(cpuinfo);
    assert_eq!(p.name, "TestCPU 9000");
    assert_eq!(p.logisch, 8);
    assert_eq!(p.physisch, 4);
    assert_eq!(p.hyperthreading, 2);
}

#[test]
fn cpuinfo_ohne_physische_kerne() {
    let cpuinfo = "model name : Sparsam\nsiblings : 4\n";
    let p = ProzessorSpecs::new(cpuinfo);
    assert_eq!(p.name, "Sparsam");
    assert_eq!(p.logisch, 4);
    assert_eq!(p.physisch, 0);
    assert_eq!(p.hyperthreading, 1);
}

#[test]
fn cpuinfo_unlesbare_zeilen_werden_uebersprungen() {
    let cpuinfo = "siblings : x\nsiblings : 8\ncpu cores\nmodel name :   \nmodel name : Echt\ncpu cores : 0\ncpu cores : 4\n";
    let p = ProzessorSpecs::new(cpuinfo);
    assert_eq!(p.name, "Echt");
    assert_eq!(p.logisch, 8);
    assert_eq!(p.physisch, 4);
}

#[test]
fn pinnen_physische_zuerst() {
    let p = testprozessor();
    assert_eq!(pinnen_liste(6, &p), Ok(vec![0, 2, 4, 6, 1, 3]));
    assert_eq!(pinnen_liste(3, &p), Ok(vec![0, 2, 4]));
    assert_eq!(pinnen_liste(8, &p), Ok(vec![0, 2, 4, 6, 1, 3, 5, 7]));
}

#[test]
fn pinnen_ohne_bekanntes_verhaeltnis() {
    let p = ProzessorSpecs {
        name: "Sparsam".to_string(),
        logisch: 4,
        physisch: 0,
        hyperthreading: 1,
    };
    assert_eq!(pinnen_liste(3, &p), Ok(vec![0, 1, 2]));
}

#[test]
fn pinnen_weist_falsche_anzahl_ab() {
    let p = testprozessor();
    assert_eq!(pinnen_liste(0, &p), Err(Fehler::Konfiguration));
    assert_eq!(pinnen_liste(9, &p), Err(Fehler::Konfiguration));
}

#[test]
fn pinnen_liefert_lauter_verschiedene() {
    let p = testprozessor();
    for anzahl in 1..=8u32 {
        let liste = pinnen_liste(anzahl, &p).unwrap();
        assert_eq!(liste.len(), anzahl as usize);
        for (z1, a) in liste.iter().enumerate() {
            assert!(*a < p.logisch);
            for (z2, b) in liste.iter().enumerate() {
                if z1 != z2 {
                    assert_ne!(a, b);
                }
            }
        }
    }
}
