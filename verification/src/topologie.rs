use vstd::prelude::*;
use crate::fehler::Fehler;
use crate::text;

verus! {

broadcast use vstd::seq_lib::lemma_seq_contains_after_push;

/// Die Prozessortopologie eines Laufs: Modellname, Zahl der logischen
/// und der physischen Kerne, und das Hyperthreading-Verhaeltnis
/// (logisch je physisch; 1, wenn die physische Zahl unbekannt ist).
pub struct ProzessorSpecs {
    pub name: String,
    pub logisch: u32,
    pub physisch: u32,
    pub hyperthreading: u32,
}

/// Der erste nicht leere, geputzte Wert hinter `:` einer Zeile ab `i`,
/// die mit `model name` beginnt; sonst leer.
pub open spec fn name_ab(zeilen: Seq<Seq<char>>, i: int) -> Seq<char>
    decreases zeilen.len() - i,
    when 0 <= i <= zeilen.len()
{
    if i >= zeilen.len() {
        Seq::<char>::empty()
    } else {
        let z = zeilen[i];
        if text::hat_praefix(z, "model name"@) && text::nach_erstem(z, ':') is Some
            && text::geputzt(text::nach_erstem(z, ':')->0).len() > 0 {
            text::geputzt(text::nach_erstem(z, ':')->0)
        } else {
            name_ab(zeilen, i + 1)
        }
    }
}

/// Der erste lesbare Wert ungleich 0 hinter `:` einer Zeile ab `i`,
/// die mit `praefix` beginnt; sonst 0.
pub open spec fn zahl_ab(zeilen: Seq<Seq<char>>, praefix: Seq<char>, i: int) -> u32
    decreases zeilen.len() - i,
    when 0 <= i <= zeilen.len()
{
    if i >= zeilen.len() {
        0u32
    } else {
        let z = zeilen[i];
        if text::hat_praefix(z, praefix) && text::nach_erstem(z, ':') is Some
            && text::gelesene_zahl(text::nach_erstem(z, ':')->0) is Some && text::gelesene_zahl(
            text::nach_erstem(z, ':')->0,
        )->0 != 0 {
            text::gelesene_zahl(text::nach_erstem(z, ':')->0)->0
        } else {
            zahl_ab(zeilen, praefix, i + 1)
        }
    }
}

impl ProzessorSpecs {
    /// Das Verhaeltnisfeld passt zu den Kernzahlen.
    pub open spec fn wohlgeformt(self) -> bool {
        self.hyperthreading == (if self.physisch > 0 {
            self.logisch / self.physisch
        } else {
            1u32
        })
    }

    /// Liest die Prozessortopologie aus dem Text von `/proc/cpuinfo`:
    /// Modellname, `siblings` (logische Kerne) und `cpu cores`
    /// (physische Kerne), jeweils aus der ersten brauchbaren Zeile.
    pub fn new(cpuinfo: &str) -> (r: ProzessorSpecs)
        ensures
            r.name@ == name_ab(text::zerlegung(cpuinfo@, '\n'), 0),
            r.logisch == zahl_ab(text::zerlegung(cpuinfo@, '\n'), "siblings"@, 0),
            r.physisch == zahl_ab(text::zerlegung(cpuinfo@, '\n'), "cpu cores"@, 0),
            r.wohlgeformt(),
    {
        let ghost ls = text::zerlegung(cpuinfo@, '\n');
        let zeilen: Vec<String> = text::teile(cpuinfo, '\n');
        let mut name: String = String::new();
        let mut logisch: u32 = 0;
        let mut physisch: u32 = 0;
        let mut i: usize = 0;
        proof {
            reveal_strlit("model name");
            reveal_strlit("siblings");
            reveal_strlit("cpu cores");
        }
        while i < zeilen.len()
            invariant
                zeilen@.len() == ls.len(),
                forall|z: int| 0 <= z < zeilen@.len() ==> (#[trigger] zeilen@[z])@ == ls[z],
                0 <= i <= ls.len(),
                name@.len() == 0 ==> name_ab(ls, 0) == name_ab(ls, i as int),
                name@.len() > 0 ==> name_ab(ls, 0) == name@,
                logisch == 0 ==> zahl_ab(ls, "siblings"@, 0) == zahl_ab(ls, "siblings"@, i as int),
                logisch != 0 ==> zahl_ab(ls, "siblings"@, 0) == logisch,
                physisch == 0 ==> zahl_ab(ls, "cpu cores"@, 0) == zahl_ab(
                    ls,
                    "cpu cores"@,
                    i as int,
                ),
                physisch != 0 ==> zahl_ab(ls, "cpu cores"@, 0) == physisch,
            decreases ls.len() - i,
        {
            proof {
                reveal_strlit("model name");
                reveal_strlit("siblings");
                reveal_strlit("cpu cores");
                assert("model name"@[0] != "siblings"@[0]);
                assert("model name"@[0] != "cpu cores"@[0]);
                assert("siblings"@[0] != "cpu cores"@[0]);
            }
            if name.as_str().is_empty() && text::praefix_test(zeilen[i].as_str(), "model name") {
                proof {
                    if text::hat_praefix(ls[i as int], "siblings"@) {
                        assert(ls[i as int][0] == "siblings"@[0]);
                        assert(ls[i as int][0] == "model name"@[0]);
                    }
                    if text::hat_praefix(ls[i as int], "cpu cores"@) {
                        assert(ls[i as int][0] == "cpu cores"@[0]);
                        assert(ls[i as int][0] == "model name"@[0]);
                    }
                }
                match text::nach_zeichen(zeilen[i].as_str(), ':') {
                    Some(wert) => {
                        name = text::putzen(wert.as_str());
                    },
                    None => {},
                }
            } else if logisch == 0 && text::praefix_test(zeilen[i].as_str(), "siblings") {
                proof {
                    if text::hat_praefix(ls[i as int], "model name"@) {
                        assert(ls[i as int][0] == "model name"@[0]);
                        assert(ls[i as int][0] == "siblings"@[0]);
                    }
                    if text::hat_praefix(ls[i as int], "cpu cores"@) {
                        assert(ls[i as int][0] == "cpu cores"@[0]);
                        assert(ls[i as int][0] == "siblings"@[0]);
                    }
                }
                match text::nach_zeichen(zeilen[i].as_str(), ':') {
                    Some(wert) => {
                        match text::zahl_aus_text(wert.as_str()) {
                            Some(zahl) => {
                                logisch = zahl;
                            },
                            None => {},
                        }
                    },
                    None => {},
                }
            } else if physisch == 0 && text::praefix_test(zeilen[i].as_str(), "cpu cores") {
                proof {
                    if text::hat_praefix(ls[i as int], "model name"@) {
                        assert(ls[i as int][0] == "model name"@[0]);
                        assert(ls[i as int][0] == "cpu cores"@[0]);
                    }
                    if text::hat_praefix(ls[i as int], "siblings"@) {
                        assert(ls[i as int][0] == "siblings"@[0]);
                        assert(ls[i as int][0] == "cpu cores"@[0]);
                    }
                }
                match text::nach_zeichen(zeilen[i].as_str(), ':') {
                    Some(wert) => {
                        match text::zahl_aus_text(wert.as_str()) {
                            Some(zahl) => {
                                physisch = zahl;
                            },
                            None => {},
                        }
                    },
                    None => {},
                }
            }
            i = i + 1;
        }
        let hyperthreading: u32 = if physisch > 0 {
            logisch / physisch
        } else {
            1
        };
        ProzessorSpecs { name, logisch, physisch, hyperthreading }
    }
}

/// `x` steht in `v`.
fn enthaelt(v: &Vec<u32>, x: u32) -> (r: bool)
    ensures
        r == v@.contains(x),
{
    let mut q: usize = 0;
    while q < v.len()
        invariant
            0 <= q <= v@.len(),
            forall|z: int| 0 <= z < q ==> (#[trigger] v@[z]) != x,
        decreases v@.len() - q,
    {
        if v[q] == x {
            return true;
        }
        q = q + 1;
    }
    false
}

/// Eine Liste aus `anzahl` verschiedenen Nummern unterhalb von
/// `grenze`, die jede solche Nummer enthaelt, hat wenigstens `grenze`
/// Eintraege.
proof fn lemma_volle_liste(liste: Seq<u32>, grenze: u32)
    requires
        forall|z1: int, z2: int| 0 <= z1 < z2 < liste.len() ==> liste[z1] != liste[z2],
        forall|y: u32| y < grenze ==> liste.contains(y),
    ensures
        liste.len() >= grenze,
{
    broadcast use vstd::seq_lib::seq_to_set_is_finite;

    let ints = liste.map_values(|x: u32| x as int);
    assert(ints.no_duplicates()) by {
        assert forall|z1: int, z2: int|
            0 <= z1 < ints.len() && 0 <= z2 < ints.len() && z1 != z2 implies ints[z1]
            != ints[z2] by {
            if z1 < z2 {
                assert(liste[z1] != liste[z2]);
            } else {
                assert(liste[z2] != liste[z1]);
            }
        }
    }
    ints.unique_seq_to_set();
    let bereich = vstd::set_lib::set_int_range(0, grenze as int);
    vstd::set_lib::lemma_int_range(0, grenze as int);
    assert(bereich.subset_of(ints.to_set())) by {
        assert forall|n: int| bereich.contains(n) implies ints.to_set().contains(n) by {
            let y = n as u32;
            assert(liste.contains(y));
            let w = choose|w: int| 0 <= w < liste.len() && liste[w] == y;
            assert(ints[w] == n);
            assert(ints.contains(n));
        }
    }
    vstd::set_lib::lemma_len_subset(bereich, ints.to_set());
}

/// Jede Nummer unterhalb von `v` kommt in `liste` vor: `v` wurde erst
/// gewaehlt, als alle kleineren schon vergeben waren.
pub open spec fn alle_kleineren_enthalten(liste: Seq<u32>, v: u32) -> bool {
    forall|y: u32| y < v ==> liste.contains(y)
}

/// Baut die Pinn-Reihenfolge fuer `anzahl` Arbeiter: erst ein
/// Bezeichner je physischem Kern (`i * hyperthreading`), dann die
/// uebrigen logischen Bezeichner aufsteigend, bis `anzahl` erreicht
/// ist. Verlangt `1 <= anzahl <= logisch`; sonst ist die Konfiguration
/// ungueltig.
pub fn pinnen_liste(anzahl: u32, prozessor: &ProzessorSpecs) -> (r: Result<Vec<u32>, Fehler>)
    requires
        prozessor.wohlgeformt(),
    ensures
        r is Ok <==> 1 <= anzahl <= prozessor.logisch,
        r is Err ==> r == Err::<Vec<u32>, Fehler>(Fehler::Konfiguration),
        r matches Ok(liste) ==> {
            &&& liste@.len() == anzahl
            &&& forall|z: int| 0 <= z < liste@.len() ==> (#[trigger] liste@[z]) < prozessor.logisch
            &&& forall|z1: int, z2: int|
                0 <= z1 < z2 < liste@.len() ==> liste@[z1] != liste@[z2]
            &&& (prozessor.hyperthreading >= 1 ==> forall|z: int|
                0 <= z < anzahl && z < prozessor.physisch ==> (#[trigger] liste@[z]) == z
                    * prozessor.hyperthreading)
            &&& (prozessor.hyperthreading >= 1 ==> forall|z1: int, z2: int|
                prozessor.physisch <= z1 < z2 < liste@.len() ==> liste@[z1] < liste@[z2])
            &&& (prozessor.hyperthreading >= 1 ==> forall|z: int|
                prozessor.physisch <= z < liste@.len() ==> alle_kleineren_enthalten(
                    liste@,
                    #[trigger] liste@[z],
                ))
        },
{
    if anzahl == 0 || anzahl > prozessor.logisch {
        return Err(Fehler::Konfiguration);
    }
    let ht: u32 = prozessor.hyperthreading;
    let logisch: u32 = prozessor.logisch;
    let mut liste: Vec<u32> = Vec::new();
    let mut i: u32 = 0;
    while i < prozessor.physisch && liste.len() < anzahl as usize
        invariant
            prozessor.wohlgeformt(),
            ht == prozessor.hyperthreading,
            logisch == prozessor.logisch,
            1 <= anzahl <= logisch,
            0 <= i <= prozessor.physisch,
            liste@.len() <= anzahl,
            liste@.len() <= i,
            forall|z: int| 0 <= z < liste@.len() ==> (#[trigger] liste@[z]) < logisch,
            forall|z1: int, z2: int| 0 <= z1 < z2 < liste@.len() ==> liste@[z1] != liste@[z2],
            ht >= 1 ==> liste@.len() == (if i <= anzahl {
                i
            } else {
                anzahl
            }),
            ht >= 1 ==> forall|z: int| 0 <= z < liste@.len() ==> (#[trigger] liste@[z]) == z * ht,
        decreases prozessor.physisch - i,
    {
        proof {
            vstd::arithmetic::div_mod::lemma_fundamental_div_mod(
                logisch as int,
                prozessor.physisch as int,
            );
            vstd::arithmetic::div_mod::lemma_mod_bound(logisch as int, prozessor.physisch as int);
            if ht >= 1 {
                assert((i as int) * (ht as int) <= (prozessor.physisch as int - 1) * (ht as int))
                    by (nonlinear_arith)
                    requires
                        0 <= i as int <= prozessor.physisch as int - 1,
                        ht as int >= 1,
                ;
                assert((prozessor.physisch as int - 1) * (ht as int) == (prozessor.physisch as int)
                    * (ht as int) - ht as int) by (nonlinear_arith);
                assert((i as int) * (ht as int) < logisch as int);
            } else {
                assert((i as int) * (ht as int) == 0) by (nonlinear_arith)
                    requires
                        ht as int == 0,
                ;
            }
        }
        let id: u32 = i * ht;
        if !enthaelt(&liste, id) {
            liste.push(id);
            proof {
                if ht >= 1 {
                    assert forall|z: int| 0 <= z < liste@.len() implies (#[trigger] liste@[z]) == z
                        * ht by {
                        if z < liste@.len() - 1 {
                        } else {
                            assert(liste@[z] == id);
                            assert(z == i as int);
                        }
                    }
                }
            }
        } else {
            proof {
                if ht >= 1 {
                    let w = choose|w: int| 0 <= w < liste@.len() && liste@[w] == id;
                    assert(liste@[w] == (w as int) * (ht as int));
                    assert((w as int) * (ht as int) == (i as int) * (ht as int));
                    assert(w < i);
                    assert((w as int) * (ht as int) < (i as int) * (ht as int))
                        by (nonlinear_arith)
                        requires
                            0 <= w,
                            w < i as int,
                            ht as int >= 1,
                    ;
                }
            }
        }
        i = i + 1;
    }
    let mut id: u32 = 0;
    while id < logisch && liste.len() < anzahl as usize
        invariant
            logisch == prozessor.logisch,
            ht == prozessor.hyperthreading,
            1 <= anzahl <= logisch,
            0 <= id <= logisch,
            liste@.len() <= anzahl,
            forall|z: int| 0 <= z < liste@.len() ==> (#[trigger] liste@[z]) < logisch,
            forall|z1: int, z2: int| 0 <= z1 < z2 < liste@.len() ==> liste@[z1] != liste@[z2],
            liste@.len() < anzahl ==> forall|y: u32| y < id ==> liste@.contains(y),
            ht >= 1 ==> forall|z: int|
                0 <= z < anzahl && z < prozessor.physisch && z < liste@.len() ==> (
                #[trigger] liste@[z]) == z * ht,
            ht >= 1 ==> liste@.len() >= (if anzahl <= prozessor.physisch {
                anzahl as int
            } else {
                prozessor.physisch as int
            }),
            ht >= 1 ==> forall|z1: int, z2: int|
                prozessor.physisch <= z1 < z2 < liste@.len() ==> liste@[z1] < liste@[z2],
            ht >= 1 ==> forall|z: int|
                prozessor.physisch <= z < liste@.len() ==> (#[trigger] liste@[z]) < id,
            ht >= 1 ==> forall|z: int|
                prozessor.physisch <= z < liste@.len() ==> alle_kleineren_enthalten(
                    liste@,
                    #[trigger] liste@[z],
                ),
        decreases logisch - id,
    {
        if !enthaelt(&liste, id) {
            let ghost liste_alt = liste@;
            liste.push(id);
            proof {
                if ht >= 1 {
                    assert forall|z: int|
                        prozessor.physisch <= z < liste@.len() implies alle_kleineren_enthalten(
                        liste@,
                        #[trigger] liste@[z],
                    ) by {
                        if z < liste@.len() - 1 {
                            assert(alle_kleineren_enthalten(liste_alt, liste_alt[z]));
                            assert forall|y: u32| y < liste@[z] implies liste@.contains(y) by {
                                assert(liste_alt.contains(y));
                            }
                        } else {
                            assert(liste@[z] == id);
                            assert forall|y: u32| y < id implies liste@.contains(y) by {
                                assert(liste_alt.contains(y));
                            }
                        }
                    }
                }
            }
        }
        id = id + 1;
    }
    proof {
        if liste@.len() < anzahl {
            assert(id == logisch);
            lemma_volle_liste(liste@, logisch);
        }
    }
    Ok(liste)
}

} // verus!
