use vstd::prelude::*;
use crate::fehler::Fehler;
use crate::text;

verus! {

broadcast use vstd::seq_lib::lemma_seq_contains_after_push;

/// Die ausgewerteten Einstellungen eines Laufs: Kerne fuer das Pinnen,
/// Eingabegroessen, Threadzahl, Name der Logdatei und Debug-Flagge.
#[derive(Debug)]
pub struct Settings {
    pub kerne: Vec<u32>,
    pub n: Vec<u32>,
    pub threads: u32,
    pub log: String,
    pub flagge: bool,
}

/// Sortiert aufsteigend und streicht Doppelte.
fn sortieren_eindeutig(v: &Vec<u32>) -> (r: Vec<u32>)
    ensures
        forall|i: int, j: int| 0 <= i < j < r@.len() ==> r@[i] < r@[j],
        forall|x: u32| r@.contains(x) <==> v@.contains(x),
{
    let mut r: Vec<u32> = Vec::new();
    let mut q: usize = 0;
    proof {
        assert(v@.subrange(0, 0).len() == 0);
    }
    while q < v.len()
        invariant
            0 <= q <= v@.len(),
            forall|i: int, j: int| 0 <= i < j < r@.len() ==> r@[i] < r@[j],
            forall|x: u32| r@.contains(x) <==> v@.subrange(0, q as int).contains(x),
        decreases v@.len() - q,
    {
        let x: u32 = v[q];
        let mut p: usize = 0;
        while p < r.len() && r[p] < x
            invariant
                0 <= p <= r@.len(),
                forall|i: int, j: int| 0 <= i < j < r@.len() ==> r@[i] < r@[j],
                forall|i: int| 0 <= i < p ==> (#[trigger] r@[i]) < x,
            decreases r@.len() - p,
        {
            p = p + 1;
        }
        let ghost r_alt = r@;
        let schon_da: bool = p < r.len() && r[p] == x;
        if !schon_da {
            r.insert(p, x);
            proof {
                assert forall|i: int, j: int| 0 <= i < j < r@.len() implies r@[i] < r@[j] by {
                    if j < p {
                        assert(r@[i] == r_alt[i] && r@[j] == r_alt[j]);
                    } else if i < p && j == p {
                        assert(r@[i] == r_alt[i] && r@[j] == x);
                    } else if i < p && j > p {
                        assert(r@[i] == r_alt[i] && r@[j] == r_alt[j - 1]);
                        if p < r_alt.len() {
                            assert(r_alt[p as int] > x);
                        }
                    } else if i == p {
                        assert(r@[i] == x && r@[j] == r_alt[j - 1]);
                        assert(r_alt[p as int] > x);
                        if j - 1 > p {
                            assert(r_alt[p as int] < r_alt[j - 1]);
                        }
                    } else {
                        assert(r@[i] == r_alt[i - 1] && r@[j] == r_alt[j - 1]);
                    }
                }
                assert forall|y: u32| r@.contains(y) <==> (r_alt.contains(y) || y == x) by {
                    if r@.contains(y) {
                        let w = choose|w: int| 0 <= w < r@.len() && r@[w] == y;
                        if w < p {
                            assert(r_alt[w] == y);
                        } else if w > p {
                            assert(r_alt[w - 1] == y);
                        }
                    }
                    if r_alt.contains(y) {
                        let w = choose|w: int| 0 <= w < r_alt.len() && r_alt[w] == y;
                        if w < p {
                            assert(r@[w] == y);
                        } else {
                            assert(r@[w + 1] == y);
                        }
                    }
                    if y == x {
                        assert(r@[p as int] == x);
                    }
                }
            }
        } else {
            proof {
                assert(r@[p as int] == x);
                assert forall|y: u32| r@.contains(y) <==> (r_alt.contains(y) || y == x) by {
                    if y == x {
                        assert(r@[p as int] == x);
                    }
                }
            }
        }
        q = q + 1;
        proof {
            assert(v@.subrange(0, q as int) =~= v@.subrange(0, q as int - 1).push(x));
            assert forall|y: u32| r@.contains(y) <==> v@.subrange(0, q as int).contains(y) by {
                assert(r@.contains(y) <==> (r_alt.contains(y) || y == x));
                assert(v@.subrange(0, q as int).contains(y) <==> (v@.subrange(
                    0,
                    q as int - 1,
                ).contains(y) || y == x)) by {
                    assert(v@.subrange(0, q as int) == v@.subrange(0, q as int - 1).push(x));
                }
            }
        }
    }
    proof {
        assert(v@.subrange(0, v@.len() as int) =~= v@);
    }
    r
}

/// Alle Stuecke der Zerlegung von `s` an `t` sind lesbare Zahlen.
pub open spec fn alle_zahlen(s: Seq<char>, t: char) -> bool {
    forall|i: int|
        0 <= i < text::zerlegung(s, t).len() ==> (#[trigger] text::gelesene_zahl(
            text::zerlegung(s, t)[i],
        )) is Some
}

/// Alle Stuecke sind lesbare Zahlen unterhalb von `grenze`.
pub open spec fn alle_unter(s: Seq<char>, t: char, grenze: u32) -> bool {
    forall|i: int|
        0 <= i < text::zerlegung(s, t).len() ==> {
            let w = #[trigger] text::gelesene_zahl(text::zerlegung(s, t)[i]);
            w is Some && w->0 < grenze
        }
}

/// `x` steht unter den gelesenen Werten der Stuecke.
pub open spec fn wert_in_liste(s: Seq<char>, t: char, x: u32) -> bool {
    exists|i: int|
        0 <= i < text::zerlegung(s, t).len() && (#[trigger] text::gelesene_zahl(
            text::zerlegung(s, t)[i],
        )) == Some(x)
}

/// Liest eine kommagetrennte Zahlenliste wie `10,30,100`, sortiert sie
/// aufsteigend und streicht Doppelte. Ohne Komma, oder mit einem nicht
/// lesbaren Stueck, wird die Eingabe verworfen.
pub fn n_umwandeln(umwandeln: &str) -> (r: Result<Vec<u32>, Fehler>)
    ensures
        r is Ok <==> text::zerlegung(umwandeln@, ',').len() >= 2 && alle_zahlen(umwandeln@, ','),
        r is Err ==> r == Err::<Vec<u32>, Fehler>(Fehler::Konfiguration),
        r matches Ok(werte) ==> {
            &&& forall|i: int, j: int| 0 <= i < j < werte@.len() ==> werte@[i] < werte@[j]
            &&& forall|x: u32| werte@.contains(x) <==> wert_in_liste(umwandeln@, ',', x)
        },
{
    let stuecke: Vec<String> = text::teile(umwandeln, ',');
    if stuecke.len() < 2 {
        return Err(Fehler::Konfiguration);
    }
    let mut werte: Vec<u32> = Vec::new();
    let mut q: usize = 0;
    while q < stuecke.len()
        invariant
            stuecke@.len() == text::zerlegung(umwandeln@, ',').len(),
            forall|z: int|
                0 <= z < stuecke@.len() ==> (#[trigger] stuecke@[z])@ == text::zerlegung(
                    umwandeln@,
                    ',',
                )[z],
            0 <= q <= stuecke@.len(),
            werte@.len() == q,
            forall|z: int|
                0 <= z < q ==> text::gelesene_zahl(text::zerlegung(umwandeln@, ',')[z]) == Some(
                    #[trigger] werte@[z],
                ),
        decreases stuecke@.len() - q,
    {
        match text::zahl_aus_text(stuecke[q].as_str()) {
            None => {
                proof {
                    assert(text::gelesene_zahl(text::zerlegung(umwandeln@, ',')[q as int])
                        is None);
                    assert(!alle_zahlen(umwandeln@, ','));
                }
                return Err(Fehler::Konfiguration);
            },
            Some(wert) => {
                werte.push(wert);
            },
        }
        q = q + 1;
    }
    let geordnet: Vec<u32> = sortieren_eindeutig(&werte);
    proof {
        assert forall|i: int| 0 <= i < text::zerlegung(umwandeln@, ',').len() implies (
        #[trigger] text::gelesene_zahl(text::zerlegung(umwandeln@, ',')[i])) is Some by {
            assert(text::gelesene_zahl(text::zerlegung(umwandeln@, ',')[i]) == Some(werte@[i]));
        }
        assert forall|x: u32| geordnet@.contains(x) <==> wert_in_liste(umwandeln@, ',', x) by {
            if werte@.contains(x) {
                let w = choose|w: int| 0 <= w < werte@.len() && werte@[w] == x;
                assert(text::gelesene_zahl(text::zerlegung(umwandeln@, ',')[w]) == Some(x));
            }
            if wert_in_liste(umwandeln@, ',', x) {
                let w = choose|w: int|
                    0 <= w < text::zerlegung(umwandeln@, ',').len() && text::gelesene_zahl(
                        text::zerlegung(umwandeln@, ',')[w],
                    ) == Some(x);
                assert(werte@[w] == x);
            }
        }
    }
    Ok(geordnet)
}

/// Liest eine Liste von Kernnummern, entweder kommagetrennt wie
/// `1,7,3` oder als Spanne wie `3-7`. Jede Nummer muss unterhalb der
/// Zahl `logisch` der logischen Kerne liegen; die Spanne muss
/// aufsteigen. Kommaform: sortiert und ohne Doppelte.
pub fn kern_umwandeln(umwandeln: &str, logisch: u32) -> (r: Result<Vec<u32>, Fehler>)
    ensures
        r is Err ==> r == Err::<Vec<u32>, Fehler>(Fehler::Konfiguration),
        text::zerlegung(umwandeln@, ',').len() >= 2 ==> {
            &&& (r is Ok <==> alle_unter(umwandeln@, ',', logisch))
            &&& (r matches Ok(werte) ==> {
                &&& forall|i: int, j: int| 0 <= i < j < werte@.len() ==> werte@[i] < werte@[j]
                &&& forall|x: u32| werte@.contains(x) <==> wert_in_liste(umwandeln@, ',', x)
            })
        },
        text::zerlegung(umwandeln@, ',').len() < 2 && text::zerlegung(umwandeln@, '-').len() == 2
            ==> {
            let von = text::gelesene_zahl(text::zerlegung(umwandeln@, '-')[0]);
            let bis = text::gelesene_zahl(text::zerlegung(umwandeln@, '-')[1]);
            &&& (r is Ok <==> von is Some && bis is Some && von->0 < logisch && bis->0 < logisch
                && von->0 <= bis->0)
            &&& (r matches Ok(werte) ==> werte@.len() == bis->0 - von->0 + 1 && forall|z: int|
                0 <= z < werte@.len() ==> #[trigger] werte@[z] == von->0 + z)
        },
        text::zerlegung(umwandeln@, ',').len() < 2 && text::zerlegung(umwandeln@, '-').len() != 2
            ==> r is Err,
{
    let stuecke: Vec<String> = text::teile(umwandeln, ',');
    if stuecke.len() >= 2 {
        let mut werte: Vec<u32> = Vec::new();
        let mut q: usize = 0;
        while q < stuecke.len()
            invariant
                stuecke@.len() >= 2,
                stuecke@.len() == text::zerlegung(umwandeln@, ',').len(),
                forall|z: int|
                    0 <= z < stuecke@.len() ==> (#[trigger] stuecke@[z])@ == text::zerlegung(
                        umwandeln@,
                        ',',
                    )[z],
                0 <= q <= stuecke@.len(),
                werte@.len() == q,
                forall|z: int|
                    0 <= z < q ==> text::gelesene_zahl(text::zerlegung(umwandeln@, ',')[z]) == Some(
                        #[trigger] werte@[z],
                    ) && werte@[z] < logisch,
            decreases stuecke@.len() - q,
        {
            match text::zahl_aus_text(stuecke[q].as_str()) {
                None => {
                    proof {
                        assert(text::gelesene_zahl(text::zerlegung(umwandeln@, ',')[q as int])
                            is None);
                        assert(!alle_unter(umwandeln@, ',', logisch));
                    }
                    return Err(Fehler::Konfiguration);
                },
                Some(wert) => {
                    if wert >= logisch {
                        proof {
                            assert(text::gelesene_zahl(text::zerlegung(umwandeln@, ',')[q as int])
                                == Some(wert));
                            assert(!alle_unter(umwandeln@, ',', logisch));
                        }
                        return Err(Fehler::Konfiguration);
                    }
                    werte.push(wert);
                },
            }
            q = q + 1;
        }
        let geordnet: Vec<u32> = sortieren_eindeutig(&werte);
        proof {
            assert forall|i: int| 0 <= i < text::zerlegung(umwandeln@, ',').len() implies {
                let w = #[trigger] text::gelesene_zahl(text::zerlegung(umwandeln@, ',')[i]);
                w is Some && w->0 < logisch
            } by {
                assert(text::gelesene_zahl(text::zerlegung(umwandeln@, ',')[i]) == Some(
                    werte@[i],
                ));
            }
            assert(alle_unter(umwandeln@, ',', logisch));
            assert forall|x: u32| geordnet@.contains(x) <==> wert_in_liste(umwandeln@, ',', x) by {
                if werte@.contains(x) {
                    let w = choose|w: int| 0 <= w < werte@.len() && werte@[w] == x;
                    assert(text::gelesene_zahl(text::zerlegung(umwandeln@, ',')[w]) == Some(x));
                }
                if wert_in_liste(umwandeln@, ',', x) {
                    let w = choose|w: int|
                        0 <= w < text::zerlegung(umwandeln@, ',').len() && text::gelesene_zahl(
                            text::zerlegung(umwandeln@, ',')[w],
                        ) == Some(x);
                    assert(werte@[w] == x);
                }
            }
        }
        return Ok(geordnet);
    }
    let spanne: Vec<String> = text::teile(umwandeln, '-');
    if spanne.len() != 2 {
        return Err(Fehler::Konfiguration);
    }
    let von: u32 = match text::zahl_aus_text(spanne[0].as_str()) {
        None => {
            return Err(Fehler::Konfiguration);
        },
        Some(wert) => wert,
    };
    let bis: u32 = match text::zahl_aus_text(spanne[1].as_str()) {
        None => {
            return Err(Fehler::Konfiguration);
        },
        Some(wert) => wert,
    };
    if !(von < logisch && bis < logisch && bis >= von) {
        return Err(Fehler::Konfiguration);
    }
    let mut werte: Vec<u32> = Vec::new();
    let mut lauf: u32 = von;
    while lauf <= bis
        invariant
            von <= lauf,
            lauf <= bis + 1,
            bis < u32::MAX,
            werte@.len() == lauf - von,
            forall|z: int| 0 <= z < werte@.len() ==> #[trigger] werte@[z] == von + z,
        decreases bis + 1 - lauf,
    {
        werte.push(lauf);
        lauf = lauf + 1;
    }
    Ok(werte)
}

/// Haengt `.txt` an den Namen der Ergebnisdatei an, wo es fehlt.
pub fn dateiname(wunsch: &str) -> (r: String)
    ensures
        text::hat_endung(wunsch@, ".txt"@) ==> r@ == wunsch@,
        !text::hat_endung(wunsch@, ".txt"@) ==> r@ == wunsch@ + ".txt"@,
{
    if text::endung_test(wunsch, ".txt") {
        wunsch.to_owned()
    } else {
        wunsch.to_owned().concat(".txt")
    }
}

} // verus!
