use vstd::prelude::*;
use crate::fehler::Fehler;
use crate::text;

verus! {

/// Schrittweite der Groessenfolge: sie waechst mit der
/// Groessenordnung, damit die Probenzahl beschraenkt bleibt.
pub open spec fn schrittweite(x: int) -> int {
    if x <= 9 {
        4
    } else if x <= 99 {
        6
    } else if x <= 999 {
        100
    } else if x <= 9999 {
        500
    } else {
        1000
    }
}

/// Das naechste Glied der Folge: ein Schritt weiter, doch nie ueber
/// das Ziel hinaus.
pub open spec fn naechste_groesse(x: int, ziel: int) -> int {
    if x + schrittweite(x) >= ziel {
        ziel
    } else {
        x + schrittweite(x)
    }
}

/// Erzeugt die aufsteigende Groessenfolge von `anfang` bis zu dem in
/// `ende` genannten Ziel: jedes Glied einen adaptiven Schritt weiter,
/// das letzte genau das Ziel. Kein lesbares Ziel oberhalb von
/// `anfang`: ungueltige Konfiguration.
pub fn konvertieren(anfang: u32, ende: &str) -> (r: Result<Vec<u32>, Fehler>)
    ensures
        r is Ok <==> text::gelesene_zahl(ende@) is Some && anfang < text::gelesene_zahl(ende@)->0,
        r is Err ==> r == Err::<Vec<u32>, Fehler>(Fehler::Konfiguration),
        r matches Ok(folge) ==> {
            let ziel = text::gelesene_zahl(ende@)->0;
            &&& folge@.len() >= 2
            &&& folge@[0] == anfang
            &&& folge@.last() == ziel
            &&& forall|i: int|
                0 <= i < folge@.len() - 1 ==> (#[trigger] folge@[i]) < ziel && folge@[i + 1]
                    == naechste_groesse(folge@[i] as int, ziel as int)
        },
{
    let ziel: u32 = match text::zahl_aus_text(ende) {
        None => {
            return Err(Fehler::Konfiguration);
        },
        Some(z) => z,
    };
    if anfang >= ziel {
        return Err(Fehler::Konfiguration);
    }
    let mut folge: Vec<u32> = Vec::new();
    folge.push(anfang);
    let mut letztes: u32 = anfang;
    while letztes < ziel
        invariant
            anfang < ziel,
            folge@.len() >= 1,
            folge@[0] == anfang,
            folge@.last() == letztes,
            letztes <= ziel,
            forall|i: int|
                0 <= i < folge@.len() - 1 ==> (#[trigger] folge@[i]) < ziel && folge@[i + 1]
                    == naechste_groesse(folge@[i] as int, ziel as int),
        decreases ziel - letztes,
    {
        let schritt: u32 = if letztes <= 9 {
            4
        } else if letztes <= 99 {
            6
        } else if letztes <= 999 {
            100
        } else if letztes <= 9999 {
            500
        } else {
            1000
        };
        let naechstes: u32 = letztes.saturating_add(schritt);
        if naechstes >= ziel {
            folge.push(ziel);
            letztes = ziel;
        } else {
            folge.push(naechstes);
            letztes = naechstes;
        }
    }
    proof {
        if folge@.len() < 2 {
            assert(folge@.last() == folge@[0]);
        }
    }
    Ok(folge)
}

} // verus!
