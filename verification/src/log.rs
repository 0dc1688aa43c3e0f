use vstd::prelude::*;
use crate::text;
use crate::topologie::ProzessorSpecs;

verus! {

/// Die Kopfzeile der Ergebnisdatei:
/// `<modell>,<logisch>,<physisch>,<hyperthreading>`.
pub open spec fn kopftext(p: ProzessorSpecs) -> Seq<char> {
    p.name@ + ","@ + text::dezimal(p.logisch as nat) + ","@ + text::dezimal(p.physisch as nat)
        + ","@ + text::dezimal(p.hyperthreading as nat)
}

/// Eine Messzeile: `<threads>,<groesse>,<millisekunden>`.
pub open spec fn zeilentext(threads: u32, groesse: u32, zeit: Seq<char>) -> Seq<char> {
    text::dezimal(threads as nat) + ","@ + text::dezimal(groesse as nat) + ","@ + zeit
}

/// Die Messzeilen ab Paar `i`, je eine je `(Groesse, Zeit)`-Paar, mit
/// Zeilenumbruch.
pub open spec fn messzeilen(n: Seq<u32>, zeiten: Seq<Seq<char>>, threads: u32, i: int) -> Seq<char>
    decreases n.len() + zeiten.len() - i,
    when 0 <= i
{
    let paare = if n.len() <= zeiten.len() {
        n.len() as int
    } else {
        zeiten.len() as int
    };
    if i >= paare {
        Seq::<char>::empty()
    } else {
        zeilentext(threads, n[i], zeiten[i]) + "\n"@ + messzeilen(n, zeiten, threads, i + 1)
    }
}

/// Schreibt die Kopfzeile der Ergebnisdatei.
pub fn kopfzeile(prozessor: &ProzessorSpecs) -> (r: String)
    ensures
        r@ == kopftext(*prozessor),
{
    let mut r: String = prozessor.name.clone();
    r.append(",");
    let logisch: String = text::u32_zu_text(prozessor.logisch);
    r.append(logisch.as_str());
    r.append(",");
    let physisch: String = text::u32_zu_text(prozessor.physisch);
    r.append(physisch.as_str());
    r.append(",");
    let ht: String = text::u32_zu_text(prozessor.hyperthreading);
    r.append(ht.as_str());
    r
}

/// Schreibt eine Messzeile; den Millisekundentext liefert der
/// Aufrufer.
pub fn messzeile(threads: u32, groesse: u32, zeit: &str) -> (r: String)
    ensures
        r@ == zeilentext(threads, groesse, zeit@),
{
    let mut r: String = text::u32_zu_text(threads);
    r.append(",");
    let g: String = text::u32_zu_text(groesse);
    r.append(g.as_str());
    r.append(",");
    r.append(zeit);
    r
}

/// Die Sichten einer Liste von Zeitentexten.
pub open spec fn zeit_sichten(zeiten: Seq<String>) -> Seq<Seq<char>> {
    zeiten.map_values(|z: String| z@)
}

/// Baut den Text, der an die Ergebnisdatei angehaengt wird: die
/// Kopfzeile nur, wenn die Datei noch nicht besteht, dann je
/// `(Groesse, Zeit)`-Paar eine Messzeile in Erzeugungsreihenfolge.
/// Die Millisekundentexte liefert der Aufrufer; das Anhaengen an die
/// Datei selbst ist seine Sache.
pub fn speichern(
    datei_existiert: bool,
    n: &Vec<u32>,
    laufzeit: &Vec<String>,
    threads: usize,
    prozessor: &ProzessorSpecs,
) -> (r: String)
    requires
        threads <= u32::MAX,
    ensures
        r@ == (if datei_existiert {
            Seq::<char>::empty()
        } else {
            kopftext(*prozessor) + "\n"@
        }) + messzeilen(n@, zeit_sichten(laufzeit@), threads as u32, 0),
{
    let ghost kopfteil = if datei_existiert {
        Seq::<char>::empty()
    } else {
        kopftext(*prozessor) + "\n"@
    };
    let mut text: String = String::new();
    if !datei_existiert {
        let kopf: String = kopfzeile(prozessor);
        text.append(kopf.as_str());
        text.append("\n");
    }
    proof {
        assert(text@ =~= kopfteil);
    }
    let paare: usize = if n.len() <= laufzeit.len() {
        n.len()
    } else {
        laufzeit.len()
    };
    let mut i: usize = 0;
    while i < paare
        invariant
            threads <= u32::MAX,
            paare == (if n@.len() <= laufzeit@.len() {
                n@.len() as int
            } else {
                laufzeit@.len() as int
            }),
            0 <= i <= paare,
            text@ + messzeilen(n@, zeit_sichten(laufzeit@), threads as u32, i as int) == kopfteil
                + messzeilen(n@, zeit_sichten(laufzeit@), threads as u32, 0),
        decreases paare - i,
    {
        let zeile: String = messzeile(threads as u32, n[i], laufzeit[i].as_str());
        let ghost vorher = text@;
        text.append(zeile.as_str());
        text.append("\n");
        proof {
            assert(zeit_sichten(laufzeit@)[i as int] == laufzeit@[i as int]@);
            assert(messzeilen(n@, zeit_sichten(laufzeit@), threads as u32, i as int) == zeilentext(
                threads as u32,
                n@[i as int],
                laufzeit@[i as int]@,
            ) + "\n"@ + messzeilen(n@, zeit_sichten(laufzeit@), threads as u32, i as int + 1));
            assert(text@ + messzeilen(n@, zeit_sichten(laufzeit@), threads as u32, i as int + 1)
                =~= vorher + messzeilen(n@, zeit_sichten(laufzeit@), threads as u32, i as int));
        }
        i = i + 1;
    }
    proof {
        assert(messzeilen(n@, zeit_sichten(laufzeit@), threads as u32, paare as int)
            =~= Seq::<char>::empty());
        assert(text@ =~= kopfteil + messzeilen(n@, zeit_sichten(laufzeit@), threads as u32, 0));
    }
    text
}

} // verus!
