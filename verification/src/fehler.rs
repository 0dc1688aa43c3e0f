use vstd::prelude::*;

verus! {

/// Fehlerarten des Benchmarks: ungueltige Konfiguration, nicht lesbare
/// Prozessortopologie, ein gescheiterter Rechenschritt, oder ein
/// Ein-/Ausgabefehler beim Schreiben der Ergebnisse.
#[derive(Clone, Copy, Debug, PartialEq, Eq, Structural)]
pub enum Fehler {
    Konfiguration,
    Topologie,
    Berechnung,
    EinAusgabe,
}

} // verus!
