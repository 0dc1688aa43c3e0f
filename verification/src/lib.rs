//! Kern eines Benchmarks fuer parallele Matrixmultiplikation:
//! Zeilenaufteilung, Kernzuordnung, Multiplikationskern, Kontrollrechnung
//! und die Aufbereitung der Messzeilen.

pub mod eingabe;
pub mod fehler;
pub mod groessen;
pub mod log;
pub mod matrix;
pub mod text;
pub mod topologie;
pub mod zufall;
