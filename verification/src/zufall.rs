use vstd::prelude::*;
use rand::rngs::StdRng;
use rand::RngExt;
use rand::SeedableRng;
use crate::matrix;

verus! {

/// Erklaert Verus den Generatortyp `rand::rngs::StdRng`: ein opaker
/// Zustand, von dem die Vertrauensstellen hier sprechen.
#[verifier::external_type_specification]
#[verifier::external_body]
pub struct ExStdRng(StdRng);

/// Ziffer Nummer `stand` (ab 0 gezaehlt) der Folge, die der mit `keim`
/// gesaete Generator liefert: allein durch `keim` und `stand` bestimmt.
pub uninterp spec fn zufallsfolge(keim: u64, stand: nat) -> u32;

/// Der eine, lauflang fortschreitende Zufallsgenerator des Benchmarks:
/// einmal gesaet, dann als eigener Zustand durch jede Erzeugung
/// gereicht.
pub struct Zufall {
    rng: StdRng,
    keim: Ghost<u64>,
    stand: Ghost<nat>,
}

impl Zufall {
    /// Der Keim, mit dem der Generator gesaet wurde.
    pub closed spec fn saat(self) -> u64 {
        self.keim@
    }

    /// Wie viele Ziffern bereits gezogen wurden.
    pub closed spec fn stand(self) -> nat {
        self.stand@
    }

    /// Verlaesst sich auf rand: `StdRng::seed_from_u64` baut aus dem
    /// Keim deterministisch den Startzustand des Generators auf.
    #[verifier::external_body]
    pub fn neu(keim: u64) -> (z: Zufall)
        ensures
            z.saat() == keim,
            z.stand() == 0,
    {
        Zufall { rng: StdRng::seed_from_u64(keim), keim: Ghost(keim), stand: Ghost(0nat) }
    }

    /// Verlaesst sich auf rand: `random_range(0..10)` auf `StdRng`
    /// liefert eine Ziffer unter 10, und zwar deterministisch aus dem
    /// Generatorzustand, also allein aus Keim und Zahl der bereits
    /// gezogenen Ziffern (ChaCha12-Strom mit uniformer Auswahl).
    #[verifier::external_body]
    fn ziffer(&mut self) -> (r: u32)
        ensures
            final(self).saat() == old(self).saat(),
            final(self).stand() == old(self).stand() + 1,
            r == zufallsfolge(old(self).saat(), old(self).stand()),
            r < 10,
    {
        self.rng.random_range(0..10u32)
    }
}

/// Die `n` x `n`-Matrix aus den Zufallsziffern ab `stand`, zeilenweise
/// gefuellt.
pub open spec fn zufallsmatrix(keim: u64, stand: nat, n: nat) -> Seq<Seq<u32>> {
    Seq::new(n as nat, |i: int| Seq::new(n as nat, |j: int| zufallsfolge(keim, (stand + i * n + j) as nat)))
}

/// Erzeugt eine `n` x `n`-Matrix mit Zufallsziffern im Bereich `[0, 10)`
/// und rueckt den Generator um `n * n` Ziffern vor.
pub fn zufall_matrix(n: usize, rng: &mut Zufall) -> (m: Vec<Vec<u32>>)
    ensures
        final(rng).saat() == old(rng).saat(),
        final(rng).stand() == old(rng).stand() + n * n,
        matrix::ansicht(m@) == zufallsmatrix(old(rng).saat(), old(rng).stand(), n as nat),
        matrix::ist_matrix(matrix::ansicht(m@), n as int, n as int),
        forall|i: int, j: int|
            0 <= i < n && 0 <= j < n ==> #[trigger] matrix::ansicht(m@)[i][j] < 10,
{
    let ghost keim = rng.saat();
    let ghost stand0 = rng.stand();
    let mut m: Vec<Vec<u32>> = Vec::new();
    let mut i: usize = 0;
    while i < n
        invariant
            rng.saat() == keim,
            rng.stand() == stand0 + i * n,
            0 <= i <= n,
            m@.len() == i,
            forall|ii: int| 0 <= ii < i ==> (#[trigger] m@[ii]@).len() == n,
            forall|ii: int, jj: int|
                0 <= ii < i && 0 <= jj < n ==> (#[trigger] m@[ii]@[jj]) == zufallsfolge(
                    keim,
                    (stand0 + ii * n + jj) as nat,
                ) && m@[ii]@[jj] < 10,
        decreases n - i,
    {
        let mut zeile: Vec<u32> = Vec::new();
        let mut j: usize = 0;
        while j < n
            invariant
                rng.saat() == keim,
                rng.stand() == stand0 + i * n + j,
                0 <= i < n,
                0 <= j <= n,
                zeile@.len() == j,
                forall|jj: int|
                    0 <= jj < j ==> (#[trigger] zeile@[jj]) == zufallsfolge(
                        keim,
                        (stand0 + i * n + jj) as nat,
                    ) && zeile@[jj] < 10,
            decreases n - j,
        {
            let wert: u32 = rng.ziffer();
            zeile.push(wert);
            j = j + 1;
        }
        m.push(zeile);
        proof {
            assert((i + 1) * n == i * n + n) by (nonlinear_arith);
        }
        i = i + 1;
    }
    proof {
        assert forall|ii: int| 0 <= ii < n implies matrix::ansicht(m@)[ii] =~= zufallsmatrix(
            keim,
            stand0,
            n as nat,
        )[ii] by {
            assert(matrix::ansicht(m@)[ii] == m@[ii]@);
        }
        assert(matrix::ansicht(m@) =~~= zufallsmatrix(keim, stand0, n as nat));
    }
    m
}

/// GESETZ Determinismus: derselbe Keim und derselbe Generatorstand
/// ergeben bei jeder Wiederholung dieselbe erzeugte Matrix, Bit fuer
/// Bit -- die Erzeugung ist eine reine Funktion von Keim und Stand.
pub proof fn lemma_determinismus(
    keim: u64,
    stand: nat,
    n: nat,
    m1: Seq<Seq<u32>>,
    m2: Seq<Seq<u32>>,
)
    requires
        m1 == zufallsmatrix(keim, stand, n),
        m2 == zufallsmatrix(keim, stand, n),
    ensures
        m1 == m2,
{
}

} // verus!
