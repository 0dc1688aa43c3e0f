use vstd::prelude::*;
use crate::fehler::Fehler;

verus! {

/// Ein halboffener Zeilenbereich `[anfang, ende)` der Ergebnismatrix,
/// der einem Arbeiter zugeteilt wird.
#[derive(Clone, Copy, Debug, PartialEq, Eq, Structural)]
pub struct Bereich {
    pub anfang: usize,
    pub ende: usize,
}

/// Auf hoechstens `n` Arbeiter geklemmte Threadzahl: nie mehr Arbeiter
/// als Zeilen.
pub open spec fn geklemmt(n: int, k: int) -> int {
    if k <= n {
        k
    } else {
        n
    }
}

/// Anfangszeile des Bereichs `z` bei `n` Zeilen und `k` (geklemmten)
/// Arbeitern: die ersten `n % k` Bereiche erhalten eine Zeile mehr.
pub open spec fn bereich_anfang(n: int, k: int, z: int) -> int {
    z * (n / k) + (if z <= n % k {
        z
    } else {
        n % k
    })
}

/// Endzeile (ausschliesslich) des Bereichs `z`.
pub open spec fn bereich_ende(n: int, k: int, z: int) -> int {
    bereich_anfang(n, k, z) + n / k + (if z < n % k {
        1int
    } else {
        0int
    })
}

/// Die Bereichsliste `r` ist genau die Zeilenaufteilung von `n` Zeilen
/// auf `k` gewuenschte Arbeiter.
pub open spec fn bereiche_von(r: Seq<Bereich>, n: int, k: int) -> bool {
    let kk = geklemmt(n, k);
    &&& r.len() == kk
    &&& forall|z: int|
        0 <= z < kk ==> (#[trigger] r[z]).anfang == bereich_anfang(n, kk, z) && r[z].ende
            == bereich_ende(n, kk, z)
}

/// Der Nachfolger eines Bereichsanfangs ist der alte Anfang plus die
/// Laenge des Bereichs.
proof fn lemma_anfang_schritt(n: int, k: int, z: int)
    requires
        1 <= k,
        0 <= z,
    ensures
        bereich_anfang(n, k, z + 1) == bereich_ende(n, k, z),
{
    assert((z + 1) * (n / k) == z * (n / k) + n / k) by (nonlinear_arith);
}

/// Der letzte Bereich endet genau bei `n`.
proof fn lemma_letztes_ende(n: int, k: int)
    requires
        1 <= k <= n,
    ensures
        bereich_ende(n, k, k - 1) == n,
{
    vstd::arithmetic::div_mod::lemma_fundamental_div_mod(n, k);
    assert(0 <= n % k < k) by {
        vstd::arithmetic::div_mod::lemma_mod_bound(n, k);
    }
    lemma_anfang_schritt(n, k, k - 1);
    assert(k * (n / k) == (k - 1) * (n / k) + n / k) by (nonlinear_arith);
}

/// Zerlegt `n` Ergebniszeilen in `min(k, n)` zusammenhaengende,
/// disjunkte Bereiche: die ersten `n % min(k, n)` Bereiche erhalten
/// `n / min(k, n) + 1` Zeilen, die uebrigen `n / min(k, n)` Zeilen.
pub fn teilbereiche(n: usize, k: usize) -> (r: Vec<Bereich>)
    requires
        1 <= n,
        1 <= k,
    ensures
        bereiche_von(r@, n as int, k as int),
{
    let kk: usize = if k <= n {
        k
    } else {
        n
    };
    let basis: usize = n / kk;
    let rest: usize = n % kk;
    let mut r: Vec<Bereich> = Vec::new();
    let mut anfang: usize = 0;
    let mut z: usize = 0;
    while z < kk
        invariant
            1 <= kk <= n,
            kk == geklemmt(n as int, k as int),
            basis == (n as int) / (kk as int),
            rest == (n as int) % (kk as int),
            0 <= z <= kk,
            anfang == bereich_anfang(n as int, kk as int, z as int),
            anfang <= n,
            r@.len() == z,
            forall|i: int|
                0 <= i < z ==> (#[trigger] r@[i]).anfang == bereich_anfang(
                    n as int,
                    kk as int,
                    i,
                ) && r@[i].ende == bereich_ende(n as int, kk as int, i),
        decreases kk - z,
    {
        proof {
            lemma_anfang_schritt(n as int, kk as int, z as int);
            lemma_letztes_ende(n as int, kk as int);
            if z + 1 < kk {
                lemma_monoton(n as int, kk as int, z + 1, kk - 1);
            }
            assert(0 <= (n as int) % (kk as int) < kk as int) by {
                vstd::arithmetic::div_mod::lemma_mod_bound(n as int, kk as int);
            }
        }
        let zusatz: usize = if z < rest {
            1
        } else {
            0
        };
        let ende: usize = anfang + basis + zusatz;
        r.push(Bereich { anfang, ende });
        anfang = ende;
        z = z + 1;
    }
    proof {
        lemma_letztes_ende(n as int, kk as int);
    }
    r
}

/// Die Zeile liegt in einem der Bereiche.
pub open spec fn in_einem_bereich(r: Seq<Bereich>, zeile: int) -> bool {
    exists|z: int| 0 <= z < r.len() && (#[trigger] r[z]).anfang <= zeile < r[z].ende
}

/// Summe der Laengen einer Bereichsliste.
pub open spec fn summe_laengen(r: Seq<Bereich>) -> int
    decreases r.len(),
{
    if r.len() == 0 {
        0
    } else {
        summe_laengen(r.drop_last()) + (r.last().ende - r.last().anfang)
    }
}

/// Die Laengen der ersten `z` Bereiche summieren sich zum Anfang des
/// Bereichs `z`.
proof fn lemma_summe_bis(r: Seq<Bereich>, n: int, k: int, z: int)
    requires
        1 <= k <= n,
        bereiche_von(r, n, k),
        0 <= z <= k,
    ensures
        summe_laengen(r.subrange(0, z)) == bereich_anfang(n, k, z),
    decreases z,
{
    if z == 0 {
        assert(r.subrange(0, 0).len() == 0);
    } else {
        lemma_summe_bis(r, n, k, z - 1);
        lemma_anfang_schritt(n, k, z - 1);
        assert(r.subrange(0, z).drop_last() =~= r.subrange(0, z - 1));
        assert(r.subrange(0, z).last() == r[z - 1]);
    }
}

/// Jede Zeile unterhalb des Endes von Bereich `j` liegt in einem der
/// Bereiche bis `j`.
proof fn lemma_zeile_gefunden(r: Seq<Bereich>, n: int, k: int, j: int, zeile: int)
    requires
        1 <= k <= n,
        bereiche_von(r, n, k),
        0 <= j < k,
        0 <= zeile < bereich_ende(n, k, j),
    ensures
        in_einem_bereich(r, zeile),
    decreases j,
{
    if zeile >= bereich_anfang(n, k, j) {
        assert(r[j].anfang <= zeile < r[j].ende);
    } else {
        assert(bereich_anfang(n, k, 0) == 0);
        assert(j > 0);
        lemma_anfang_schritt(n, k, j - 1);
        lemma_zeile_gefunden(r, n, k, j - 1, zeile);
    }
}

/// GESETZ Zeilenaufteilung: jede der `n` Zeilen liegt in genau einem
/// Bereich, die Bereichslaengen unterscheiden sich um hoechstens eine
/// Zeile, und die Laengen summieren sich zu `n`.
pub proof fn lemma_zeilenaufteilung(r: Seq<Bereich>, n: int, k: int)
    requires
        1 <= n,
        1 <= k,
        bereiche_von(r, n, k),
    ensures
        forall|zeile: int| 0 <= zeile < n ==> #[trigger] in_einem_bereich(r, zeile),
        forall|z1: int, z2: int|
            0 <= z1 < z2 < r.len() ==> (#[trigger] r[z1]).ende <= (#[trigger] r[z2]).anfang,
        forall|z1: int, z2: int|
            0 <= z1 < r.len() && 0 <= z2 < r.len() ==> -1 <= ((#[trigger] r[z1]).ende - r[z1].anfang)
                - ((#[trigger] r[z2]).ende - r[z2].anfang) <= 1,
        summe_laengen(r) == n,
{
    let kk = geklemmt(n, k);
    assert(1 <= kk <= n);
    lemma_letztes_ende(n, kk);
    assert forall|zeile: int| 0 <= zeile < n implies #[trigger] in_einem_bereich(r, zeile) by {
        lemma_zeile_gefunden(r, n, kk, kk - 1, zeile);
    }
    assert forall|z1: int, z2: int| 0 <= z1 < z2 < r.len() implies (#[trigger] r[z1]).ende <= (
    #[trigger] r[z2]).anfang by {
        lemma_anfang_schritt(n, kk, z1);
        lemma_monoton(n, kk, z1 + 1, z2);
    }
    lemma_summe_bis(r, n, kk, kk);
    assert(r.subrange(0, kk) =~= r);
    lemma_anfang_schritt(n, kk, kk - 1);
}

/// GESETZ Reinheit: dieselben `(n, k)` ergeben stets dieselbe
/// Bereichsliste.
pub proof fn lemma_aufteilung_rein(r1: Seq<Bereich>, r2: Seq<Bereich>, n: int, k: int)
    requires
        bereiche_von(r1, n, k),
        bereiche_von(r2, n, k),
    ensures
        r1 == r2,
{
    assert(r1 =~= r2);
}

/// GESETZ Randfall `k = 1`: ein einziger Bereich `[0, n)`.
pub proof fn lemma_ein_arbeiter(r: Seq<Bereich>, n: int)
    requires
        1 <= n,
        bereiche_von(r, n, 1),
    ensures
        r.len() == 1,
        r[0].anfang == 0,
        r[0].ende == n,
{
    lemma_letztes_ende(n, 1);
}

/// GESETZ Klemmung: bei `k > n` entstehen genau `n` Bereiche von je
/// einer Zeile.
pub proof fn lemma_klemmung(r: Seq<Bereich>, n: int, k: int)
    requires
        1 <= n,
        n < k,
        bereiche_von(r, n, k),
    ensures
        r.len() == n,
        forall|z: int| 0 <= z < n ==> (#[trigger] r[z]).anfang == z && r[z].ende == z + 1,
{
    vstd::arithmetic::div_mod::lemma_div_by_self(n);
    vstd::arithmetic::div_mod::lemma_mod_self_0(n);
    assert forall|z: int| 0 <= z < n implies (#[trigger] r[z]).anfang == z && r[z].ende == z
        + 1 by {
        assert(z * 1 == z) by (nonlinear_arith);
    }
}

/// Bereichsgrenzen wachsen mit dem Bereichsindex.
proof fn lemma_monoton(n: int, k: int, z1: int, z2: int)
    requires
        1 <= k <= n,
        0 <= z1 <= z2 <= k - 1,
    ensures
        bereich_ende(n, k, z1) <= bereich_ende(n, k, z2),
        bereich_anfang(n, k, z1) <= bereich_anfang(n, k, z2),
        bereich_anfang(n, k, z1) <= bereich_ende(n, k, z1),
    decreases z2 - z1,
{
    vstd::arithmetic::div_mod::lemma_div_is_ordered_by_denominator(n, 1, k);
    assert(n / k >= 0) by {
        vstd::arithmetic::div_mod::lemma_div_pos_is_pos(n, k);
    }
    if z1 < z2 {
        lemma_anfang_schritt(n, k, z2 - 1);
        lemma_monoton(n, k, z1, z2 - 1);
    }
}

/// Mathematische Sicht einer Matrix: Folge der Zeilen als Zahlenfolgen.
pub open spec fn ansicht(m: Seq<Vec<u32>>) -> Seq<Seq<u32>> {
    Seq::new(m.len(), |i: int| m[i]@)
}

/// `m` ist eine Matrix mit `zeilen` Zeilen der Breite `spalten`.
pub open spec fn ist_matrix(m: Seq<Seq<u32>>, zeilen: int, spalten: int) -> bool {
    m.len() == zeilen && forall|i: int| 0 <= i < zeilen ==> (#[trigger] m[i]).len() == spalten
}

/// Skalarprodukt der ersten `t` Glieder von Zeile `i` von `a` mit
/// Spalte `j` von `b`, ueber den ganzen Zahlen.
pub open spec fn produkt_zelle(a: Seq<Seq<u32>>, b: Seq<Seq<u32>>, i: int, j: int, t: nat) -> int
    decreases t,
{
    if t == 0 {
        0
    } else {
        produkt_zelle(a, b, i, j, (t - 1) as nat) + a[i][t - 1] * b[t - 1][j]
    }
}

/// Keine Zelle der Zeilen `von..bis` des Produkts laeuft ueber `u32` hinaus.
pub open spec fn produkt_passt(
    a: Seq<Seq<u32>>,
    b: Seq<Seq<u32>>,
    von: int,
    bis: int,
    spalten: int,
    tiefe: nat,
) -> bool {
    forall|i: int, j: int|
        von <= i < bis && 0 <= j < spalten ==> produkt_zelle(a, b, i, j, tiefe) <= u32::MAX
}

/// `c` ist das `n` x `n`-Produkt von `a` und `b`.
pub open spec fn ist_produkt(c: Seq<Seq<u32>>, a: Seq<Seq<u32>>, b: Seq<Seq<u32>>, n: int) -> bool {
    &&& ist_matrix(c, n, n)
    &&& forall|i: int, j: int|
        0 <= i < n && 0 <= j < n ==> #[trigger] c[i][j] == produkt_zelle(a, b, i, j, n as nat)
}

/// Teilprodukte sind nie negativ.
proof fn lemma_produkt_nichtnegativ(a: Seq<Seq<u32>>, b: Seq<Seq<u32>>, i: int, j: int, t: nat)
    ensures
        produkt_zelle(a, b, i, j, t) >= 0,
    decreases t,
{
    if t > 0 {
        lemma_produkt_nichtnegativ(a, b, i, j, (t - 1) as nat);
        let x = a[i][t - 1] as int;
        let y = b[t - 1][j] as int;
        assert(x * y >= 0) by (nonlinear_arith)
            requires
                x >= 0,
                y >= 0,
        ;
    }
}

/// Teilprodukte wachsen mit der Gliederzahl.
proof fn lemma_produkt_monoton(a: Seq<Seq<u32>>, b: Seq<Seq<u32>>, i: int, j: int, t1: nat, t2: nat)
    requires
        t1 <= t2,
    ensures
        produkt_zelle(a, b, i, j, t1) <= produkt_zelle(a, b, i, j, t2),
    decreases t2,
{
    if t1 < t2 {
        lemma_produkt_monoton(a, b, i, j, t1, (t2 - 1) as nat);
        let x = a[i][t2 - 1] as int;
        let y = b[t2 - 1][j] as int;
        assert(x * y >= 0) by (nonlinear_arith)
            requires
                x >= 0,
                y >= 0,
        ;
    }
}

/// Eine Zelle des Produkts: Zeile `i` von `a` mal Spalte `j` von `b`,
/// ueber die ersten `n` Glieder.
fn punktprodukt(a: &Vec<Vec<u32>>, b: &Vec<Vec<u32>>, i: usize, j: usize, n: usize) -> (r: u32)
    requires
        i < a@.len(),
        ansicht(a@)[i as int].len() >= n,
        b@.len() >= n,
        forall|t: int| 0 <= t < n ==> (#[trigger] ansicht(b@)[t]).len() > j,
        produkt_zelle(ansicht(a@), ansicht(b@), i as int, j as int, n as nat) <= u32::MAX,
    ensures
        r == produkt_zelle(ansicht(a@), ansicht(b@), i as int, j as int, n as nat),
{
    let ghost ad = ansicht(a@);
    let ghost bd = ansicht(b@);
    let mut summe: u32 = 0;
    let mut t: usize = 0;
    while t < n
        invariant
            i < a@.len(),
            ad == ansicht(a@),
            bd == ansicht(b@),
            ad[i as int].len() >= n,
            b@.len() >= n,
            forall|tt: int| 0 <= tt < n ==> (#[trigger] bd[tt]).len() > j,
            produkt_zelle(ad, bd, i as int, j as int, n as nat) <= u32::MAX,
            0 <= t <= n,
            summe == produkt_zelle(ad, bd, i as int, j as int, t as nat),
        decreases n - t,
    {
        proof {
            lemma_produkt_nichtnegativ(ad, bd, i as int, j as int, t as nat);
            lemma_produkt_monoton(ad, bd, i as int, j as int, (t + 1) as nat, n as nat);
        }
        summe = summe + a[i][t] * b[t][j];
        t = t + 1;
    }
    summe
}

/// Referenzkern: einfache Dreifachschleife ohne Parallelitaet, schreibt
/// das volle `n` x `n`-Produkt nach `c`.
pub fn single_matrixmultiplikation(
    a: &Vec<Vec<u32>>,
    b: &Vec<Vec<u32>>,
    c: &mut Vec<Vec<u32>>,
    n: usize,
)
    requires
        ist_matrix(ansicht(a@), n as int, n as int),
        ist_matrix(ansicht(b@), n as int, n as int),
        ist_matrix(ansicht(old(c)@), n as int, n as int),
        produkt_passt(ansicht(a@), ansicht(b@), 0, n as int, n as int, n as nat),
    ensures
        ist_produkt(ansicht(final(c)@), ansicht(a@), ansicht(b@), n as int),
{
    let ghost ad = ansicht(a@);
    let ghost bd = ansicht(b@);
    let mut i: usize = 0;
    while i < n
        invariant
            ist_matrix(ad, n as int, n as int),
            ist_matrix(bd, n as int, n as int),
            ad == ansicht(a@),
            bd == ansicht(b@),
            produkt_passt(ad, bd, 0, n as int, n as int, n as nat),
            0 <= i <= n,
            ist_matrix(ansicht(c@), n as int, n as int),
            forall|ii: int, j: int|
                0 <= ii < i && 0 <= j < n ==> #[trigger] ansicht(c@)[ii][j] == produkt_zelle(
                    ad,
                    bd,
                    ii,
                    j,
                    n as nat,
                ),
        decreases n - i,
    {
        let mut j: usize = 0;
        while j < n
            invariant
                ist_matrix(ad, n as int, n as int),
                ist_matrix(bd, n as int, n as int),
                ad == ansicht(a@),
                bd == ansicht(b@),
                produkt_passt(ad, bd, 0, n as int, n as int, n as nat),
                0 <= i < n,
                0 <= j <= n,
                ist_matrix(ansicht(c@), n as int, n as int),
                forall|ii: int, jj: int|
                    0 <= ii < i && 0 <= jj < n ==> #[trigger] ansicht(c@)[ii][jj] == produkt_zelle(
                        ad,
                        bd,
                        ii,
                        jj,
                        n as nat,
                    ),
                forall|jj: int|
                    0 <= jj < j ==> #[trigger] ansicht(c@)[i as int][jj] == produkt_zelle(
                        ad,
                        bd,
                        i as int,
                        jj,
                        n as nat,
                    ),
            decreases n - j,
        {
            let wert: u32 = punktprodukt(a, b, i, j, n);
            let ghost c_vorher = c@;
            proof {
                assert(ansicht(c@)[i as int] == c@[i as int]@);
            }
            c[i][j] = wert;
            proof {
                assert(ansicht(c@)[i as int] =~= ansicht(c_vorher)[i as int].update(
                    j as int,
                    wert,
                ));
                assert forall|ii: int| 0 <= ii < n implies (#[trigger] ansicht(c@)[ii]).len()
                    == n by {
                    if ii != i {
                        assert(ansicht(c@)[ii] == c@[ii]@);
                        assert(ansicht(c_vorher)[ii] == c_vorher[ii]@);
                    }
                }
                assert forall|ii: int, jj: int| 0 <= ii < i && 0 <= jj < n implies #[trigger] ansicht(
                    c@,
                )[ii][jj] == produkt_zelle(ad, bd, ii, jj, n as nat) by {
                    assert(ansicht(c@)[ii] == c@[ii]@);
                    assert(ansicht(c_vorher)[ii] == c_vorher[ii]@);
                }
            }
            j = j + 1;
        }
        i = i + 1;
    }
}

/// Berechnet das Zeilenband eines Arbeiters: fuer jede Zeile `i` im
/// Bereich das Paar `(i, Produktzeile i)`.
pub fn zeilen_band(a: &Vec<Vec<u32>>, b: &Vec<Vec<u32>>, bereich: Bereich, n: usize) -> (band: Vec<
    (usize, Vec<u32>),
>)
    requires
        ist_matrix(ansicht(a@), n as int, n as int),
        ist_matrix(ansicht(b@), n as int, n as int),
        bereich.anfang <= bereich.ende <= n,
        produkt_passt(
            ansicht(a@),
            ansicht(b@),
            bereich.anfang as int,
            bereich.ende as int,
            n as int,
            n as nat,
        ),
    ensures
        band@.len() == bereich.ende - bereich.anfang,
        forall|z: int|
            0 <= z < band@.len() ==> (#[trigger] band@[z]).0 == bereich.anfang + z,
        forall|z: int| 0 <= z < band@.len() ==> (#[trigger] band@[z]).1@.len() == n,
        forall|z: int, j: int|
            0 <= z < band@.len() && 0 <= j < n ==> (#[trigger] band@[z].1@[j]) == produkt_zelle(
                ansicht(a@),
                ansicht(b@),
                bereich.anfang + z,
                j,
                n as nat,
            ),
{
    let ghost ad = ansicht(a@);
    let ghost bd = ansicht(b@);
    let mut band: Vec<(usize, Vec<u32>)> = Vec::new();
    let mut i: usize = bereich.anfang;
    while i < bereich.ende
        invariant
            ist_matrix(ad, n as int, n as int),
            ist_matrix(bd, n as int, n as int),
            ad == ansicht(a@),
            bd == ansicht(b@),
            bereich.anfang <= i <= bereich.ende,
            bereich.ende <= n,
            produkt_passt(ad, bd, bereich.anfang as int, bereich.ende as int, n as int, n as nat),
            band@.len() == i - bereich.anfang,
            forall|z: int| 0 <= z < band@.len() ==> (#[trigger] band@[z]).0 == bereich.anfang + z,
            forall|z: int| 0 <= z < band@.len() ==> (#[trigger] band@[z]).1@.len() == n,
            forall|z: int, j: int|
                0 <= z < band@.len() && 0 <= j < n ==> (#[trigger] band@[z].1@[j]) == produkt_zelle(
                    ad,
                    bd,
                    bereich.anfang + z,
                    j,
                    n as nat,
                ),
        decreases bereich.ende - i,
    {
        let mut zeile: Vec<u32> = Vec::new();
        let mut j: usize = 0;
        while j < n
            invariant
                ist_matrix(ad, n as int, n as int),
                ist_matrix(bd, n as int, n as int),
                ad == ansicht(a@),
                bd == ansicht(b@),
                bereich.anfang <= i < bereich.ende,
                bereich.ende <= n,
                produkt_passt(
                    ad,
                    bd,
                    bereich.anfang as int,
                    bereich.ende as int,
                    n as int,
                    n as nat,
                ),
                0 <= j <= n,
                zeile@.len() == j,
                forall|jj: int|
                    0 <= jj < j ==> #[trigger] zeile@[jj] == produkt_zelle(
                        ad,
                        bd,
                        i as int,
                        jj,
                        n as nat,
                    ),
            decreases n - j,
        {
            let wert: u32 = punktprodukt(a, b, i, j, n);
            zeile.push(wert);
            j = j + 1;
        }
        band.push((i, zeile));
        i = i + 1;
    }
    band
}

/// Der Index `i` kommt unter den Bandzeilen vor.
pub open spec fn im_band(band: Seq<(usize, Vec<u32>)>, i: int) -> bool {
    exists|z: int| 0 <= z < band.len() && (#[trigger] band[z]).0 == i
}

/// Setzt die Zeilen eines Bandes an ihren Zeilenindex in `c` ein; die
/// Zeilen wandern durch Besitzuebergabe, nicht durch Kopie. Alle
/// uebrigen Zeilen von `c` bleiben unveraendert.
pub fn einsetzen(c: &mut Vec<Vec<u32>>, band: Vec<(usize, Vec<u32>)>)
    requires
        forall|z: int| 0 <= z < band@.len() ==> (#[trigger] band@[z]).0 < old(c)@.len(),
        forall|z1: int, z2: int|
            0 <= z1 < z2 < band@.len() ==> (#[trigger] band@[z1]).0 < (#[trigger] band@[z2]).0,
    ensures
        final(c)@.len() == old(c)@.len(),
        forall|z: int|
            0 <= z < band@.len() ==> ansicht(final(c)@)[(#[trigger] band@[z]).0 as int] == band@[
                z
            ].1@,
        forall|i: int|
            0 <= i < final(c)@.len() && !(#[trigger] im_band(band@, i)) ==> ansicht(final(c)@)[i]
                == ansicht(old(c)@)[i],
{
    let ghost band0 = band@;
    let mut rest = band;
    while rest.len() > 0
        invariant
            c@.len() == old(c)@.len(),
            rest@ =~= band0.subrange(0, rest@.len() as int),
            rest@.len() <= band0.len(),
            forall|z: int| 0 <= z < band0.len() ==> (#[trigger] band0[z]).0 < old(c)@.len(),
            forall|z1: int, z2: int|
                0 <= z1 < z2 < band0.len() ==> (#[trigger] band0[z1]).0 < (#[trigger] band0[z2]).0,
            forall|z: int|
                rest@.len() <= z < band0.len() ==> ansicht(c@)[(#[trigger] band0[z]).0 as int]
                    == band0[z].1@,
            forall|i: int|
                0 <= i < c@.len() && !(#[trigger] im_band(band0, i)) ==> ansicht(c@)[i] == ansicht(
                    old(c)@,
                )[i],
            forall|z: int|
                0 <= z < rest@.len() ==> ansicht(c@)[(#[trigger] band0[z]).0 as int] == ansicht(
                    old(c)@,
                )[band0[z].0 as int],
        decreases rest@.len(),
    {
        let ghost rest_vorher = rest@;
        let ghost c_vorher = c@;
        let paar = rest.pop().unwrap();
        let (i, zeile) = paar;
        proof {
            assert(rest_vorher.last() == band0[rest_vorher.len() - 1]);
            assert(rest@ =~= band0.subrange(0, rest@.len() as int));
            assert(i == band0[rest_vorher.len() - 1].0);
        }
        c[i] = zeile;
        proof {
            assert(forall|ii: int|
                0 <= ii < c@.len() && ii != i ==> ansicht(c@)[ii] == #[trigger] ansicht(
                    c_vorher,
                )[ii]);
            assert(im_band(band0, i as int));
            assert(forall|z: int|
                0 <= z < rest@.len() ==> (#[trigger] band0[z]).0 < i);
        }
    }
}

/// Parallel gegliederte Matrixmultiplikation: zerlegt die Zeilen in
/// Bereiche, berechnet jedes Zeilenband und setzt die Baender zum
/// vollen Produkt zusammen. Das Ergebnis ist das des Referenzkerns.
pub fn multiplikation(
    a: &Vec<Vec<u32>>,
    b: &Vec<Vec<u32>>,
    c: &mut Vec<Vec<u32>>,
    n: usize,
    num_threads: usize,
)
    requires
        ist_matrix(ansicht(a@), n as int, n as int),
        ist_matrix(ansicht(b@), n as int, n as int),
        ist_matrix(ansicht(old(c)@), n as int, n as int),
        1 <= n,
        1 <= num_threads,
        produkt_passt(ansicht(a@), ansicht(b@), 0, n as int, n as int, n as nat),
    ensures
        ist_produkt(ansicht(final(c)@), ansicht(a@), ansicht(b@), n as int),
{
    let ghost ad = ansicht(a@);
    let ghost bd = ansicht(b@);
    let bereiche: Vec<Bereich> = teilbereiche(n, num_threads);
    let ghost kk = geklemmt(n as int, num_threads as int);
    let mut z: usize = 0;
    while z < bereiche.len()
        invariant
            ist_matrix(ad, n as int, n as int),
            ist_matrix(bd, n as int, n as int),
            ad == ansicht(a@),
            bd == ansicht(b@),
            produkt_passt(ad, bd, 0, n as int, n as int, n as nat),
            1 <= n,
            kk == geklemmt(n as int, num_threads as int),
            1 <= kk <= n,
            bereiche_von(bereiche@, n as int, num_threads as int),
            0 <= z <= bereiche@.len(),
            ist_matrix(ansicht(c@), n as int, n as int),
            forall|i: int, j: int|
                0 <= i < bereich_anfang(n as int, kk, z as int) && 0 <= j < n
                    ==> #[trigger] ansicht(c@)[i][j] == produkt_zelle(ad, bd, i, j, n as nat),
        decreases bereiche@.len() - z,
    {
        proof {
            lemma_monoton(n as int, kk, z as int, kk - 1);
            lemma_letztes_ende(n as int, kk);
            lemma_anfang_schritt(n as int, kk, z as int);
        }
        let bereich: Bereich = bereiche[z];
        let band = zeilen_band(a, b, bereich, n);
        let ghost c_vorher = c@;
        einsetzen(c, band);
        proof {
            assert forall|i: int, j: int|
                0 <= i < bereich_anfang(n as int, kk, z as int + 1) && 0 <= j < n implies #[trigger] ansicht(
                c@,
            )[i][j] == produkt_zelle(ad, bd, i, j, n as nat) by {
                if i < bereich.anfang {
                    assert(!im_band(band@, i));
                    assert(ansicht(c@)[i] == ansicht(c_vorher)[i]);
                } else {
                    let zz = i - bereich.anfang;
                    assert(band@[zz].0 == i);
                    assert(ansicht(c@)[i] == band@[zz].1@);
                    assert(band@[zz].1@[j] == produkt_zelle(ad, bd, i, j, n as nat));
                }
            }
            assert(ist_matrix(ansicht(c@), n as int, n as int)) by {
                assert forall|i: int| 0 <= i < n implies (#[trigger] ansicht(c@)[i]).len()
                    == n by {
                    if bereich.anfang <= i < bereich.ende {
                        let zz = i - bereich.anfang;
                        assert(band@[zz].0 == i);
                        assert(ansicht(c@)[i] == band@[zz].1@);
                    } else {
                        assert(!im_band(band@, i));
                        assert(ansicht(c@)[i] == ansicht(c_vorher)[i]);
                    }
                }
            }
        }
        z = z + 1;
    }
    proof {
        lemma_anfang_schritt(n as int, kk, kk - 1);
        lemma_letztes_ende(n as int, kk);
    }
}

/// GESETZ Uebereinstimmung: zwei Matrizen, die beide das Produkt
/// derselben Eingaben sind, sind gleich; insbesondere stimmt das
/// parallel zusammengesetzte Ergebnis mit dem des Referenzkerns
/// ueberein, Zelle fuer Zelle und exakt.
pub proof fn lemma_parallel_gleich_referenz(
    c1: Seq<Seq<u32>>,
    c2: Seq<Seq<u32>>,
    a: Seq<Seq<u32>>,
    b: Seq<Seq<u32>>,
    n: int,
)
    requires
        ist_produkt(c1, a, b, n),
        ist_produkt(c2, a, b, n),
    ensures
        c1 == c2,
{
    assert forall|i: int| 0 <= i < n implies c1[i] == c2[i] by {
        assert forall|j: int| 0 <= j < n implies c1[i][j] == c2[i][j] by {
            assert(c1[i][j] == produkt_zelle(a, b, i, j, n as nat));
            assert(c2[i][j] == produkt_zelle(a, b, i, j, n as nat));
        }
        assert(c1[i] =~= c2[i]);
    }
    assert(c1 =~= c2);
}

/// Die groesste Seitenlaenge, bei der ein Produkt zweier
/// Ziffernmatrizen sicher in `u32` passt: `81 * n <= u32::MAX`.
pub const GROESSTE_ZIFFERNMATRIX: usize = 53024287;

/// Alle Zellen der `n` x `n`-Matrix sind Ziffern (unter 10).
pub open spec fn alle_ziffern(m: Seq<Seq<u32>>, n: int) -> bool {
    forall|i: int, j: int| 0 <= i < n && 0 <= j < n ==> #[trigger] m[i][j] < 10
}

/// Teilprodukte von Ziffernmatrizen wachsen je Glied um hoechstens 81.
proof fn lemma_ziffernprodukt_schranke(a: Seq<Seq<u32>>, b: Seq<Seq<u32>>, i: int, j: int, t: nat, n: int)
    requires
        alle_ziffern(a, n),
        alle_ziffern(b, n),
        0 <= i < n,
        0 <= j < n,
        t <= n,
    ensures
        produkt_zelle(a, b, i, j, t) <= 81 * t,
    decreases t,
{
    if t > 0 {
        lemma_ziffernprodukt_schranke(a, b, i, j, (t - 1) as nat, n);
        let x = a[i][t - 1] as int;
        let y = b[t - 1][j] as int;
        assert(x * y <= 81) by (nonlinear_arith)
            requires
                0 <= x < 10,
                0 <= y < 10,
        ;
    }
}

/// GESETZ Ziffernmatrizen: bei Seitenlaenge bis
/// `GROESSTE_ZIFFERNMATRIX` laeuft das Produkt zweier Ziffernmatrizen
/// nirgends ueber `u32` hinaus.
pub proof fn lemma_ziffern_passen(a: Seq<Seq<u32>>, b: Seq<Seq<u32>>, n: int)
    requires
        alle_ziffern(a, n),
        alle_ziffern(b, n),
        0 <= n <= GROESSTE_ZIFFERNMATRIX,
    ensures
        produkt_passt(a, b, 0, n, n, n as nat),
{
    assert forall|i: int, j: int| 0 <= i < n && 0 <= j < n implies #[trigger] produkt_zelle(
        a,
        b,
        i,
        j,
        n as nat,
    ) <= u32::MAX by {
        lemma_ziffernprodukt_schranke(a, b, i, j, n as nat, n);
    }
}

/// Prueft die Masse einer Matrix: `zeilen` Zeilen der Breite `spalten`.
pub fn matrix_masse(m: &Vec<Vec<u32>>, zeilen: usize, spalten: usize) -> (r: bool)
    ensures
        r == ist_matrix(ansicht(m@), zeilen as int, spalten as int),
{
    if m.len() != zeilen {
        return false;
    }
    let mut i: usize = 0;
    while i < zeilen
        invariant
            m@.len() == zeilen,
            0 <= i <= zeilen,
            forall|ii: int| 0 <= ii < i ==> (#[trigger] ansicht(m@)[ii]).len() == spalten,
        decreases zeilen - i,
    {
        proof {
            assert(ansicht(m@)[i as int] == m@[i as int]@);
        }
        if m[i].len() != spalten {
            return false;
        }
        i = i + 1;
    }
    true
}

/// Prueft, dass `m` eine `n` x `n`-Matrix aus lauter Ziffern ist.
pub fn ziffern_matrix(m: &Vec<Vec<u32>>, n: usize) -> (r: bool)
    ensures
        r == (ist_matrix(ansicht(m@), n as int, n as int) && alle_ziffern(ansicht(m@), n as int)),
{
    if m.len() != n {
        return false;
    }
    let mut i: usize = 0;
    while i < n
        invariant
            m@.len() == n,
            0 <= i <= n,
            forall|ii: int| 0 <= ii < i ==> (#[trigger] ansicht(m@)[ii]).len() == n,
            forall|ii: int, jj: int|
                0 <= ii < i && 0 <= jj < n ==> #[trigger] ansicht(m@)[ii][jj] < 10,
        decreases n - i,
    {
        proof {
            assert(ansicht(m@)[i as int] == m@[i as int]@);
        }
        if m[i].len() != n {
            return false;
        }
        let mut j: usize = 0;
        while j < n
            invariant
                m@.len() == n,
                0 <= i < n,
                ansicht(m@)[i as int].len() == n,
                0 <= j <= n,
                forall|jj: int| 0 <= jj < j ==> #[trigger] ansicht(m@)[i as int][jj] < 10,
            decreases n - j,
        {
            proof {
                assert(ansicht(m@)[i as int] == m@[i as int]@);
            }
            if m[i][j] >= 10 {
                return false;
            }
            j = j + 1;
        }
        i = i + 1;
    }
    true
}

/// Wie `multiplikation`, doch mit Pruefung aller Voraussetzungen zur
/// Laufzeit: beide Eingaben muessen `n` x `n`-Ziffernmatrizen sein --
/// wie sie die Zufallserzeugung liefert --, `c` muss `n` x `n` gross
/// sein, und `n` klein genug, dass keine Zelle ueberlaeuft. Sonst
/// bleibt `c` unberuehrt und der Rechenschritt gilt als gescheitert.
pub fn multiplikation_geprueft(
    a: &Vec<Vec<u32>>,
    b: &Vec<Vec<u32>>,
    c: &mut Vec<Vec<u32>>,
    n: usize,
    num_threads: usize,
) -> (r: Result<(), Fehler>)
    ensures
        r is Ok <==> {
            &&& ist_matrix(ansicht(a@), n as int, n as int)
            &&& alle_ziffern(ansicht(a@), n as int)
            &&& ist_matrix(ansicht(b@), n as int, n as int)
            &&& alle_ziffern(ansicht(b@), n as int)
            &&& ist_matrix(ansicht(old(c)@), n as int, n as int)
            &&& 1 <= n <= GROESSTE_ZIFFERNMATRIX
            &&& 1 <= num_threads
        },
        r is Ok ==> ist_produkt(ansicht(final(c)@), ansicht(a@), ansicht(b@), n as int),
        r is Err ==> final(c)@ == old(c)@ && r == Err::<(), Fehler>(Fehler::Berechnung),
{
    if n < 1 || n > GROESSTE_ZIFFERNMATRIX || num_threads < 1 {
        return Err(Fehler::Berechnung);
    }
    if !ziffern_matrix(a, n) || !ziffern_matrix(b, n) {
        return Err(Fehler::Berechnung);
    }
    if !matrix_masse(c, n, n) {
        return Err(Fehler::Berechnung);
    }
    proof {
        lemma_ziffern_passen(ansicht(a@), ansicht(b@), n as int);
    }
    multiplikation(a, b, c, n, num_threads);
    Ok(())
}

/// Meldet die erste Abweichung zwischen Kontroll- und Parallelergebnis
/// in zeilenweiser Durchmusterung als `(i, j, kontrolle, parallel)`,
/// oder `None`, wenn alle Zellen exakt uebereinstimmen.
pub fn vergleich(single: &Vec<Vec<u32>>, parallel: &Vec<Vec<u32>>) -> (r: Option<
    (usize, usize, u32, u32),
>)
    requires
        parallel@.len() == single@.len(),
        forall|i: int|
            0 <= i < single@.len() ==> (#[trigger] ansicht(parallel@)[i]).len() == ansicht(
                single@,
            )[i].len(),
    ensures
        match r {
            None => forall|i: int, j: int|
                0 <= i < single@.len() && 0 <= j < ansicht(single@)[i].len()
                    ==> #[trigger] ansicht(single@)[i][j] == ansicht(parallel@)[i][j],
            Some((i, j, s, p)) => {
                &&& i < single@.len()
                &&& j < ansicht(single@)[i as int].len()
                &&& s == ansicht(single@)[i as int][j as int]
                &&& p == ansicht(parallel@)[i as int][j as int]
                &&& s != p
                &&& forall|i2: int, j2: int|
                    0 <= i2 < single@.len() && 0 <= j2 < ansicht(single@)[i2].len() && (i2 < i || (
                    i2 == i && j2 < j)) ==> #[trigger] ansicht(single@)[i2][j2] == ansicht(
                        parallel@,
                    )[i2][j2]
            },
        },
{
    let mut i: usize = 0;
    while i < single.len()
        invariant
            parallel@.len() == single@.len(),
            forall|ii: int|
                0 <= ii < single@.len() ==> (#[trigger] ansicht(parallel@)[ii]).len() == ansicht(
                    single@,
                )[ii].len(),
            0 <= i <= single@.len(),
            forall|i2: int, j2: int|
                0 <= i2 < i && 0 <= j2 < ansicht(single@)[i2].len() ==> #[trigger] ansicht(
                    single@,
                )[i2][j2] == ansicht(parallel@)[i2][j2],
        decreases single@.len() - i,
    {
        let breite: usize = single[i].len();
        let mut j: usize = 0;
        while j < breite
            invariant
                parallel@.len() == single@.len(),
                forall|ii: int|
                    0 <= ii < single@.len() ==> (#[trigger] ansicht(parallel@)[ii]).len()
                        == ansicht(single@)[ii].len(),
                0 <= i < single@.len(),
                breite == ansicht(single@)[i as int].len(),
                0 <= j <= breite,
                forall|i2: int, j2: int|
                    0 <= i2 < i && 0 <= j2 < ansicht(single@)[i2].len() ==> #[trigger] ansicht(
                        single@,
                    )[i2][j2] == ansicht(parallel@)[i2][j2],
                forall|j2: int|
                    0 <= j2 < j ==> #[trigger] ansicht(single@)[i as int][j2] == ansicht(
                        parallel@,
                    )[i as int][j2],
            decreases breite - j,
        {
            proof {
                assert(ansicht(single@)[i as int] == single@[i as int]@);
                assert(ansicht(parallel@)[i as int] == parallel@[i as int]@);
            }
            let s: u32 = single[i][j];
            let p: u32 = parallel[i][j];
            if s != p {
                return Some((i, j, s, p));
            }
            j = j + 1;
        }
        i = i + 1;
    }
    None
}

} // verus!
