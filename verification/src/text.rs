use vstd::prelude::*;

verus! {

/// `c` ist eine Dezimalziffer.
pub open spec fn ist_ziffer(c: char) -> bool {
    '0' <= c && c <= '9'
}

/// Zahlwert einer Ziffer.
pub open spec fn ziffernwert(c: char) -> int {
    c as int - 48
}

/// Alle Zeichen von `s` sind Dezimalziffern.
pub open spec fn nur_ziffern(s: Seq<char>) -> bool {
    forall|i: int| 0 <= i < s.len() ==> ist_ziffer(#[trigger] s[i])
}

/// Dezimalwert einer Ziffernfolge.
pub open spec fn zahlenwert(s: Seq<char>) -> int
    decreases s.len(),
{
    if s.len() == 0 {
        0
    } else {
        zahlenwert(s.drop_last()) * 10 + ziffernwert(s.last())
    }
}

/// ASCII-Leerraum, wie ihn die Eingaben dieses Werkzeugs tragen.
pub open spec fn ist_leerraum(c: char) -> bool {
    c == ' ' || c == '\t' || c == '\r' || c == '\n'
}

/// `s` ohne fuehrenden Leerraum.
pub open spec fn ohne_fuehrende(s: Seq<char>) -> Seq<char>
    decreases s.len(),
{
    if s.len() > 0 && ist_leerraum(s.first()) {
        ohne_fuehrende(s.drop_first())
    } else {
        s
    }
}

/// `s` ohne Leerraum am Ende.
pub open spec fn ohne_letzte(s: Seq<char>) -> Seq<char>
    decreases s.len(),
{
    if s.len() > 0 && ist_leerraum(s.last()) {
        ohne_letzte(s.drop_last())
    } else {
        s
    }
}

/// `s` beidseitig von Leerraum befreit.
pub open spec fn geputzt(s: Seq<char>) -> Seq<char> {
    ohne_letzte(ohne_fuehrende(s))
}

/// Der Wert von `s` als `u32`: nach dem Putzen muss eine nicht leere
/// Ziffernfolge dastehen, deren Wert in `u32` passt; sonst nichts.
pub open spec fn gelesene_zahl(s: Seq<char>) -> Option<u32> {
    let g = geputzt(s);
    if g.len() > 0 && nur_ziffern(g) && zahlenwert(g) <= u32::MAX {
        Some(zahlenwert(g) as u32)
    } else {
        None
    }
}

/// Sind die ersten `a` Zeichen Leerraum und das naechste keiner, so
/// schneidet `ohne_fuehrende` genau sie ab.
proof fn lemma_fuehrende_ab(s: Seq<char>, a: int)
    requires
        0 <= a <= s.len(),
        forall|i: int| 0 <= i < a ==> ist_leerraum(#[trigger] s[i]),
        a < s.len() ==> !ist_leerraum(s[a]),
    ensures
        ohne_fuehrende(s) =~= s.subrange(a, s.len() as int),
    decreases a,
{
    if a == 0 {
        assert(s.subrange(0, s.len() as int) =~= s);
    } else {
        lemma_fuehrende_ab(s.drop_first(), a - 1);
        assert(s.drop_first().subrange(a - 1, s.drop_first().len() as int) =~= s.subrange(
            a,
            s.len() as int,
        ));
    }
}

/// Sind die Zeichen ab `e` Leerraum und das davor keiner, so schneidet
/// `ohne_letzte` genau sie ab.
proof fn lemma_letzte_ab(s: Seq<char>, e: int)
    requires
        0 <= e <= s.len(),
        forall|i: int| e <= i < s.len() ==> ist_leerraum(#[trigger] s[i]),
        e > 0 ==> !ist_leerraum(s[e - 1]),
    ensures
        ohne_letzte(s) =~= s.subrange(0, e),
    decreases s.len() - e,
{
    if e == s.len() {
        assert(s.subrange(0, s.len() as int) =~= s);
    } else {
        lemma_letzte_ab(s.drop_last(), e);
        assert(s.drop_last().subrange(0, e) =~= s.subrange(0, e));
    }
}

/// Ziffernfolgen haben keinen negativen Wert.
proof fn lemma_zahl_nichtnegativ(s: Seq<char>)
    requires
        nur_ziffern(s),
    ensures
        zahlenwert(s) >= 0,
    decreases s.len(),
{
    if s.len() > 0 {
        assert(nur_ziffern(s.drop_last()));
        lemma_zahl_nichtnegativ(s.drop_last());
    }
}

/// Der Wert eines Ziffernpraefixes uebersteigt nie den Wert der ganzen
/// Ziffernfolge.
proof fn lemma_zahl_monoton(s: Seq<char>, p: int)
    requires
        nur_ziffern(s),
        0 <= p <= s.len(),
    ensures
        zahlenwert(s.subrange(0, p)) <= zahlenwert(s),
    decreases s.len() - p,
{
    if p == s.len() {
        assert(s.subrange(0, p) =~= s);
    } else {
        let kurz = s.subrange(0, p);
        let lang = s.subrange(0, p + 1);
        assert(nur_ziffern(kurz));
        assert(lang.drop_last() =~= kurz);
        lemma_zahl_nichtnegativ(kurz);
        assert(zahlenwert(lang) == zahlenwert(kurz) * 10 + ziffernwert(lang.last()));
        assert(zahlenwert(kurz) * 10 >= zahlenwert(kurz)) by (nonlinear_arith)
            requires
                zahlenwert(kurz) >= 0,
        ;
        lemma_zahl_monoton(s, p + 1);
    }
}

/// Leerraumtest, zeichenweise.
fn leerraum_zeichen(c: char) -> (r: bool)
    ensures
        r == ist_leerraum(c),
{
    c == ' ' || c == '\t' || c == '\r' || c == '\n'
}

/// Zifferntest samt Wert, zeichenweise.
fn ziffer_aus(c: char) -> (r: Option<u32>)
    ensures
        r == (if ist_ziffer(c) {
            Some(ziffernwert(c) as u32)
        } else {
            None::<u32>
        }),
{
    if c >= '0' && c <= '9' {
        Some(c as u32 - 48)
    } else {
        None
    }
}

/// Liest eine `u32` aus `s`: Leerraum an den Raendern wird entfernt,
/// dann muss eine reine, passende Ziffernfolge dastehen.
pub fn zahl_aus_text(s: &str) -> (r: Option<u32>)
    ensures
        r == gelesene_zahl(s@),
{
    let laenge: usize = s.unicode_len();
    let mut a: usize = 0;
    while a < laenge && leerraum_zeichen(s.get_char(a))
        invariant
            laenge == s@.len(),
            0 <= a <= laenge,
            forall|i: int| 0 <= i < a ==> ist_leerraum(#[trigger] s@[i]),
        decreases laenge - a,
    {
        a = a + 1;
    }
    let mut e: usize = laenge;
    while e > a && leerraum_zeichen(s.get_char(e - 1))
        invariant
            laenge == s@.len(),
            0 <= a <= e <= laenge,
            forall|i: int| e <= i < laenge ==> ist_leerraum(#[trigger] s@[i]),
        decreases e,
    {
        e = e - 1;
    }
    let ghost g = s@.subrange(a as int, e as int);
    proof {
        lemma_fuehrende_ab(s@, a as int);
        lemma_letzte_ab(s@.subrange(a as int, s@.len() as int), e - a);
        assert(s@.subrange(a as int, s@.len() as int).subrange(0, e - a) =~= g);
        assert(geputzt(s@) == g);
    }
    if a == e {
        return None;
    }
    let mut wert: u64 = 0;
    let mut i: usize = a;
    while i < e
        invariant
            laenge == s@.len(),
            0 <= a <= i <= e <= laenge,
            a < e,
            g == s@.subrange(a as int, e as int),
            geputzt(s@) == g,
            forall|t: int| a <= t < i ==> ist_ziffer(#[trigger] s@[t]),
            wert == zahlenwert(g.subrange(0, i - a)),
            wert <= u32::MAX,
        decreases e - i,
    {
        let c = s.get_char(i);
        match ziffer_aus(c) {
            None => {
                proof {
                    assert(g[i - a] == s@[i as int]);
                    assert(!nur_ziffern(g));
                }
                return None;
            },
            Some(z) => {
                proof {
                    assert(g.subrange(0, i + 1 - a).drop_last() =~= g.subrange(0, i - a));
                    assert(g.subrange(0, i + 1 - a).last() == s@[i as int]);
                }
                wert = wert * 10 + z as u64;
                if wert > u32::MAX as u64 {
                    proof {
                        if nur_ziffern(g) {
                            lemma_zahl_monoton(g, i + 1 - a);
                        }
                    }
                    return None;
                }
                i = i + 1;
            },
        }
    }
    proof {
        assert(g.subrange(0, e - a) =~= g);
        assert(nur_ziffern(g));
    }
    Some(wert as u32)
}

/// Das Zeichen der Ziffer `d`.
pub open spec fn dezimalziffer(d: int) -> char {
    (48 + d) as char
}

/// Dezimaldarstellung von `x`, ohne fuehrende Nullen (nur die Null
/// selbst schreibt sich `0`).
pub open spec fn dezimal(x: nat) -> Seq<char>
    decreases x,
{
    if x < 10 {
        seq![dezimalziffer(x as int)]
    } else {
        dezimal(x / 10).push(dezimalziffer((x % 10) as int))
    }
}

/// Dezimaldarstellung ohne die Sonderrolle der Null: leer fuer 0.
pub open spec fn fuehrend(x: nat) -> Seq<char> {
    if x == 0 {
        Seq::<char>::empty()
    } else {
        dezimal(x)
    }
}

/// Ein Schritt der Dezimalzerlegung: letzte Ziffer abtrennen.
proof fn lemma_dezimal_schritt(x: nat)
    requires
        x >= 1,
    ensures
        dezimal(x) == fuehrend(x / 10).push(dezimalziffer((x % 10) as int)),
{
    if x < 10 {
        vstd::arithmetic::div_mod::lemma_small_mod(x, 10);
        assert(x / 10 == 0) by (nonlinear_arith)
            requires
                0 <= x < 10,
        ;
        assert(seq![dezimalziffer(x as int)] =~= Seq::<char>::empty().push(
            dezimalziffer((x % 10) as int),
        ));
    }
}

/// Die Zeichen der Ziffernliste `v`, rueckwaerts gelesen.
pub open spec fn ziffernkette(v: Seq<u32>) -> Seq<char> {
    Seq::new(v.len(), |z: int| dezimalziffer(v[v.len() - 1 - z] as int))
}

/// Das Zeichen einer einzelnen Ziffer.
fn ziffer_text(d: u32) -> (r: &'static str)
    requires
        d < 10,
    ensures
        r@ == seq![dezimalziffer(d as int)],
{
    proof {
        reveal_strlit("0");
        reveal_strlit("1");
        reveal_strlit("2");
        reveal_strlit("3");
        reveal_strlit("4");
        reveal_strlit("5");
        reveal_strlit("6");
        reveal_strlit("7");
        reveal_strlit("8");
        reveal_strlit("9");
    }
    let r: &'static str = if d == 0 {
        "0"
    } else if d == 1 {
        "1"
    } else if d == 2 {
        "2"
    } else if d == 3 {
        "3"
    } else if d == 4 {
        "4"
    } else if d == 5 {
        "5"
    } else if d == 6 {
        "6"
    } else if d == 7 {
        "7"
    } else if d == 8 {
        "8"
    } else {
        "9"
    };
    proof {
        assert(r@ =~= seq![dezimalziffer(d as int)]);
    }
    r
}

/// Schreibt `x` dezimal.
pub fn u32_zu_text(x: u32) -> (r: String)
    ensures
        r@ == dezimal(x as nat),
{
    if x == 0 {
        let r: String = "0".to_owned();
        proof {
            reveal_strlit("0");
            assert(r@ =~= dezimal(0));
        }
        return r;
    }
    let mut rueck: Vec<u32> = Vec::new();
    let mut rest: u32 = x;
    proof {
        assert(fuehrend(rest as nat).add(ziffernkette(rueck@)) =~= dezimal(x as nat));
    }
    while rest > 0
        invariant
            x > 0,
            fuehrend(rest as nat).add(ziffernkette(rueck@)) == dezimal(x as nat),
            forall|z: int| 0 <= z < rueck@.len() ==> (#[trigger] rueck@[z]) < 10,
        decreases rest,
    {
        let ghost rest0 = rest as nat;
        let ghost kette0 = ziffernkette(rueck@);
        let d: u32 = rest % 10;
        rueck.push(d);
        rest = rest / 10;
        proof {
            lemma_dezimal_schritt(rest0);
            assert(ziffernkette(rueck@) =~= seq![dezimalziffer(d as int)].add(kette0));
            assert(fuehrend(rest as nat).add(ziffernkette(rueck@)) =~= fuehrend(rest0).add(kette0));
        }
    }
    proof {
        assert(ziffernkette(rueck@) =~= dezimal(x as nat));
    }
    let mut text: String = String::new();
    let mut i: usize = rueck.len();
    proof {
        assert(text@ =~= ziffernkette(rueck@).subrange(0, rueck@.len() - i));
    }
    while i > 0
        invariant
            0 <= i <= rueck@.len(),
            ziffernkette(rueck@) == dezimal(x as nat),
            forall|z: int| 0 <= z < rueck@.len() ==> (#[trigger] rueck@[z]) < 10,
            text@ == ziffernkette(rueck@).subrange(0, rueck@.len() - i),
        decreases i,
    {
        i = i - 1;
        let zt: &str = ziffer_text(rueck[i]);
        text.append(zt);
        proof {
            assert(text@ =~= ziffernkette(rueck@).subrange(0, rueck@.len() - i));
        }
    }
    proof {
        assert(ziffernkette(rueck@).subrange(0, rueck@.len() as int) =~= ziffernkette(rueck@));
    }
    text
}

/// Zerlegung von `s` an jedem Trennzeichen `t`: die Teilstuecke, in
/// ihrer Reihenfolge, leere Stuecke eingeschlossen.
pub open spec fn zerlegung(s: Seq<char>, t: char) -> Seq<Seq<char>>
    decreases s.len(),
{
    if s.len() == 0 {
        seq![Seq::<char>::empty()]
    } else if s[0] == t {
        seq![Seq::<char>::empty()].add(zerlegung(s.drop_first(), t))
    } else {
        let rest = zerlegung(s.drop_first(), t);
        seq![seq![s[0]].add(rest[0])].add(rest.drop_first())
    }
}

/// Eine Zerlegung hat stets wenigstens ein Stueck.
proof fn lemma_zerlegung_nicht_leer(s: Seq<char>, t: char)
    ensures
        zerlegung(s, t).len() >= 1,
    decreases s.len(),
{
    if s.len() > 0 {
        lemma_zerlegung_nicht_leer(s.drop_first(), t);
    }
}

/// Ohne Trennzeichen ist `s` selbst das einzige Stueck.
proof fn lemma_zerlegung_ohne_trenner(s: Seq<char>, t: char)
    requires
        forall|i: int| 0 <= i < s.len() ==> (#[trigger] s[i]) != t,
    ensures
        zerlegung(s, t) == seq![s],
    decreases s.len(),
{
    if s.len() == 0 {
        assert(zerlegung(s, t) =~~= seq![s]);
    } else {
        lemma_zerlegung_ohne_trenner(s.drop_first(), t);
        let rest = zerlegung(s.drop_first(), t);
        assert(seq![s[0]].add(rest[0]) =~= s);
        assert(zerlegung(s, t) =~~= seq![s]);
    }
}

/// Steht das erste Trennzeichen an Stelle `p`, so beginnt die
/// Zerlegung mit dem Stueck davor, gefolgt von der Zerlegung des
/// Textes dahinter.
proof fn lemma_zerlegung_schnitt(s: Seq<char>, t: char, p: int)
    requires
        0 <= p < s.len(),
        s[p] == t,
        forall|i: int| 0 <= i < p ==> (#[trigger] s[i]) != t,
    ensures
        zerlegung(s, t) == seq![s.subrange(0, p)].add(
            zerlegung(s.subrange(p + 1, s.len() as int), t),
        ),
    decreases p,
{
    if p == 0 {
        assert(s.drop_first() =~= s.subrange(1, s.len() as int));
        assert(s.subrange(0, 0) =~= Seq::<char>::empty());
        assert(zerlegung(s, t) =~~= seq![s.subrange(0, 0)].add(
            zerlegung(s.subrange(1, s.len() as int), t),
        ));
    } else {
        let s2 = s.drop_first();
        lemma_zerlegung_schnitt(s2, t, p - 1);
        lemma_zerlegung_nicht_leer(s2.subrange(p, s2.len() as int), t);
        assert(s2.subrange(0, p - 1) =~= s.subrange(1, p));
        assert(s2.subrange(p, s2.len() as int) =~= s.subrange(p + 1, s.len() as int));
        let rest = zerlegung(s2, t);
        assert(rest[0] == s.subrange(1, p));
        assert(seq![s[0]].add(rest[0]) =~= s.subrange(0, p));
        assert(rest.drop_first() =~= zerlegung(s.subrange(p + 1, s.len() as int), t));
        assert(zerlegung(s, t) =~~= seq![s.subrange(0, p)].add(
            zerlegung(s.subrange(p + 1, s.len() as int), t),
        ));
    }
}

/// Die Sichten der Stuecke einer Stueckliste.
pub open spec fn stueck_sichten(r: Seq<String>) -> Seq<Seq<char>> {
    r.map_values(|x: String| x@)
}

/// Zerteilt `s` an jedem Trennzeichen `t` in seine Stuecke.
pub fn teile(s: &str, t: char) -> (r: Vec<String>)
    ensures
        r@.len() == zerlegung(s@, t).len(),
        forall|z: int| 0 <= z < r@.len() ==> (#[trigger] r@[z])@ == zerlegung(s@, t)[z],
{
    let laenge: usize = s.unicode_len();
    let mut r: Vec<String> = Vec::new();
    let mut anfang: usize = 0;
    let mut i: usize = 0;
    proof {
        assert(s@.subrange(0, laenge as int) =~= s@);
        assert(stueck_sichten(r@).add(zerlegung(s@, t)) =~~= zerlegung(s@, t));
    }
    while i < laenge
        invariant
            laenge == s@.len(),
            0 <= anfang <= i <= laenge,
            forall|q: int| anfang <= q < i ==> (#[trigger] s@[q]) != t,
            zerlegung(s@, t) == stueck_sichten(r@).add(
                zerlegung(s@.subrange(anfang as int, laenge as int), t),
            ),
        decreases laenge - i,
    {
        if s.get_char(i) == t {
            let ghost rem = s@.subrange(anfang as int, laenge as int);
            let stueck: String = s.substring_char(anfang, i).to_owned();
            proof {
                lemma_zerlegung_schnitt(rem, t, i - anfang);
                assert(rem.subrange(0, i - anfang) =~= s@.subrange(anfang as int, i as int));
                assert(rem.subrange(i - anfang + 1, rem.len() as int) =~= s@.subrange(
                    i as int + 1,
                    laenge as int,
                ));
            }
            r.push(stueck);
            proof {
                assert(stueck_sichten(r@) =~= stueck_sichten(r@.drop_last()).push(stueck@));
                assert(zerlegung(s@, t) =~~= stueck_sichten(r@).add(
                    zerlegung(s@.subrange(i as int + 1, laenge as int), t),
                ));
            }
            anfang = i + 1;
        }
        i = i + 1;
    }
    let ghost rem = s@.subrange(anfang as int, laenge as int);
    let stueck: String = s.substring_char(anfang, laenge).to_owned();
    proof {
        lemma_zerlegung_ohne_trenner(rem, t);
    }
    r.push(stueck);
    proof {
        assert(stueck_sichten(r@) =~= stueck_sichten(r@.drop_last()).push(stueck@));
        assert(zerlegung(s@, t) =~~= stueck_sichten(r@));
    }
    r
}

/// `p` ist Praefix von `s`.
pub open spec fn hat_praefix(s: Seq<char>, p: Seq<char>) -> bool {
    p.len() <= s.len() && s.subrange(0, p.len() as int) == p
}

/// Praefixtest.
pub fn praefix_test(s: &str, p: &str) -> (r: bool)
    ensures
        r == hat_praefix(s@, p@),
{
    let pl: usize = p.unicode_len();
    let sl: usize = s.unicode_len();
    if pl > sl {
        return false;
    }
    let mut i: usize = 0;
    while i < pl
        invariant
            pl == p@.len(),
            sl == s@.len(),
            pl <= sl,
            0 <= i <= pl,
            forall|q: int| 0 <= q < i ==> (#[trigger] s@[q]) == p@[q],
        decreases pl - i,
    {
        if s.get_char(i) != p.get_char(i) {
            proof {
                assert(s@.subrange(0, pl as int)[i as int] != p@[i as int]);
            }
            return false;
        }
        i = i + 1;
    }
    proof {
        assert(s@.subrange(0, pl as int) =~= p@);
    }
    true
}

/// `e` ist Endung von `s`.
pub open spec fn hat_endung(s: Seq<char>, e: Seq<char>) -> bool {
    e.len() <= s.len() && s.subrange(s.len() - e.len(), s.len() as int) == e
}

/// Endungstest.
pub fn endung_test(s: &str, e: &str) -> (r: bool)
    ensures
        r == hat_endung(s@, e@),
{
    let el: usize = e.unicode_len();
    let sl: usize = s.unicode_len();
    if el > sl {
        return false;
    }
    let ab: usize = sl - el;
    let mut i: usize = 0;
    while i < el
        invariant
            el == e@.len(),
            sl == s@.len(),
            el <= sl,
            ab == sl - el,
            0 <= i <= el,
            forall|q: int| 0 <= q < i ==> (#[trigger] s@[ab + q]) == e@[q],
        decreases el - i,
    {
        if s.get_char(ab + i) != e.get_char(i) {
            proof {
                assert(s@.subrange(ab as int, sl as int)[i as int] != e@[i as int]);
            }
            return false;
        }
        i = i + 1;
    }
    proof {
        assert forall|q: int| 0 <= q < el implies s@.subrange(ab as int, sl as int)[q] == e@[q] by {
            assert(s@[ab + q] == e@[q]);
        }
        assert(s@.subrange(ab as int, sl as int) =~= e@);
    }
    true
}

/// Befreit `s` beidseitig von Leerraum.
pub fn putzen(s: &str) -> (r: String)
    ensures
        r@ == geputzt(s@),
{
    let laenge: usize = s.unicode_len();
    let mut a: usize = 0;
    while a < laenge && leerraum_zeichen(s.get_char(a))
        invariant
            laenge == s@.len(),
            0 <= a <= laenge,
            forall|i: int| 0 <= i < a ==> ist_leerraum(#[trigger] s@[i]),
        decreases laenge - a,
    {
        a = a + 1;
    }
    let mut e: usize = laenge;
    while e > a && leerraum_zeichen(s.get_char(e - 1))
        invariant
            laenge == s@.len(),
            0 <= a <= e <= laenge,
            forall|i: int| e <= i < laenge ==> ist_leerraum(#[trigger] s@[i]),
        decreases e,
    {
        e = e - 1;
    }
    proof {
        lemma_fuehrende_ab(s@, a as int);
        lemma_letzte_ab(s@.subrange(a as int, s@.len() as int), e - a);
        assert(s@.subrange(a as int, s@.len() as int).subrange(0, e - a) =~= s@.subrange(
            a as int,
            e as int,
        ));
    }
    s.substring_char(a, e).to_owned()
}

/// Was hinter dem ersten Vorkommen von `t` steht, wenn es eines gibt.
pub open spec fn nach_erstem(s: Seq<char>, t: char) -> Option<Seq<char>>
    decreases s.len(),
{
    if s.len() == 0 {
        None
    } else if s[0] == t {
        Some(s.drop_first())
    } else {
        nach_erstem(s.drop_first(), t)
    }
}

/// Steht das erste `t` an Stelle `p`, so liefert `nach_erstem` den
/// Text dahinter.
proof fn lemma_nach_erstem_ab(s: Seq<char>, t: char, p: int)
    requires
        0 <= p < s.len(),
        s[p] == t,
        forall|i: int| 0 <= i < p ==> (#[trigger] s[i]) != t,
    ensures
        nach_erstem(s, t) == Some(s.subrange(p + 1, s.len() as int)),
    decreases p,
{
    if p == 0 {
        assert(s.drop_first() =~= s.subrange(1, s.len() as int));
    } else {
        lemma_nach_erstem_ab(s.drop_first(), t, p - 1);
        assert(s.drop_first().subrange(p, s.drop_first().len() as int) =~= s.subrange(
            p + 1,
            s.len() as int,
        ));
    }
}

/// Ohne `t` liefert `nach_erstem` nichts.
proof fn lemma_nach_erstem_fehlt(s: Seq<char>, t: char)
    requires
        forall|i: int| 0 <= i < s.len() ==> (#[trigger] s[i]) != t,
    ensures
        nach_erstem(s, t) is None,
    decreases s.len(),
{
    if s.len() > 0 {
        lemma_nach_erstem_fehlt(s.drop_first(), t);
    }
}

/// Der Text hinter dem ersten Vorkommen von `t` in `s`.
pub fn nach_zeichen(s: &str, t: char) -> (r: Option<String>)
    ensures
        match r {
            Some(wert) => nach_erstem(s@, t) == Some(wert@),
            None => nach_erstem(s@, t) is None,
        },
{
    let laenge: usize = s.unicode_len();
    let mut i: usize = 0;
    while i < laenge
        invariant
            laenge == s@.len(),
            0 <= i <= laenge,
            forall|q: int| 0 <= q < i ==> (#[trigger] s@[q]) != t,
        decreases laenge - i,
    {
        if s.get_char(i) == t {
            proof {
                lemma_nach_erstem_ab(s@, t, i as int);
            }
            return Some(s.substring_char(i + 1, laenge).to_owned());
        }
        i = i + 1;
    }
    proof {
        lemma_nach_erstem_fehlt(s@, t);
    }
    None
}

} // verus!
