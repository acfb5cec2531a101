//! When to notify, and when to keep quiet.
//!
//! The rules, in order:
//!
//! 1. **No updates, nothing.**
//! 2. **Exactly the same as last time, nothing** — unless long ago.
//! 3. **If the kernel changes, notify anyway**, even if the set is the same:
//!    it is the only thing on the list that asks for a reboot.
//! 4. **If it has been too long, notify anyway.**

use vstd::prelude::*;
use vstd::relations::{sorted_by, total_ordering};
use vstd::utf8::{
    encode_utf8, encode_utf8_decode_utf8, encode_utf8_valid_utf8, length_of_first_scalar,
    pop_first_scalar, valid_utf8,
};
use crate::analisis::textos;
use crate::texto::{caracteres, hexadecimal, hexadecimal_16, mismos};

verus! {

/// Every how many days the same thing is brought up again.
pub const DIAS_PARA_INSISTIR: u64 = 7;

pub const SEGUNDOS_POR_DIA: u64 = 86_400;

/// What is remembered of the last time a notice was shown.
#[derive(Debug, Clone, PartialEq, Eq)]
pub struct Recuerdo {
    /// The fingerprint of the set that was notified. Empty if never.
    pub huella: String,
    /// When, in seconds since the epoch. Zero if never.
    pub cuando: u64,
}

impl Default for Recuerdo {
    /// Nothing was ever notified.
    fn default() -> (r: Self)
        ensures
            r.huella@ == Seq::<char>::empty(),
            r.cuando == 0,
    {
        Recuerdo { huella: String::new(), cuando: 0 }
    }
}

/// Why a notice is shown, or why not.
#[derive(Debug, Clone, Copy, PartialEq, Eq, Structural)]
pub enum Decision {
    /// There is nothing to update.
    NadaQueAvisar,
    /// It is what was already notified, and recently.
    YaAvisado,
    /// There is something new since last time.
    HayNovedades,
    /// The kernel changes, so the notice goes out even if nothing else is new.
    CambiaElKernel,
    /// Too long has passed since the last notice.
    HaceMucho,
}

impl Decision {
    /// Whether this decision shows a notice.
    pub open spec fn muestra_aviso(self) -> bool {
        !(self is NadaQueAvisar || self is YaAvisado)
    }

    pub fn avisa(self) -> (r: bool)
        ensures
            r == self.muestra_aviso(),
    {
        !matches!(self, Decision::NadaQueAvisar | Decision::YaAvisado)
    }
}

/// The seconds from `desde` to `hasta`, or zero if `hasta` comes first:
/// a clock that went back does not make time pass.
pub open spec fn transcurrido(desde: u64, hasta: u64) -> int {
    if hasta >= desde {
        hasta - desde
    } else {
        0
    }
}

/// The decision, rule by rule.
pub open spec fn decision(
    cuantas: nat,
    cambia_el_kernel: bool,
    huella_actual: Seq<char>,
    recuerdo: Recuerdo,
    ahora: u64,
) -> Decision {
    if cuantas == 0 {
        Decision::NadaQueAvisar
    } else if huella_actual != recuerdo.huella@ {
        Decision::HayNovedades
    } else if cambia_el_kernel {
        Decision::CambiaElKernel
    } else if transcurrido(recuerdo.cuando, ahora) >= DIAS_PARA_INSISTIR * SEGUNDOS_POR_DIA {
        Decision::HaceMucho
    } else {
        Decision::YaAvisado
    }
}

/// Whether to notify.
pub fn decidir(
    cuantas: usize,
    cambia_el_kernel: bool,
    huella_actual: &str,
    recuerdo: &Recuerdo,
    ahora: u64,
) -> (r: Decision)
    ensures
        r == decision(cuantas as nat, cambia_el_kernel, huella_actual@, *recuerdo, ahora),
{
    if cuantas == 0 {
        return Decision::NadaQueAvisar;
    }
    let actual = caracteres(huella_actual);
    let recordada = caracteres(recuerdo.huella.as_str());
    if !mismos(actual.as_slice(), recordada.as_slice()) {
        return Decision::HayNovedades;
    }
    if cambia_el_kernel {
        return Decision::CambiaElKernel;
    }
    if ahora.saturating_sub(recuerdo.cuando) >= DIAS_PARA_INSISTIR * SEGUNDOS_POR_DIA {
        return Decision::HaceMucho;
    }
    Decision::YaAvisado
}

// ---------------------------------------------------------------------------
// The fingerprint
// ---------------------------------------------------------------------------

/// The order of `str`: byte by byte, a prefix before what extends it.
pub open spec fn bytes_en_orden(a: Seq<u8>, b: Seq<u8>) -> bool
    decreases a.len(),
{
    if a.len() == 0 {
        true
    } else if b.len() == 0 {
        false
    } else if a[0] != b[0] {
        a[0] < b[0]
    } else {
        bytes_en_orden(a.drop_first(), b.drop_first())
    }
}

/// [`bytes_en_orden`] as a relation.
pub open spec fn orden_de_bytes() -> spec_fn(Seq<u8>, Seq<u8>) -> bool {
    |a: Seq<u8>, b: Seq<u8>| bytes_en_orden(a, b)
}

proof fn lema_orden_reflexivo(a: Seq<u8>)
    ensures
        bytes_en_orden(a, a),
    decreases a.len(),
{
    if a.len() > 0 {
        lema_orden_reflexivo(a.drop_first());
    }
}

proof fn lema_orden_antisimetrico(a: Seq<u8>, b: Seq<u8>)
    requires
        bytes_en_orden(a, b),
        bytes_en_orden(b, a),
    ensures
        a == b,
    decreases a.len(),
{
    if a.len() > 0 && b.len() > 0 {
        lema_orden_antisimetrico(a.drop_first(), b.drop_first());
        assert(a =~= seq![a[0]] + a.drop_first());
        assert(b =~= seq![b[0]] + b.drop_first());
    } else {
        assert(a =~= b);
    }
}

proof fn lema_orden_transitivo(a: Seq<u8>, b: Seq<u8>, c: Seq<u8>)
    requires
        bytes_en_orden(a, b),
        bytes_en_orden(b, c),
    ensures
        bytes_en_orden(a, c),
    decreases a.len(),
{
    if a.len() > 0 && b.len() > 0 && c.len() > 0 {
        if a[0] == b[0] && b[0] == c[0] {
            lema_orden_transitivo(a.drop_first(), b.drop_first(), c.drop_first());
        }
    }
}

proof fn lema_orden_conexo(a: Seq<u8>, b: Seq<u8>)
    ensures
        bytes_en_orden(a, b) || bytes_en_orden(b, a),
    decreases a.len(),
{
    if a.len() > 0 && b.len() > 0 && a[0] == b[0] {
        lema_orden_conexo(a.drop_first(), b.drop_first());
    }
}

/// The order of `str` is a total order.
pub proof fn lema_orden_total()
    ensures
        total_ordering(orden_de_bytes()),
{
    let r = orden_de_bytes();
    assert forall|a: Seq<u8>| #[trigger] r(a, a) by {
        lema_orden_reflexivo(a);
    }
    assert forall|a: Seq<u8>, b: Seq<u8>| #[trigger] r(a, b) && #[trigger] r(b, a) implies a == b by {
        lema_orden_antisimetrico(a, b);
    }
    assert forall|a: Seq<u8>, b: Seq<u8>, c: Seq<u8>|
        #[trigger] r(a, b) && #[trigger] r(b, c) implies r(a, c) by {
        lema_orden_transitivo(a, b, c);
    }
    assert forall|a: Seq<u8>, b: Seq<u8>| #[trigger] r(a, b) || #[trigger] r(b, a) by {
        lema_orden_conexo(a, b);
    }
}

/// The offset basis of 64-bit FNV-1a.
pub const BASE_FNV: u64 = 0xcbf2_9ce4_8422_2325;

/// The multiplier of each step.
pub const PRIMO_FNV: u64 = 0x1000_0000_01b3;

/// One step of the hash, as FNV-1a takes it: xor the byte in, multiply
/// modulo 2^64.
pub open spec fn paso_fnv(h: u64, b: u8) -> u64 {
    (((h ^ (b as u64)) as nat * PRIMO_FNV as nat) % 0x1_0000_0000_0000_0000) as u64
}

/// The hash over the bytes, starting from `h`.
pub open spec fn fnv_bytes(h: u64, bs: Seq<u8>) -> u64
    decreases bs.len(),
{
    if bs.len() == 0 {
        h
    } else {
        fnv_bytes(paso_fnv(h, bs[0]), bs.drop_first())
    }
}

/// The hash over the entries, starting from `h`, each entry followed by the
/// separator byte `0xff`.
pub open spec fn fnv_entradas(h: u64, es: Seq<Seq<u8>>) -> u64
    decreases es.len(),
{
    if es.len() == 0 {
        h
    } else {
        fnv_entradas(paso_fnv(fnv_bytes(h, es[0]), 0xff), es.drop_first())
    }
}

/// The fingerprint of entries given as their UTF-8 bytes: the hash of the
/// entries in the order of `str`, each one closed by a separator, written
/// as 16 hexadecimal digits.
pub open spec fn huella_de_bytes(es: Seq<Seq<u8>>) -> Seq<char> {
    hexadecimal(fnv_entradas(BASE_FNV, es.sort_by(orden_de_bytes())) as nat, 16)
}

/// The fingerprint of a set of entries.
pub open spec fn huella_de(entradas: Seq<Seq<char>>) -> Seq<char> {
    huella_de_bytes(entradas.map_values(|e: Seq<char>| encode_utf8(e)))
}

/// The views of a vector of byte vectors.
pub open spec fn bytes_de(v: Seq<Vec<u8>>) -> Seq<Seq<u8>> {
    v.map_values(|b: Vec<u8>| b@)
}

fn en_orden(a: &[u8], b: &[u8]) -> (r: bool)
    ensures
        r == bytes_en_orden(a@, b@),
{
    let mut i: usize = 0;
    assert(a@.skip(0) =~= a@);
    assert(b@.skip(0) =~= b@);
    loop
        invariant
            i <= a@.len(),
            i <= b@.len(),
            bytes_en_orden(a@, b@) == bytes_en_orden(a@.skip(i as int), b@.skip(i as int)),
        decreases a@.len() - i,
    {
        if i == a.len() {
            return true;
        }
        if i == b.len() {
            return false;
        }
        if a[i] != b[i] {
            return a[i] < b[i];
        }
        assert(a@.skip(i as int).drop_first() =~= a@.skip(i + 1));
        assert(b@.skip(i as int).drop_first() =~= b@.skip(i + 1));
        i += 1;
    }
}

fn bytes_de_texto(s: &String) -> (r: Vec<u8>)
    ensures
        r@ == encode_utf8(s@),
{
    let b = s.as_str().as_bytes();
    let mut r: Vec<u8> = Vec::new();
    let n = b.len();
    for i in 0..n
        invariant
            n == b@.len(),
            r@ == b@.take(i as int),
    {
        r.push(b[i]);
        assert(b@.take(i + 1) =~= b@.take(i as int).push(b@[i as int]));
    }
    assert(b@.take(n as int) =~= b@);
    r
}

/// The entries as UTF-8 bytes, in the order of `str`.
fn ordenar(entradas: &[String]) -> (r: Vec<Vec<u8>>)
    ensures
        bytes_de(r@) == textos(entradas@).map_values(|e: Seq<char>| encode_utf8(e)).sort_by(
            orden_de_bytes(),
        ),
{
    let ghost todas = textos(entradas@).map_values(|e: Seq<char>| encode_utf8(e));
    let ghost leq = orden_de_bytes();
    proof {
        lema_orden_total();
    }
    let mut r: Vec<Vec<u8>> = Vec::new();
    let n = entradas.len();
    assert(bytes_de(r@) =~= todas.take(0));
    for i in 0..n
        invariant
            n == entradas@.len(),
            todas == textos(entradas@).map_values(|e: Seq<char>| encode_utf8(e)),
            leq == orden_de_bytes(),
            total_ordering(leq),
            sorted_by(bytes_de(r@), leq),
            bytes_de(r@).to_multiset() == todas.take(i as int).to_multiset(),
    {
        let x = bytes_de_texto(&entradas[i]);
        assert(x@ == todas[i as int]);
        let mut p: usize = 0;
        while p < r.len() && en_orden(r[p].as_slice(), x.as_slice())
            invariant
                p <= r@.len(),
                forall|k: int| 0 <= k < p ==> bytes_en_orden(#[trigger] bytes_de(r@)[k], x@),
            decreases r@.len() - p,
        {
            p += 1;
        }
        let ghost antes = bytes_de(r@);
        proof {
            if p < antes.len() {
                lema_orden_conexo(x@, antes[p as int]);
                assert forall|k: int| p <= k < antes.len() implies bytes_en_orden(x@, #[trigger] antes[k]) by {
                    if k > p {
                        assert(leq(antes[p as int], antes[k]));
                        lema_orden_transitivo(x@, antes[p as int], antes[k]);
                    }
                }
            }
        }
        r.insert(p, x);
        proof {
            let ahora = bytes_de(r@);
            assert(ahora =~= antes.insert(p as int, x@));
            assert forall|a: int, b: int| 0 <= a < b < ahora.len() implies #[trigger] leq(ahora[a], ahora[b]) by {
                if b < p {
                    assert(leq(antes[a], antes[b]));
                } else if b == p {
                } else if a < p {
                    lema_orden_transitivo(antes[a], x@, antes[b - 1]);
                } else if a == p {
                } else {
                    assert(leq(antes[a - 1], antes[b - 1]));
                }
            }
            vstd::seq_lib::to_multiset_insert(antes, p as int, x@);
            assert(todas.take(i + 1) =~= todas.take(i as int).push(x@));
            vstd::seq_lib::to_multiset_build(todas.take(i as int), x@);
        }
    }
    proof {
        assert(todas.take(n as int) =~= todas);
        todas.lemma_sort_by_ensures(leq);
        vstd::seq_lib::lemma_sorted_unique(bytes_de(r@), todas.sort_by(leq), leq);
    }
    r
}

/// The fingerprint of a set of updates.
///
/// It changes when **what** is updated changes, or **to which version**,
/// and not when the order changes: the lines are sorted first. It is not a
/// cryptographic hash and need not be one: it is only compared with the
/// previous one. It follows FNV-1a, with a separator after each entry so
/// that `["ab", "c"]` and `["a", "bc"]` do not hash the same bytes.
pub fn huella(entradas: &[String]) -> (r: String)
    ensures
        r@ == huella_de(textos(entradas@)),
        r@.len() == 16,
{
    let ordenadas = ordenar(entradas);
    let ghost es = bytes_de(ordenadas@);
    let mut h: u64 = BASE_FNV;
    let n = ordenadas.len();
    assert(es.skip(0) =~= es);
    for i in 0..n
        invariant
            n == ordenadas@.len(),
            es == bytes_de(ordenadas@),
            fnv_entradas(BASE_FNV, es) == fnv_entradas(h, es.skip(i as int)),
    {
        let entrada = &ordenadas[i];
        let ghost h0 = h;
        let m = entrada.len();
        assert(entrada@.skip(0) =~= entrada@);
        for j in 0..m
            invariant
                m == entrada@.len(),
                fnv_bytes(h0, entrada@) == fnv_bytes(h, entrada@.skip(j as int)),
        {
            h = (h ^ (entrada[j] as u64)).wrapping_mul(PRIMO_FNV);
            assert(entrada@.skip(j as int).drop_first() =~= entrada@.skip(j + 1));
        }
        assert(entrada@.skip(m as int) =~= Seq::<u8>::empty());
        h = (h ^ 0xff).wrapping_mul(PRIMO_FNV);
        assert(es.skip(i as int)[0] == entrada@);
        assert(es.skip(i as int).drop_first() =~= es.skip(i + 1));
    }
    assert(es.skip(n as int) =~= Seq::<Seq<u8>>::empty());
    proof {
        lema_largo_hexadecimal(h as nat, 16);
    }
    hexadecimal_16(h)
}

proof fn lema_largo_hexadecimal(h: nat, n: nat)
    ensures
        hexadecimal(h, n).len() == n,
    decreases n,
{
    if n > 0 {
        lema_largo_hexadecimal(h / 16, (n - 1) as nat);
    }
}

// ---------------------------------------------------------------------------
// Laws
// ---------------------------------------------------------------------------

/// A notice goes out exactly when there are updates and either the set is
/// not the one last notified, or the kernel changes, or a week has passed
/// since the last notice.
pub proof fn ley_cuando_se_avisa(
    cuantas: nat,
    cambia_el_kernel: bool,
    huella_actual: Seq<char>,
    recuerdo: Recuerdo,
    ahora: u64,
)
    ensures
        decision(cuantas, cambia_el_kernel, huella_actual, recuerdo, ahora).muestra_aviso() <==> (
        cuantas > 0 && (huella_actual != recuerdo.huella@ || cambia_el_kernel || transcurrido(
            recuerdo.cuando,
            ahora,
        ) >= 604_800)),
{
}

/// Without updates there is no notice, whatever else holds.
pub proof fn ley_sin_actualizaciones_no_se_avisa(
    cambia_el_kernel: bool,
    huella_actual: Seq<char>,
    recuerdo: Recuerdo,
    ahora: u64,
)
    ensures
        decision(0, cambia_el_kernel, huella_actual, recuerdo, ahora) == Decision::NadaQueAvisar,
        !decision(0, cambia_el_kernel, huella_actual, recuerdo, ahora).muestra_aviso(),
{
}

/// A clock that went back, to before the last notice, does not bring the
/// same set up again.
pub proof fn ley_reloj_atrasado(cuantas: nat, recuerdo: Recuerdo, ahora: u64)
    requires
        cuantas > 0,
        ahora < recuerdo.cuando,
    ensures
        decision(cuantas, false, recuerdo.huella@, recuerdo, ahora) == Decision::YaAvisado,
{
}

/// A week or more after the last notice of the same set, with no kernel
/// that changes, the notice goes out again, however many days have passed.
pub proof fn ley_pasada_una_semana_se_insiste(
    cuantas: nat,
    huella_actual: Seq<char>,
    recuerdo: Recuerdo,
    ahora: u64,
)
    requires
        cuantas > 0,
        huella_actual == recuerdo.huella@,
        ahora >= recuerdo.cuando + 604_800,
    ensures
        decision(cuantas, false, huella_actual, recuerdo, ahora) == Decision::HaceMucho,
        decision(cuantas, false, huella_actual, recuerdo, ahora).muestra_aviso(),
{
}

/// Within the week that follows the notice of the same set, with no kernel
/// that changes, nothing is shown again.
pub proof fn ley_dentro_de_la_semana_se_calla(
    cuantas: nat,
    huella_actual: Seq<char>,
    recuerdo: Recuerdo,
    ahora: u64,
)
    requires
        cuantas > 0,
        huella_actual == recuerdo.huella@,
        recuerdo.cuando <= ahora,
        ahora < recuerdo.cuando + 604_800,
    ensures
        decision(cuantas, false, huella_actual, recuerdo, ahora) == Decision::YaAvisado,
        !decision(cuantas, false, huella_actual, recuerdo, ahora).muestra_aviso(),
{
}

/// The images of two sequences with the same elements have the same
/// elements.
proof fn lema_imagen_de_permutacion<A, B>(a: Seq<A>, b: Seq<A>, f: spec_fn(A) -> B)
    requires
        a.to_multiset() == b.to_multiset(),
    ensures
        a.map_values(f).to_multiset() == b.map_values(f).to_multiset(),
    decreases a.len(),
{
    broadcast use vstd::seq_lib::group_to_multiset_ensures;
    broadcast use vstd::multiset::group_multiset_axioms;

    if a.len() == 0 {
        assert(b.len() == a.to_multiset().len());
        assert(a.map_values(f) =~= b.map_values(f));
    } else {
        let x = a.last();
        assert(a.contains(x)) by {
            assert(a[a.len() - 1] == x);
        }
        assert(b.to_multiset().count(x) > 0);
        assert(b.contains(x));
        let j = choose|j: int| 0 <= j < b.len() && b[j] == x;
        assert(a.remove(a.len() - 1) =~= a.drop_last());
        assert(a.drop_last().to_multiset() == a.to_multiset().remove(x));
        assert(b.remove(j).to_multiset() == b.to_multiset().remove(x));
        lema_imagen_de_permutacion(a.drop_last(), b.remove(j), f);
        let fa = a.map_values(f);
        let fb = b.map_values(f);
        assert(fa =~= a.drop_last().map_values(f).push(f(x)));
        assert(fb.remove(j) =~= b.remove(j).map_values(f));
        assert(fb[j] == f(x));
        assert(fb.remove(j).to_multiset() == fb.to_multiset().remove(f(x)));
        assert(fb.contains(f(x)));
        assert(fb.to_multiset().count(f(x)) > 0);
        assert(fa.to_multiset() =~= fb.to_multiset());
    }
}

/// The fingerprint does not depend on the order of the entries: two lists
/// with the same entries, in whatever order, have the same fingerprint.
pub proof fn ley_huella_sin_orden(a: Seq<Seq<char>>, b: Seq<Seq<char>>)
    requires
        a.to_multiset() == b.to_multiset(),
    ensures
        huella_de(a) == huella_de(b),
{
    let f = |e: Seq<char>| encode_utf8(e);
    lema_imagen_de_permutacion(a, b, f);
    let ba = a.map_values(f);
    let bb = b.map_values(f);
    lema_orden_total();
    ba.lemma_sort_by_ensures(orden_de_bytes());
    bb.lemma_sort_by_ensures(orden_de_bytes());
    vstd::seq_lib::lemma_sorted_unique(
        ba.sort_by(orden_de_bytes()),
        bb.sort_by(orden_de_bytes()),
        orden_de_bytes(),
    );
}

/// The bytes that the hash reads: each entry, then the separator `0xff`.
pub open spec fn flujo(es: Seq<Seq<u8>>) -> Seq<u8>
    decreases es.len(),
{
    if es.len() == 0 {
        seq![]
    } else {
        es[0] + seq![0xffu8] + flujo(es.drop_first())
    }
}

proof fn lema_fnv_concatena(h: u64, a: Seq<u8>, b: Seq<u8>)
    ensures
        fnv_bytes(h, a + b) == fnv_bytes(fnv_bytes(h, a), b),
    decreases a.len(),
{
    if a.len() == 0 {
        assert(a + b =~= b);
    } else {
        assert((a + b).drop_first() =~= a.drop_first() + b);
        assert((a + b)[0] == a[0]);
        lema_fnv_concatena(paso_fnv(h, a[0]), a.drop_first(), b);
    }
}

/// The hash of a list of entries is the hash of its stream of bytes: each
/// entry followed by the separator, one after the other.
pub proof fn ley_la_huella_lee_el_flujo(h: u64, es: Seq<Seq<u8>>)
    ensures
        fnv_entradas(h, es) == fnv_bytes(h, flujo(es)),
    decreases es.len(),
{
    if es.len() > 0 {
        let resto = es.drop_first();
        ley_la_huella_lee_el_flujo(paso_fnv(fnv_bytes(h, es[0]), 0xff), resto);
        lema_fnv_concatena(h, es[0] + seq![0xffu8], flujo(resto));
        lema_fnv_concatena(h, es[0], seq![0xffu8]);
        let tras_separador = fnv_bytes(fnv_bytes(h, es[0]), seq![0xffu8]);
        let g = fnv_bytes(h, es[0]);
        assert(seq![0xffu8].drop_first() =~= Seq::<u8>::empty());
        assert(fnv_bytes(paso_fnv(g, 0xff), Seq::<u8>::empty()) == paso_fnv(g, 0xff));
        assert(tras_separador == fnv_bytes(paso_fnv(g, seq![0xffu8][0]), seq![0xffu8].drop_first()));
        assert(tras_separador == paso_fnv(g, 0xff));
        assert(flujo(es) =~= (es[0] + seq![0xffu8]) + flujo(resto));
    } else {
        assert(flujo(es) =~= Seq::<u8>::empty());
    }
}

/// The fingerprint is the hash of the stream of the entries' UTF-8 bytes,
/// in the order of `str`.
pub proof fn ley_la_huella_es_la_del_flujo(entradas: Seq<Seq<char>>)
    ensures
        huella_de(entradas) == hexadecimal(
            fnv_bytes(
                BASE_FNV,
                flujo(entradas.map_values(|e: Seq<char>| encode_utf8(e)).sort_by(orden_de_bytes())),
            ) as nat,
            16,
        ),
{
    ley_la_huella_lee_el_flujo(
        BASE_FNV,
        entradas.map_values(|e: Seq<char>| encode_utf8(e)).sort_by(orden_de_bytes()),
    );
}

/// No byte of well-formed UTF-8 is `0xff`.
proof fn lema_utf8_sin_ff(bytes: Seq<u8>)
    requires
        valid_utf8(bytes),
    ensures
        forall|i: int| 0 <= i < bytes.len() ==> #[trigger] bytes[i] != 0xff,
    decreases bytes.len(),
{
    if bytes.len() > 0 {
        let l = length_of_first_scalar(bytes);
        let resto = pop_first_scalar(bytes);
        assert(1 <= l <= bytes.len());
        assert(resto.len() == bytes.len() - l);
        lema_utf8_sin_ff(resto);
        assert forall|i: int| 0 <= i < bytes.len() implies #[trigger] bytes[i] != 0xff by {
            if i >= l {
                assert(bytes[i] == resto[i - l]);
            }
        }
    }
}

/// Two entries, each closed by the separator, that start the same stream
/// are the same entry: neither holds the separator.
proof fn lema_separador(x: Seq<u8>, y: Seq<u8>, rx: Seq<u8>, ry: Seq<u8>)
    requires
        forall|i: int| 0 <= i < x.len() ==> #[trigger] x[i] != 0xff,
        forall|i: int| 0 <= i < y.len() ==> #[trigger] y[i] != 0xff,
        x + seq![0xffu8] + rx == y + seq![0xffu8] + ry,
    ensures
        x == y,
        rx == ry,
{
    let s = x + seq![0xffu8] + rx;
    let t = y + seq![0xffu8] + ry;
    if x.len() < y.len() {
        assert(s[x.len() as int] == 0xff);
        assert(t[x.len() as int] == y[x.len() as int]);
    } else if y.len() < x.len() {
        assert(t[y.len() as int] == 0xff);
        assert(s[y.len() as int] == x[y.len() as int]);
    }
    assert(x =~= s.subrange(0, x.len() as int));
    assert(y =~= t.subrange(0, y.len() as int));
    assert(rx =~= s.subrange(x.len() as int + 1, s.len() as int));
    assert(ry =~= t.subrange(y.len() as int + 1, t.len() as int));
}

proof fn lema_flujo_inyectivo(a: Seq<Seq<u8>>, b: Seq<Seq<u8>>)
    requires
        forall|k: int, i: int| 0 <= k < a.len() && 0 <= i < a[k].len() ==> #[trigger] a[k][i] != 0xff,
        forall|k: int, i: int| 0 <= k < b.len() && 0 <= i < b[k].len() ==> #[trigger] b[k][i] != 0xff,
        flujo(a) == flujo(b),
    ensures
        a == b,
    decreases a.len(),
{
    if a.len() == 0 && b.len() == 0 {
        assert(a =~= b);
    } else if a.len() == 0 {
        assert(flujo(b).len() > 0);
    } else if b.len() == 0 {
        assert(flujo(a).len() > 0);
    } else {
        assert forall|i: int| 0 <= i < a[0].len() implies #[trigger] a[0][i] != 0xff by {
            assert(a[0][i] != 0xff);
        }
        assert forall|i: int| 0 <= i < b[0].len() implies #[trigger] b[0][i] != 0xff by {
            assert(b[0][i] != 0xff);
        }
        lema_separador(a[0], b[0], flujo(a.drop_first()), flujo(b.drop_first()));
        assert forall|k: int, i: int|
            0 <= k < a.drop_first().len() && 0 <= i < a.drop_first()[k].len() implies #[trigger] a.drop_first()[k][i]
            != 0xff by {
            assert(a.drop_first()[k] == a[k + 1]);
        }
        assert forall|k: int, i: int|
            0 <= k < b.drop_first().len() && 0 <= i < b.drop_first()[k].len() implies #[trigger] b.drop_first()[k][i]
            != 0xff by {
            assert(b.drop_first()[k] == b[k + 1]);
        }
        lema_flujo_inyectivo(a.drop_first(), b.drop_first());
        assert(a =~= seq![a[0]] + a.drop_first());
        assert(b =~= seq![b[0]] + b.drop_first());
    }
}

/// The separator keeps entries apart: two lists of entries whose UTF-8
/// bytes, each closed by the separator, make the same stream are the same
/// list. So `["ab", "c"]` and `["a", "bc"]` give the hash different bytes.
pub proof fn ley_el_separador_delimita(a: Seq<Seq<char>>, b: Seq<Seq<char>>)
    requires
        flujo(a.map_values(|e: Seq<char>| encode_utf8(e))) == flujo(
            b.map_values(|e: Seq<char>| encode_utf8(e)),
        ),
    ensures
        a == b,
{
    let f = |e: Seq<char>| encode_utf8(e);
    let ba = a.map_values(f);
    let bb = b.map_values(f);
    assert forall|k: int, i: int| 0 <= k < ba.len() && 0 <= i < ba[k].len() implies #[trigger] ba[k][i]
        != 0xff by {
        encode_utf8_valid_utf8(a[k]);
        lema_utf8_sin_ff(ba[k]);
    }
    assert forall|k: int, i: int| 0 <= k < bb.len() && 0 <= i < bb[k].len() implies #[trigger] bb[k][i]
        != 0xff by {
        encode_utf8_valid_utf8(b[k]);
        lema_utf8_sin_ff(bb[k]);
    }
    lema_flujo_inyectivo(ba, bb);
    assert forall|k: int| 0 <= k < a.len() implies #[trigger] a[k] == b[k] by {
        assert(ba[k] == bb[k]);
        encode_utf8_decode_utf8(a[k]);
        encode_utf8_decode_utf8(b[k]);
    }
    assert(a =~= b);
}

} // verus!
