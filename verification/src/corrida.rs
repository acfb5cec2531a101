//! The steps of a timer run.
//!
//! The run alternates questions to the system and decisions. The decisions
//! are here, as a function from what the run knows so far to what to do
//! next; the program asks the system what each step needs and comes back.
//!
//! Most runs find nothing pending and end before reading anything else.
//! The expensive question, which packages are kernels, is asked **only**
//! when it can change the decision: when the set of updates is the same as
//! the one last notified. A notice is shown, then written down, and only
//! then is its button waited for.

use vstd::prelude::*;
use crate::analisis::{
    actualizaciones, cambio_de_linea, cambios, cambios_de_lineas, campo_limpio, textos,
    Actualizacion, Cambio,
};
use crate::aviso::{
    decidir, decision, fnv_entradas, huella, huella_de, orden_de_bytes, Recuerdo, BASE_FNV,
};
use crate::sistema::{cuando_leido, huella_leida, ley_lo_escrito_se_lee, texto_escrito};
use crate::texto::{
    agregar, caracteres, decimal, decimal_exec, digito_hex, es_blanco, es_escape, hexadecimal,
    lema_lineas_primera, lema_palabras_primera, lema_palabras_ultima, lema_sin_escapes_nada, lineas,
    mismos, palabras, recortar, sin_blancos_al_final, sin_cr, sin_escapes, texto_de,
};
use vstd::utf8::encode_utf8;

verus! {

/// How one update is written, for the fingerprint and for a terminal:
/// `name old -> new`.
pub open spec fn linea_de(c: Cambio) -> Seq<char> {
    c.nombre + seq![' '] + c.vieja + seq![' ', '-', '>', ' '] + c.nueva
}

/// The lines of a list of updates.
pub open spec fn lineas_de_cambios(cs: Seq<Cambio>) -> Seq<Seq<char>> {
    cs.map_values(|c: Cambio| linea_de(c))
}

/// How one update is written: `name old -> new`.
pub fn linea_de_actualizacion(a: &Actualizacion) -> (r: String)
    ensures
        r@ == linea_de(a@),
{
    let mut r = String::new();
    agregar(&mut r, caracteres(a.nombre.as_str()).as_slice());
    agregar(&mut r, vec![' '].as_slice());
    agregar(&mut r, caracteres(a.version_vieja.as_str()).as_slice());
    agregar(&mut r, vec![' ', '-', '>', ' '].as_slice());
    agregar(&mut r, caracteres(a.version_nueva.as_str()).as_slice());
    r
}

/// The lines of a list of updates, one per update and in its order.
pub fn lineas_de(pendientes: &[Actualizacion]) -> (r: Vec<String>)
    ensures
        textos(r@) == lineas_de_cambios(cambios(pendientes@)),
{
    let mut r: Vec<String> = Vec::new();
    let n = pendientes.len();
    for i in 0..n
        invariant
            n == pendientes@.len(),
            textos(r@) == lineas_de_cambios(cambios(pendientes@.take(i as int))),
    {
        let ghost antes = r@;
        let linea = linea_de_actualizacion(&pendientes[i]);
        r.push(linea);
        assert(textos(r@) =~= textos(antes).push(linea@));
        assert(cambios(pendientes@.take(i + 1)) =~= cambios(pendientes@.take(i as int)).push(
            pendientes@[i as int]@,
        ));
        assert(textos(r@) =~= lineas_de_cambios(cambios(pendientes@.take(i + 1))));
    }
    assert(pendientes@.take(n as int) =~= pendientes@);
    r
}

/// The title of the notice for `cuantas` updates.
pub open spec fn titulo(cuantas: nat) -> Seq<char> {
    if cuantas == 1 {
        "Hay 1 actualización"@
    } else {
        "Hay "@ + decimal(cuantas) + " actualizaciones"@
    }
}

/// The body of the notice.
pub open spec fn cuerpo() -> Seq<char> {
    "Mirá qué cambia antes de aplicarlas."@
}

/// The label of the notice's button.
pub open spec fn boton() -> Seq<char> {
    "Ver"@
}

pub fn titulo_del_aviso(cuantas: usize) -> (r: String)
    ensures
        r@ == titulo(cuantas as nat),
{
    if cuantas == 1 {
        let mut r = String::new();
        agregar(&mut r, caracteres("Hay 1 actualización").as_slice());
        r
    } else {
        let mut r = String::new();
        agregar(&mut r, caracteres("Hay ").as_slice());
        agregar(&mut r, decimal_exec(cuantas as u64).as_slice());
        agregar(&mut r, caracteres(" actualizaciones").as_slice());
        r
    }
}

/// A notice to show.
pub struct Aviso {
    pub titulo: String,
    pub cuerpo: String,
    pub boton: String,
}

/// What a timer run knows so far.
pub struct Corrida {
    /// The pending updates.
    pub pendientes: Vec<Actualizacion>,
    /// What was remembered of the last notice, and the time, once read.
    pub memoria: Option<(Recuerdo, u64)>,
    /// The kernels among the updates, once asked for.
    pub kernels: Option<Vec<String>>,
    /// Whether the notice was shown.
    pub mostrado: bool,
    /// Whether the notice was written down.
    pub anotado: bool,
}

impl Corrida {
    /// A run that only knows the pending updates.
    pub fn nueva(pendientes: Vec<Actualizacion>) -> (r: Corrida)
        ensures
            r.pendientes == pendientes,
            r.memoria is None,
            r.kernels is None,
            !r.mostrado,
            !r.anotado,
    {
        Corrida { pendientes, memoria: None, kernels: None, mostrado: false, anotado: false }
    }
}

/// What the run does next.
pub enum Paso {
    /// Nothing more: there is nothing to notify, or it was notified.
    Terminar,
    /// Read what was remembered of the last notice, and the clock.
    LeerRecuerdo,
    /// Ask which of the pending packages are kernels.
    ConsultarKernels,
    /// Show this notice.
    MostrarAviso(Aviso),
    /// Write this down as the last notice.
    Anotar(Recuerdo),
    /// Wait for the notice's button, and end.
    EsperarBoton,
}

/// The fingerprint of the run's pending updates.
pub open spec fn huella_de_la_corrida(c: Corrida) -> Seq<char> {
    huella_de(lineas_de_cambios(cambios(c.pendientes@)))
}

/// The fingerprint remembered from the last notice, once read.
pub open spec fn huella_recordada(c: Corrida) -> Seq<char> {
    match c.memoria {
        Some((r, _)) => r.huella@,
        None => seq![],
    }
}

/// Whether the kernels asked for include some.
pub open spec fn cambia_el_kernel(c: Corrida) -> bool {
    c.kernels matches Some(k) && k@.len() > 0
}

/// The step that follows from what the run knows.
///
/// With no pending updates the run ends before anything else is read.
/// The kernels are asked for only when the set is the one last notified:
/// when it is not, the notice goes out anyway. A notice is shown, then
/// written down, and only then is its button waited for: if the process
/// dies while it waits, the notice is out already and is remembered.
pub open spec fn paso_siguiente(c: Corrida, p: Paso) -> bool {
    let pendientes = cambios(c.pendientes@);
    let h = huella_de_la_corrida(c);
    if pendientes.len() == 0 {
        p is Terminar
    } else {
        match c.memoria {
            None => p is LeerRecuerdo,
            Some((recuerdo, ahora)) => {
                if c.kernels is None && h == recuerdo.huella@ {
                    p is ConsultarKernels
                } else if !decision(
                    pendientes.len(),
                    cambia_el_kernel(c),
                    h,
                    recuerdo,
                    ahora,
                ).muestra_aviso() {
                    p is Terminar
                } else if !c.mostrado {
                    p matches Paso::MostrarAviso(a) && {
                        &&& a.titulo@ == titulo(pendientes.len())
                        &&& a.cuerpo@ == cuerpo()
                        &&& a.boton@ == boton()
                    }
                } else if !c.anotado {
                    p matches Paso::Anotar(r) && r.huella@ == h && r.cuando == ahora
                } else {
                    p is EsperarBoton
                }
            },
        }
    }
}

/// The next step of a timer run.
pub fn siguiente_paso(c: &Corrida) -> (p: Paso)
    ensures
        paso_siguiente(*c, p),
{
    let pendientes = c.pendientes.as_slice();
    if pendientes.len() == 0 {
        return Paso::Terminar;
    }
    let (recuerdo, ahora) = match &c.memoria {
        None => {
            return Paso::LeerRecuerdo;
        },
        Some((r, t)) => (r, *t),
    };
    let lineas = lineas_de(pendientes);
    let h = huella(lineas.as_slice());
    let cambia = match &c.kernels {
        None => {
            let actual = caracteres(h.as_str());
            let recordada = caracteres(recuerdo.huella.as_str());
            if mismos(actual.as_slice(), recordada.as_slice()) {
                return Paso::ConsultarKernels;
            }
            false
        },
        Some(k) => k.len() > 0,
    };
    let d = decidir(pendientes.len(), cambia, h.as_str(), recuerdo, ahora);
    if !d.avisa() {
        return Paso::Terminar;
    }
    if !c.mostrado {
        return Paso::MostrarAviso(
            Aviso {
                titulo: titulo_del_aviso(pendientes.len()),
                cuerpo: texto_de(caracteres("Mirá qué cambia antes de aplicarlas.").as_slice()),
                boton: texto_de(caracteres("Ver").as_slice()),
            },
        );
    }
    if !c.anotado {
        return Paso::Anotar(Recuerdo { huella: h, cuando: ahora });
    }
    Paso::EsperarBoton
}

// ---------------------------------------------------------------------------
// Laws
// ---------------------------------------------------------------------------

proof fn lema_hexadecimal_legible(h: nat, n: nat)
    ensures
        forall|i: int|
            0 <= i < hexadecimal(h, n).len() ==> {
                let c = #[trigger] hexadecimal(h, n)[i];
                ('0' <= c && c <= '9') || ('a' <= c && c <= 'f')
            },
        hexadecimal(h, n).len() == n,
    decreases n,
{
    if n > 0 {
        lema_hexadecimal_legible(h / 16, (n - 1) as nat);
        let d = h % 16;
        assert(digito_hex(d) as int == (if d < 10 { d + 48 } else { d + 87 }));
    }
}

/// A fingerprint survives the state file: it has no line break and
/// nothing to trim.
pub proof fn ley_la_huella_se_guarda_entera(entradas: Seq<Seq<char>>)
    ensures
        forall|i: int| 0 <= i < huella_de(entradas).len() ==> #[trigger] huella_de(entradas)[i] != '\n',
        recortar(huella_de(entradas)) == huella_de(entradas),
{
    let h = huella_de(entradas);
    let x = fnv_entradas(BASE_FNV, entradas.map_values(|e: Seq<char>| encode_utf8(e)).sort_by(orden_de_bytes()));
    lema_hexadecimal_legible(x as nat, 16);
    assert(h == hexadecimal(x as nat, 16));
    assert(!es_blanco(h.last()));
    assert(sin_blancos_al_final(h) == h);
    assert(!es_blanco(h[0]));
}

/// With no pending updates the run ends at once: neither the state file
/// nor the clock is read, and no kernel is asked for.
pub proof fn ley_sin_pendientes_no_se_lee_nada(c: Corrida, p: Paso)
    requires
        c.pendientes@.len() == 0,
        paso_siguiente(c, p),
    ensures
        p is Terminar,
{
}

/// The state file and the clock are read only when there are updates, and
/// only once.
pub proof fn ley_se_lee_solo_si_hay_pendientes(c: Corrida)
    ensures
        paso_siguiente(c, Paso::LeerRecuerdo) <==> (c.pendientes@.len() > 0 && c.memoria is None),
{
}

/// The kernels are asked for only when they can change the decision: when
/// there are updates and their set is the one last notified.
pub proof fn ley_kernels_solo_si_cuentan(c: Corrida)
    ensures
        paso_siguiente(c, Paso::ConsultarKernels) <==> {
            &&& c.pendientes@.len() > 0
            &&& c.kernels is None
            &&& c.memoria is Some
            &&& huella_de_la_corrida(c) == huella_recordada(c)
        },
{
}

/// A kernel among the updates brings the notice out, even when the set is
/// the one already notified.
pub proof fn ley_el_kernel_insiste(c: Corrida, p: Paso)
    requires
        c.pendientes@.len() > 0,
        c.memoria is Some,
        cambia_el_kernel(c),
        !c.mostrado,
        paso_siguiente(c, p),
    ensures
        p is MostrarAviso,
{
}

/// A notice is shown, then written down, and only then is its button
/// waited for; nothing else comes between.
pub proof fn ley_se_anota_antes_de_esperar(c: Corrida, a: Aviso, q1: Paso, q2: Paso)
    requires
        !c.anotado,
        paso_siguiente(c, Paso::MostrarAviso(a)),
        paso_siguiente(Corrida { mostrado: true, ..c }, q1),
        paso_siguiente(Corrida { mostrado: true, anotado: true, ..c }, q2),
    ensures
        !c.mostrado,
        q1 is Anotar,
        q2 is EsperarBoton,
{
}

/// Waiting for the button comes only after the notice was shown and
/// written down, and writing it down only after it was shown.
pub proof fn ley_el_orden_del_aviso(c: Corrida, p: Paso)
    requires
        paso_siguiente(c, p),
    ensures
        p is EsperarBoton ==> c.mostrado && c.anotado,
        p is Anotar ==> c.mostrado && !c.anotado,
        p is MostrarAviso ==> !c.mostrado,
{
}

/// What was notified is not notified again: once a notice for a set of
/// updates was written down, a later run within a week that reads it back
/// and finds the same set asks only whether a kernel changes, and, when
/// none does, keeps quiet.
pub proof fn ley_lo_avisado_no_se_repite(
    antes: Corrida,
    anotado: Recuerdo,
    despues: Corrida,
    leido: Recuerdo,
    ahora: u64,
    q: Paso,
)
    requires
        paso_siguiente(antes, Paso::Anotar(anotado)),
        cambios(despues.pendientes@) == cambios(antes.pendientes@),
        leido.huella@ == huella_leida(texto_escrito(anotado.huella@, anotado.cuando)),
        leido.cuando == cuando_leido(texto_escrito(anotado.huella@, anotado.cuando)),
        despues.memoria == Some((leido, ahora)),
        anotado.cuando <= ahora,
        ahora - anotado.cuando < 604_800,
        paso_siguiente(despues, q),
    ensures
        despues.kernels is None ==> q is ConsultarKernels,
        (despues.kernels matches Some(k) && k@.len() == 0) ==> q is Terminar,
{
    let h = huella_de_la_corrida(antes);
    ley_la_huella_se_guarda_entera(lineas_de_cambios(cambios(antes.pendientes@)));
    ley_lo_escrito_se_lee(h, anotado.cuando);
}

/// The first time, the notice goes out: with nothing remembered, any set
/// of updates is news, since a fingerprint is never empty.
pub proof fn ley_la_primera_vez_se_avisa(c: Corrida, r: Recuerdo, ahora: u64, p: Paso)
    requires
        c.pendientes@.len() > 0,
        c.memoria == Some((r, ahora)),
        r.huella@.len() == 0,
        !c.mostrado,
        paso_siguiente(c, p),
    ensures
        p is MostrarAviso,
{
    let es = lineas_de_cambios(cambios(c.pendientes@));
    let x = fnv_entradas(BASE_FNV, es.map_values(|e: Seq<char>| encode_utf8(e)).sort_by(orden_de_bytes()));
    lema_hexadecimal_legible(x as nat, 16);
    assert(huella_de(es).len() == 16);
}

/// A list of updates as `--list` prints it: one line per update, each one
/// closed by a line break.
pub open spec fn listado(cs: Seq<Cambio>) -> Seq<char>
    decreases cs.len(),
{
    if cs.len() == 0 {
        seq![]
    } else {
        linea_de(cs[0]) + seq!['\n'] + listado(cs.drop_first())
    }
}

/// Every field of the update is clean.
pub open spec fn cambio_limpio(c: Cambio) -> bool {
    campo_limpio(c.nombre) && campo_limpio(c.vieja) && campo_limpio(c.nueva)
}

proof fn lema_linea_se_lee(c: Cambio)
    requires
        cambio_limpio(c),
    ensures
        cambio_de_linea(linea_de(c)) == Some(c),
        forall|i: int| 0 <= i < linea_de(c).len() ==> #[trigger] linea_de(c)[i] != '\n',
        !es_blanco(linea_de(c).last()),
{
    let n = c.nombre;
    let v = c.vieja;
    let w = c.nueva;
    let flecha = seq!['-', '>'];
    let l = linea_de(c);
    let r2 = flecha + seq![' '] + w;
    let r1 = v + seq![' '] + r2;
    assert(l =~= n + seq![' '] + r1);
    assert forall|i: int| 0 <= i < l.len() implies !es_escape(#[trigger] l[i]) && !es_blanco(l[i])
        || l[i] == ' ' by {
        if i < n.len() {
            assert(l[i] == n[i]);
        } else if i == n.len() {
        } else if i < n.len() + 1 + v.len() {
            assert(l[i] == v[i - n.len() - 1]);
        } else if i < n.len() + 1 + v.len() + 4 {
        } else {
            assert(l[i] == w[i - n.len() - 1 - v.len() - 4]);
        }
    }
    assert forall|i: int| 0 <= i < l.len() implies !es_escape(#[trigger] l[i]) by {
        assert(!es_escape(l[i]) && !es_blanco(l[i]) || l[i] == ' ');
    }
    assert forall|i: int| 0 <= i < l.len() implies #[trigger] l[i] != '\n' by {
        assert(!es_escape(l[i]) && !es_blanco(l[i]) || l[i] == ' ');
    }
    assert(l.last() == w.last());
    lema_sin_escapes_nada(l);
    lema_palabras_primera(seq![], n, ' ', r1);
    lema_palabras_primera(seq![], v, ' ', r2);
    lema_palabras_primera(seq![], flecha, ' ', w);
    lema_palabras_ultima(seq![], w);
    assert(Seq::<char>::empty() + n =~= n);
    assert(Seq::<char>::empty() + v =~= v);
    assert(Seq::<char>::empty() + flecha =~= flecha);
    assert(Seq::<char>::empty() + w =~= w);
    let p = palabras(sin_escapes(l));
    assert(p =~= seq![n, v, flecha, w]);
}

proof fn lema_lineas_del_listado(cs: Seq<Cambio>)
    requires
        forall|k: int| 0 <= k < cs.len() ==> cambio_limpio(#[trigger] cs[k]),
    ensures
        lineas(listado(cs)) == lineas_de_cambios(cs),
    decreases cs.len(),
{
    if cs.len() > 0 {
        let x = linea_de(cs[0]);
        lema_linea_se_lee(cs[0]);
        assert forall|k: int| 0 <= k < cs.drop_first().len() implies cambio_limpio(
            #[trigger] cs.drop_first()[k],
        ) by {
            assert(cs.drop_first()[k] == cs[k + 1]);
        }
        lema_lineas_del_listado(cs.drop_first());
        lema_lineas_primera(seq![], x, listado(cs.drop_first()));
        assert(Seq::<char>::empty() + x =~= x);
        assert(x.last() != '\r');
        assert(sin_cr(x) == x);
        assert(lineas_de_cambios(cs) =~= seq![x] + lineas_de_cambios(cs.drop_first()));
    }
}

proof fn lema_cambios_de_lineas_leidas(ls: Seq<Seq<char>>, cs: Seq<Cambio>)
    requires
        ls.len() == cs.len(),
        forall|k: int| 0 <= k < ls.len() ==> cambio_de_linea(#[trigger] ls[k]) == Some(cs[k]),
    ensures
        cambios_de_lineas(ls) == cs,
    decreases ls.len(),
{
    if ls.len() > 0 {
        let k = ls.len() - 1;
        assert(cambio_de_linea(ls[k]) == Some(cs[k]));
        lema_cambios_de_lineas_leidas(ls.drop_last(), cs.drop_last());
        assert(cs =~= cs.drop_last().push(cs[k]));
    } else {
        assert(cs =~= Seq::<Cambio>::empty());
    }
}

/// What is listed is read back: updates whose fields are not empty and
/// hold no blank and no escape character, printed one per line as
/// `name old -> new`, are read back from that text as the same updates, in
/// the same order.
pub proof fn ley_lo_listado_se_vuelve_a_leer(cs: Seq<Cambio>)
    requires
        forall|k: int| 0 <= k < cs.len() ==> cambio_limpio(#[trigger] cs[k]),
    ensures
        actualizaciones(listado(cs)) == cs,
{
    lema_lineas_del_listado(cs);
    let ls = lineas_de_cambios(cs);
    assert forall|k: int| 0 <= k < ls.len() implies cambio_de_linea(#[trigger] ls[k]) == Some(cs[k]) by {
        lema_linea_se_lee(cs[k]);
    }
    lema_cambios_de_lineas_leidas(ls, cs);
}

} // verus!
