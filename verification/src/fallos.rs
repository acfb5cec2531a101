//! Why the check could not be made, and what to do about it.
//!
//! `checkupdates` exits with 2 when there are no updates and with 1 when it
//! could not find out; in both cases its standard output is empty. What it
//! printed is then read here to tell the failures seen in practice apart.
//! What is not recognised **is not disguised**: it is said that the check
//! could not be made, with what pacman said.

use vstd::prelude::*;
use crate::texto::{
    aparece_en, aparece_en_exec, caracteres, contiene, contiene_exec, empieza_con, empieza_con_exec, lineas, lineas_exec,
    minusculas, minusculas_exec, recortar, recortar_exec, tramo, texto_de, vistas,
};

verus! {

/// Why it could not be checked whether there are updates.
#[derive(Debug, Clone, PartialEq, Eq)]
pub enum Fallo {
    /// No network. The most common case, and the only one that mends itself.
    SinRed,
    /// A signing key unknown or expired.
    Firma,
    /// A mirror that answers but lacks something, or a local database left
    /// half synchronised.
    Espejo,
    /// The lock of an earlier run of pacman was left behind.
    Candado,
    /// No room to download the package database.
    SinEspacio,
    /// Something not recognised, with the text as it came.
    Desconocido(String),
}

impl Fallo {
    /// Whether someone has to do something: all but a missing network.
    pub open spec fn necesita_accion(&self) -> bool {
        !(self is SinRed)
    }

    /// Whether someone has to do something. A network outage mends itself
    /// and does not deserve a notice; an expired key does.
    pub fn pide_accion(&self) -> (r: bool)
        ensures
            r == self.necesita_accion(),
    {
        !matches!(self, Fallo::SinRed)
    }

    /// What to tell someone who does not open a terminal.
    pub fn explicacion(&self) -> (r: &'static str)
        ensures
            match self {
                Fallo::SinRed => r@ == "No se pudo comprobar porque no hay conexión."@,
                Fallo::Firma => r@
                    == "Se venció una clave de firma. Hasta arreglarlo, el equipo no se entera de ninguna actualización."@,
                Fallo::Espejo => r@
                    == "El servidor de paquetes contestó a medias. Suele ser pasajero; si sigue, conviene rehacer la lista de servidores."@,
                Fallo::Candado => r@
                    == "Quedó una actualización a medio empezar. Hay que comprobar que no haya ninguna en curso antes de seguir."@,
                Fallo::SinEspacio => r@ == "No hay espacio para bajar la lista de paquetes."@,
                Fallo::Desconocido(_) => r@ == "No se pudo comprobar si hay actualizaciones."@,
            },
    {
        match self {
            Fallo::SinRed => "No se pudo comprobar porque no hay conexión.",
            Fallo::Firma => "Se venció una clave de firma. Hasta arreglarlo, el equipo no se entera de ninguna actualización.",
            Fallo::Espejo => "El servidor de paquetes contestó a medias. Suele ser pasajero; si sigue, conviene rehacer la lista de servidores.",
            Fallo::Candado => "Quedó una actualización a medio empezar. Hay que comprobar que no haya ninguna en curso antes de seguir.",
            Fallo::SinEspacio => "No hay espacio para bajar la lista de paquetes.",
            Fallo::Desconocido(_) => "No se pudo comprobar si hay actualizaciones.",
        }
    }

    /// The command that fixes it, if there is one. It is shown and never
    /// run: all of them need privileges, and the one for the lock must not
    /// run while a real update is in progress.
    pub fn arreglo(&self) -> (r: Option<&'static str>)
        ensures
            match self {
                Fallo::Firma => r matches Some(c) && c@
                    == "sudo pacman -Sy archlinux-keyring vasakos-keyring"@,
                Fallo::Espejo => r matches Some(c) && c@ == "sudo pacman -Syy"@,
                Fallo::Candado => r matches Some(c) && c@ == "sudo rm /var/lib/pacman/db.lck"@,
                _ => r is None,
            },
    {
        match self {
            Fallo::SinRed => None,
            Fallo::Firma => Some("sudo pacman -Sy archlinux-keyring vasakos-keyring"),
            Fallo::Espejo => Some("sudo pacman -Syy"),
            Fallo::Candado => Some("sudo rm /var/lib/pacman/db.lck"),
            Fallo::SinEspacio => None,
            Fallo::Desconocido(_) => None,
        }
    }
}

/// What a host without a network prints. `t` is in lower case.
pub open spec fn es_sin_red(t: Seq<char>) -> bool {
    ||| contiene(t, "could not resolve host"@)
    ||| contiene(t, "temporary failure in name resolution"@)
    ||| contiene(t, "network is unreachable"@)
    ||| contiene(t, "no address record"@)
    ||| contiene(t, "resolving timed out"@)
    ||| contiene(t, "couldn't connect to server"@)
}

/// What a bad signing key makes pacman print. `t` is in lower case.
pub open spec fn es_de_firma(t: Seq<char>) -> bool {
    ||| contiene(t, "unknown trust"@)
    ||| contiene(t, "signature from"@)
    ||| contiene(t, "invalid or corrupted package (pgp"@)
    ||| clave_desconocida(t)
    ||| contiene(t, "marginal trust"@)
    ||| contiene(t, "keyring"@)
}

/// `key` at `i` and, further on the same line, `is unknown` at `j`.
pub open spec fn clave_y_desconocida(t: Seq<char>, i: int, j: int) -> bool {
    &&& aparece_en(t, "key"@, i)
    &&& i + "key"@.len() <= j
    &&& aparece_en(t, "is unknown"@, j)
    &&& forall|x: int| i + "key"@.len() <= x < j ==> #[trigger] t[x] != '\n'
}

/// A line that says `key`, and later `is unknown`: what pacman prints for
/// a signing key it does not know. `t` is in lower case.
pub open spec fn clave_desconocida(t: Seq<char>) -> bool {
    exists|i: int, j: int| clave_y_desconocida(t, i, j)
}

fn clave_desconocida_exec(t: &[char]) -> (r: bool)
    ensures
        r == clave_desconocida(t@),
{
    let clave = caracteres("key");
    let desconocida = caracteres("is unknown");
    let n = t.len();
    for i in 0..n
        invariant
            n == t@.len(),
            clave@ == "key"@,
            desconocida@ == "is unknown"@,
            forall|a: int, b: int| 0 <= a < i ==> !#[trigger] clave_y_desconocida(t@, a, b),
    {
        if aparece_en_exec(t, clave.as_slice(), i) {
            let mut j = i + clave.len();
            loop
                invariant_except_break
                    n == t@.len(),
                    clave@ == "key"@,
                    desconocida@ == "is unknown"@,
                    aparece_en(t@, clave@, i as int),
                    i + clave@.len() <= j <= n,
                    forall|x: int| i + clave@.len() <= x < j ==> #[trigger] t@[x] != '\n',
                    forall|b: int| i + clave@.len() <= b < j ==> !aparece_en(t@, desconocida@, b),
                ensures
                    forall|b: int| !#[trigger] clave_y_desconocida(t@, i as int, b),
                decreases n - j,
            {
                if aparece_en_exec(t, desconocida.as_slice(), j) {
                    assert(clave_y_desconocida(t@, i as int, j as int));
                    return true;
                }
                if j == n || t[j] == '\n' {
                    assert forall|b: int| !#[trigger] clave_y_desconocida(t@, i as int, b) by {
                        if clave_y_desconocida(t@, i as int, b) {
                            if b > j {
                                assert(t@[j as int] != '\n');
                                assert(aparece_en(t@, desconocida@, b));
                            }
                        }
                    }
                    break;
                }
                j += 1;
            }
        }
    }
    proof {
        reveal_strlit("key");
        assert forall|a: int, b: int| !clave_y_desconocida(t@, a, b) by {
            if 0 <= a < n {
                assert(!clave_y_desconocida(t@, a, b));
            }
        }
    }
    false
}

/// What a lock left behind makes pacman print. `t` is in lower case.
pub open spec fn es_del_candado(t: Seq<char>) -> bool {
    contiene(t, "unable to lock database"@) || contiene(t, "db.lck"@)
}

/// What a full disk makes pacman print. `t` is in lower case.
pub open spec fn es_sin_espacio(t: Seq<char>) -> bool {
    contiene(t, "not enough free disk space"@) || contiene(t, "no space left on device"@)
}

/// What a mirror that answers badly makes pacman print. `t` is in lower
/// case.
pub open spec fn es_del_espejo(t: Seq<char>) -> bool {
    ||| contiene(t, "failed retrieving file"@)
    ||| contiene(t, "failed to update"@)
    ||| contiene(t, "cannot fetch updates"@)
    ||| contiene(t, "404"@)
    ||| contiene(t, "the requested url returned error"@)
}

/// The trimmed lines that say something, in their order.
pub open spec fn no_vacias(ls: Seq<Seq<char>>) -> Seq<Seq<char>>
    decreases ls.len(),
{
    if ls.len() == 0 {
        seq![]
    } else {
        let previas = no_vacias(ls.drop_last());
        let t = recortar(ls.last());
        if t.len() > 0 {
            previas.push(t)
        } else {
            previas
        }
    }
}

/// The first line that starts with `error:`, if any.
pub open spec fn primera_de_error(ls: Seq<Seq<char>>) -> Option<Seq<char>>
    decreases ls.len(),
{
    if ls.len() == 0 {
        None
    } else if empieza_con(ls[0], "error:"@) {
        Some(ls[0])
    } else {
        primera_de_error(ls.drop_first())
    }
}

/// At most the first 200 characters.
pub open spec fn acotar(l: Seq<char>) -> Seq<char> {
    if l.len() <= 200 {
        l
    } else {
        l.take(200)
    }
}

/// The line that explains an unrecognised failure: the first one that
/// starts with `error:`, or else the last one that says something, cut to
/// 200 characters; empty when no line says anything.
pub open spec fn linea_util(texto: Seq<char>) -> Seq<char> {
    let ls = no_vacias(lineas(texto));
    match primera_de_error(ls) {
        Some(l) => acotar(l),
        None => if ls.len() > 0 {
            acotar(ls.last())
        } else {
            seq![]
        },
    }
}

/// How `texto` is classified: the first kind of failure, in this order,
/// whose marks it carries, whatever the case of its letters.
pub open spec fn clasifica_como(texto: Seq<char>, f: Fallo) -> bool {
    let t = minusculas(texto);
    if es_sin_red(t) {
        f is SinRed
    } else if es_de_firma(t) {
        f is Firma
    } else if es_del_candado(t) {
        f is Candado
    } else if es_sin_espacio(t) {
        f is SinEspacio
    } else if es_del_espejo(t) {
        f is Espejo
    } else {
        f matches Fallo::Desconocido(d) && d@ == linea_util(texto)
    }
}

fn contiene_lit(t: &[char], aguja: &str) -> (r: bool)
    ensures
        r == contiene(t@, aguja@),
{
    let a = caracteres(aguja);
    contiene_exec(t, a.as_slice())
}

/// What went wrong, from what pacman printed.
///
/// The order matters: a host without a network **also** reports «failed
/// retrieving file», so the mirror is looked for after the network.
pub fn clasificar(texto: &str) -> (r: Fallo)
    ensures
        clasifica_como(texto@, r),
{
    let crudo = caracteres(texto);
    let v = minusculas_exec(crudo.as_slice());
    let t = v.as_slice();
    if contiene_lit(t, "could not resolve host") || contiene_lit(t, "temporary failure in name resolution")
        || contiene_lit(t, "network is unreachable") || contiene_lit(t, "no address record")
        || contiene_lit(t, "resolving timed out") || contiene_lit(t, "couldn't connect to server") {
        return Fallo::SinRed;
    }
    if contiene_lit(t, "unknown trust") || contiene_lit(t, "signature from") || contiene_lit(
        t,
        "invalid or corrupted package (pgp",
    ) || clave_desconocida_exec(t) || contiene_lit(t, "marginal trust") || contiene_lit(
        t,
        "keyring",
    ) {
        return Fallo::Firma;
    }
    if contiene_lit(t, "unable to lock database") || contiene_lit(t, "db.lck") {
        return Fallo::Candado;
    }
    if contiene_lit(t, "not enough free disk space") || contiene_lit(t, "no space left on device") {
        return Fallo::SinEspacio;
    }
    if contiene_lit(t, "failed retrieving file") || contiene_lit(t, "failed to update")
        || contiene_lit(t, "cannot fetch updates") || contiene_lit(t, "404") || contiene_lit(
        t,
        "the requested url returned error",
    ) {
        return Fallo::Espejo;
    }
    Fallo::Desconocido(primera_linea_util(crudo.as_slice()))
}

fn acotar_exec(l: &[char]) -> (r: String)
    ensures
        r@ == acotar(l@),
{
    if l.len() <= 200 {
        texto_de(l)
    } else {
        let c = tramo(l, 0, 200);
        assert(l@.subrange(0, 200) =~= l@.take(200));
        texto_de(c.as_slice())
    }
}

/// The first line that says something, for the unknown case: pacman
/// prints warnings before the real error, so the one that starts with
/// `error:` is preferred.
fn primera_linea_util(texto: &[char]) -> (r: String)
    ensures
        r@ == linea_util(texto@),
{
    let ls = lineas_exec(texto);
    let ghost vls = vistas(ls@);
    let mut utiles: Vec<Vec<char>> = Vec::new();
    let n = ls.len();
    for i in 0..n
        invariant
            n == ls@.len(),
            vls == vistas(ls@),
            vls == lineas(texto@),
            vistas(utiles@) == no_vacias(vls.take(i as int)),
    {
        let ghost antes = utiles@;
        assert(vls.take(i + 1).drop_last() =~= vls.take(i as int));
        assert(vls.take(i + 1).last() == ls@[i as int]@);
        let t = recortar_exec(ls[i].as_slice());
        if t.len() > 0 {
            utiles.push(t);
            assert(vistas(utiles@) =~= vistas(antes).push(utiles@[antes.len() as int]@));
        }
    }
    assert(vls.take(n as int) =~= vls);
    let ghost u = vistas(utiles@);
    let error = caracteres("error:");
    let m = utiles.len();
    assert(u.skip(0) =~= u);
    for j in 0..m
        invariant
            m == utiles@.len(),
            u == vistas(utiles@),
            u == no_vacias(lineas(texto@)),
            error@ == "error:"@,
            primera_de_error(u) == primera_de_error(u.skip(j as int)),
    {
        assert(u.skip(j as int)[0] == utiles@[j as int]@);
        assert(u.skip(j as int).drop_first() =~= u.skip(j + 1));
        if empieza_con_exec(utiles[j].as_slice(), error.as_slice()) {
            return acotar_exec(utiles[j].as_slice());
        }
    }
    assert(u.skip(m as int) =~= Seq::<Seq<char>>::empty());
    if m > 0 {
        assert(u.last() == utiles@[m - 1]@);
        acotar_exec(utiles[m - 1].as_slice())
    } else {
        String::new()
    }
}

// ---------------------------------------------------------------------------
// Laws
// ---------------------------------------------------------------------------

/// A missing network wins over everything else: whatever else the text
/// says, if it carries the marks of a missing network it is classified as
/// such, and then nobody is asked to act.
pub proof fn ley_sin_red_gana(texto: Seq<char>, f: Fallo)
    requires
        es_sin_red(minusculas(texto)),
        clasifica_como(texto, f),
    ensures
        f is SinRed,
        !f.necesita_accion(),
{
}

/// The text of an unknown failure is bounded: at most 200 characters.
pub proof fn ley_texto_desconocido_acotado(texto: Seq<char>, f: Fallo)
    requires
        clasifica_como(texto, f),
    ensures
        f matches Fallo::Desconocido(d) ==> d@.len() <= 200,
{
}

/// Only a missing network asks for nothing; every other failure, unknown
/// ones included, asks someone to act.
pub proof fn ley_solo_la_red_no_pide_accion(f: Fallo)
    ensures
        f.necesita_accion() <==> !(f is SinRed),
{
}

/// Any of the six phrases of a host without a network, in any case of
/// letters, makes the failure a missing network, whatever else the text
/// says: a mirror that could not be reached, a key, a lock or a full disk.
pub proof fn ley_las_frases_de_la_red(texto: Seq<char>, f: Fallo)
    requires
        clasifica_como(texto, f),
        contiene(minusculas(texto), "could not resolve host"@) || contiene(
            minusculas(texto),
            "temporary failure in name resolution"@,
        ) || contiene(minusculas(texto), "network is unreachable"@) || contiene(
            minusculas(texto),
            "no address record"@,
        ) || contiene(minusculas(texto), "resolving timed out"@) || contiene(
            minusculas(texto),
            "couldn't connect to server"@,
        ),
    ensures
        f == Fallo::SinRed,
        !f.necesita_accion(),
{
}

/// Without a missing network, the phrases of a bad signing key make the
/// failure one of the key, before a lock, a full disk or a mirror.
pub proof fn ley_las_frases_de_la_firma(texto: Seq<char>, f: Fallo)
    requires
        clasifica_como(texto, f),
        !es_sin_red(minusculas(texto)),
        contiene(minusculas(texto), "unknown trust"@) || contiene(minusculas(texto), "signature from"@)
            || contiene(minusculas(texto), "invalid or corrupted package (pgp"@) || contiene(
            minusculas(texto),
            "marginal trust"@,
        ) || contiene(minusculas(texto), "keyring"@) || clave_desconocida(minusculas(texto)),
    ensures
        f == Fallo::Firma,
{
}

/// Without a missing network or a bad key, the phrases of a lock left
/// behind make the failure the lock's, before a full disk or a mirror.
pub proof fn ley_las_frases_del_candado(texto: Seq<char>, f: Fallo)
    requires
        clasifica_como(texto, f),
        !es_sin_red(minusculas(texto)),
        !es_de_firma(minusculas(texto)),
        contiene(minusculas(texto), "unable to lock database"@) || contiene(minusculas(texto), "db.lck"@),
    ensures
        f == Fallo::Candado,
{
}

/// Without any of the earlier marks, the phrases of a full disk make the
/// failure a lack of room, before a mirror.
pub proof fn ley_las_frases_del_disco(texto: Seq<char>, f: Fallo)
    requires
        clasifica_como(texto, f),
        !es_sin_red(minusculas(texto)),
        !es_de_firma(minusculas(texto)),
        !es_del_candado(minusculas(texto)),
        contiene(minusculas(texto), "not enough free disk space"@) || contiene(
            minusculas(texto),
            "no space left on device"@,
        ),
    ensures
        f == Fallo::SinEspacio,
{
}

/// Without any of the earlier marks, the phrases of a mirror that answers
/// badly make the failure the mirror's.
pub proof fn ley_las_frases_del_espejo(texto: Seq<char>, f: Fallo)
    requires
        clasifica_como(texto, f),
        !es_sin_red(minusculas(texto)),
        !es_de_firma(minusculas(texto)),
        !es_del_candado(minusculas(texto)),
        !es_sin_espacio(minusculas(texto)),
        contiene(minusculas(texto), "failed retrieving file"@) || contiene(
            minusculas(texto),
            "failed to update"@,
        ) || contiene(minusculas(texto), "cannot fetch updates"@) || contiene(minusculas(texto), "404"@)
            || contiene(minusculas(texto), "the requested url returned error"@),
    ensures
        f == Fallo::Espejo,
{
}

/// A text with no known mark is not disguised: it is an unknown failure
/// that carries its most useful line.
pub proof fn ley_lo_desconocido_no_se_disfraza(texto: Seq<char>, f: Fallo)
    requires
        clasifica_como(texto, f),
        !es_sin_red(minusculas(texto)),
        !es_de_firma(minusculas(texto)),
        !es_del_candado(minusculas(texto)),
        !es_sin_espacio(minusculas(texto)),
        !es_del_espejo(minusculas(texto)),
    ensures
        f matches Fallo::Desconocido(d) && d@ == linea_util(texto),
{
}

proof fn lema_no_vacias_guarda(ls: Seq<Seq<char>>, k: int)
    requires
        0 <= k < ls.len(),
        recortar(ls[k]).len() > 0,
    ensures
        exists|j: int| 0 <= j < no_vacias(ls).len() && #[trigger] no_vacias(ls)[j] == recortar(ls[k]),
    decreases ls.len(),
{
    let previas = no_vacias(ls.drop_last());
    if k == ls.len() - 1 {
        assert(no_vacias(ls) == previas.push(recortar(ls[k])));
        assert(no_vacias(ls)[previas.len() as int] == recortar(ls[k]));
    } else {
        assert(ls.drop_last()[k] == ls[k]);
        lema_no_vacias_guarda(ls.drop_last(), k);
        let j = choose|j: int| 0 <= j < previas.len() && #[trigger] previas[j] == recortar(ls[k]);
        assert(no_vacias(ls)[j] == previas[j]);
    }
}

proof fn lema_primera_de_error(u: Seq<Seq<char>>, j: int)
    requires
        0 <= j < u.len(),
        empieza_con(u[j], "error:"@),
    ensures
        primera_de_error(u) matches Some(l) && empieza_con(l, "error:"@),
    decreases u.len(),
{
    if !empieza_con(u[0], "error:"@) {
        assert(u.drop_first()[j - 1] == u[j]);
        lema_primera_de_error(u.drop_first(), j - 1);
    }
}

/// When some line of what pacman printed starts with `error:`, the line
/// that explains an unknown failure is one of those: the warnings printed
/// before the real error are passed over.
pub proof fn ley_se_prefiere_la_de_error(texto: Seq<char>, k: int)
    requires
        0 <= k < lineas(texto).len(),
        empieza_con(recortar(lineas(texto)[k]), "error:"@),
    ensures
        empieza_con(linea_util(texto), "error:"@),
{
    reveal_strlit("error:");
    let ls = lineas(texto);
    lema_no_vacias_guarda(ls, k);
    let u = no_vacias(ls);
    let j = choose|j: int| 0 <= j < u.len() && #[trigger] u[j] == recortar(ls[k]);
    lema_primera_de_error(u, j);
    let l = primera_de_error(u)->0;
    assert(acotar(l).take(6) =~= l.take(6));
}

} // verus!
