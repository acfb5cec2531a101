//! What the program computes around its I/O.
//!
//! Running programs, reading `/boot` and the state file, and showing the
//! notice stay outside this crate; what is decided from what they return
//! is here: the pre-flight check from the raw outputs, the remembered
//! notice as a two-line text, and the steps of a timer run.

use vstd::prelude::*;
use crate::analisis::{
    es_kernel, es_paquete_de_kernel, espacio_necesario, espacio_necesario_en_boot, mayor_initramfs,
    mayor_tamano, parsear_pacnew, rutas_pacnew, textos, Actualizacion, Preflight,
};
use crate::aviso::Recuerdo;
use crate::texto::{
    agregar, caracteres, decimal, digito, decimal_exec, es_blanco, es_digito, leer_u64, leer_u64_exec,
    lema_lineas_primera, lineas, lineas_desde, lineas_exec, mismos, recortar, recortar_exec, sin_blancos_al_final,
    sin_blancos_al_principio, sin_cr, sin_signo, son_digitos, texto_de, valor, vistas,
};

verus! {

/// What is assumed of the largest initramfs when `/boot` cannot be read:
/// 200 MiB, rather than zero, which would say that no room is needed.
pub const ESTIMACION_INITRAMFS: u64 = 209_715_200;

/// The names of the packages whose file list shows a kernel, in order.
pub open spec fn kernels_de(consultas: Seq<(String, String)>) -> Seq<Seq<char>>
    decreases consultas.len(),
{
    if consultas.len() == 0 {
        seq![]
    } else {
        let previos = kernels_de(consultas.drop_last());
        let (nombre, archivos) = consultas.last();
        if es_kernel(archivos@) {
            previos.push(nombre@)
        } else {
            previos
        }
    }
}

/// Which of the packages being updated are kernels, from each package's
/// name and its installed file list (what `pacman -Qlq` prints for it).
pub fn kernels_entre(consultas: &[(String, String)]) -> (r: Vec<String>)
    ensures
        textos(r@) == kernels_de(consultas@),
{
    let mut r: Vec<String> = Vec::new();
    let n = consultas.len();
    for i in 0..n
        invariant
            n == consultas@.len(),
            textos(r@) == kernels_de(consultas@.take(i as int)),
    {
        assert(consultas@.take(i + 1).drop_last() =~= consultas@.take(i as int));
        assert(consultas@.take(i + 1).last() == consultas@[i as int]);
        let (nombre, archivos) = &consultas[i];
        if es_paquete_de_kernel(archivos.as_str()) {
            let ghost antes = r@;
            r.push(nombre.clone());
            assert(textos(r@) =~= textos(antes).push(nombre@));
        }
    }
    assert(consultas@.take(n as int) =~= consultas@);
    r
}

/// The largest initramfs of `/boot`, or the estimate when `/boot` could not
/// be listed (`None`) or holds no initramfs that weighs anything.
pub open spec fn initramfs_o_estimacion(archivos: Option<Seq<(String, u64)>>) -> u64 {
    match archivos {
        Some(a) => if mayor_tamano(a) > 0 {
            mayor_tamano(a)
        } else {
            ESTIMACION_INITRAMFS
        },
        None => ESTIMACION_INITRAMFS,
    }
}

/// The largest initramfs of `/boot` from its listing, or an estimate when
/// there is no listing or nothing in it.
pub fn el_mayor_initramfs(archivos: &Option<Vec<(String, u64)>>) -> (r: u64)
    ensures
        r == initramfs_o_estimacion(
            match archivos {
                Some(a) => Some(a@),
                None => None,
            },
        ),
{
    match archivos {
        None => ESTIMACION_INITRAMFS,
        Some(a) => match mayor_initramfs(a.as_slice()) {
            Some(m) => m,
            None => ESTIMACION_INITRAMFS,
        },
    }
}

/// What `df --output=avail -B1` reports as free: the number on its second
/// line, or zero when there is none to read.
pub open spec fn libre_segun_df(salida: Seq<char>) -> u64 {
    let ls = lineas(salida);
    if ls.len() > 1 {
        match leer_u64(recortar(ls[1])) {
            Some(v) => v,
            None => 0,
        }
    } else {
        0
    }
}

/// What is free on the file system of `/boot`, from the output of `df`.
pub fn libre_en_boot(salida_df: &str) -> (r: u64)
    ensures
        r == libre_segun_df(salida_df@),
{
    let texto = caracteres(salida_df);
    let ls = lineas_exec(texto.as_slice());
    assert(vistas(ls@).len() == ls@.len());
    if ls.len() > 1 {
        assert(vistas(ls@)[1] == ls@[1]@);
        let t = recortar_exec(ls[1].as_slice());
        match leer_u64_exec(t.as_slice()) {
            Some(v) => v,
            None => 0,
        }
    } else {
        0
    }
}

/// The pre-flight check, from what the system answered: the pending
/// updates, the file list of each of them, the listing of `/boot` (`None`
/// when it could not be read), and the outputs of `pacdiff --output` and
/// `df`.
pub fn preflight(
    pendientes: &[Actualizacion],
    archivos_por_paquete: &[(String, String)],
    archivos_de_boot: &Option<Vec<(String, u64)>>,
    salida_pacdiff: &str,
    salida_df: &str,
) -> (r: Preflight)
    ensures
        r.paquetes == pendientes@.len(),
        textos(r.kernels@) == kernels_de(archivos_por_paquete@),
        textos(r.pacnew@) == rutas_pacnew(lineas(salida_pacdiff@)),
        r.boot_disponible_bytes == libre_segun_df(salida_df@),
        r.boot_necesario_bytes == espacio_necesario(
            kernels_de(archivos_por_paquete@).len() > 0,
            initramfs_o_estimacion(
                match archivos_de_boot {
                    Some(a) => Some(a@),
                    None => None,
                },
            ),
        ),
        r.coherente(),
{
    let kernels = kernels_entre(archivos_por_paquete);
    assert(textos(kernels@).len() == kernels@.len());
    let necesario = espacio_necesario_en_boot(kernels.len() > 0, el_mayor_initramfs(archivos_de_boot));
    Preflight::nuevo(
        pendientes.len(),
        kernels,
        parsear_pacnew(salida_pacdiff),
        libre_en_boot(salida_df),
        necesario,
    )
}

// ---------------------------------------------------------------------------
// The remembered notice
// ---------------------------------------------------------------------------

/// The fingerprint read back from the state file: its first line, trimmed.
pub open spec fn huella_leida(texto: Seq<char>) -> Seq<char> {
    let ls = lineas(texto);
    if ls.len() > 0 {
        recortar(ls[0])
    } else {
        seq![]
    }
}

/// The moment read back from the state file: the number on its second line,
/// or zero, «never», when there is none to read.
pub open spec fn cuando_leido(texto: Seq<char>) -> u64 {
    let ls = lineas(texto);
    if ls.len() > 1 {
        match leer_u64(recortar(ls[1])) {
            Some(v) => v,
            None => 0,
        }
    } else {
        0
    }
}

/// What was notified last time, from the text of the state file: two
/// lines, the fingerprint and the moment. Whatever cannot be understood
/// reads as «never notified», which on the safe side means notifying.
pub fn recuerdo_desde_texto(texto: &str) -> (r: Recuerdo)
    ensures
        r.huella@ == huella_leida(texto@),
        r.cuando == cuando_leido(texto@),
{
    let cs = caracteres(texto);
    let ls = lineas_exec(cs.as_slice());
    assert(vistas(ls@).len() == ls@.len());
    let huella = if ls.len() > 0 {
        assert(vistas(ls@)[0] == ls@[0]@);
        let t = recortar_exec(ls[0].as_slice());
        texto_de(t.as_slice())
    } else {
        String::new()
    };
    let cuando = if ls.len() > 1 {
        assert(vistas(ls@)[1] == ls@[1]@);
        let t = recortar_exec(ls[1].as_slice());
        match leer_u64_exec(t.as_slice()) {
            Some(v) => v,
            None => 0,
        }
    } else {
        0
    };
    Recuerdo { huella, cuando }
}

/// The text of the state file: the fingerprint and the moment, one per line.
pub open spec fn texto_escrito(huella: Seq<char>, cuando: u64) -> Seq<char> {
    huella + seq!['\n'] + decimal(cuando as nat) + seq!['\n']
}

/// The text of the state file for what was just notified.
pub fn texto_del_recuerdo(recuerdo: &Recuerdo) -> (r: String)
    ensures
        r@ == texto_escrito(recuerdo.huella@, recuerdo.cuando),
{
    let mut r = String::new();
    let h = caracteres(recuerdo.huella.as_str());
    agregar(&mut r, h.as_slice());
    agregar(&mut r, vec!['\n'].as_slice());
    let d = decimal_exec(recuerdo.cuando);
    agregar(&mut r, d.as_slice());
    agregar(&mut r, vec!['\n'].as_slice());
    r
}

/// Whether the notice's button was pressed: `notify-send` prints the name
/// of the chosen action, `abrir`.
pub fn pidio_abrir(salida: &str) -> (r: bool)
    ensures
        r == (recortar(salida@) == "abrir"@),
{
    let cs = caracteres(salida);
    let t = recortar_exec(cs.as_slice());
    let abrir = caracteres("abrir");
    mismos(t.as_slice(), abrir.as_slice())
}

// ---------------------------------------------------------------------------
// Laws
// ---------------------------------------------------------------------------

proof fn lema_decimal_sin_blancos(n: nat)
    ensures
        forall|i: int| 0 <= i < decimal(n).len() ==> es_digito(#[trigger] decimal(n)[i]),
        decimal(n).len() > 0,
    decreases n,
{
    if n >= 10 {
        lema_decimal_sin_blancos(n / 10);
    }
}

proof fn lema_valor_decimal(n: nat)
    ensures
        valor(decimal(n)) == n,
    decreases n,
{
    assert(digito(n % 10) as int == n % 10 + 48);
    if n >= 10 {
        lema_valor_decimal(n / 10);
        assert(decimal(n).drop_last() =~= decimal(n / 10));
        assert(decimal(n).last() == digito(n % 10));
        assert(valor(decimal(n)) == valor(decimal(n / 10)) * 10 + n % 10);
        assert((n / 10) * 10 + n % 10 == n) by (nonlinear_arith);
    } else {
        assert(decimal(n).drop_last() =~= Seq::<char>::empty());
        assert(valor(Seq::<char>::empty()) == 0);
        assert(decimal(n).last() == digito(n));
    }
}

/// A text made of digits has nothing to trim.
proof fn lema_digitos_recortados(s: Seq<char>)
    requires
        s.len() > 0,
        son_digitos(s),
    ensures
        recortar(s) == s,
{
    assert(!es_blanco(s.last()));
    assert(sin_blancos_al_final(s) == s);
    assert(!es_blanco(s[0]));
}

/// What is written down is what is read back: a fingerprint with no line
/// break and nothing to trim, and any moment, come back unchanged from the
/// text of the state file.
pub proof fn ley_lo_escrito_se_lee(huella: Seq<char>, cuando: u64)
    requires
        forall|i: int| 0 <= i < huella.len() ==> huella[i] != '\n',
        recortar(huella) == huella,
    ensures
        huella_leida(texto_escrito(huella, cuando)) == huella,
        cuando_leido(texto_escrito(huella, cuando)) == cuando,
{
    let d = decimal(cuando as nat);
    lema_decimal_sin_blancos(cuando as nat);
    lema_valor_decimal(cuando as nat);
    let t = texto_escrito(huella, cuando);
    assert(t =~= huella + seq!['\n'] + (d + seq!['\n'] + Seq::<char>::empty()));
    lema_lineas_primera(seq![], huella, d + seq!['\n'] + Seq::<char>::empty());
    assert(forall|i: int| 0 <= i < d.len() ==> d[i] != '\n') by {
        assert forall|i: int| 0 <= i < d.len() implies d[i] != '\n' by {
            assert(es_digito(d[i]));
        }
    }
    lema_lineas_primera(seq![], d, Seq::<char>::empty());
    assert(lineas_desde(seq![], Seq::<char>::empty()) =~= Seq::<Seq<char>>::empty());
    assert(Seq::<char>::empty() + huella =~= huella);
    assert(Seq::<char>::empty() + d =~= d);
    let ls = lineas(t);
    assert(ls =~= seq![sin_cr(huella), sin_cr(d)]);
    // the fingerprint keeps its last character: it is not blank, so not `\r`
    if huella.len() > 0 {
        lema_recortar_no_alarga(huella);
        assert(!es_blanco(huella.last()));
    }
    assert(sin_cr(huella) == huella);
    assert(sin_cr(d) == d) by {
        assert(es_digito(d[d.len() - 1]));
    }
    lema_digitos_recortados(d);
    assert(sin_signo(d) == d) by {
        assert(es_digito(d[0]));
    }
}

proof fn lema_recortar_no_alarga(s: Seq<char>)
    ensures
        sin_blancos_al_final(s).len() <= s.len(),
        sin_blancos_al_principio(s).len() <= s.len(),
        recortar(s).len() <= sin_blancos_al_final(s).len(),
        s.len() > 0 && es_blanco(s.last()) ==> sin_blancos_al_final(s).len() < s.len(),
    decreases s.len(),
{
    if s.len() > 0 {
        lema_recortar_no_alarga(s.drop_last());
        lema_recortar_no_alarga(s.drop_first());
        lema_principio_no_alarga(sin_blancos_al_final(s));
    }
}

proof fn lema_principio_no_alarga(s: Seq<char>)
    ensures
        sin_blancos_al_principio(s).len() <= s.len(),
    decreases s.len(),
{
    if s.len() > 0 {
        lema_principio_no_alarga(s.drop_first());
    }
}

/// The kernels among two lists of packages are those of the first list and
/// then those of the second: none is dropped, wherever it stands.
pub proof fn ley_kernels_de_dos_tramos(a: Seq<(String, String)>, b: Seq<(String, String)>)
    ensures
        kernels_de(a + b) == kernels_de(a) + kernels_de(b),
    decreases b.len(),
{
    if b.len() == 0 {
        assert(a + b =~= a);
        assert(kernels_de(a) + kernels_de(b) =~= kernels_de(a));
    } else {
        assert((a + b).drop_last() =~= a + b.drop_last());
        assert((a + b).last() == b.last());
        ley_kernels_de_dos_tramos(a, b.drop_last());
        if es_kernel(b.last().1@) {
            assert(kernels_de(a + b) =~= kernels_de(a) + kernels_de(b));
        }
    }
}

/// One package gives its name exactly when its file list is a kernel's.
pub proof fn ley_kernels_de_uno(nombre: String, archivos: String)
    ensures
        kernels_de(seq![(nombre, archivos)]) == (if es_kernel(archivos@) {
            seq![nombre@]
        } else {
            Seq::<Seq<char>>::empty()
        }),
{
    let s = seq![(nombre, archivos)];
    assert(s.len() == 1);
    assert(s.last() == (nombre, archivos));
    assert(s.drop_last() =~= Seq::<(String, String)>::empty());
    assert(kernels_de(s.drop_last()) =~= Seq::<Seq<char>>::empty());
    assert(Seq::<Seq<char>>::empty().push(nombre@) =~= seq![nombre@]);
    if es_kernel(archivos@) {
        assert(kernels_de(s) == kernels_de(s.drop_last()).push(nombre@));
    } else {
        assert(kernels_de(s) == kernels_de(s.drop_last()));
    }
}

/// Every package whose file list is a kernel's is in the result, at its
/// place among the others: no kernel that changes is left out.
pub proof fn ley_ningun_kernel_se_pierde(consultas: Seq<(String, String)>, k: int)
    requires
        0 <= k < consultas.len(),
        es_kernel(consultas[k].1@),
    ensures
        kernels_de(consultas) == kernels_de(consultas.take(k)) + seq![consultas[k].0@] + kernels_de(
            consultas.skip(k + 1),
        ),
        kernels_de(consultas).contains(consultas[k].0@),
{
    assert(consultas =~= consultas.take(k) + seq![consultas[k]] + consultas.skip(k + 1));
    ley_kernels_de_dos_tramos(consultas.take(k) + seq![consultas[k]], consultas.skip(k + 1));
    ley_kernels_de_dos_tramos(consultas.take(k), seq![consultas[k]]);
    ley_kernels_de_uno(consultas[k].0, consultas[k].1);
    let r = kernels_de(consultas);
    let i = kernels_de(consultas.take(k)).len();
    assert(r[i as int] == consultas[k].0@);
}

/// A package whose file list is not a kernel's is not in the result: the
/// kernels of the list are those of the list without it.
pub proof fn ley_solo_los_kernels(consultas: Seq<(String, String)>, k: int)
    requires
        0 <= k < consultas.len(),
        !es_kernel(consultas[k].1@),
    ensures
        kernels_de(consultas) == kernels_de(consultas.take(k)) + kernels_de(consultas.skip(k + 1)),
{
    assert(consultas =~= consultas.take(k) + seq![consultas[k]] + consultas.skip(k + 1));
    ley_kernels_de_dos_tramos(consultas.take(k) + seq![consultas[k]], consultas.skip(k + 1));
    ley_kernels_de_dos_tramos(consultas.take(k), seq![consultas[k]]);
    ley_kernels_de_uno(consultas[k].0, consultas[k].1);
    assert(kernels_de(consultas.take(k)) + Seq::<Seq<char>>::empty() =~= kernels_de(consultas.take(k)));
}

/// The kernels of a list are its packages whose file list is a kernel's,
/// each by its name, in the order of the list: as many names as there are
/// such packages, and no other.
pub proof fn ley_los_kernels_son_los_filtrados(consultas: Seq<(String, String)>)
    ensures
        kernels_de(consultas) == consultas.filter(|p: (String, String)| es_kernel(p.1@)).map_values(
            |p: (String, String)| p.0@,
        ),
        kernels_de(consultas).len() == consultas.filter(|p: (String, String)| es_kernel(p.1@)).len(),
    decreases consultas.len(),
{
    let f = |p: (String, String)| es_kernel(p.1@);
    let g = |p: (String, String)| p.0@;
    reveal(Seq::filter);
    if consultas.len() == 0 {
        assert(consultas.filter(f) =~= consultas);
        assert(consultas.filter(f).map_values(g) =~= Seq::<Seq<char>>::empty());
    } else {
        let previos = consultas.drop_last();
        ley_los_kernels_son_los_filtrados(previos);
        let ultimo = consultas.last();
        if f(ultimo) {
            assert(consultas.filter(f) == previos.filter(f).push(ultimo));
            assert(previos.filter(f).push(ultimo).map_values(g) =~= previos.filter(f).map_values(g).push(
                ultimo.0@,
            ));
        } else {
            assert(consultas.filter(f) == previos.filter(f));
        }
    }
}

/// The free space is the number that `df` prints on the line after its
/// header, whatever the header says.
pub proof fn ley_lo_que_df_informa(cabecera: Seq<char>, libre: u64)
    requires
        forall|i: int| 0 <= i < cabecera.len() ==> cabecera[i] != '\n',
    ensures
        libre_segun_df(cabecera + seq!['\n'] + decimal(libre as nat) + seq!['\n']) == libre,
{
    let d = decimal(libre as nat);
    lema_decimal_sin_blancos(libre as nat);
    lema_valor_decimal(libre as nat);
    let t = cabecera + seq!['\n'] + d + seq!['\n'];
    assert(t =~= cabecera + seq!['\n'] + (d + seq!['\n'] + Seq::<char>::empty()));
    lema_lineas_primera(seq![], cabecera, d + seq!['\n'] + Seq::<char>::empty());
    assert(forall|i: int| 0 <= i < d.len() ==> d[i] != '\n') by {
        assert forall|i: int| 0 <= i < d.len() implies d[i] != '\n' by {
            assert(es_digito(d[i]));
        }
    }
    lema_lineas_primera(seq![], d, Seq::<char>::empty());
    assert(lineas_desde(seq![], Seq::<char>::empty()) =~= Seq::<Seq<char>>::empty());
    assert(Seq::<char>::empty() + cabecera =~= cabecera);
    assert(Seq::<char>::empty() + d =~= d);
    let ls = lineas(t);
    assert(ls =~= seq![sin_cr(cabecera), sin_cr(d)]);
    assert(sin_cr(d) == d) by {
        assert(es_digito(d[d.len() - 1]));
    }
    lema_digitos_recortados(d);
    assert(sin_signo(d) == d) by {
        assert(es_digito(d[0]));
    }
}

} // verus!
