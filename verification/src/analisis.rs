//! What has to be known **before** applying an update.
//!
//! Everything here reads the text another program printed, and decides from
//! it alone: a decision taken by reading another program's output has to be
//! testable with that output written by hand.
//!
//! - The free space in `/boot`: running out of it while an initramfs is being
//!   written is what leaves a system that does not boot.
//! - Whether the kernel changes: it asks for a reboot and for room in `/boot`.
//! - The `.pacnew` files: configuration that changed upstream and was left
//!   beside ours.

use vstd::prelude::*;
use crate::texto::{
    aparece_en, sin_cr, lema_lineas_de_dos, lema_lineas_primera, lineas_desde, sin_blancos_al_final, contiene,
    contiene_exec, tramo, cumplen, es_blanco, es_escape, lema_lineas_conservan, lema_palabras_conservan,
    lema_palabras_de_blancos, lema_sin_escapes_limpia, todos_cumplen, caracteres, empieza_con, empieza_con_exec, lineas, lineas_exec, palabras, palabras_exec, recortar,
    recortar_exec, sin_escapes, sin_escapes_exec, sin_finales, sin_finales_exec, sin_iniciales,
    sin_iniciales_exec, termina_con, termina_con_exec, texto_de, vistas,
};

verus! {

/// A package that is going to be updated.
#[derive(Debug, Clone, PartialEq, Eq)]
pub struct Actualizacion {
    pub nombre: String,
    pub version_vieja: String,
    pub version_nueva: String,
}

/// What an [`Actualizacion`] holds, as character sequences.
pub struct Cambio {
    pub nombre: Seq<char>,
    pub vieja: Seq<char>,
    pub nueva: Seq<char>,
}

impl View for Actualizacion {
    type V = Cambio;

    open spec fn view(&self) -> Cambio {
        Cambio { nombre: self.nombre@, vieja: self.version_vieja@, nueva: self.version_nueva@ }
    }
}

/// The views of a sequence of updates.
pub open spec fn cambios(v: Seq<Actualizacion>) -> Seq<Cambio> {
    v.map_values(|a: Actualizacion| a@)
}

/// The views of a sequence of strings.
pub open spec fn textos(v: Seq<String>) -> Seq<Seq<char>> {
    v.map_values(|s: String| s@)
}

/// The update that one line of `checkupdates` announces, if it has the form
/// `name old -> new`: exactly four words once its escape sequences are
/// gone, the third of them `->`.
pub open spec fn cambio_de_linea(l: Seq<char>) -> Option<Cambio> {
    let p = palabras(sin_escapes(l));
    if p.len() == 4 && p[2] == seq!['-', '>'] {
        Some(Cambio { nombre: p[0], vieja: p[1], nueva: p[3] })
    } else {
        None
    }
}

/// The updates that a list of lines announces, in the order of the lines.
pub open spec fn cambios_de_lineas(ls: Seq<Seq<char>>) -> Seq<Cambio>
    decreases ls.len(),
{
    if ls.len() == 0 {
        seq![]
    } else {
        let previos = cambios_de_lineas(ls.drop_last());
        match cambio_de_linea(ls.last()) {
            Some(c) => previos.push(c),
            None => previos,
        }
    }
}

/// The updates that an output of `checkupdates` announces.
pub open spec fn actualizaciones(salida: Seq<char>) -> Seq<Cambio> {
    cambios_de_lineas(lineas(salida))
}

fn actualizacion_de_linea(linea: &[char]) -> (r: Option<Actualizacion>)
    ensures
        match r {
            Some(a) => cambio_de_linea(linea@) == Some(a@),
            None => cambio_de_linea(linea@) is None,
        },
{
    let limpia = sin_escapes_exec(linea);
    let partes = palabras_exec(limpia.as_slice());
    proof {
        assert(vistas(partes@).len() == partes@.len());
    }
    if partes.len() != 4 {
        return None;
    }
    let flecha = &partes[2];
    assert(vistas(partes@)[2] == flecha@);
    if !(flecha.len() == 2 && flecha[0] == '-' && flecha[1] == '>') {
        proof {
            if flecha@ == seq!['-', '>'] {
                assert(flecha@[0] == '-' && flecha@[1] == '>');
            }
        }
        return None;
    }
    assert(flecha@ =~= seq!['-', '>']);
    let a = Actualizacion {
        nombre: texto_de(partes[0].as_slice()),
        version_vieja: texto_de(partes[1].as_slice()),
        version_nueva: texto_de(partes[3].as_slice()),
    };
    assert(vistas(partes@)[0] == partes@[0]@);
    assert(vistas(partes@)[1] == partes@[1]@);
    assert(vistas(partes@)[3] == partes@[3]@);
    Some(a)
}

/// Reads the output of `checkupdates`, which is that of `pacman -Qu`.
///
/// The format is `name old -> new`, one per line. Whatever does not have
/// that form is dropped rather than guessed at: the output may carry
/// warnings, blank lines and, when `Color` is set, escape sequences, which
/// are taken out before the line is split.
pub fn parsear_actualizaciones(salida: &str) -> (r: Vec<Actualizacion>)
    ensures
        cambios(r@) == actualizaciones(salida@),
{
    let texto = caracteres(salida);
    let ls = lineas_exec(texto.as_slice());
    let ghost vls = vistas(ls@);
    let mut r: Vec<Actualizacion> = Vec::new();
    let n = ls.len();
    for i in 0..n
        invariant
            n == ls@.len(),
            vls == vistas(ls@),
            vls == lineas(salida@),
            cambios(r@) == cambios_de_lineas(vls.take(i as int)),
    {
        let ghost antes = r@;
        assert(vls.take(i + 1).drop_last() =~= vls.take(i as int));
        assert(vls.take(i + 1).last() == ls@[i as int]@);
        match actualizacion_de_linea(ls[i].as_slice()) {
            Some(a) => {
                r.push(a);
                assert(cambios(r@) =~= cambios(antes).push(a@));
            },
            None => {},
        }
    }
    assert(vls.take(n as int) =~= vls);
    r
}

/// A line of a file list without its blanks and without the slashes at
/// either end.
pub open spec fn ruta_limpia(l: Seq<char>) -> Seq<char> {
    sin_iniciales(sin_finales(recortar(l), '/'), '/')
}

/// Whether a line of a package's file list is a kernel image where the
/// mkinitcpio hook looks for it, `usr/lib/modules/<version>/vmlinuz`: with
/// or without leading slashes, trailing slashes ignored, and `<version>` a
/// single folder whose name is not empty.
pub open spec fn es_imagen_de_kernel(l: Seq<char>) -> bool {
    let u = ruta_limpia(l);
    let prefijo = "usr/lib/modules/"@;
    let sufijo = "/vmlinuz"@;
    &&& empieza_con(u, prefijo)
    &&& termina_con(u, sufijo)
    &&& u.len() > prefijo.len() + sufijo.len()
    &&& !contiene(u.subrange(prefijo.len() as int, u.len() - sufijo.len()), seq!['/'])
}

/// Whether some line of a file list is a kernel image.
pub open spec fn es_kernel(archivos: Seq<char>) -> bool {
    exists|i: int| 0 <= i < lineas(archivos).len() && es_imagen_de_kernel(#[trigger] lineas(archivos)[i])
}

fn es_imagen_de_kernel_exec(l: &[char]) -> (r: bool)
    ensures
        r == es_imagen_de_kernel(l@),
{
    let t = sin_finales_exec(recortar_exec(l).as_slice(), '/');
    let u = sin_iniciales_exec(t.as_slice(), '/');
    let prefijo = caracteres("usr/lib/modules/");
    let sufijo = caracteres("/vmlinuz");
    assert(u@ == ruta_limpia(l@));
    if !(empieza_con_exec(u.as_slice(), prefijo.as_slice()) && termina_con_exec(
        u.as_slice(),
        sufijo.as_slice(),
    )) {
        return false;
    }
    if u.len() <= prefijo.len() || u.len() - prefijo.len() <= sufijo.len() {
        return false;
    }
    let version = tramo(u.as_slice(), prefijo.len(), u.len() - sufijo.len());
    let barra = vec!['/'];
    assert(barra@ =~= seq!['/']);
    !contiene_exec(version.as_slice(), barra.as_slice())
}

/// Whether a package is a kernel, judged by **which files it has**: a
/// kernel package installs its image in `usr/lib/modules/<version>/vmlinuz`.
///
/// Takes the file list, as `pacman -Qlq` prints it, and not the name.
pub fn es_paquete_de_kernel(archivos: &str) -> (r: bool)
    ensures
        r == es_kernel(archivos@),
{
    let texto = caracteres(archivos);
    let ls = lineas_exec(texto.as_slice());
    let ghost vls = vistas(ls@);
    let n = ls.len();
    for i in 0..n
        invariant
            n == ls@.len(),
            vls == vistas(ls@),
            vls == lineas(archivos@),
            forall|k: int| 0 <= k < i ==> !es_imagen_de_kernel(#[trigger] vls[k]),
    {
        assert(vls[i as int] == ls@[i as int]@);
        if es_imagen_de_kernel_exec(ls[i].as_slice()) {
            return true;
        }
    }
    false
}

/// The verdict of the pre-flight check.
#[derive(Debug, Clone, PartialEq, Eq)]
pub struct Preflight {
    /// How many packages are updated.
    pub paquetes: usize,
    /// The kernels that change version, by name.
    pub kernels: Vec<String>,
    /// New configuration files not applied yet.
    pub pacnew: Vec<String>,
    /// What is free on the file system of `/boot`.
    pub boot_disponible_bytes: u64,
    /// What the update will need there. Zero when the kernel does not change.
    pub boot_necesario_bytes: u64,
    /// Whether `/boot` has room to write the initramfs **with a net**:
    /// mkinitcpio writes to a temporary file and renames it when it has room
    /// to spare, so that an interruption leaves the previous one whole.
    pub hay_lugar_con_red: bool,
    /// Whether a reboot is needed afterwards: the kernel changes.
    pub pide_reinicio: bool,
}

impl Preflight {
    /// The two conclusions follow from the numbers.
    pub open spec fn coherente(&self) -> bool {
        &&& self.hay_lugar_con_red == (self.boot_disponible_bytes >= self.boot_necesario_bytes)
        &&& self.pide_reinicio == (self.kernels@.len() > 0)
    }

    /// The verdict, with its two conclusions drawn.
    pub fn nuevo(
        paquetes: usize,
        kernels: Vec<String>,
        pacnew: Vec<String>,
        boot_disponible_bytes: u64,
        boot_necesario_bytes: u64,
    ) -> (r: Self)
        ensures
            r.paquetes == paquetes,
            r.kernels == kernels,
            r.pacnew == pacnew,
            r.boot_disponible_bytes == boot_disponible_bytes,
            r.boot_necesario_bytes == boot_necesario_bytes,
            r.coherente(),
    {
        let pide_reinicio = kernels.len() > 0;
        Preflight {
            paquetes,
            hay_lugar_con_red: boot_disponible_bytes >= boot_necesario_bytes,
            pide_reinicio,
            kernels,
            pacnew,
            boot_disponible_bytes,
            boot_necesario_bytes,
        }
    }
}

/// mkinitcpio's own criterion (`build_image`): it writes to a temporary
/// file and renames it when the free space exceeds the size of the file it
/// replaces plus a quarter; nothing is needed when no kernel changes. The
/// sum saturates rather than wrapping.
pub open spec fn espacio_necesario(hay_kernels: bool, mayor_initramfs: u64) -> u64 {
    if !hay_kernels {
        0
    } else if mayor_initramfs + mayor_initramfs / 4 > u64::MAX {
        u64::MAX
    } else {
        (mayor_initramfs + mayor_initramfs / 4) as u64
    }
}

/// How much free space `/boot` needs for mkinitcpio to write **safely**.
pub fn espacio_necesario_en_boot(hay_kernels: bool, mayor_initramfs: u64) -> (r: u64)
    ensures
        r == espacio_necesario(hay_kernels, mayor_initramfs),
{
    if !hay_kernels {
        return 0;
    }
    mayor_initramfs.saturating_add(mayor_initramfs / 4)
}

/// Whether a file name in `/boot` is an initramfs.
pub open spec fn es_initramfs(nombre: Seq<char>) -> bool {
    empieza_con(nombre, "initramfs-"@) && termina_con(nombre, ".img"@)
}

/// The size of the largest initramfs in the list, or zero if there is none.
pub open spec fn mayor_tamano(archivos: Seq<(String, u64)>) -> u64
    decreases archivos.len(),
{
    if archivos.len() == 0 {
        0
    } else {
        let m = mayor_tamano(archivos.drop_last());
        let (nombre, tamano) = archivos.last();
        if es_initramfs(nombre@) && tamano > m {
            tamano
        } else {
            m
        }
    }
}

/// `m` is the size of an initramfs in the list, and no initramfs there is
/// larger.
pub open spec fn es_el_mayor(archivos: Seq<(String, u64)>, m: u64) -> bool {
    &&& exists|i: int| 0 <= i < archivos.len() && es_initramfs(archivos[i].0@) && #[trigger] archivos[i].1 == m
    &&& forall|i: int| 0 <= i < archivos.len() && es_initramfs(#[trigger] archivos[i].0@) ==> archivos[i].1 <= m
}

/// Some initramfs in the list has a size other than zero.
pub open spec fn hay_initramfs(archivos: Seq<(String, u64)>) -> bool {
    exists|i: int| 0 <= i < archivos.len() && es_initramfs(archivos[i].0@) && #[trigger] archivos[i].1 > 0
}

fn es_initramfs_exec(nombre: &String) -> (r: bool)
    ensures
        r == es_initramfs(nombre@),
{
    let cs = caracteres(nombre.as_str());
    let prefijo = caracteres("initramfs-");
    let sufijo = caracteres(".img");
    empieza_con_exec(cs.as_slice(), prefijo.as_slice()) && termina_con_exec(cs.as_slice(), sufijo.as_slice())
}

/// The largest initramfs in `/boot`, from its files as `(name, bytes)`;
/// `None` when there is none, or when the largest weighs nothing, since
/// zero would say that no room is needed.
pub fn mayor_initramfs(archivos: &[(String, u64)]) -> (r: Option<u64>)
    ensures
        r == (if mayor_tamano(archivos@) > 0 {
            Some(mayor_tamano(archivos@))
        } else {
            None
        }),
{
    let mut mayor: u64 = 0;
    let n = archivos.len();
    for i in 0..n
        invariant
            n == archivos@.len(),
            mayor == mayor_tamano(archivos@.take(i as int)),
    {
        assert(archivos@.take(i + 1).drop_last() =~= archivos@.take(i as int));
        assert(archivos@.take(i + 1).last() == archivos@[i as int]);
        let (nombre, tamano) = &archivos[i];
        if es_initramfs_exec(nombre) && *tamano > mayor {
            mayor = *tamano;
        }
    }
    assert(archivos@.take(n as int) =~= archivos@);
    if mayor > 0 {
        Some(mayor)
    } else {
        None
    }
}

/// What [`mayor_tamano`] gives is the largest initramfs of the list, when
/// there is one that weighs something, and zero exactly when there is none.
pub proof fn ley_el_mayor(archivos: Seq<(String, u64)>)
    ensures
        mayor_tamano(archivos) > 0 <==> hay_initramfs(archivos),
        mayor_tamano(archivos) > 0 ==> es_el_mayor(archivos, mayor_tamano(archivos)),
        forall|i: int| 0 <= i < archivos.len() && es_initramfs(#[trigger] archivos[i].0@) ==> archivos[i].1
            <= mayor_tamano(archivos),
    decreases archivos.len(),
{
    if archivos.len() > 0 {
        let previos = archivos.drop_last();
        ley_el_mayor(previos);
        let k = archivos.len() - 1;
        assert forall|i: int| 0 <= i < k implies #[trigger] archivos[i] == previos[i] by {}
        if mayor_tamano(archivos) > 0 {
            if mayor_tamano(archivos) == mayor_tamano(previos) {
                let j = choose|j: int|
                    0 <= j < previos.len() && es_initramfs(previos[j].0@) && #[trigger] previos[j].1
                        == mayor_tamano(previos);
                assert(archivos[j] == previos[j]);
            } else {
                assert(archivos[k].1 == mayor_tamano(archivos));
            }
        }
        if hay_initramfs(archivos) {
            let j = choose|j: int|
                0 <= j < archivos.len() && es_initramfs(archivos[j].0@) && #[trigger] archivos[j].1 > 0;
            if j < k {
                assert(archivos[j] == previos[j]);
            }
        }
    }
}

/// Whether a trimmed line of `pacdiff --output` is a path to a `.pacnew` or
/// a `.pacsave` file: absolute, with one of those endings.
pub open spec fn es_ruta_pacnew(t: Seq<char>) -> bool {
    empieza_con(t, seq!['/']) && (termina_con(t, ".pacnew"@) || termina_con(t, ".pacsave"@))
}

/// The trimmed lines that are paths to `.pacnew` or `.pacsave` files, in
/// their order.
pub open spec fn rutas_pacnew(ls: Seq<Seq<char>>) -> Seq<Seq<char>>
    decreases ls.len(),
{
    if ls.len() == 0 {
        seq![]
    } else {
        let previas = rutas_pacnew(ls.drop_last());
        let t = recortar(ls.last());
        if es_ruta_pacnew(t) {
            previas.push(t)
        } else {
            previas
        }
    }
}

/// The `.pacnew` and `.pacsave` files that pacman left, from the output of
/// `pacdiff --output`: one path per line, and whatever is not an absolute
/// path is a warning and is dropped.
pub fn parsear_pacnew(salida: &str) -> (r: Vec<String>)
    ensures
        textos(r@) == rutas_pacnew(lineas(salida@)),
{
    let texto = caracteres(salida);
    let ls = lineas_exec(texto.as_slice());
    let ghost vls = vistas(ls@);
    let barra = vec!['/'];
    let pacnew = caracteres(".pacnew");
    let pacsave = caracteres(".pacsave");
    let mut r: Vec<String> = Vec::new();
    let n = ls.len();
    for i in 0..n
        invariant
            n == ls@.len(),
            vls == vistas(ls@),
            vls == lineas(salida@),
            barra@ == seq!['/'],
            pacnew@ == ".pacnew"@,
            pacsave@ == ".pacsave"@,
            textos(r@) == rutas_pacnew(vls.take(i as int)),
    {
        let ghost antes = r@;
        assert(vls.take(i + 1).drop_last() =~= vls.take(i as int));
        assert(vls.take(i + 1).last() == ls@[i as int]@);
        let t = recortar_exec(ls[i].as_slice());
        if empieza_con_exec(t.as_slice(), barra.as_slice()) && (termina_con_exec(
            t.as_slice(),
            pacnew.as_slice(),
        ) || termina_con_exec(t.as_slice(), pacsave.as_slice())) {
            let s = texto_de(t.as_slice());
            r.push(s);
            assert(textos(r@) =~= textos(antes).push(t@));
        }
    }
    assert(vls.take(n as int) =~= vls);
    r
}

// ---------------------------------------------------------------------------
// Laws
// ---------------------------------------------------------------------------

/// A field as the parser leaves it: not empty, with no blank and no escape
/// character in it.
pub open spec fn campo_limpio(s: Seq<char>) -> bool {
    &&& s.len() > 0
    &&& forall|i: int| 0 <= i < s.len() ==> !es_blanco(#[trigger] s[i]) && !es_escape(s[i])
}

proof fn lema_cambio_limpio(l: Seq<char>)
    ensures
        cambio_de_linea(l) matches Some(c) ==> campo_limpio(c.nombre) && campo_limpio(c.vieja)
            && campo_limpio(c.nueva),
{
    let limpia = sin_escapes(l);
    lema_sin_escapes_limpia(false, l);
    let p = |c: char| !es_escape(c);
    assert(cumplen(limpia, p));
    lema_palabras_conservan(p, seq![], limpia);
    let ps = palabras(limpia);
    if ps.len() == 4 {
        assert forall|k: int| 0 <= k < 4 implies campo_limpio(#[trigger] ps[k]) by {
            assert(ps[k].len() > 0);
            assert forall|i: int| 0 <= i < ps[k].len() implies !es_blanco(#[trigger] ps[k][i])
                && !es_escape(ps[k][i]) by {
                assert((|c: char| p(c) && !es_blanco(c))(ps[k][i]));
            }
        }
    }
}

proof fn lema_cambios_limpios(ls: Seq<Seq<char>>)
    ensures
        forall|k: int| 0 <= k < cambios_de_lineas(ls).len() ==> {
            let c = #[trigger] cambios_de_lineas(ls)[k];
            campo_limpio(c.nombre) && campo_limpio(c.vieja) && campo_limpio(c.nueva)
        },
    decreases ls.len(),
{
    if ls.len() > 0 {
        let previos = cambios_de_lineas(ls.drop_last());
        lema_cambios_limpios(ls.drop_last());
        lema_cambio_limpio(ls.last());
        assert forall|k: int| 0 <= k < cambios_de_lineas(ls).len() implies {
            let c = #[trigger] cambios_de_lineas(ls)[k];
            campo_limpio(c.nombre) && campo_limpio(c.vieja) && campo_limpio(c.nueva)
        } by {
            if k < previos.len() {
                assert(cambios_de_lineas(ls)[k] == previos[k]);
            }
        }
    }
}

/// What is read is clean: every update read from an output of
/// `checkupdates` has a name and two versions that are not empty and hold
/// no blank and no escape character, whatever colour codes the output
/// carried.
pub proof fn ley_lo_leido_es_limpio(salida: Seq<char>)
    ensures
        forall|k: int| 0 <= k < actualizaciones(salida).len() ==> {
            let c = #[trigger] actualizaciones(salida)[k];
            campo_limpio(c.nombre) && campo_limpio(c.vieja) && campo_limpio(c.nueva)
        },
{
    lema_cambios_limpios(lineas(salida));
}

proof fn lema_lineas_en_blanco(ls: Seq<Seq<char>>)
    requires
        todos_cumplen(ls, |c: char| es_blanco(c)),
    ensures
        cambios_de_lineas(ls).len() == 0,
    decreases ls.len(),
{
    if ls.len() > 0 {
        let b = |c: char| es_blanco(c);
        let previas = ls.drop_last();
        assert(todos_cumplen(previas, b)) by {
            assert forall|k: int, i: int| 0 <= k < previas.len() && 0 <= i < previas[k].len() implies b(
                #[trigger] previas[k][i],
            ) by {
                assert(previas[k] == ls[k]);
            }
        }
        lema_lineas_en_blanco(previas);
        let l = ls.last();
        assert(cumplen(l, b)) by {
            assert forall|i: int| 0 <= i < l.len() implies b(#[trigger] l[i]) by {
                assert(ls[ls.len() - 1][i] == l[i]);
            }
        }
        lema_sin_escapes_limpia(false, l);
        let limpia = sin_escapes(l);
        assert forall|i: int| 0 <= i < limpia.len() implies es_blanco(#[trigger] limpia[i]) by {
            assert(b(limpia[i]));
        }
        lema_palabras_de_blancos(limpia);
    }
}

/// Nothing in, nothing out: an output of nothing but blanks and line
/// breaks announces no update.
pub proof fn ley_sin_contenido_no_hay_actualizaciones(salida: Seq<char>)
    requires
        forall|i: int| 0 <= i < salida.len() ==> es_blanco(#[trigger] salida[i]),
    ensures
        actualizaciones(salida).len() == 0,
{
    let b = |c: char| es_blanco(c);
    assert(cumplen(salida, b));
    lema_lineas_conservan(b, seq![], salida);
    lema_lineas_en_blanco(lineas(salida));
}

/// Only paths are kept: every entry read from `pacdiff --output` is an
/// absolute path to a `.pacnew` or a `.pacsave` file.
pub proof fn ley_los_pacnew_son_rutas(ls: Seq<Seq<char>>)
    ensures
        forall|k: int| 0 <= k < rutas_pacnew(ls).len() ==> es_ruta_pacnew(#[trigger] rutas_pacnew(ls)[k]),
    decreases ls.len(),
{
    if ls.len() > 0 {
        let previas = rutas_pacnew(ls.drop_last());
        ley_los_pacnew_son_rutas(ls.drop_last());
        assert forall|k: int| 0 <= k < rutas_pacnew(ls).len() implies es_ruta_pacnew(
            #[trigger] rutas_pacnew(ls)[k],
        ) by {
            if k < previas.len() {
                assert(rutas_pacnew(ls)[k] == previas[k]);
            }
        }
    }
}

/// The room asked for in `/boot` is never less than the initramfs it is
/// for, not even when the sum would overflow; it is exactly mkinitcpio's
/// size and a quarter when that fits; and it is zero without a kernel.
pub proof fn ley_el_espacio_no_se_queda_corto(mayor: u64)
    ensures
        espacio_necesario(true, mayor) >= mayor,
        mayor + mayor / 4 <= u64::MAX ==> espacio_necesario(true, mayor) == mayor + mayor / 4,
        espacio_necesario(false, mayor) == 0,
{
}

/// Without a kernel that changes, the verdict asks neither for room in
/// `/boot` nor for a reboot, however many packages are updated.
pub proof fn ley_sin_kernel_no_se_pide_nada(p: Preflight, mayor: u64)
    requires
        p.coherente(),
        p.kernels@.len() == 0,
        p.boot_necesario_bytes == espacio_necesario(p.kernels@.len() > 0, mayor),
    ensures
        p.boot_necesario_bytes == 0,
        p.hay_lugar_con_red,
        !p.pide_reinicio,
{
}

/// The updates of two lists of lines are those of the first list and then
/// those of the second: no line is skipped, wherever it stands.
pub proof fn ley_actualizaciones_de_dos_tramos(a: Seq<Seq<char>>, b: Seq<Seq<char>>)
    ensures
        cambios_de_lineas(a + b) == cambios_de_lineas(a) + cambios_de_lineas(b),
    decreases b.len(),
{
    if b.len() == 0 {
        assert(a + b =~= a);
        assert(cambios_de_lineas(a) + cambios_de_lineas(b) =~= cambios_de_lineas(a));
    } else {
        assert((a + b).drop_last() =~= a + b.drop_last());
        assert((a + b).last() == b.last());
        ley_actualizaciones_de_dos_tramos(a, b.drop_last());
        match cambio_de_linea(b.last()) {
            Some(c) => {
                assert(cambios_de_lineas(a + b) =~= cambios_de_lineas(a) + cambios_de_lineas(b));
            },
            None => {},
        }
    }
}

/// The updates of an output are those of its first part, up to a line
/// break, and then those of the rest.
pub proof fn ley_actualizaciones_de_dos_textos(a: Seq<char>, b: Seq<char>)
    requires
        a.len() == 0 || a.last() == '\n',
    ensures
        actualizaciones(a + b) == actualizaciones(a) + actualizaciones(b),
{
    lema_lineas_de_dos(a, b);
    ley_actualizaciones_de_dos_tramos(lineas(a), lineas(b));
}

/// A file list is a kernel's as soon as any of its lines, wherever it
/// stands, is a kernel image.
pub proof fn ley_el_kernel_en_cualquier_linea(archivos: Seq<char>, i: int)
    requires
        0 <= i < lineas(archivos).len(),
        es_imagen_de_kernel(lineas(archivos)[i]),
    ensures
        es_kernel(archivos),
{
}

/// A file list made of two parts, the first empty or ending a line, is a
/// kernel's exactly when one of the parts is: no line is skipped, however
/// many come before it.
pub proof fn ley_el_kernel_en_dos_tramos(a: Seq<char>, b: Seq<char>)
    requires
        a.len() == 0 || a.last() == '\n',
    ensures
        es_kernel(a + b) == (es_kernel(a) || es_kernel(b)),
{
    lema_lineas_de_dos(a, b);
    let la = lineas(a);
    let lb = lineas(b);
    let l = lineas(a + b);
    assert(l == la + lb);
    if es_kernel(a) {
        let i = choose|i: int| 0 <= i < la.len() && es_imagen_de_kernel(#[trigger] la[i]);
        assert(l[i] == la[i]);
    }
    if es_kernel(b) {
        let i = choose|i: int| 0 <= i < lb.len() && es_imagen_de_kernel(#[trigger] lb[i]);
        assert(l[la.len() + i] == lb[i]);
    }
    if es_kernel(a + b) {
        let i = choose|i: int| 0 <= i < l.len() && es_imagen_de_kernel(#[trigger] l[i]);
        if i < la.len() {
            assert(l[i] == la[i]);
        } else {
            assert(l[i] == lb[i - la.len()]);
        }
    }
}

/// A file list of one line, closed by a line break, is a kernel's exactly
/// when that line is a kernel image.
pub proof fn ley_el_kernel_en_una_linea(l: Seq<char>)
    requires
        forall|i: int| 0 <= i < l.len() ==> l[i] != '\n',
        l.len() == 0 || l.last() != '\r',
    ensures
        es_kernel(l + seq!['\n']) == es_imagen_de_kernel(l),
{
    lema_lineas_primera(seq![], l, Seq::<char>::empty());
    assert(l + seq!['\n'] + Seq::<char>::empty() =~= l + seq!['\n']);
    assert(Seq::<char>::empty() + l =~= l);
    assert(lineas_desde(seq![], Seq::<char>::empty()) =~= Seq::<Seq<char>>::empty());
    assert(sin_cr(l) == l);
    assert(lineas(l + seq!['\n']) =~= seq![l]);
    assert(lineas(l + seq!['\n'])[0] == l);
}

/// The image of every kernel is recognised: the path
/// `usr/lib/modules/<version>/vmlinuz`, for any version that is a single
/// folder with a name, is a kernel image, and so is it with a leading
/// slash.
pub proof fn ley_la_imagen_de_un_kernel(v: Seq<char>)
    requires
        v.len() > 0,
        forall|i: int| 0 <= i < v.len() ==> #[trigger] v[i] != '/',
    ensures
        es_imagen_de_kernel("usr/lib/modules/"@ + v + "/vmlinuz"@),
        es_imagen_de_kernel(seq!['/'] + "usr/lib/modules/"@ + v + "/vmlinuz"@),
{
    reveal_strlit("usr/lib/modules/");
    reveal_strlit("/vmlinuz");
    let p = "usr/lib/modules/"@;
    let q = "/vmlinuz"@;
    let x = p + v + q;
    assert(x[0] == 'u');
    assert(x.last() == 'z');
    assert(!es_blanco(x.last()));
    assert(sin_blancos_al_final(x) == x);
    assert(!es_blanco(x[0]));
    assert(recortar(x) == x);
    assert(sin_finales(x, '/') == x);
    assert(sin_iniciales(x, '/') == x);
    assert(x.take(p.len() as int) =~= p);
    assert(x.skip(x.len() - q.len()) =~= q);
    assert(x.subrange(p.len() as int, x.len() - q.len()) =~= v);
    assert forall|i: int| !aparece_en(v, seq!['/'], i) by {
        if aparece_en(v, seq!['/'], i) {
            assert(v.subrange(i, i + 1)[0] == v[i]);
        }
    }
    assert(ruta_limpia(x) == x);
    let y = seq!['/'] + x;
    assert(y[0] == '/');
    assert(y.last() == 'z');
    assert(!es_blanco(y.last()));
    assert(sin_blancos_al_final(y) == y);
    assert(!es_blanco(y[0]));
    assert(recortar(y) == y);
    assert(sin_finales(y, '/') == y);
    assert(y.drop_first() =~= x);
    assert(sin_iniciales(y, '/') == sin_iniciales(x, '/'));
    assert(seq!['/'] + "usr/lib/modules/"@ + v + "/vmlinuz"@ =~= y);
}

/// The `.pacnew` files of two lists of lines are those of the first list
/// and then those of the second: none is dropped, wherever it stands.
pub proof fn ley_pacnew_de_dos_tramos(a: Seq<Seq<char>>, b: Seq<Seq<char>>)
    ensures
        rutas_pacnew(a + b) == rutas_pacnew(a) + rutas_pacnew(b),
    decreases b.len(),
{
    if b.len() == 0 {
        assert(a + b =~= a);
        assert(rutas_pacnew(a) + rutas_pacnew(b) =~= rutas_pacnew(a));
    } else {
        assert((a + b).drop_last() =~= a + b.drop_last());
        assert((a + b).last() == b.last());
        ley_pacnew_de_dos_tramos(a, b.drop_last());
        if es_ruta_pacnew(recortar(b.last())) {
            assert(rutas_pacnew(a + b) =~= rutas_pacnew(a) + rutas_pacnew(b));
        }
    }
}

/// One line of `pacdiff --output` gives its trimmed text exactly when that
/// text is an absolute path ending in `.pacnew` or `.pacsave`, and nothing
/// otherwise.
pub proof fn ley_pacnew_de_una_linea(l: Seq<char>)
    ensures
        rutas_pacnew(seq![l]) == (if recortar(l).len() > 0 && recortar(l)[0] == '/' && (termina_con(
            recortar(l),
            ".pacnew"@,
        ) || termina_con(recortar(l), ".pacsave"@)) {
            seq![recortar(l)]
        } else {
            Seq::<Seq<char>>::empty()
        }),
{
    let t = recortar(l);
    assert(seq![l].drop_last() =~= Seq::<Seq<char>>::empty());
    assert(rutas_pacnew(Seq::<Seq<char>>::empty()) =~= Seq::<Seq<char>>::empty());
    assert(empieza_con(t, seq!['/']) <==> (t.len() > 0 && t[0] == '/')) by {
        if t.len() > 0 && t[0] == '/' {
            assert(t.take(1) =~= seq!['/']);
        }
        if empieza_con(t, seq!['/']) {
            assert(t.take(1)[0] == t[0]);
        }
    }
    assert(Seq::<Seq<char>>::empty().push(t) =~= seq![t]);
}

/// No `.pacnew` file is dropped: every line whose trimmed text is an
/// absolute path ending in `.pacnew` or `.pacsave` is in the result, and
/// the result has one entry per such line, in their order.
pub proof fn ley_ningun_pacnew_se_pierde(ls: Seq<Seq<char>>, k: int)
    requires
        0 <= k < ls.len(),
        recortar(ls[k]).len() > 0,
        recortar(ls[k])[0] == '/',
        termina_con(recortar(ls[k]), ".pacnew"@) || termina_con(recortar(ls[k]), ".pacsave"@),
    ensures
        rutas_pacnew(ls) == rutas_pacnew(ls.take(k)) + seq![recortar(ls[k])] + rutas_pacnew(
            ls.skip(k + 1),
        ),
        rutas_pacnew(ls).contains(recortar(ls[k])),
{
    assert(ls =~= ls.take(k) + seq![ls[k]] + ls.skip(k + 1));
    ley_pacnew_de_dos_tramos(ls.take(k) + seq![ls[k]], ls.skip(k + 1));
    ley_pacnew_de_dos_tramos(ls.take(k), seq![ls[k]]);
    ley_pacnew_de_una_linea(ls[k]);
    let r = rutas_pacnew(ls);
    let i = rutas_pacnew(ls.take(k)).len();
    assert(r[i as int] == recortar(ls[k]));
}

/// The `.pacnew` files of an output are those of its first part, up to a
/// line break, and then those of the rest.
pub proof fn ley_pacnew_de_dos_textos(a: Seq<char>, b: Seq<char>)
    requires
        a.len() == 0 || a.last() == '\n',
    ensures
        rutas_pacnew(lineas(a + b)) == rutas_pacnew(lineas(a)) + rutas_pacnew(lineas(b)),
{
    lema_lineas_de_dos(a, b);
    ley_pacnew_de_dos_tramos(lineas(a), lineas(b));
}

/// Every initramfs that mkinitcpio writes to `/boot`, `initramfs-` and a
/// kernel's name (its fallback image included) and then `.img`, is weighed
/// when looking for the largest one.
pub proof fn ley_todo_initramfs_cuenta(kernel: Seq<char>)
    ensures
        es_initramfs("initramfs-"@ + kernel + ".img"@),
{
    reveal_strlit("initramfs-");
    reveal_strlit(".img");
    let n = "initramfs-"@ + kernel + ".img"@;
    assert(n.take(10) =~= "initramfs-"@);
    assert(n.skip(n.len() - 4) =~= ".img"@);
}

} // verus!
