use vasak_update::analisis::{
    es_paquete_de_kernel, espacio_necesario_en_boot, mayor_initramfs, parsear_actualizaciones,
    parsear_pacnew, Preflight,
};

/// The output of `checkupdates` as it comes, with the three forms that
/// appear: a version change, a `pkgrel` change and one with an epoch.
const SALIDA: &str = "\
linux-cachyos 7.2.3-1 -> 7.2.4-1
pacman 7.0.0-8 -> 7.0.0-9
amd-ucode 1:20260810-2 -> 1:20260912-1
";

#[test]
fn se_leen_las_actualizaciones() {
    let a = parsear_actualizaciones(SALIDA);
    assert_eq!(a.len(), 3);
    assert_eq!(a[0].nombre, "linux-cachyos");
    assert_eq!(a[0].version_vieja, "7.2.3-1");
    assert_eq!(a[0].version_nueva, "7.2.4-1");
    // The epoch stays attached to the version.
    assert_eq!(a[2].version_vieja, "1:20260810-2");
}

#[test]
fn una_salida_vacia_no_inventa_nada() {
    assert!(parsear_actualizaciones("").is_empty());
    assert!(parsear_actualizaciones("\n\n  \n").is_empty());
}

#[test]
fn lo_que_no_es_una_actualizacion_se_descarta() {
    let raro = "\
:: Sincronizando la base de datos de paquetes...
warning: config file /etc/pacman.conf, line 5: directive 'Foo' in section 'options' not recognized.
foo 1.0 => 2.0
sin flecha 1.0 2.0
demasiadas 1.0 -> 2.0 palabras
paquete 1.0 -> 2.0
";
    let a = parsear_actualizaciones(raro);
    assert_eq!(a.len(), 1, "{a:?}");
    assert_eq!(a[0].nombre, "paquete");
}

#[test]
fn los_codigos_de_color_no_se_cuelan() {
    let coloreada = "\u{1b}[1mlinux\u{1b}[0m 7.2.3-1 -> \u{1b}[1;32m7.2.4-1\u{1b}[0m\n";
    let a = parsear_actualizaciones(coloreada);
    assert_eq!(a.len(), 1, "{a:?}");
    assert_eq!(a[0].nombre, "linux");
    assert_eq!(a[0].version_nueva, "7.2.4-1");
}

#[test]
fn un_kernel_se_reconoce_por_donde_pone_su_imagen() {
    let kernel = "\
usr/lib/modules/7.2.3-1-cachyos/
usr/lib/modules/7.2.3-1-cachyos/vmlinuz
usr/lib/modules/7.2.3-1-cachyos/pkgbase
";
    assert!(es_paquete_de_kernel(kernel));

    let firmware = "\
usr/lib/firmware/
usr/lib/firmware/amdgpu/
usr/lib/firmware/amdgpu/aldebaran_sos.bin
";
    assert!(!es_paquete_de_kernel(firmware));

    assert!(!es_paquete_de_kernel("usr/share/doc/foo/vmlinuz.txt\n"));
    assert!(!es_paquete_de_kernel("usr/bin/vmlinuz-tool\n"));
    assert!(!es_paquete_de_kernel(""));

    assert!(!es_paquete_de_kernel("usr/share/ejemplo/vmlinuz\n"));
    assert!(!es_paquete_de_kernel("opt/loquesea/vmlinuz\n"));
    assert!(es_paquete_de_kernel("/usr/lib/modules/6.1.0/vmlinuz\n"));
}

#[test]
fn el_pico_lo_marca_el_initramfs_mas_grande() {
    let mib = 1024 * 1024;
    let archivos: Vec<(String, u64)> = vec![
        ("vmlinuz-linux".into(), 20 * mib),
        ("initramfs-linux.img".into(), 80 * mib),
        ("initramfs-linux-fallback.img".into(), 500 * mib),
        ("vmlinuz-linux-lts".into(), 20 * mib),
        ("initramfs-linux-lts-fallback.img".into(), 120 * mib),
        ("intel-ucode.img".into(), 5 * mib),
        ("grub".into(), 900 * mib),
    ];
    assert_eq!(mayor_initramfs(&archivos), Some(500 * mib));
}

#[test]
fn un_boot_ilegible_no_da_cero() {
    assert_eq!(mayor_initramfs(&[]), None);
    assert_eq!(
        mayor_initramfs(&[("grub".into(), 900), ("vmlinuz-linux".into(), 100)]),
        None,
        "un vmlinuz no es un initramfs"
    );
    assert_eq!(mayor_initramfs(&[("initramfs-linux.img".into(), 0)]), None);
}

#[test]
fn se_leen_los_pacnew() {
    let salida = "\
==> WARNING: no merge program found
/etc/pacman.conf.pacnew
/etc/ssh/sshd_config.pacnew
/etc/locale.gen.pacsave
esto no es una ruta
/etc/algo.conf
";
    let p = parsear_pacnew(salida);
    assert_eq!(
        p,
        [
            "/etc/pacman.conf.pacnew",
            "/etc/ssh/sshd_config.pacnew",
            "/etc/locale.gen.pacsave"
        ]
    );
}

#[test]
fn el_veredicto_dice_lo_que_frena_y_lo_que_avisa() {
    let necesario = espacio_necesario_en_boot(true, 240 * 1024 * 1024);
    assert_eq!(necesario, 300 * 1024 * 1024);

    let con = |disponible| {
        Preflight::nuevo(
            40,
            vec!["linux".into()],
            vec!["/etc/pacman.conf.pacnew".into()],
            disponible,
            necesario,
        )
    };

    assert!(con(400 * 1024 * 1024).hay_lugar_con_red);
    assert!(con(necesario).hay_lugar_con_red);
    assert!(!con(necesario - 1).hay_lugar_con_red);
    assert!(con(necesario).pide_reinicio);

    let sin_kernel = Preflight::nuevo(
        40,
        Vec::new(),
        Vec::new(),
        0,
        espacio_necesario_en_boot(false, 240 * 1024 * 1024),
    );
    assert!(!sin_kernel.pide_reinicio);
    assert_eq!(sin_kernel.boot_necesario_bytes, 0);
    assert!(
        sin_kernel.hay_lugar_con_red,
        "sin kernel no hay nada que escribir"
    );
}

#[test]
fn el_espacio_que_se_pide_es_el_de_mkinitcpio() {
    let mib = 1024 * 1024;
    assert_eq!(espacio_necesario_en_boot(false, 240 * mib), 0);
    assert_eq!(espacio_necesario_en_boot(true, 240 * mib), 300 * mib);
    assert_eq!(espacio_necesario_en_boot(true, 0), 0);
    assert_eq!(espacio_necesario_en_boot(true, u64::MAX), u64::MAX);
}
