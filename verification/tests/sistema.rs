use vasak_update::analisis::{parsear_actualizaciones, Preflight};
use vasak_update::aviso::{huella, Recuerdo};
use vasak_update::sistema::{
    el_mayor_initramfs, kernels_entre, libre_en_boot, pidio_abrir, preflight,
    recuerdo_desde_texto, texto_del_recuerdo, ESTIMACION_INITRAMFS,
};

#[test]
fn el_recuerdo_se_escribe_en_dos_lineas() {
    let r = Recuerdo {
        huella: "0123456789abcdef".into(),
        cuando: 1_800_000_000,
    };
    assert_eq!(texto_del_recuerdo(&r), "0123456789abcdef\n1800000000\n");
    assert_eq!(
        texto_del_recuerdo(&Recuerdo::default()),
        "\n0\n"
    );
}

#[test]
fn lo_escrito_se_lee() {
    for cuando in [0, 7, 1_800_000_000, u64::MAX] {
        let r = Recuerdo {
            huella: huella(&["pacman 1 -> 2".into()]),
            cuando,
        };
        assert_eq!(recuerdo_desde_texto(&texto_del_recuerdo(&r)), r);
    }
    assert_eq!(
        recuerdo_desde_texto(&texto_del_recuerdo(&Recuerdo::default())),
        Recuerdo::default()
    );
}

#[test]
fn un_recuerdo_ilegible_es_nunca() {
    assert_eq!(recuerdo_desde_texto(""), Recuerdo::default());
    let r = recuerdo_desde_texto("  abc  \r\nno es un número\n");
    assert_eq!(r.huella, "abc");
    assert_eq!(r.cuando, 0);
    assert_eq!(recuerdo_desde_texto("abc\n+42\n").cuando, 42);
    assert_eq!(recuerdo_desde_texto("abc\n-42\n").cuando, 0);
    assert_eq!(recuerdo_desde_texto("abc\n+\n").cuando, 0);
    assert_eq!(
        recuerdo_desde_texto("abc\n18446744073709551616\n").cuando,
        0,
        "no entra en un u64"
    );
    assert_eq!(
        recuerdo_desde_texto("abc\n18446744073709551615\n").cuando,
        u64::MAX
    );
}

#[test]
fn el_libre_sale_de_la_segunda_linea_de_df() {
    assert_eq!(libre_en_boot("   Avail\n 734003200\n"), 734_003_200);
    assert_eq!(libre_en_boot("Avail\n"), 0);
    assert_eq!(libre_en_boot(""), 0);
    assert_eq!(libre_en_boot("Avail\nmucho\n"), 0);
}

#[test]
fn sin_listado_de_boot_se_estima() {
    assert_eq!(ESTIMACION_INITRAMFS, 200 * 1024 * 1024);
    assert_eq!(el_mayor_initramfs(&None), ESTIMACION_INITRAMFS);
    assert_eq!(el_mayor_initramfs(&Some(Vec::new())), ESTIMACION_INITRAMFS);
    assert_eq!(
        el_mayor_initramfs(&Some(vec![("initramfs-linux.img".into(), 0)])),
        ESTIMACION_INITRAMFS
    );
    assert_eq!(
        el_mayor_initramfs(&Some(vec![
            ("initramfs-linux.img".into(), 80),
            ("initramfs-linux-fallback.img".into(), 120)
        ])),
        120
    );
}

#[test]
fn los_kernels_se_reconocen_por_sus_archivos() {
    let consultas = vec![
        (
            "linux-cachyos-bore".to_string(),
            "usr/lib/modules/7.2.3-1-cachyos-bore/vmlinuz\n".to_string(),
        ),
        (
            "linux-firmware".to_string(),
            "usr/lib/firmware/amdgpu/aldebaran_sos.bin\n".to_string(),
        ),
        ("pacman".to_string(), "usr/bin/pacman\n".to_string()),
    ];
    assert_eq!(kernels_entre(&consultas), vec!["linux-cachyos-bore".to_string()]);
    assert!(kernels_entre(&[]).is_empty());
}

#[test]
fn el_preflight_junta_todo() {
    let pendientes =
        parsear_actualizaciones("linux 7.2.3-1 -> 7.2.4-1\npacman 7.0.0-8 -> 7.0.0-9\n");
    let consultas = vec![
        ("linux".to_string(), "usr/lib/modules/7.2.4-arch1-1/vmlinuz\n".to_string()),
        ("pacman".to_string(), "usr/bin/pacman\n".to_string()),
    ];
    let mib = 1024 * 1024;
    let boot = Some(vec![("initramfs-linux-fallback.img".to_string(), 240 * mib)]);
    let p = preflight(
        &pendientes,
        &consultas,
        &boot,
        "/etc/pacman.conf.pacnew\n",
        "Avail\n314572800\n",
    );
    assert_eq!(
        p,
        Preflight::nuevo(
            2,
            vec!["linux".into()],
            vec!["/etc/pacman.conf.pacnew".into()],
            300 * mib,
            300 * mib
        )
    );
    assert!(p.hay_lugar_con_red);
    assert!(p.pide_reinicio);

    let sin_kernel = preflight(&pendientes, &consultas[1..], &None, "", "Avail\n0\n");
    assert_eq!(sin_kernel.boot_necesario_bytes, 0);
    assert!(sin_kernel.hay_lugar_con_red);
    assert!(!sin_kernel.pide_reinicio);
}

#[test]
fn el_boton_se_reconoce() {
    assert!(pidio_abrir("abrir\n"));
    assert!(!pidio_abrir(""));
    assert!(!pidio_abrir("abrirla\n"));
}
