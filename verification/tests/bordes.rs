use vasak_update::analisis::{
    es_paquete_de_kernel, espacio_necesario_en_boot, mayor_initramfs, parsear_actualizaciones,
    parsear_pacnew,
};
use vasak_update::aviso::{decidir, huella, Decision, Recuerdo};
use vasak_update::fallos::{clasificar, Fallo};

#[test]
fn las_lineas_con_retorno_de_carro_y_tabuladores_se_leen() {
    let a = parsear_actualizaciones("linux\t7.2.3-1  ->\u{a0}7.2.4-1\r\npacman 1 -> 2");
    assert_eq!(a.len(), 2, "{a:?}");
    assert_eq!(a[0].version_nueva, "7.2.4-1");
    assert_eq!(a[1].nombre, "pacman");
    assert_eq!(a[1].version_nueva, "2");
}

#[test]
fn un_escape_sin_cierre_se_come_el_resto() {
    // The sequence runs to the first ASCII letter, wherever it is.
    let a = parsear_actualizaciones("\u{1b}[1;32 linux 1 -> 2\n");
    assert_eq!(a[0].nombre, "inux");
    let a = parsear_actualizaciones("\u{1b}[0mlinux 1 -> 2\u{1b}[0m\n");
    assert_eq!(a[0].nombre, "linux");
    assert_eq!(a[0].version_nueva, "2");
}

#[test]
fn los_campos_leidos_no_tienen_blancos_ni_escapes() {
    let a = parsear_actualizaciones("\u{1b}[1ma\u{1b}[0m b -> c\nx y -> z\n");
    for u in &a {
        for campo in [&u.nombre, &u.version_vieja, &u.version_nueva] {
            assert!(!campo.is_empty());
            assert!(!campo.contains('\u{1b}'));
            assert!(!campo.contains(char::is_whitespace));
        }
    }
    assert_eq!(a.len(), 2);
}

#[test]
fn solo_blancos_no_son_actualizaciones() {
    assert!(parsear_actualizaciones(" \t\r\n\u{3000}\n").is_empty());
}

#[test]
fn un_kernel_con_barras_de_sobra_tambien() {
    assert!(es_paquete_de_kernel("  /usr/lib/modules/6.1.0/vmlinuz/  \n"));
    assert!(es_paquete_de_kernel("//usr/lib/modules/6.1.0/vmlinuz\r\n"));
    assert!(!es_paquete_de_kernel("usr/lib/modules/6.1.0/vmlinuz-old\n"));
}

#[test]
fn la_imagen_va_dentro_de_una_version() {
    assert!(!es_paquete_de_kernel("usr/lib/modules/vmlinuz\n"));
    assert!(!es_paquete_de_kernel("/usr/lib/modules/vmlinuz/\n"));
    assert!(!es_paquete_de_kernel("usr/lib/modules//vmlinuz\n"));
    assert!(!es_paquete_de_kernel("usr/lib/modules/6.1.0/extra/vmlinuz\n"));
    assert!(es_paquete_de_kernel("usr/lib/modules/6.1.0/vmlinuz\n"));
    assert!(es_paquete_de_kernel("usr/lib/modules/x/vmlinuz\n"));
}

#[test]
fn los_pacnew_se_recortan() {
    assert_eq!(
        parsear_pacnew("  /etc/a.pacnew  \n\t/etc/b.pacsave\r\n/etc/c.pacorig\netc/d.pacnew\n"),
        ["/etc/a.pacnew", "/etc/b.pacsave"]
    );
    assert!(parsear_pacnew("").is_empty());
}

#[test]
fn el_mayor_ignora_lo_que_no_es_initramfs() {
    let archivos: Vec<(String, u64)> = vec![
        ("initramfs-a.img".into(), 7),
        ("initramfs-b.img.bak".into(), 100),
        ("xinitramfs-c.img".into(), 100),
        ("initramfs-d.img".into(), 9),
    ];
    assert_eq!(mayor_initramfs(&archivos), Some(9));
}

#[test]
fn el_espacio_cuenta_un_cuarto_mas() {
    assert_eq!(espacio_necesario_en_boot(true, 4), 5);
    assert_eq!(espacio_necesario_en_boot(true, 3), 3);
    assert_eq!(espacio_necesario_en_boot(true, u64::MAX - 1), u64::MAX);
}

#[test]
fn la_huella_es_fnv_en_hexadecimal() {
    assert_eq!(huella(&[]), "cbf29ce484222325");
    assert_eq!(huella(&["".into()]), "af7e384c8602eb6e");
    assert_eq!(huella(&["pacman 1 -> 2".into()]), "0bd311753916b1e8");
    assert_eq!(huella(&["dos".into(), "uno".into()]), "a3c71c3e8f7a70cb");
    // Sorted by bytes, so `z` before `ñ`.
    assert_eq!(huella(&["ñ".into(), "z".into()]), "7a62cdb1a661d53f");
    assert_eq!(huella(&["z".into(), "ñ".into()]), "7a62cdb1a661d53f");
}

#[test]
fn la_huella_repetida_cuenta() {
    assert_ne!(huella(&["a".into()]), huella(&["a".into(), "a".into()]));
}

#[test]
fn cada_decision_dice_si_avisa() {
    assert!(!Decision::NadaQueAvisar.avisa());
    assert!(!Decision::YaAvisado.avisa());
    assert!(Decision::HayNovedades.avisa());
    assert!(Decision::CambiaElKernel.avisa());
    assert!(Decision::HaceMucho.avisa());
}

#[test]
fn el_kernel_no_cuenta_si_el_conjunto_es_nuevo() {
    let r = Recuerdo {
        huella: "otra".into(),
        cuando: 0,
    };
    assert_eq!(decidir(1, true, "esta", &r, 10), Decision::HayNovedades);
}

#[test]
fn la_semana_justa_ya_insiste() {
    let r = Recuerdo {
        huella: "h".into(),
        cuando: 1000,
    };
    assert_eq!(decidir(1, false, "h", &r, 1000 + 604_799), Decision::YaAvisado);
    assert_eq!(decidir(1, false, "h", &r, 1000 + 604_800), Decision::HaceMucho);
}

#[test]
fn cada_fallo_se_reconoce() {
    assert_eq!(clasificar("error: COULD NOT RESOLVE HOST: x"), Fallo::SinRed);
    assert_eq!(clasificar("Network is unreachable"), Fallo::SinRed);
    assert_eq!(clasificar("error: key \"ABC\" is unknown"), Fallo::Firma);
    assert_eq!(clasificar("error: keyring is not writable"), Fallo::Firma);
    assert_eq!(clasificar("error: could not lock: /var/lib/pacman/db.lck"), Fallo::Candado);
    assert_eq!(clasificar("error: not enough free disk space"), Fallo::SinEspacio);
    assert_eq!(clasificar("error: failed retrieving file 'x'"), Fallo::Espejo);
    assert_eq!(
        clasificar("warning: una\nwarning: dos\n"),
        Fallo::Desconocido("warning: dos".into())
    );
    assert_eq!(
        clasificar("  error: primero  \nerror: segundo"),
        Fallo::Desconocido("error: primero".into())
    );
}

#[test]
fn una_clave_desconocida_es_de_firma() {
    assert_eq!(
        clasificar("error: linux: key \"ABCD1234\" is unknown"),
        Fallo::Firma
    );
    assert_eq!(
        clasificar("error: KEY 0123 IS UNKNOWN"),
        Fallo::Firma
    );
    // The two halves have to be on the same line, and in that order.
    assert_eq!(
        clasificar("error: key 0123\nerror: is unknown"),
        Fallo::Desconocido("error: key 0123".into())
    );
    assert_eq!(
        clasificar("error: is unknown key"),
        Fallo::Desconocido("error: is unknown key".into())
    );
}

#[test]
fn el_texto_desconocido_se_corta_en_doscientos() {
    let largo = format!("error: {}", "ñ".repeat(300));
    match clasificar(&largo) {
        Fallo::Desconocido(texto) => {
            assert_eq!(texto.chars().count(), 200);
            assert!(texto.starts_with("error: ñ"));
        }
        otro => panic!("{otro:?}"),
    }
}

#[test]
fn cada_fallo_tiene_su_explicacion_y_su_arreglo() {
    let todos = [
        Fallo::SinRed,
        Fallo::Firma,
        Fallo::Espejo,
        Fallo::Candado,
        Fallo::SinEspacio,
        Fallo::Desconocido("x".into()),
    ];
    for f in &todos {
        assert!(!f.explicacion().is_empty());
        assert_eq!(f.pide_accion(), *f != Fallo::SinRed);
    }
    assert_eq!(
        Fallo::SinRed.explicacion(),
        "No se pudo comprobar porque no hay conexión."
    );
    assert_eq!(Fallo::SinRed.arreglo(), None);
    assert_eq!(
        Fallo::Firma.arreglo(),
        Some("sudo pacman -Sy archlinux-keyring vasakos-keyring")
    );
    assert_eq!(Fallo::Espejo.arreglo(), Some("sudo pacman -Syy"));
    assert_eq!(Fallo::SinEspacio.arreglo(), None);
}
