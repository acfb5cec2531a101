use vasak_update::fallos::{clasificar, Fallo};

#[test]
fn sin_red_gana_sobre_el_espejo() {
    let salida = "\
error: failed retrieving file 'core.db' from mirror.example.org : Could not resolve host: mirror.example.org
error: failed to synchronize all databases (unexpected error)";
    assert_eq!(clasificar(salida), Fallo::SinRed);
    assert!(
        !clasificar(salida).pide_accion(),
        "un corte de red no merece un cartel"
    );
}

#[test]
fn una_clave_vencida_trae_su_arreglo() {
    let salida = "\
error: core: signature from \"Arch Linux <pierre@archlinux.de>\" is unknown trust
error: failed to update core (invalid or corrupted database (PGP signature))";
    let f = clasificar(salida);
    assert_eq!(f, Fallo::Firma);
    assert!(f.pide_accion());
    assert!(f.arreglo().unwrap().contains("keyring"));
}

#[test]
fn el_candado_se_reconoce_y_no_se_toca() {
    let salida = "error: unable to lock database\nerror: failed to init transaction (unable to lock database)";
    assert_eq!(clasificar(salida), Fallo::Candado);
    assert_eq!(
        Fallo::Candado.arreglo(),
        Some("sudo rm /var/lib/pacman/db.lck")
    );
}

#[test]
fn el_espejo_y_el_espacio() {
    assert_eq!(
        clasificar("error: failed retrieving file 'extra.db' from mirror : The requested URL returned error: 404"),
        Fallo::Espejo
    );
    assert_eq!(
        clasificar("error: Partition /var too full: 12 blocks needed, 3 blocks free\nno space left on device"),
        Fallo::SinEspacio
    );
}

#[test]
fn lo_desconocido_se_dice_tal_cual() {
    let salida = "warning: config file /etc/pacman.conf, line 5: directive 'Foo' not recognized.\nerror: algo rarísimo pasó acá";
    match clasificar(salida) {
        Fallo::Desconocido(texto) => {
            assert!(texto.contains("algo rarísimo"), "{texto}");
            assert!(
                !texto.contains("warning"),
                "se quedó con el aviso y no con el error: {texto}"
            );
        }
        otro => panic!("se esperaba Desconocido y salió {otro:?}"),
    }
    assert_eq!(Fallo::Desconocido(String::new()).arreglo(), None);
}

#[test]
fn un_texto_vacio_no_rompe() {
    assert_eq!(clasificar(""), Fallo::Desconocido(String::new()));
    assert_eq!(clasificar("\n\n   \n"), Fallo::Desconocido(String::new()));
}

#[test]
fn el_texto_desconocido_esta_acotado() {
    let largo = format!("error: {}", "x".repeat(5000));
    match clasificar(&largo) {
        Fallo::Desconocido(texto) => assert!(texto.chars().count() <= 200, "{}", texto.len()),
        otro => panic!("{otro:?}"),
    }
}
