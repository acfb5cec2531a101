use vasak_update::aviso::{decidir, huella, Decision, Recuerdo};

const SEGUNDOS_POR_DIA: u64 = 86_400;

fn recuerdo(huella: &str, hace_dias: u64, ahora: u64) -> Recuerdo {
    Recuerdo {
        huella: huella.into(),
        cuando: ahora - hace_dias * SEGUNDOS_POR_DIA,
    }
}

const AHORA: u64 = 1_800_000_000;

#[test]
fn lo_mismo_de_ayer_no_se_repite() {
    let h = huella(&["pacman 7.0.0-8 -> 7.0.0-9".into()]);
    let r = recuerdo(&h, 1, AHORA);
    assert_eq!(decidir(1, false, &h, &r, AHORA), Decision::YaAvisado);
    assert!(!decidir(1, false, &h, &r, AHORA).avisa());
}

#[test]
fn un_paquete_nuevo_vuelve_a_avisar() {
    let ayer = huella(&["pacman 7.0.0-8 -> 7.0.0-9".into()]);
    let hoy = huella(&["pacman 7.0.0-8 -> 7.0.0-9".into(), "firefox 1 -> 2".into()]);
    let r = recuerdo(&ayer, 1, AHORA);
    assert_eq!(decidir(2, false, &hoy, &r, AHORA), Decision::HayNovedades);
}

#[test]
fn el_kernel_insiste() {
    let h = huella(&["linux 7.2.3-1 -> 7.2.4-1".into()]);
    let r = recuerdo(&h, 1, AHORA);
    assert_eq!(decidir(1, true, &h, &r, AHORA), Decision::CambiaElKernel);
    assert!(decidir(1, true, &h, &r, AHORA).avisa());
}

#[test]
fn despues_de_una_semana_se_vuelve_a_insistir() {
    let h = huella(&["pacman 1 -> 2".into()]);
    assert_eq!(
        decidir(1, false, &h, &recuerdo(&h, 6, AHORA), AHORA),
        Decision::YaAvisado
    );
    assert_eq!(
        decidir(1, false, &h, &recuerdo(&h, 7, AHORA), AHORA),
        Decision::HaceMucho
    );
}

#[test]
fn sin_actualizaciones_no_se_avisa() {
    let r = Recuerdo::default();
    assert_eq!(
        decidir(0, true, "loquesea", &r, AHORA),
        Decision::NadaQueAvisar
    );
    assert!(!decidir(0, true, "loquesea", &r, AHORA).avisa());
}

#[test]
fn la_primera_vez_se_avisa() {
    let h = huella(&["pacman 1 -> 2".into()]);
    assert_eq!(
        decidir(1, false, &h, &Recuerdo::default(), AHORA),
        Decision::HayNovedades
    );
}

#[test]
fn la_huella_ignora_el_orden_pero_no_los_bordes() {
    let a: Vec<String> = vec!["uno".into(), "dos".into()];
    let b: Vec<String> = vec!["dos".into(), "uno".into()];
    assert_eq!(huella(&a), huella(&b));

    assert_ne!(
        huella(&["ab".into(), "c".into()]),
        huella(&["a".into(), "bc".into()])
    );
    assert_ne!(huella(&[]), huella(&["".into()]));
}

#[test]
fn un_reloj_atrasado_no_hace_avisar() {
    let h = huella(&["pacman 1 -> 2".into()]);
    let del_futuro = Recuerdo {
        huella: h.clone(),
        cuando: AHORA + 1_000_000,
    };
    assert_eq!(
        decidir(1, false, &h, &del_futuro, AHORA),
        Decision::YaAvisado
    );
}
