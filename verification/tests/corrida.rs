use vasak_update::analisis::{parsear_actualizaciones, Actualizacion};
use vasak_update::aviso::{huella, Recuerdo};
use vasak_update::corrida::{
    linea_de_actualizacion, lineas_de, siguiente_paso, titulo_del_aviso, Corrida, Paso,
};
use vasak_update::sistema::{recuerdo_desde_texto, texto_del_recuerdo};

const AHORA: u64 = 1_800_000_000;

fn pendientes() -> Vec<Actualizacion> {
    parsear_actualizaciones("linux 7.2.3-1 -> 7.2.4-1\npacman 7.0.0-8 -> 7.0.0-9\n")
}

#[test]
fn una_linea_por_actualizacion() {
    let p = pendientes();
    assert_eq!(linea_de_actualizacion(&p[0]), "linux 7.2.3-1 -> 7.2.4-1");
    assert_eq!(
        lineas_de(&p),
        vec![
            "linux 7.2.3-1 -> 7.2.4-1".to_string(),
            "pacman 7.0.0-8 -> 7.0.0-9".to_string()
        ]
    );
    assert!(lineas_de(&[]).is_empty());
}

#[test]
fn lo_listado_se_vuelve_a_leer() {
    let p = parsear_actualizaciones(
        "linux 7.2.3-1 -> 7.2.4-1\nlinux-firmware 20260810-1 -> 20260912-1\namd-ucode 1:2-3 -> 1:2-4\n",
    );
    assert_eq!(p.len(), 3);
    let mut listado = String::new();
    for a in &p {
        listado.push_str(&linea_de_actualizacion(a));
        listado.push('\n');
    }
    assert_eq!(parsear_actualizaciones(&listado), p);
    assert!(parsear_actualizaciones("").is_empty());
}

#[test]
fn el_titulo_cuenta_bien() {
    assert_eq!(titulo_del_aviso(1), "Hay 1 actualización");
    assert_eq!(titulo_del_aviso(3), "Hay 3 actualizaciones");
    assert_eq!(titulo_del_aviso(120), "Hay 120 actualizaciones");
}

fn corrida(pendientes: Vec<Actualizacion>, memoria: Option<(Recuerdo, u64)>) -> Corrida {
    let mut c = Corrida::nueva(pendientes);
    c.memoria = memoria;
    c
}

#[test]
fn sin_pendientes_la_corrida_termina_sin_leer_nada() {
    assert!(matches!(
        siguiente_paso(&Corrida::nueva(Vec::new())),
        Paso::Terminar
    ));
}

#[test]
fn con_pendientes_primero_se_lee_el_recuerdo() {
    assert!(matches!(
        siguiente_paso(&Corrida::nueva(pendientes())),
        Paso::LeerRecuerdo
    ));
}

#[test]
fn la_primera_vez_se_avisa_se_anota_y_se_espera() {
    let p = pendientes();
    let mut c = corrida(p.clone(), Some((Recuerdo::default(), AHORA)));
    match siguiente_paso(&c) {
        Paso::MostrarAviso(aviso) => {
            assert_eq!(aviso.titulo, "Hay 2 actualizaciones");
            assert_eq!(aviso.cuerpo, "Mirá qué cambia antes de aplicarlas.");
            assert_eq!(aviso.boton, "Ver");
        }
        _ => panic!("se esperaba mostrar el aviso"),
    }
    c.mostrado = true;
    match siguiente_paso(&c) {
        Paso::Anotar(r) => {
            assert_eq!(r.huella, huella(&lineas_de(&p)));
            assert_eq!(r.cuando, AHORA);
        }
        _ => panic!("se esperaba anotar"),
    }
    c.anotado = true;
    assert!(matches!(siguiente_paso(&c), Paso::EsperarBoton));
}

#[test]
fn el_mismo_conjunto_pregunta_por_el_kernel() {
    let p = pendientes();
    let r = Recuerdo {
        huella: huella(&lineas_de(&p)),
        cuando: AHORA - 100,
    };
    let mut c = corrida(p, Some((r, AHORA)));
    assert!(matches!(siguiente_paso(&c), Paso::ConsultarKernels));
    c.kernels = Some(Vec::new());
    assert!(matches!(siguiente_paso(&c), Paso::Terminar));
    c.kernels = Some(vec!["linux".to_string()]);
    assert!(matches!(siguiente_paso(&c), Paso::MostrarAviso(_)));
}

#[test]
fn lo_avisado_no_se_repite_al_dia_siguiente() {
    let p = pendientes();
    let mut c = corrida(p.clone(), Some((Recuerdo::default(), AHORA)));
    c.mostrado = true;
    let anotado = match siguiente_paso(&c) {
        Paso::Anotar(r) => r,
        _ => panic!("se esperaba anotar"),
    };
    let leido = recuerdo_desde_texto(&texto_del_recuerdo(&anotado));
    assert_eq!(leido, anotado);
    let manana = AHORA + 86_400;
    let mut otra = corrida(p.clone(), Some((leido.clone(), manana)));
    assert!(matches!(siguiente_paso(&otra), Paso::ConsultarKernels));
    otra.kernels = Some(Vec::new());
    assert!(matches!(siguiente_paso(&otra), Paso::Terminar));
    // A week later it is brought up again.
    let mut semana = corrida(p, Some((leido, AHORA + 7 * 86_400)));
    semana.kernels = Some(Vec::new());
    assert!(matches!(siguiente_paso(&semana), Paso::MostrarAviso(_)));
}
