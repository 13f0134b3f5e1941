//! Tests of how the menu reads the user's answers.

use gestor_det::menu::{
    arg_valor, interpretar_acao, interpretar_card, interpretar_release, limite_mb, marca_status,
    nome_release, resposta_ou_default, resposta_sn, ErroRelease, OpcaoCard, OpcaoRelease,
};

#[test]
fn sim_ou_nao() {
    assert!(!resposta_sn("", false));
    assert!(resposta_sn("  ", true));
    assert!(resposta_sn(" SIM ", false));
    assert!(resposta_sn("y", false));
    assert!(!resposta_sn("nao", true));
}

#[test]
fn resposta_com_padrao() {
    assert_eq!(resposta_ou_default("  ", "30"), "30");
    assert_eq!(resposta_ou_default(" 12 ", "30"), "12");
}

#[test]
fn acao_do_menu_principal() {
    assert_eq!(interpretar_acao(""), Some(0));
    assert_eq!(interpretar_acao(" 3 "), Some(3));
    assert_eq!(interpretar_acao("7"), None);
    assert_eq!(interpretar_acao("  "), None);
}

#[test]
fn opcoes_de_release_e_card() {
    assert!(matches!(interpretar_release("", 2), OpcaoRelease::Principal));
    assert!(matches!(interpretar_release("N", 2), OpcaoRelease::Nova));
    assert!(matches!(interpretar_release("2", 2), OpcaoRelease::Indice(1)));
    assert!(matches!(interpretar_release("3", 2), OpcaoRelease::Invalida));
    assert!(matches!(interpretar_card("A"), OpcaoCard::Anterior));
    assert!(matches!(interpretar_card("0"), OpcaoCard::Principal));
    assert!(matches!(interpretar_card("12a"), OpcaoCard::NaoNumerica));
    assert!(matches!(interpretar_card("1399338"), OpcaoCard::Numero));
    assert!(matches!(interpretar_card(""), OpcaoCard::Vazia));
}

#[test]
fn nome_da_nova_release() {
    assert_eq!(nome_release("7", "2026").ok().unwrap(), "Release Julho 2026");
    assert!(matches!(nome_release("13", "2026"), Err(ErroRelease::MesInvalido)));
    assert!(matches!(nome_release("x", "2026"), Err(ErroRelease::MesInvalido)));
    assert!(matches!(nome_release("3", "20a6"), Err(ErroRelease::AnoInvalido)));
}

#[test]
fn argumentos_e_limites() {
    let args: Vec<String> = ["det", "--base", "/x", "--base"].iter().map(|s| s.to_string()).collect();
    assert_eq!(arg_valor(&args, "--base"), Some("/x".to_string()));
    assert_eq!(arg_valor(&args[..2], "--base"), None);
    assert_eq!(arg_valor(&args, "--outro"), None);
    assert_eq!(limite_mb("25"), 25);
    assert_eq!(limite_mb("abc"), 30);
    assert_eq!(marca_status(true, true), "[ ok  ]");
    assert_eq!(marca_status(false, true), "[falta]");
    assert_eq!(marca_status(false, false), "[ --  ]");
}
