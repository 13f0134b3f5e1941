//! Tests of the organisation of the work area: card folders and the test
//! folders of a spreadsheet.

use gestor_det::acoes::{
    achar_subpasta, eh_imagem, ext_eh, extensao, nome_det, nome_subpasta, pastas_a_criar, prefixo_numerico,
    subpastas_da_planilha,
};
use gestor_det::ordem::ordenar_natural;
use gestor_det::workspace::{listar_ordenado, mais_recente, primeiro_ordenado, Criterio, Workspace};

fn strings(v: &[&str]) -> Vec<String> {
    v.iter().map(|s| s.to_string()).collect()
}

#[test]
fn lista_releases_e_cards() {
    let ws = Workspace::detectar("/tmp/area");
    assert!(ws.dir_release.ends_with("Release"));
    assert!(ws.dir_modelos.ends_with("modelos"));

    // the release folders are listed in natural order
    assert!(ordenar_natural(&Vec::new()).is_empty());
    let releases = ordenar_natural(&strings(&["Release Julho 2026", "Release Junho 2026"]));
    assert_eq!(releases.len(), 2);

    let julho = strings(&["ID CARD 1410037", "pasta-solta", "ID CARD 1399338"]);
    let cards = listar_ordenado(&julho, &Criterio::Card);
    assert_eq!(cards, vec!["ID CARD 1399338", "ID CARD 1410037"]);
    assert_eq!(ws.nome_card("1399338"), "ID CARD 1399338");
    assert_eq!(ws.nome_card("  42 "), "ID CARD 42");
}

#[test]
fn cria_subpastas_id_nome_e_pula_sem_id() {
    let linhas: Vec<Vec<String>> = vec![
        strings(&["ID", "Nome do teste (inicial)", "Executado por", "Status nativo"]),
        strings(&["13", "Login da Aplicacao", "Fulano", "Aprovado"]),
        strings(&["", "sem id", "x", "Aprovado"]),
    ];
    let plano = subpastas_da_planilha(&linhas).unwrap();
    assert_eq!(plano, vec![(1, "13 - Login_da_A".to_string())]);
}

#[test]
fn planilha_sem_linhas_ou_sem_cabecalho() {
    assert_eq!(subpastas_da_planilha(&Vec::new()).err().unwrap(), "planilha sem linhas");
    let e = subpastas_da_planilha(&vec![strings(&["Nome"])]).err().unwrap();
    assert!(e.starts_with("coluna obrigatoria nao encontrada: ID"));
}

#[test]
fn nomes_de_pastas_e_arquivos() {
    assert_eq!(prefixo_numerico("13 - Login"), Some("13".to_string()));
    assert_eq!(prefixo_numerico("Login"), None);
    assert_eq!(achar_subpasta(&strings(&["130 - a", "13 - b"]), " 13 "), Some(1));
    assert_eq!(achar_subpasta(&strings(&["x"]), ""), None);
    assert_eq!(nome_subpasta("13", "Login: a/b c"), "13 - Login__a_b");
    assert_eq!(nome_det("1/2", "a b"), "DET_1_2_a_b.docx");
}

#[test]
fn extensoes_e_imagens() {
    assert_eq!(extensao("a.tar.gz"), Some("gz".to_string()));
    assert_eq!(extensao(".docx"), None);
    assert_eq!(extensao("sem"), None);
    assert_eq!(extensao("ponto."), Some(String::new()));
    assert!(eh_imagem("01.PNG") && eh_imagem("x.jpeg") && eh_imagem("y.Jpg"));
    assert!(!eh_imagem("z.gif") && !eh_imagem("png"));
    assert!(ext_eh("Modelo.DOCX", "docx"));
    assert!(!ext_eh("modelo.doc", "docx"));
}

#[test]
fn escolhas_de_modelo_planilha_e_imagens() {
    let modelos = strings(&["b.docx", "a.txt", "a10.docx", "a2.DOCX"]);
    assert_eq!(primeiro_ordenado(&modelos, &Criterio::Extensao("docx".to_string())), Some("a2.DOCX".to_string()));
    assert_eq!(primeiro_ordenado(&strings(&["x.txt"]), &Criterio::Extensao("docx".to_string())), None);

    let imgs = listar_ordenado(&strings(&["10.png", "2.jpg", "notas.txt", "1.png"]), &Criterio::Imagem);
    assert_eq!(imgs, vec!["1.png", "2.jpg", "10.png"]);

    let pdfs = listar_ordenado(&strings(&["DET_Compilado.pdf", "DET_1.pdf"]), &Criterio::NaoCompilado);
    assert_eq!(pdfs, vec!["DET_1.pdf"]);

    let dets = listar_ordenado(
        &strings(&["DET_2.docx", "outro.docx", "DET_1.DOCX"]),
        &Criterio::Arquivo("docx".to_string(), Some("DET_".to_string())),
    );
    assert_eq!(dets, vec!["DET_1.DOCX", "DET_2.docx"]);

    let cands = vec![
        (100, 0, "teste_selected_a.xlsx".to_string()),
        (300, 5, "outra.xlsx".to_string()),
        (200, 0, "Teste_Selected_b.xlsx".to_string()),
        (200, 0, "teste_selected_c.XLSX".to_string()),
    ];
    assert_eq!(mais_recente(&cands), Some("teste_selected_c.XLSX".to_string()));
    assert_eq!(mais_recente(&Vec::new()), None);
}

#[test]
fn cards_em_qualquer_caixa() {
    let nomes = strings(&["id card 7", "Id Card 10", "card 3", "ID CARDX"]);
    assert_eq!(listar_ordenado(&nomes, &Criterio::Card), vec!["id card 7", "Id Card 10", "ID CARDX"]);
}

#[test]
fn pula_pastas_que_ja_existem() {
    let plano = vec![
        (1usize, "13 - Login".to_string()),
        (2, "20 - Logout".to_string()),
        (3, "13 - Login".to_string()),
        (4, "30 - Busca".to_string()),
    ];
    assert_eq!(pastas_a_criar(&plano, &vec![false, true, false, false]), vec![true, false, false, true]);
    assert_eq!(pastas_a_criar(&Vec::new(), &Vec::new()), Vec::<bool>::new());
}

#[test]
fn segunda_execucao_nao_cria_nada() {
    let plano = vec![(1usize, "13 - Login".to_string()), (2, "13 - Login".to_string()), (3, "20 - Logout".to_string())];
    let primeira = pastas_a_criar(&plano, &vec![false, false, true]);
    assert_eq!(primeira, vec![true, false, false]);
    // after the first run every planned folder exists
    assert_eq!(pastas_a_criar(&plano, &vec![true, true, true]), vec![false, false, false]);
}

#[test]
fn area_de_trabalho_junta_release_e_modelos() {
    let base = "/tmp/area";
    let w = Workspace::detectar(base);
    assert_eq!(w.raiz, base);
    let sep = std::path::MAIN_SEPARATOR;
    assert_eq!(w.dir_release, format!("{base}{sep}Release"));
    assert_eq!(w.dir_modelos, format!("{base}{sep}modelos"));
    let w = Workspace::detectar("/tmp/area/");
    assert_eq!(w.dir_release, "/tmp/area/Release");
}
