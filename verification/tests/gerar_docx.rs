//! Tests of the generation of the documents of a spreadsheet: one per test
//! with a folder, none for the ignored ones, warnings for the others.

use std::io::{Cursor, Read, Write};

use gestor_det::acoes::{gerar_docx, Evento};
use gestor_det::docx::{Docx, Imagem};
use zip::write::FileOptions;
use zip::{CompressionMethod, ZipArchive, ZipWriter};

fn empacotar(entradas: &[(&str, &[u8])]) -> Vec<u8> {
    let mut z = ZipWriter::new(Cursor::new(Vec::new()));
    let opts = FileOptions::default().compression_method(CompressionMethod::Deflated);
    for (nome, bytes) in entradas {
        z.start_file(*nome, opts).unwrap();
        z.write_all(bytes).unwrap();
    }
    z.finish().unwrap().into_inner()
}

fn modelo_det(paragrafos: &[&str]) -> Docx {
    let mut body = String::new();
    for p in paragrafos {
        body.push_str(&format!("<w:p><w:r><w:t xml:space=\"preserve\">{}</w:t></w:r></w:p>", p));
    }
    let document = format!("<w:document><w:body>{}</w:body></w:document>", body);
    let ct = "<Types><Default Extension=\"xml\" ContentType=\"application/xml\"/></Types>";
    Docx::read(empacotar(&[
        ("[Content_Types].xml", ct.as_bytes()),
        ("word/document.xml", document.as_bytes()),
    ]))
    .unwrap()
}

fn png(w: u32, h: u32) -> Vec<u8> {
    let mut b = vec![0x89, b'P', b'N', b'G', 0x0D, 0x0A, 0x1A, 0x0A];
    b.extend_from_slice(&[0, 0, 0, 13]);
    b.extend_from_slice(b"IHDR");
    b.extend_from_slice(&w.to_be_bytes());
    b.extend_from_slice(&h.to_be_bytes());
    b.extend_from_slice(&[8, 2, 0, 0, 0]);
    b
}

fn entrada(bytes: &[u8], nome: &str) -> String {
    let mut z = ZipArchive::new(Cursor::new(bytes.to_vec())).unwrap();
    let mut e = z.by_name(nome).unwrap();
    let mut s = String::new();
    e.read_to_string(&mut s).unwrap();
    s
}

fn nomes_de(bytes: &[u8]) -> Vec<String> {
    let mut z = ZipArchive::new(Cursor::new(bytes.to_vec())).unwrap();
    (0..z.len()).map(|i| z.by_index(i).unwrap().name().to_string()).collect()
}

fn linhas(v: &[Vec<&str>]) -> Vec<Vec<String>> {
    v.iter().map(|l| l.iter().map(|s| s.to_string()).collect()).collect()
}

fn escalar(w: u32, h: u32) -> (u64, u64) {
    (w as u64 * 9525, h as u64 * 9525)
}

fn cabecalho() -> Vec<&'static str> {
    vec!["ID", "Nome do teste (inicial)", "Executado por", "Status nativo"]
}

#[test]
fn gera_det_por_id_e_pula_ignorado() {
    let modelo = modelo_det(&[
        "ID: {{ID}}",
        "Nome: {{NOME_TESTE}}",
        "Por: {{EXECUTADO_POR}}",
        "Status: {{STATUS}}",
        "Data: {{DATA}}",
        "{{EVIDENCIAS}}",
    ]);
    let tabela = linhas(&[
        cabecalho(),
        vec!["13", "Login", "Fulano", "Aprovado"],
        vec!["20", "Logout", "Beltrano", "Ignorado"],
    ]);
    let pastas = vec!["13 - Login".to_string()];
    let imagens = vec![vec![
        Imagem { nome: "01.png".to_string(), extensao: Some("png".to_string()), bytes: Some(png(400, 300)) },
        Imagem { nome: "02.png".to_string(), extensao: Some("png".to_string()), bytes: Some(png(300, 200)) },
    ]];
    let (eventos, r) = gerar_docx(&tabela, &modelo, &pastas, &imagens, "16/07/2026", false, &escalar);
    let r = r.unwrap();
    assert_eq!(r.gerados, 1);
    assert_eq!(r.ignorados, 1);
    assert_eq!(eventos.len(), 2);

    match &eventos[0] {
        Evento::Gerado { linha, pasta, arquivo, bytes, imagens, .. } => {
            assert_eq!((*linha, *pasta, *imagens), (1, 0, 2));
            assert_eq!(arquivo, "DET_13_Login.docx");
            let xml = entrada(bytes, "word/document.xml");
            assert!(xml.contains("Login"));
            assert!(xml.contains("Fulano"));
            assert!(xml.contains("Aprovado"));
            assert!(xml.contains("16/07/2026"));
            assert!(!xml.contains("{{"));
            let midia = nomes_de(bytes).into_iter().filter(|n| n.starts_with("word/media/")).count();
            assert_eq!(midia, 2);
        }
        _ => panic!("a document was expected"),
    }
    assert!(matches!(&eventos[1], Evento::Ignorado { linha: 2, id, .. } if id == "20"));
}

#[test]
fn id_sem_subpasta_gera_aviso_e_nao_falha() {
    let modelo = modelo_det(&["ID: {{ID}}", "{{EVIDENCIAS}}"]);
    let tabela = linhas(&[cabecalho(), vec!["99", "Sem Pasta", "Fulano", "Aprovado"]]);
    let (eventos, r) = gerar_docx(&tabela, &modelo, &[], &Vec::new(), "01/01/2026", false, &escalar);
    let r = r.unwrap();
    assert_eq!(r.gerados, 0);
    assert_eq!(r.avisos, 1);
    assert!(matches!(&eventos[0], Evento::SemPasta { linha: 1, .. }));
}

#[test]
fn linhas_sem_id_sem_nome_e_planilha_vazia() {
    let modelo = modelo_det(&["{{ID}}"]);
    let tabela = linhas(&[
        cabecalho(),
        vec!["", "x", "y", "Aprovado"],
        vec!["5", "", "y", "Aprovado"],
        vec!["6", "Teste", "y", " IGNORADO! "],
    ]);
    let (eventos, r) = gerar_docx(&tabela, &modelo, &["05 - x".to_string()], &vec![Vec::new()], "d", false, &escalar);
    let r = r.unwrap();
    assert_eq!((r.gerados, r.ignorados, r.avisos), (0, 1, 1));
    assert_eq!(eventos.len(), 2);
    assert!(matches!(&eventos[0], Evento::SemDados { linha: 2, .. }));

    let (ev, r) = gerar_docx(&Vec::new(), &modelo, &[], &Vec::new(), "d", false, &escalar);
    assert!(ev.is_empty());
    assert_eq!(r.err().unwrap(), "planilha sem linhas");
}

#[test]
fn subpasta_achada_pelo_prefixo_numerico() {
    let modelo = modelo_det(&["{{ID}} {{NOME_TESTE}}"]);
    let tabela = linhas(&[cabecalho(), vec![" 7 ", "A/B", "y", "ok"]]);
    let pastas = vec!["70 - outro".to_string(), "7 - certo".to_string(), "7 - repetido".to_string()];
    let imgs = vec![Vec::new(), Vec::new(), Vec::new()];
    let (eventos, r) = gerar_docx(&tabela, &modelo, &pastas, &imgs, "d", false, &escalar);
    assert_eq!(r.unwrap().gerados, 1);
    match &eventos[0] {
        Evento::Gerado { pasta, arquivo, bytes, .. } => {
            assert_eq!(*pasta, 1);
            assert_eq!(arquivo, "DET_7_A_B.docx");
            assert!(entrada(bytes, "word/document.xml").contains("7 A/B"));
        }
        _ => panic!("a document was expected"),
    }
}

#[test]
fn avisos_de_modelo_sem_evidencias_e_imagem_pulada() {
    let tabela = linhas(&[cabecalho(), vec!["13", "Login", "Fulano", "Aprovado"]]);
    let pastas = vec!["13 - Login".to_string()];
    let imagens = vec![vec![
        Imagem { nome: "01.png".to_string(), extensao: Some("png".to_string()), bytes: Some(png(40, 30)) },
        Imagem { nome: "02.png".to_string(), extensao: Some("png".to_string()), bytes: Some(b"lixo".to_vec()) },
    ]];
    let sem_token = modelo_det(&["ID: {{ID}}"]);
    let (eventos, r) = gerar_docx(&tabela, &sem_token, &pastas, &imagens, "01/01/2026", false, &escalar);
    assert_eq!(r.unwrap().gerados, 1);
    match &eventos[0] {
        Evento::Gerado { imagens, sem_evidencias, puladas, .. } => {
            assert_eq!(*imagens, 0);
            assert!(*sem_evidencias);
            assert_eq!(puladas, &vec![false, false]);
        }
        _ => panic!("a document was expected"),
    }
    let com_token = modelo_det(&["ID: {{ID}}", "{{EVIDENCIAS}}"]);
    let (eventos, r) = gerar_docx(&tabela, &com_token, &pastas, &imagens, "01/01/2026", false, &escalar);
    assert_eq!(r.unwrap().gerados, 1);
    match &eventos[0] {
        Evento::Gerado { imagens, sem_evidencias, puladas, .. } => {
            assert_eq!(*imagens, 1);
            assert!(!*sem_evidencias);
            assert_eq!(puladas, &vec![false, true]);
        }
        _ => panic!("a document was expected"),
    }
}
