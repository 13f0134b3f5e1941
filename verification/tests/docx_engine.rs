//! Tests of the .docx engine: filling the tokens (with escaping) and
//! inserting the images at {{EVIDENCIAS}}.

use std::io::{Cursor, Read, Write};

use gestor_det::docx::{fill_text, image_size, jpeg_size, png_size, reescrever_runs, Docx, Imagem};
use zip::write::FileOptions;
use zip::{CompressionMethod, ZipArchive, ZipWriter};

fn zip_de(entradas: &[(&str, &[u8])]) -> Vec<u8> {
    let mut z = ZipWriter::new(Cursor::new(Vec::new()));
    let opts = FileOptions::default().compression_method(CompressionMethod::Deflated);
    for (nome, bytes) in entradas {
        z.start_file(*nome, opts).unwrap();
        z.write_all(bytes).unwrap();
    }
    z.finish().unwrap().into_inner()
}

fn modelo(paragrafos: &[&str]) -> Vec<u8> {
    let mut body = String::new();
    for p in paragrafos {
        body.push_str(&format!("<w:p><w:r><w:t xml:space=\"preserve\">{}</w:t></w:r></w:p>", p));
    }
    let document = format!(
        "<?xml version=\"1.0\" encoding=\"UTF-8\" standalone=\"yes\"?><w:document xmlns:w=\"http://schemas.openxmlformats.org/wordprocessingml/2006/main\"><w:body>{}</w:body></w:document>",
        body
    );
    let ct = "<?xml version=\"1.0\" encoding=\"UTF-8\" standalone=\"yes\"?><Types xmlns=\"http://schemas.openxmlformats.org/package/2006/content-types\"><Default Extension=\"rels\" ContentType=\"application/vnd.openxmlformats-package.relationships+xml\"/><Default Extension=\"xml\" ContentType=\"application/xml\"/><Override PartName=\"/word/document.xml\" ContentType=\"application/vnd.openxmlformats-officedocument.wordprocessingml.document.main+xml\"/></Types>";
    let rels = "<?xml version=\"1.0\" encoding=\"UTF-8\" standalone=\"yes\"?><Relationships xmlns=\"http://schemas.openxmlformats.org/package/2006/relationships\"><Relationship Id=\"rId1\" Type=\"http://schemas.openxmlformats.org/officeDocument/2006/relationships/officeDocument\" Target=\"word/document.xml\"/></Relationships>";
    zip_de(&[
        ("[Content_Types].xml", ct.as_bytes()),
        ("_rels/.rels", rels.as_bytes()),
        ("word/document.xml", document.as_bytes()),
    ])
}

fn png_falso(w: u32, h: u32) -> Vec<u8> {
    let mut b = vec![0x89, b'P', b'N', b'G', 0x0D, 0x0A, 0x1A, 0x0A];
    b.extend_from_slice(&[0, 0, 0, 13]);
    b.extend_from_slice(b"IHDR");
    b.extend_from_slice(&w.to_be_bytes());
    b.extend_from_slice(&h.to_be_bytes());
    b.extend_from_slice(&[8, 2, 0, 0, 0]);
    b
}

fn ler_entrada(bytes: &[u8], nome: &str) -> String {
    let mut z = ZipArchive::new(Cursor::new(bytes.to_vec())).unwrap();
    let mut e = z.by_name(nome).unwrap();
    let mut s = String::new();
    e.read_to_string(&mut s).unwrap();
    s
}

fn nomes(bytes: &[u8]) -> Vec<String> {
    let mut z = ZipArchive::new(Cursor::new(bytes.to_vec())).unwrap();
    (0..z.len()).map(|i| z.by_index(i).unwrap().name().to_string()).collect()
}

fn escala(w: u32, h: u32) -> (u64, u64) {
    (w as u64 * 9525, h as u64 * 9525)
}

fn imagem(nome: &str, bytes: Vec<u8>) -> Imagem {
    Imagem { nome: nome.to_string(), extensao: Some("png".to_string()), bytes: Some(bytes) }
}

#[test]
fn preenche_tokens_e_escapa_texto() {
    let m = modelo(&[
        "ID: {{ID}}",
        "Nome: {{NOME_TESTE}}",
        "Fixo: Tom &amp; Jerry {{STATUS}}",
        "{{EVIDENCIAS}}",
    ]);
    let mut doc = Docx::read(m).unwrap();
    doc.fill_placeholders(&[
        ("{{ID}}", "13"),
        ("{{NOME_TESTE}}", "Login & Logout"),
        ("{{STATUS}}", "Aprovado"),
    ]);
    // no images: the {{EVIDENCIAS}} paragraph is removed
    assert_eq!(doc.insert_images(&[], false, &escala).unwrap(), 0);

    let saida = doc.write().unwrap();
    let xml = ler_entrada(&saida, "word/document.xml");

    assert!(xml.contains("13"));
    assert!(xml.contains("Login &amp; Logout"));
    assert!(xml.contains("Tom &amp; Jerry"));
    assert!(!xml.contains("{{"));
}

#[test]
fn insere_imagens_no_ponto_evidencias() {
    let m = modelo(&["Cabecalho", "{{EVIDENCIAS}}"]);
    let mut doc = Docx::read(m).unwrap();
    let imgs = vec![imagem("01.png", png_falso(400, 300)), imagem("02.png", png_falso(900, 700))];
    assert_eq!(doc.insert_images(&imgs, false, &escala).unwrap(), 2);

    let saida = doc.write().unwrap();
    let midia = nomes(&saida).into_iter().filter(|n| n.starts_with("word/media/")).count();
    assert_eq!(midia, 2);

    let rels = ler_entrada(&saida, "word/_rels/document.xml.rels");
    assert_eq!(rels.matches("/image").count(), 2);
}

#[test]
fn modelo_sem_document_xml_falha() {
    assert!(Docx::read(b"conteudo qualquer".to_vec()).is_err());
}

#[test]
fn zip_sem_document_xml_da_erro() {
    let z = zip_de(&[("outro.xml", b"<x/>")]);
    assert_eq!(Docx::read(z).err().unwrap(), "modelo nao contem word/document.xml");
    let e = Docx::read(b"nada".to_vec()).err().unwrap();
    assert!(e.starts_with("modelo docx invalido: "));
}

#[test]
fn token_quebrado_em_varios_runs() {
    let document = "<w:document><w:body><w:p><w:r><w:t>ID: {{</w:t></w:r><w:r><w:t>ID}}</w:t></w:r></w:p></w:body></w:document>";
    let z = zip_de(&[("word/document.xml", document.as_bytes())]);
    let mut doc = Docx::read(z).unwrap();
    doc.fill_placeholders(&[("{{ID}}", "42")]);
    let xml = ler_entrada(&doc.write().unwrap(), "word/document.xml");
    assert!(xml.contains("ID: 42"));
    assert!(!xml.contains("{{"));
}

#[test]
fn imagem_ilegivel_e_pulada_com_legenda() {
    let m = modelo(&["{{EVIDENCIAS}}"]);
    let mut doc = Docx::read(m).unwrap();
    let imgs = vec![
        imagem("a.png", png_falso(10, 20)),
        Imagem { nome: "b.png".to_string(), extensao: Some("png".to_string()), bytes: None },
        imagem("c.png", b"nao e png".to_vec()),
    ];
    assert_eq!(doc.insert_images(&imgs, true, &escala).unwrap(), 1);
    let saida = doc.write().unwrap();
    let xml = ler_entrada(&saida, "word/document.xml");
    assert!(xml.contains("a.png"));
    assert!(!xml.contains("c.png"));
    let ct = ler_entrada(&saida, "[Content_Types].xml");
    assert!(ct.contains("Extension=\"png\""));
}

#[test]
fn sem_token_evidencias_nada_muda() {
    let m = modelo(&["So texto"]);
    let mut doc = Docx::read(m).unwrap();
    let antes = doc.write().unwrap();
    assert_eq!(doc.insert_images(&[imagem("a.png", png_falso(1, 1))], false, &escala).unwrap(), 0);
    assert_eq!(doc.write().unwrap(), antes);
}

#[test]
fn escrever_e_ler_de_novo() {
    let mut doc = Docx::read(modelo(&["x"])).unwrap();
    doc.set_entry(&"word/extra.xml".chars().collect(), b"<extra/>".to_vec());
    let relido = Docx::read(doc.write().unwrap()).unwrap();
    assert_eq!(
        relido.entry_str(&"word/extra.xml".chars().collect()),
        Some("<extra/>".chars().collect())
    );
    assert_eq!(relido.entries().len(), 4);
}

#[test]
fn ler_depois_de_gravar_uma_entrada() {
    let mut doc = Docx::read(modelo(&["x"])).unwrap();
    let nome: Vec<char> = "word/document.xml".chars().collect();
    doc.set_entry(&nome, b"<novo/>".to_vec());
    assert_eq!(doc.entry_str(&nome), Some("<novo/>".chars().collect()));
    // the other entries are as they were, and no entry was added
    assert_eq!(doc.entries().len(), 3);
    assert_eq!(doc.entry_str(&"_rels/.rels".chars().collect()).map(|v| v.len() > 0), Some(true));
}

#[test]
fn tamanhos_de_imagem() {
    assert_eq!(png_size(&png_falso(400, 300)), Some((400, 300)));
    assert_eq!(png_size(b"curto"), None);
    let jpeg = [0xFF, 0xD8, 0xFF, 0xE0, 0x00, 0x04, 0x00, 0x00, 0xFF, 0xC0, 0x00, 0x11, 0x08, 0x01, 0x2C, 0x02, 0x58, 0x03];
    assert_eq!(jpeg_size(&jpeg), Some((600, 300)));
    assert_eq!(image_size(&jpeg, &"jpg".chars().collect()), Some((600, 300)));
    assert_eq!(image_size(&png_falso(5, 6), &"png".chars().collect()), Some((5, 6)));
}

#[test]
fn runs_reescritos_no_primeiro() {
    let par: Vec<char> = "<w:p><w:r><w:t>a</w:t></w:r><w:r><w:t>b</w:t></w:r></w:p>".chars().collect();
    let novo: String = reescrever_runs(&par, &"X".chars().collect()).into_iter().collect();
    assert!(novo.contains("<w:t xml:space=\"preserve\">X</w:t>"));
    assert!(!novo.contains(">a<") && !novo.contains(">b<"));
}

#[test]
fn sem_tokens_o_texto_volta_igual() {
    let xml: Vec<char> =
        "<w:body><w:p><w:r><w:t>Ola &amp; adeus</w:t></w:r></w:p><w:pPr/><w:p/></w:body>".chars().collect();
    assert_eq!(fill_text(&xml, &Vec::new()), xml);
    let vars = vec![("{{ID}}".chars().collect::<Vec<char>>(), "7".chars().collect::<Vec<char>>())];
    assert_eq!(fill_text(&xml, &vars), xml);
}

#[test]
fn gravar_entradas_pequenas_sempre_funciona() {
    let doc = Docx::from_entries(vec![
        ("word/document.xml".to_string(), b"<w:document/>".to_vec()),
        ("word/media/det_img1.png".to_string(), png_falso(3, 4)),
        ("vazio.txt".to_string(), Vec::new()),
    ]);
    let bytes = doc.write().unwrap();
    assert_eq!(nomes(&bytes), vec!["word/document.xml", "word/media/det_img1.png", "vazio.txt"]);
    let mut z = ZipArchive::new(Cursor::new(bytes)).unwrap();
    assert_eq!(z.by_name("word/media/det_img1.png").unwrap().compression(), CompressionMethod::Stored);
    assert_eq!(z.by_name("word/document.xml").unwrap().compression(), CompressionMethod::Deflated);
}

#[test]
fn ler_da_as_entradas_em_ordem() {
    let bytes = zip_de(&[("b.txt", b"2"), ("word/document.xml", b"<d/>"), ("a.txt", b"1")]);
    let doc = Docx::read(bytes).unwrap();
    let es: Vec<(String, Vec<u8>)> = doc.entries().clone();
    assert_eq!(
        es,
        vec![
            ("b.txt".to_string(), b"2".to_vec()),
            ("word/document.xml".to_string(), b"<d/>".to_vec()),
            ("a.txt".to_string(), b"1".to_vec()),
        ]
    );
}

#[test]
fn avisos_das_imagens() {
    let imgs = vec![
        imagem("a.png", png_falso(10, 20)),
        Imagem { nome: "b.png".to_string(), extensao: Some("png".to_string()), bytes: None },
        imagem("c.png", b"nao e png".to_vec()),
    ];
    let com_token = Docx::read(modelo(&["{{EVIDENCIAS}}"])).unwrap();
    assert_eq!(com_token.avisos_imagens(&imgs), (false, vec![false, true, true]));
    let sem_token = Docx::read(modelo(&["So texto"])).unwrap();
    assert_eq!(sem_token.avisos_imagens(&imgs), (true, vec![false, false, false]));
    assert_eq!(sem_token.avisos_imagens(&[]), (false, vec![]));
}
