//! Tests of the .xlsx reader and of the mapping of the required headers.

use std::io::{Cursor, Write};

use gestor_det::xlsx::{
    col_index, parse_celula, parse_shared_strings, parse_sheet, primeira_worksheet, read_xlsx,
    Celula, HeaderMap,
};
use zip::write::FileOptions;
use zip::{CompressionMethod, ZipWriter};

fn zipar(entradas: &[(&str, &[u8])]) -> Vec<u8> {
    let mut z = ZipWriter::new(Cursor::new(Vec::new()));
    let opts = FileOptions::default().compression_method(CompressionMethod::Deflated);
    for (nome, bytes) in entradas {
        z.start_file(*nome, opts).unwrap();
        z.write_all(bytes).unwrap();
    }
    z.finish().unwrap().into_inner()
}

fn escapar(s: &str) -> String {
    s.replace('&', "&amp;").replace('<', "&lt;").replace('>', "&gt;")
}

fn letra_coluna(mut c: usize) -> String {
    let mut s = String::new();
    c += 1;
    while c > 0 {
        let r = (c - 1) % 26;
        s.insert(0, (b'A' + r as u8) as char);
        c = (c - 1) / 26;
    }
    s
}

fn planilha(linhas: &[Vec<&str>]) -> Vec<u8> {
    let mut sheet = String::from("<?xml version=\"1.0\" encoding=\"UTF-8\" standalone=\"yes\"?><worksheet xmlns=\"http://schemas.openxmlformats.org/spreadsheetml/2006/main\"><sheetData>");
    for (r, linha) in linhas.iter().enumerate() {
        sheet.push_str(&format!("<row r=\"{}\">", r + 1));
        for (c, val) in linha.iter().enumerate() {
            sheet.push_str(&format!(
                "<c r=\"{}{}\" t=\"inlineStr\"><is><t xml:space=\"preserve\">{}</t></is></c>",
                letra_coluna(c),
                r + 1,
                escapar(val)
            ));
        }
        sheet.push_str("</row>");
    }
    sheet.push_str("</sheetData></worksheet>");
    zipar(&[("xl/worksheets/sheet1.xml", sheet.as_bytes())])
}

fn textos(linha: &[Celula]) -> Vec<String> {
    linha.iter().map(|c| c.texto().clone()).collect()
}

fn chars(s: &str) -> Vec<char> {
    s.chars().collect()
}

#[test]
fn le_linhas_e_mapeia_cabecalhos_tolerantes() {
    let xlsx = planilha(&[
        vec!["ID", "Nome do teste (inicial)", "Executador por", "Status nativo"],
        vec!["13", "Login", "Fulano", "Aprovado"],
        vec!["20", "Logout", "Beltrano", "Ignorado"],
    ]);
    let linhas: Vec<Vec<String>> = read_xlsx(xlsx).unwrap().iter().map(|l| textos(l)).collect();
    assert_eq!(linhas.len(), 3);

    let col = HeaderMap::from_headers(&linhas[0]).unwrap();
    assert_eq!(col.get(&linhas[1], col.id), "13");
    assert_eq!(col.get(&linhas[1], col.nome), "Login");
    assert_eq!(col.get(&linhas[1], col.executor), "Fulano");
    assert_eq!(col.get(&linhas[2], col.status), "Ignorado");
}

#[test]
fn texto_com_e_comercial_preservado() {
    let xlsx = planilha(&[vec!["ID", "Nome do teste"], vec!["7", "Login & Logout"]]);
    let linhas = read_xlsx(xlsx).unwrap();
    assert_eq!(linhas[1][1].texto(), "Login & Logout");
}

#[test]
fn cabecalho_incompleto_da_erro() {
    let xlsx = planilha(&[vec!["ID", "Nome do teste"]]);
    let linhas: Vec<Vec<String>> = read_xlsx(xlsx).unwrap().iter().map(|l| textos(l)).collect();
    let e = HeaderMap::from_headers(&linhas[0]).err().unwrap();
    assert_eq!(
        e,
        "coluna obrigatoria nao encontrada: Executado por (cabecalhos: ID | Nome do teste)"
    );
}

#[test]
fn colunas_por_referencia() {
    assert_eq!(col_index("B7"), 1);
    assert_eq!(col_index("A1"), 0);
    assert_eq!(col_index("z3"), 25);
    assert_eq!(col_index("AA10"), 26);
    assert_eq!(col_index("XFD1"), 16383);
    assert_eq!(col_index("12"), 0);
    assert_eq!(col_index(""), 0);
}

#[test]
fn celulas_compartilhadas_numericas_e_vazias() {
    let shared = parse_shared_strings(&chars("<sst><si><t>zero</t></si><si><r><t>um</t></r><r><t> e meio</t></r></si><si/></sst>"));
    assert_eq!(shared, vec![chars("zero"), chars("um e meio"), chars("")]);

    assert_eq!(parse_celula(&chars("<c r=\"C2\" t=\"s\"><v> 1 </v></c>"), &shared), (2, false, chars("um e meio")));
    assert_eq!(parse_celula(&chars("<c r=\"A2\" t=\"s\"><v>9</v></c>"), &shared), (0, false, chars("")));
    assert_eq!(parse_celula(&chars("<c r=\"B2\"><v>13.0</v></c>"), &shared), (1, true, chars("13.0")));
    assert_eq!(parse_celula(&chars("<c r=\"D2\" t=\"str\"><v>a&amp;b</v></c>"), &shared), (3, false, chars("a&b")));
    assert_eq!(parse_celula(&chars("<c r=\"E2\"/>"), &shared), (4, true, chars("")));
}

#[test]
fn linhas_com_a_mesma_largura() {
    let xml = "<sheetData><row r=\"1\"><c r=\"A1\" t=\"inlineStr\"><is><t>a</t></is></c></row><row r=\"2\"><c r=\"C2\" t=\"inlineStr\"><is><t>c</t></is></c><c r=\"C2\" t=\"inlineStr\"><is><t>d</t></is></c></row><row/></sheetData>";
    let rows = parse_sheet(&chars(xml), &Vec::new());
    assert_eq!(rows.len(), 3);
    for r in &rows {
        assert_eq!(r.len(), 3);
    }
    assert_eq!(textos(&rows[0]), vec!["a", "", ""]);
    // the last cell of a column wins
    assert_eq!(textos(&rows[1]), vec!["", "", "d"]);
    assert_eq!(textos(&rows[2]), vec!["", "", ""]);
}

#[test]
fn primeira_planilha_em_ordem_natural() {
    let nomes: Vec<String> = ["xl/styles.xml", "xl/worksheets/sheet10.xml", "xl/worksheets/sheet2.xml", "xl/worksheets/_rels/sheet1.xml.rels"]
        .iter()
        .map(|s| s.to_string())
        .collect();
    assert_eq!(primeira_worksheet(&nomes), Some("xl/worksheets/sheet2.xml".to_string()));
    assert_eq!(primeira_worksheet(&vec!["a.xml".to_string()]), None);
}

#[test]
fn xlsx_invalido_e_sem_planilha() {
    assert!(read_xlsx(b"isto nao e zip".to_vec()).err().unwrap().starts_with("xlsx invalido: "));
    let z = zipar(&[("xl/workbook.xml", b"<workbook/>")]);
    assert_eq!(read_xlsx(z).err().unwrap(), "nenhuma worksheet no xlsx");
}

#[test]
fn le_strings_compartilhadas_do_arquivo() {
    let sheet = "<worksheet><sheetData><row r=\"1\"><c r=\"A1\" t=\"s\"><v>1</v></c><c r=\"B1\"><v>7</v></c></row></sheetData></worksheet>";
    let sst = "<sst><si><t>x</t></si><si><t>ID</t></si></sst>";
    let z = zipar(&[("xl/sharedStrings.xml", sst.as_bytes()), ("xl/worksheets/sheet1.xml", sheet.as_bytes())]);
    let rows = read_xlsx(z).unwrap();
    assert_eq!(rows.len(), 1);
    assert!(matches!(&rows[0][0], Celula::Texto(t) if t == "ID"));
    assert!(matches!(&rows[0][1], Celula::Numero(t) if t == "7"));
}
