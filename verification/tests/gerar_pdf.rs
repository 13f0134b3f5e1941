//! Tests of the checks before converting documents to PDF.

use gestor_det::acoes::{candidato, pre_requisitos_pdf};

#[test]
fn sem_docx_retorna_erro() {
    let res = pre_requisitos_pdf(0, true);
    assert!(res.is_err());
    assert!(res.unwrap_err().contains("nenhum DET"));
}

#[test]
fn sem_libreoffice_retorna_erro() {
    assert!(pre_requisitos_pdf(2, false).unwrap_err().contains("LibreOffice nao encontrado"));
    assert!(pre_requisitos_pdf(2, true).is_ok());
}

#[test]
fn nomes_procurados_no_path() {
    assert_eq!(candidato("soffice", ""), "soffice");
    assert_eq!(candidato("soffice", ".EXE"), "soffice.EXE");
    assert_eq!(candidato("gs.exe", ".BAT"), "gs.exe");
}
