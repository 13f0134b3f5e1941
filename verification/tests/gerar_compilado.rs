//! Tests of the compiled PDF: the split into parts by size and the error
//! when there is nothing to compile.

use gestor_det::acoes::{bin_pack, compilado_unico, nome_parte, pre_requisitos_compilado};

#[test]
fn sem_pdf_retorna_erro() {
    assert!(pre_requisitos_compilado(0).is_err());
    assert!(pre_requisitos_compilado(3).is_ok());
}

#[test]
fn bin_pack_agrupa_por_limite_de_tamanho() {
    // limit 100: [a,b] = 80 fits; + c = 120 passes it -> c starts a new part
    let grupos = bin_pack(&[40, 40, 40], 100);
    assert_eq!(grupos.len(), 2);
    assert_eq!(grupos[0].len(), 2);
    assert_eq!(grupos[1].len(), 1);
}

#[test]
fn arquivo_maior_que_o_limite_fica_sozinho() {
    assert_eq!(bin_pack(&[10, 500, 20, 30], 100), vec![vec![0], vec![1], vec![2, 3]]);
    assert_eq!(bin_pack(&[], 100), Vec::<Vec<usize>>::new());
    assert_eq!(bin_pack(&[100, 0, 1], 100), vec![vec![0, 1], vec![2]]);
}

#[test]
fn arquivo_unico_ou_partes_e_nomes_das_partes() {
    let limite = 30 * 1024 * 1024;
    assert!(compilado_unico(limite, limite));
    assert!(compilado_unico(0, limite));
    assert!(!compilado_unico(limite + 1, limite));
    assert_eq!(nome_parte(0), "DET_Compilado_Parte_1.pdf");
    assert_eq!(nome_parte(9), "DET_Compilado_Parte_10.pdf");
}
