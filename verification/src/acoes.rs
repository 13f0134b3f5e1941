//! The decisions behind the tool's actions: which rows give a folder or a
//! document, where its evidence is, what the generated files are called and
//! how the PDFs are split into parts. Reading and writing files, and the
//! external PDF tools, are done by the caller.

use vstd::prelude::*;

use crate::texto::{ascii_lower, chars_of, char_to_ascii_lowercase, string_of};
use crate::util::{
    dec_digits, digitos, anexar, fatia, is_digit, lemma_run_len, mesmas, normalize, normalize_spec, run_len, sanitize,
    sanitize_spec, trim_chars, trim_spec, truncar, truncar_spec,
};
use crate::xlsx::{colunas_spec, erro_cabecalho, HeaderMap};
use crate::docx::{
    com_entrada, contem, documento, dobrar, dims, altura, largura, entradas_apos, estado_inicial,
    fill_de, imagem_view, nome_ct, numeros_cabem, primeiro_indice, substituir_spec, texto_entrada,
    para_gravar, pulada, sem_evidencias, token_evidencias, utf8_lossy, Docx, Imagem,
};
use crate::arquivo_zip::{cabe_no_zip, zip_bytes};
use vstd::utf8::encode_utf8;

verus! {

// ─── Splitting PDFs into parts ─────────────────────────────────────────────

/// The total of the sizes.
pub open spec fn soma_seq(ts: Seq<u64>) -> int
    decreases ts.len(),
{
    if ts.len() == 0 {
        0
    } else {
        soma_seq(ts.drop_last()) + ts.last()
    }
}

/// The total size of the files of a group (given by their positions).
pub open spec fn soma_de(ts: Seq<u64>, g: Seq<usize>) -> int
    decreases g.len(),
{
    if g.len() == 0 {
        0
    } else {
        soma_de(ts, g.drop_last()) + ts[g.last() as int]
    }
}

/// The positions `0..n`, in order.
pub open spec fn posicoes(n: nat) -> Seq<usize> {
    Seq::new(n, |i: int| i as usize)
}

/// A greedy split of the files `ts` into parts of at most `limite` bytes:
/// the parts hold every file once, in order; none is empty; a part passes the
/// limit only when it is a single file; and each part but the last was
/// closed because the next file would have passed the limit.
pub open spec fn particao_gulosa(ts: Seq<u64>, limite: u64, gs: Seq<Seq<usize>>) -> bool {
    &&& gs.flatten() == posicoes(ts.len())
    &&& forall|k: int| 0 <= k < gs.len() ==> (#[trigger] gs[k]).len() > 0
    &&& forall|k: int| 0 <= k < gs.len() ==> soma_de(ts, #[trigger] gs[k]) <= limite || gs[k].len() == 1
    &&& forall|k: int|
        0 <= k < gs.len() - 1 ==> soma_de(ts, #[trigger] gs[k]) + ts[gs[k].last() + 1] > limite
}

proof fn lemma_soma_seq_prefixo(ts: Seq<u64>, i: int)
    requires
        0 <= i <= ts.len(),
    ensures
        soma_seq(ts.take(i)) <= soma_seq(ts),
    decreases ts.len() - i,
{
    if i < ts.len() {
        lemma_soma_seq_prefixo(ts.drop_last(), i);
        assert(ts.drop_last().take(i) =~= ts.take(i));
        assert(ts.take(ts.len() as int) =~= ts);
    } else {
        assert(ts.take(i) =~= ts);
    }
}

/// Groups the files (by their sizes `tamanhos`, in bytes) into parts whose
/// total does not pass `limite`; a file larger than the limit is a part of
/// its own. The parts hold the positions of the files, in order.
pub fn bin_pack(tamanhos: &[u64], limite: u64) -> (r: Vec<Vec<usize>>)
    requires
        soma_seq(tamanhos@) <= u64::MAX,
    ensures
        particao_gulosa(tamanhos@, limite, r@.map_values(|g: Vec<usize>| g@)),
{
    let ghost ts = tamanhos@;
    let mut grupos: Vec<Vec<usize>> = Vec::new();
    let mut atual: Vec<usize> = Vec::new();
    let mut soma: u64 = 0;
    let mut i: usize = 0;
    assert(ts.take(0) =~= Seq::<u64>::empty());
    assert(posicoes(0) =~= Seq::<usize>::empty());
    assert(grupos@.map_values(|g: Vec<usize>| g@).flatten() =~= Seq::<usize>::empty());
    while i < tamanhos.len()
        invariant
            ts == tamanhos@,
            i <= tamanhos.len(),
            soma_seq(ts) <= u64::MAX,
            grupos@.map_values(|g: Vec<usize>| g@).flatten() + atual@ == posicoes(i as nat),
            forall|k: int| 0 <= k < grupos@.len() ==> (#[trigger] grupos@[k])@.len() > 0,
            forall|k: int| 0 <= k < grupos@.len() ==> soma_de(ts, (#[trigger] grupos@[k])@) <= limite
                || grupos@[k]@.len() == 1,
            forall|k: int| 0 <= k < grupos@.len() ==> (#[trigger] grupos@[k])@.last() + 1 < i
                && soma_de(ts, grupos@[k]@) + ts[grupos@[k]@.last() + 1] > limite,
            soma == soma_de(ts, atual@),
            soma_de(ts, atual@) <= limite || atual@.len() <= 1,
            atual@.len() > 0 ==> atual@.last() + 1 == i,
            i > 0 ==> atual@.len() > 0,
            soma <= soma_seq(ts.take(i as int)),
        decreases tamanhos.len() - i,
    {
        let t = tamanhos[i];
        proof {
            assert(ts.take(i + 1).drop_last() =~= ts.take(i as int));
            lemma_soma_seq_prefixo(ts, i + 1);
        }
        if atual.len() > 0 && soma + t > limite {
            let ghost g0 = grupos@;
            let ghost a0 = atual@;
            let fechado = atual;
            grupos.push(fechado);
            atual = Vec::new();
            soma = 0;
            assert(grupos@.map_values(|g: Vec<usize>| g@) =~= g0.map_values(|g: Vec<usize>| g@).push(a0));
            proof {
                g0.map_values(|g: Vec<usize>| g@).lemma_flatten_push(a0);
            }
            assert(grupos@.map_values(|g: Vec<usize>| g@).flatten() + atual@ =~= posicoes(i as nat));
            assert forall|k: int| 0 <= k < grupos@.len() implies (#[trigger] grupos@[k])@.last() + 1 < i + 1
                && soma_de(ts, grupos@[k]@) + ts[grupos@[k]@.last() + 1] > limite by {
                if k < g0.len() {
                    assert(grupos@[k] == g0[k]);
                }
            }
        }
        let ghost a1 = atual@;
        assert(soma == soma_de(ts, a1));
        atual.push(i);
        assert(atual@.drop_last() =~= a1);
        assert(atual@.last() == i);
        assert(soma_de(ts, atual@) == soma_de(ts, a1) + ts[i as int]);
        soma = soma + t;
        assert(posicoes((i + 1) as nat) =~= posicoes(i as nat).push(i));
        assert(grupos@.map_values(|g: Vec<usize>| g@).flatten() + atual@ =~= posicoes((i + 1) as nat));
        i = i + 1;
    }
    assert(ts.take(tamanhos.len() as int) =~= ts);
    if atual.len() > 0 {
        let ghost g0 = grupos@;
        let ghost a0 = atual@;
        grupos.push(atual);
        assert(grupos@.map_values(|g: Vec<usize>| g@) =~= g0.map_values(|g: Vec<usize>| g@).push(a0));
        proof {
            g0.map_values(|g: Vec<usize>| g@).lemma_flatten_push(a0);
        }
        assert forall|k: int| 0 <= k < grupos@.len() - 1 implies soma_de(ts, (#[trigger] grupos@[k])@)
            + ts[grupos@[k]@.last() + 1] > limite by {
            assert(grupos@[k] == g0[k]);
        }
    } else {
        assert(atual@ =~= Seq::<usize>::empty());
    }
    let ghost gv = grupos@.map_values(|g: Vec<usize>| g@);
    assert(gv.flatten() =~= posicoes(ts.len()));
    assert forall|k: int| 0 <= k < gv.len() implies (#[trigger] gv[k]).len() > 0 by {
        assert(gv[k] == grupos@[k]@);
    }
    assert forall|k: int| 0 <= k < gv.len() implies soma_de(ts, #[trigger] gv[k]) <= limite
        || gv[k].len() == 1 by {
        assert(gv[k] == grupos@[k]@);
    }
    assert forall|k: int| 0 <= k < gv.len() - 1 implies soma_de(ts, #[trigger] gv[k]) + ts[gv[k].last() + 1]
        > limite by {
        assert(gv[k] == grupos@[k]@);
    }
    grupos
}


// ─── The PDF actions ───────────────────────────────────────────────────────

/// The message when there is no generated document to convert.
pub open spec fn sem_det() -> Seq<char> {
    "nenhum DET .docx encontrado (rode 'Gerar DET - docx' antes)."@
}

/// The message when LibreOffice is missing.
pub open spec fn sem_libreoffice() -> Seq<char> {
    "LibreOffice nao encontrado (instale o LibreOffice ou ajuste o PATH)."@
}

/// Whether the documents can be converted to PDF: there must be some
/// `DET_*.docx` (`n_docs`) and LibreOffice (`tem_soffice`), checked in that order.
pub fn pre_requisitos_pdf(n_docs: usize, tem_soffice: bool) -> (r: Result<(), String>)
    ensures
        n_docs == 0 ==> (r matches Err(m) && m@ == sem_det()),
        n_docs > 0 && !tem_soffice ==> (r matches Err(m) && m@ == sem_libreoffice()),
        n_docs > 0 && tem_soffice ==> r is Ok,
{
    if n_docs == 0 {
        return Err(string_of(chars_of("nenhum DET .docx encontrado (rode 'Gerar DET - docx' antes).").as_slice()));
    }
    if !tem_soffice {
        return Err(string_of(chars_of("LibreOffice nao encontrado (instale o LibreOffice ou ajuste o PATH).").as_slice()));
    }
    Ok(())
}

/// The compiled PDF stays one file when its size is within the limit (in
/// bytes); otherwise it is split into parts.
pub fn compilado_unico(tamanho: u64, limite: u64) -> (r: bool)
    ensures
        r == (tamanho <= limite),
{
    tamanho <= limite
}

/// The name of part `i` (counted from 0) of a split compiled PDF.
pub open spec fn nome_parte_spec(i: nat) -> Seq<char> {
    "DET_Compilado_Parte_"@ + dec_digits(i + 1) + ".pdf"@
}

/// The file name of part `i` (counted from 0): `DET_Compilado_Parte_<i + 1>.pdf`.
pub fn nome_parte(i: u64) -> (r: String)
    requires
        i < u64::MAX,
    ensures
        r@ == nome_parte_spec(i as nat),
{
    let mut m = chars_of("DET_Compilado_Parte_");
    anexar(&mut m, &digitos(i + 1));
    anexar(&mut m, &chars_of(".pdf"));
    string_of(m.as_slice())
}

/// The message when there is no PDF to compile.
pub open spec fn sem_pdf() -> Seq<char> {
    "nenhum PDF encontrado nas subpastas (rode 'Gerar DET PDF' antes)."@
}

/// Whether the PDFs can be compiled: there must be at least one.
pub fn pre_requisitos_compilado(n_pdfs: usize) -> (r: Result<(), String>)
    ensures
        n_pdfs == 0 ==> (r matches Err(m) && m@ == sem_pdf()),
        n_pdfs > 0 ==> r is Ok,
{
    if n_pdfs == 0 {
        return Err(string_of(chars_of("nenhum PDF encontrado nas subpastas (rode 'Gerar DET PDF' antes).").as_slice()));
    }
    Ok(())
}

/// The file name looked for in each `PATH` folder for a tool `nome` and an
/// executable extension `ext`: the name alone when it already has a dot or
/// there is no extension to add, otherwise the name followed by the extension.
pub open spec fn candidato_spec(nome: Seq<char>, ext: Seq<char>) -> Seq<char> {
    if nome.contains('.') || ext.len() == 0 {
        nome
    } else {
        nome + ext
    }
}

/// The file name looked for a tool (see `candidato_spec`).
pub fn candidato(nome: &str, ext: &str) -> (r: String)
    ensures
        r@ == candidato_spec(nome@, ext@),
{
    let v = chars_of(nome);
    let e = chars_of(ext);
    let mut tem_ponto = false;
    let mut k: usize = 0;
    while k < v.len()
        invariant
            k <= v.len(),
            tem_ponto == exists|q: int| 0 <= q < k && v@[q] == '.',
        decreases v.len() - k,
    {
        if v[k] == '.' {
            tem_ponto = true;
        }
        k = k + 1;
    }
    proof {
        if tem_ponto {
            let q = choose|q: int| 0 <= q < v.len() && v@[q] == '.';
            assert(v@.contains('.'));
        }
    }
    if tem_ponto || e.len() == 0 {
        string_of(v.as_slice())
    } else {
        let mut m = v;
        anexar(&mut m, &e);
        string_of(m.as_slice())
    }
}

// ─── Names ─────────────────────────────────────────────────────────────────

/// The leading decimal digits of a name, when there are any.
pub open spec fn prefixo_spec(nome: Seq<char>) -> Option<Seq<char>> {
    let k = run_len(nome, true);
    if k == 0 {
        None
    } else {
        Some(nome.take(k as int))
    }
}

/// The leading ASCII digits of a folder name ("13 - Login" -> "13").
pub fn prefixo_numerico(nome: &str) -> (r: Option<String>)
    ensures
        match r {
            Some(d) => prefixo_spec(nome@) == Some(d@),
            None => prefixo_spec(nome@) is None,
        },
{
    let v = chars_of(nome);
    proof {
        lemma_run_len(v@, true);
    }
    let mut k: usize = 0;
    while k < v.len() && '0' <= v[k] && v[k] <= '9'
        invariant
            v@ == nome@,
            k <= v.len(),
            k <= run_len(v@, true),
            run_len(v@, true) <= v@.len(),
            forall|q: int| 0 <= q < run_len(v@, true) ==> is_digit(#[trigger] v@[q]) == true,
            run_len(v@, true) < v@.len() ==> !is_digit(v@[run_len(v@, true) as int]),
        decreases v.len() - k,
    {
        k = k + 1;
    }
    if k == 0 {
        None
    } else {
        Some(string_of(fatia(&v, 0, k).as_slice()))
    }
}

/// The extension of a file name, as `Path::extension` gives it: what follows
/// the last `.`, when that dot is not the first character (and the name is
/// not `..`).
pub open spec fn extensao_spec(nome: Seq<char>) -> Option<Seq<char>> {
    if nome == ".."@ {
        None
    } else {
        match ultimo_ponto(nome) {
            Some(p) => if p > 0 {
                Some(nome.skip(p + 1))
            } else {
                None
            },
            None => None,
        }
    }
}

/// The position of the last `.` of a name.
pub open spec fn ultimo_ponto(nome: Seq<char>) -> Option<int>
    decreases nome.len(),
{
    if nome.len() == 0 {
        None
    } else if nome.last() == '.' {
        Some(nome.len() - 1)
    } else {
        ultimo_ponto(nome.drop_last())
    }
}

proof fn lemma_ultimo_ponto(nome: Seq<char>)
    ensures
        ultimo_ponto(nome) matches Some(p) ==> 0 <= p < nome.len() && nome[p] == '.' && forall|q: int|
            p < q < nome.len() ==> #[trigger] nome[q] != '.',
        ultimo_ponto(nome) is None ==> forall|q: int| 0 <= q < nome.len() ==> #[trigger] nome[q] != '.',
    decreases nome.len(),
{
    if nome.len() > 0 && nome.last() != '.' {
        lemma_ultimo_ponto(nome.drop_last());
        assert forall|q: int| 0 <= q < nome.len() - 1 implies #[trigger] nome[q] == nome.drop_last()[q] by {}
    }
}

/// The extension of a file name (see `extensao_spec`).
pub fn extensao(nome: &str) -> (r: Option<String>)
    ensures
        match r {
            Some(e) => extensao_spec(nome@) == Some(e@),
            None => extensao_spec(nome@) is None,
        },
{
    let v = chars_of(nome);
    if mesmas(&v, &chars_of("..")) {
        return None;
    }
    let mut i = v.len();
    proof {
        lemma_ultimo_ponto(v@);
    }
    while i > 0 && v[i - 1] != '.'
        invariant
            v@ == nome@,
            i <= v.len(),
            forall|q: int| i <= q < v.len() ==> #[trigger] v@[q] != '.',
        decreases i,
    {
        i = i - 1;
    }
    proof {
        lemma_ultimo_ponto(v@);
        if i > 0 {
            assert(ultimo_ponto(v@) == Some(i - 1)) by {
                if let Some(p) = ultimo_ponto(v@) {
                    if p < i - 1 {
                        assert(v@[i - 1] != '.');
                    }
                }
            }
        } else {
            assert(ultimo_ponto(v@) is None);
        }
    }
    if i <= 1 {
        return None;
    }
    Some(string_of(fatia(&v, i, v.len()).as_slice()))
}

/// The characters in ASCII lower case.
pub fn minusculas(v: &Vec<char>) -> (r: Vec<char>)
    ensures
        r@ == v@.map_values(|c: char| ascii_lower(c)),
{
    let mut out: Vec<char> = Vec::new();
    for k in 0..v.len()
        invariant
            out@ == v@.take(k as int).map_values(|c: char| ascii_lower(c)),
    {
        out.push(char_to_ascii_lowercase(v[k]));
        assert(out@ =~= v@.take(k + 1).map_values(|c: char| ascii_lower(c)));
    }
    assert(v@.take(v.len() as int) =~= v@);
    out
}

/// The text in ASCII lower case.
pub open spec fn minusculas_spec(s: Seq<char>) -> Seq<char> {
    s.map_values(|c: char| ascii_lower(c))
}

/// A PNG or JPEG file name: extension `png`, `jpg` or `jpeg`, in any case.
pub open spec fn eh_imagem_spec(nome: Seq<char>) -> bool {
    match extensao_spec(nome) {
        Some(e) => {
            let m = minusculas_spec(e);
            m == "png"@ || m == "jpg"@ || m == "jpeg"@
        },
        None => false,
    }
}

/// Whether a file name is that of an evidence image (PNG or JPEG).
pub fn eh_imagem(nome: &str) -> (r: bool)
    ensures
        r == eh_imagem_spec(nome@),
{
    match extensao(nome) {
        Some(e) => {
            let m = minusculas(&chars_of(e.as_str()));
            mesmas(&m, &chars_of("png")) || mesmas(&m, &chars_of("jpg")) || mesmas(&m, &chars_of("jpeg"))
        },
        None => false,
    }
}

/// A file name with the extension `ext`, in any ASCII case.
pub open spec fn tem_extensao(nome: Seq<char>, ext: Seq<char>) -> bool {
    match extensao_spec(nome) {
        Some(e) => minusculas_spec(e) == minusculas_spec(ext),
        None => false,
    }
}

/// Whether the file name has the extension `ext`, ignoring ASCII case.
pub fn ext_eh(nome: &str, ext: &str) -> (r: bool)
    ensures
        r == tem_extensao(nome@, ext@),
{
    match extensao(nome) {
        Some(e) => mesmas(&minusculas(&chars_of(e.as_str())), &minusculas(&chars_of(ext))),
        None => false,
    }
}

/// The position of the first folder whose numeric prefix is `alvo`.
pub open spec fn pasta_do_id(ns: Seq<Seq<char>>, alvo: Seq<char>) -> Option<int>
    decreases ns.len(),
{
    if ns.len() == 0 {
        None
    } else {
        match pasta_do_id(ns.drop_last(), alvo) {
            Some(i) => Some(i),
            None => if prefixo_spec(ns.last()) == Some(alvo) {
                Some(ns.len() - 1)
            } else {
                None
            },
        }
    }
}

proof fn lemma_pasta_do_id(ns: Seq<Seq<char>>, alvo: Seq<char>)
    ensures
        pasta_do_id(ns, alvo) matches Some(k) ==> 0 <= k < ns.len(),
    decreases ns.len(),
{
    if ns.len() > 0 {
        lemma_pasta_do_id(ns.drop_last(), alvo);
    }
}

proof fn lemma_pasta_prefixo(ns: Seq<Seq<char>>, alvo: Seq<char>, j: int)
    requires
        0 <= j <= ns.len(),
        pasta_do_id(ns.take(j), alvo) is Some,
    ensures
        pasta_do_id(ns, alvo) == pasta_do_id(ns.take(j), alvo),
    decreases ns.len(),
{
    if j == ns.len() {
        assert(ns.take(j) =~= ns);
    } else {
        assert(ns.drop_last().take(j) =~= ns.take(j));
        lemma_pasta_prefixo(ns.drop_last(), alvo, j);
    }
}

/// The folder of test `id` among the folder names (in the order they were
/// listed): the first whose numeric prefix equals the trimmed `id`.
pub fn achar_subpasta(pastas: &[String], id: &str) -> (r: Option<usize>)
    ensures
        match r {
            Some(i) => pasta_do_id(pastas@.map_values(|t: String| t@), trim_spec(id@)) == Some(i as int),
            None => pasta_do_id(pastas@.map_values(|t: String| t@), trim_spec(id@)) is None,
        },
{
    let ghost nv = pastas@.map_values(|t: String| t@);
    let alvo = trim_chars(&chars_of(id));
    let mut i: usize = 0;
    assert(nv.take(0) =~= Seq::<Seq<char>>::empty());
    while i < pastas.len()
        invariant
            nv == pastas@.map_values(|t: String| t@),
            alvo@ == trim_spec(id@),
            i <= pastas.len(),
            pasta_do_id(nv.take(i as int), alvo@) is None,
        decreases pastas.len() - i,
    {
        assert(nv.take(i + 1).drop_last() =~= nv.take(i as int));
        assert(nv.take(i + 1).last() == pastas@[i as int]@);
        let achou = match prefixo_numerico(pastas[i].as_str()) {
            Some(d) => mesmas(&chars_of(d.as_str()), &alvo),
            None => false,
        };
        if achou {
            proof {
                lemma_pasta_prefixo(nv, alvo@, i + 1);
            }
            return Some(i);
        }
        i = i + 1;
    }
    assert(nv.take(pastas.len() as int) =~= nv);
    None
}

/// The folder name of a test: `<id> - <name cut to 10 characters>`, made
/// safe as a file name.
pub open spec fn nome_subpasta_spec(id: Seq<char>, nome: Seq<char>) -> Seq<char> {
    id + " - "@ + sanitize_spec(truncar_spec(nome, 10))
}

/// The folder name of a test (see `nome_subpasta_spec`).
pub fn nome_subpasta(id: &str, nome: &str) -> (r: String)
    ensures
        r@ == nome_subpasta_spec(id@, nome@),
{
    let mut m = chars_of(id);
    anexar(&mut m, &chars_of(" - "));
    let curto = truncar(nome, 10);
    anexar(&mut m, &chars_of(sanitize(curto.as_str()).as_str()));
    string_of(m.as_slice())
}

/// The file name of a test's document: `DET_<id>_<name>.docx`, both made safe.
pub open spec fn nome_det_spec(id: Seq<char>, nome: Seq<char>) -> Seq<char> {
    "DET_"@ + sanitize_spec(id) + "_"@ + sanitize_spec(nome) + ".docx"@
}

/// The file name of a test's document (see `nome_det_spec`).
pub fn nome_det(id: &str, nome: &str) -> (r: String)
    ensures
        r@ == nome_det_spec(id@, nome@),
{
    let mut m = chars_of("DET_");
    anexar(&mut m, &chars_of(sanitize(id).as_str()));
    anexar(&mut m, &chars_of("_"));
    anexar(&mut m, &chars_of(sanitize(nome).as_str()));
    anexar(&mut m, &chars_of(".docx"));
    string_of(m.as_slice())
}


// ─── Rows of the spreadsheet ───────────────────────────────────────────────

/// The rows of a spreadsheet as texts.
pub open spec fn tabela(linhas: Seq<Vec<String>>) -> Seq<Seq<Seq<char>>> {
    linhas.map_values(|l: Vec<String>| l@.map_values(|t: String| t@))
}

/// The trimmed text of column `idx` of a row (empty past its end).
pub open spec fn campo_spec(linha: Seq<Seq<char>>, idx: int) -> Seq<char> {
    trim_spec(if 0 <= idx < linha.len() {
        linha[idx]
    } else {
        Seq::empty()
    })
}

/// The folders to create for the rows after the header: one per row with an
/// `ID`, with the row's position and the folder's name.
pub open spec fn plano_subpastas(rows: Seq<Seq<Seq<char>>>, c: (int, int, int, int)) -> Seq<(int, Seq<char>)>
    decreases rows.len(),
{
    if rows.len() <= 1 {
        Seq::empty()
    } else {
        let antes = plano_subpastas(rows.drop_last(), c);
        let l = rows.last();
        let id = campo_spec(l, c.0);
        if id.len() == 0 {
            antes
        } else {
            antes.push((rows.len() - 1, nome_subpasta_spec(id, campo_spec(l, c.1))))
        }
    }
}

/// The header row of a non-empty spreadsheet, and its required columns.
fn cabecalho(linhas: &Vec<Vec<String>>) -> (r: Result<HeaderMap, String>)
    requires
        linhas.len() > 0,
    ensures
        match r {
            Ok(h) => colunas_spec(tabela(linhas@)[0]) == Some(
                (h.id as int, h.nome as int, h.executor as int, h.status as int),
            ),
            Err(m) => colunas_spec(tabela(linhas@)[0]) is None && m@ == erro_cabecalho(tabela(linhas@)[0]),
        },
{
    assert(tabela(linhas@)[0] == linhas@[0]@.map_values(|t: String| t@));
    HeaderMap::from_headers(linhas[0].as_slice())
}

/// Whether the folder at position `i` of the plan is to be created: it does
/// not exist yet, and no earlier row of the plan has the same name (that one
/// created it).
pub open spec fn criar_pasta(nomes: Seq<Seq<char>>, ja_existe: Seq<bool>, i: int) -> bool {
    !ja_existe[i] && forall|j: int| 0 <= j < i ==> #[trigger] nomes[j] != nomes[i]
}

/// Whether the folder at position `i` of the plan exists after a run that
/// created the folders `criar_pasta` chose: it existed, or a folder of that
/// name was created.
pub open spec fn existe_depois(nomes: Seq<Seq<char>>, ja_existe: Seq<bool>, i: int) -> bool {
    ja_existe[i] || exists|j: int| 0 <= j < nomes.len() && #[trigger] criar_pasta(nomes, ja_existe, j) && nomes[j] == nomes[i]
}

/// The existing-folder flags of the whole plan after a run.
pub open spec fn existentes_depois(nomes: Seq<Seq<char>>, ja_existe: Seq<bool>) -> Seq<bool> {
    Seq::new(nomes.len(), |k: int| existe_depois(nomes, ja_existe, k))
}

proof fn lemma_primeiro_igual(nomes: Seq<Seq<char>>, i: int) -> (j: int)
    requires
        0 <= i < nomes.len(),
    ensures
        0 <= j <= i,
        nomes[j] == nomes[i],
        forall|k: int| 0 <= k < j ==> #[trigger] nomes[k] != nomes[j],
    decreases i,
{
    if exists|k: int| 0 <= k < i && nomes[k] == nomes[i] {
        let k = choose|k: int| 0 <= k < i && nomes[k] == nomes[i];
        lemma_primeiro_igual(nomes, k)
    } else {
        i
    }
}

/// Running the plan again creates nothing: after a run, every planned folder
/// exists (`existe_depois`), and with all of them existing no folder is to
/// be created. The flags of existing folders must agree for equal names (they
/// are the same folder).
pub proof fn lemma_segunda_execucao(nomes: Seq<Seq<char>>, ja_existe: Seq<bool>)
    requires
        ja_existe.len() == nomes.len(),
        forall|i: int, j: int|
            0 <= i < nomes.len() && 0 <= j < nomes.len() && #[trigger] nomes[i] == #[trigger] nomes[j]
                ==> ja_existe[i] == ja_existe[j],
    ensures
        forall|i: int| 0 <= i < nomes.len() ==> #[trigger] existe_depois(nomes, ja_existe, i),
        forall|i: int| 0 <= i < nomes.len() ==> !#[trigger] criar_pasta(nomes, existentes_depois(nomes, ja_existe), i),
{
    assert forall|i: int| 0 <= i < nomes.len() implies #[trigger] existe_depois(nomes, ja_existe, i) by {
        if !ja_existe[i] {
            let j = lemma_primeiro_igual(nomes, i);
            assert(nomes[i] == nomes[j]);
            assert(!ja_existe[j]);
            assert(criar_pasta(nomes, ja_existe, j));
        }
    }
}

/// Which folders of the plan to create, given which of them already exist
/// (an existing folder is reported and left as it is).
pub fn pastas_a_criar(plano: &Vec<(usize, String)>, ja_existe: &Vec<bool>) -> (r: Vec<bool>)
    requires
        ja_existe.len() == plano.len(),
    ensures
        r.len() == plano.len(),
        forall|i: int| 0 <= i < r.len() ==> r[i] == criar_pasta(
            plano@.map_values(|p: (usize, String)| p.1@),
            ja_existe@,
            i,
        ),
{
    let ghost nomes = plano@.map_values(|p: (usize, String)| p.1@);
    let mut vistos: Vec<Vec<char>> = Vec::new();
    let mut r: Vec<bool> = Vec::new();
    for i in 0..plano.len()
        invariant
            nomes == plano@.map_values(|p: (usize, String)| p.1@),
            ja_existe.len() == plano.len(),
            vistos.len() == i,
            r.len() == i,
            forall|j: int| 0 <= j < i ==> (#[trigger] vistos@[j])@ == nomes[j],
            forall|j: int| 0 <= j < i ==> r[j] == criar_pasta(nomes, ja_existe@, j),
    {
        let atual = chars_of(plano[i].1.as_str());
        assert(atual@ == nomes[i as int]);
        let mut repetido = false;
        let mut j: usize = 0;
        while j < i
            invariant
                0 <= j <= i,
                i < plano.len(),
                vistos.len() == i,
                nomes == plano@.map_values(|p: (usize, String)| p.1@),
                atual@ == nomes[i as int],
                forall|k: int| 0 <= k < i ==> (#[trigger] vistos@[k])@ == nomes[k],
                repetido == exists|k: int| 0 <= k < j && #[trigger] nomes[k] == nomes[i as int],
            decreases i - j,
        {
            if mesmas(&vistos[j], &atual) {
                repetido = true;
            }
            assert(vistos@[j as int]@ == nomes[j as int]);
            j = j + 1;
        }
        r.push(!ja_existe[i] && !repetido);
        vistos.push(atual);
    }
    r
}

/// The folders of the tests listed in a spreadsheet (its rows, the first
/// being the header): for every row with an `ID`, its position and the name
/// `<ID> - <name cut to 10 characters>` (see `nome_subpasta_spec`).
pub fn subpastas_da_planilha(linhas: &Vec<Vec<String>>) -> (r: Result<Vec<(usize, String)>, String>)
    ensures
        linhas@.len() == 0 ==> (r matches Err(m) && m@ == "planilha sem linhas"@),
        linhas@.len() > 0 ==> match colunas_spec(tabela(linhas@)[0]) {
            None => r matches Err(m) && m@ == erro_cabecalho(tabela(linhas@)[0]),
            Some(c) => r matches Ok(v) && v@.map_values(|p: (usize, String)| (p.0 as int, p.1@))
                == plano_subpastas(tabela(linhas@), c),
        },
{
    if linhas.len() == 0 {
        return Err(string_of(chars_of("planilha sem linhas").as_slice()));
    }
    let col = match cabecalho(linhas) {
        Ok(h) => h,
        Err(m) => return Err(m),
    };
    let ghost c = (col.id as int, col.nome as int, col.executor as int, col.status as int);
    let ghost rows = tabela(linhas@);
    let mut out: Vec<(usize, String)> = Vec::new();
    let mut n: usize = 1;
    assert(rows.take(1).len() == 1);
    while n < linhas.len()
        invariant
            rows == tabela(linhas@),
            c == (col.id as int, col.nome as int, col.executor as int, col.status as int),
            1 <= n <= linhas.len(),
            out@.map_values(|p: (usize, String)| (p.0 as int, p.1@)) == plano_subpastas(rows.take(n as int), c),
        decreases linhas.len() - n,
    {
        let linha = linhas[n].as_slice();
        let id = col.get(linha, col.id);
        assert(rows.take(n + 1).drop_last() =~= rows.take(n as int));
        assert(rows.take(n + 1).last() == rows[n as int]);
        assert(rows[n as int] == linhas@[n as int]@.map_values(|t: String| t@));
        if !id.as_str().is_empty() {
            let nome = col.get(linha, col.nome);
            let pasta = nome_subpasta(id.as_str(), nome.as_str());
            let ghost o0 = out@;
            out.push((n, pasta));
            assert(out@.map_values(|p: (usize, String)| (p.0 as int, p.1@)) =~= o0.map_values(
                |p: (usize, String)| (p.0 as int, p.1@),
            ).push((n as int, pasta@)));
        }
        n = n + 1;
    }
    assert(rows.take(linhas.len() as int) =~= rows);
    Ok(out)
}

// ─── Generating the documents ──────────────────────────────────────────────

/// The tokens of the template and their values for one test.
pub open spec fn vars_det(id: Seq<char>, nome: Seq<char>, executor: Seq<char>, status: Seq<char>, data: Seq<char>) -> Seq<(Seq<char>, Seq<char>)> {
    seq![
        ("{{ID}}"@, id),
        ("{{NOME_TESTE}}"@, nome),
        ("{{EXECUTADO_POR}}"@, executor),
        ("{{STATUS}}"@, status),
        ("{{DATA}}"@, data),
    ]
}

/// Each token of a test's document is filled with its own value: `{{ID}}`
/// with the ID, `{{NOME_TESTE}}` with the test's name, `{{EXECUTADO_POR}}`
/// with the executor, `{{STATUS}}` with the status and `{{DATA}}` with the
/// date, and no other token is filled.
pub proof fn lemma_tokens_do_det(id: Seq<char>, nome: Seq<char>, executor: Seq<char>, status: Seq<char>, data: Seq<char>)
    ensures
        ({
            let vs = vars_det(id, nome, executor, status, data);
            &&& vs.len() == 5
            &&& forall|k: int| 0 <= k < 5 && vs[k].0 == "{{ID}}"@ ==> vs[k].1 == id
            &&& forall|k: int| 0 <= k < 5 && vs[k].0 == "{{NOME_TESTE}}"@ ==> vs[k].1 == nome
            &&& forall|k: int| 0 <= k < 5 && vs[k].0 == "{{EXECUTADO_POR}}"@ ==> vs[k].1 == executor
            &&& forall|k: int| 0 <= k < 5 && vs[k].0 == "{{STATUS}}"@ ==> vs[k].1 == status
            &&& forall|k: int| 0 <= k < 5 && vs[k].0 == "{{DATA}}"@ ==> vs[k].1 == data
            &&& forall|k: int| 0 <= k < 5 ==> {
                let t = #[trigger] vs[k].0;
                t == "{{ID}}"@ || t == "{{NOME_TESTE}}"@ || t == "{{EXECUTADO_POR}}"@ || t == "{{STATUS}}"@
                    || t == "{{DATA}}"@
            }
        }),
{
    reveal_strlit("{{ID}}");
    reveal_strlit("{{NOME_TESTE}}");
    reveal_strlit("{{EXECUTADO_POR}}");
    reveal_strlit("{{STATUS}}");
    reveal_strlit("{{DATA}}");
    let vs = vars_det(id, nome, executor, status, data);
    assert("{{ID}}"@.len() == 6);
    assert("{{NOME_TESTE}}"@.len() == 14);
    assert("{{EXECUTADO_POR}}"@.len() == 17);
    assert("{{STATUS}}"@.len() == 10);
    assert("{{DATA}}"@.len() == 8);
    assert forall|k: int| 0 <= k < 5 implies (k == 0 <==> vs[k].0 == "{{ID}}"@) && (k == 1 <==> vs[k].0
        == "{{NOME_TESTE}}"@) && (k == 2 <==> vs[k].0 == "{{EXECUTADO_POR}}"@) && (k == 3 <==> vs[k].0
        == "{{STATUS}}"@) && (k == 4 <==> vs[k].0 == "{{DATA}}"@) by {
        if k == 0 {
        } else if k == 1 {
        } else if k == 2 {
        } else if k == 3 {
        } else {
        }
    }
}

/// The entries after `fill_placeholders`.
pub open spec fn preenchido(es: Seq<(Seq<char>, Seq<u8>)>, vars: Seq<(Seq<char>, Seq<char>)>) -> Seq<(Seq<char>, Seq<u8>)> {
    match primeiro_indice(es, documento()) {
        Some(i) => com_entrada(es, documento(), encode_utf8(fill_de(utf8_lossy(es[i].1), 0, vars))),
        None => es,
    }
}

/// The bytes `write` gives for these entries (media stored, the rest deflated).
pub open spec fn escrito(es: Seq<(Seq<char>, Seq<u8>)>) -> Seq<u8> {
    zip_bytes(es.map_values(
        |e: (Seq<char>, Seq<u8>)| (e.0, e.0.take(11) == "word/media/"@ && e.0.len() >= 11, e.1),
    ))
}

/// `insert_images` on entries `es` succeeds with `n` images and leaves `es2`.
pub open spec fn inserido<F: Fn(u32, u32) -> (u64, u64)>(
    es: Seq<(Seq<char>, Seq<u8>)>,
    iv: Seq<(Seq<char>, Option<Seq<char>>, Option<Seq<u8>>)>,
    legendas: bool,
    escalar: F,
    n: int,
    es2: Seq<(Seq<char>, Seq<u8>)>,
) -> bool {
    match texto_entrada(es, documento()) {
        None => false,
        Some(doc) => if !contem(doc, token_evidencias()) {
            n == 0 && es2 == es
        } else if iv.len() == 0 {
            n == 0 && es2 == com_entrada(
                es,
                documento(),
                encode_utf8(substituir_spec(doc, token_evidencias(), Seq::empty())),
            )
        } else {
            match texto_entrada(es, nome_ct()) {
                None => false,
                Some(ct) => exists|escs: Seq<(u64, u64)>|
                    #![trigger dobrar(estado_inicial(es, ct), iv, legendas, escs)]
                    escs.len() == iv.len() && (forall|q: int|
                        0 <= q < iv.len() && #[trigger] dims(iv[q]) is Some ==> escalar.ensures(
                            (largura(iv[q]), altura(iv[q])),
                            escs[q],
                        )) && n == dobrar(estado_inicial(es, ct), iv, legendas, escs).n && es2
                        == entradas_apos(es, doc, dobrar(estado_inicial(es, ct), iv, legendas, escs)),
            }
        },
    }
}

/// A generated document: the template filled with the test's values, the
/// images inserted (`n` of them) and the whole written as .docx bytes `b`.
pub open spec fn det_valido<F: Fn(u32, u32) -> (u64, u64)>(
    template: Seq<(Seq<char>, Seq<u8>)>,
    vars: Seq<(Seq<char>, Seq<char>)>,
    iv: Seq<(Seq<char>, Option<Seq<char>>, Option<Seq<u8>>)>,
    legendas: bool,
    escalar: F,
    b: Seq<u8>,
    n: int,
) -> bool {
    exists|es2: Seq<(Seq<char>, Seq<u8>)>|
        #[trigger] inserido(preenchido(template, vars), iv, legendas, escalar, n, es2) && b == escrito(es2)
}

/// When the document of a test is owed: the image numbers fit, the filled
/// template has `word/document.xml`, the images have a
/// `[Content_Types].xml` to be declared in (unless there is no
/// `{{EVIDENCIAS}}` or no image), and every entry of the result fits in the
/// archive (`cabe_no_zip`).
pub open spec fn det_possivel<F: Fn(u32, u32) -> (u64, u64)>(
    template: Seq<(Seq<char>, Seq<u8>)>,
    vars: Seq<(Seq<char>, Seq<char>)>,
    iv: Seq<(Seq<char>, Option<Seq<char>>, Option<Seq<u8>>)>,
    legendas: bool,
    escalar: F,
) -> bool {
    let es1 = preenchido(template, vars);
    &&& numeros_cabem(es1, iv)
    &&& match texto_entrada(es1, documento()) {
        None => false,
        Some(doc) => !contem(doc, token_evidencias()) || iv.len() == 0 || texto_entrada(es1, nome_ct()) is Some,
    }
    &&& forall|n: int, es2: Seq<(Seq<char>, Seq<u8>)>|
        #[trigger] inserido(es1, iv, legendas, escalar, n, es2) ==> cabe_no_zip(para_gravar(es2))
}

/// The message when the image numbers would pass `u32`.
pub open spec fn erro_numeracao() -> Seq<char> {
    "numeracao das imagens esgotada"@
}

/// The document of one test: a copy of the template with the tokens
/// `{{ID}}`, `{{NOME_TESTE}}`, `{{EXECUTADO_POR}}`, `{{STATUS}}` and
/// `{{DATA}}` filled, the evidence images inserted and the result written as
/// .docx bytes; with the number of images inserted.
pub fn gerar_det<F: Fn(u32, u32) -> (u64, u64)>(
    template: &Docx,
    id: &str,
    nome: &str,
    executor: &str,
    status: &str,
    data: &str,
    imagens: &[Imagem],
    legendas: bool,
    escalar: &F,
) -> (r: Result<(Vec<u8>, usize), String>)
    requires
        forall|w: u32, h: u32| escalar.requires((w, h)),
    ensures
        ({
            let es1 = preenchido(template.entradas(), vars_det(id@, nome@, executor@, status@, data@));
            let iv = imagens@.map_values(|i: Imagem| imagem_view(i));
            &&& r matches Ok((b, n)) ==> det_valido(
                template.entradas(),
                vars_det(id@, nome@, executor@, status@, data@),
                iv,
                legendas,
                *escalar,
                b@,
                n as int,
            )
            &&& !numeros_cabem(es1, iv) ==> (r matches Err(m) && m@ == erro_numeracao())
            &&& det_possivel(template.entradas(), vars_det(id@, nome@, executor@, status@, data@), iv, legendas, *escalar)
                ==> r is Ok
        }),
{
    let mut doc = template.duplicar();
    let vars = vec![
        ("{{ID}}", id),
        ("{{NOME_TESTE}}", nome),
        ("{{EXECUTADO_POR}}", executor),
        ("{{STATUS}}", status),
        ("{{DATA}}", data),
    ];
    assert(vars@.map_values(|p: (&str, &str)| (p.0@, p.1@)) =~= vars_det(id@, nome@, executor@, status@, data@));
    doc.fill_placeholders(vars.as_slice());
    let ghost es1 = doc.entradas();
    assert(es1 == preenchido(template.entradas(), vars_det(id@, nome@, executor@, status@, data@)));
    if !doc.cabem_imagens(imagens) {
        return Err(string_of(chars_of("numeracao das imagens esgotada").as_slice()));
    }
    let n = match doc.insert_images(imagens, legendas, escalar) {
        Ok(n) => n,
        Err(m) => return Err(m),
    };
    let ghost es2 = doc.entradas();
    assert(inserido(es1, imagens@.map_values(|i: Imagem| imagem_view(i)), legendas, *escalar, n as int, es2));
    assert(para_gravar(es2) == es2.map_values(
        |e: (Seq<char>, Seq<u8>)| (e.0, e.0.take(11) == "word/media/"@ && e.0.len() >= 11, e.1),
    ));
    let b = match doc.write() {
        Ok(b) => b,
        Err(m) => return Err(m),
    };
    assert(b@ == escrito(es2));
    Ok((b, n))
}


/// The warnings that the images of a test give when its document is made
/// (see `Docx::avisos_imagens`), on the template filled as `gerar_det` fills it.
pub fn avisos_det(
    template: &Docx,
    id: &str,
    nome: &str,
    executor: &str,
    status: &str,
    data: &str,
    imagens: &[Imagem],
) -> (r: (bool, Vec<bool>))
    ensures
        ({
            let es1 = preenchido(template.entradas(), vars_det(id@, nome@, executor@, status@, data@));
            let iv = imagens@.map_values(|i: Imagem| imagem_view(i));
            &&& r.0 == sem_evidencias(es1, iv)
            &&& r.1.len() == imagens.len()
            &&& forall|k: int| 0 <= k < imagens.len() ==> r.1[k] == pulada(es1, iv, k)
        }),
{
    let mut doc = template.duplicar();
    let vars = vec![
        ("{{ID}}", id),
        ("{{NOME_TESTE}}", nome),
        ("{{EXECUTADO_POR}}", executor),
        ("{{STATUS}}", status),
        ("{{DATA}}", data),
    ];
    assert(vars@.map_values(|p: (&str, &str)| (p.0@, p.1@)) =~= vars_det(id@, nome@, executor@, status@, data@));
    doc.fill_placeholders(vars.as_slice());
    doc.avisos_imagens(imagens)
}

/// What happens to a row with an `ID`.
pub enum DecisaoV {
    /// Status "Ignorado": no document.
    Ignorado(Seq<char>, Seq<char>),
    /// No name or no executor: skipped with a warning.
    SemDados(Seq<char>),
    /// No folder for the test: skipped with a warning.
    SemPasta(Seq<char>, Seq<char>),
    /// A document: id, name, executor, status and the folder's position.
    Gerar(Seq<char>, Seq<char>, Seq<char>, Seq<char>, int),
}

/// The decision for a row (none for a row without `ID`).
pub open spec fn decisao(l: Seq<Seq<char>>, c: (int, int, int, int), pastas: Seq<Seq<char>>) -> Option<DecisaoV> {
    let id = campo_spec(l, c.0);
    let nome = campo_spec(l, c.1);
    let executor = campo_spec(l, c.2);
    let status = campo_spec(l, c.3);
    if id.len() == 0 {
        None
    } else if normalize_spec(status) == "ignorado"@ {
        Some(DecisaoV::Ignorado(id, nome))
    } else if nome.len() == 0 || executor.len() == 0 {
        Some(DecisaoV::SemDados(id))
    } else {
        match pasta_do_id(pastas, trim_spec(id)) {
            None => Some(DecisaoV::SemPasta(id, nome)),
            Some(k) => Some(DecisaoV::Gerar(id, nome, executor, status, k)),
        }
    }
}

/// The decisions for the rows after the header, with each row's position.
pub open spec fn decisoes(rows: Seq<Seq<Seq<char>>>, c: (int, int, int, int), pastas: Seq<Seq<char>>) -> Seq<(int, DecisaoV)>
    decreases rows.len(),
{
    if rows.len() <= 1 {
        Seq::empty()
    } else {
        let antes = decisoes(rows.drop_last(), c, pastas);
        match decisao(rows.last(), c, pastas) {
            Some(d) => antes.push((rows.len() - 1, d)),
            None => antes,
        }
    }
}

/// How many decisions are documents, ignored tests and warnings.
pub open spec fn contagem(ds: Seq<(int, DecisaoV)>) -> (int, int, int)
    decreases ds.len(),
{
    if ds.len() == 0 {
        (0, 0, 0)
    } else {
        let (g, i, a) = contagem(ds.drop_last());
        match ds.last().1 {
            DecisaoV::Gerar(..) => (g + 1, i, a),
            DecisaoV::Ignorado(..) => (g, i + 1, a),
            _ => (g, i, a + 1),
        }
    }
}

/// The outcome of `gerar_docx` for the tests: documents generated, tests
/// ignored and rows skipped with a warning.
pub struct ResumoDocx {
    pub gerados: usize,
    pub ignorados: usize,
    pub avisos: usize,
}

/// What `gerar_docx` did with a row, in order; the caller reports each one
/// and saves each document in its folder.
pub enum Evento {
    Ignorado { linha: usize, id: String, nome: String },
    SemDados { linha: usize, id: String },
    SemPasta { linha: usize, id: String, nome: String },
    Gerado {
        linha: usize,
        id: String,
        nome: String,
        pasta: usize,
        arquivo: String,
        bytes: Vec<u8>,
        imagens: usize,
        sem_evidencias: bool,
        puladas: Vec<bool>,
    },
}

/// The images of every folder, as values.
pub open spec fn imagens_v(imagens: Seq<Vec<Imagem>>) -> Seq<Seq<(Seq<char>, Option<Seq<char>>, Option<Seq<u8>>)>> {
    imagens.map_values(|v: Vec<Imagem>| v@.map_values(|i: Imagem| imagem_view(i)))
}

/// An event reports decision `d`; a document is the test's template filled,
/// with the images of its folder, written under the name `nome_det_spec`.
pub open spec fn evento_ok<F: Fn(u32, u32) -> (u64, u64)>(
    e: Evento,
    d: (int, DecisaoV),
    template: Seq<(Seq<char>, Seq<u8>)>,
    data: Seq<char>,
    imgs: Seq<Seq<(Seq<char>, Option<Seq<char>>, Option<Seq<u8>>)>>,
    legendas: bool,
    escalar: F,
) -> bool {
    match (e, d.1) {
        (Evento::Ignorado { linha, id, nome }, DecisaoV::Ignorado(i, n)) => linha == d.0 && id@ == i
            && nome@ == n,
        (Evento::SemDados { linha, id }, DecisaoV::SemDados(i)) => linha == d.0 && id@ == i,
        (Evento::SemPasta { linha, id, nome }, DecisaoV::SemPasta(i, n)) => linha == d.0 && id@ == i
            && nome@ == n,
        (
            Evento::Gerado { linha, id, nome, pasta, arquivo, bytes, imagens, sem_evidencias: se, puladas },
            DecisaoV::Gerar(i, n, x, st, p),
        ) => linha == d.0 && id@ == i && nome@ == n && pasta == p && arquivo@ == nome_det_spec(i, n)
            && det_valido(template, vars_det(i, n, x, st, data), imgs[p], legendas, escalar, bytes@, imagens as int)
            && se == sem_evidencias(preenchido(template, vars_det(i, n, x, st, data)), imgs[p])
            && puladas@.len() == imgs[p].len() && forall|k: int| 0 <= k < imgs[p].len() ==> puladas@[k]
                == pulada(preenchido(template, vars_det(i, n, x, st, data)), imgs[p], k),
        _ => false,
    }
}

/// Generates the document of every test listed in a spreadsheet (its rows,
/// the first being the header). `pastas` are the names of the test folders
/// and `imagens` the evidence images of each (in order); `data_hoje` fills
/// `{{DATA}}`. Rows without `ID` are passed over; a test with status
/// "Ignorado" gets no document; one without name or executor, or without a
/// folder (by the numeric prefix of the folder names), is skipped with a
/// warning. The events say what happened to each row, in order; an error in
/// a document stops the work there.
pub fn gerar_docx<F: Fn(u32, u32) -> (u64, u64)>(
    linhas: &Vec<Vec<String>>,
    template: &Docx,
    pastas: &[String],
    imagens: &Vec<Vec<Imagem>>,
    data_hoje: &str,
    legendas: bool,
    escalar: &F,
) -> (r: (Vec<Evento>, Result<ResumoDocx, String>))
    requires
        imagens.len() == pastas.len(),
        forall|w: u32, h: u32| escalar.requires((w, h)),
    ensures
        linhas@.len() == 0 ==> (r.0@.len() == 0 && (r.1 matches Err(m) && m@ == "planilha sem linhas"@)),
        linhas@.len() > 0 ==> match colunas_spec(tabela(linhas@)[0]) {
            None => r.0@.len() == 0 && (r.1 matches Err(m) && m@ == erro_cabecalho(tabela(linhas@)[0])),
            Some(c) => {
                let ds = decisoes(tabela(linhas@), c, pastas@.map_values(|t: String| t@));
                &&& r.0@.len() <= ds.len()
                &&& forall|j: int| 0 <= j < r.0@.len() ==> evento_ok(
                    #[trigger] r.0@[j],
                    ds[j],
                    template.entradas(),
                    data_hoje@,
                    imagens_v(imagens@),
                    legendas,
                    *escalar,
                )
                &&& r.1 matches Ok(res) ==> r.0@.len() == ds.len() && contagem(ds) == (
                    res.gerados as int,
                    res.ignorados as int,
                    res.avisos as int,
                )
                &&& r.1 is Err ==> r.0@.len() < ds.len() && match ds[r.0@.len() as int].1 {
                    DecisaoV::Gerar(i, n, x, st, p) => !det_possivel(
                        template.entradas(),
                        vars_det(i, n, x, st, data_hoje@),
                        imagens_v(imagens@)[p],
                        legendas,
                        *escalar,
                    ),
                    _ => false,
                }
            },
        },
{
    let mut eventos: Vec<Evento> = Vec::new();
    if linhas.len() == 0 {
        return (eventos, Err(string_of(chars_of("planilha sem linhas").as_slice())));
    }
    let col = match cabecalho(linhas) {
        Ok(h) => h,
        Err(m) => return (eventos, Err(m)),
    };
    let ghost c = (col.id as int, col.nome as int, col.executor as int, col.status as int);
    let ghost rows = tabela(linhas@);
    let ghost pv = pastas@.map_values(|t: String| t@);
    let ghost iv = imagens_v(imagens@);
    let ghost es = template.entradas();
    let mut res = ResumoDocx { gerados: 0, ignorados: 0, avisos: 0 };
    let ignorado = chars_of("ignorado");
    let mut n: usize = 1;
    assert(rows.take(1).len() == 1);
    while n < linhas.len()
        invariant
            rows == tabela(linhas@),
            pv == pastas@.map_values(|t: String| t@),
            iv == imagens_v(imagens@),
            es == template.entradas(),
            imagens.len() == pastas.len(),
            forall|w: u32, h: u32| escalar.requires((w, h)),
            ignorado@ == "ignorado"@,
            c == (col.id as int, col.nome as int, col.executor as int, col.status as int),
            colunas_spec(rows[0]) == Some(c),
            1 <= n <= linhas.len(),
            eventos@.len() == decisoes(rows.take(n as int), c, pv).len(),
            forall|j: int| 0 <= j < eventos@.len() ==> evento_ok(
                #[trigger] eventos@[j],
                decisoes(rows.take(n as int), c, pv)[j],
                es,
                data_hoje@,
                iv,
                legendas,
                *escalar,
            ),
            contagem(decisoes(rows.take(n as int), c, pv)) == (
                res.gerados as int,
                res.ignorados as int,
                res.avisos as int,
            ),
            res.gerados + res.ignorados + res.avisos <= n,
        decreases linhas.len() - n,
    {
        let ghost d0 = decisoes(rows.take(n as int), c, pv);
        let ghost e0 = eventos@;
        let linha = linhas[n].as_slice();
        assert(rows.take(n + 1).drop_last() =~= rows.take(n as int));
        assert(rows.take(n + 1).last() == rows[n as int]);
        assert(rows[n as int] == linhas@[n as int]@.map_values(|t: String| t@));
        let id = col.get(linha, col.id);
        if !id.as_str().is_empty() {
            let nome = col.get(linha, col.nome);
            let executor = col.get(linha, col.executor);
            let status = col.get(linha, col.status);
            let ns = normalize(status.as_str());
            if mesmas(&chars_of(ns.as_str()), &ignorado) {
                let e = Evento::Ignorado { linha: n, id, nome };
                eventos.push(e);
                res.ignorados = res.ignorados + 1;
            } else if nome.as_str().is_empty() || executor.as_str().is_empty() {
                let e = Evento::SemDados { linha: n, id };
                eventos.push(e);
                res.avisos = res.avisos + 1;
            } else {
                match achar_subpasta(pastas, id.as_str()) {
                    None => {
                        let e = Evento::SemPasta { linha: n, id, nome };
                        eventos.push(e);
                        res.avisos = res.avisos + 1;
                    },
                    Some(k) => {
                        proof {
                            lemma_pasta_do_id(pv, trim_spec(id@));
                        }
                        let det = gerar_det(
                            template,
                            id.as_str(),
                            nome.as_str(),
                            executor.as_str(),
                            status.as_str(),
                            data_hoje,
                            imagens[k].as_slice(),
                            legendas,
                            escalar,
                        );
                        assert(iv[k as int] == imagens@[k as int]@.map_values(|i: Imagem| imagem_view(i)));
                        match det {
                            Ok((b, ni)) => {
                                let arquivo = nome_det(id.as_str(), nome.as_str());
                                let (se, ileg) = avisos_det(
                                    template,
                                    id.as_str(),
                                    nome.as_str(),
                                    executor.as_str(),
                                    status.as_str(),
                                    data_hoje,
                                    imagens[k].as_slice(),
                                );
                                let e = Evento::Gerado {
                                    linha: n,
                                    id,
                                    nome,
                                    pasta: k,
                                    arquivo,
                                    bytes: b,
                                    imagens: ni,
                                    sem_evidencias: se,
                                    puladas: ileg,
                                };
                                eventos.push(e);
                                res.gerados = res.gerados + 1;
                            },
                            Err(m) => {
                                proof {
                                    lemma_decisoes_prefixo(rows, c, pv, n + 1);
                                    let d1 = decisoes(rows.take(n + 1), c, pv);
                                    let ds = decisoes(rows, c, pv);
                                    assert(decisao(rows[n as int], c, pv) is Some);
                                    assert(d1 == d0.push((n as int, decisao(rows[n as int], c, pv)->0)));
                                    assert(d1[d0.len() as int].1 is Gerar);
                                    assert(ds[d0.len() as int] == d1[d0.len() as int]);
                                    assert forall|j: int| 0 <= j < eventos@.len() implies evento_ok(
                                        #[trigger] eventos@[j],
                                        ds[j],
                                        es,
                                        data_hoje@,
                                        iv,
                                        legendas,
                                        *escalar,
                                    ) by {
                                        assert(ds[j] == d1[j]);
                                        assert(d1[j] == d0[j]);
                                    }
                                    assert(eventos@.len() < ds.len());
                                    assert(ds[eventos@.len() as int].1 is Gerar);
                                    assert(colunas_spec(tabela(linhas@)[0]) == Some(c));
                                    assert(ds == decisoes(tabela(linhas@), c, pastas@.map_values(|t: String| t@)));
                                }
                                return (eventos, Err(m));
                            },
                        }
                    },
                }
            }
            proof {
                let d1 = decisoes(rows.take(n + 1), c, pv);
                assert(d1 == d0.push((n as int, decisao(rows[n as int], c, pv)->0)));
                assert(eventos@.drop_last() =~= e0);
                assert forall|j: int| 0 <= j < eventos@.len() implies evento_ok(
                    #[trigger] eventos@[j],
                    d1[j],
                    es,
                    data_hoje@,
                    iv,
                    legendas,
                    *escalar,
                ) by {
                    if j < e0.len() {
                        assert(eventos@[j] == e0[j]);
                        assert(d1[j] == d0[j]);
                    }
                }
                assert(d1.drop_last() =~= d0);
            }
        }
        n = n + 1;
    }
    assert(rows.take(linhas.len() as int) =~= rows);
    (eventos, Ok(res))
}

/// The rows after the header that have an `ID`.
pub open spec fn linhas_com_id(rows: Seq<Seq<Seq<char>>>, c: (int, int, int, int)) -> int
    decreases rows.len(),
{
    if rows.len() <= 1 {
        0
    } else {
        linhas_com_id(rows.drop_last(), c) + if campo_spec(rows.last(), c.0).len() > 0 {
            1int
        } else {
            0int
        }
    }
}

/// Every row with an `ID` is accounted for exactly once: the documents
/// generated, the tests ignored and the warnings add up to the rows with an
/// `ID`, and each such row has one decision.
pub proof fn lemma_contagem(rows: Seq<Seq<Seq<char>>>, c: (int, int, int, int), pastas: Seq<Seq<char>>)
    ensures
        decisoes(rows, c, pastas).len() == linhas_com_id(rows, c),
        ({
            let (g, i, a) = contagem(decisoes(rows, c, pastas));
            g + i + a == decisoes(rows, c, pastas).len()
        }),
    decreases rows.len(),
{
    if rows.len() > 1 {
        lemma_contagem(rows.drop_last(), c, pastas);
        let d0 = decisoes(rows.drop_last(), c, pastas);
        match decisao(rows.last(), c, pastas) {
            Some(d) => {
                assert(decisoes(rows, c, pastas).drop_last() =~= d0);
            },
            None => {},
        }
    }
}

proof fn lemma_decisoes_prefixo(rows: Seq<Seq<Seq<char>>>, c: (int, int, int, int), pastas: Seq<Seq<char>>, k: int)
    requires
        1 <= k <= rows.len(),
    ensures
        decisoes(rows.take(k), c, pastas).len() <= decisoes(rows, c, pastas).len(),
        forall|j: int| 0 <= j < decisoes(rows.take(k), c, pastas).len() ==> #[trigger] decisoes(rows, c, pastas)[j]
            == decisoes(rows.take(k), c, pastas)[j],
    decreases rows.len() - k,
{
    if k < rows.len() {
        lemma_decisoes_prefixo(rows.drop_last(), c, pastas, k);
        assert(rows.drop_last().take(k) =~= rows.take(k));
    } else {
        assert(rows.take(k) =~= rows);
    }
}

} // verus!
