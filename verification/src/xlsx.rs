//! Minimal .xlsx reading (zip + XML): the shared strings and the first
//! worksheet, as rows of cells, and the mapping of the required headers.

use vstd::prelude::*;
use vstd::wrapping::usize_specs;

use vstd::utf8::{decode_utf8, valid_utf8};

use crate::arquivo_zip::{
    texto_de_entrada, texto_erro_zip, zip_abrir, zip_central, zip_entrada, zip_entradas,
    zip_tamanho, zip_texto, Arquivo,
};
use crate::ordem::{lemma_ordenado, ordenado, ordenar_natural};
use crate::texto::{chars_of, string_of};
use crate::util::{
    atributo, conteudo_tag, escanear, fatia, marca_ok, marca_view, marcas_from, textos,
    textos_spec, trim_chars, trim_spec, unescape_chars, unescape_spec, attr_spec, blocos,
    blocos_spec,
    inner_tag_spec, digits_value, lemma_digits_prefix, Marca, anexar, mesmas, comeca_com,
    comeca_spec, normalize, normalize_spec,
};

verus! {

// ─── Cells ─────────────────────────────────────────────────────────────────

/// A cell as read from a sheet: text, or the raw text of a numeric value
/// (which the caller shows as a number).
pub enum Celula {
    Texto(String),
    Numero(String),
}

/// The mathematical form of a `Celula`.
pub enum CelulaV {
    Texto(Seq<char>),
    Numero(Seq<char>),
}

impl View for Celula {
    type V = CelulaV;

    open spec fn view(&self) -> CelulaV {
        match self {
            Celula::Texto(t) => CelulaV::Texto(t@),
            Celula::Numero(t) => CelulaV::Numero(t@),
        }
    }
}

impl Celula {
    /// The text of the cell, whatever its kind.
    pub fn texto(&self) -> (r: &String)
        ensures
            r@ == match self@ {
                CelulaV::Texto(t) => t,
                CelulaV::Numero(t) => t,
            },
    {
        match self {
            Celula::Texto(t) => t,
            Celula::Numero(t) => t,
        }
    }
}

/// The empty text cell that fills the columns a row does not have.
pub open spec fn vazia() -> CelulaV {
    CelulaV::Texto(Seq::empty())
}

// ─── Column references ─────────────────────────────────────────────────────

/// An ASCII letter.
pub open spec fn letra(c: char) -> bool {
    ('A' <= c && c <= 'Z') || ('a' <= c && c <= 'z')
}

/// The value of a column letter: `A`/`a` is 1, `Z`/`z` is 26.
pub open spec fn valor_letra(c: char) -> usize {
    if 'a' <= c && c <= 'z' {
        (c as u32 - 'a' as u32 + 1) as usize
    } else {
        (c as u32 - 'A' as u32 + 1) as usize
    }
}

/// The column number read so far from the leading letters of `s`, and
/// whether a character that is not a letter has ended them. The number is
/// accumulated in base 26 with `usize` wrap-around.
pub open spec fn col_fold(s: Seq<char>) -> (usize, bool)
    decreases s.len(),
{
    if s.len() == 0 {
        (0, false)
    } else {
        let (acc, parou) = col_fold(s.drop_last());
        let c = s.last();
        if parou {
            (acc, true)
        } else if letra(c) {
            (usize_specs::wrapping_add(usize_specs::wrapping_mul(acc, 26), valor_letra(c)), false)
        } else {
            (acc, true)
        }
    }
}

/// The 0-based column of a cell reference: its leading letters read as a
/// column number (`A` = 1, `Z` = 26, `AA` = 27, ...), minus one; 0 without letters.
pub open spec fn col_spec(r: Seq<char>) -> usize {
    let n = col_fold(r).0;
    if n == 0 {
        0
    } else {
        (n - 1) as usize
    }
}

/// "B7" -> 1: the 0-based column index of a cell reference.
pub fn col_index(cell_ref: &str) -> (r: usize)
    ensures
        r == col_spec(cell_ref@),
{
    let v = chars_of(cell_ref);
    let mut idx: usize = 0;
    let mut parou = false;
    let mut i: usize = 0;
    assert(v@.take(0) =~= Seq::<char>::empty());
    while i < v.len()
        invariant
            i <= v.len(),
            v@ == cell_ref@,
            (idx, parou) == col_fold(v@.take(i as int)),
        decreases v.len() - i,
    {
        let c = v[i];
        assert(v@.take(i + 1).drop_last() =~= v@.take(i as int));
        assert(v@.take(i + 1).last() == c);
        if !parou {
            if 'a' <= c && c <= 'z' {
                let d: usize = ((c as u32) - ('a' as u32) + 1) as usize;
                idx = idx.wrapping_mul(26).wrapping_add(d);
            } else if 'A' <= c && c <= 'Z' {
                let d: usize = ((c as u32) - ('A' as u32) + 1) as usize;
                idx = idx.wrapping_mul(26).wrapping_add(d);
            } else {
                parou = true;
            }
        }
        i = i + 1;
    }
    assert(v@.take(v.len() as int) =~= v@);
    idx.saturating_sub(1)
}

// ─── Shared-string indices ─────────────────────────────────────────────────

/// What `str::parse::<usize>` gives for `s`: an optional `+`, then at least
/// one decimal digit, and a value that fits in a `usize`.
pub open spec fn parse_usize_spec(s: Seq<char>) -> Option<usize> {
    let d = if s.len() > 0 && s[0] == '+' {
        s.drop_first()
    } else {
        s
    };
    if d.len() == 0 {
        None
    } else {
        match digits_value(d, 10) {
            Some(v) => if v <= usize::MAX {
                Some(v as usize)
            } else {
                None
            },
            None => None,
        }
    }
}

/// `str::parse::<usize>` on the characters of `v`.
pub fn parse_usize(v: &Vec<char>) -> (r: Option<usize>)
    ensures
        r == parse_usize_spec(v@),
{
    let mut ini: usize = 0;
    if v.len() > 0 && v[0] == '+' {
        ini = 1;
    }
    let ghost d = v@.subrange(ini as int, v.len() as int);
    assert(d =~= (if v@.len() > 0 && v@[0] == '+' { v@.drop_first() } else { v@ }));
    if ini == v.len() {
        return None;
    }
    let mut acc: usize = 0;
    let mut i = ini;
    assert(d.take(0) =~= Seq::<char>::empty());
    while i < v.len()
        invariant
            ini <= i <= v.len(),
            d == v@.subrange(ini as int, v.len() as int),
            d == (if v@.len() > 0 && v@[0] == '+' { v@.drop_first() } else { v@ }),
            d.len() > 0,
            digits_value(d.take(i - ini), 10) == Some(acc as nat),
        decreases v.len() - i,
    {
        let c = v[i];
        assert(d.take(i + 1 - ini).drop_last() =~= d.take(i - ini));
        assert(d.take(i + 1 - ini).last() == c);
        if c < '0' || c > '9' {
            proof {
                lemma_digits_prefix(d, 10, i + 1 - ini);
            }
            return None;
        }
        let dv: usize = ((c as u32) - ('0' as u32)) as usize;
        let novo = match acc.checked_mul(10) {
            Some(m) => m.checked_add(dv),
            None => None,
        };
        match novo {
            Some(n) => {
                acc = n;
            },
            None => {
                proof {
                    lemma_digits_prefix(d, 10, i + 1 - ini);
                }
                return None;
            },
        }
        i = i + 1;
    }
    assert(d.take(v.len() - ini) =~= d);
    Some(acc)
}


// ─── Cells of a row ────────────────────────────────────────────────────────

/// `<c`, the opening of a cell.
pub open spec fn abre_c() -> Seq<char> {
    seq!['<', 'c']
}

/// `</c>`, the closing of a cell.
pub open spec fn fecha_c() -> Seq<char> {
    seq!['<', '/', 'c', '>']
}

/// The text of a cell found by the scanner: the whole self-closing tag, or
/// everything up to and including `</c>`.
pub open spec fn celula_de(s: Seq<char>, m: Marca) -> Seq<char> {
    match m.fim {
        Some(f) => s.subrange(m.ini, f + 4),
        None => s.subrange(m.ini, m.gt + 1),
    }
}

/// The cells of a row, in order.
pub open spec fn celulas_spec(row: Seq<char>) -> Seq<Seq<char>> {
    marcas_from(row, 0, abre_c(), fecha_c()).map_values(|m: Marca| celula_de(row, m))
}

/// The `<c ...>...</c>` (or `<c .../>`) elements of a row, in order.
pub fn iter_celulas(row: &Vec<char>) -> (r: Vec<Vec<char>>)
    ensures
        r@.map_values(|w: Vec<char>| w@) == celulas_spec(row@),
{
    let a = vec!['<', 'c'];
    let f = vec!['<', '/', 'c', '>'];
    assert(a@ =~= abre_c());
    assert(f@ =~= fecha_c());
    let ms = escanear(row, &a, &f);
    let ghost mv = ms@.map_values(|m: (usize, usize, Option<usize>)| marca_view(m));
    let mut out: Vec<Vec<char>> = Vec::new();
    let rl = row.len();
    for k in 0..ms.len()
        invariant
            rl == row@.len(),
            a@ == abre_c(),
            f@ == fecha_c(),
            mv == ms@.map_values(|m: (usize, usize, Option<usize>)| marca_view(m)),
            forall|q: int| 0 <= q < ms@.len() ==> marca_ok(row@, a@, f@, #[trigger] ms@[q]),
            out@.map_values(|w: Vec<char>| w@) == mv.take(k as int).map_values(
                |m: Marca| celula_de(row@, m),
            ),
    {
        let m = ms[k];
        assert(marca_ok(row@, a@, f@, ms@[k as int]));
        let b = match m.2 {
            Some(fim) => fatia(row, m.0, fim + 4),
            None => fatia(row, m.0, m.1 + 1),
        };
        assert(b@ == celula_de(row@, mv[k as int]));
        let ghost antes = out@;
        out.push(b);
        assert(out@ == antes.push(b));
        assert(out@.map_values(|w: Vec<char>| w@) =~= antes.map_values(|w: Vec<char>| w@).push(b@));
        assert(mv.take(k + 1).map_values(|m: Marca| celula_de(row@, m)) =~= mv.take(k as int).map_values(
            |m: Marca| celula_de(row@, m),
        ).push(b@));
    }
    assert(mv.take(ms.len() as int) =~= mv);
    out
}

/// `o` or the empty text.
pub open spec fn ou_vazio(o: Option<Seq<char>>) -> Seq<char> {
    match o {
        Some(t) => t,
        None => Seq::empty(),
    }
}

/// The 0-based column of a cell: from its `r` attribute (column 0 without one).
pub open spec fn coluna_celula(c: Seq<char>) -> usize {
    col_spec(ou_vazio(attr_spec(c, seq!['r'])))
}

/// The shared string at index `i`, or the empty text when there is none.
pub open spec fn compartilhada(shared: Seq<Seq<char>>, i: Option<usize>) -> Seq<char> {
    match i {
        Some(k) => if k < shared.len() {
            shared[k as int]
        } else {
            Seq::empty()
        },
        None => Seq::empty(),
    }
}

/// The value of a cell, by its `t` attribute: `inlineStr` joins the texts of
/// its `<t>` elements; `s` takes the shared string whose index `<v>` holds;
/// `str` is the unescaped `<v>`; anything else is a number whose text is the
/// unescaped `<v>`.
pub open spec fn valor_celula(c: Seq<char>, shared: Seq<Seq<char>>) -> CelulaV {
    let t = ou_vazio(attr_spec(c, seq!['t']));
    let v = ou_vazio(inner_tag_spec(c, seq!['v']));
    if t == "inlineStr"@ {
        CelulaV::Texto(textos_spec(c, seq!['t']).flatten())
    } else if t == "s"@ {
        CelulaV::Texto(compartilhada(shared, parse_usize_spec(trim_spec(v))))
    } else if t == "str"@ {
        CelulaV::Texto(unescape_spec(v))
    } else {
        CelulaV::Numero(unescape_spec(v))
    }
}

/// A cell as (column, is numeric, text).
pub open spec fn celula_v(t: (usize, bool, Vec<char>)) -> (usize, CelulaV) {
    (t.0, if t.1 {
        CelulaV::Numero(t.2@)
    } else {
        CelulaV::Texto(t.2@)
    })
}

fn ou_vazio_exec(o: Option<Vec<char>>) -> (r: Vec<char>)
    ensures
        r@ == ou_vazio(match o {
            Some(w) => Some(w@),
            None => None,
        }),
{
    match o {
        Some(w) => w,
        None => Vec::new(),
    }
}

/// Column and value of one cell (see `coluna_celula` and `valor_celula`).
pub fn parse_celula(c: &Vec<char>, shared: &Vec<Vec<char>>) -> (r: (usize, bool, Vec<char>))
    ensures
        celula_v(r) == (coluna_celula(c@), valor_celula(c@, shared@.map_values(|w: Vec<char>| w@))),
{
    let ghost sv = shared@.map_values(|w: Vec<char>| w@);
    let nr = vec!['r'];
    let nt = vec!['t'];
    let nv = vec!['v'];
    assert(nr@ =~= seq!['r']);
    assert(nt@ =~= seq!['t']);
    assert(nv@ =~= seq!['v']);
    let r = ou_vazio_exec(atributo(c, &nr));
    let texto_r = string_of(r.as_slice());
    let col = col_index(texto_r.as_str());
    let t = ou_vazio_exec(atributo(c, &nt));
    if mesmas(&t, &chars_of("inlineStr")) {
        let ts = textos(c, &nt);
        let s = crate::docx::juntar(&ts);
        return (col, false, s);
    }
    let v = ou_vazio_exec(conteudo_tag(c, &nv));
    if mesmas(&t, &chars_of("s")) {
        let idx = parse_usize(&trim_chars(&v));
        let s = match idx {
            Some(k) => if k < shared.len() {
                fatia(&shared[k], 0, shared[k].len())
            } else {
                Vec::new()
            },
            None => Vec::new(),
        };
        proof {
            if let Some(k) = idx {
                if k < shared.len() {
                    assert(shared@[k as int]@.subrange(0, shared@[k as int]@.len() as int) =~= sv[k as int]);
                }
            }
        }
        (col, false, s)
    } else if mesmas(&t, &chars_of("str")) {
        (col, false, unescape_chars(&v))
    } else {
        (col, true, unescape_chars(&v))
    }
}


// ─── Shared strings ────────────────────────────────────────────────────────

/// The shared strings of `xl/sharedStrings.xml`: for each `<si>` element, the
/// texts of its `<t>` elements joined (a self-closing `<si/>` is empty).
pub open spec fn shared_spec(xml: Seq<char>) -> Seq<Seq<char>> {
    blocos_spec(xml, "<si"@, "</si>"@, "<si/>"@).map_values(
        |si: Seq<char>| textos_spec(si, seq!['t']).flatten(),
    )
}

/// Reads the shared-string table.
pub fn parse_shared_strings(xml: &Vec<char>) -> (r: Vec<Vec<char>>)
    ensures
        r@.map_values(|w: Vec<char>| w@) == shared_spec(xml@),
{
    let a = chars_of("<si");
    let f = chars_of("</si>");
    let z = chars_of("<si/>");
    proof {
        reveal_strlit("<si");
    }
    let sis = blocos(xml, &a, &f, &z);
    let ghost bv = sis@.map_values(|w: Vec<char>| w@);
    let nt = vec!['t'];
    assert(nt@ =~= seq!['t']);
    let mut out: Vec<Vec<char>> = Vec::new();
    for k in 0..sis.len()
        invariant
            nt@ == seq!['t'],
            bv == sis@.map_values(|w: Vec<char>| w@),
            out@.map_values(|w: Vec<char>| w@) == bv.take(k as int).map_values(
                |si: Seq<char>| textos_spec(si, seq!['t']).flatten(),
            ),
    {
        let ts = textos(&sis[k], &nt);
        let texto = crate::docx::juntar(&ts);
        assert(bv[k as int] == sis@[k as int]@);
        let ghost antes = out@;
        out.push(texto);
        assert(out@ == antes.push(texto));
        assert(out@.map_values(|w: Vec<char>| w@) =~= antes.map_values(|w: Vec<char>| w@).push(texto@));
        assert(bv.take(k + 1).map_values(|si: Seq<char>| textos_spec(si, seq!['t']).flatten())
            =~= bv.take(k as int).map_values(|si: Seq<char>| textos_spec(si, seq!['t']).flatten()).push(
            texto@,
        ));
    }
    assert(bv.take(sis.len() as int) =~= bv);
    out
}

// ─── The worksheet ─────────────────────────────────────────────────────────

/// The cells of a row: column and value of each, in order.
pub open spec fn linha_celulas(row: Seq<char>, shared: Seq<Seq<char>>) -> Seq<(usize, CelulaV)> {
    celulas_spec(row).map_values(|c: Seq<char>| (coluna_celula(c), valor_celula(c, shared)))
}

/// The cells of every `<row>` of the sheet.
pub open spec fn linhas_spec(xml: Seq<char>, shared: Seq<Seq<char>>) -> Seq<Seq<(usize, CelulaV)>> {
    blocos_spec(xml, "<row"@, "</row>"@, "<row/>"@).map_values(
        |row: Seq<char>| linha_celulas(row, shared),
    )
}

/// One past the largest column of a row's cells (0 without cells).
pub open spec fn largura_linha(cs: Seq<(usize, CelulaV)>) -> nat
    decreases cs.len(),
{
    if cs.len() == 0 {
        0
    } else {
        let w = largura_linha(cs.drop_last());
        let c = (cs.last().0 + 1) as nat;
        if c > w {
            c
        } else {
            w
        }
    }
}

/// The widest row.
pub open spec fn largura(rows: Seq<Seq<(usize, CelulaV)>>) -> nat
    decreases rows.len(),
{
    if rows.len() == 0 {
        0
    } else {
        let w = largura(rows.drop_last());
        let c = largura_linha(rows.last());
        if c > w {
            c
        } else {
            w
        }
    }
}

/// The value of column `j` of a row: the last cell of that column, or an
/// empty text cell.
pub open spec fn valor_em(cs: Seq<(usize, CelulaV)>, j: int) -> CelulaV
    decreases cs.len(),
{
    if cs.len() == 0 {
        vazia()
    } else if cs.last().0 == j {
        cs.last().1
    } else {
        valor_em(cs.drop_last(), j)
    }
}

/// The rows of the sheet: every row has as many cells as the widest one,
/// each column holding the value of its last cell in the row, the others empty.
pub open spec fn sheet_spec(xml: Seq<char>, shared: Seq<Seq<char>>) -> Seq<Seq<CelulaV>> {
    let rows = linhas_spec(xml, shared);
    let m = largura(rows);
    rows.map_values(|cs: Seq<(usize, CelulaV)>| Seq::new(m, |j: int| valor_em(cs, j)))
}

/// Every row of a sheet has the same number of cells: as many as the
/// widest row has columns.
pub proof fn lemma_largura_uniforme(xml: Seq<char>, shared: Seq<Seq<char>>)
    ensures
        forall|i: int| 0 <= i < sheet_spec(xml, shared).len() ==> (#[trigger] sheet_spec(xml, shared)[i]).len()
            == largura(linhas_spec(xml, shared)),
{
}

proof fn lemma_largura_linha(cs: Seq<(usize, CelulaV)>, k: int)
    requires
        0 <= k < cs.len(),
    ensures
        cs[k].0 + 1 <= largura_linha(cs),
    decreases cs.len(),
{
    if k < cs.len() - 1 {
        lemma_largura_linha(cs.drop_last(), k);
    }
}

proof fn lemma_largura(rows: Seq<Seq<(usize, CelulaV)>>, i: int)
    requires
        0 <= i < rows.len(),
    ensures
        largura_linha(rows[i]) <= largura(rows),
    decreases rows.len(),
{
    if i < rows.len() - 1 {
        lemma_largura(rows.drop_last(), i);
    }
}

/// The cells of one row and its width.
fn celulas_da_linha(row: &Vec<char>, shared: &Vec<Vec<char>>) -> (r: (Vec<(usize, bool, Vec<char>)>, usize))
    ensures
        r.0@.map_values(|t: (usize, bool, Vec<char>)| celula_v(t)) == linha_celulas(
            row@,
            shared@.map_values(|w: Vec<char>| w@),
        ),
        r.1 == largura_linha(linha_celulas(row@, shared@.map_values(|w: Vec<char>| w@))),
{
    let ghost sv = shared@.map_values(|w: Vec<char>| w@);
    let cs = iter_celulas(row);
    let ghost cv = cs@.map_values(|w: Vec<char>| w@);
    let mut out: Vec<(usize, bool, Vec<char>)> = Vec::new();
    let mut w: usize = 0;
    for k in 0..cs.len()
        invariant
            sv == shared@.map_values(|w: Vec<char>| w@),
            cv == cs@.map_values(|w: Vec<char>| w@),
            out@.map_values(|t: (usize, bool, Vec<char>)| celula_v(t)) == cv.take(k as int).map_values(
                |c: Seq<char>| (coluna_celula(c), valor_celula(c, sv)),
            ),
            w == largura_linha(out@.map_values(|t: (usize, bool, Vec<char>)| celula_v(t))),
    {
        let t = parse_celula(&cs[k], shared);
        assert(cv[k as int] == cs@[k as int]@);
        let ghost antes = out@;
        let ghost va = antes.map_values(|t: (usize, bool, Vec<char>)| celula_v(t));
        if t.0 + 1 > w {
            w = t.0 + 1;
        }
        out.push(t);
        assert(out@ == antes.push(t));
        assert(out@.map_values(|t: (usize, bool, Vec<char>)| celula_v(t)) =~= va.push(celula_v(t)));
        assert(va.push(celula_v(t)).drop_last() =~= va);
        assert(cv.take(k + 1).map_values(|c: Seq<char>| (coluna_celula(c), valor_celula(c, sv)))
            =~= cv.take(k as int).map_values(
            |c: Seq<char>| (coluna_celula(c), valor_celula(c, sv)),
        ).push(celula_v(t)));
    }
    assert(cv.take(cs.len() as int) =~= cv);
    (out, w)
}

/// A row of width `m` holding the given cells (see `valor_em`).
fn montar_linha(cs: &Vec<(usize, bool, Vec<char>)>, m: usize) -> (r: Vec<Celula>)
    requires
        forall|k: int| 0 <= k < cs@.len() ==> (#[trigger] cs@[k]).0 < m,
    ensures
        r@.map_values(|c: Celula| c@) == Seq::new(
            m as nat,
            |j: int| valor_em(cs@.map_values(|t: (usize, bool, Vec<char>)| celula_v(t)), j),
        ),
{
    let ghost cv = cs@.map_values(|t: (usize, bool, Vec<char>)| celula_v(t));
    let mut linha: Vec<Celula> = Vec::new();
    for j in 0..m
        invariant
            linha@.map_values(|c: Celula| c@) == Seq::new(j as nat, |q: int| vazia()),
    {
        let ghost antes = linha@;
        let e = Celula::Texto(String::new());
        assert(e@ == vazia());
        linha.push(e);
        assert(linha@ == antes.push(e));
        assert(linha@.map_values(|c: Celula| c@) =~= antes.map_values(|c: Celula| c@).push(e@));
        assert(linha@.map_values(|c: Celula| c@) =~= Seq::new((j + 1) as nat, |q: int| vazia()));
    }
    assert(cv.take(0) =~= Seq::<(usize, CelulaV)>::empty());
    assert(linha@.map_values(|c: Celula| c@) =~= Seq::new(m as nat, |q: int| valor_em(cv.take(0), q)));
    for k in 0..cs.len()
        invariant
            cv == cs@.map_values(|t: (usize, bool, Vec<char>)| celula_v(t)),
            forall|q: int| 0 <= q < cs@.len() ==> (#[trigger] cs@[q]).0 < m,
            linha.len() == m,
            linha@.map_values(|c: Celula| c@) == Seq::new(
                m as nat,
                |q: int| valor_em(cv.take(k as int), q),
            ),
    {
        let col = cs[k].0;
        let txt = string_of(cs[k].2.as_slice());
        let cel = if cs[k].1 {
            Celula::Numero(txt)
        } else {
            Celula::Texto(txt)
        };
        assert(cel@ == cv[k as int].1);
        assert(cs@[k as int].0 < m);
        let ghost antes = linha@;
        linha.set(col, cel);
        assert(linha@ == antes.update(col as int, cel));
        assert(cv.take(k + 1).drop_last() =~= cv.take(k as int));
        assert(cv.take(k + 1).last() == cv[k as int]);
        assert(cv[k as int].0 == col);
        assert forall|q: int| 0 <= q < m implies (#[trigger] linha@[q])@ == valor_em(
            cv.take(k + 1),
            q,
        ) by {
            if q != col {
                assert(linha@[q] == antes[q]);
                assert(antes.map_values(|c: Celula| c@)[q] == valor_em(cv.take(k as int), q));
            }
        }
        assert(linha@.map_values(|c: Celula| c@) =~= Seq::new(
            m as nat,
            |q: int| valor_em(cv.take(k + 1), q),
        ));
    }
    assert(cv.take(cs.len() as int) =~= cv);
    linha
}

/// The rows of a worksheet (see `sheet_spec`).
pub fn parse_sheet(xml: &Vec<char>, shared: &Vec<Vec<char>>) -> (r: Vec<Vec<Celula>>)
    ensures
        r@.map_values(|l: Vec<Celula>| l@.map_values(|c: Celula| c@)) == sheet_spec(
            xml@,
            shared@.map_values(|w: Vec<char>| w@),
        ),
{
    let ghost sv = shared@.map_values(|w: Vec<char>| w@);
    let a = chars_of("<row");
    let f = chars_of("</row>");
    let z = chars_of("<row/>");
    proof {
        reveal_strlit("<row");
    }
    let rows = blocos(xml, &a, &f, &z);
    let ghost bv = rows@.map_values(|w: Vec<char>| w@);
    let ghost lv = linhas_spec(xml@, sv);
    assert(lv =~= bv.map_values(|row: Seq<char>| linha_celulas(row, sv)));
    let mut partes: Vec<Vec<(usize, bool, Vec<char>)>> = Vec::new();
    let mut m: usize = 0;
    for i in 0..rows.len()
        invariant
            sv == shared@.map_values(|w: Vec<char>| w@),
            bv == rows@.map_values(|w: Vec<char>| w@),
            lv == bv.map_values(|row: Seq<char>| linha_celulas(row, sv)),
            partes@.len() == i,
            forall|q: int| 0 <= q < i ==> (#[trigger] partes@[q])@.map_values(
                |t: (usize, bool, Vec<char>)| celula_v(t),
            ) == lv[q],
            m == largura(lv.take(i as int)),
    {
        let (cs, w) = celulas_da_linha(&rows[i], shared);
        assert(bv[i as int] == rows@[i as int]@);
        assert(lv.take(i + 1).drop_last() =~= lv.take(i as int));
        assert(lv.take(i + 1).last() == lv[i as int]);
        if w > m {
            m = w;
        }
        partes.push(cs);
    }
    assert(lv.take(rows.len() as int) =~= lv);
    let mut out: Vec<Vec<Celula>> = Vec::new();
    for i in 0..partes.len()
        invariant
            partes@.len() == lv.len(),
            forall|q: int| 0 <= q < lv.len() ==> (#[trigger] partes@[q])@.map_values(
                |t: (usize, bool, Vec<char>)| celula_v(t),
            ) == lv[q],
            m == largura(lv),
            out@.map_values(|l: Vec<Celula>| l@.map_values(|c: Celula| c@)) == lv.take(
                i as int,
            ).map_values(|cs: Seq<(usize, CelulaV)>| Seq::new(m as nat, |j: int| valor_em(cs, j))),
    {
        let ghost pv = partes@[i as int]@.map_values(|t: (usize, bool, Vec<char>)| celula_v(t));
        assert(pv == lv[i as int]);
        assert forall|k: int| 0 <= k < partes@[i as int]@.len() implies (#[trigger] partes@[i as int]@[k]).0 < m by {
            assert(pv[k] == celula_v(partes@[i as int]@[k]));
            lemma_largura_linha(pv, k);
            lemma_largura(lv, i as int);
        }
        let l = montar_linha(&partes[i], m);
        let ghost antes = out@;
        out.push(l);
        assert(out@ == antes.push(l));
        assert(out@.map_values(|l: Vec<Celula>| l@.map_values(|c: Celula| c@)) =~= antes.map_values(
            |l: Vec<Celula>| l@.map_values(|c: Celula| c@),
        ).push(l@.map_values(|c: Celula| c@)));
        assert(lv.take(i + 1).map_values(
            |cs: Seq<(usize, CelulaV)>| Seq::new(m as nat, |j: int| valor_em(cs, j)),
        ) =~= lv.take(i as int).map_values(
            |cs: Seq<(usize, CelulaV)>| Seq::new(m as nat, |j: int| valor_em(cs, j)),
        ).push(Seq::new(m as nat, |j: int| valor_em(lv[i as int], j))));
    }
    assert(lv.take(partes.len() as int) =~= lv);
    out
}


// ─── Choosing the worksheet ────────────────────────────────────────────────

/// `v` ends with `suf`.
pub open spec fn termina_spec(v: Seq<char>, suf: Seq<char>) -> bool {
    suf.len() <= v.len() && v.skip(v.len() - suf.len()) == suf
}

/// Whether `v` ends with `suf` (`str::ends_with`).
pub fn termina_com(v: &Vec<char>, suf: &Vec<char>) -> (r: bool)
    ensures
        r == termina_spec(v@, suf@),
{
    if suf.len() > v.len() {
        return false;
    }
    let d = v.len() - suf.len();
    let mut k: usize = 0;
    while k < suf.len()
        invariant
            d == v.len() - suf.len(),
            k <= suf.len(),
            forall|q: int| 0 <= q < k ==> v@[d + q] == suf@[q],
        decreases suf.len() - k,
    {
        if v[d + k] != suf[k] {
            assert(v@.skip(d as int)[k as int] != suf@[k as int]);
            return false;
        }
        k = k + 1;
    }
    assert(v@.skip(d as int) =~= suf@);
    true
}

/// The name of a worksheet part: `xl/worksheets/sheet*.xml`.
pub open spec fn eh_worksheet(n: Seq<char>) -> bool {
    comeca_spec(n, "xl/worksheets/sheet"@) && termina_spec(n, ".xml"@)
}

/// The worksheet names among `ns`, in order.
pub open spec fn worksheets(ns: Seq<Seq<char>>) -> Seq<Seq<char>>
    decreases ns.len(),
{
    if ns.len() == 0 {
        Seq::empty()
    } else if eh_worksheet(ns.last()) {
        worksheets(ns.drop_last()).push(ns.last())
    } else {
        worksheets(ns.drop_last())
    }
}

proof fn lemma_worksheets(ns: Seq<Seq<char>>)
    ensures
        forall|k: int| 0 <= k < worksheets(ns).len() ==> eh_worksheet(#[trigger] worksheets(ns)[k])
            && ns.contains(worksheets(ns)[k]),
    decreases ns.len(),
{
    if ns.len() > 0 {
        lemma_worksheets(ns.drop_last());
        assert forall|k: int| 0 <= k < worksheets(ns).len() implies eh_worksheet(
            #[trigger] worksheets(ns)[k],
        ) && ns.contains(worksheets(ns)[k]) by {
            let w = worksheets(ns.drop_last());
            if k < w.len() {
                assert(worksheets(ns)[k] == w[k]);
                let x = w[k];
                assert(ns.drop_last().contains(x));
                let q = choose|q: int| 0 <= q < ns.drop_last().len() && ns.drop_last()[q] == x;
                assert(ns[q] == x);
            } else {
                assert(ns[ns.len() - 1] == ns.last());
            }
        }
    }
}

/// The worksheet that is read: the first worksheet name in natural order.
pub open spec fn primeira_spec(ns: Seq<Seq<char>>) -> Option<Seq<char>> {
    let ws = worksheets(ns);
    if ws.len() == 0 {
        None
    } else {
        Some(ordenado(ws)[0])
    }
}

/// The first worksheet part among the names, in natural order (see `primeira_spec`).
pub fn primeira_worksheet(nomes: &Vec<String>) -> (r: Option<String>)
    ensures
        match r {
            Some(n) => primeira_spec(nomes@.map_values(|t: String| t@)) == Some(n@),
            None => primeira_spec(nomes@.map_values(|t: String| t@)) is None,
        },
        r matches Some(n) ==> eh_worksheet(n@) && nomes@.map_values(|t: String| t@).contains(n@),
{
    let ghost nv = nomes@.map_values(|t: String| t@);
    let pre = chars_of("xl/worksheets/sheet");
    let suf = chars_of(".xml");
    let mut ws: Vec<String> = Vec::new();
    for i in 0..nomes.len()
        invariant
            nv == nomes@.map_values(|t: String| t@),
            pre@ == "xl/worksheets/sheet"@,
            suf@ == ".xml"@,
            ws@.map_values(|t: String| t@) == worksheets(nv.take(i as int)),
    {
        let n = chars_of(nomes[i].as_str());
        assert(nv.take(i + 1).drop_last() =~= nv.take(i as int));
        assert(nv.take(i + 1).last() == n@);
        if comeca_com(&n, &pre) && termina_com(&n, &suf) {
            let ghost w0 = ws@;
            let c = nomes[i].clone();
            ws.push(c);
            assert(ws@.map_values(|t: String| t@) =~= w0.map_values(|t: String| t@).push(n@));
        }
    }
    assert(nv.take(nomes.len() as int) =~= nv);
    let ghost wv = ws@.map_values(|t: String| t@);
    let ord = ordenar_natural(&ws);
    if ord.len() == 0 {
        proof {
            lemma_ordenado(wv);
            assert(wv.to_multiset().len() == wv.len()) by {
                broadcast use vstd::seq_lib::group_to_multiset_ensures;
            }
            assert(ordenado(wv).to_multiset().len() == ordenado(wv).len()) by {
                broadcast use vstd::seq_lib::group_to_multiset_ensures;
            }
        }
        None
    } else {
        let primeiro = ord[0].clone();
        proof {
            lemma_ordenado(wv);
            lemma_worksheets(nv);
            broadcast use vstd::seq_lib::group_to_multiset_ensures;
            assert(ordenado(wv)[0] == primeiro@);
            assert(ordenado(wv).contains(primeiro@));
            assert(wv.to_multiset().count(primeiro@) > 0);
            assert(wv.contains(primeiro@));
            assert(wv.len() > 0);
        }
        Some(primeiro)
    }
}

/// The names of the entries that open, in order.
pub open spec fn nomes_que_abrem(es: Seq<(Seq<char>, bool, Option<Seq<u8>>)>) -> Seq<Seq<char>>
    decreases es.len(),
{
    if es.len() == 0 {
        Seq::empty()
    } else if es.last().1 {
        nomes_que_abrem(es.drop_last()).push(es.last().0)
    } else {
        nomes_que_abrem(es.drop_last())
    }
}

/// For each entry of an archive, in order, its name when it opens, and
/// `None` when it does not.
fn nomes_das_entradas(a: &mut Arquivo) -> (r: Vec<Option<String>>)
    ensures
        zip_entradas(*final(a)) == zip_entradas(*old(a)),
        r@.len() == zip_entradas(*old(a)).len(),
        forall|i: int|
            0 <= i < r@.len() ==> ((#[trigger] r@[i] is Some <==> zip_entradas(*old(a))[i].1) && (r@[i] is Some
                ==> r@[i]->0@ == zip_entradas(*old(a))[i].0)),
{
    let ghost es = zip_entradas(*a);
    let n = zip_tamanho(a);
    let mut out: Vec<Option<String>> = Vec::new();
    let mut i: usize = 0;
    while i < n
        invariant
            es == zip_entradas(*a),
            n == es.len(),
            i <= n,
            out@.len() == i,
            forall|k: int|
                0 <= k < out@.len() ==> ((#[trigger] out@[k] is Some <==> es[k].1) && (out@[k] is Some
                    ==> out@[k]->0@ == es[k].0)),
        decreases n - i,
    {
        let ghost o0 = out@;
        match zip_entrada(a, i) {
            Ok((nome, _)) => {
                out.push(Some(nome));
            },
            Err(_) => {
                out.push(None);
            },
        }
        assert forall|k: int| 0 <= k < out@.len() implies ((#[trigger] out@[k] is Some <==> es[k].1) && (
        out@[k] is Some ==> out@[k]->0@ == es[k].0)) by {
            if k < o0.len() {
                assert(out@[k] == o0[k]);
            }
        }
        i = i + 1;
    }
    out
}

/// The names that were found, in order.
pub open spec fn abertos(s: Seq<Option<String>>) -> Seq<Seq<char>>
    decreases s.len(),
{
    if s.len() == 0 {
        Seq::empty()
    } else {
        match s.last() {
            Some(n) => abertos(s.drop_last()).push(n@),
            None => abertos(s.drop_last()),
        }
    }
}

proof fn lemma_abertos(s: Seq<Option<String>>, es: Seq<(Seq<char>, bool, Option<Seq<u8>>)>)
    requires
        s.len() == es.len(),
        forall|i: int|
            0 <= i < s.len() ==> ((#[trigger] s[i] is Some <==> es[i].1) && (s[i] is Some ==> s[i]->0@
                == es[i].0)),
    ensures
        abertos(s) == nomes_que_abrem(es),
    decreases s.len(),
{
    if s.len() > 0 {
        let d = s.drop_last();
        let e = es.drop_last();
        assert forall|i: int| 0 <= i < d.len() implies ((#[trigger] d[i] is Some <==> e[i].1) && (d[i]
            is Some ==> d[i]->0@ == e[i].0)) by {
            assert(d[i] == s[i]);
            assert(e[i] == es[i]);
        }
        lemma_abertos(d, e);
        assert(s.last() == s[s.len() - 1]);
        assert(es.last() == es[es.len() - 1]);
    }
}

/// The names among the outcomes, in order.
fn nomes_abertos(ns: &Vec<Option<String>>) -> (r: Vec<String>)
    ensures
        r@.map_values(|t: String| t@) == abertos(ns@),
{
    let mut out: Vec<String> = Vec::new();
    for i in 0..ns.len()
        invariant
            out@.map_values(|t: String| t@) == abertos(ns@.take(i as int)),
    {
        assert(ns@.take(i + 1).drop_last() =~= ns@.take(i as int));
        assert(ns@.take(i + 1).last() == ns@[i as int]);
        match &ns[i] {
            Some(n) => {
                let ghost o0 = out@;
                out.push(n.clone());
                assert(out@.map_values(|t: String| t@) =~= o0.map_values(|t: String| t@).push(n@));
            },
            None => {},
        }
    }
    assert(ns@.take(ns.len() as int) =~= ns@);
    out
}

/// The shared strings of an archive's entries: those of `xl/sharedStrings.xml`
/// when it can be read as UTF-8 text, none otherwise.
pub open spec fn shared_de(es: Seq<(Seq<char>, bool, Option<Seq<u8>>)>) -> Seq<Seq<char>> {
    match texto_de_entrada(es, "xl/sharedStrings.xml"@) {
        Some(t) => shared_spec(t),
        None => Seq::empty(),
    }
}

/// The rows of a sheet as values.
pub open spec fn linhas_view(rows: Seq<Vec<Celula>>) -> Seq<Seq<CelulaV>> {
    rows.map_values(|l: Vec<Celula>| l@.map_values(|c: Celula| c@))
}

/// Reads the first worksheet of an .xlsx held in memory: the worksheet part
/// that comes first in natural order among the entries that open, read with
/// the shared strings of `xl/sharedStrings.xml` (none when that part cannot
/// be read); its rows are as wide as the widest (see `sheet_spec`).
pub fn read_xlsx(dados: Vec<u8>) -> (r: Result<Vec<Vec<Celula>>, String>)
    ensures
        match zip_central(dados@) {
            None => r matches Err(m) && m@.take(15) == "xlsx invalido: "@,
            Some(es) => match primeira_spec(nomes_que_abrem(es)) {
                None => r matches Err(m) && m@ == "nenhuma worksheet no xlsx"@,
                Some(n) => match texto_de_entrada(es, n) {
                    Some(x) => r matches Ok(rows) && linhas_view(rows@) == sheet_spec(x, shared_de(es)),
                    None => r matches Err(m) && m@ == "nao li "@ + n,
                },
            },
        },
{
    let mut a = match zip_abrir(dados) {
        Ok(a) => a,
        Err(e) => {
            let mut m = chars_of("xlsx invalido: ");
            proof {
                reveal_strlit("xlsx invalido: ");
            }
            let ghost pre = m@;
            let t = chars_of(texto_erro_zip(&e).as_str());
            anexar(&mut m, &t);
            assert(m@.take(15) =~= pre);
            return Err(string_of(m.as_slice()));
        },
    };
    let ghost es = zip_entradas(a);
    let shared = match zip_texto(&mut a, "xl/sharedStrings.xml") {
        Some(xml) => parse_shared_strings(&chars_of(xml.as_str())),
        None => Vec::new(),
    };
    let ghost sh = shared@.map_values(|w: Vec<char>| w@);
    assert(sh == shared_de(es));
    let achados = nomes_das_entradas(&mut a);
    let nomes = nomes_abertos(&achados);
    proof {
        lemma_abertos(achados@, es);
    }
    let nome = match primeira_worksheet(&nomes) {
        Some(n) => n,
        None => {
            return Err(string_of(chars_of("nenhuma worksheet no xlsx").as_slice()));
        },
    };
    let xml = match zip_texto(&mut a, nome.as_str()) {
        Some(x) => x,
        None => {
            let mut m = chars_of("nao li ");
            anexar(&mut m, &chars_of(nome.as_str()));
            return Err(string_of(m.as_slice()));
        },
    };
    let rows = parse_sheet(&chars_of(xml.as_str()), &shared);
    Ok(rows)
}

// ─── The required headers ──────────────────────────────────────────────────

/// The first column whose normalised header is one of the aliases.
pub open spec fn achar_coluna(cab: Seq<Seq<char>>, aliases: Seq<Seq<char>>) -> Option<int>
    decreases cab.len(),
{
    if cab.len() == 0 {
        None
    } else {
        match achar_coluna(cab.drop_last(), aliases) {
            Some(i) => Some(i),
            None => if aliases.contains(normalize_spec(cab.last())) {
                Some(cab.len() - 1)
            } else {
                None
            },
        }
    }
}

proof fn lemma_achar_prefixo(cab: Seq<Seq<char>>, aliases: Seq<Seq<char>>, j: int)
    requires
        0 <= j <= cab.len(),
        achar_coluna(cab.take(j), aliases) is Some,
    ensures
        achar_coluna(cab, aliases) == achar_coluna(cab.take(j), aliases),
    decreases cab.len(),
{
    if j == cab.len() {
        assert(cab.take(j) =~= cab);
    } else {
        assert(cab.drop_last().take(j) =~= cab.take(j));
        lemma_achar_prefixo(cab.drop_last(), aliases, j);
    }
}

/// The headers joined with `sep` between them.
pub open spec fn juntar_com(cab: Seq<Seq<char>>, sep: Seq<char>) -> Seq<char>
    decreases cab.len(),
{
    if cab.len() == 0 {
        Seq::empty()
    } else if cab.len() == 1 {
        cab[0]
    } else {
        juntar_com(cab.drop_last(), sep) + sep + cab.last()
    }
}

/// The message for a required column that is missing.
pub open spec fn falta_coluna(campo: Seq<char>, cab: Seq<Seq<char>>) -> Seq<char> {
    "coluna obrigatoria nao encontrada: "@ + campo + " (cabecalhos: "@ + juntar_com(cab, " | "@)
        + ")"@
}

/// Aliases of the `ID` column.
pub open spec fn aliases_id() -> Seq<Seq<char>> {
    seq!["id"@]
}

/// Aliases of the test-name column.
pub open spec fn aliases_nome() -> Seq<Seq<char>> {
    seq!["nome do teste inicial"@, "nome do teste"@, "nome do teste (inicial)"@, "nome teste"@]
}

/// Aliases of the executor column.
pub open spec fn aliases_executor() -> Seq<Seq<char>> {
    seq!["executado por"@, "executador por"@, "executor"@, "responsavel"@]
}

/// Aliases of the status column.
pub open spec fn aliases_status() -> Seq<Seq<char>> {
    seq!["status nativo"@, "status"@]
}

/// The columns of `ID`, test name, executor and status in the header row,
/// when all four are there.
pub open spec fn colunas_spec(cab: Seq<Seq<char>>) -> Option<(int, int, int, int)> {
    match (
        achar_coluna(cab, aliases_id()),
        achar_coluna(cab, aliases_nome()),
        achar_coluna(cab, aliases_executor()),
        achar_coluna(cab, aliases_status()),
    ) {
        (Some(a), Some(b), Some(c), Some(d)) => Some((a, b, c, d)),
        _ => None,
    }
}

/// The error for a header row without some required column: it names the
/// first one missing (in the order `ID`, name, executor, status).
pub open spec fn erro_cabecalho(cab: Seq<Seq<char>>) -> Seq<char> {
    if achar_coluna(cab, aliases_id()) is None {
        falta_coluna("ID"@, cab)
    } else if achar_coluna(cab, aliases_nome()) is None {
        falta_coluna("Nome do teste (inicial)"@, cab)
    } else if achar_coluna(cab, aliases_executor()) is None {
        falta_coluna("Executado por"@, cab)
    } else {
        falta_coluna("Status nativo"@, cab)
    }
}

/// The columns of the required fields in the header row.
pub struct HeaderMap {
    pub id: usize,
    pub nome: usize,
    pub executor: usize,
    pub status: usize,
}

/// The first column whose normalised header is one of `aliases`.
fn achar_exec(cab: &[String], aliases: &Vec<Vec<char>>) -> (r: Option<usize>)
    ensures
        match r {
            Some(i) => achar_coluna(cab@.map_values(|t: String| t@), aliases@.map_values(
                |a: Vec<char>| a@,
            )) == Some(i as int),
            None => achar_coluna(cab@.map_values(|t: String| t@), aliases@.map_values(
                |a: Vec<char>| a@,
            )) is None,
        },
{
    let ghost cv = cab@.map_values(|t: String| t@);
    let ghost av = aliases@.map_values(|a: Vec<char>| a@);
    let mut i: usize = 0;
    assert(cv.take(0) =~= Seq::<Seq<char>>::empty());
    while i < cab.len()
        invariant
            cv == cab@.map_values(|t: String| t@),
            av == aliases@.map_values(|a: Vec<char>| a@),
            i <= cab.len(),
            achar_coluna(cv.take(i as int), av) is None,
        decreases cab.len() - i,
    {
        let hn = chars_of(normalize(cab[i].as_str()).as_str());
        assert(cv.take(i + 1).drop_last() =~= cv.take(i as int));
        assert(cv.take(i + 1).last() == cab@[i as int]@);
        let mut achou = false;
        let mut k: usize = 0;
        while k < aliases.len()
            invariant
                av == aliases@.map_values(|a: Vec<char>| a@),
                k <= aliases.len(),
                achou == exists|q: int| 0 <= q < k && av[q] == hn@,
            decreases aliases.len() - k,
        {
            if mesmas(&hn, &aliases[k]) {
                achou = true;
            }
            assert(av[k as int] == aliases@[k as int]@);
            k = k + 1;
        }
        if achou {
            proof {
                let q = choose|q: int| 0 <= q < aliases.len() && av[q] == hn@;
                assert(av.contains(hn@));
            }
            proof {
                assert(achar_coluna(cv.take(i + 1), av) == Some(i as int));
                lemma_achar_prefixo(cv, av, i + 1);
            }
            return Some(i);
        }
        proof {
            if av.contains(hn@) {
                let q = choose|q: int| 0 <= q < av.len() && av[q] == hn@;
            }
        }
        i = i + 1;
    }
    assert(cv.take(cab.len() as int) =~= cv);
    None
}

/// The headers joined with " | ".
fn juntar_cabecalhos(cab: &[String]) -> (r: Vec<char>)
    ensures
        r@ == juntar_com(cab@.map_values(|t: String| t@), " | "@),
{
    let ghost cv = cab@.map_values(|t: String| t@);
    let sep = chars_of(" | ");
    let mut out: Vec<char> = Vec::new();
    assert(cv.take(0) =~= Seq::<Seq<char>>::empty());
    for i in 0..cab.len()
        invariant
            cv == cab@.map_values(|t: String| t@),
            sep@ == " | "@,
            out@ == juntar_com(cv.take(i as int), " | "@),
    {
        assert(cv.take(i + 1).drop_last() =~= cv.take(i as int));
        assert(cv.take(i + 1).last() == cab@[i as int]@);
        if i > 0 {
            anexar(&mut out, &sep);
        }
        anexar(&mut out, &chars_of(cab[i].as_str()));
        assert(i == 0 ==> cv.take(i + 1)[0] == cab@[i as int]@);
        assert(i == 0 ==> out@ =~= cab@[i as int]@);
    }
    assert(cv.take(cab.len() as int) =~= cv);
    out
}

/// The message for a missing required column.
fn erro_coluna(campo: &str, cab: &[String]) -> (r: String)
    ensures
        r@ == falta_coluna(campo@, cab@.map_values(|t: String| t@)),
{
    let mut m = chars_of("coluna obrigatoria nao encontrada: ");
    anexar(&mut m, &chars_of(campo));
    anexar(&mut m, &chars_of(" (cabecalhos: "));
    anexar(&mut m, &juntar_cabecalhos(cab));
    anexar(&mut m, &chars_of(")"));
    string_of(m.as_slice())
}

/// The aliases as character vectors.
fn lista(a: &[&str]) -> (r: Vec<Vec<char>>)
    ensures
        r@.map_values(|w: Vec<char>| w@) == a@.map_values(|t: &str| t@),
{
    let mut out: Vec<Vec<char>> = Vec::new();
    for i in 0..a.len()
        invariant
            out@.map_values(|w: Vec<char>| w@) == a@.map_values(|t: &str| t@).take(i as int),
    {
        let w = chars_of(a[i]);
        let ghost o0 = out@;
        out.push(w);
        assert(out@.map_values(|w: Vec<char>| w@) =~= o0.map_values(|w: Vec<char>| w@).push(w@));
        assert(a@.map_values(|t: &str| t@).take(i + 1) =~= a@.map_values(|t: &str| t@).take(i as int).push(
            a@[i as int]@,
        ));
    }
    assert(a@.map_values(|t: &str| t@).take(a.len() as int) =~= a@.map_values(|t: &str| t@));
    out
}

impl HeaderMap {
    /// Finds the required columns in the header row: `ID`, the test name,
    /// the executor and the status, each by its aliases after `normalize`.
    /// The first one missing gives an error that names it and lists the headers.
    pub fn from_headers(cab: &[String]) -> (r: Result<HeaderMap, String>)
        ensures
            match r {
                Ok(h) => colunas_spec(cab@.map_values(|t: String| t@)) == Some(
                    (h.id as int, h.nome as int, h.executor as int, h.status as int),
                ),
                Err(m) => colunas_spec(cab@.map_values(|t: String| t@)) is None && m@ == erro_cabecalho(
                    cab@.map_values(|t: String| t@),
                ),
            },
    {
        let a_id = lista(&["id"]);
        assert(a_id@.map_values(|w: Vec<char>| w@) =~= aliases_id());
        let a_nome = lista(
            &["nome do teste inicial", "nome do teste", "nome do teste (inicial)", "nome teste"],
        );
        assert(a_nome@.map_values(|w: Vec<char>| w@) =~= aliases_nome());
        let a_ex = lista(&["executado por", "executador por", "executor", "responsavel"]);
        assert(a_ex@.map_values(|w: Vec<char>| w@) =~= aliases_executor());
        let a_st = lista(&["status nativo", "status"]);
        assert(a_st@.map_values(|w: Vec<char>| w@) =~= aliases_status());
        let id = match achar_exec(cab, &a_id) {
            Some(i) => i,
            None => return Err(erro_coluna("ID", cab)),
        };
        let nome = match achar_exec(cab, &a_nome) {
            Some(i) => i,
            None => return Err(erro_coluna("Nome do teste (inicial)", cab)),
        };
        let executor = match achar_exec(cab, &a_ex) {
            Some(i) => i,
            None => return Err(erro_coluna("Executado por", cab)),
        };
        let status = match achar_exec(cab, &a_st) {
            Some(i) => i,
            None => return Err(erro_coluna("Status nativo", cab)),
        };
        Ok(HeaderMap { id, nome, executor, status })
    }

    /// The cell of column `idx` of a row, trimmed; empty past the end of the row.
    pub fn get(&self, linha: &[String], idx: usize) -> (r: String)
        ensures
            r@ == trim_spec(if idx < linha@.len() {
                linha@[idx as int]@
            } else {
                Seq::empty()
            }),
    {
        if idx < linha.len() {
            string_of(trim_chars(&chars_of(linha[idx].as_str())).as_slice())
        } else {
            string_of(trim_chars(&Vec::new()).as_slice())
        }
    }
}

} // verus!
