//! The work area: the central `Release` folder, the `modelos` folder, and
//! the choice of folders and files among the names found in them (the
//! caller lists the folders).

use vstd::prelude::*;

use crate::acoes::{eh_imagem, eh_imagem_spec, ext_eh, minusculas, minusculas_spec, tem_extensao};
use crate::ordem::{ordenado, ordenar_natural};
use crate::texto::{ascii_upper, char_to_ascii_uppercase, chars_of, string_of};
use crate::util::{anexar, comeca_com, comeca_spec, trim_chars, trim_spec};
use crate::xlsx::termina_spec;

verus! {

/// A plain path component: ASCII letters only.
pub open spec fn componente_simples(c: Seq<char>) -> bool {
    c.len() > 0 && forall|i: int| 0 <= i < c.len() ==> ('a' <= #[trigger] c[i] && c[i] <= 'z') || ('A' <= c[i]
        && c[i] <= 'Z')
}

/// A Windows verbatim path (`\\?\...`), which `PathBuf::push` normalises.
pub open spec fn verbatim(base: Seq<char>) -> bool {
    comeca_spec(base, seq!['\\', '\\', '?', '\\'])
}

/// std's `Path::join` of a base path and a plain (relative) component, as
/// text: the component goes after the base, with or without a separator
/// (`/` or `\\`, depending on the platform and on whether the base already
/// ends with one). Which of these the platform gives is left unsaid, and so
/// is the result for a Windows verbatim base.
#[verifier::external_body]
fn juntar_caminho(base: &str, comp: &str) -> (r: String)
    requires
        componente_simples(comp@),
    ensures
        termina_spec(r@, comp@),
        !verbatim(base@) ==> (r@ == base@ + comp@ || exists|sep: char|
            (sep == '/' || sep == '\\') && r@ == base@ + seq![sep] + comp@),
{
    std::path::Path::new(base).join(comp).to_string_lossy().into_owned()
}

/// `r` is `comp` joined to `base`: the base, then the component, with or
/// without one separator between them.
pub open spec fn junto(r: Seq<char>, base: Seq<char>, comp: Seq<char>) -> bool {
    r == base + comp || exists|sep: char| (sep == '/' || sep == '\\') && r == base + seq![sep] + comp
}

proof fn lemma_junto_comeca(r: Seq<char>, base: Seq<char>, comp: Seq<char>)
    requires
        junto(r, base, comp),
    ensures
        comeca_spec(r, base),
{
    if r == base + comp {
        assert(r.take(base.len() as int) =~= base);
    } else {
        let sep = choose|sep: char| (sep == '/' || sep == '\\') && r == base + seq![sep] + comp;
        assert(r.take(base.len() as int) =~= base);
    }
}

/// The work area: its root, `<root>/Release` and `<root>/modelos`.
pub struct Workspace {
    pub raiz: String,
    pub dir_release: String,
    pub dir_modelos: String,
}

impl Workspace {
    /// The work area rooted at `base`: `Release` and `modelos` joined to it.
    pub fn detectar(base: &str) -> (r: Workspace)
        ensures
            r.raiz@ == base@,
            termina_spec(r.dir_release@, "Release"@),
            termina_spec(r.dir_modelos@, "modelos"@),
            !verbatim(base@) ==> junto(r.dir_release@, base@, "Release"@),
            !verbatim(base@) ==> junto(r.dir_modelos@, base@, "modelos"@),
            !verbatim(base@) ==> comeca_spec(r.dir_release@, base@) && comeca_spec(r.dir_modelos@, base@),
    {
        proof {
            reveal_strlit("Release");
            reveal_strlit("modelos");
        }
        let raiz = string_of(chars_of(base).as_slice());
        let dir_release = juntar_caminho(base, "Release");
        let dir_modelos = juntar_caminho(base, "modelos");
        proof {
            if !verbatim(base@) {
                lemma_junto_comeca(dir_release@, base@, "Release"@);
                lemma_junto_comeca(dir_modelos@, base@, "modelos"@);
            }
        }
        Workspace { raiz, dir_release, dir_modelos }
    }

    /// The standard name of a card folder: "ID CARD <number>".
    pub fn nome_card(&self, numero: &str) -> (r: String)
        ensures
            r@ == "ID CARD "@ + trim_spec(numero@),
    {
        let mut m = chars_of("ID CARD ");
        anexar(&mut m, &trim_chars(&chars_of(numero)));
        string_of(m.as_slice())
    }
}

// ─── Choosing among names ──────────────────────────────────────────────────

/// Which names a listing keeps.
pub enum Criterio {
    /// Card folders: the name in upper case starts with "ID CARD".
    Card,
    /// Files with this extension (any case).
    Extensao(String),
    /// Exported spreadsheets: `.xlsx` and the name in lower case starts with
    /// "teste_selected".
    Planilha,
    /// Files with this extension (any case) and, when given, this prefix.
    Arquivo(String, Option<String>),
    /// Evidence images (PNG or JPEG).
    Imagem,
    /// Names that, in lower case, do not start with "det_compilado".
    NaoCompilado,
}

/// The text in ASCII upper case.
pub open spec fn maiusculas_spec(s: Seq<char>) -> Seq<char> {
    s.map_values(|c: char| ascii_upper(c))
}

/// Whether a name meets the criterion.
pub open spec fn atende(c: Criterio, nome: Seq<char>) -> bool {
    match c {
        Criterio::Card => comeca_spec(maiusculas_spec(nome), "ID CARD"@),
        Criterio::Extensao(e) => tem_extensao(nome, e@),
        Criterio::Planilha => tem_extensao(nome, "xlsx"@) && comeca_spec(
            minusculas_spec(nome),
            "teste_selected"@,
        ),
        Criterio::Arquivo(e, p) => tem_extensao(nome, e@) && match p {
            Some(pre) => comeca_spec(nome, pre@),
            None => true,
        },
        Criterio::Imagem => eh_imagem_spec(nome),
        Criterio::NaoCompilado => !comeca_spec(minusculas_spec(nome), "det_compilado"@),
    }
}

fn maiusculas(v: &Vec<char>) -> (r: Vec<char>)
    ensures
        r@ == maiusculas_spec(v@),
{
    let mut out: Vec<char> = Vec::new();
    for k in 0..v.len()
        invariant
            out@ == v@.take(k as int).map_values(|c: char| ascii_upper(c)),
    {
        out.push(char_to_ascii_uppercase(v[k]));
        assert(out@ =~= v@.take(k + 1).map_values(|c: char| ascii_upper(c)));
    }
    assert(v@.take(v.len() as int) =~= v@);
    out
}

/// Whether `nome` meets criterion `c`.
pub fn atende_exec(c: &Criterio, nome: &str) -> (r: bool)
    ensures
        r == atende(*c, nome@),
{
    let v = chars_of(nome);
    match c {
        Criterio::Card => comeca_com(&maiusculas(&v), &chars_of("ID CARD")),
        Criterio::Extensao(e) => ext_eh(nome, e.as_str()),
        Criterio::Planilha => ext_eh(nome, "xlsx") && comeca_com(
            &minusculas(&v),
            &chars_of("teste_selected"),
        ),
        Criterio::Arquivo(e, p) => ext_eh(nome, e.as_str()) && match p {
            Some(pre) => comeca_com(&v, &chars_of(pre.as_str())),
            None => true,
        },
        Criterio::Imagem => eh_imagem(nome),
        Criterio::NaoCompilado => !comeca_com(&minusculas(&v), &chars_of("det_compilado")),
    }
}

/// The names that meet the criterion, in the order given.
pub fn filtrar(nomes: &Vec<String>, c: &Criterio) -> (r: Vec<String>)
    ensures
        r@.map_values(|t: String| t@) == nomes@.map_values(|t: String| t@).filter(
            |n: Seq<char>| atende(*c, n),
        ),
{
    let ghost nv = nomes@.map_values(|t: String| t@);
    let ghost pred = |n: Seq<char>| atende(*c, n);
    let mut out: Vec<String> = Vec::new();
    assert(nv.take(0) =~= Seq::<Seq<char>>::empty());
    proof {
        reveal(Seq::filter);
    }
    for i in 0..nomes.len()
        invariant
            nv == nomes@.map_values(|t: String| t@),
            pred == |n: Seq<char>| atende(*c, n),
            out@.map_values(|t: String| t@) == nv.take(i as int).filter(pred),
    {
        proof {
            reveal(Seq::filter);
        }
        assert(nv.take(i + 1).drop_last() =~= nv.take(i as int));
        assert(nv.take(i + 1).last() == nomes@[i as int]@);
        if atende_exec(c, nomes[i].as_str()) {
            let ghost o0 = out@;
            out.push(nomes[i].clone());
            assert(out@.map_values(|t: String| t@) =~= o0.map_values(|t: String| t@).push(nomes@[i as int]@));
        }
    }
    assert(nv.take(nomes.len() as int) =~= nv);
    out
}

/// The names that meet the criterion, in natural order.
pub fn listar_ordenado(nomes: &Vec<String>, c: &Criterio) -> (r: Vec<String>)
    ensures
        r@.map_values(|t: String| t@) == ordenado(
            nomes@.map_values(|t: String| t@).filter(|n: Seq<char>| atende(*c, n)),
        ),
{
    let f = filtrar(nomes, c);
    ordenar_natural(&f)
}

/// The first name (in natural order) that meets the criterion: the template
/// among the `.docx` files of `modelos`.
pub fn primeiro_ordenado(nomes: &Vec<String>, c: &Criterio) -> (r: Option<String>)
    ensures
        ({
            let o = ordenado(nomes@.map_values(|t: String| t@).filter(|n: Seq<char>| atende(*c, n)));
            match r {
                Some(n) => o.len() > 0 && n@ == o[0],
                None => o.len() == 0,
            }
        }),
{
    let l = listar_ordenado(nomes, c);
    if l.len() == 0 {
        None
    } else {
        Some(l[0].clone())
    }
}

// ─── The latest spreadsheet ────────────────────────────────────────────────

/// A modification time (seconds and nanoseconds since the epoch) is earlier
/// than another.
pub open spec fn tempo_lt(a: (u64, u32), b: (u64, u32)) -> bool {
    a.0 < b.0 || (a.0 == b.0 && a.1 < b.1)
}

/// The position of the last of the latest times (what a stable sort by time
/// puts last).
pub open spec fn ultimo_max(ts: Seq<(u64, u32)>) -> int
    decreases ts.len(),
{
    if ts.len() <= 1 {
        0
    } else {
        let b = ultimo_max(ts.drop_last());
        if tempo_lt(ts.last(), ts[b]) {
            b
        } else {
            ts.len() - 1
        }
    }
}

/// The time `ultimo_max` picks is the latest, seconds first and then
/// nanoseconds: no time is later, and every time after it is earlier.
pub proof fn lemma_tempo_mais_tarde(ts: Seq<(u64, u32)>)
    requires
        ts.len() > 0,
    ensures
        0 <= ultimo_max(ts) < ts.len(),
        forall|k: int|
            0 <= k < ts.len() ==> (#[trigger] ts[k]).0 < ts[ultimo_max(ts)].0 || (ts[k].0 == ts[ultimo_max(ts)].0
                && ts[k].1 <= ts[ultimo_max(ts)].1),
        forall|k: int|
            ultimo_max(ts) < k < ts.len() ==> (#[trigger] ts[k]).0 < ts[ultimo_max(ts)].0 || (ts[k].0
                == ts[ultimo_max(ts)].0 && ts[k].1 < ts[ultimo_max(ts)].1),
    decreases ts.len(),
{
    if ts.len() > 1 {
        let d = ts.drop_last();
        lemma_tempo_mais_tarde(d);
        assert(forall|k: int| 0 <= k < d.len() ==> d[k] == ts[k]);
    }
}

/// The spreadsheet `mais_recente` chooses was modified no earlier than any
/// other exported spreadsheet (seconds first, then nanoseconds).
pub proof fn lemma_mais_recente(cands: Seq<(u64, u32, Seq<char>)>)
    requires
        planilhas(cands).len() > 0,
    ensures
        ({
            let ps = planilhas(cands);
            let m = ps[ultimo_max(ps.map_values(|t: (u64, u32, Seq<char>)| (t.0, t.1)))];
            &&& cands.contains(m) && atende(Criterio::Planilha, m.2)
            &&& forall|k: int| 0 <= k < ps.len() ==> (#[trigger] ps[k]).0 < m.0 || (ps[k].0 == m.0 && ps[k].1 <= m.1)
            &&& forall|p: (u64, u32, Seq<char>)| #[trigger] cands.contains(p) && atende(Criterio::Planilha, p.2)
                ==> p.0 < m.0 || (p.0 == m.0 && p.1 <= m.1)
        }),
{
    let ps = planilhas(cands);
    let ts = ps.map_values(|t: (u64, u32, Seq<char>)| (t.0, t.1));
    lemma_tempo_mais_tarde(ts);
    let b = ultimo_max(ts);
    assert(ps.contains(ps[b]));
    let pred = |t: (u64, u32, Seq<char>)| atende(Criterio::Planilha, t.2);
    assert(ps == cands.filter(pred));
    cands.lemma_filter_pred(pred, b);
    cands.lemma_filter_contains_rev(pred, ps[b]);
    assert forall|k: int| 0 <= k < ps.len() implies (#[trigger] ps[k]).0 < ps[b].0 || (ps[k].0 == ps[b].0 && ps[k].1
        <= ps[b].1) by {
        assert(ts[k] == (ps[k].0, ps[k].1));
        assert(ts[b] == (ps[b].0, ps[b].1));
    }
    assert forall|p: (u64, u32, Seq<char>)| #[trigger] cands.contains(p) && atende(Criterio::Planilha, p.2) implies p.0
        < ps[b].0 || (p.0 == ps[b].0 && p.1 <= ps[b].1) by {
        broadcast use vstd::seq_lib::group_filter_ensures;

        assert(ps.contains(p));
        let k = choose|k: int| 0 <= k < ps.len() && ps[k] == p;
        assert(ps[k] == p);
    }
}

/// The exported spreadsheets among the files (name and modification time).
pub open spec fn planilhas(cands: Seq<(u64, u32, Seq<char>)>) -> Seq<(u64, u32, Seq<char>)> {
    cands.filter(|t: (u64, u32, Seq<char>)| atende(Criterio::Planilha, t.2))
}

/// The latest exported spreadsheet among the files of the work area's root
/// (each with its modification time): the last of those with the latest time.
pub fn mais_recente(cands: &Vec<(u64, u32, String)>) -> (r: Option<String>)
    ensures
        ({
            let ps = planilhas(cands@.map_values(|t: (u64, u32, String)| (t.0, t.1, t.2@)));
            match r {
                Some(n) => ps.len() > 0 && n@ == ps[ultimo_max(
                    ps.map_values(|t: (u64, u32, Seq<char>)| (t.0, t.1)),
                )].2,
                None => ps.len() == 0,
            }
        }),
{
    let ghost cv = cands@.map_values(|t: (u64, u32, String)| (t.0, t.1, t.2@));
    let ghost pred = |t: (u64, u32, Seq<char>)| atende(Criterio::Planilha, t.2);
    let crit = Criterio::Planilha;
    let mut melhor: Option<usize> = None;
    let mut fs: Vec<usize> = Vec::new();
    assert(cv.take(0) =~= Seq::<(u64, u32, Seq<char>)>::empty());
    proof {
        reveal(Seq::filter);
    }
    for i in 0..cands.len()
        invariant
            cv == cands@.map_values(|t: (u64, u32, String)| (t.0, t.1, t.2@)),
            pred == |t: (u64, u32, Seq<char>)| atende(Criterio::Planilha, t.2),
            crit == Criterio::Planilha,
            fs@.map_values(|k: usize| cv[k as int]) == cv.take(i as int).filter(pred),
            forall|q: int| 0 <= q < fs@.len() ==> (#[trigger] fs@[q]) < i,
            match melhor {
                Some(b) => fs@.len() > 0 && b == fs@[ultimo_max(
                    fs@.map_values(|k: usize| (cv[k as int].0, cv[k as int].1)),
                )],
                None => fs@.len() == 0,
            },
    {
        proof {
            reveal(Seq::filter);
        }
        assert(cv.take(i + 1).drop_last() =~= cv.take(i as int));
        assert(cv.take(i + 1).last() == cv[i as int]);
        if atende_exec(&crit, cands[i].2.as_str()) {
            let ghost f0 = fs@;
            let ghost ts0 = f0.map_values(|k: usize| (cv[k as int].0, cv[k as int].1));
            fs.push(i);
            let ghost ts1 = fs@.map_values(|k: usize| (cv[k as int].0, cv[k as int].1));
            assert(ts1.drop_last() =~= ts0);
            assert(fs@.map_values(|k: usize| cv[k as int]) =~= f0.map_values(|k: usize| cv[k as int]).push(cv[i as int]));
            match melhor {
                None => {
                    melhor = Some(i);
                },
                Some(b) => {
                    proof {
                        lemma_ultimo_max(ts0);
                    }
                    let (s1, n1) = (cands[i].0, cands[i].1);
                    let (sb, nb) = (cands[b].0, cands[b].1);
                    if !(s1 < sb || (s1 == sb && n1 < nb)) {
                        melhor = Some(i);
                    }
                },
            }
        }
    }
    assert(cv.take(cands.len() as int) =~= cv);
    match melhor {
        Some(b) => {
            proof {
                let ts = fs@.map_values(|k: usize| (cv[k as int].0, cv[k as int].1));
                let ps = cv.filter(pred);
                lemma_ultimo_max(ts);
                let u = ultimo_max(ts);
                assert(ps[u] == cv[fs@[u] as int]);
                assert(ps.map_values(|t: (u64, u32, Seq<char>)| (t.0, t.1)) =~= ts);
            }
            Some(cands[b].2.clone())
        },
        None => None,
    }
}

proof fn lemma_ultimo_max(ts: Seq<(u64, u32)>)
    ensures
        ts.len() > 0 ==> 0 <= ultimo_max(ts) < ts.len(),
    decreases ts.len(),
{
    if ts.len() > 1 {
        lemma_ultimo_max(ts.drop_last());
    }
}

} // verus!
