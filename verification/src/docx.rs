//! The .docx template engine: reads a template (a zip of XML parts), fills the
//! text tokens (robust to tokens split across runs) and puts images inline at
//! the `{{EVIDENCIAS}}` paragraph.

use vstd::prelude::*;
use vstd::utf8::{decode_utf8, encode_utf8, valid_utf8};

use crate::arquivo_zip::{
    cabe_no_zip, limite_entrada,
    texto_erro_io, texto_erro_zip, zip_abrir, zip_bytes, zip_central, zip_entrada, zip_entradas,
    zip_escrever, zip_finalizar, zip_gravadas, zip_iniciar, zip_novo, zip_tamanho,
};
use crate::util::{
    anexar, escape_chars, escape_spec, fatia, find_char, find_chars, find_spec, lemma_find_spec,
    fim_de_nome, mesmas, textos, textos_spec, comeca_com, comeca_spec, dec_digits,
    digitos, is_digit, parse_u32_radix, parse_u32_spec, run_len, lemma_run_len,
};
use crate::texto::{chars_of, string_of};

verus! {

/// The text of `String::from_utf8_lossy` for these bytes: the decoded text,
/// with U+FFFD in place of each invalid sequence.
pub uninterp spec fn utf8_lossy(b: Seq<u8>) -> Seq<char>;

/// std's `String::from_utf8_lossy`: valid UTF-8 is decoded as it is; the
/// text is named `utf8_lossy`.
#[verifier::external_body]
fn texto_lossy(b: &[u8]) -> (r: String)
    ensures
        r@ == utf8_lossy(b@),
        valid_utf8(b@) ==> r@ == decode_utf8(b@),
{
    String::from_utf8_lossy(b).into_owned()
}

/// The characters of the bytes, decoded as by `String::from_utf8_lossy`.
fn texto_de_bytes(b: &[u8]) -> (r: Vec<char>)
    ensures
        r@ == utf8_lossy(b@),
        valid_utf8(b@) ==> r@ == decode_utf8(b@),
{
    let t = texto_lossy(b);
    chars_of(t.as_str())
}

/// The UTF-8 bytes of the characters.
fn bytes_de_texto(v: &[char]) -> (r: Vec<u8>)
    ensures
        r@ == encode_utf8(v@),
{
    let s = string_of(v);
    let b = s.as_str().as_bytes();
    let mut out: Vec<u8> = Vec::new();
    for i in 0..b.len()
        invariant
            b@ == encode_utf8(v@),
            out@ == b@.take(i as int),
    {
        out.push(b[i]);
        assert(out@ =~= b@.take(i + 1));
    }
    assert(b@.take(b.len() as int) =~= b@);
    out
}

/// A .docx document held in memory: its zip entries, in order.
pub struct Docx {
    entries: Vec<(String, Vec<u8>)>,
}

/// The view of one entry.
pub open spec fn entrada_view(e: (String, Vec<u8>)) -> (Seq<char>, Seq<u8>) {
    (e.0@, e.1@)
}

/// The index of the first entry named `nome`.
pub open spec fn primeiro_indice(es: Seq<(Seq<char>, Seq<u8>)>, nome: Seq<char>) -> Option<int>
    decreases es.len(),
{
    if es.len() == 0 {
        None
    } else if es[0].0 == nome {
        Some(0)
    } else {
        match primeiro_indice(es.drop_first(), nome) {
            Some(i) => Some(i + 1),
            None => None,
        }
    }
}

proof fn lemma_primeiro_indice(es: Seq<(Seq<char>, Seq<u8>)>, nome: Seq<char>)
    ensures
        match primeiro_indice(es, nome) {
            Some(i) => 0 <= i < es.len() && es[i].0 == nome && forall|j: int|
                0 <= j < i ==> #[trigger] es[j].0 != nome,
            None => forall|j: int| 0 <= j < es.len() ==> #[trigger] es[j].0 != nome,
        },
    decreases es.len(),
{
    if es.len() > 0 && es[0].0 != nome {
        lemma_primeiro_indice(es.drop_first(), nome);
        assert forall|j: int| 1 <= j < es.len() implies #[trigger] es[j].0 == es.drop_first()[j
            - 1].0 by {}
    }
}

/// The entry list after `set_entry(nome, c)`: the first entry of that name
/// gets the new content, or a new entry is added at the end.
pub open spec fn com_entrada(es: Seq<(Seq<char>, Seq<u8>)>, nome: Seq<char>, c: Seq<u8>) -> Seq<(Seq<char>, Seq<u8>)> {
    match primeiro_indice(es, nome) {
        Some(i) => es.update(i, (nome, c)),
        None => es.push((nome, c)),
    }
}

/// The message `write` gives when the zip writer fails: the step that failed
/// (`zip start` or `zip write`, with the name of the entry, or `zip finish`)
/// followed by the writer's error text.
pub open spec fn erro_de_escrita(m: Seq<char>, es: Seq<(Seq<char>, Seq<u8>)>) -> bool {
    ||| exists|i: int|
        0 <= i < es.len() && (comeca_spec(m, "zip start "@ + (#[trigger] es[i]).0 + ": "@) || comeca_spec(
            m,
            "zip write "@ + es[i].0 + ": "@,
        ))
    ||| comeca_spec(m, "zip finish: "@)
}

/// The entries as they are written: name, stored (media files) or deflated,
/// content.
pub open spec fn para_gravar(es: Seq<(Seq<char>, Seq<u8>)>) -> Seq<(Seq<char>, bool, Seq<u8>)> {
    es.map_values(|e: (Seq<char>, Seq<u8>)| (e.0, e.0.take(11) == "word/media/"@ && e.0.len() >= 11, e.1))
}

proof fn lemma_cabe_prefixo(es: Seq<(Seq<char>, bool, Seq<u8>)>, i: int)
    requires
        0 <= i <= es.len(),
        cabe_no_zip(es),
    ensures
        cabe_no_zip(es.take(i)),
{
    assert forall|j: int| 0 <= j < es.take(i).len() implies (#[trigger] es.take(i)[j]).2.len()
        <= limite_entrada() by {
        assert(es.take(i)[j] == es[j]);
    }
}

/// The names and contents of archive entries (all of which were read).
pub open spec fn conteudos(es: Seq<(Seq<char>, bool, Option<Seq<u8>>)>) -> Seq<(Seq<char>, Seq<u8>)> {
    es.map_values(|e: (Seq<char>, bool, Option<Seq<u8>>)| (e.0, e.2->0))
}

/// The first archive entry that cannot be read, if any.
pub open spec fn primeira_falha(es: Seq<(Seq<char>, bool, Option<Seq<u8>>)>) -> Option<int>
    decreases es.len(),
{
    if es.len() == 0 {
        None
    } else {
        match primeira_falha(es.drop_last()) {
            Some(k) => Some(k),
            None => if es.last().2 is None {
                Some(es.len() - 1)
            } else {
                None
            },
        }
    }
}

proof fn lemma_primeira_falha(es: Seq<(Seq<char>, bool, Option<Seq<u8>>)>, i: int)
    requires
        0 <= i < es.len(),
        primeira_falha(es.take(i)) is None,
        es[i].2 is None,
    ensures
        primeira_falha(es) == Some(i),
    decreases es.len(),
{
    if i < es.len() - 1 {
        assert(es.drop_last().take(i) =~= es.take(i));
        lemma_primeira_falha(es.drop_last(), i);
    } else {
        assert(es.drop_last() =~= es.take(i));
    }
}

/// The path of the main document part.
pub open spec fn documento() -> Seq<char> {
    seq!['w', 'o', 'r', 'd', '/', 'd', 'o', 'c', 'u', 'm', 'e', 'n', 't', '.', 'x', 'm', 'l']
}

fn nome_documento() -> (r: Vec<char>)
    ensures
        r@ == documento(),
{
    let r = vec!['w', 'o', 'r', 'd', '/', 'd', 'o', 'c', 'u', 'm', 'e', 'n', 't', '.', 'x', 'm', 'l'];
    assert(r@ =~= documento());
    r
}

impl Docx {
    /// The entries, as names and contents.
    pub closed spec fn entradas(&self) -> Seq<(Seq<char>, Seq<u8>)> {
        self.entries@.map_values(|e: (String, Vec<u8>)| entrada_view(e))
    }

    /// A document with exactly these entries.
    pub fn from_entries(entries: Vec<(String, Vec<u8>)>) -> (r: Docx)
        ensures
            r.entradas() == entries@.map_values(|e: (String, Vec<u8>)| entrada_view(e)),
    {
        Docx { entries }
    }

    /// The entries, in order.
    pub fn entries(&self) -> (r: &Vec<(String, Vec<u8>)>)
        ensures
            r@.map_values(|e: (String, Vec<u8>)| entrada_view(e)) == self.entradas(),
    {
        &self.entries
    }

    /// A copy of the document (the template is copied once per generated file).
    pub fn duplicar(&self) -> (r: Docx)
        ensures
            r.entradas() == self.entradas(),
    {
        let mut out: Vec<(String, Vec<u8>)> = Vec::new();
        for i in 0..self.entries.len()
            invariant
                out@.map_values(|e: (String, Vec<u8>)| entrada_view(e)) == self.entradas().take(i as int),
        {
            let n = self.entries[i].0.clone();
            let b = crate::util::copia_bytes(&self.entries[i].1);
            let ghost antes = out@;
            out.push((n, b));
            assert(out@ == antes.push((n, b)));
            assert(self.entradas()[i as int] == entrada_view(self.entries@[i as int]));
            assert(out@.map_values(|e: (String, Vec<u8>)| entrada_view(e)) =~= antes.map_values(
                |e: (String, Vec<u8>)| entrada_view(e),
            ).push(entrada_view((n, b))));
            assert(self.entradas().take(i + 1) =~= self.entradas().take(i as int).push(
                self.entradas()[i as int],
            ));
            assert(out@.map_values(|e: (String, Vec<u8>)| entrada_view(e)) =~= self.entradas().take(i + 1));
        }
        assert(self.entradas().take(self.entries.len() as int) =~= self.entradas());
        Docx { entries: out }
    }

    fn indice(&self, nome: &Vec<char>) -> (r: Option<usize>)
        ensures
            match r {
                Some(i) => primeiro_indice(self.entradas(), nome@) == Some(i as int),
                None => primeiro_indice(self.entradas(), nome@) is None,
            },
    {
        let ghost es = self.entradas();
        proof {
            lemma_primeiro_indice(es, nome@);
        }
        let mut i: usize = 0;
        while i < self.entries.len()
            invariant
                es == self.entradas(),
                i <= self.entries.len(),
                forall|j: int| 0 <= j < i ==> #[trigger] es[j].0 != nome@,
            decreases self.entries.len() - i,
        {
            let n = chars_of(self.entries[i].0.as_str());
            assert(es[i as int] == entrada_view(self.entries@[i as int]));
            if mesmas(&n, nome) {
                proof {
                    assert(es[i as int].0 == nome@);
                    lemma_primeiro_indice(es, nome@);
                }
                return Some(i);
            }
            i = i + 1;
        }
        proof {
            lemma_primeiro_indice(es, nome@);
        }
        None
    }

    /// Reads a .docx from its bytes: every entry of the archive, in order. The
    /// template must contain `word/document.xml`.
    pub fn read(dados: Vec<u8>) -> (r: Result<Docx, String>)
        ensures
            match zip_central(dados@) {
                None => r matches Err(m) && m@.take(22) == "modelo docx invalido: "@,
                Some(es) => match primeira_falha(es) {
                    Some(k) => r matches Err(m) && if es[k].1 {
                        comeca_spec(m@, "erro lendo "@ + es[k].0 + ": "@)
                    } else {
                        comeca_spec(m@, "erro no zip: "@)
                    },
                    None => if primeiro_indice(conteudos(es), documento()) is Some {
                        r matches Ok(d) && d.entradas() == conteudos(es)
                    } else {
                        r matches Err(m) && m@ == "modelo nao contem word/document.xml"@
                    },
                },
            },
    {
        let ghost central = zip_central(dados@);
        let mut a = match zip_abrir(dados) {
            Ok(a) => a,
            Err(e) => {
                let mut m = chars_of("modelo docx invalido: ");
                proof {
                    reveal_strlit("modelo docx invalido: ");
                }
                let t = chars_of(texto_erro_zip(&e).as_str());
                let ghost pre = m@;
                anexar(&mut m, &t);
                assert(m@.take(22) =~= pre);
                return Err(string_of(m.as_slice()));
            },
        };
        let ghost es = zip_entradas(a);
        let n = zip_tamanho(&a);
        let mut entries: Vec<(String, Vec<u8>)> = Vec::new();
        let mut i: usize = 0;
        assert(es.take(0) =~= Seq::<(Seq<char>, bool, Option<Seq<u8>>)>::empty());
        while i < n
            invariant
                central == zip_central(dados@),
                central == Some(es),
                es == zip_entradas(a),
                n == es.len(),
                i <= n,
                primeira_falha(es.take(i as int)) is None,
                forall|j: int| 0 <= j < es.len() && (#[trigger] es[j]).2 is Some ==> es[j].1,
                entries@.map_values(|e: (String, Vec<u8>)| entrada_view(e)) == conteudos(es.take(i as int)),
            decreases n - i,
        {
            assert(es.take(i + 1).drop_last() =~= es.take(i as int));
            assert(es.take(i + 1).last() == es[i as int]);
            match zip_entrada(&mut a, i) {
                Err(e) => {
                    let mut m = chars_of("erro no zip: ");
                    let ghost pre = m@;
                    let t = chars_of(texto_erro_zip(&e).as_str());
                    anexar(&mut m, &t);
                    proof {
                        assert(m@.take(pre.len() as int) =~= pre);
                        assert(!es[i as int].1);
                        lemma_primeira_falha(es, i as int);
                    }
                    return Err(string_of(m.as_slice()));
                },
                Ok((nome, Err(e))) => {
                    let mut m = chars_of("erro lendo ");
                    let nv = chars_of(nome.as_str());
                    anexar(&mut m, &nv);
                    m.push(':');
                    m.push(' ');
                    let ghost pre = m@;
                    let t = chars_of(texto_erro_io(&e).as_str());
                    anexar(&mut m, &t);
                    proof {
                        reveal_strlit(": ");
                        assert(pre =~= "erro lendo "@ + es[i as int].0 + ": "@);
                        assert(m@.take(pre.len() as int) =~= pre);
                        lemma_primeira_falha(es, i as int);
                    }
                    return Err(string_of(m.as_slice()));
                },
                Ok((nome, Ok(buf))) => {
                    let ghost antes = entries@;
                    entries.push((nome, buf));
                    assert(entries@ == antes.push((nome, buf)));
                    assert(entries@.map_values(|e: (String, Vec<u8>)| entrada_view(e)) =~= antes.map_values(
                        |e: (String, Vec<u8>)| entrada_view(e),
                    ).push(entrada_view((nome, buf))));
                    assert(conteudos(es.take(i + 1)) =~= conteudos(es.take(i as int)).push(
                        (es[i as int].0, es[i as int].2->0),
                    ));
                },
            }
            i = i + 1;
        }
        assert(es.take(n as int) =~= es);
        let doc = Docx { entries };
        let alvo = nome_documento();
        match doc.indice(&alvo) {
            Some(_) => Ok(doc),
            None => {
                let m = chars_of("modelo nao contem word/document.xml");
                Err(string_of(m.as_slice()))
            },
        }
    }

    /// Writes the document as .docx bytes; media files (`word/media/...`) are
    /// stored, every other entry is deflated. Writing succeeds whenever no
    /// entry is larger than `limite_entrada`.
    pub fn write(&self) -> (r: Result<Vec<u8>, String>)
        ensures
            cabe_no_zip(para_gravar(self.entradas())) ==> r is Ok,
            r matches Ok(b) ==> b@ == zip_bytes(para_gravar(self.entradas())),
            r matches Err(m) ==> erro_de_escrita(m@, self.entradas()),
    {
        let mut w = zip_novo();
        let ghost alvo = para_gravar(self.entradas());
        let prefixo = chars_of("word/media/");
        proof {
            reveal_strlit("word/media/");
        }
        for i in 0..self.entries.len()
            invariant
                prefixo@ == "word/media/"@,
                alvo == para_gravar(self.entradas()),
                alvo.len() == self.entries.len(),
                zip_gravadas(w) == Some(alvo.take(i as int)),
        {
            let nome = &self.entries[i].0;
            let nv = chars_of(nome.as_str());
            let midia = crate::util::comeca_com(&nv, &prefixo);
            assert(self.entradas()[i as int] == entrada_view(self.entries@[i as int]));
            match zip_iniciar(&mut w, nome.as_str(), midia) {
                Ok(()) => {},
                Err(e) => {
                    let mut m = chars_of("zip start ");
                    anexar(&mut m, &nv);
                    m.push(':');
                    m.push(' ');
                    let ghost pre = m@;
                    let t = chars_of(texto_erro_zip(&e).as_str());
                    anexar(&mut m, &t);
                    proof {
                        reveal_strlit(": ");
                        assert(pre =~= "zip start "@ + self.entradas()[i as int].0 + ": "@);
                        assert(m@.take(pre.len() as int) =~= pre);
                        if cabe_no_zip(alvo) {
                            lemma_cabe_prefixo(alvo, i as int);
                        }
                    }
                    return Err(string_of(m.as_slice()));
                },
            }
            match zip_escrever(&mut w, self.entries[i].1.as_slice()) {
                Ok(()) => {},
                Err(e) => {
                    let mut m = chars_of("zip write ");
                    anexar(&mut m, &nv);
                    m.push(':');
                    m.push(' ');
                    let ghost pre = m@;
                    let t = chars_of(texto_erro_io(&e).as_str());
                    anexar(&mut m, &t);
                    proof {
                        reveal_strlit(": ");
                        assert(pre =~= "zip write "@ + self.entradas()[i as int].0 + ": "@);
                        assert(m@.take(pre.len() as int) =~= pre);
                        assert(alvo.take(i + 1).last().2 == alvo[i as int].2);
                    }
                    return Err(string_of(m.as_slice()));
                },
            }
            proof {
                reveal_strlit("word/media/");
            }
            assert(alvo[i as int].0 == nv@);
            assert(alvo[i as int].1 == midia);
            assert(alvo[i as int] == (nv@, midia, self.entries@[i as int].1@));
            assert(zip_gravadas(w)->0 =~= alvo.take(i + 1));
        }
        assert(alvo.take(self.entries.len() as int) =~= alvo);
        match zip_finalizar(&mut w) {
            Ok(b) => Ok(b),
            Err(e) => {
                let mut m = chars_of("zip finish: ");
                let ghost pre = m@;
                let t = chars_of(texto_erro_zip(&e).as_str());
                anexar(&mut m, &t);
                assert(m@.take(pre.len() as int) =~= pre);
                Err(string_of(m.as_slice()))
            },
        }
    }

    /// Puts `conteudo` in the first entry named `nome`, or adds an entry with
    /// that name at the end when there is none.
    pub fn set_entry(&mut self, nome: &Vec<char>, conteudo: Vec<u8>)
        ensures
            final(self).entradas() == com_entrada(old(self).entradas(), nome@, conteudo@),
    {
        let ghost es = self.entradas();
        match self.indice(nome) {
            Some(i) => {
                proof {
                    lemma_primeiro_indice(es, nome@);
                }
                let n = string_of(nome.as_slice());
                let ghost antes = self.entries@;
                self.entries.set(i, (n, conteudo));
                assert(self.entries@ == antes.update(i as int, (n, conteudo)));
                assert(self.entradas() =~= es.update(i as int, (nome@, conteudo@)));
            },
            None => {
                let n = string_of(nome.as_slice());
                let ghost antes = self.entries@;
                self.entries.push((n, conteudo));
                assert(self.entries@ == antes.push((n, conteudo)));
                assert(self.entradas() =~= es.push((nome@, conteudo@)));
            },
        }
    }

    /// Fills the text tokens of `word/document.xml` (each pair is a token
    /// such as `{{ID}}` and its value; values are XML-escaped). A document
    /// without that part is left unchanged.
    pub fn fill_placeholders(&mut self, vars: &[(&str, &str)])
        ensures
            match primeiro_indice(old(self).entradas(), documento()) {
                Some(i) => final(self).entradas() == com_entrada(
                    old(self).entradas(),
                    documento(),
                    encode_utf8(
                        fill_de(
                            utf8_lossy(old(self).entradas()[i].1),
                            0,
                            vars@.map_values(|p: (&str, &str)| (p.0@, p.1@)),
                        ),
                    ),
                ),
                None => final(self).entradas() == old(self).entradas(),
            },
    {
        let nome = nome_documento();
        let ghost vv = vars@.map_values(|p: (&str, &str)| (p.0@, p.1@));
        let mut vs: Vec<(Vec<char>, Vec<char>)> = Vec::new();
        for k in 0..vars.len()
            invariant
                vv == vars@.map_values(|p: (&str, &str)| (p.0@, p.1@)),
                vs@.map_values(|p: (Vec<char>, Vec<char>)| (p.0@, p.1@)) == vv.take(k as int),
        {
            let (t, v) = vars[k];
            let par = (chars_of(t), chars_of(v));
            assert(vv[k as int] == (par.0@, par.1@));
            let ghost antes = vs@;
            vs.push(par);
            assert(vs@ == antes.push(par));
            assert(vs@.map_values(|p: (Vec<char>, Vec<char>)| (p.0@, p.1@)) =~= antes.map_values(
                |p: (Vec<char>, Vec<char>)| (p.0@, p.1@),
            ).push((par.0@, par.1@)));
            assert(vv.take(k + 1) =~= vv.take(k as int).push(vv[k as int]));
            assert(vs@.map_values(|p: (Vec<char>, Vec<char>)| (p.0@, p.1@)) =~= vv.take(k + 1));
        }
        assert(vv.take(vars.len() as int) =~= vv);
        match self.entry_str(&nome) {
            Some(doc) => {
                let novo = fill_text(&doc, &vs);
                let bytes = bytes_de_texto(novo.as_slice());
                self.set_entry(&nome, bytes);
            },
            None => {},
        }
    }

    /// The text of the first entry named `nome` (bytes decoded as by
    /// `String::from_utf8_lossy`).
    pub fn entry_str(&self, nome: &Vec<char>) -> (r: Option<Vec<char>>)
        ensures
            match primeiro_indice(self.entradas(), nome@) {
                Some(i) => r matches Some(w) && w@ == utf8_lossy(self.entradas()[i].1) && (valid_utf8(
                    self.entradas()[i].1,
                ) ==> w@ == decode_utf8(self.entradas()[i].1)),
                None => r is None,
            },
    {
        match self.indice(nome) {
            Some(i) => {
                proof {
                    lemma_primeiro_indice(self.entradas(), nome@);
                }
                assert(self.entradas()[i as int] == entrada_view(self.entries@[i as int]));
                Some(texto_de_bytes(self.entries[i].1.as_slice()))
            },
            None => None,
        }
    }
}


/// What a write gives back to a read: after `set_entry(nome, c)` the first
/// entry named `nome` holds `c`, and every other name finds the same entry
/// and content as before.
pub proof fn lemma_set_entry_le(es: Seq<(Seq<char>, Seq<u8>)>, nome: Seq<char>, c: Seq<u8>)
    ensures
        primeiro_indice(com_entrada(es, nome, c), nome) matches Some(k) && com_entrada(es, nome, c)[k]
            == (nome, c),
        forall|outro: Seq<char>|
            outro != nome ==> #[trigger] primeiro_indice(com_entrada(es, nome, c), outro)
                == primeiro_indice(es, outro) && (primeiro_indice(es, outro) matches Some(j)
                ==> com_entrada(es, nome, c)[j] == es[j]),
{
    let novo = com_entrada(es, nome, c);
    lemma_primeiro_indice(es, nome);
    lemma_primeiro_indice(novo, nome);
    match primeiro_indice(es, nome) {
        Some(i) => {
            assert forall|q: int| 0 <= q < i implies #[trigger] novo[q].0 != nome by {
                assert(novo[q] == es[q]);
            }
            lemma_first_at(novo, nome, i);
        },
        None => {
            assert forall|q: int| 0 <= q < es.len() implies #[trigger] novo[q].0 != nome by {
                assert(novo[q] == es[q]);
            }
            lemma_first_at(novo, nome, es.len() as int);
        },
    }
    assert forall|outro: Seq<char>| outro != nome implies #[trigger] primeiro_indice(novo, outro)
        == primeiro_indice(es, outro) && (primeiro_indice(es, outro) matches Some(j) ==> novo[j]
        == es[j]) by {
        lemma_primeiro_indice(es, outro);
        lemma_primeiro_indice(novo, outro);
        assert forall|j: int| 0 <= j < es.len() implies (#[trigger] novo[j]).0 == es[j].0 || (
        es[j].0 == nome && novo[j].0 == nome) by {}
        match primeiro_indice(es, outro) {
            Some(j) => {
                lemma_first_equal(es, novo, outro, j);
            },
            None => {
                lemma_none_equal(es, novo, outro);
            },
        }
    }
}

proof fn lemma_first_at(xs: Seq<(Seq<char>, Seq<u8>)>, nome: Seq<char>, i: int)
    requires
        0 <= i < xs.len(),
        xs[i].0 == nome,
        forall|q: int| 0 <= q < i ==> #[trigger] xs[q].0 != nome,
    ensures
        primeiro_indice(xs, nome) == Some(i),
    decreases i,
{
    if i > 0 {
        assert forall|q: int| 0 <= q < i - 1 implies #[trigger] xs.drop_first()[q].0 != nome by {
            assert(xs.drop_first()[q] == xs[q + 1]);
        }
        lemma_first_at(xs.drop_first(), nome, i - 1);
        assert(xs[0].0 != nome);
    }
}

proof fn lemma_first_equal(es: Seq<(Seq<char>, Seq<u8>)>, novo: Seq<(Seq<char>, Seq<u8>)>, outro: Seq<char>, j: int)
    requires
        es.len() <= novo.len(),
        0 <= j < es.len(),
        es[j].0 == outro,
        novo[j] == es[j],
        forall|q: int| 0 <= q < j ==> #[trigger] es[q].0 != outro,
        forall|q: int| 0 <= q < es.len() ==> ((#[trigger] novo[q]).0 == outro <==> es[q].0 == outro),
    ensures
        primeiro_indice(novo, outro) == Some(j),
{
    lemma_primeiro_indice(novo, outro);
}

proof fn lemma_none_equal(es: Seq<(Seq<char>, Seq<u8>)>, novo: Seq<(Seq<char>, Seq<u8>)>, outro: Seq<char>)
    requires
        forall|q: int| 0 <= q < es.len() ==> #[trigger] es[q].0 != outro,
        forall|q: int| 0 <= q < es.len() ==> ((#[trigger] novo[q]).0 == outro <==> es[q].0 == outro),
        forall|q: int| es.len() <= q < novo.len() ==> (#[trigger] novo[q]).0 != outro,
    ensures
        primeiro_indice(novo, outro) is None,
{
    lemma_primeiro_indice(novo, outro);
}


// ─── Replacing tokens in text ──────────────────────────────────────────────

/// `t` occurs in `s` (`str::contains`; the empty text occurs everywhere).
pub open spec fn contem(s: Seq<char>, t: Seq<char>) -> bool {
    t.len() == 0 || find_spec(s, 0, t) is Some
}

/// `s` with `v` before each character and at the end, as `str::replace`
/// does with an empty pattern.
pub open spec fn intercalar(s: Seq<char>, v: Seq<char>) -> Seq<char>
    decreases s.len(),
{
    if s.len() == 0 {
        v
    } else {
        v + seq![s[0]] + intercalar(s.drop_first(), v)
    }
}

/// Every occurrence of `t` (non-empty) from position `i` on replaced by `v`,
/// scanning left to right as `str::replace` does.
pub open spec fn trocar_de(s: Seq<char>, i: int, t: Seq<char>, v: Seq<char>) -> Seq<char>
    decreases s.len() - i,
{
    if i < 0 || i > s.len() {
        Seq::empty()
    } else {
        match find_spec(s, i, t) {
            None => s.subrange(i, s.len() as int),
            Some(p) => {
                proof {
                    lemma_find_spec(s, i, t);
                }
                s.subrange(i, p) + v + trocar_de(s, p + t.len(), t, v)
            },
        }
    }
}

/// `s.replace(t, v)`.
pub open spec fn trocar(s: Seq<char>, t: Seq<char>, v: Seq<char>) -> Seq<char> {
    if t.len() == 0 {
        intercalar(s, v)
    } else {
        trocar_de(s, 0, t, v)
    }
}

/// One token of a paragraph: when the (escaped) text holds `tok`, every
/// occurrence becomes the escaped value.
pub open spec fn aplicar_var(s: Seq<char>, tok: Seq<char>, val: Seq<char>) -> Seq<char> {
    if contem(s, tok) {
        trocar(s, tok, escape_spec(val))
    } else {
        s
    }
}

/// All tokens, in order.
pub open spec fn aplicar_vars(s: Seq<char>, vars: Seq<(Seq<char>, Seq<char>)>) -> Seq<char>
    decreases vars.len(),
{
    if vars.len() == 0 {
        s
    } else {
        aplicar_vars(aplicar_var(s, vars[0].0, vars[0].1), vars.drop_first())
    }
}

fn contem_exec(s: &Vec<char>, t: &Vec<char>) -> (r: bool)
    ensures
        r == contem(s@, t@),
{
    if t.len() == 0 {
        return true;
    }
    match find_chars(s, 0, t) {
        Some(_) => true,
        None => false,
    }
}

proof fn lemma_intercalar_inicio(s: Seq<char>, v: Seq<char>)
    ensures
        v.len() <= intercalar(s, v).len(),
        intercalar(s, v).take(v.len() as int) == v,
{
    if s.len() == 0 {
        assert(intercalar(s, v).take(v.len() as int) =~= v);
    } else {
        assert(intercalar(s, v) == v + seq![s[0]] + intercalar(s.drop_first(), v));
        assert(intercalar(s, v).take(v.len() as int) =~= v);
    }
}

fn trocar_exec(s: &Vec<char>, t: &Vec<char>, v: &Vec<char>) -> (r: Vec<char>)
    ensures
        r@ == trocar(s@, t@, v@),
{
    let mut out: Vec<char> = Vec::new();
    if t.len() == 0 {
        let mut i: usize = 0;
        anexar(&mut out, v);
        proof {
            assert(s@.skip(0) =~= s@);
            lemma_intercalar_inicio(s@, v@);
            assert(intercalar(s@, v@) =~= out@ + intercalar(s@, v@).skip(v@.len() as int));
        }
        while i < s.len()
            invariant
                i <= s.len(),
                intercalar(s@, v@) == out@ + intercalar(s@.skip(i as int), v@).skip(v@.len() as int),
                intercalar(s@.skip(i as int), v@).take(v@.len() as int) == v@,
                v@.len() <= intercalar(s@.skip(i as int), v@).len(),
            decreases s.len() - i,
        {
            let ghost t0 = s@.skip(i as int);
            let ghost t1 = s@.skip(i + 1);
            assert(t0.drop_first() =~= t1);
            assert(intercalar(t0, v@) == v@ + seq![s@[i as int]] + intercalar(t1, v@));
            out.push(s[i]);
            anexar(&mut out, v);
            proof {
                assert(intercalar(t1, v@).take(v@.len() as int) =~= v@) by {
                    if t1.len() > 0 {
                        assert(intercalar(t1, v@) == v@ + seq![t1[0]] + intercalar(t1.drop_first(), v@));
                    }
                }
                assert(intercalar(t0, v@).skip(v@.len() as int) =~= seq![s@[i as int]] + intercalar(t1, v@));
                assert(intercalar(t1, v@) =~= v@ + intercalar(t1, v@).skip(v@.len() as int));
            }
            i = i + 1;
        }
        proof {
            let tf = s@.skip(s.len() as int);
            assert(tf =~= Seq::<char>::empty());
            assert(intercalar(tf, v@) == v@);
            assert(intercalar(tf, v@).skip(v@.len() as int) =~= Seq::<char>::empty());
        }
        assert(out@ + Seq::<char>::empty() =~= out@);
        return out;
    }
    let mut i: usize = 0;
    assert(out@ + trocar_de(s@, 0, t@, v@) =~= trocar_de(s@, 0, t@, v@));
    loop
        invariant
            i <= s.len(),
            t@.len() > 0,
            trocar_de(s@, 0, t@, v@) == out@ + trocar_de(s@, i as int, t@, v@),
        decreases s.len() - i,
    {
        match find_chars(s, i, t) {
            None => {
                let resto = fatia(s, i, s.len());
                anexar(&mut out, &resto);
                return out;
            },
            Some(p) => {
                proof {
                    lemma_find_spec(s@, i as int, t@);
                }
                let antes = fatia(s, i, p);
                anexar(&mut out, &antes);
                anexar(&mut out, v);
                assert(trocar_de(s@, 0, t@, v@) =~= out@ + trocar_de(s@, p + t@.len(), t@, v@));
                i = p + t.len();
            },
        }
    }
}

fn aplicar_vars_exec(s: Vec<char>, vars: &Vec<(Vec<char>, Vec<char>)>) -> (r: Vec<char>)
    ensures
        r@ == aplicar_vars(s@, vars@.map_values(|p: (Vec<char>, Vec<char>)| (p.0@, p.1@))),
{
    let ghost vv = vars@.map_values(|p: (Vec<char>, Vec<char>)| (p.0@, p.1@));
    let mut novo = s;
    let ghost alvo = aplicar_vars(novo@, vv);
    assert(vv.skip(0) =~= vv);
    for k in 0..vars.len()
        invariant
            vv == vars@.map_values(|p: (Vec<char>, Vec<char>)| (p.0@, p.1@)),
            alvo == aplicar_vars(novo@, vv.skip(k as int)),
    {
        let tok = &vars[k].0;
        let val = &vars[k].1;
        assert(vv.skip(k as int).drop_first() =~= vv.skip(k + 1));
        assert(vv.skip(k as int)[0] == (tok@, val@));
        if contem_exec(&novo, tok) {
            let ev = escape_chars(val);
            novo = trocar_exec(&novo, tok, &ev);
        }
    }
    assert(vv.skip(vars.len() as int) =~= Seq::<(Seq<char>, Seq<char>)>::empty());
    novo
}


// ─── Rewriting the runs of a paragraph ─────────────────────────────────────

/// `s[i]`, or `d` past the end.
pub open spec fn char_ou(s: Seq<char>, i: int, d: char) -> char {
    if 0 <= i < s.len() {
        s[i]
    } else {
        d
    }
}

/// `<w:t`
pub open spec fn abre_t() -> Seq<char> {
    seq!['<', 'w', ':', 't']
}

/// `</w:t>`
pub open spec fn fecha_t() -> Seq<char> {
    seq!['<', '/', 'w', ':', 't', '>']
}

/// The run text that replaces a `<w:t>` element: the whole paragraph text in
/// the first one (with `xml:space="preserve"`), empty in the others.
pub open spec fn run_spec(primeiro: bool, texto: Seq<char>) -> Seq<char> {
    if primeiro {
        "<w:t xml:space=\"preserve\">"@ + texto + "</w:t>"@
    } else {
        "<w:t></w:t>"@
    }
}

/// What `reescrever_runs` makes of `par` from position `i` on.
pub open spec fn runs_de(par: Seq<char>, i: int, primeiro: bool, texto: Seq<char>) -> Seq<char>
    decreases par.len() - i,
{
    if i < 0 || i > par.len() {
        Seq::empty()
    } else {
        match find_spec(par, i, abre_t()) {
            None => par.subrange(i, par.len() as int),
            Some(p) => {
                proof {
                    lemma_find_spec(par, i, abre_t());
                }
                if !fim_de_nome(char_ou(par, p + 4, ' ')) {
                    par.subrange(i, p + 4) + runs_de(par, p + 4, primeiro, texto)
                } else {
                    match find_spec(par, p, seq!['>']) {
                        None => par.subrange(i, par.len() as int),
                        Some(gt) => {
                            proof {
                                lemma_find_spec(par, p, seq!['>']);
                            }
                            if gt > 0 && par[gt - 1] == '/' {
                                par.subrange(i, p) + run_spec(primeiro, texto) + runs_de(
                                    par,
                                    gt + 1,
                                    false,
                                    texto,
                                )
                            } else {
                                match find_spec(par, gt + 1, fecha_t()) {
                                    None => par.subrange(i, p) + par.subrange(i, par.len() as int),
                                    Some(f) => {
                                        proof {
                                            lemma_find_spec(par, gt + 1, fecha_t());
                                        }
                                        par.subrange(i, p) + run_spec(primeiro, texto) + runs_de(
                                            par,
                                            f + 6,
                                            false,
                                            texto,
                                        )
                                    },
                                }
                            }
                        },
                    }
                }
            },
        }
    }
}

fn run_exec(out: &mut Vec<char>, primeiro: bool, texto: &Vec<char>)
    ensures
        final(out)@ == old(out)@ + run_spec(primeiro, texto@),
{
    if primeiro {
        let a = chars_of("<w:t xml:space=\"preserve\">");
        let b = chars_of("</w:t>");
        anexar(out, &a);
        anexar(out, texto);
        anexar(out, &b);
        assert(final(out)@ =~= old(out)@ + run_spec(primeiro, texto@));
    } else {
        let a = chars_of("<w:t></w:t>");
        anexar(out, &a);
    }
}

/// Rewrites the `<w:t>` elements of a paragraph: the first one receives
/// `texto`, the others become empty.
pub fn reescrever_runs(par: &Vec<char>, texto: &Vec<char>) -> (r: Vec<char>)
    ensures
        r@ == runs_de(par@, 0, true, texto@),
{
    let abre = vec!['<', 'w', ':', 't'];
    let fecha = vec!['<', '/', 'w', ':', 't', '>'];
    assert(abre@ =~= abre_t());
    assert(fecha@ =~= fecha_t());
    let mut out: Vec<char> = Vec::new();
    let mut i: usize = 0;
    let mut primeiro = true;
    let ghost alvo = runs_de(par@, 0, true, texto@);
    assert(out@ + alvo =~= alvo);
    loop
        invariant
            i <= par.len(),
            abre@ == abre_t(),
            fecha@ == fecha_t(),
            alvo == runs_de(par@, 0, true, texto@),
            alvo == out@ + runs_de(par@, i as int, primeiro, texto@),
        decreases par.len() - i,
    {
        let p = match find_chars(par, i, &abre) {
            Some(p) => p,
            None => {
                let resto = fatia(par, i, par.len());
                anexar(&mut out, &resto);
                return out;
            },
        };
        proof {
            lemma_find_spec(par@, i as int, abre_t());
        }
        let c = if p + 4 < par.len() {
            par[p + 4]
        } else {
            ' '
        };
        if c != '>' && c != ' ' && c != '/' {
            let pedaco = fatia(par, i, p + 4);
            anexar(&mut out, &pedaco);
            i = p + 4;
            continue;
        }
        let gt = match find_char(par, p, '>') {
            Some(g) => g,
            None => {
                let resto = fatia(par, i, par.len());
                anexar(&mut out, &resto);
                return out;
            },
        };
        proof {
            lemma_find_spec(par@, p as int, seq!['>']);
        }
        let antes = fatia(par, i, p);
        anexar(&mut out, &antes);
        if gt > 0 && par[gt - 1] == '/' {
            run_exec(&mut out, primeiro, texto);
            primeiro = false;
            i = gt + 1;
            continue;
        }
        let fim = match find_chars(par, gt + 1, &fecha) {
            Some(f) => f,
            None => {
                let resto = fatia(par, i, par.len());
                anexar(&mut out, &resto);
                return out;
            },
        };
        proof {
            lemma_find_spec(par@, gt + 1, fecha_t());
        }
        run_exec(&mut out, primeiro, texto);
        primeiro = false;
        i = fim + 6;
    }
}

// ─── Filling the tokens of the document ────────────────────────────────────

/// The text of all `<w:t>` elements of a paragraph, joined.
pub open spec fn texto_do_paragrafo(par: Seq<char>) -> Seq<char> {
    textos_spec(par, seq!['w', ':', 't']).flatten()
}

/// Some token occurs in the text.
pub open spec fn algum_token(texto: Seq<char>, vars: Seq<(Seq<char>, Seq<char>)>) -> bool {
    exists|k: int| 0 <= k < vars.len() && contem(texto, #[trigger] vars[k].0)
}

/// What `processar_paragrafo` makes of a paragraph: when its text holds a
/// token, the text is escaped, the tokens are replaced by their escaped
/// values, and the result is put in the first run; otherwise the paragraph
/// stays as it is.
pub open spec fn paragrafo_spec(par: Seq<char>, vars: Seq<(Seq<char>, Seq<char>)>) -> Seq<char> {
    let texto = texto_do_paragrafo(par);
    if algum_token(texto, vars) {
        runs_de(par, 0, true, aplicar_vars(escape_spec(texto), vars))
    } else {
        par
    }
}

/// The concatenation of the parts.
pub fn juntar(partes: &Vec<Vec<char>>) -> (r: Vec<char>)
    ensures
        r@ == partes@.map_values(|w: Vec<char>| w@).flatten(),
{
    let mut out: Vec<char> = Vec::new();
    let ghost pv = partes@.map_values(|w: Vec<char>| w@);
    for k in 0..partes.len()
        invariant
            pv == partes@.map_values(|w: Vec<char>| w@),
            out@ == pv.take(k as int).flatten(),
    {
        anexar(&mut out, &partes[k]);
        proof {
            assert(pv.take(k + 1) =~= pv.take(k as int).push(pv[k as int]));
            pv.take(k as int).lemma_flatten_push(pv[k as int]);
        }
    }
    assert(pv.take(partes.len() as int) =~= pv);
    out
}

/// Fills the tokens of one paragraph (see `paragrafo_spec`).
pub fn processar_paragrafo(par: &Vec<char>, vars: &Vec<(Vec<char>, Vec<char>)>) -> (r: Vec<char>)
    ensures
        r@ == paragrafo_spec(par@, vars@.map_values(|p: (Vec<char>, Vec<char>)| (p.0@, p.1@))),
{
    let ghost vv = vars@.map_values(|p: (Vec<char>, Vec<char>)| (p.0@, p.1@));
    let wt = vec!['w', ':', 't'];
    assert(wt@ =~= seq!['w', ':', 't']);
    let ts = textos(par, &wt);
    let concat = juntar(&ts);
    let mut algum = false;
    let mut k: usize = 0;
    while k < vars.len()
        invariant
            k <= vars.len(),
            vv == vars@.map_values(|p: (Vec<char>, Vec<char>)| (p.0@, p.1@)),
            algum == exists|q: int| 0 <= q < k && contem(concat@, #[trigger] vv[q].0),
        decreases vars.len() - k,
    {
        if contem_exec(&concat, &vars[k].0) {
            algum = true;
        }
        assert(vv[k as int].0 == vars@[k as int].0@);
        k = k + 1;
    }
    if !algum {
        return fatia(par, 0, par.len());
    }
    let esc = escape_chars(&concat);
    let novo = aplicar_vars_exec(esc, vars);
    reescrever_runs(par, &novo)
}

/// `<w:p`
pub open spec fn abre_p() -> Seq<char> {
    seq!['<', 'w', ':', 'p']
}

/// `</w:p>`
pub open spec fn fecha_p() -> Seq<char> {
    seq!['<', '/', 'w', ':', 'p', '>']
}

/// What `fill_text` makes of the document from position `i` on: each
/// paragraph `<w:p ...>...</w:p>` is filled (see `paragrafo_spec`); everything
/// else is copied unchanged.
pub open spec fn fill_de(doc: Seq<char>, i: int, vars: Seq<(Seq<char>, Seq<char>)>) -> Seq<char>
    decreases doc.len() - i,
{
    if i < 0 || i > doc.len() {
        Seq::empty()
    } else {
        match find_spec(doc, i, abre_p()) {
            None => doc.subrange(i, doc.len() as int),
            Some(ini) => {
                proof {
                    lemma_find_spec(doc, i, abre_p());
                }
                if !fim_de_nome(char_ou(doc, ini + 4, 'x')) {
                    doc.subrange(i, ini + 4) + fill_de(doc, ini + 4, vars)
                } else {
                    match find_spec(doc, ini, seq!['>']) {
                        None => doc.subrange(i, doc.len() as int),
                        Some(gt) => {
                            proof {
                                lemma_find_spec(doc, ini, seq!['>']);
                            }
                            if gt > 0 && doc[gt - 1] == '/' {
                                doc.subrange(i, gt + 1) + fill_de(doc, gt + 1, vars)
                            } else {
                                match find_spec(doc, gt + 1, fecha_p()) {
                                    None => doc.subrange(i, doc.len() as int),
                                    Some(f) => {
                                        proof {
                                            lemma_find_spec(doc, gt + 1, fecha_p());
                                        }
                                        doc.subrange(i, ini) + paragrafo_spec(
                                            doc.subrange(ini, f + 6),
                                            vars,
                                        ) + fill_de(doc, f + 6, vars)
                                    },
                                }
                            }
                        },
                    }
                }
            },
        }
    }
}

/// The `<w:p>` paragraphs that filling finds in `doc` from position `i`, in
/// order (the same scan as `fill_de`).
pub open spec fn paragrafos_de(doc: Seq<char>, i: int) -> Seq<Seq<char>>
    decreases doc.len() - i,
{
    if i < 0 || i > doc.len() {
        Seq::empty()
    } else {
        match find_spec(doc, i, abre_p()) {
            None => Seq::empty(),
            Some(ini) => {
                proof {
                    lemma_find_spec(doc, i, abre_p());
                }
                if !fim_de_nome(char_ou(doc, ini + 4, 'x')) {
                    paragrafos_de(doc, ini + 4)
                } else {
                    match find_spec(doc, ini, seq!['>']) {
                        None => Seq::empty(),
                        Some(gt) => {
                            proof {
                                lemma_find_spec(doc, ini, seq!['>']);
                            }
                            if gt > 0 && doc[gt - 1] == '/' {
                                paragrafos_de(doc, gt + 1)
                            } else {
                                match find_spec(doc, gt + 1, fecha_p()) {
                                    None => Seq::empty(),
                                    Some(f) => {
                                        proof {
                                            lemma_find_spec(doc, gt + 1, fecha_p());
                                        }
                                        seq![doc.subrange(ini, f + 6)] + paragrafos_de(doc, f + 6)
                                    },
                                }
                            }
                        },
                    }
                }
            },
        }
    }
}

/// A part whose paragraphs hold no token is left as it is: when the text of
/// no paragraph that filling finds from position `i` has a token of `vars`,
/// filling gives back the rest of `doc` unchanged.
pub proof fn lemma_fill_sem_tokens(doc: Seq<char>, i: int, vars: Seq<(Seq<char>, Seq<char>)>)
    requires
        0 <= i <= doc.len(),
        forall|k: int|
            0 <= k < paragrafos_de(doc, i).len() ==> !algum_token(
                texto_do_paragrafo(#[trigger] paragrafos_de(doc, i)[k]),
                vars,
            ),
    ensures
        fill_de(doc, i, vars) == doc.subrange(i, doc.len() as int),
    decreases doc.len() - i,
{
    lemma_find_spec(doc, i, abre_p());
    match find_spec(doc, i, abre_p()) {
        None => {},
        Some(ini) => {
            if !fim_de_nome(char_ou(doc, ini + 4, 'x')) {
                assert(paragrafos_de(doc, i) == paragrafos_de(doc, ini + 4));
                lemma_fill_sem_tokens(doc, ini + 4, vars);
                assert(doc.subrange(i, ini + 4) + doc.subrange(ini + 4, doc.len() as int) =~= doc.subrange(
                    i,
                    doc.len() as int,
                ));
            } else {
                lemma_find_spec(doc, ini, seq!['>']);
                match find_spec(doc, ini, seq!['>']) {
                    None => {},
                    Some(gt) => {
                        if gt > 0 && doc[gt - 1] == '/' {
                            assert(paragrafos_de(doc, i) == paragrafos_de(doc, gt + 1));
                            lemma_fill_sem_tokens(doc, gt + 1, vars);
                            assert(doc.subrange(i, gt + 1) + doc.subrange(gt + 1, doc.len() as int)
                                =~= doc.subrange(i, doc.len() as int));
                        } else {
                            lemma_find_spec(doc, gt + 1, fecha_p());
                            match find_spec(doc, gt + 1, fecha_p()) {
                                None => {},
                                Some(f) => {
                                    let par = doc.subrange(ini, f + 6);
                                    let ps = paragrafos_de(doc, i);
                                    assert(ps == seq![par] + paragrafos_de(doc, f + 6));
                                    assert(ps[0] == par);
                                    assert forall|k: int| 0 <= k < paragrafos_de(doc, f + 6).len() implies !algum_token(
                                        texto_do_paragrafo(#[trigger] paragrafos_de(doc, f + 6)[k]),
                                        vars,
                                    ) by {
                                        assert(ps[k + 1] == paragrafos_de(doc, f + 6)[k]);
                                    }
                                    lemma_fill_sem_tokens(doc, f + 6, vars);
                                    assert(!algum_token(texto_do_paragrafo(par), vars));
                                    assert(paragrafo_spec(par, vars) == par);
                                    assert(doc.subrange(i, ini) + par + doc.subrange(f + 6, doc.len() as int)
                                        =~= doc.subrange(i, doc.len() as int));
                                },
                            }
                        }
                    },
                }
            }
        },
    }
}

/// With no tokens to fill, a part comes back unchanged.
pub proof fn lemma_fill_sem_vars(doc: Seq<char>)
    ensures
        fill_de(doc, 0, Seq::empty()) == doc,
{
    lemma_fill_sem_tokens(doc, 0, Seq::empty());
    assert(doc.subrange(0, doc.len() as int) =~= doc);
}

/// Fills the text tokens of a document part, paragraph by paragraph, robust
/// to tokens split across runs.
pub fn fill_text(doc: &Vec<char>, vars: &Vec<(Vec<char>, Vec<char>)>) -> (r: Vec<char>)
    ensures
        r@ == fill_de(doc@, 0, vars@.map_values(|p: (Vec<char>, Vec<char>)| (p.0@, p.1@))),
{
    let ghost vv = vars@.map_values(|p: (Vec<char>, Vec<char>)| (p.0@, p.1@));
    let abre = vec!['<', 'w', ':', 'p'];
    let fecha = vec!['<', '/', 'w', ':', 'p', '>'];
    assert(abre@ =~= abre_p());
    assert(fecha@ =~= fecha_p());
    let mut out: Vec<char> = Vec::new();
    let mut i: usize = 0;
    let ghost alvo = fill_de(doc@, 0, vv);
    assert(out@ + alvo =~= alvo);
    loop
        invariant
            i <= doc.len(),
            abre@ == abre_p(),
            fecha@ == fecha_p(),
            vv == vars@.map_values(|p: (Vec<char>, Vec<char>)| (p.0@, p.1@)),
            alvo == fill_de(doc@, 0, vv),
            alvo == out@ + fill_de(doc@, i as int, vv),
        decreases doc.len() - i,
    {
        let ini = match find_chars(doc, i, &abre) {
            Some(p) => p,
            None => {
                let resto = fatia(doc, i, doc.len());
                anexar(&mut out, &resto);
                return out;
            },
        };
        proof {
            lemma_find_spec(doc@, i as int, abre_p());
        }
        let dc = if ini + 4 < doc.len() {
            doc[ini + 4]
        } else {
            'x'
        };
        if dc != '>' && dc != ' ' && dc != '/' {
            let pedaco = fatia(doc, i, ini + 4);
            anexar(&mut out, &pedaco);
            i = ini + 4;
            continue;
        }
        let gt = match find_char(doc, ini, '>') {
            Some(g) => g,
            None => {
                let resto = fatia(doc, i, doc.len());
                anexar(&mut out, &resto);
                return out;
            },
        };
        proof {
            lemma_find_spec(doc@, ini as int, seq!['>']);
        }
        if gt > 0 && doc[gt - 1] == '/' {
            let pedaco = fatia(doc, i, gt + 1);
            anexar(&mut out, &pedaco);
            i = gt + 1;
            continue;
        }
        let f = match find_chars(doc, gt + 1, &fecha) {
            Some(f) => f,
            None => {
                let resto = fatia(doc, i, doc.len());
                anexar(&mut out, &resto);
                return out;
            },
        };
        proof {
            lemma_find_spec(doc@, gt + 1, fecha_p());
        }
        let fim = f + 6;
        let antes = fatia(doc, i, ini);
        anexar(&mut out, &antes);
        let par = fatia(doc, ini, fim);
        let novo = processar_paragrafo(&par, vars);
        anexar(&mut out, &novo);
        i = fim;
    }
}


// ─── Paragraph surgery by token ────────────────────────────────────────────

/// The last paragraph opening `<w:p>` or `<w:p ` that starts before `pos`,
/// scanning from `i` with `ultimo` found so far.
pub open spec fn inicio_antes_de(doc: Seq<char>, i: int, pos: int, ultimo: Option<int>) -> Option<int>
    decreases doc.len() - i,
{
    if i < 0 || i > doc.len() {
        ultimo
    } else {
        match find_spec(doc, i, abre_p()) {
            None => ultimo,
            Some(p) => {
                proof {
                    lemma_find_spec(doc, i, abre_p());
                }
                if p >= pos {
                    ultimo
                } else {
                    let c = char_ou(doc, p + 4, 'x');
                    inicio_antes_de(
                        doc,
                        p + 4,
                        pos,
                        if c == '>' || c == ' ' {
                            Some(p)
                        } else {
                            ultimo
                        },
                    )
                }
            },
        }
    }
}

/// Where the paragraph opening before `pos` starts (`<w:p>` or `<w:p ...>`).
pub fn inicio_paragrafo_antes(doc: &Vec<char>, pos: usize) -> (r: Option<usize>)
    ensures
        match r {
            Some(p) => inicio_antes_de(doc@, 0, pos as int, None) == Some(p as int) && p < doc.len()
                && doc@[p as int] == '<',
            None => inicio_antes_de(doc@, 0, pos as int, None) is None,
        },
{
    let abre = vec!['<', 'w', ':', 'p'];
    assert(abre@ =~= abre_p());
    let mut ultimo: Option<usize> = None;
    let mut i: usize = 0;
    let ghost alvo = inicio_antes_de(doc@, 0, pos as int, None);
    loop
        invariant
            i <= doc.len(),
            abre@ == abre_p(),
            alvo == inicio_antes_de(doc@, 0, pos as int, None),
            alvo == inicio_antes_de(doc@, i as int, pos as int, match ultimo {
                Some(p) => Some(p as int),
                None => None,
            }),
            ultimo matches Some(p) ==> p < doc.len() && doc@[p as int] == '<',
        decreases doc.len() - i,
    {
        let ghost uv = match ultimo {
            Some(p) => Some(p as int),
            None => None,
        };
        let p = match find_chars(doc, i, &abre) {
            Some(p) => p,
            None => {
                assert(inicio_antes_de(doc@, i as int, pos as int, uv) == uv);
                return ultimo;
            },
        };
        proof {
            lemma_find_spec(doc@, i as int, abre_p());
            assert(doc@[p as int] == doc@.subrange(p as int, p + 4)[0]);
        }
        if p >= pos {
            assert(inicio_antes_de(doc@, i as int, pos as int, uv) == uv);
            return ultimo;
        }
        let c = if p + 4 < doc.len() {
            doc[p + 4]
        } else {
            'x'
        };
        if c == '>' || c == ' ' {
            ultimo = Some(p);
        }
        i = p + 4;
    }
}

/// `s.find(t)`: the first occurrence (the empty text is found at 0).
pub open spec fn achar(s: Seq<char>, t: Seq<char>) -> Option<int> {
    if t.len() == 0 {
        Some(0)
    } else {
        find_spec(s, 0, t)
    }
}

/// The span `[ini, fim)` of the paragraph that holds the first occurrence of
/// `token`.
pub open spec fn intervalo_spec(doc: Seq<char>, token: Seq<char>) -> Option<(int, int)> {
    match achar(doc, token) {
        None => None,
        Some(pos) => match inicio_antes_de(doc, 0, pos, None) {
            None => None,
            Some(ini) => match find_spec(doc, ini, seq!['>']) {
                None => None,
                Some(gt) => if gt > 0 && doc[gt - 1] == '/' {
                    Some((ini, gt + 1))
                } else {
                    match find_spec(doc, gt + 1, fecha_p()) {
                        None => None,
                        Some(f) => Some((ini, f + 6)),
                    }
                },
            },
        },
    }
}

/// The span of the paragraph holding `token`.
pub fn intervalo_paragrafo(doc: &Vec<char>, token: &Vec<char>) -> (r: Option<(usize, usize)>)
    ensures
        match r {
            Some((a, b)) => intervalo_spec(doc@, token@) == Some((a as int, b as int)) && a <= b
                <= doc.len(),
            None => intervalo_spec(doc@, token@) is None,
        },
{
    let pos = if token.len() == 0 {
        0
    } else {
        match find_chars(doc, 0, token) {
            Some(p) => p,
            None => return None,
        }
    };
    let ini = match inicio_paragrafo_antes(doc, pos) {
        Some(i) => i,
        None => return None,
    };
    let gt = match find_char(doc, ini, '>') {
        Some(g) => g,
        None => return None,
    };
    proof {
        lemma_find_spec(doc@, ini as int, seq!['>']);
        assert(doc@[gt as int] == doc@.subrange(gt as int, gt + 1)[0]);
    }
    if doc[gt - 1] == '/' {
        return Some((ini, gt + 1));
    }
    let fecha = vec!['<', '/', 'w', ':', 'p', '>'];
    assert(fecha@ =~= fecha_p());
    let f = match find_chars(doc, gt + 1, &fecha) {
        Some(f) => f,
        None => return None,
    };
    proof {
        lemma_find_spec(doc@, gt + 1, fecha_p());
    }
    Some((ini, f + 6))
}

/// `doc` with the paragraph holding `token` replaced by `novo`; unchanged
/// when there is no such paragraph.
pub open spec fn substituir_spec(doc: Seq<char>, token: Seq<char>, novo: Seq<char>) -> Seq<char> {
    match intervalo_spec(doc, token) {
        Some((a, b)) => doc.take(a) + novo + doc.skip(b),
        None => doc,
    }
}

/// Replaces the paragraph holding `token` by `xml_novo`.
pub fn substituir_paragrafo_com(doc: &Vec<char>, token: &Vec<char>, xml_novo: &Vec<char>) -> (r: Vec<char>)
    ensures
        r@ == substituir_spec(doc@, token@, xml_novo@),
{
    match intervalo_paragrafo(doc, token) {
        Some((ini, fim)) => {
            let mut out = fatia(doc, 0, ini);
            anexar(&mut out, xml_novo);
            let resto = fatia(doc, fim, doc.len());
            anexar(&mut out, &resto);
            assert(out@ =~= substituir_spec(doc@, token@, xml_novo@));
            out
        },
        None => fatia(doc, 0, doc.len()),
    }
}

/// Removes the paragraph holding `token`.
pub fn remover_paragrafo_com(doc: &Vec<char>, token: &Vec<char>) -> (r: Vec<char>)
    ensures
        r@ == substituir_spec(doc@, token@, Seq::empty()),
{
    let vazio: Vec<char> = Vec::new();
    substituir_paragrafo_com(doc, token, &vazio)
}


// ─── Image dimensions (PNG / JPEG) ─────────────────────────────────────────

/// A big-endian 32-bit number.
pub open spec fn be32(a: u8, b: u8, c: u8, d: u8) -> u32 {
    (a as int * 16777216 + b as int * 65536 + c as int * 256 + d as int) as u32
}

/// A big-endian 16-bit number.
pub open spec fn be16(a: u8, b: u8) -> int {
    a as int * 256 + b as int
}

/// The PNG signature.
pub open spec fn png_sig() -> Seq<u8> {
    seq![0x89u8, 0x50u8, 0x4Eu8, 0x47u8, 0x0Du8, 0x0Au8, 0x1Au8, 0x0Au8]
}

/// Width and height from the IHDR chunk of a PNG.
pub open spec fn png_spec(b: Seq<u8>) -> Option<(u32, u32)> {
    if b.len() < 24 || b.take(8) != png_sig() {
        None
    } else {
        Some((be32(b[16], b[17], b[18], b[19]), be32(b[20], b[21], b[22], b[23])))
    }
}

fn be32_exec(a: u8, b: u8, c: u8, d: u8) -> (r: u32)
    ensures
        r == be32(a, b, c, d),
{
    (a as u32) * 16777216 + (b as u32) * 65536 + (c as u32) * 256 + (d as u32)
}

/// Width and height of a PNG image, from its IHDR chunk.
pub fn png_size(b: &[u8]) -> (r: Option<(u32, u32)>)
    ensures
        r == png_spec(b@),
{
    if b.len() < 24 {
        return None;
    }
    let sig: [u8; 8] = [0x89, 0x50, 0x4E, 0x47, 0x0D, 0x0A, 0x1A, 0x0A];
    let mut k: usize = 0;
    while k < 8
        invariant
            b.len() >= 24,
            sig@ == png_sig(),
            k <= 8,
            forall|q: int| 0 <= q < k ==> b@[q] == png_sig()[q],
        decreases 8 - k,
    {
        if b[k] != sig[k] {
            assert(b@.take(8)[k as int] != png_sig()[k as int]);
            return None;
        }
        k = k + 1;
    }
    assert(b@.take(8) =~= png_sig());
    let w = be32_exec(b[16], b[17], b[18], b[19]);
    let h = be32_exec(b[20], b[21], b[22], b[23]);
    Some((w, h))
}

/// A JPEG start-of-frame marker (SOF0..SOF15 but DHT, JPG and DAC).
pub open spec fn eh_sof(m: u8) -> bool {
    (0xC0 <= m <= 0xC3) || (0xC5 <= m <= 0xC7) || (0xC9 <= m <= 0xCB) || (0xCD <= m <= 0xCF)
}

/// A JPEG marker without a length field (SOI, EOI, RST0..RST7).
pub open spec fn sem_tamanho(m: u8) -> bool {
    m == 0xD8 || m == 0xD9 || (0xD0 <= m <= 0xD7)
}

/// The JPEG segment walk from position `i`: the first start-of-frame marker
/// gives (width, height); a jump past `usize::MAX` ends the walk.
pub open spec fn jpeg_de(b: Seq<u8>, i: int) -> Option<(u32, u32)>
    decreases (if i < b.len() { b.len() - i } else { 0 }),
{
    if i < 0 || i + 9 >= b.len() {
        None
    } else if b[i] != 0xFF {
        jpeg_de(b, i + 1)
    } else if eh_sof(b[i + 1]) {
        Some((be16(b[i + 7], b[i + 8]) as u32, be16(b[i + 5], b[i + 6]) as u32))
    } else if sem_tamanho(b[i + 1]) {
        jpeg_de(b, i + 2)
    } else if i + 2 + be16(b[i + 2], b[i + 3]) > usize::MAX {
        None
    } else {
        jpeg_de(b, i + 2 + be16(b[i + 2], b[i + 3]))
    }
}

/// Width and height of a JPEG image.
pub open spec fn jpeg_spec(b: Seq<u8>) -> Option<(u32, u32)> {
    if b.len() < 4 || b[0] != 0xFF || b[1] != 0xD8 {
        None
    } else {
        jpeg_de(b, 2)
    }
}

/// Width and height of a JPEG image, from its first start-of-frame segment.
pub fn jpeg_size(b: &[u8]) -> (r: Option<(u32, u32)>)
    ensures
        r == jpeg_spec(b@),
{
    if b.len() < 4 || b[0] != 0xFF || b[1] != 0xD8 {
        return None;
    }
    let mut i: usize = 2;
    while b.len() > 9 && i < b.len() - 9
        invariant
            b.len() >= 4,
            b@[0] == 0xFF && b@[1] == 0xD8,
            2 <= i,
            jpeg_spec(b@) == jpeg_de(b@, i as int),
        decreases usize::MAX - i,
    {
        if b[i] != 0xFF {
            i = i + 1;
            continue;
        }
        let marker = b[i + 1];
        if (0xC0 <= marker && marker <= 0xC3) || (0xC5 <= marker && marker <= 0xC7) || (0xC9 <= marker
            && marker <= 0xCB) || (0xCD <= marker && marker <= 0xCF) {
            let h = (b[i + 5] as u32) * 256 + (b[i + 6] as u32);
            let w = (b[i + 7] as u32) * 256 + (b[i + 8] as u32);
            return Some((w, h));
        }
        if marker == 0xD8 || marker == 0xD9 || (0xD0 <= marker && marker <= 0xD7) {
            i = i + 2;
        } else {
            let len = (b[i + 2] as usize) * 256 + (b[i + 3] as usize);
            if i > usize::MAX - 2 - len {
                return None;
            }
            i = i + 2 + len;
        }
    }
    None
}

/// The size of an image by its (lower-case) extension: PNG or JPEG.
pub open spec fn image_size_spec(b: Seq<u8>, ext: Seq<char>) -> Option<(u32, u32)> {
    if ext == seq!['p', 'n', 'g'] {
        png_spec(b)
    } else if ext == seq!['j', 'p', 'g'] || ext == seq!['j', 'p', 'e', 'g'] {
        jpeg_spec(b)
    } else {
        None
    }
}

/// Width and height of an image whose extension is `png`, `jpg` or `jpeg`.
pub fn image_size(b: &[u8], ext: &Vec<char>) -> (r: Option<(u32, u32)>)
    ensures
        r == image_size_spec(b@, ext@),
{
    let png = vec!['p', 'n', 'g'];
    let jpg = vec!['j', 'p', 'g'];
    let jpeg = vec!['j', 'p', 'e', 'g'];
    assert(png@ =~= seq!['p', 'n', 'g']);
    assert(jpg@ =~= seq!['j', 'p', 'g']);
    assert(jpeg@ =~= seq!['j', 'p', 'e', 'g']);
    if mesmas(ext, &png) {
        png_size(b)
    } else if mesmas(ext, &jpg) || mesmas(ext, &jpeg) {
        jpeg_size(b)
    } else {
        None
    }
}


// ─── Content types and relationships ───────────────────────────────────────

/// Inserts `decl` before the first `fim` of `s`; `s` unchanged without one.
pub open spec fn inserir_antes(s: Seq<char>, fim: Seq<char>, decl: Seq<char>) -> Seq<char> {
    match find_spec(s, 0, fim) {
        Some(pos) => s.take(pos) + decl + s.skip(pos),
        None => s,
    }
}

fn inserir_antes_exec(s: &Vec<char>, fim: &Vec<char>, decl: &Vec<char>) -> (r: Vec<char>)
    ensures
        r@ == inserir_antes(s@, fim@, decl@),
{
    match find_chars(s, 0, fim) {
        Some(pos) => {
            proof {
                lemma_find_spec(s@, 0, fim@);
            }
            let mut out = fatia(s, 0, pos);
            anexar(&mut out, decl);
            let resto = fatia(s, pos, s.len());
            anexar(&mut out, &resto);
            assert(out@ =~= inserir_antes(s@, fim@, decl@));
            out
        },
        None => fatia(s, 0, s.len()),
    }
}

/// The `Default` declaration of one extension in `[Content_Types].xml`,
/// added (before `</Types>`) unless the extension is already declared.
pub open spec fn garantir_um(ct: Seq<char>, extensao: Seq<char>, mime: Seq<char>) -> Seq<char> {
    if contem(ct, "Extension=\""@ + extensao + "\""@) {
        ct
    } else {
        inserir_antes(
            ct,
            "</Types>"@,
            "<Default Extension=\""@ + extensao + "\" ContentType=\""@ + mime + "\"/>"@,
        )
    }
}

/// The canonical extension and MIME type of an image extension.
pub open spec fn tipo_de(ext: Seq<char>) -> (Seq<char>, Seq<char>) {
    if ext == "jpg"@ || ext == "jpeg"@ {
        ("jpeg"@, "image/jpeg"@)
    } else {
        ("png"@, "image/png"@)
    }
}

/// What `garantir_content_type` makes of the content types.
pub open spec fn garantir_spec(ct: Seq<char>, ext: Seq<char>) -> Seq<char> {
    garantir_um(garantir_um(ct, tipo_de(ext).0, tipo_de(ext).1), ext, tipo_de(ext).1)
}

fn garantir_um_exec(ct: Vec<char>, extensao: &Vec<char>, mime: &Vec<char>) -> (r: Vec<char>)
    ensures
        r@ == garantir_um(ct@, extensao@, mime@),
{
    let mut marca = chars_of("Extension=\"");
    anexar(&mut marca, extensao);
    let aspas = chars_of("\"");
    anexar(&mut marca, &aspas);
    if contem_exec(&ct, &marca) {
        return ct;
    }
    let mut decl = chars_of("<Default Extension=\"");
    anexar(&mut decl, extensao);
    let meio = chars_of("\" ContentType=\"");
    anexar(&mut decl, &meio);
    anexar(&mut decl, mime);
    let fim = chars_of("\"/>");
    anexar(&mut decl, &fim);
    let types = chars_of("</Types>");
    inserir_antes_exec(&ct, &types, &decl)
}

/// Makes sure `[Content_Types].xml` declares the image extension (and its
/// canonical form `jpeg`/`png`).
pub fn garantir_content_type(ctypes: &mut Vec<char>, ext: &Vec<char>)
    ensures
        final(ctypes)@ == garantir_spec(old(ctypes)@, ext@),
{
    let jpg = chars_of("jpg");
    let jpeg = chars_of("jpeg");
    let (e, mime) = if mesmas(ext, &jpg) || mesmas(ext, &jpeg) {
        (chars_of("jpeg"), chars_of("image/jpeg"))
    } else {
        (chars_of("png"), chars_of("image/png"))
    };
    let ct = fatia(ctypes, 0, ctypes.len());
    assert(ct@ =~= old(ctypes)@);
    let ct = garantir_um_exec(ct, &e, &mime);
    let ct = garantir_um_exec(ct, ext, &mime);
    *ctypes = ct;
}

/// An empty `word/_rels/document.xml.rels`.
pub open spec fn rels_vazio_spec() -> Seq<char> {
    "<?xml version=\"1.0\" encoding=\"UTF-8\" standalone=\"yes\"?>\n<Relationships xmlns=\"http://schemas.openxmlformats.org/package/2006/relationships\"></Relationships>"@
}

/// An empty relationships part, for templates without one.
pub fn rels_vazio() -> (r: Vec<char>)
    ensures
        r@ == rels_vazio_spec(),
{
    chars_of(
        "<?xml version=\"1.0\" encoding=\"UTF-8\" standalone=\"yes\"?>\n<Relationships xmlns=\"http://schemas.openxmlformats.org/package/2006/relationships\"></Relationships>",
    )
}

/// The image relationship `rid` -> `target`.
pub open spec fn rel_decl(rid: Seq<char>, target: Seq<char>) -> Seq<char> {
    "<Relationship Id=\""@ + rid
        + "\" Type=\"http://schemas.openxmlformats.org/officeDocument/2006/relationships/image\" Target=\""@
        + target + "\"/>"@
}

/// Adds an image relationship before `</Relationships>` (unchanged without one).
pub fn adicionar_rel(rels: &Vec<char>, rid: &Vec<char>, target: &Vec<char>) -> (r: Vec<char>)
    ensures
        r@ == inserir_antes(rels@, "</Relationships>"@, rel_decl(rid@, target@)),
{
    let mut decl = chars_of("<Relationship Id=\"");
    anexar(&mut decl, rid);
    let meio = chars_of(
        "\" Type=\"http://schemas.openxmlformats.org/officeDocument/2006/relationships/image\" Target=\"",
    );
    anexar(&mut decl, &meio);
    anexar(&mut decl, target);
    let fim = chars_of("\"/>");
    anexar(&mut decl, &fim);
    let marca = chars_of("</Relationships>");
    inserir_antes_exec(rels, &marca, &decl)
}

/// The larger of two numbers.
pub open spec fn maior(a: u32, b: u32) -> u32 {
    if a >= b {
        a
    } else {
        b
    }
}

/// The digits right after position `i`.
pub open spec fn digitos_em(s: Seq<char>, i: int) -> Seq<char> {
    s.skip(i).take(run_len(s.skip(i), true) as int)
}

/// The largest `N` of the `Id="rIdN"` of the relationships from position `i`
/// on (numbers that do not fit a `u32` are ignored).
pub open spec fn max_rid_de(s: Seq<char>, i: int, acc: u32) -> u32
    decreases s.len() - i,
{
    if i < 0 || i > s.len() {
        acc
    } else {
        match find_spec(s, i, "Id=\"rId"@) {
            None => acc,
            Some(p) => {
                proof {
                    lemma_find_spec(s, i, "Id=\"rId"@);
                    reveal_strlit("Id=\"rId");
                }
                max_rid_de(
                    s,
                    p + 7,
                    match parse_u32_spec(digitos_em(s, p + 7), 10) {
                        Some(v) => maior(acc, v),
                        None => acc,
                    },
                )
            },
        }
    }
}

/// The largest relationship number `rIdN` in use.
pub fn max_rid(rels: &Vec<char>) -> (r: u32)
    ensures
        r == max_rid_de(rels@, 0, 0),
{
    let marca = chars_of("Id=\"rId");
    proof {
        reveal_strlit("Id=\"rId");
    }
    let mut max: u32 = 0;
    let mut i: usize = 0;
    loop
        invariant
            i <= rels.len(),
            marca@ == "Id=\"rId"@,
            marca@.len() == 7,
            max_rid_de(rels@, 0, 0) == max_rid_de(rels@, i as int, max),
        decreases rels.len() - i,
    {
        let p = match find_chars(rels, i, &marca) {
            Some(p) => p,
            None => return max,
        };
        proof {
            lemma_find_spec(rels@, i as int, marca@);
        }
        let ini = p + 7;
        let mut fim = ini;
        while fim < rels.len() && '0' <= rels[fim] && rels[fim] <= '9'
            invariant
                ini <= fim <= rels.len(),
                forall|q: int| ini <= q < fim ==> is_digit(#[trigger] rels@[q]),
            decreases rels.len() - fim,
        {
            fim = fim + 1;
        }
        proof {
            let t = rels@.skip(ini as int);
            lemma_run_len(t, true);
            let k = run_len(t, true);
            assert(fim - ini == k) by {
                if fim - ini < k {
                    assert(t[fim - ini] == rels@[fim as int]);
                } else if fim - ini > k {
                    assert(t[k as int] == rels@[ini + k]);
                }
            }
            assert(digitos_em(rels@, ini as int) =~= rels@.subrange(ini as int, fim as int));
        }
        match parse_u32_radix(rels, ini, fim, 10) {
            Some(v) => {
                if v > max {
                    max = v;
                }
            },
            None => {},
        }
        i = ini;
    }
}

/// The media prefix of a .docx.
pub open spec fn prefixo_midia() -> Seq<char> {
    "word/media/"@
}

/// The number written by the digits of a media file name (all its digits,
/// joined), when there are some and they fit a `u32`.
pub open spec fn numero_midia(nome: Seq<char>) -> Option<u32> {
    if comeca_spec(nome, prefixo_midia()) {
        parse_u32_spec(nome.skip(prefixo_midia().len() as int).filter(|c: char| is_digit(c)), 10)
    } else {
        None
    }
}

/// The largest media number among the entries.
pub open spec fn max_midia(es: Seq<(Seq<char>, Seq<u8>)>) -> u32
    decreases es.len(),
{
    if es.len() == 0 {
        0
    } else {
        match numero_midia(es.last().0) {
            Some(v) => maior(max_midia(es.drop_last()), v),
            None => max_midia(es.drop_last()),
        }
    }
}

fn so_digitos(v: &Vec<char>, ini: usize) -> (r: Vec<char>)
    requires
        ini <= v.len(),
    ensures
        r@ == v@.skip(ini as int).filter(|c: char| is_digit(c)),
{
    let mut out: Vec<char> = Vec::new();
    let ghost t = v@.skip(ini as int);
    let mut k = ini;
    while k < v.len()
        invariant
            ini <= k <= v.len(),
            t == v@.skip(ini as int),
            out@ == t.take(k - ini).filter(|c: char| is_digit(c)),
        decreases v.len() - k,
    {
        let c = v[k];
        proof {
            assert(t.take(k + 1 - ini) =~= t.take(k - ini).push(c));
            t.take(k - ini).lemma_filter_push(c, |c: char| is_digit(c));
        }
        if '0' <= c && c <= '9' {
            out.push(c);
        }
        k = k + 1;
    }
    assert(t.take(v.len() - ini) =~= t);
    out
}

/// The largest number of a media file (`word/media/...`) among the entries.
pub fn max_media_idx(entries: &Vec<(String, Vec<u8>)>) -> (r: u32)
    ensures
        r == max_midia(entries@.map_values(|e: (String, Vec<u8>)| entrada_view(e))),
{
    let ghost es = entries@.map_values(|e: (String, Vec<u8>)| entrada_view(e));
    let prefixo = chars_of("word/media/");
    proof {
        reveal_strlit("word/media/");
    }
    let mut max: u32 = 0;
    for i in 0..entries.len()
        invariant
            es == entries@.map_values(|e: (String, Vec<u8>)| entrada_view(e)),
            prefixo@ == prefixo_midia(),
            prefixo@.len() == 11,
            max == max_midia(es.take(i as int)),
    {
        let nome = chars_of(entries[i].0.as_str());
        assert(es.take(i + 1).drop_last() =~= es.take(i as int));
        assert(es.take(i + 1).last().0 == nome@);
        if comeca_com(&nome, &prefixo) {
            let ds = so_digitos(&nome, 11);
            match parse_u32_radix(&ds, 0, ds.len(), 10) {
                Some(v) => {
                    assert(ds@.subrange(0, ds@.len() as int) =~= ds@);
                    if v > max {
                        max = v;
                    }
                },
                None => {
                    assert(ds@.subrange(0, ds@.len() as int) =~= ds@);
                },
            }
        }
    }
    assert(es.take(entries.len() as int) =~= es);
    max
}


// ─── Inline image XML ──────────────────────────────────────────────────────

/// The paragraph holding one inline image.
pub open spec fn paragrafo_imagem_spec(rid: Seq<char>, cx: u64, cy: u64, docpr: u32, descr: Seq<char>) -> Seq<char> {
    let d = escape_spec(descr);
    let scx = dec_digits(cx as nat);
    let scy = dec_digits(cy as nat);
    let sdp = dec_digits(docpr as nat);
    "<w:p><w:pPr><w:jc w:val=\"center\"/></w:pPr><w:r><w:drawing><wp:inline xmlns:wp=\"http://schemas.openxmlformats.org/drawingml/2006/wordprocessingDrawing\" xmlns:a=\"http://schemas.openxmlformats.org/drawingml/2006/main\" xmlns:pic=\"http://schemas.openxmlformats.org/drawingml/2006/picture\" xmlns:r=\"http://schemas.openxmlformats.org/officeDocument/2006/relationships\" distT=\"0\" distB=\"0\" distL=\"0\" distR=\"0\"><wp:extent cx=\""@
        + scx + "\" cy=\""@ + scy + "\"/><wp:effectExtent l=\"0\" t=\"0\" r=\"0\" b=\"0\"/><wp:docPr id=\""@
        + sdp + "\" name=\"Imagem "@ + sdp + "\" descr=\""@ + d
        + "\"/><wp:cNvGraphicFramePr><a:graphicFrameLocks noChangeAspect=\"1\"/></wp:cNvGraphicFramePr><a:graphic><a:graphicData uri=\"http://schemas.openxmlformats.org/drawingml/2006/picture\"><pic:pic><pic:nvPicPr><pic:cNvPr id=\""@
        + sdp + "\" name=\""@ + d
        + "\"/><pic:cNvPicPr/></pic:nvPicPr><pic:blipFill><a:blip r:embed=\""@ + rid
        + "\"/><a:stretch><a:fillRect/></a:stretch></pic:blipFill><pic:spPr><a:xfrm><a:off x=\"0\" y=\"0\"/><a:ext cx=\""@
        + scx + "\" cy=\""@ + scy
        + "\"/></a:xfrm><a:prstGeom prst=\"rect\"><a:avLst/></a:prstGeom></pic:spPr></pic:pic></a:graphicData></a:graphic></wp:inline></w:drawing></w:r></w:p>"@
}

/// The paragraph holding an inline image.
pub fn paragrafo_imagem(rid: &Vec<char>, cx: u64, cy: u64, docpr: u32, descr: &Vec<char>) -> (r: Vec<char>)
    ensures
        r@ == paragrafo_imagem_spec(rid@, cx, cy, docpr, descr@),
{
    let d = escape_chars(descr);
    let scx = digitos(cx);
    let scy = digitos(cy);
    let sdp = digitos(docpr as u64);
    let mut out = chars_of(
        "<w:p><w:pPr><w:jc w:val=\"center\"/></w:pPr><w:r><w:drawing><wp:inline xmlns:wp=\"http://schemas.openxmlformats.org/drawingml/2006/wordprocessingDrawing\" xmlns:a=\"http://schemas.openxmlformats.org/drawingml/2006/main\" xmlns:pic=\"http://schemas.openxmlformats.org/drawingml/2006/picture\" xmlns:r=\"http://schemas.openxmlformats.org/officeDocument/2006/relationships\" distT=\"0\" distB=\"0\" distL=\"0\" distR=\"0\"><wp:extent cx=\"",
    );
    anexar(&mut out, &scx);
    anexar(&mut out, &chars_of("\" cy=\""));
    anexar(&mut out, &scy);
    anexar(
        &mut out,
        &chars_of("\"/><wp:effectExtent l=\"0\" t=\"0\" r=\"0\" b=\"0\"/><wp:docPr id=\""),
    );
    anexar(&mut out, &sdp);
    anexar(&mut out, &chars_of("\" name=\"Imagem "));
    anexar(&mut out, &sdp);
    anexar(&mut out, &chars_of("\" descr=\""));
    anexar(&mut out, &d);
    anexar(
        &mut out,
        &chars_of(
            "\"/><wp:cNvGraphicFramePr><a:graphicFrameLocks noChangeAspect=\"1\"/></wp:cNvGraphicFramePr><a:graphic><a:graphicData uri=\"http://schemas.openxmlformats.org/drawingml/2006/picture\"><pic:pic><pic:nvPicPr><pic:cNvPr id=\"",
        ),
    );
    anexar(&mut out, &sdp);
    anexar(&mut out, &chars_of("\" name=\""));
    anexar(&mut out, &d);
    anexar(
        &mut out,
        &chars_of("\"/><pic:cNvPicPr/></pic:nvPicPr><pic:blipFill><a:blip r:embed=\""),
    );
    anexar(&mut out, rid);
    anexar(
        &mut out,
        &chars_of(
            "\"/><a:stretch><a:fillRect/></a:stretch></pic:blipFill><pic:spPr><a:xfrm><a:off x=\"0\" y=\"0\"/><a:ext cx=\"",
        ),
    );
    anexar(&mut out, &scx);
    anexar(&mut out, &chars_of("\" cy=\""));
    anexar(&mut out, &scy);
    anexar(
        &mut out,
        &chars_of(
            "\"/></a:xfrm><a:prstGeom prst=\"rect\"><a:avLst/></a:prstGeom></pic:spPr></pic:pic></a:graphicData></a:graphic></wp:inline></w:drawing></w:r></w:p>",
        ),
    );
    assert(out@ =~= paragrafo_imagem_spec(rid@, cx, cy, docpr, descr@));
    out
}

/// The caption paragraph (the file name, small, grey, italic).
pub open spec fn paragrafo_legenda_spec(nome: Seq<char>) -> Seq<char> {
    "<w:p><w:pPr><w:jc w:val=\"center\"/><w:spacing w:after=\"120\"/></w:pPr><w:r><w:rPr><w:i/><w:sz w:val=\"16\"/><w:szCs w:val=\"16\"/><w:color w:val=\"808080\"/></w:rPr><w:t xml:space=\"preserve\">"@
        + escape_spec(nome) + "</w:t></w:r></w:p>"@
}

/// The caption paragraph under an image.
pub fn paragrafo_legenda(nome: &Vec<char>) -> (r: Vec<char>)
    ensures
        r@ == paragrafo_legenda_spec(nome@),
{
    let n = escape_chars(nome);
    let mut out = chars_of(
        "<w:p><w:pPr><w:jc w:val=\"center\"/><w:spacing w:after=\"120\"/></w:pPr><w:r><w:rPr><w:i/><w:sz w:val=\"16\"/><w:szCs w:val=\"16\"/><w:color w:val=\"808080\"/></w:rPr><w:t xml:space=\"preserve\">",
    );
    anexar(&mut out, &n);
    anexar(&mut out, &chars_of("</w:t></w:r></w:p>"));
    out
}


// ─── Inserting the evidence images ─────────────────────────────────────────

/// An image to insert: its file name, its extension (as the file name has
/// it, if any) and its bytes (`None` when the file could not be read).
pub struct Imagem {
    pub nome: String,
    pub extensao: Option<String>,
    pub bytes: Option<Vec<u8>>,
}

/// The view of an image.
pub open spec fn imagem_view(i: Imagem) -> (Seq<char>, Option<Seq<char>>, Option<Seq<u8>>) {
    (
        i.nome@,
        match i.extensao {
            Some(e) => Some(e@),
            None => None,
        },
        match i.bytes {
            Some(b) => Some(b@),
            None => None,
        },
    )
}

/// The lower-case extension of an image; `png` when it has none.
pub open spec fn ext_de(img: (Seq<char>, Option<Seq<char>>, Option<Seq<u8>>)) -> Seq<char> {
    match img.1 {
        Some(e) => e.map_values(|c: char| crate::texto::ascii_lower(c)),
        None => "png"@,
    }
}

/// The dimensions of an image, when it was read and its header is legible.
pub open spec fn dims(img: (Seq<char>, Option<Seq<char>>, Option<Seq<u8>>)) -> Option<(u32, u32)> {
    match img.2 {
        Some(b) => image_size_spec(b, ext_de(img)),
        None => None,
    }
}

/// The width read from an image's header.
pub open spec fn largura(img: (Seq<char>, Option<Seq<char>>, Option<Seq<u8>>)) -> u32 {
    match dims(img) {
        Some(d) => d.0,
        None => 0,
    }
}

/// The height read from an image's header.
pub open spec fn altura(img: (Seq<char>, Option<Seq<char>>, Option<Seq<u8>>)) -> u32 {
    match dims(img) {
        Some(d) => d.1,
        None => 0,
    }
}

/// The state of the insertion after some images.
pub struct Estado {
    pub xml: Seq<char>,
    pub rels: Seq<char>,
    pub ct: Seq<char>,
    pub midia: Seq<(Seq<char>, Seq<u8>)>,
    pub rid: int,
    pub idx: int,
    pub docpr: int,
    pub n: int,
}

/// One image: when its size is legible it gets a media file, a relationship,
/// its content type, its paragraph (and caption), scaled to `esc`.
pub open spec fn passo(st: Estado, img: (Seq<char>, Option<Seq<char>>, Option<Seq<u8>>), legendas: bool, esc: (u64, u64)) -> Estado {
    match dims(img) {
        None => st,
        Some(_) => {
            let ext = ext_de(img);
            let idx = dec_digits(st.idx as nat);
            let rid = "rId"@ + dec_digits(st.rid as nat);
            Estado {
                xml: st.xml + paragrafo_imagem_spec(rid, esc.0, esc.1, st.docpr as u32, img.0) + (
                if legendas {
                    paragrafo_legenda_spec(img.0)
                } else {
                    Seq::empty()
                }),
                rels: inserir_antes(
                    st.rels,
                    "</Relationships>"@,
                    rel_decl(rid, "media/det_img"@ + idx + "."@ + ext),
                ),
                ct: garantir_spec(st.ct, ext),
                midia: st.midia.push(("word/media/det_img"@ + idx + "."@ + ext, img.2->0)),
                rid: st.rid + 1,
                idx: st.idx + 1,
                docpr: st.docpr + 1,
                n: st.n + 1,
            }
        },
    }
}

/// All images, in order.
pub open spec fn dobrar(st: Estado, imgs: Seq<(Seq<char>, Option<Seq<char>>, Option<Seq<u8>>)>, legendas: bool, escs: Seq<(u64, u64)>) -> Estado
    decreases imgs.len(),
{
    if imgs.len() == 0 {
        st
    } else {
        passo(dobrar(st, imgs.drop_last(), legendas, escs.drop_last()), imgs.last(), legendas, escs.last())
    }
}

/// The number of images whose size is legible.
pub open spec fn legiveis(imgs: Seq<(Seq<char>, Option<Seq<char>>, Option<Seq<u8>>)>) -> int
    decreases imgs.len(),
{
    if imgs.len() == 0 {
        0
    } else {
        legiveis(imgs.drop_last()) + if dims(imgs.last()) is Some { 1int } else { 0int }
    }
}

/// The evidence token.
pub open spec fn token_evidencias() -> Seq<char> {
    "{{EVIDENCIAS}}"@
}

/// The relationships part.
pub open spec fn nome_rels() -> Seq<char> {
    "word/_rels/document.xml.rels"@
}

/// The content types part.
pub open spec fn nome_ct() -> Seq<char> {
    "[Content_Types].xml"@
}

/// The text of an entry (as `entry_str` reads it), when there is one.
pub open spec fn texto_entrada(es: Seq<(Seq<char>, Seq<u8>)>, nome: Seq<char>) -> Option<Seq<char>> {
    match primeiro_indice(es, nome) {
        Some(i) => Some(utf8_lossy(es[i].1)),
        None => None,
    }
}

/// The relationships text the insertion starts from.
pub open spec fn rels_inicial(es: Seq<(Seq<char>, Seq<u8>)>) -> Seq<char> {
    match texto_entrada(es, nome_rels()) {
        Some(t) => t,
        None => rels_vazio_spec(),
    }
}

/// The insertion only goes on when the document holds the token, there are
/// images and the content types exist; then the relationship, media and
/// drawing numbers must not pass `u32::MAX` (where the counters would overflow).
pub open spec fn numeros_cabem(es: Seq<(Seq<char>, Seq<u8>)>, imgs: Seq<(Seq<char>, Option<Seq<char>>, Option<Seq<u8>>)>) -> bool {
    (texto_entrada(es, documento()) matches Some(doc) && contem(doc, token_evidencias())
        && imgs.len() > 0 && texto_entrada(es, nome_ct()) is Some) ==> {
        &&& max_rid_de(rels_inicial(es), 0, 0) + 1 + legiveis(imgs) <= u32::MAX
        &&& max_midia(es) + 1 + legiveis(imgs) <= u32::MAX
        &&& 900000 + legiveis(imgs) <= u32::MAX
    }
}

/// The entries after the media files are set, in order.
pub open spec fn com_midia(es: Seq<(Seq<char>, Seq<u8>)>, midia: Seq<(Seq<char>, Seq<u8>)>) -> Seq<(Seq<char>, Seq<u8>)>
    decreases midia.len(),
{
    if midia.len() == 0 {
        es
    } else {
        com_entrada(com_midia(es, midia.drop_last()), midia.last().0, midia.last().1)
    }
}

/// The entries after a complete insertion.
pub open spec fn entradas_apos(es: Seq<(Seq<char>, Seq<u8>)>, doc: Seq<char>, fim: Estado) -> Seq<(Seq<char>, Seq<u8>)> {
    let e1 = com_entrada(
        es,
        documento(),
        encode_utf8(substituir_spec(doc, token_evidencias(), fim.xml)),
    );
    let e2 = com_entrada(e1, nome_rels(), encode_utf8(fim.rels));
    let e3 = com_entrada(e2, nome_ct(), encode_utf8(fim.ct));
    com_midia(e3, fim.midia)
}


/// The state the insertion starts from.
pub open spec fn estado_inicial(es: Seq<(Seq<char>, Seq<u8>)>, ct: Seq<char>) -> Estado {
    Estado {
        xml: Seq::empty(),
        rels: rels_inicial(es),
        ct,
        midia: Seq::empty(),
        rid: max_rid_de(rels_inicial(es), 0, 0) + 1,
        idx: max_midia(es) + 1,
        docpr: 900000,
        n: 0,
    }
}

/// Every image whose size is legible is inserted once, and each one takes
/// the next relationship, media and drawing number.
pub proof fn lemma_dobrar_contadores(st: Estado, imgs: Seq<(Seq<char>, Option<Seq<char>>, Option<Seq<u8>>)>, legendas: bool, escs: Seq<(u64, u64)>)
    ensures
        ({
            let f = dobrar(st, imgs, legendas, escs);
            &&& f.rid == st.rid + legiveis(imgs)
            &&& f.idx == st.idx + legiveis(imgs)
            &&& f.docpr == st.docpr + legiveis(imgs)
            &&& f.n == st.n + legiveis(imgs)
        }),
        0 <= legiveis(imgs) <= imgs.len(),
    decreases imgs.len(),
{
    if imgs.len() > 0 {
        lemma_dobrar_contadores(st, imgs.drop_last(), legendas, escs.drop_last());
    }
}

/// What image `k` adds to the body when it is legible: its picture
/// paragraph (the next relationship and drawing number after the legible
/// images before it), then its caption when `legendas`; nothing otherwise.
pub open spec fn trecho_imagem(
    st: Estado,
    imgs: Seq<(Seq<char>, Option<Seq<char>>, Option<Seq<u8>>)>,
    legendas: bool,
    escs: Seq<(u64, u64)>,
    k: int,
) -> Seq<char> {
    if dims(imgs[k]) is Some {
        let j = legiveis(imgs.take(k));
        paragrafo_imagem_spec(
            "rId"@ + dec_digits((st.rid + j) as nat),
            escs[k].0,
            escs[k].1,
            (st.docpr + j) as u32,
            imgs[k].0,
        ) + if legendas {
            paragrafo_legenda_spec(imgs[k].0)
        } else {
            Seq::empty()
        }
    } else {
        Seq::empty()
    }
}

/// The additions of every image, in the order the images are given.
pub open spec fn trechos(
    st: Estado,
    imgs: Seq<(Seq<char>, Option<Seq<char>>, Option<Seq<u8>>)>,
    legendas: bool,
    escs: Seq<(u64, u64)>,
) -> Seq<Seq<char>> {
    Seq::new(imgs.len(), |k: int| trecho_imagem(st, imgs, legendas, escs, k))
}

/// The images go into the body in the order they are given: the XML that
/// takes the place of `{{EVIDENCIAS}}` is the XML already there followed by
/// the additions of the images, first to last.
pub proof fn lemma_imagens_em_ordem(
    st: Estado,
    imgs: Seq<(Seq<char>, Option<Seq<char>>, Option<Seq<u8>>)>,
    legendas: bool,
    escs: Seq<(u64, u64)>,
)
    requires
        escs.len() == imgs.len(),
    ensures
        dobrar(st, imgs, legendas, escs).xml == st.xml + trechos(st, imgs, legendas, escs).flatten(),
    decreases imgs.len(),
{
    let n = imgs.len();
    if n == 0 {
        assert(trechos(st, imgs, legendas, escs) =~= Seq::<Seq<char>>::empty());
        assert(st.xml + Seq::<Seq<char>>::empty().flatten() =~= st.xml);
    } else {
        let d = imgs.drop_last();
        let ed = escs.drop_last();
        lemma_imagens_em_ordem(st, d, legendas, ed);
        lemma_dobrar_contadores(st, d, legendas, ed);
        assert(d =~= imgs.take(n - 1));
        let td = trechos(st, d, legendas, ed);
        let t = trechos(st, imgs, legendas, escs);
        assert forall|k: int| 0 <= k < n - 1 implies #[trigger] td[k] == t[k] by {
            assert(d.take(k) =~= imgs.take(k));
            assert(d[k] == imgs[k]);
            assert(ed[k] == escs[k]);
        }
        assert(t =~= td.push(t[n - 1]));
        td.lemma_flatten_push(t[n - 1]);
        assert(imgs.last() == imgs[n - 1]);
        assert(escs.last() == escs[n - 1]);
        let prev = dobrar(st, d, legendas, ed);
        assert(dobrar(st, imgs, legendas, escs) == passo(prev, imgs[n - 1], legendas, escs[n - 1]));
        assert(dobrar(st, imgs, legendas, escs).xml =~= prev.xml + t[n - 1]);
        assert(st.xml + td.flatten() + t[n - 1] =~= st.xml + (td.flatten() + t[n - 1]));
    }
}

/// The media file image `k` adds when it is legible: `word/media/det_img<n>.<ext>`
/// with the next media number after the legible images before it, holding
/// the image's bytes; nothing otherwise.
pub open spec fn midia_imagem(
    st: Estado,
    imgs: Seq<(Seq<char>, Option<Seq<char>>, Option<Seq<u8>>)>,
    k: int,
) -> Seq<(Seq<char>, Seq<u8>)> {
    if dims(imgs[k]) is Some {
        let j = legiveis(imgs.take(k));
        seq![("word/media/det_img"@ + dec_digits((st.idx + j) as nat) + "."@ + ext_de(imgs[k]), imgs[k].2->0)]
    } else {
        Seq::empty()
    }
}

/// The media files of the images are added in the order the images are
/// given, each numbered after the legible images before it.
pub proof fn lemma_midia_em_ordem(
    st: Estado,
    imgs: Seq<(Seq<char>, Option<Seq<char>>, Option<Seq<u8>>)>,
    legendas: bool,
    escs: Seq<(u64, u64)>,
)
    requires
        escs.len() == imgs.len(),
    ensures
        dobrar(st, imgs, legendas, escs).midia == st.midia + Seq::new(
            imgs.len(),
            |k: int| midia_imagem(st, imgs, k),
        ).flatten(),
    decreases imgs.len(),
{
    let n = imgs.len();
    let t = Seq::new(imgs.len(), |k: int| midia_imagem(st, imgs, k));
    if n == 0 {
        assert(t =~= Seq::<Seq<(Seq<char>, Seq<u8>)>>::empty());
        assert(st.midia + Seq::<Seq<(Seq<char>, Seq<u8>)>>::empty().flatten() =~= st.midia);
    } else {
        let d = imgs.drop_last();
        let ed = escs.drop_last();
        lemma_midia_em_ordem(st, d, legendas, ed);
        lemma_dobrar_contadores(st, d, legendas, ed);
        assert(d =~= imgs.take(n - 1));
        let td = Seq::new(d.len(), |k: int| midia_imagem(st, d, k));
        assert forall|k: int| 0 <= k < n - 1 implies #[trigger] td[k] == t[k] by {
            assert(d.take(k) =~= imgs.take(k));
            assert(d[k] == imgs[k]);
        }
        assert(t =~= td.push(t[n - 1]));
        td.lemma_flatten_push(t[n - 1]);
        assert(imgs.last() == imgs[n - 1]);
        let prev = dobrar(st, d, legendas, ed);
        assert(dobrar(st, imgs, legendas, escs) == passo(prev, imgs[n - 1], legendas, escs[n - 1]));
        if dims(imgs[n - 1]) is Some {
            assert(dobrar(st, imgs, legendas, escs).midia =~= prev.midia + t[n - 1]);
        } else {
            assert(t[n - 1] =~= Seq::<(Seq<char>, Seq<u8>)>::empty());
            assert(dobrar(st, imgs, legendas, escs).midia =~= prev.midia + t[n - 1]);
        }
        assert(st.midia + td.flatten() + t[n - 1] =~= st.midia + (td.flatten() + t[n - 1]));
    }
}

proof fn lemma_legiveis_prefixo(imgs: Seq<(Seq<char>, Option<Seq<char>>, Option<Seq<u8>>)>, k: int)
    requires
        0 <= k <= imgs.len(),
    ensures
        legiveis(imgs.take(k)) <= legiveis(imgs),
    decreases imgs.len() - k,
{
    if k < imgs.len() {
        lemma_legiveis_prefixo(imgs.drop_last(), k);
        assert(imgs.drop_last().take(k) =~= imgs.take(k));
        assert(imgs.take(imgs.len() as int) =~= imgs);
        lemma_dobrar_contadores(estado_inicial(Seq::empty(), Seq::empty()), imgs.drop_last(), false, Seq::empty());
    } else {
        assert(imgs.take(k) =~= imgs);
    }
}

fn ext_minuscula(img: &Imagem) -> (r: Vec<char>)
    ensures
        r@ == ext_de(imagem_view(*img)),
{
    match &img.extensao {
        Some(e) => {
            let v = chars_of(e.as_str());
            let mut out: Vec<char> = Vec::new();
            for k in 0..v.len()
                invariant
                    out@ == v@.take(k as int).map_values(|c: char| crate::texto::ascii_lower(c)),
            {
                out.push(crate::texto::char_to_ascii_lowercase(v[k]));
                assert(out@ =~= v@.take(k + 1).map_values(|c: char| crate::texto::ascii_lower(c)));
            }
            assert(v@.take(v.len() as int) =~= v@);
            out
        },
        None => chars_of("png"),
    }
}

/// The insertion state, in executable form.
struct EstadoExec {
    xml: Vec<char>,
    rels: Vec<char>,
    ct: Vec<char>,
    novas: Vec<(Vec<char>, Vec<u8>)>,
    rid: u32,
    idx: u32,
    docpr: u32,
    n: usize,
}

impl EstadoExec {
    spec fn estado(&self) -> Estado {
        Estado {
            xml: self.xml@,
            rels: self.rels@,
            ct: self.ct@,
            midia: self.novas@.map_values(|m: (Vec<char>, Vec<u8>)| (m.0@, m.1@)),
            rid: self.rid as int,
            idx: self.idx as int,
            docpr: self.docpr as int,
            n: self.n as int,
        }
    }
}

/// One image of the insertion (see `passo`); gives the size it was scaled to.
fn passo_exec<F: Fn(u32, u32) -> (u64, u64)>(st0: EstadoExec, img: &Imagem, legendas: bool, escalar: &F) -> (r: (EstadoExec, (u64, u64)))
    requires
        forall|w: u32, h: u32| escalar.requires((w, h)),
        dims(imagem_view(*img)) is Some ==> {
            &&& st0.rid < u32::MAX
            &&& st0.idx < u32::MAX
            &&& st0.docpr < u32::MAX
            &&& st0.n < usize::MAX
        },
    ensures
        r.0.estado() == passo(st0.estado(), imagem_view(*img), legendas, r.1),
        dims(imagem_view(*img)) is Some ==> escalar.ensures(
            (largura(imagem_view(*img)), altura(imagem_view(*img))),
            r.1,
        ),
{
    let ghost antes = st0.estado();
    let mut st = st0;
    let ext = ext_minuscula(img);
    let dimensoes = match &img.bytes {
        Some(b) => image_size(b.as_slice(), &ext),
        None => None,
    };
    assert(dimensoes == dims(imagem_view(*img)));
    match dimensoes {
        None => (st, (0, 0)),
        Some((w, h)) => {
            let bytes = match &img.bytes {
                Some(b) => b,
                None => {
                    assert(false);
                    return (st, (0, 0));
                },
            };
            let (cx, cy) = escalar(w, h);
            proof {
                reveal_strlit(".");
            }
            let idx = digitos(st.idx as u64);
            let mut media_name = chars_of("word/media/det_img");
            anexar(&mut media_name, &idx);
            media_name.push('.');
            anexar(&mut media_name, &ext);
            let mut rel_target = chars_of("media/det_img");
            anexar(&mut rel_target, &idx);
            rel_target.push('.');
            anexar(&mut rel_target, &ext);
            let mut rid = chars_of("rId");
            let rn = digitos(st.rid as u64);
            anexar(&mut rid, &rn);
            let nome_arq = chars_of(img.nome.as_str());
            garantir_content_type(&mut st.ct, &ext);
            st.rels = adicionar_rel(&st.rels, &rid, &rel_target);
            let p = paragrafo_imagem(&rid, cx, cy, st.docpr, &nome_arq);
            anexar(&mut st.xml, &p);
            if legendas {
                let l = paragrafo_legenda(&nome_arq);
                anexar(&mut st.xml, &l);
            }
            let copia = crate::util::copia_bytes(bytes);
            let ghost nv = st.novas@;
            st.novas.push((media_name, copia));
            proof {
                assert(st.novas@ == nv.push((media_name, copia)));
                assert(st.novas@.map_values(|m: (Vec<char>, Vec<u8>)| (m.0@, m.1@)) =~= nv.map_values(
                    |m: (Vec<char>, Vec<u8>)| (m.0@, m.1@),
                ).push((media_name@, copia@)));
            }
            st.rid = st.rid + 1;
            st.idx = st.idx + 1;
            st.docpr = st.docpr + 1;
            st.n = st.n + 1;
            assert(st.xml@ =~= passo(antes, imagem_view(*img), legendas, (cx, cy)).xml);
            assert(rel_target@ =~= "media/det_img"@ + dec_digits(antes.idx as nat) + "."@ + ext_de(imagem_view(*img)));
            assert(media_name@ =~= "word/media/det_img"@ + dec_digits(antes.idx as nat) + "."@ + ext_de(imagem_view(*img)));
            assert(st.estado().midia =~= passo(antes, imagem_view(*img), legendas, (cx, cy)).midia);
            assert(st.estado() == passo(antes, imagem_view(*img), legendas, (cx, cy)));
            (st, (cx, cy))
        },
    }
}

/// `insert_images` warns that the images are not inserted: there are
/// images, and the document has no `{{EVIDENCIAS}}`.
pub open spec fn sem_evidencias(es: Seq<(Seq<char>, Seq<u8>)>, iv: Seq<(Seq<char>, Option<Seq<char>>, Option<Seq<u8>>)>) -> bool {
    iv.len() > 0 && match texto_entrada(es, documento()) {
        Some(doc) => !contem(doc, token_evidencias()),
        None => false,
    }
}

/// `insert_images` warns that image `k` is skipped: the images are being
/// inserted (the document has `{{EVIDENCIAS}}` and there is a
/// `[Content_Types].xml`), and the image was not read or its header gives
/// no size.
pub open spec fn pulada(es: Seq<(Seq<char>, Seq<u8>)>, iv: Seq<(Seq<char>, Option<Seq<char>>, Option<Seq<u8>>)>, k: int) -> bool {
    match texto_entrada(es, documento()) {
        Some(doc) => contem(doc, token_evidencias()) && texto_entrada(es, nome_ct()) is Some
            && dims(iv[k]) is None,
        None => false,
    }
}

impl Docx {
    /// The warnings that inserting these images gives: whether they are not
    /// inserted for want of `{{EVIDENCIAS}}`, and for each image whether it
    /// is skipped (not read, or its size cannot be read).
    pub fn avisos_imagens(&self, imagens: &[Imagem]) -> (r: (bool, Vec<bool>))
        ensures
            r.0 == sem_evidencias(self.entradas(), imagens@.map_values(|i: Imagem| imagem_view(i))),
            r.1.len() == imagens.len(),
            forall|k: int| 0 <= k < imagens.len() ==> r.1[k] == pulada(
                self.entradas(),
                imagens@.map_values(|i: Imagem| imagem_view(i)),
                k,
            ),
    {
        let ghost es = self.entradas();
        let ghost iv = imagens@.map_values(|i: Imagem| imagem_view(i));
        let mut ileg: Vec<bool> = Vec::new();
        let doc = match self.entry_str(&nome_documento()) {
            Some(d) => d,
            None => {
                for k in 0..imagens.len()
                    invariant
                        ileg.len() == k,
                        texto_entrada(es, documento()) is None,
                        es == self.entradas(),
                        iv == imagens@.map_values(|i: Imagem| imagem_view(i)),
                        forall|j: int| 0 <= j < k ==> ileg[j] == pulada(es, iv, j),
                {
                    ileg.push(false);
                }
                return (false, ileg);
            },
        };
        let tok = chars_of("{{EVIDENCIAS}}");
        proof {
            reveal_strlit("{{EVIDENCIAS}}");
        }
        assert(tok@ == token_evidencias());
        let tem_token = contem_exec(&doc, &tok);
        let tem_ct = self.entry_str(&chars_of("[Content_Types].xml")).is_some();
        proof {
            reveal_strlit("[Content_Types].xml");
        }
        for k in 0..imagens.len()
            invariant
                ileg.len() == k,
                es == self.entradas(),
                iv == imagens@.map_values(|i: Imagem| imagem_view(i)),
                texto_entrada(es, documento()) == Some(doc@),
                tem_token == contem(doc@, token_evidencias()),
                tem_ct == (texto_entrada(es, nome_ct()) is Some),
                forall|j: int| 0 <= j < k ==> ileg[j] == pulada(es, iv, j),
        {
            let img = &imagens[k];
            assert(iv[k as int] == imagem_view(*img));
            let ext = ext_minuscula(img);
            let sem_tamanho = match &img.bytes {
                Some(b) => image_size(b.as_slice(), &ext).is_none(),
                None => true,
            };
            ileg.push(tem_token && tem_ct && sem_tamanho);
        }
        (imagens.len() > 0 && !tem_token, ileg)
    }

    /// Whether `insert_images` can number these images: the relationship,
    /// media and drawing numbers it would give stay within `u32` (see
    /// `numeros_cabem`).
    pub fn cabem_imagens(&self, imagens: &[Imagem]) -> (r: bool)
        ensures
            r == numeros_cabem(self.entradas(), imagens@.map_values(|i: Imagem| imagem_view(i))),
    {
        let ghost es = self.entradas();
        let ghost iv = imagens@.map_values(|i: Imagem| imagem_view(i));
        let doc = match self.entry_str(&nome_documento()) {
            Some(d) => d,
            None => return true,
        };
        if !contem_exec(&doc, &chars_of("{{EVIDENCIAS}}")) {
            return true;
        }
        if imagens.len() == 0 {
            return true;
        }
        if self.entry_str(&chars_of("[Content_Types].xml")).is_none() {
            return true;
        }
        let rels0 = match self.entry_str(&chars_of("word/_rels/document.xml.rels")) {
            Some(t) => t,
            None => rels_vazio(),
        };
        let mr = max_rid(&rels0) as u64;
        let mm = max_media_idx(&self.entries) as u64;
        let mut n: u64 = 0;
        for k in 0..imagens.len()
            invariant
                iv == imagens@.map_values(|i: Imagem| imagem_view(i)),
                n == legiveis(iv.take(k as int)),
                n <= k,
        {
            assert(iv.take(k + 1).drop_last() =~= iv.take(k as int));
            assert(iv.take(k + 1).last() == imagem_view(imagens@[k as int]));
            let img = &imagens[k];
            let ext = ext_minuscula(img);
            let legivel = match &img.bytes {
                Some(b) => image_size(b.as_slice(), &ext).is_some(),
                None => false,
            };
            if legivel {
                n = n + 1;
            }
        }
        assert(iv.take(imagens.len() as int) =~= iv);
        n <= 0xffff_ffffu64 && mr + 1 + n <= 0xffff_ffffu64 && mm + 1 + n <= 0xffff_ffffu64 && 900000 + n <= 0xffff_ffffu64
    }

    /// Puts the images in place of the paragraph that holds `{{EVIDENCIAS}}`,
    /// one centred paragraph each (with the file name as caption when
    /// `legendas`), sized by `escalar` from their pixel dimensions. Images
    /// that were not read or whose size is not legible are skipped. Gives the
    /// number of images inserted.
    pub fn insert_images<F: Fn(u32, u32) -> (u64, u64)>(&mut self, imagens: &[Imagem], legendas: bool, escalar: &F) -> (r: Result<usize, String>)
        requires
            forall|w: u32, h: u32| escalar.requires((w, h)),
            numeros_cabem(old(self).entradas(), imagens@.map_values(|i: Imagem| imagem_view(i))),
        ensures
            ({
                let es = old(self).entradas();
                let iv = imagens@.map_values(|i: Imagem| imagem_view(i));
                match texto_entrada(es, documento()) {
                    None => (r matches Err(m) && m@ == "document.xml ausente"@) && final(self).entradas() == es,
                    Some(doc) => if !contem(doc, token_evidencias()) {
                        (r matches Ok(n) && n == 0) && final(self).entradas() == es
                    } else if iv.len() == 0 {
                        (r matches Ok(n) && n == 0) && final(self).entradas() == com_entrada(
                            es,
                            documento(),
                            encode_utf8(substituir_spec(doc, token_evidencias(), Seq::empty())),
                        )
                    } else {
                        match texto_entrada(es, nome_ct()) {
                            None => (r matches Err(m) && m@ == "[Content_Types].xml ausente"@)
                                && final(self).entradas() == es,
                            Some(ct) => exists|escs: Seq<(u64, u64)>|
                                #![trigger dobrar(estado_inicial(es, ct), iv, legendas, escs)]
                                escs.len() == iv.len() && (forall|q: int|
                                    0 <= q < iv.len() && #[trigger] dims(iv[q]) is Some ==> escalar.ensures(
                                        (largura(iv[q]), altura(iv[q])),
                                        escs[q],
                                    )) && (r matches Ok(n) && n == dobrar(
                                    estado_inicial(es, ct),
                                    iv,
                                    legendas,
                                    escs,
                                ).n) && final(self).entradas() == entradas_apos(
                                    es,
                                    doc,
                                    dobrar(estado_inicial(es, ct), iv, legendas, escs),
                                ),
                        }
                    },
                }
            }),
    {
        let ghost es = self.entradas();
        let ghost iv = imagens@.map_values(|i: Imagem| imagem_view(i));
        let nome_doc = nome_documento();
        let doc = match self.entry_str(&nome_doc) {
            Some(d) => d,
            None => {
                return Err(string_of(chars_of("document.xml ausente").as_slice()));
            },
        };
        let token = chars_of("{{EVIDENCIAS}}");
        if !contem_exec(&doc, &token) {
            return Ok(0);
        }
        if imagens.len() == 0 {
            let limpo = remover_paragrafo_com(&doc, &token);
            let b = bytes_de_texto(limpo.as_slice());
            self.set_entry(&nome_doc, b);
            return Ok(0);
        }
        let parte_rels = chars_of("word/_rels/document.xml.rels");
        let rels0 = match self.entry_str(&parte_rels) {
            Some(t) => t,
            None => rels_vazio(),
        };
        let parte_ct = chars_of("[Content_Types].xml");
        let ct0 = match self.entry_str(&parte_ct) {
            Some(t) => t,
            None => {
                return Err(string_of(chars_of("[Content_Types].xml ausente").as_slice()));
            },
        };
        let ghost st0 = estado_inicial(es, ct0@);
        proof {
            lemma_dobrar_contadores(st0, iv, legendas, Seq::empty());
        }
        let rid0 = max_rid(&rels0) + 1;
        let idx0 = max_media_idx(&self.entries) + 1;
        let mut st = EstadoExec {
            xml: Vec::new(),
            rels: rels0,
            ct: ct0,
            novas: Vec::new(),
            rid: rid0,
            idx: idx0,
            docpr: 900000,
            n: 0,
        };
        assert(st.estado().midia =~= Seq::<(Seq<char>, Seq<u8>)>::empty());
        assert(st.estado() == st0);
        let ghost mut escs: Seq<(u64, u64)> = Seq::empty();
        for k in 0..imagens.len()
            invariant
                iv == imagens@.map_values(|i: Imagem| imagem_view(i)),
                numeros_cabem(es, iv),
                texto_entrada(es, documento()) == Some(doc@),
                contem(doc@, token_evidencias()),
                iv.len() > 0,
                texto_entrada(es, nome_ct()) matches Some(c) && st0 == estado_inicial(es, c),
                escs.len() == k,
                forall|q: int|
                    0 <= q < k && #[trigger] dims(iv[q]) is Some ==> escalar.ensures(
                        (largura(iv[q]), altura(iv[q])),
                        escs[q],
                    ),
                forall|w: u32, h: u32| escalar.requires((w, h)),
                st.estado() == dobrar(st0, iv.take(k as int), legendas, escs),
        {
            proof {
                lemma_dobrar_contadores(st0, iv.take(k as int), legendas, escs);
                lemma_legiveis_prefixo(iv, k + 1);
                lemma_dobrar_contadores(st0, iv.take(k + 1), legendas, escs.push((0u64, 0u64)));
                assert(iv.take(k + 1).drop_last() =~= iv.take(k as int));
                assert(iv.take(k + 1).last() == iv[k as int]);
                assert(escs.push((0u64, 0u64)).drop_last() =~= escs);
            }
            let img = &imagens[k];
            assert(iv[k as int] == imagem_view(*img));
            let (st1, esc) = passo_exec(st, img, legendas, escalar);
            st = st1;
            proof {
                let novo = escs.push(esc);
                assert(novo.drop_last() =~= escs);
                assert(forall|q: int| 0 <= q < k ==> #[trigger] novo[q] == escs[q]);
                escs = novo;
            }
        }
        assert(iv.take(imagens.len() as int) =~= iv);
        let novo_doc = substituir_paragrafo_com(&doc, &token, &st.xml);
        self.set_entry(&nome_doc, bytes_de_texto(novo_doc.as_slice()));
        self.set_entry(&parte_rels, bytes_de_texto(st.rels.as_slice()));
        self.set_entry(&parte_ct, bytes_de_texto(st.ct.as_slice()));
        let ghost e3 = self.entradas();
        let ghost mv = st.novas@.map_values(|m: (Vec<char>, Vec<u8>)| (m.0@, m.1@));
        for j in 0..st.novas.len()
            invariant
                mv == st.novas@.map_values(|m: (Vec<char>, Vec<u8>)| (m.0@, m.1@)),
                self.entradas() == com_midia(e3, mv.take(j as int)),
        {
            let (n, b) = &st.novas[j];
            let c = crate::util::copia_bytes(b);
            self.set_entry(n, c);
            assert(mv.take(j + 1).drop_last() =~= mv.take(j as int));
        }
        assert(mv.take(st.novas.len() as int) =~= mv);
        Ok(st.n)
    }
}

} // verus!
