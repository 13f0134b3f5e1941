//! The zip archive calls that .docx and .xlsx files need, with what the
//! library relies on about them. An archive is read through a `Cursor` over
//! its bytes and written into a `Cursor` over a growing vector, so no file
//! system access happens here.

use std::io::Cursor;

use vstd::prelude::*;
use vstd::utf8::{decode_utf8, valid_utf8};
use zip::result::ZipError;
use zip::{ZipArchive, ZipWriter};

verus! {

#[verifier::external_type_specification]
#[verifier::external_body]
#[verifier::reject_recursive_types(T)]
pub struct ExCursor<T>(Cursor<T>);

#[verifier::external_type_specification]
#[verifier::external_body]
#[verifier::reject_recursive_types(R)]
pub struct ExZipArchive<R>(ZipArchive<R>);

#[verifier::external_type_specification]
#[verifier::external_body]
pub struct ExZipError(ZipError);

#[verifier::external_type_specification]
#[verifier::external_body]
pub struct ExIoError(std::io::Error);

/// An archive opened over bytes held in memory.
pub type Arquivo = ZipArchive<Cursor<Vec<u8>>>;

/// The entries of the archive that `ZipArchive::new` reads from `dados`, in
/// the order of its central directory; `None` when `ZipArchive::new` refuses
/// the bytes. Each entry is its name, whether `by_index_decrypt` (with an
/// empty password) opens it, and, when it opens and reading it to the end
/// succeeds, the bytes that reading gives.
pub uninterp spec fn zip_central(dados: Seq<u8>) -> Option<Seq<(Seq<char>, bool, Option<Seq<u8>>)>>;

/// The entries (as in `zip_central`) of an open archive, in index order.
pub uninterp spec fn zip_entradas(a: Arquivo) -> Seq<(Seq<char>, bool, Option<Seq<u8>>)>;

/// `ZipArchive::new` over the bytes: it succeeds exactly when the bytes hold
/// an archive it accepts, and then holds the entries that `zip_central` names.
#[verifier::external_body]
pub(crate) fn zip_abrir(dados: Vec<u8>) -> (r: Result<Arquivo, ZipError>)
    ensures
        r is Ok <==> zip_central(dados@) is Some,
        r matches Ok(a) ==> zip_entradas(a) == zip_central(dados@)->0,
        r matches Ok(a) ==> forall|i: int|
            0 <= i < zip_entradas(a).len() && (#[trigger] zip_entradas(a)[i]).2 is Some
                ==> zip_entradas(a)[i].1,
{
    ZipArchive::new(Cursor::new(dados))
}

/// `ZipArchive::len`: the number of entries.
#[verifier::external_body]
pub(crate) fn zip_tamanho(a: &Arquivo) -> (r: usize)
    ensures
        r == zip_entradas(*a).len(),
{
    a.len()
}

/// `ZipArchive::by_index_decrypt` with an empty password (which is dropped
/// for an entry that is not encrypted), the entry it opens turned into plain
/// values: its name (`ZipFile::name`) and its whole content
/// (`Read::read_to_end`). A refused password is reported as the error
/// `UnsupportedArchive(PASSWORD_REQUIRED)`. The outer error is that of
/// opening, the inner one that of the read. The archive's entries stay as
/// they were.
#[verifier::external_body]
pub(crate) fn zip_entrada(a: &mut Arquivo, i: usize) -> (r: Result<
    (String, Result<Vec<u8>, std::io::Error>),
    ZipError,
>)
    requires
        i < zip_entradas(*old(a)).len(),
    ensures
        zip_entradas(*final(a)) == zip_entradas(*old(a)),
        r is Ok <==> zip_entradas(*old(a))[i as int].1,
        r matches Ok((n, _)) ==> n@ == zip_entradas(*old(a))[i as int].0,
        r matches Ok((_, l)) ==> (l is Ok <==> zip_entradas(*old(a))[i as int].2 is Some),
        r matches Ok((_, Ok(b))) ==> b@ == zip_entradas(*old(a))[i as int].2->0,
{
    match a.by_index_decrypt(i, b"")? {
        Ok(mut f) => {
            let nome = f.name().to_string();
            let mut buf = Vec::new();
            let lido = std::io::Read::read_to_end(&mut f, &mut buf).map(|_| buf);
            Ok((nome, lido))
        },
        Err(_) => Err(ZipError::UnsupportedArchive(ZipError::PASSWORD_REQUIRED)),
    }
}

/// The index of the last entry named `nome`: `ZipArchive::new` indexes the
/// names in a map in directory order, so a later entry of the same name
/// replaces an earlier one.
pub open spec fn ultimo_indice(es: Seq<(Seq<char>, bool, Option<Seq<u8>>)>, nome: Seq<char>) -> Option<int>
    decreases es.len(),
{
    if es.len() == 0 {
        None
    } else if es.last().0 == nome {
        Some(es.len() - 1)
    } else {
        ultimo_indice(es.drop_last(), nome)
    }
}

/// The text of the entry that `by_name` finds for `nome` (the last of that
/// name), when it opens, reads to the end and is UTF-8.
pub open spec fn texto_de_entrada(es: Seq<(Seq<char>, bool, Option<Seq<u8>>)>, nome: Seq<char>) -> Option<Seq<char>> {
    match ultimo_indice(es, nome) {
        Some(j) => match es[j].2 {
            Some(b) => if valid_utf8(b) {
                Some(decode_utf8(b))
            } else {
                None
            },
            None => None,
        },
        None => None,
    }
}

/// `ZipArchive::by_name_decrypt` with an empty password, followed by
/// `Read::read_to_string`, with any error (a refused password included)
/// turned into `None`: the text of the last entry of that name when it
/// opens, reads to the end and its bytes are UTF-8.
#[verifier::external_body]
pub(crate) fn zip_texto(a: &mut Arquivo, nome: &str) -> (r: Option<String>)
    ensures
        zip_entradas(*final(a)) == zip_entradas(*old(a)),
        match texto_de_entrada(zip_entradas(*old(a)), nome@) {
            Some(t) => r matches Some(s) && s@ == t,
            None => r is None,
        },
{
    let mut f = a.by_name_decrypt(nome, b"").ok()?.ok()?;
    let mut buf = String::new();
    std::io::Read::read_to_string(&mut f, &mut buf).ok()?;
    Some(buf)
}

/// The text of a zip error (its `Display`).
#[verifier::external_body]
pub(crate) fn texto_erro_zip(e: &ZipError) -> String {
    format!("{e}")
}

/// The text of an I/O error (its `Display`).
#[verifier::external_body]
pub(crate) fn texto_erro_io(e: &std::io::Error) -> String {
    format!("{e}")
}


/// A `ZipWriter` building an archive in memory. Verus does not take a
/// declaration of `ZipWriter` (its parameter is bounded by `Write + Seek`), so
/// the writer is held here, opaque, and described by `zip_gravadas`.
#[verifier::external_body]
pub struct Gravador {
    w: ZipWriter<Cursor<Vec<u8>>>,
}

/// The entries written so far: name, whether stored without compression
/// (otherwise deflated), and content; `None` once the writer can no longer
/// be used (a call failed, or the archive was finished).
pub uninterp spec fn zip_gravadas(w: Gravador) -> Option<Seq<(Seq<char>, bool, Seq<u8>)>>;

/// The bytes of the archive that `ZipWriter::finish` produces for these
/// entries (with `FileOptions::default()` apart from the compression method).
pub uninterp spec fn zip_bytes(es: Seq<(Seq<char>, bool, Seq<u8>)>) -> Seq<u8>;

/// The largest entry content for which writing is promised to succeed. The
/// writer refuses an entry whose data (before or after compression) passes
/// `u32::MAX` bytes unless the large-file option is set, which it is not
/// here; below this bound neither size gets there, deflate adding only a few
/// bytes per block to data that does not compress.
pub open spec fn limite_entrada() -> nat {
    0x7fff_ffff
}

/// Every entry is within `limite_entrada`.
pub open spec fn cabe_no_zip(es: Seq<(Seq<char>, bool, Seq<u8>)>) -> bool {
    forall|i: int| 0 <= i < es.len() ==> (#[trigger] es[i]).2.len() <= limite_entrada()
}

/// `ZipWriter::new` over an empty in-memory buffer: no entries yet.
#[verifier::external_body]
pub(crate) fn zip_novo() -> (r: Gravador)
    ensures
        zip_gravadas(r) == Some(Seq::<(Seq<char>, bool, Seq<u8>)>::empty()),
{
    Gravador { w: ZipWriter::new(Cursor::new(Vec::new())) }
}

/// `ZipWriter::start_file` with `FileOptions::default()` and the compression
/// method `Stored` (`armazenar`) or `Deflated`: a new, empty entry. Starting an
/// entry first closes the previous one, which fails only when that entry is
/// too large (see `limite_entrada`); writes into a `Cursor` over a `Vec` do
/// not fail.
#[verifier::external_body]
pub(crate) fn zip_iniciar(w: &mut Gravador, nome: &str, armazenar: bool) -> (r: Result<(), ZipError>)
    ensures
        zip_gravadas(*old(w)) matches Some(es) && cabe_no_zip(es) ==> r is Ok,
        zip_gravadas(*old(w)) matches Some(es) ==> (r is Ok ==> zip_gravadas(*final(w)) == Some(
            es.push((nome@, armazenar, Seq::<u8>::empty())),
        )),
        r is Err ==> zip_gravadas(*final(w)) is None,
{
    let metodo = if armazenar {
        zip::CompressionMethod::Stored
    } else {
        zip::CompressionMethod::Deflated
    };
    w.w.start_file(nome, zip::write::FileOptions::default().compression_method(metodo))
}

/// `Write::write_all` on the writer: the bytes go to the end of the current
/// entry. It fails only when the entry passes `u32::MAX` bytes.
#[verifier::external_body]
pub(crate) fn zip_escrever(w: &mut Gravador, dados: &[u8]) -> (r: Result<(), std::io::Error>)
    requires
        zip_gravadas(*old(w)) matches Some(es) && es.len() > 0,
    ensures
        (zip_gravadas(*old(w))->0.last().2 + dados@).len() <= limite_entrada() ==> r is Ok,
        r is Ok ==> zip_gravadas(*final(w)) == Some(zip_gravadas(*old(w))->0.update(
            zip_gravadas(*old(w))->0.len() - 1,
            (
                zip_gravadas(*old(w))->0.last().0,
                zip_gravadas(*old(w))->0.last().1,
                zip_gravadas(*old(w))->0.last().2 + dados@,
            ),
        )),
        r is Err ==> zip_gravadas(*final(w)) is None,
{
    std::io::Write::write_all(&mut w.w, dados)
}

/// `ZipWriter::finish`, then the buffer taken out of its `Cursor`. Closing
/// the last entry fails only when it is too large; the central directory
/// goes to memory and does not fail.
#[verifier::external_body]
pub(crate) fn zip_finalizar(w: &mut Gravador) -> (r: Result<Vec<u8>, ZipError>)
    ensures
        zip_gravadas(*old(w)) matches Some(es) && cabe_no_zip(es) ==> r is Ok,
        zip_gravadas(*old(w)) matches Some(es) ==> (r matches Ok(b) ==> b@ == zip_bytes(es)),
        zip_gravadas(*final(w)) is None,
{
    w.w.finish().map(|c| c.into_inner())
}

} // verus!
