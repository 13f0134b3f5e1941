//! Gestor de Documentos de Testes (DET): the verified core.
//!
//! The text and byte processing behind the tool (natural ordering, text
//! normalisation, calendar arithmetic, the small XML scanner, the spreadsheet
//! reader and the .docx template engine) lives here with its contracts. File
//! system access, external programs and the terminal menu live in `app/`.

pub mod texto;
pub mod arquivo_zip;
pub mod util;
pub mod docx;
pub mod ordem;
pub mod xlsx;
pub mod acoes;
pub mod workspace;
pub mod menu;
