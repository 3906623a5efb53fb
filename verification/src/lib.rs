//! Finding and parsing Y-Statement architecture decision records written in source code
//! comments.
pub mod language;
pub mod text;
pub mod grammar;
pub mod date;
pub mod error;
pub mod statement;
pub mod block;
pub mod yadr;
pub mod rust_comments;
pub mod ts_comments;
pub mod ts_query;
pub mod scan;
pub mod report;
pub mod readback;
pub mod readback_log;
pub mod readback_tail;

pub use language::{Language, UnknownLanguage};
pub use yadr::YAdr;
pub use date::CivilDate;
pub use error::{ErrorKind, Span, YadrError};
pub use scan::{find_all, find_sections_rs, scan_captures, Scan};
pub use statement::StatementSource;
pub use ts_comments::TsCapture;
