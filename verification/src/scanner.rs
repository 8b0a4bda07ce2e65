//! What the corpus scanner decides of a file: how its text is extracted and
//! what its document is called.

use crate::text::same_text;
use vstd::prelude::*;

verus! {

/// How the text of a file is got.
#[derive(Debug, Clone, Copy, PartialEq, Eq)]
pub enum FileKind {
    /// A PDF file, whose text is extracted.
    Pdf,
    /// A plain text or Markdown file, which is read as it is.
    Text,
    /// Any other file, which is passed over.
    Unsupported,
}

/// The kind of a file with the extension `extension`: `pdf` is a PDF file,
/// `txt` and `md` are text files, in exactly this spelling.
pub open spec fn kind_of(extension: Option<Seq<char>>) -> FileKind {
    match extension {
        Some(e) => if e == "pdf"@ {
            FileKind::Pdf
        } else if e == "txt"@ || e == "md"@ {
            FileKind::Text
        } else {
            FileKind::Unsupported
        },
        None => FileKind::Unsupported,
    }
}

/// The view of an extension or a stem that may be absent.
pub open spec fn name_view(name: Option<&str>) -> Option<Seq<char>> {
    match name {
        Some(n) => Some(n@),
        None => None,
    }
}

/// The title of the document made from a file of kind `kind`: the file's
/// stem, or a fixed title where it has none.
pub open spec fn title_of(stem: Option<Seq<char>>, kind: FileKind) -> Seq<char> {
    match stem {
        Some(s) => s,
        None => match kind {
            FileKind::Pdf => "Unknown PDF"@,
            _ => "Unknown Text File"@,
        },
    }
}

/// Tells from a file's extension how the file is handled.
pub fn classify(extension: Option<&str>) -> (kind: FileKind)
    ensures
        kind == kind_of(name_view(extension)),
{
    match extension {
        Some(e) => {
            if same_text(e, "pdf") {
                FileKind::Pdf
            } else if same_text(e, "txt") || same_text(e, "md") {
                FileKind::Text
            } else {
                FileKind::Unsupported
            }
        },
        None => FileKind::Unsupported,
    }
}

/// The title of the document made from a file: its stem, and a fixed title
/// for a file without one.
pub fn document_title(stem: Option<&str>, kind: FileKind) -> (title: String)
    ensures
        title@ == title_of(name_view(stem), kind),
{
    match stem {
        Some(s) => s.to_owned(),
        None => match kind {
            FileKind::Pdf => "Unknown PDF".to_owned(),
            _ => "Unknown Text File".to_owned(),
        },
    }
}

} // verus!
