//! The note data model: byte spans and the references a note makes.
use vstd::prelude::*;
use crate::date::Date;

verus! {

/// A range of bytes in a note's text: `offset` and `length` in bytes.
#[derive(Clone, Copy, Debug, PartialEq, Eq, Hash, Structural)]
pub struct ByteSpan {
    pub offset: usize,
    pub length: usize,
}

/// A wiki-link `[[file_name|label]]` of a note.
#[derive(Clone, Debug, PartialEq)]
pub struct LinkRef {
    pub file_name: String,
    pub label: String,
    pub span: ByteSpan,
}

/// A tag `@name` of a note.
#[derive(Clone, Debug, PartialEq)]
pub struct TagRef {
    pub name: String,
    pub span: ByteSpan,
}

/// A date `!DD.MM.YYYY` of a note.
#[derive(Clone, Debug, PartialEq)]
pub struct DateRef {
    pub date: Date,
    pub raw: String,
    pub span: ByteSpan,
}

/// Everything a note refers to.
#[derive(Clone, Debug, PartialEq)]
pub struct NoteMetadata {
    pub links: Vec<LinkRef>,
    pub tags: Vec<TagRef>,
    pub dates: Vec<DateRef>,
}

/// A note: its path in the vault and its metadata.
#[derive(Clone, Debug, PartialEq)]
pub struct Note {
    pub path: String,
    pub metadata: NoteMetadata,
}

} // verus!
