//! The text of the two files: how the index log and the upload queue are cut
//! into the pieces that are decoded one by one.

use crate::text::{chars_of, entry_lines, lines_in, string_of, texts, trim, trim_range};
use vstd::prelude::*;

verus! {

/// What the text of an index file holds.
#[derive(Debug)]
pub enum IndexFile {
    /// Nothing but white space.
    Empty,
    /// One array of entries: the whole text, trimmed.
    Array(String),
    /// A log of one entry per line: the lines that hold more than white
    /// space, each trimmed.
    Lines(Vec<String>),
}

/// The mathematical value of an [`IndexFile`].
pub enum IndexFileView {
    Empty,
    Array(Seq<char>),
    Lines(Seq<Seq<char>>),
}

impl View for IndexFile {
    type V = IndexFileView;

    open spec fn view(&self) -> IndexFileView {
        match self {
            IndexFile::Empty => IndexFileView::Empty,
            IndexFile::Array(text) => IndexFileView::Array(text@),
            IndexFile::Lines(lines) => IndexFileView::Lines(texts(lines@)),
        }
    }
}

/// What an index file with the text `content` holds: an array where the
/// trimmed text begins with an opening bracket, else a log.
pub open spec fn framed(content: Seq<char>) -> IndexFileView {
    let text = trim(content);
    if text.len() == 0 {
        IndexFileView::Empty
    } else if text[0] == '[' {
        IndexFileView::Array(text)
    } else {
        IndexFileView::Lines(entry_lines(text))
    }
}

/// Cuts the text of an index file into the pieces to decode.
pub fn frame_index_file(content: &str) -> (file: IndexFile)
    ensures
        file@ == framed(content@),
{
    let chars = chars_of(content);
    assert(chars@.subrange(0, chars@.len() as int) =~= chars@);
    let (a, b) = trim_range(&chars, 0, chars.len());
    if a == b {
        IndexFile::Empty
    } else if chars[a] == '[' {
        IndexFile::Array(string_of(&chars, a, b))
    } else {
        IndexFile::Lines(lines_in(&chars, a, b))
    }
}

/// Cuts the text of an upload queue file into the lines to decode: those
/// that hold more than white space, each trimmed.
pub fn queue_lines(content: &str) -> (lines: Vec<String>)
    ensures
        texts(lines@) == entry_lines(content@),
{
    let chars = chars_of(content);
    assert(chars@.subrange(0, chars@.len() as int) =~= chars@);
    lines_in(&chars, 0, chars.len())
}

} // verus!
