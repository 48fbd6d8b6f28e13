//! Cutting a text into paragraphs: the pieces between blank lines, without
//! the white space around them.

use crate::text::{whitespace_char, views};
use regex::Regex;
use vstd::prelude::*;

verus! {

/// What `Regex::new` on the pattern `\n\s*\n` and then `Regex::split` on
/// `text` give: the pieces of the text that stand between two line breaks
/// with nothing but white space from the one to the other, or `None` where
/// the pattern is refused.
pub uninterp spec fn blank_line_pieces(text: Seq<char>) -> Option<Seq<Seq<char>>>;

/// The error with which the `regex` crate refuses a pattern.
#[verifier::external_type_specification]
#[verifier::external_body]
pub struct ExPatternError(regex::Error);

/// `Regex::new` on the pattern `\n\s*\n`, then `Regex::split` on `text`,
/// each piece copied into a string. Whether the pattern is refused and what
/// the pieces are depends on the pattern and the text alone; the outcome is
/// given the name [`blank_line_pieces`]. The error is the one with which the
/// pattern is refused; nothing is said of when that happens.
#[verifier::external_body]
fn split_at_blank_lines(text: &str) -> (out: Result<Vec<String>, regex::Error>)
    ensures
        match out {
            Ok(pieces) => blank_line_pieces(text@) == Some(views(pieces@)),
            Err(_) => blank_line_pieces(text@) is None,
        },
{
    match Regex::new(r"\n\s*\n") {
        Ok(pattern) => Ok(pattern.split(text).map(|piece| piece.to_string()).collect()),
        Err(refused) => Err(refused),
    }
}

/// Why a text could not be cut into paragraphs.
#[derive(Clone, Copy, PartialEq, Eq, Debug, Structural)]
pub enum ParagraphsError {
    /// The pattern for blank lines was refused.
    Pattern,
}

impl ParagraphsError {
    /// The error in words.
    pub fn message(&self) -> (out: String)
        ensures
            out@ == "the pattern for blank lines was refused"@,
    {
        "the pattern for blank lines was refused".to_owned()
    }
}

/// `s` without the white space at its start.
pub open spec fn trimmed_start(s: Seq<char>) -> Seq<char>
    decreases s.len(),
{
    if s.len() > 0 && whitespace_char(s.first()) {
        trimmed_start(s.drop_first())
    } else {
        s
    }
}

/// `s` without the white space at its end.
pub open spec fn trimmed_end(s: Seq<char>) -> Seq<char>
    decreases s.len(),
{
    if s.len() > 0 && whitespace_char(s.last()) {
        trimmed_end(s.drop_last())
    } else {
        s
    }
}

/// `s` without the white space at its start and at its end.
pub open spec fn trimmed(s: Seq<char>) -> Seq<char> {
    trimmed_end(trimmed_start(s))
}

/// The paragraphs that `pieces` give: each without the white space around
/// it, and none that is empty then.
pub open spec fn paragraphs_of(pieces: Seq<Seq<char>>) -> Seq<Seq<char>>
    decreases pieces.len(),
{
    if pieces.len() == 0 {
        Seq::empty()
    } else if trimmed(pieces.last()).len() == 0 {
        paragraphs_of(pieces.drop_last())
    } else {
        paragraphs_of(pieces.drop_last()).push(trimmed(pieces.last()))
    }
}

/// `text` without the white space at its start and at its end.
pub fn trim(text: &str) -> (out: String)
    ensures
        out@ == trimmed(text@),
{
    let mut chars: Vec<char> = Vec::new();
    for c in it: text.chars()
        invariant
            it.seq() == text@,
            chars@ == text@.take(it.index() as int),
    {
        assert(text@.take(it.index() + 1) =~= text@.take(it.index() as int).push(c));
        chars.push(c);
    }
    assert(text@.take(text@.len() as int) =~= text@);
    let mut start: usize = 0;
    assert(chars@.skip(0) =~= chars@);
    while start < chars.len() && chars[start].is_whitespace()
        invariant
            start <= chars@.len(),
            trimmed_start(chars@) == trimmed_start(chars@.skip(start as int)),
        decreases chars@.len() - start,
    {
        assert(chars@.skip(start as int).drop_first() =~= chars@.skip(start + 1));
        start += 1;
    }
    let ghost rest = chars@.skip(start as int);
    assert(trimmed_start(chars@) == rest);
    let mut end: usize = chars.len();
    assert(rest.take(end - start) =~= rest);
    while end > start && chars[end - 1].is_whitespace()
        invariant
            start <= end <= chars@.len(),
            rest == chars@.skip(start as int),
            trimmed_end(rest) == trimmed_end(rest.take(end - start)),
        decreases end,
    {
        assert(rest.take(end - start).drop_last() =~= rest.take(end - start - 1));
        assert(rest.take(end - start).last() == chars@[end - 1]);
        end -= 1;
    }
    assert(trimmed_end(rest) == rest.take(end - start)) by {
        if end > start {
            assert(rest.take(end - start).last() == chars@[end - 1]);
        }
    }
    let mut out = String::new();
    let mut k: usize = start;
    while k < end
        invariant
            start <= k <= end <= chars@.len(),
            rest == chars@.skip(start as int),
            out@ == rest.take(k - start),
        decreases end - k,
    {
        assert(rest.take(k + 1 - start) =~= rest.take(k - start).push(chars@[k as int]));
        out.push(chars[k]);
        k += 1;
    }
    out
}

/// The paragraphs that a text has where the pattern for blank lines is
/// accepted: those of its pieces between blank lines.
pub open spec fn paragraphs_in(text: Seq<char>) -> Option<Seq<Seq<char>>> {
    match blank_line_pieces(text) {
        Some(pieces) => Some(paragraphs_of(pieces)),
        None => None,
    }
}

/// The paragraphs of `contents`: the pieces between blank lines, each
/// without the white space around it, and none that is empty then. The
/// error comes exactly where the pattern for blank lines is refused.
pub fn paragraphs(contents: &str) -> (out: Result<Vec<String>, ParagraphsError>)
    ensures
        match out {
            Ok(list) => paragraphs_in(contents@) == Some(views(list@)),
            Err(error) => paragraphs_in(contents@) is None && error == ParagraphsError::Pattern,
        },
{
    match split_at_blank_lines(contents) {
        Ok(pieces) => Ok(keep_paragraphs(&pieces)),
        Err(_) => Err(ParagraphsError::Pattern),
    }
}

/// The paragraphs that `pieces` give: each without the white space around
/// it, and none that is empty then.
pub fn keep_paragraphs(pieces: &Vec<String>) -> (out: Vec<String>)
    ensures
        views(out@) == paragraphs_of(views(pieces@)),
{
    let mut out: Vec<String> = Vec::new();
    let mut i: usize = 0;
    assert(views(pieces@).take(0) =~= Seq::empty());
    assert(views(out@) =~= Seq::empty());
    while i < pieces.len()
        invariant
            i <= pieces@.len(),
            views(out@) == paragraphs_of(views(pieces@).take(i as int)),
        decreases pieces@.len() - i,
    {
        let paragraph = trim(pieces[i].as_str());
        proof {
            let next = views(pieces@).take(i + 1);
            assert(next.drop_last() =~= views(pieces@).take(i as int));
            assert(next.last() == pieces@[i as int]@);
        }
        if !paragraph.as_str().is_empty() {
            let ghost before = out@;
            out.push(paragraph);
            assert(views(out@) =~= views(before).push(paragraph@));
        }
        i += 1;
    }
    assert(views(pieces@).take(i as int) =~= views(pieces@));
    out
}

} // verus!
