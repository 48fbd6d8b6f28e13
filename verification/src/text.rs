//! Normalization of raw text into index terms.
//!
//! Text is cut at white space into chunks. From each chunk the alphanumeric
//! characters are kept and lowercased; a chunk that leaves nothing is dropped.

use vstd::prelude::*;
use vstd::string::StringExecFns;

verus! {

/// Whether `c` has the Unicode property `White_Space`, as `char::is_whitespace` reports it.
pub uninterp spec fn whitespace_char(c: char) -> bool;

/// Whether `c` is alphabetic or numeric in the sense of Unicode, as
/// `char::is_alphanumeric` reports it.
pub uninterp spec fn alphanumeric_char(c: char) -> bool;

/// The lowercase form of `s`, as `str::to_lowercase` computes it.
pub uninterp spec fn lowercase(s: Seq<char>) -> Seq<char>;

/// `char::is_whitespace`: the result is a function of the character alone and
/// is given the name [`whitespace_char`].
pub assume_specification[ char::is_whitespace ](c: char) -> (b: bool)
    ensures
        b == whitespace_char(c),
;

/// `char::is_alphanumeric`: the result is a function of the character alone
/// and is given the name [`alphanumeric_char`].
pub assume_specification[ char::is_alphanumeric ](c: char) -> (b: bool)
    ensures
        b == alphanumeric_char(c),
;

/// `str::to_lowercase`: the new string is a function of the characters of the
/// old one and is given the name [`lowercase`].
pub assume_specification[ str::to_lowercase ](s: &str) -> (r: String)
    ensures
        r@ == lowercase(s@),
;

/// `String::push`: appends one character to the end of the string.
pub assume_specification[ String::push ](s: &mut String, c: char)
    ensures
        final(s)@ == old(s)@.push(c),
;

/// The alphanumeric characters of `s`, in their order.
pub open spec fn alphanumerics(s: Seq<char>) -> Seq<char>
    decreases s.len(),
{
    if s.len() == 0 {
        Seq::empty()
    } else if alphanumeric_char(s.last()) {
        alphanumerics(s.drop_last()).push(s.last())
    } else {
        alphanumerics(s.drop_last())
    }
}

/// The term that one chunk of text stands for; empty where the chunk holds
/// nothing that counts.
pub open spec fn normalize(chunk: Seq<char>) -> Seq<char> {
    lowercase(alphanumerics(chunk))
}

/// The state of a left-to-right scan after all of `text` has been read: the
/// chunks that white space has closed, and the characters of the chunk that
/// is still open.
pub open spec fn scan(text: Seq<char>) -> (Seq<Seq<char>>, Seq<char>)
    decreases text.len(),
{
    if text.len() == 0 {
        (Seq::empty(), Seq::empty())
    } else {
        let before = scan(text.drop_last());
        if whitespace_char(text.last()) {
            (with_chunk(before.0, before.1), Seq::empty())
        } else {
            (before.0, before.1.push(text.last()))
        }
    }
}

/// `chunks`, followed by `chunk` unless it is empty.
pub open spec fn with_chunk(chunks: Seq<Seq<char>>, chunk: Seq<char>) -> Seq<Seq<char>> {
    if chunk.len() == 0 {
        chunks
    } else {
        chunks.push(chunk)
    }
}

/// The chunks of `text`: its longest runs of characters that are not white
/// space, in their order. None of them is empty.
pub open spec fn words(text: Seq<char>) -> Seq<Seq<char>> {
    with_chunk(scan(text).0, scan(text).1)
}

/// The terms that `chunks` stand for: each is normalized, and those that
/// leave nothing are dropped.
pub open spec fn terms_of(chunks: Seq<Seq<char>>) -> Seq<Seq<char>>
    decreases chunks.len(),
{
    if chunks.len() == 0 {
        Seq::empty()
    } else {
        with_chunk(terms_of(chunks.drop_last()), normalize(chunks.last()))
    }
}

/// The terms of `text`, in the order in which they occur.
pub open spec fn tokens(text: Seq<char>) -> Seq<Seq<char>> {
    terms_of(words(text))
}

/// `words` with one space between each two of them.
pub open spec fn joined(words: Seq<Seq<char>>) -> Seq<char>
    decreases words.len(),
{
    if words.len() == 0 {
        Seq::empty()
    } else if words.len() == 1 {
        words[0]
    } else {
        joined(words.drop_last()).push(' ') + words.last()
    }
}

/// A text has no more terms than characters.
pub proof fn lemma_tokens_len(text: Seq<char>)
    ensures
        tokens(text).len() <= words(text).len() <= text.len(),
{
    lemma_scan_len(text);
    lemma_terms_of_len(words(text));
}

/// There are no more terms than chunks.
proof fn lemma_terms_of_len(chunks: Seq<Seq<char>>)
    ensures
        terms_of(chunks).len() <= chunks.len(),
    decreases chunks.len(),
{
    if chunks.len() > 0 {
        lemma_terms_of_len(chunks.drop_last());
    }
}

/// The closed chunks and the open one together hold no more characters than
/// were read.
proof fn lemma_scan_len(text: Seq<char>)
    ensures
        scan(text).0.len() + scan(text).1.len() <= text.len(),
    decreases text.len(),
{
    if text.len() > 0 {
        lemma_scan_len(text.drop_last());
    }
}

/// The character sequences that a sequence of strings stands for.
pub open spec fn views(strings: Seq<String>) -> Seq<Seq<char>> {
    Seq::new(strings.len(), |i: int| strings[i]@)
}

/// Closes the open chunk: its term joins `out` unless it is empty.
fn close_chunk(
    out: &mut Vec<String>,
    kept: &String,
    Ghost(chunks): Ghost<Seq<Seq<char>>>,
    Ghost(chunk): Ghost<Seq<char>>,
)
    requires
        chunk.len() > 0,
        kept@ == alphanumerics(chunk),
        views(old(out)@) == terms_of(chunks),
    ensures
        views(final(out)@) == terms_of(with_chunk(chunks, chunk)),
{
    let term = kept.as_str().to_lowercase();
    assert(chunks.push(chunk).drop_last() =~= chunks);
    if !term.as_str().is_empty() {
        out.push(term);
        assert(views(out@) =~= views(old(out)@).push(term@));
    }
}

/// Splits `text` into its terms.
pub fn tokenize(text: &str) -> (out: Vec<String>)
    ensures
        views(out@) == tokens(text@),
{
    let mut out: Vec<String> = Vec::new();
    let mut kept = String::new();
    let mut open = false;
    let ghost mut chunks: Seq<Seq<char>> = Seq::empty();
    let ghost mut chunk: Seq<char> = Seq::empty();
    assert(views(out@) =~= Seq::empty());
    for c in it: text.chars()
        invariant
            it.seq() == text@,
            scan(text@.take(it.index() as int)) == (chunks, chunk),
            views(out@) == terms_of(chunks),
            kept@ == alphanumerics(chunk),
            open == (chunk.len() > 0),
    {
        proof {
            let n = it.index() as int;
            assert(text@.take(n + 1).drop_last() =~= text@.take(n));
            assert(text@.take(n + 1).last() == c);
        }
        if c.is_whitespace() {
            if open {
                close_chunk(&mut out, &kept, Ghost(chunks), Ghost(chunk));
            }
            kept = String::new();
            open = false;
            proof {
                chunks = with_chunk(chunks, chunk);
                chunk = Seq::empty();
            }
        } else {
            if c.is_alphanumeric() {
                kept.push(c);
            }
            open = true;
            proof {
                assert(chunk.push(c).drop_last() =~= chunk);
                chunk = chunk.push(c);
            }
        }
    }
    assert(text@.take(text@.len() as int) =~= text@);
    if open {
        close_chunk(&mut out, &kept, Ghost(chunks), Ghost(chunk));
    }
    out
}

/// Splits `text` at white space into its chunks.
pub fn split_words(text: &str) -> (out: Vec<String>)
    ensures
        views(out@) == words(text@),
{
    let mut out: Vec<String> = Vec::new();
    let mut run = String::new();
    assert(views(out@) =~= Seq::empty());
    for c in it: text.chars()
        invariant
            it.seq() == text@,
            scan(text@.take(it.index() as int)) == (views(out@), run@),
    {
        proof {
            let n = it.index() as int;
            assert(text@.take(n + 1).drop_last() =~= text@.take(n));
            assert(text@.take(n + 1).last() == c);
        }
        if c.is_whitespace() {
            if !run.as_str().is_empty() {
                let ghost before = out@;
                out.push(run);
                assert(views(out@) =~= views(before).push(run@));
            }
            run = String::new();
        } else {
            run.push(c);
        }
    }
    assert(text@.take(text@.len() as int) =~= text@);
    if !run.as_str().is_empty() {
        let ghost before = out@;
        out.push(run);
        assert(views(out@) =~= views(before).push(run@));
    }
    out
}

/// The words of `words` from place `from` up to, not including, place `to`,
/// with one space between each two of them.
pub fn join_words(words: &Vec<String>, from: usize, to: usize) -> (out: String)
    requires
        from <= to <= words@.len(),
    ensures
        out@ == joined(views(words@).subrange(from as int, to as int)),
{
    let mut out = String::new();
    let mut i: usize = from;
    let ghost all = views(words@);
    while i < to
        invariant
            from <= i <= to <= words@.len(),
            all == views(words@),
            out@ == joined(all.subrange(from as int, i as int)),
        decreases to - i,
    {
        proof {
            assert(all.subrange(from as int, i + 1).drop_last() =~= all.subrange(
                from as int,
                i as int,
            ));
            assert(all.subrange(from as int, i + 1).last() == words@[i as int]@);
        }
        if i > from {
            out.push(' ');
        } else {
            assert(Seq::<char>::empty() + words@[i as int]@ =~= words@[i as int]@);
        }
        out.append(words[i].as_str());
        i += 1;
    }
    out
}

/// The first `count` chunks of `text`, or all of them where there are
/// fewer, with one space between each two of them.
pub fn leading_words(text: &str, count: usize) -> (out: String)
    ensures
        out@ == joined(
            words(text@).take(
                if count <= words(text@).len() {
                    count as int
                } else {
                    words(text@).len() as int
                },
            ),
        ),
{
    let all = split_words(text);
    let upto = if count <= all.len() {
        count
    } else {
        all.len()
    };
    assert(views(all@).subrange(0, upto as int) =~= views(all@).take(upto as int));
    join_words(&all, 0, upto)
}

} // verus!
