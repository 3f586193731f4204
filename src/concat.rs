//! Deciding what each file contributes to the combined stream, and building it.
use vstd::prelude::*;
use crate::text::{
    all_ws, find_line_end, is_blank, is_sep_line, is_separator, line_end, lines, lines_from,
    proof_line_end_bounds,
};

verus! {

/// How a file begins, as far as the combined stream is concerned.
#[derive(PartialEq, Eq, Structural, Clone, Copy, Debug)]
pub enum FileStart {
    /// No line but blank ones and separators: the file carries no document.
    Empty,
    /// The file carries a document and its first non-blank line is `---`.
    Separator,
    /// The file carries a document and its first non-blank line is content.
    Content,
}

/// How lines `ls` begin, given whether a separator has already been seen
/// among the non-blank lines before them.
pub open spec fn start_of_lines(ls: Seq<Seq<char>>, seen_sep: bool) -> FileStart
    decreases ls.len(),
{
    if ls.len() == 0 {
        FileStart::Empty
    } else if all_ws(ls[0]) {
        start_of_lines(ls.drop_first(), seen_sep)
    } else if is_sep_line(ls[0]) {
        start_of_lines(ls.drop_first(), true)
    } else if seen_sep {
        FileStart::Separator
    } else {
        FileStart::Content
    }
}

/// How the file with content `s` begins.
pub open spec fn start_of(s: Seq<char>) -> FileStart {
    start_of_lines(lines(s), false)
}

/// The separator line that is put before a file that lacks one.
pub open spec fn sep_line() -> Seq<char> {
    seq!['-', '-', '-', '\n']
}

/// What the file with content `s` contributes to the combined stream.
pub open spec fn rendered(s: Seq<char>) -> Seq<char> {
    match start_of(s) {
        FileStart::Empty => seq![],
        FileStart::Separator => s,
        FileStart::Content => sep_line() + s,
    }
}

/// The combined stream of the files with contents `fs`, in order.
pub open spec fn concatenation(fs: Seq<Seq<char>>) -> Seq<char>
    decreases fs.len(),
{
    if fs.len() == 0 {
        seq![]
    } else {
        concatenation(fs.drop_last()) + rendered(fs.last())
    }
}

/// The contents of a list of files, as character sequences.
pub open spec fn contents(files: Seq<Vec<char>>) -> Seq<Seq<char>> {
    files.map_values(|f: Vec<char>| f@)
}

/// One step of the line list: the line at `i`, then the lines after it.
pub proof fn lemma_lines_from_step(s: Seq<char>, i: int)
    requires
        0 <= i < s.len(),
    ensures
        lines_from(s, i) == seq![s.subrange(i, line_end(s, i))] + lines_from(s, line_end(s, i)),
        lines_from(s, i).drop_first() == lines_from(s, line_end(s, i)),
        lines_from(s, i)[0] == s.subrange(i, line_end(s, i)),
        lines_from(s, i).len() > 0,
{
    proof_line_end_bounds(s, i);
    assert(lines_from(s, i).drop_first() =~= lines_from(s, line_end(s, i)));
}

/// Classifies the file with content `s`.
pub fn classify(s: &[char]) -> (r: FileStart)
    ensures
        r == start_of(s@),
{
    let mut i: usize = 0;
    let mut seen_sep = false;
    while i < s.len()
        invariant
            i <= s@.len(),
            start_of_lines(lines_from(s@, i as int), seen_sep) == start_of(s@),
        decreases s@.len() - i,
    {
        let e = find_line_end(s, i);
        proof {
            lemma_lines_from_step(s@, i as int);
        }
        if is_blank(s, i, e) {
        } else if is_separator(s, i, e) {
            seen_sep = true;
        } else if seen_sep {
            return FileStart::Separator;
        } else {
            return FileStart::Content;
        }
        i = e;
    }
    assert(lines_from(s@, i as int).len() == 0);
    FileStart::Empty
}

/// Appends the characters of `s` to `out`.
fn append(out: &mut Vec<char>, s: &[char])
    ensures
        final(out)@ == old(out)@ + s@,
{
    let mut k: usize = 0;
    while k < s.len()
        invariant
            k <= s@.len(),
            out@ == old(out)@ + s@.subrange(0, k as int),
        decreases s@.len() - k,
    {
        out.push(s[k]);
        k = k + 1;
        assert(out@ =~= old(out)@ + s@.subrange(0, k as int));
    }
    assert(s@.subrange(0, k as int) =~= s@);
}

/// Appends to `out` what the file with content `s` contributes to the
/// combined stream: nothing for a file without a document, the file as it is
/// when it already starts with a separator, and otherwise a `---` line
/// followed by the file.
pub fn render_into(out: &mut Vec<char>, s: &[char])
    ensures
        final(out)@ == old(out)@ + rendered(s@),
{
    match classify(s) {
        FileStart::Empty => {
            assert(old(out)@ + rendered(s@) =~= old(out)@);
        },
        FileStart::Separator => {
            append(out, s);
        },
        FileStart::Content => {
            out.push('-');
            out.push('-');
            out.push('-');
            out.push('\n');
            append(out, s);
            assert(final(out)@ =~= old(out)@ + rendered(s@));
        },
    }
}

/// What the file with content `s` contributes to the combined stream.
pub fn render_file(s: &[char]) -> (r: Vec<char>)
    ensures
        r@ == rendered(s@),
{
    let mut out: Vec<char> = Vec::new();
    render_into(&mut out, s);
    assert(out@ =~= rendered(s@));
    out
}

/// The combined stream of `files`, in order: each file that carries a
/// document, preceded by a `---` line unless it already starts with one.
pub fn concatenate(files: &Vec<Vec<char>>) -> (r: Vec<char>)
    ensures
        r@ == concatenation(contents(files@)),
{
    let mut out: Vec<char> = Vec::new();
    let mut k: usize = 0;
    while k < files.len()
        invariant
            k <= files@.len(),
            out@ == concatenation(contents(files@).subrange(0, k as int)),
        decreases files@.len() - k,
    {
        render_into(&mut out, files[k].as_slice());
        proof {
            let fs = contents(files@);
            assert(fs.subrange(0, k + 1).drop_last() =~= fs.subrange(0, k as int));
        }
        k = k + 1;
    }
    assert(contents(files@).subrange(0, k as int) =~= contents(files@));
    out
}

} // verus!
