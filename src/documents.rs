//! The documents of a stream, and what the combined stream keeps of them.
//!
//! A stream's lines are grouped at separator lines; a group whose lines are
//! all blank is no document. A document's text is its lines, with trailing
//! blank lines left out: such lines carry nothing, and in a combined stream
//! the blank lines that lead a file up to its own `---` end up at the tail
//! of the previous file's last document.
use vstd::prelude::*;
use crate::text::{
    all_ws, is_sep_line, is_ws, line_end, lines, lines_from,
};
use crate::concat::{
    concatenation, lemma_lines_from_step, rendered, sep_line, start_of, start_of_lines, FileStart,
};

verus! {

/// The lines of `ls` cut into groups at separator lines. The first group
/// holds the lines before the first separator; there is always one group
/// more than there are separators.
pub open spec fn groups(ls: Seq<Seq<char>>) -> Seq<Seq<Seq<char>>>
    decreases ls.len(),
{
    if ls.len() == 0 {
        seq![seq![]]
    } else {
        let g = groups(ls.drop_last());
        if is_sep_line(ls.last()) {
            g.push(seq![])
        } else {
            g.update(g.len() - 1, g.last().push(ls.last()))
        }
    }
}

/// A group of lines all of which are blank: a null document.
pub open spec fn blank_group(g: Seq<Seq<char>>) -> bool {
    forall|k: int| 0 <= k < g.len() ==> all_ws(#[trigger] g[k])
}

/// The lines of `g` without its trailing blank lines.
pub open spec fn strip_blank_tail(g: Seq<Seq<char>>) -> Seq<Seq<char>>
    decreases g.len(),
{
    if g.len() > 0 && all_ws(g.last()) {
        strip_blank_tail(g.drop_last())
    } else {
        g
    }
}

/// The documents that the groups `gs` hold, in order: each group that is not
/// blank, as its text without trailing blank lines.
pub open spec fn docs_of(gs: Seq<Seq<Seq<char>>>) -> Seq<Seq<char>>
    decreases gs.len(),
{
    if gs.len() == 0 {
        seq![]
    } else if blank_group(gs.last()) {
        docs_of(gs.drop_last())
    } else {
        docs_of(gs.drop_last()).push(strip_blank_tail(gs.last()).flatten())
    }
}

/// The non-null documents of the stream `s`, in order.
pub open spec fn documents(s: Seq<char>) -> Seq<Seq<char>> {
    docs_of(groups(lines(s)))
}

/// The non-null documents of the files `fs`: by file, then within each file.
pub open spec fn all_documents(fs: Seq<Seq<char>>) -> Seq<Seq<char>>
    decreases fs.len(),
{
    if fs.len() == 0 {
        seq![]
    } else {
        all_documents(fs.drop_last()) + documents(fs.last())
    }
}

/// The stream `s` has a line that is neither blank nor a separator.
pub open spec fn has_document(s: Seq<char>) -> bool {
    exists|k: int| 0 <= k < lines(s).len() && !all_ws(#[trigger] lines(s)[k]) && !is_sep_line(lines(s)[k])
}

/// The stream `s` ends with a line terminator.
pub open spec fn ends_in_newline(s: Seq<char>) -> bool {
    s.len() > 0 && s.last() == '\n'
}

proof fn lemma_groups_nonempty(ls: Seq<Seq<char>>)
    ensures
        groups(ls).len() >= 1,
    decreases ls.len(),
{
    if ls.len() > 0 {
        lemma_groups_nonempty(ls.drop_last());
    }
}

proof fn lemma_docs_of_add(g1: Seq<Seq<Seq<char>>>, g2: Seq<Seq<Seq<char>>>)
    ensures
        docs_of(g1 + g2) == docs_of(g1) + docs_of(g2),
    decreases g2.len(),
{
    if g2.len() == 0 {
        assert(g1 + g2 =~= g1);
        assert(docs_of(g1) + docs_of(g2) =~= docs_of(g1));
    } else {
        assert((g1 + g2).drop_last() =~= g1 + g2.drop_last());
        lemma_docs_of_add(g1, g2.drop_last());
        if blank_group(g2.last()) {
        } else {
            assert(docs_of(g1 + g2) =~= docs_of(g1) + docs_of(g2));
        }
    }
}

proof fn lemma_blank_not_sep(l: Seq<char>)
    requires
        all_ws(l),
    ensures
        !is_sep_line(l),
{
    if is_sep_line(l) {
        let a = choose|a: int|
            #![trigger l.subrange(0, a)]
            0 <= a && a + 3 <= l.len() && all_ws(l.subrange(0, a)) && l[a] == '-' && l[a + 1]
                == '-' && l[a + 2] == '-' && all_ws(l.subrange(a + 3, l.len() as int));
        assert(is_ws(l[a]));
    }
}

/// Cutting at a separator line: the groups before it, then those after it.
proof fn lemma_groups_split(x: Seq<Seq<char>>, l: Seq<char>, z: Seq<Seq<char>>)
    requires
        is_sep_line(l),
    ensures
        groups(x + seq![l] + z) == groups(x) + groups(z),
    decreases z.len(),
{
    let xl = x + seq![l];
    if z.len() == 0 {
        assert(xl + z =~= xl);
        assert(xl.drop_last() =~= x);
        assert(groups(x) + groups(z) =~= groups(x).push(seq![]));
    } else {
        assert((xl + z).drop_last() =~= xl + z.drop_last());
        lemma_groups_split(x, l, z.drop_last());
        lemma_groups_nonempty(z.drop_last());
        let gx = groups(x);
        let gz = groups(z.drop_last());
        if is_sep_line(z.last()) {
            assert(groups(xl + z) =~= gx + gz.push(seq![]));
        } else {
            assert(groups(xl + z) =~= gx + gz.update(gz.len() - 1, gz.last().push(z.last())));
        }
    }
}

/// Blank lines appended to a stream join its last group.
proof fn lemma_groups_blank_tail(x: Seq<Seq<char>>, b: Seq<Seq<char>>)
    requires
        forall|k: int| 0 <= k < b.len() ==> all_ws(#[trigger] b[k]),
    ensures
        groups(x).len() >= 1,
        groups(x + b) == groups(x).update(groups(x).len() - 1, groups(x).last() + b),
    decreases b.len(),
{
    lemma_groups_nonempty(x);
    let gx = groups(x);
    if b.len() == 0 {
        assert(x + b =~= x);
        assert(gx.last() + b =~= gx.last());
        assert(gx.update(gx.len() - 1, gx.last() + b) =~= gx);
    } else {
        assert((x + b).drop_last() =~= x + b.drop_last());
        lemma_groups_blank_tail(x, b.drop_last());
        lemma_blank_not_sep(b.last());
        assert(gx.last() + b.drop_last() + seq![b.last()] =~= gx.last() + b);
        assert((x + b).last() == b.last());
        let g1 = groups(x + b.drop_last());
        assert(g1.last() == gx.last() + b.drop_last());
        assert(g1.last().push(b.last()) =~= gx.last() + b);
        assert(groups(x + b) =~= gx.update(gx.len() - 1, gx.last() + b));
    }
}

proof fn lemma_strip_blank_tail(g: Seq<Seq<char>>, b: Seq<Seq<char>>)
    requires
        forall|k: int| 0 <= k < b.len() ==> all_ws(#[trigger] b[k]),
    ensures
        strip_blank_tail(g + b) == strip_blank_tail(g),
        blank_group(g + b) == blank_group(g),
    decreases b.len(),
{
    if b.len() == 0 {
        assert(g + b =~= g);
    } else {
        assert((g + b).drop_last() =~= g + b.drop_last());
        lemma_strip_blank_tail(g, b.drop_last());
        let gb = g + b;
        if blank_group(g) {
            assert forall|k: int| 0 <= k < gb.len() implies all_ws(#[trigger] gb[k]) by {
                if k < g.len() {
                    assert(all_ws(g[k]));
                } else {
                    assert(all_ws(b[k - g.len()]));
                }
            }
        } else {
            let k = choose|k: int| 0 <= k < g.len() && !all_ws(#[trigger] g[k]);
            assert(gb[k] == g[k]);
        }
    }
}

/// Blank lines appended to a stream change none of its documents.
proof fn lemma_docs_blank_tail(x: Seq<Seq<char>>, b: Seq<Seq<char>>)
    requires
        forall|k: int| 0 <= k < b.len() ==> all_ws(#[trigger] b[k]),
    ensures
        docs_of(groups(x + b)) == docs_of(groups(x)),
{
    lemma_groups_blank_tail(x, b);
    let gx = groups(x);
    let gb = groups(x + b);
    lemma_strip_blank_tail(gx.last(), b);
    assert(gb.drop_last() =~= gx.drop_last());
}

/// Groups of lines that are all blank or separators are all blank.
proof fn lemma_groups_all_blank(ls: Seq<Seq<char>>)
    requires
        forall|k: int| 0 <= k < ls.len() ==> all_ws(#[trigger] ls[k]) || is_sep_line(ls[k]),
    ensures
        forall|k: int| 0 <= k < groups(ls).len() ==> blank_group(#[trigger] groups(ls)[k]),
    decreases ls.len(),
{
    if ls.len() > 0 {
        let init = ls.drop_last();
        assert forall|k: int| 0 <= k < init.len() implies all_ws(#[trigger] init[k])
            || is_sep_line(init[k]) by {
            assert(init[k] == ls[k]);
        }
        lemma_groups_all_blank(init);
        lemma_groups_nonempty(init);
        let g = groups(init);
        if !is_sep_line(ls.last()) {
            assert(all_ws(ls[ls.len() - 1]));
            let nl = g.last().push(ls.last());
            assert(blank_group(g[g.len() - 1]));
            assert forall|k: int| 0 <= k < nl.len() implies all_ws(#[trigger] nl[k]) by {
                if k < g.last().len() {
                    assert(all_ws(g.last()[k]));
                }
            }
        } else {
            assert(blank_group(Seq::<Seq<char>>::empty()));
        }
    }
}

proof fn lemma_docs_of_all_blank(gs: Seq<Seq<Seq<char>>>)
    requires
        forall|k: int| 0 <= k < gs.len() ==> blank_group(#[trigger] gs[k]),
    ensures
        docs_of(gs) == Seq::<Seq<char>>::empty(),
    decreases gs.len(),
{
    if gs.len() > 0 {
        assert(blank_group(gs[gs.len() - 1]));
        let init = gs.drop_last();
        assert forall|k: int| 0 <= k < init.len() implies blank_group(#[trigger] init[k]) by {
            assert(init[k] == gs[k]);
        }
        lemma_docs_of_all_blank(init);
    }
}

proof fn lemma_line_end_prefix(a: Seq<char>, b: Seq<char>, i: int)
    requires
        ends_in_newline(a),
        0 <= i < a.len(),
    ensures
        line_end(a + b, i) == line_end(a, i),
    decreases a.len() - i,
{
    if a[i] != '\n' {
        lemma_line_end_prefix(a, b, i + 1);
    }
}

proof fn lemma_line_end_shift(p: Seq<char>, b: Seq<char>, j: int)
    requires
        0 <= j <= b.len(),
    ensures
        line_end(p + b, p.len() + j) == p.len() + line_end(b, j),
    decreases b.len() - j,
{
    if j < b.len() && b[j] != '\n' {
        lemma_line_end_shift(p, b, j + 1);
    }
}

proof fn lemma_lines_from_shift(p: Seq<char>, b: Seq<char>, j: int)
    requires
        0 <= j <= b.len(),
    ensures
        lines_from(p + b, p.len() + j) == lines_from(b, j),
    decreases b.len() - j,
{
    if j < b.len() {
        let e = line_end(b, j);
        lemma_line_end_shift(p, b, j);
        lemma_lines_from_step(b, j);
        lemma_lines_from_step(p + b, p.len() + j);
        lemma_lines_from_shift(p, b, e);
        assert((p + b).subrange(p.len() + j, p.len() + e) =~= b.subrange(j, e));
    }
}

proof fn lemma_lines_from_append(a: Seq<char>, b: Seq<char>, i: int)
    requires
        ends_in_newline(a),
        0 <= i <= a.len(),
    ensures
        lines_from(a + b, i) == lines_from(a, i) + lines(b),
    decreases a.len() - i,
{
    if i == a.len() {
        lemma_lines_from_shift(a, b, 0);
        assert(lines_from(a, i) + lines(b) =~= lines(b));
    } else {
        let e = line_end(a, i);
        lemma_line_end_prefix(a, b, i);
        lemma_lines_from_step(a, i);
        lemma_lines_from_step(a + b, i);
        lemma_lines_from_append(a, b, e);
        assert((a + b).subrange(i, e) =~= a.subrange(i, e));
        assert(lines_from(a + b, i) =~= lines_from(a, i) + lines(b));
    }
}

/// The lines of a stream that ends with a terminator, followed by another
/// stream, are the lines of the first followed by those of the second.
pub proof fn lemma_lines_append(a: Seq<char>, b: Seq<char>)
    requires
        a.len() == 0 || ends_in_newline(a),
    ensures
        lines(a + b) == lines(a) + lines(b),
{
    if a.len() == 0 {
        assert(a + b =~= b);
        assert(lines(a) + lines(b) =~= lines(b));
    } else {
        lemma_lines_from_append(a, b, 0);
    }
}

proof fn lemma_lines_sep_line()
    ensures
        lines(sep_line()) == seq![sep_line()],
{
    let s = sep_line();
    assert(s[3] == '\n' && s[2] == '-' && s[1] == '-' && s[0] == '-');
    assert(line_end(s, 3) == 4);
    assert(line_end(s, 2) == 4);
    assert(line_end(s, 1) == 4);
    assert(line_end(s, 0) == 4);
    lemma_lines_from_step(s, 0);
    assert(s.subrange(0, 4) =~= s);
}

proof fn lemma_sep_line_is_sep()
    ensures
        is_sep_line(sep_line()),
{
    let l = sep_line();
    assert(all_ws(l.subrange(0, 0)));
    assert(is_ws(l.subrange(3, 4)[0]));
    assert(all_ws(l.subrange(3, l.len() as int)));
}

/// Lines that begin with no document are all blank or separators, and
/// conversely.
proof fn lemma_start_empty(ls: Seq<Seq<char>>, seen: bool)
    ensures
        start_of_lines(ls, seen) == FileStart::Empty <==> forall|k: int|
            0 <= k < ls.len() ==> all_ws(#[trigger] ls[k]) || is_sep_line(ls[k]),
    decreases ls.len(),
{
    if ls.len() > 0 {
        let next = if all_ws(ls[0]) { seen } else { true };
        lemma_start_empty(ls.drop_first(), next);
        lemma_start_empty(ls.drop_first(), seen);
        if forall|k: int| 0 <= k < ls.len() ==> all_ws(#[trigger] ls[k]) || is_sep_line(ls[k]) {
            assert forall|k: int| 0 <= k < ls.drop_first().len() implies all_ws(
                #[trigger] ls.drop_first()[k],
            ) || is_sep_line(ls.drop_first()[k]) by {
                assert(ls.drop_first()[k] == ls[k + 1]);
            }
        }
        if start_of_lines(ls, seen) == FileStart::Empty {
            assert forall|k: int| 0 <= k < ls.len() implies all_ws(#[trigger] ls[k])
                || is_sep_line(ls[k]) by {
                if k > 0 {
                    assert(ls[k] == ls.drop_first()[k - 1]);
                }
            }
        }
    }
}

/// Where lines begin with a separator, the first non-blank line is one.
proof fn lemma_start_separator(ls: Seq<Seq<char>>) -> (n: int)
    requires
        start_of_lines(ls, false) == FileStart::Separator,
    ensures
        0 <= n < ls.len(),
        is_sep_line(ls[n]),
        forall|k: int| 0 <= k < n ==> all_ws(#[trigger] ls[k]),
    decreases ls.len(),
{
    if all_ws(ls[0]) {
        let m = lemma_start_separator(ls.drop_first());
        assert forall|k: int| 0 <= k < m + 1 implies all_ws(#[trigger] ls[k]) by {
            if k > 0 {
                assert(ls[k] == ls.drop_first()[k - 1]);
            }
        }
        assert(ls[m + 1] == ls.drop_first()[m]);
        m + 1
    } else {
        0
    }
}

/// A file without a document has no documents.
proof fn lemma_no_document_no_docs(s: Seq<char>)
    requires
        start_of(s) == FileStart::Empty,
    ensures
        documents(s) == Seq::<Seq<char>>::empty(),
{
    lemma_start_empty(lines(s), false);
    lemma_groups_all_blank(lines(s));
    lemma_docs_of_all_blank(groups(lines(s)));
}

/// Appending what the file `f` contributes to a stream `x` that ends with a
/// terminator appends the documents of `f` to those of `x`.
proof fn lemma_documents_append_rendered(x: Seq<char>, f: Seq<char>)
    requires
        x.len() == 0 || ends_in_newline(x),
    ensures
        documents(x + rendered(f)) == documents(x) + documents(f),
{
    let lx = lines(x);
    match start_of(f) {
        FileStart::Empty => {
            lemma_no_document_no_docs(f);
            assert(x + rendered(f) =~= x);
            assert(documents(x) + documents(f) =~= documents(x));
        },
        FileStart::Content => {
            lemma_lines_append(x, sep_line() + f);
            lemma_lines_append(sep_line(), f);
            lemma_lines_sep_line();
            lemma_sep_line_is_sep();
            assert(x + rendered(f) =~= x + (sep_line() + f));
            assert(lines(x + rendered(f)) =~= lx + seq![sep_line()] + lines(f));
            lemma_groups_split(lx, sep_line(), lines(f));
            lemma_docs_of_add(groups(lx), groups(lines(f)));
        },
        FileStart::Separator => {
            lemma_lines_append(x, f);
            let lf = lines(f);
            let n = lemma_start_separator(lf);
            let bl = lf.subrange(0, n);
            let z = lf.subrange(n + 1, lf.len() as int);
            assert(lf =~= bl + seq![lf[n]] + z);
            assert forall|k: int| 0 <= k < bl.len() implies all_ws(#[trigger] bl[k]) by {
                assert(bl[k] == lf[k]);
            }
            assert(lx + lf =~= (lx + bl) + seq![lf[n]] + z);
            lemma_groups_split(lx + bl, lf[n], z);
            lemma_docs_of_add(groups(lx + bl), groups(z));
            lemma_docs_blank_tail(lx, bl);
            assert(lf =~= Seq::<Seq<char>>::empty() + bl + seq![lf[n]] + z);
            lemma_groups_split(Seq::<Seq<char>>::empty() + bl, lf[n], z);
            lemma_docs_of_add(groups(Seq::<Seq<char>>::empty() + bl), groups(z));
            lemma_docs_blank_tail(Seq::<Seq<char>>::empty(), bl);
            let g0 = groups(Seq::<Seq<char>>::empty());
            assert(blank_group(g0.last()));
            assert(g0.drop_last() =~= Seq::<Seq<Seq<char>>>::empty());
            assert(docs_of(Seq::<Seq<Seq<char>>>::empty()) =~= Seq::<Seq<char>>::empty());
            assert(docs_of(g0) =~= Seq::<Seq<char>>::empty());
            assert(documents(f) =~= docs_of(groups(z)));
        },
    }
}

/// A file carries a document exactly when it does not classify as empty.
pub proof fn lemma_has_document_iff_not_empty(s: Seq<char>)
    ensures
        has_document(s) <==> start_of(s) != FileStart::Empty,
{
    lemma_start_empty(lines(s), false);
}

proof fn lemma_document_file_nonempty(s: Seq<char>)
    requires
        has_document(s),
    ensures
        s.len() > 0,
        rendered(s).len() > 0,
        rendered(s).last() == s.last(),
{
    lemma_has_document_iff_not_empty(s);
    if s.len() == 0 {
        assert(lines(s).len() == 0);
    }
}

proof fn lemma_concatenation_tail(fs: Seq<Seq<char>>)
    requires
        forall|i: int| 0 <= i < fs.len() && has_document(#[trigger] fs[i]) ==> ends_in_newline(fs[i]),
    ensures
        concatenation(fs).len() == 0 || ends_in_newline(concatenation(fs)),
    decreases fs.len(),
{
    if fs.len() > 0 {
        let init = fs.drop_last();
        assert forall|i: int| 0 <= i < init.len() && has_document(#[trigger] init[i]) implies ends_in_newline(init[i]) by {
            assert(init[i] == fs[i]);
        }
        lemma_concatenation_tail(init);
        let f = fs.last();
        if has_document(f) {
            lemma_document_file_nonempty(f);
            assert(has_document(fs[fs.len() - 1]));
        } else {
            lemma_has_document_iff_not_empty(f);
            assert(concatenation(fs) =~= concatenation(init));
        }
    }
}

/// Splitting the combined stream into documents gives back the non-null
/// documents of every file, file by file and in order within each file.
/// Each file that carries a document and is followed by another that does
/// must end with a line terminator: the `---` line put before the later
/// file would otherwise run on from the earlier file's last line.
pub proof fn lemma_concatenation_documents(fs: Seq<Seq<char>>)
    requires
        forall|i: int, j: int|
            0 <= i < j < fs.len() && #[trigger] has_document(fs[i]) && #[trigger] has_document(fs[j])
                ==> ends_in_newline(fs[i]),
    ensures
        documents(concatenation(fs)) == all_documents(fs),
    decreases fs.len(),
{
    if fs.len() == 0 {
        assert(groups(lines(Seq::<char>::empty())) =~= seq![Seq::<Seq<char>>::empty()]);
        let g0 = groups(lines(Seq::<char>::empty()));
        assert(blank_group(g0.last()));
        assert(g0.drop_last() =~= Seq::<Seq<Seq<char>>>::empty());
        assert(docs_of(Seq::<Seq<Seq<char>>>::empty()) =~= Seq::<Seq<char>>::empty());
    } else {
        let init = fs.drop_last();
        let f = fs.last();
        assert forall|i: int, j: int|
            0 <= i < j < init.len() && #[trigger] has_document(init[i]) && #[trigger] has_document(init[j])
                implies ends_in_newline(init[i]) by {
            assert(init[i] == fs[i] && init[j] == fs[j]);
        }
        lemma_concatenation_documents(init);
        if has_document(f) {
            assert forall|i: int| 0 <= i < init.len() && has_document(#[trigger] init[i]) implies ends_in_newline(init[i]) by {
                assert(init[i] == fs[i]);
                assert(has_document(fs[fs.len() - 1]));
            }
            lemma_concatenation_tail(init);
        } else {
            lemma_has_document_iff_not_empty(f);
            lemma_no_document_no_docs(f);
            assert(concatenation(fs) =~= concatenation(init));
            assert(all_documents(fs) =~= all_documents(init));
        }
        if has_document(f) {
            lemma_documents_append_rendered(concatenation(init), f);
        }
    }
}

/// The same file given twice yields its documents twice over, the second
/// half equal to the first, provided the file ends with a line terminator.
pub proof fn lemma_same_file_twice(f: Seq<char>)
    requires
        has_document(f),
        ends_in_newline(f),
    ensures
        documents(concatenation(seq![f, f])) == documents(concatenation(seq![f]))
            + documents(concatenation(seq![f])),
        documents(concatenation(seq![f])) == documents(f),
{
    let one = seq![f];
    let two = seq![f, f];
    lemma_concatenation_documents(one);
    lemma_concatenation_documents(two);
    assert(one.drop_last() =~= Seq::<Seq<char>>::empty());
    assert(two.drop_last() =~= one);
    assert(all_documents(Seq::<Seq<char>>::empty()) =~= Seq::<Seq<char>>::empty());
    assert(all_documents(one) =~= documents(f));
}

/// A file whose lines are all blank or separators (no content, only blank
/// lines, a lone `---`) contributes nothing: no byte and no document.
pub proof fn lemma_blank_file_contributes_nothing(s: Seq<char>)
    requires
        forall|k: int| 0 <= k < lines(s).len() ==> all_ws(#[trigger] lines(s)[k]) || is_sep_line(
            lines(s)[k],
        ),
    ensures
        rendered(s) == Seq::<char>::empty(),
        documents(s) == Seq::<Seq<char>>::empty(),
{
    lemma_start_empty(lines(s), false);
    lemma_no_document_no_docs(s);
}

proof fn lemma_start_after_separator(ls: Seq<Seq<char>>)
    ensures
        start_of_lines(ls, true) != FileStart::Content,
    decreases ls.len(),
{
    if ls.len() > 0 {
        lemma_start_after_separator(ls.drop_first());
    }
}

proof fn lemma_start_skips_blank(ls: Seq<Seq<char>>, n: int, seen: bool)
    requires
        0 <= n <= ls.len(),
        forall|k: int| 0 <= k < n ==> all_ws(#[trigger] ls[k]),
    ensures
        start_of_lines(ls, seen) == start_of_lines(ls.subrange(n, ls.len() as int), seen),
    decreases n,
{
    if n == 0 {
        assert(ls.subrange(0, ls.len() as int) =~= ls);
    } else {
        let rest = ls.drop_first();
        assert(all_ws(ls[0]));
        assert forall|k: int| 0 <= k < n - 1 implies all_ws(#[trigger] rest[k]) by {
            assert(rest[k] == ls[k + 1]);
        }
        lemma_start_skips_blank(rest, n - 1, seen);
        assert(rest.subrange(n - 1, rest.len() as int) =~= ls.subrange(n, ls.len() as int));
    }
}

/// A file that carries a document and whose first non-blank line is already
/// a separator is copied as it is: no second separator is put before it.
pub proof fn lemma_leading_separator_kept(s: Seq<char>, n: int)
    requires
        has_document(s),
        0 <= n < lines(s).len(),
        is_sep_line(lines(s)[n]),
        forall|k: int| 0 <= k < n ==> all_ws(#[trigger] lines(s)[k]),
    ensures
        rendered(s) == s,
{
    let ls = lines(s);
    lemma_has_document_iff_not_empty(s);
    lemma_start_skips_blank(ls, n, false);
    let rest = ls.subrange(n, ls.len() as int);
    assert(rest[0] == ls[n]);
    assert(!all_ws(rest[0])) by {
        if all_ws(rest[0]) {
            lemma_blank_not_sep(rest[0]);
        }
    }
    lemma_start_after_separator(rest.drop_first());
}

} // verus!
