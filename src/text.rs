//! Characters, lines, blank lines and separator lines.
use vstd::prelude::*;

verus! {

/// Unicode `White_Space`, the set that `str::trim` strips.
pub open spec fn is_ws(c: char) -> bool {
    let u = c as u32;
    (0x09 <= u && u <= 0x0d) || u == 0x20 || u == 0x85 || u == 0xa0 || u == 0x1680
        || (0x2000 <= u && u <= 0x200a) || u == 0x2028 || u == 0x2029 || u == 0x202f
        || u == 0x205f || u == 0x3000
}

/// Every character of `s` is whitespace (line terminators included).
pub open spec fn all_ws(s: Seq<char>) -> bool {
    forall|k: int| 0 <= k < s.len() ==> is_ws(#[trigger] s[k])
}

/// A separator line: once surrounding whitespace (and the line terminator) is
/// trimmed away, exactly `---` is left.
pub open spec fn is_sep_line(l: Seq<char>) -> bool {
    exists|a: int|
        #![trigger l.subrange(0, a)]
        0 <= a && a + 3 <= l.len() && all_ws(l.subrange(0, a)) && l[a] == '-' && l[a + 1] == '-'
            && l[a + 2] == '-' && all_ws(l.subrange(a + 3, l.len() as int))
}

/// The position just past the line that covers position `i`: past its `\n`,
/// or the end of `s` for a last line without terminator.
pub open spec fn line_end(s: Seq<char>, i: int) -> int
    decreases s.len() - i,
{
    if i >= s.len() {
        s.len() as int
    } else if s[i] == '\n' {
        i + 1
    } else {
        line_end(s, i + 1)
    }
}

/// The lines of `s` from position `i` on, each with its terminator.
pub open spec fn lines_from(s: Seq<char>, i: int) -> Seq<Seq<char>>
    decreases s.len() - i,
{
    let e = line_end(s, i);
    if i < 0 || i >= s.len() || e <= i || e > s.len() {
        seq![]
    } else {
        seq![s.subrange(i, e)] + lines_from(s, e)
    }
}

/// The lines of `s`, each with its terminator; they concatenate back to `s`.
pub open spec fn lines(s: Seq<char>) -> Seq<Seq<char>> {
    lines_from(s, 0)
}

pub proof fn proof_line_end_bounds(s: Seq<char>, i: int)
    requires
        0 <= i < s.len(),
    ensures
        i < line_end(s, i) <= s.len(),
    decreases s.len() - i,
{
    if s[i] != '\n' {
        if i + 1 < s.len() {
            proof_line_end_bounds(s, i + 1);
        } else {
            assert(line_end(s, i + 1) == s.len());
        }
    }
}

/// Whether `c` is whitespace in the sense of Unicode `White_Space`.
pub fn is_whitespace(c: char) -> (r: bool)
    ensures
        r == is_ws(c),
{
    let u = c as u32;
    (0x09 <= u && u <= 0x0d) || u == 0x20 || u == 0x85 || u == 0xa0 || u == 0x1680
        || (0x2000 <= u && u <= 0x200a) || u == 0x2028 || u == 0x2029 || u == 0x202f
        || u == 0x205f || u == 0x3000
}

/// The end of the line of `s` that starts at `i`.
pub fn find_line_end(s: &[char], i: usize) -> (e: usize)
    requires
        i < s@.len(),
    ensures
        e == line_end(s@, i as int),
        i < e <= s@.len(),
{
    let mut j: usize = i;
    while j < s.len()
        invariant
            i <= j <= s@.len(),
            line_end(s@, j as int) == line_end(s@, i as int),
            forall|k: int| i <= k < j ==> s@[k] != '\n',
        decreases s@.len() - j,
    {
        if s[j] == '\n' {
            return j + 1;
        }
        j = j + 1;
    }
    proof {
        if i == j {
            assert(false);
        }
    }
    j
}

/// Whether the characters of `s` in `[lo, hi)` are all whitespace.
pub fn is_blank(s: &[char], lo: usize, hi: usize) -> (r: bool)
    requires
        lo <= hi <= s@.len(),
    ensures
        r == all_ws(s@.subrange(lo as int, hi as int)),
{
    let mut k: usize = lo;
    while k < hi
        invariant
            lo <= k <= hi <= s@.len(),
            forall|m: int| lo <= m < k ==> is_ws(s@[m]),
        decreases hi - k,
    {
        if !is_whitespace(s[k]) {
            assert(!is_ws(s@.subrange(lo as int, hi as int)[k - lo]));
            return false;
        }
        k = k + 1;
    }
    assert forall|m: int| 0 <= m < hi - lo implies is_ws(#[trigger] s@.subrange(lo as int, hi as int)[m]) by {
        assert(is_ws(s@[lo + m]));
    }
    true
}

/// Any position that witnesses a separator line is its first non-blank one.
proof fn lemma_sep_witness_unique(l: Seq<char>, a: int, b: int)
    requires
        0 <= a && a + 3 <= l.len() && all_ws(l.subrange(0, a)) && l[a] == '-',
        0 <= b <= l.len(),
        forall|m: int| 0 <= m < b ==> is_ws(l[m]),
        b < l.len() ==> !is_ws(l[b]),
    ensures
        a == b,
{
    if a < b {
        assert(is_ws(l[a]));
    } else if b < a {
        assert(is_ws(l.subrange(0, a)[b]));
    }
}

/// Whether the characters of `s` in `[lo, hi)` form a separator line.
pub fn is_separator(s: &[char], lo: usize, hi: usize) -> (r: bool)
    requires
        lo <= hi <= s@.len(),
    ensures
        r == is_sep_line(s@.subrange(lo as int, hi as int)),
{
    let ghost l = s@.subrange(lo as int, hi as int);
    let mut a: usize = lo;
    while a < hi && is_whitespace(s[a])
        invariant
            lo <= a <= hi <= s@.len(),
            forall|m: int| lo <= m < a ==> is_ws(s@[m]),
        decreases hi - a,
    {
        a = a + 1;
    }
    proof {
        assert forall|m: int| 0 <= m < a - lo implies is_ws(l[m]) by {
            assert(is_ws(s@[lo + m]));
        }
        assert(a < hi ==> !is_ws(l[a - lo]));
    }
    if hi - a < 3 || s[a] != '-' || s[a + 1] != '-' || s[a + 2] != '-' {
        proof {
            if is_sep_line(l) {
                let w = choose|w: int|
                    #![trigger l.subrange(0, w)]
                    0 <= w && w + 3 <= l.len() && all_ws(l.subrange(0, w)) && l[w] == '-'
                        && l[w + 1] == '-' && l[w + 2] == '-' && all_ws(
                        l.subrange(w + 3, l.len() as int),
                    );
                lemma_sep_witness_unique(l, w, a - lo);
            }
        }
        return false;
    }
    let rest = is_blank(s, a + 3, hi);
    proof {
        let w = (a - lo) as int;
        assert(l.subrange(w + 3, l.len() as int) =~= s@.subrange(a + 3, hi as int));
        assert(l.subrange(0, w) =~= s@.subrange(lo as int, a as int));
        if rest {
            assert(all_ws(l.subrange(0, w)));
        } else if is_sep_line(l) {
            let w2 = choose|w2: int|
                #![trigger l.subrange(0, w2)]
                0 <= w2 && w2 + 3 <= l.len() && all_ws(l.subrange(0, w2)) && l[w2] == '-'
                    && l[w2 + 1] == '-' && l[w2 + 2] == '-' && all_ws(
                    l.subrange(w2 + 3, l.len() as int),
                );
            lemma_sep_witness_unique(l, w2, w);
        }
    }
    rest
}

} // verus!
