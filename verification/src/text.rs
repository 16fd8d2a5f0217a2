//! Byte-level vocabulary for whitespace runs: line breaks, trailing
//! indentation and canonical blank text.
use vstd::prelude::*;

verus! {

/// The line-feed byte.
pub const NEWLINE: u8 = 10;

/// The space byte.
pub const SPACE: u8 = 32;

/// `s` holds at least one line break.
pub open spec fn has_newline(s: Seq<u8>) -> bool {
    exists|i: int| 0 <= i < s.len() && #[trigger] s[i] == NEWLINE
}

/// Number of line breaks in `s`.
pub open spec fn count_newlines(s: Seq<u8>) -> nat
    decreases s.len(),
{
    if s.len() == 0 {
        0
    } else {
        count_newlines(s.drop_last()) + if s.last() == NEWLINE {
            1nat
        } else {
            0nat
        }
    }
}

/// Number of bytes that follow the last line break of `s`; all of `s` when it
/// has none.
pub open spec fn indent_width(s: Seq<u8>) -> nat
    decreases s.len(),
{
    if s.len() == 0 || s.last() == NEWLINE {
        0
    } else {
        indent_width(s.drop_last()) + 1
    }
}

/// Canonical whitespace: `newlines` line breaks followed by `spaces` spaces.
pub open spec fn blank(newlines: nat, spaces: nat) -> Seq<u8> {
    Seq::new(
        newlines + spaces,
        |i: int|
            if i < newlines {
                NEWLINE
            } else {
                SPACE
            },
    )
}

/// `s` is made of spaces and line breaks only.
pub open spec fn is_blank(s: Seq<u8>) -> bool {
    forall|i: int| 0 <= i < s.len() ==> #[trigger] s[i] == NEWLINE || s[i] == SPACE
}

/// Number of spaces at the front of `s`.
pub open spec fn leading_spaces(s: Seq<u8>) -> nat
    decreases s.len(),
{
    if s.len() == 0 || s[0] != SPACE {
        0
    } else {
        1 + leading_spaces(s.drop_first())
    }
}

/// Indentation of the line that holds position `p` of `s`: the spaces at the
/// front of that line, counted no further than `p`.
pub open spec fn line_indent(s: Seq<u8>, p: int) -> nat {
    let head = s.take(p);
    leading_spaces(head.skip(p - indent_width(head)))
}

/// Addition that stops at the largest `usize`.
pub open spec fn sat_add(a: nat, b: nat) -> nat {
    if a + b > usize::MAX {
        usize::MAX as nat
    } else {
        a + b
    }
}

pub proof fn lemma_count_has_newline(s: Seq<u8>)
    ensures
        has_newline(s) <==> count_newlines(s) > 0,
    decreases s.len(),
{
    if s.len() > 0 {
        let t = s.drop_last();
        lemma_count_has_newline(t);
        if has_newline(s) {
            let i = choose|i: int| 0 <= i < s.len() && #[trigger] s[i] == NEWLINE;
            if i < s.len() - 1 {
                assert(t[i] == NEWLINE);
            }
        }
        if has_newline(t) {
            let i = choose|i: int| 0 <= i < t.len() && #[trigger] t[i] == NEWLINE;
            assert(s[i] == NEWLINE);
        }
        if s.last() == NEWLINE {
            assert(s[s.len() - 1] == NEWLINE);
        }
    }
}

pub proof fn lemma_indent_width_bound(s: Seq<u8>)
    ensures
        indent_width(s) <= s.len(),
        !has_newline(s) ==> indent_width(s) == s.len(),
        has_newline(s) ==> indent_width(s) < s.len(),
        forall|i: int| s.len() - indent_width(s) <= i < s.len() ==> #[trigger] s[i] != NEWLINE,
        indent_width(s) < s.len() ==> s[s.len() - indent_width(s) - 1] == NEWLINE,
    decreases s.len(),
{
    if s.len() > 0 {
        let t = s.drop_last();
        lemma_indent_width_bound(t);
        if s.last() == NEWLINE {
            assert(s[s.len() - 1] == NEWLINE);
        } else {
            if has_newline(s) {
                let i = choose|i: int| 0 <= i < s.len() && #[trigger] s[i] == NEWLINE;
                assert(t[i] == NEWLINE);
            }
            if has_newline(t) {
                let i = choose|i: int| 0 <= i < t.len() && #[trigger] t[i] == NEWLINE;
                assert(s[i] == NEWLINE);
            }
            assert forall|i: int| s.len() - indent_width(s) <= i < s.len() implies #[trigger] s[i]
                != NEWLINE by {
                if i < s.len() - 1 {
                    assert(t[i] != NEWLINE);
                }
            }
            if indent_width(s) < s.len() {
                assert(t[t.len() - indent_width(t) - 1] == NEWLINE);
            }
        }
    }
}

pub proof fn lemma_indent_width_concat(a: Seq<u8>, b: Seq<u8>)
    ensures
        indent_width(a + b) == if has_newline(b) {
            indent_width(b)
        } else {
            indent_width(a) + b.len()
        },
    decreases b.len(),
{
    if b.len() == 0 {
        assert(a + b =~= a);
    } else {
        let t = b.drop_last();
        assert((a + b).drop_last() =~= a + t);
        lemma_indent_width_concat(a, t);
        if b.last() == NEWLINE {
            assert(b[b.len() - 1] == NEWLINE);
        } else {
            if has_newline(b) {
                let i = choose|i: int| 0 <= i < b.len() && #[trigger] b[i] == NEWLINE;
                assert(t[i] == NEWLINE);
            }
            if has_newline(t) {
                let i = choose|i: int| 0 <= i < t.len() && #[trigger] t[i] == NEWLINE;
                assert(b[i] == NEWLINE);
            }
        }
    }
}

/// The spaces at the front of a text are spaces, and there are no more of
/// them than the text is long.
pub proof fn lemma_leading_spaces(s: Seq<u8>)
    ensures
        leading_spaces(s) <= s.len(),
        forall|i: int| 0 <= i < leading_spaces(s) ==> #[trigger] s[i] == SPACE,
    decreases s.len(),
{
    if s.len() > 0 && s[0] == SPACE {
        let rest = s.drop_first();
        lemma_leading_spaces(rest);
        assert forall|i: int| 0 <= i < leading_spaces(s) implies #[trigger] s[i] == SPACE by {
            if i > 0 {
                assert(rest[i - 1] == SPACE);
            }
        }
    }
}

pub proof fn lemma_blank(newlines: nat, spaces: nat)
    ensures
        blank(newlines, spaces).len() == newlines + spaces,
        count_newlines(blank(newlines, spaces)) == newlines,
        indent_width(blank(newlines, spaces)) == spaces,
        has_newline(blank(newlines, spaces)) <==> newlines > 0,
        is_blank(blank(newlines, spaces)),
    decreases newlines + spaces,
{
    let s = blank(newlines, spaces);
    if newlines + spaces > 0 {
        if spaces > 0 {
            assert(s.drop_last() =~= blank(newlines, (spaces - 1) as nat));
            lemma_blank(newlines, (spaces - 1) as nat);
        } else {
            assert(s.drop_last() =~= blank((newlines - 1) as nat, 0));
            lemma_blank((newlines - 1) as nat, 0);
        }
    }
    lemma_count_has_newline(s);
}

pub fn saturating_sum(a: usize, b: usize) -> (sum: usize)
    ensures
        sum == sat_add(a as nat, b as nat),
{
    if a > usize::MAX - b {
        usize::MAX
    } else {
        a + b
    }
}

pub fn contains_newline(s: &[u8]) -> (found: bool)
    ensures
        found == has_newline(s@),
{
    let mut i: usize = 0;
    while i < s.len()
        invariant
            i <= s.len(),
            forall|k: int| 0 <= k < i ==> #[trigger] s@[k] != NEWLINE,
        decreases s.len() - i,
    {
        if s[i] == NEWLINE {
            return true;
        }
        i += 1;
    }
    false
}

pub fn newline_count(s: &[u8]) -> (count: usize)
    ensures
        count == count_newlines(s@),
{
    let mut count: usize = 0;
    let mut i: usize = 0;
    while i < s.len()
        invariant
            i <= s.len(),
            count <= i,
            count == count_newlines(s@.take(i as int)),
        decreases s.len() - i,
    {
        proof {
            assert(s@.take(i + 1).drop_last() =~= s@.take(i as int));
        }
        if s[i] == NEWLINE {
            count += 1;
        }
        i += 1;
    }
    proof {
        assert(s@.take(i as int) =~= s@);
    }
    count
}

pub fn trailing_width(s: &[u8]) -> (width: usize)
    ensures
        width == indent_width(s@),
{
    let mut i: usize = s.len();
    proof {
        lemma_indent_width_bound(s@);
    }
    while i > 0 && s[i - 1] != NEWLINE
        invariant
            i <= s.len(),
            forall|k: int| i <= k < s.len() ==> #[trigger] s@[k] != NEWLINE,
        decreases i,
    {
        i -= 1;
    }
    proof {
        let w = indent_width(s@);
        if i > 0 {
            assert(s@[i - 1] == NEWLINE);
            if s.len() - w < i {
                assert(s@[i - 1] != NEWLINE);
            }
            if w < s.len() && s.len() - w > i {
                assert(s@[s.len() - w - 1] == NEWLINE);
            }
        } else {
            if w < s.len() {
                assert(s@[s.len() - w - 1] == NEWLINE);
            }
        }
    }
    s.len() - i
}

/// Builds `newlines` line breaks followed by `spaces` spaces.
pub fn make_blank(newlines: usize, spaces: usize) -> (out: Vec<u8>)
    ensures
        out@ == blank(newlines as nat, spaces as nat),
{
    let mut out: Vec<u8> = Vec::new();
    let mut i: usize = 0;
    while i < newlines
        invariant
            i <= newlines,
            out@ == blank(i as nat, 0),
        decreases newlines - i,
    {
        out.push(NEWLINE);
        i += 1;
        assert(out@ =~= blank(i as nat, 0));
    }
    let mut j: usize = 0;
    while j < spaces
        invariant
            j <= spaces,
            out@ == blank(newlines as nat, j as nat),
        decreases spaces - j,
    {
        out.push(SPACE);
        j += 1;
        assert(out@ =~= blank(newlines as nat, j as nat));
    }
    out
}

/// Copies a byte slice into a fresh vector.
pub fn copy_bytes(s: &[u8]) -> (out: Vec<u8>)
    ensures
        out@ == s@,
{
    let mut out: Vec<u8> = Vec::new();
    let mut i: usize = 0;
    while i < s.len()
        invariant
            i <= s.len(),
            out@ == s@.take(i as int),
        decreases s.len() - i,
    {
        out.push(s[i]);
        i += 1;
        assert(out@ =~= s@.take(i as int));
    }
    assert(s@.take(i as int) =~= s@);
    out
}

/// Byte-wise equality of two slices.
pub fn same_bytes(a: &[u8], b: &[u8]) -> (same: bool)
    ensures
        same == (a@ == b@),
{
    if a.len() != b.len() {
        return false;
    }
    let mut i: usize = 0;
    while i < a.len()
        invariant
            i <= a.len(),
            a.len() == b.len(),
            forall|k: int| 0 <= k < i ==> a@[k] == b@[k],
        decreases a.len() - i,
    {
        if a[i] != b[i] {
            return false;
        }
        i += 1;
    }
    assert(a@ =~= b@);
    true
}

/// Number of spaces at the front of `s`.
pub fn count_leading_spaces(s: &[u8]) -> (count: usize)
    ensures
        count == leading_spaces(s@),
        count <= s@.len(),
        count < s@.len() ==> s@[count as int] != SPACE,
{
    let mut i: usize = 0;
    proof {
        assert(s@.skip(0) =~= s@);
    }
    while i < s.len() && s[i] == SPACE
        invariant
            i <= s.len(),
            leading_spaces(s@) == i + leading_spaces(s@.skip(i as int)),
        decreases s.len() - i,
    {
        proof {
            assert(s@.skip(i as int).drop_first() =~= s@.skip(i + 1));
        }
        i += 1;
    }
    i
}

/// Indentation of the line of `s` that holds position `p`.
pub fn line_indent_at(s: &[u8], p: usize) -> (indent: usize)
    requires
        p <= s.len(),
    ensures
        indent == line_indent(s@, p as int),
{
    let head = vstd::slice::slice_subrange(s, 0, p);
    assert(head@ =~= s@.take(p as int));
    let width = trailing_width(head);
    proof {
        lemma_indent_width_bound(head@);
    }
    let start: usize = p - width;
    let ghost line = head@.skip(start as int);
    let mut i: usize = start;
    proof {
        assert(line =~= s@.subrange(start as int, p as int));
        assert(line.skip(0) =~= line);
    }
    while i < p && s[i] == SPACE
        invariant
            start <= i <= p <= s.len(),
            line == s@.subrange(start as int, p as int),
            leading_spaces(line) == (i - start) + leading_spaces(line.skip(i - start)),
        decreases p - i,
    {
        proof {
            let rest = line.skip(i - start);
            assert(rest[0] == s@[i as int]);
            assert(rest.drop_first() =~= line.skip(i + 1 - start));
        }
        i += 1;
    }
    proof {
        let rest = line.skip(i - start);
        if i < p {
            assert(rest[0] == s@[i as int]);
        }
    }
    i - start
}

} // verus!
