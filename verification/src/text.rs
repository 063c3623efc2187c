//! Splitting a text into lines, the way Rust's `str::lines` does: lines end
//! at `\n`, a `\r` right before the `\n` is dropped, and a final line ending
//! is optional.

#![allow(unused_imports)]
use vstd::prelude::*;

verus! {

/// The first position at or after `i` that holds `c`, or the text's length.
pub open spec fn find_char(s: Seq<char>, i: int, c: char) -> int
    decreases s.len() - i,
{
    if 0 <= i && i < s.len() {
        if s[i] == c {
            i
        } else {
            find_char(s, i + 1, c)
        }
    } else {
        s.len() as int
    }
}

/// A line as it is reported: a `\r` left at its end by a `\r\n` ending is
/// dropped.
pub open spec fn strip_cr(t: Seq<char>) -> Seq<char> {
    if t.len() > 0 && t.last() == '\r' {
        t.drop_last()
    } else {
        t
    }
}

/// The lines of `s` from position `pos` on.
pub open spec fn lines_from(s: Seq<char>, pos: int) -> Seq<Seq<char>>
    decreases s.len() - pos,
{
    if !(0 <= pos && pos < s.len()) {
        Seq::empty()
    } else {
        let k = find_char(s, pos, '\n');
        if k == s.len() {
            seq![s.subrange(pos, k)]
        } else {
            let next = if pos < k + 1 && k + 1 <= s.len() {
                k + 1
            } else {
                pos + 1
            };
            seq![strip_cr(s.subrange(pos, k))] + lines_from(s, next)
        }
    }
}

/// The lines of a whole text.
pub open spec fn lines_spec(s: Seq<char>) -> Seq<Seq<char>> {
    lines_from(s, 0)
}

/// The views of a vector of lines.
pub open spec fn lines_seq(lines: Seq<String>) -> Seq<Seq<char>> {
    lines.map_values(|l: String| l@)
}

/// `find_char` never steps back, never passes the text's end, finds no `c`
/// before its result, and stops at a `c` when it stops inside the text.
pub proof fn lemma_find_char(s: Seq<char>, i: int, c: char)
    requires
        0 <= i <= s.len(),
    ensures
        i <= find_char(s, i, c) <= s.len(),
        forall|t: int| i <= t < find_char(s, i, c) ==> s[t] != c,
        find_char(s, i, c) < s.len() ==> s[find_char(s, i, c)] == c,
    decreases s.len() - i,
{
    if i < s.len() && s[i] != c {
        lemma_find_char(s, i + 1, c);
    }
}

/// Walks to the first `\n` at or after `i`.
fn find_newline(s: &str, s_len: usize, i: usize) -> (r: usize)
    requires
        s_len == s@.len(),
        i <= s_len,
    ensures
        r as int == find_char(s@, i as int, '\n'),
        i <= r <= s_len,
{
    let mut r = i;
    while r < s_len
        invariant_except_break
            s_len == s@.len(),
            i <= r <= s_len,
            find_char(s@, i as int, '\n') == find_char(s@, r as int, '\n'),
        ensures
            r as int == find_char(s@, i as int, '\n'),
            i <= r <= s_len,
        decreases s_len - r,
    {
        let c = s.get_char(r);
        if c == '\n' {
            break ;
        }
        r += 1;
    }
    r
}

/// Splits a text into its lines, as `str::lines` reports them.
pub fn split_lines(text: &str) -> (r: Vec<String>)
    ensures
        lines_seq(r@) == lines_spec(text@),
{
    let s_len = text.unicode_len();
    let mut out: Vec<String> = Vec::new();
    proof {
        assert(lines_seq(out@) =~= Seq::<Seq<char>>::empty());
    }
    let mut pos: usize = 0;
    while pos < s_len
        invariant
            s_len == text@.len(),
            pos <= s_len,
            lines_seq(out@) + lines_from(text@, pos as int) == lines_spec(text@),
        decreases s_len - pos,
    {
        let k = find_newline(text, s_len, pos);
        proof {
            lemma_find_char(text@, pos as int, '\n');
        }
        if k == s_len {
            let piece = text.substring_char(pos, k).to_owned();
            proof {
                assert(lines_seq(out@.push(piece)) =~= lines_seq(out@).push(piece@));
                assert(lines_seq(out@).push(piece@) =~= lines_seq(out@) + lines_from(
                    text@,
                    pos as int,
                ));
                assert(lines_from(text@, s_len as int) =~= Seq::<Seq<char>>::empty());
            }
            out.push(piece);
            pos = k;
        } else {
            let mut seg_end = k;
            if k > pos {
                let p = text.get_char(k - 1);
                if p == '\r' {
                    seg_end = k - 1;
                }
            }
            let piece = text.substring_char(pos, seg_end).to_owned();
            proof {
                assert(piece@ == strip_cr(text@.subrange(pos as int, k as int))) by {
                    let seg = text@.subrange(pos as int, k as int);
                    if seg_end < k {
                        assert(seg.last() == text@[k - 1]);
                        assert(seg.drop_last() =~= text@.subrange(pos as int, k - 1));
                    } else {
                        if seg.len() > 0 && seg.last() == '\r' {
                            assert(text@[k - 1] == '\r');
                        }
                    }
                }
                assert(lines_seq(out@.push(piece)) =~= lines_seq(out@).push(piece@));
                assert(lines_seq(out@).push(piece@) + lines_from(text@, k + 1) =~= lines_seq(out@)
                    + lines_from(text@, pos as int));
            }
            out.push(piece);
            pos = k + 1;
        }
    }
    proof {
        assert(lines_from(text@, pos as int) =~= Seq::<Seq<char>>::empty());
        assert(lines_seq(out@) + lines_from(text@, pos as int) =~= lines_seq(out@));
    }
    out
}

} // verus!
