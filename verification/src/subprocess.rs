//! The pure half of running helper commands: the caller runs the command and
//! hands its captured standard output in as text; these functions pick out
//! the lines that were asked for.

#![allow(unused_imports)]
use vstd::prelude::*;

verus! {

use crate::text::lines_seq;
use crate::text::lines_spec;
use crate::text::split_lines;

/// How much of a command's output the caller wants.
pub enum OutputLines {
    First(usize),
    All,
}

/// The lines a request keeps: the first `n` of them, or all.
pub open spec fn kept_lines(ls: Seq<Seq<char>>, line_count: OutputLines) -> Seq<Seq<char>> {
    match line_count {
        OutputLines::First(n) => if n <= ls.len() {
            ls.take(n as int)
        } else {
            ls
        },
        OutputLines::All => ls,
    }
}

/// The lines of a command's captured output, cut down to what was asked for.
pub fn output(stdout: &str, line_count: OutputLines) -> (r: Vec<String>)
    ensures
        lines_seq(r@) == kept_lines(lines_spec(stdout@), line_count),
{
    let mut lines = split_lines(stdout);
    let ghost full = lines@;
    match line_count {
        OutputLines::First(n) => {
            if n <= lines.len() {
                lines.truncate(n);
                proof {
                    assert(lines_seq(lines@) =~= lines_seq(full).take(n as int));
                }
            }
        },
        OutputLines::All => {},
    }
    lines
}

/// The first line of a command's captured output, if it printed any.
pub fn output_oneline(stdout: &str) -> (r: Option<String>)
    ensures
        match r {
            Some(line) => lines_spec(stdout@).len() > 0 && line@ == lines_spec(stdout@)[0],
            None => lines_spec(stdout@).len() == 0,
        },
{
    let mut lines = split_lines(stdout);
    if lines.len() == 0 {
        proof {
            assert(lines_seq(lines@).len() == lines@.len());
        }
        None
    } else {
        let ghost full = lines@;
        let line = lines.remove(0);
        proof {
            assert(lines_seq(full).len() == full.len());
            assert(lines_seq(full)[0] == full[0]@);
        }
        Some(line)
    }
}

} // verus!
