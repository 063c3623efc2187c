//! Scanning wiki-style markdown for user-profile mentions.
//!
//! A mention is a markdown link `[username](https://osu.ppy.sh/users/<id>)`,
//! optionally preceded by a country-flag block `::{ flag=XX }::` and at least
//! one space. The scanner walks each line left to right, emits one mention per
//! non-overlapping match, and records zero-based source positions.

#![allow(unused_imports)]
use std::collections::HashMap;
use vstd::prelude::*;

verus! {

broadcast use vstd::std_specs::hash::group_hash_axioms;

use crate::text::lines_seq;
use crate::text::lines_spec;
use crate::text::split_lines;

/// Zero-based position of a token inside a file.
#[derive(Clone, Copy, Debug, PartialEq, Eq, Structural)]
pub struct Location {
    pub line: usize,
    pub ch: usize,
}

/// The characters of a mention's username, stripped of markdown markers.
#[derive(Debug, Clone, PartialEq, Eq)]
pub struct UserName {
    pub text: String,
    pub loc: Location,
}

/// A numeric profile id taken from a mention's link.
#[derive(Debug, Clone, PartialEq, Eq)]
pub struct UserId {
    pub num: i32,
    pub loc: Location,
}

/// A two-letter country code taken from a mention's flag block.
#[derive(Debug, Clone, PartialEq, Eq)]
pub struct UserCountry {
    pub text: String,
    pub loc: Location,
}

/// One full pattern match: username, profile id, and an optional country code.
#[derive(Debug, Clone, PartialEq, Eq)]
pub struct UserMention {
    pub username: UserName,
    pub id: UserId,
    pub country_code: Option<UserCountry>,
}

/// Mathematical image of a `Location`.
#[verifier::ext_equal]
pub ghost struct LocV {
    pub line: int,
    pub ch: int,
}

/// Mathematical image of a `UserCountry`.
#[verifier::ext_equal]
pub ghost struct CountryV {
    pub text: Seq<char>,
    pub loc: LocV,
}

/// Mathematical image of a `UserMention`.
#[verifier::ext_equal]
pub ghost struct MentionV {
    pub username: Seq<char>,
    pub username_loc: LocV,
    pub id: int,
    pub id_loc: LocV,
    pub country: Option<CountryV>,
}

impl View for Location {
    type V = LocV;

    open spec fn view(&self) -> LocV {
        LocV { line: self.line as int, ch: self.ch as int }
    }
}

impl View for UserCountry {
    type V = CountryV;

    open spec fn view(&self) -> CountryV {
        CountryV { text: self.text@, loc: self.loc@ }
    }
}

impl View for UserMention {
    type V = MentionV;

    open spec fn view(&self) -> MentionV {
        MentionV {
            username: self.username.text@,
            username_loc: self.username.loc@,
            id: self.id.num as int,
            id_loc: self.id.loc@,
            country: match self.country_code {
                Some(c) => Some(c@),
                None => None,
            },
        }
    }
}

/// The views of a sequence of mentions.
pub open spec fn mentions_view(ms: Seq<UserMention>) -> Seq<MentionV> {
    ms.map_values(|m: UserMention| m@)
}

/// Markdown markers stripped from a captured username.
pub open spec fn keep_in_username(c: char) -> bool {
    c != '*' && c != '\\'
}

/// A username as it is stored and compared: literal `*` and `\` removed.
pub open spec fn canon(s: Seq<char>) -> Seq<char> {
    s.filter(|c: char| keep_in_username(c))
}

pub open spec fn is_ascii_letter(c: char) -> bool {
    ('a' <= c && c <= 'z') || ('A' <= c && c <= 'Z')
}

pub open spec fn is_ascii_digit(c: char) -> bool {
    '0' <= c && c <= '9'
}

pub open spec fn digit_val(c: char) -> int {
    c as int - '0' as int
}

/// The numeric value of a run of decimal digits, leading zeros allowed.
pub open spec fn digits_val(s: Seq<char>) -> int
    decreases s.len(),
{
    if s.len() == 0 {
        0
    } else {
        digits_val(s.drop_last()) * 10 + digit_val(s.last())
    }
}

/// The end of the run of decimal digits that starts at `i` (greedy).
pub open spec fn digits_end(s: Seq<char>, i: int) -> int
    decreases s.len() - i,
{
    if 0 <= i && i < s.len() && is_ascii_digit(s[i]) {
        digits_end(s, i + 1)
    } else {
        i
    }
}

/// The end of the run of spaces that starts at `i` (greedy).
pub open spec fn spaces_end(s: Seq<char>, i: int) -> int
    decreases s.len() - i,
{
    if 0 <= i && i < s.len() && s[i] == ' ' {
        spaces_end(s, i + 1)
    } else {
        i
    }
}

/// A country-flag block `::{ flag=XX }::` (15 characters) starts at `i`;
/// the two-letter code sits at `i + 9`.
pub open spec fn flag_at(s: Seq<char>, i: int) -> bool {
    &&& 0 <= i
    &&& i + 15 <= s.len()
    &&& s.subrange(i, i + 9) == "::{ flag="@
    &&& is_ascii_letter(s[i + 9])
    &&& is_ascii_letter(s[i + 10])
    &&& s.subrange(i + 11, i + 15) == " }::"@
}

/// The whole tail of a mention starts at `e`: the `]` that closes the
/// username, the literal profile-link prefix (27 characters together), at
/// least one digit, and a closing `)`. The digit run must name an id that a
/// 32-bit signed integer can hold.
pub open spec fn link_at(s: Seq<char>, e: int) -> bool {
    let d0 = e + 27;
    let d1 = digits_end(s, d0);
    &&& 0 <= e
    &&& e + 27 <= s.len()
    &&& s.subrange(e, e + 27) == "](https://osu.ppy.sh/users/"@
    &&& d1 > d0
    &&& d1 < s.len()
    &&& s[d1] == ')'
    &&& digits_val(s.subrange(d0, d1)) <= i32::MAX as int
}

/// The smallest `e' >= e` where the tail of a mention starts, if any.
/// This is what a non-greedy username capture comes to: the username ends at
/// the first closing bracket from which the rest of the pattern matches.
pub open spec fn find_link(s: Seq<char>, e: int) -> Option<int>
    decreases s.len() - e,
{
    if e < 0 || e + 27 > s.len() {
        None
    } else if link_at(s, e) {
        Some(e)
    } else {
        find_link(s, e + 1)
    }
}

/// The mention whose username's opening bracket sits at `j`, whose tail
/// starts at `e`, and whose flag block (if any) puts the country code at
/// `flag`.
pub open spec fn mention_of(s: Seq<char>, line: int, flag: Option<int>, j: int, e: int) -> MentionV {
    let d0 = e + 27;
    let d1 = digits_end(s, d0);
    MentionV {
        username: canon(s.subrange(j + 1, e)),
        username_loc: LocV { line, ch: j + 1 },
        id: digits_val(s.subrange(d0, d1)),
        id_loc: LocV { line, ch: d0 },
        country: match flag {
            Some(ci) => Some(CountryV { text: s.subrange(ci, ci + 2), loc: LocV { line, ch: ci } }),
            None => None,
        },
    }
}

/// The mention that starts exactly at position `i` of the line, if any,
/// together with the position just past its match. A mention starts either
/// with the `[` of its username or with a flag block followed by one or more
/// spaces and then that `[`; the username holds at least one character.
pub open spec fn match_at(s: Seq<char>, line: int, i: int) -> Option<(MentionV, int)> {
    if 0 <= i && i < s.len() && s[i] == '[' {
        match find_link(s, i + 2) {
            Some(e) => Some((mention_of(s, line, None, i, e), digits_end(s, e + 27) + 1)),
            None => None,
        }
    } else if flag_at(s, i) {
        let sp = spaces_end(s, i + 15);
        if sp > i + 15 && sp < s.len() && s[sp] == '[' {
            match find_link(s, sp + 2) {
                Some(e) => Some(
                    (mention_of(s, line, Some(i + 9), sp, e), digits_end(s, e + 27) + 1),
                ),
                None => None,
            }
        } else {
            None
        }
    } else {
        None
    }
}

/// All mentions of the line from position `i` on, leftmost first; each match
/// is consumed whole, so matches never overlap.
pub open spec fn scan_from(s: Seq<char>, line: int, i: int) -> Seq<MentionV>
    decreases s.len() - i,
{
    if !(0 <= i && i < s.len()) {
        Seq::empty()
    } else {
        match match_at(s, line, i) {
            Some((m, end)) => {
                let next = if i < end && end <= s.len() {
                    end
                } else {
                    i + 1
                };
                seq![m] + scan_from(s, line, next)
            },
            None => scan_from(s, line, i + 1),
        }
    }
}

/// All mentions of a file, line number ascending, column ascending within
/// each line.
pub open spec fn scan_spec(lines: Seq<Seq<char>>) -> Seq<MentionV>
    decreases lines.len(),
{
    if lines.len() == 0 {
        Seq::empty()
    } else {
        scan_spec(lines.drop_last()) + scan_from(lines.last(), lines.len() - 1, 0)
    }
}

/// `find_link` never steps back: a found tail sits at or after the start of
/// the search.
proof fn lemma_find_link_ge(s: Seq<char>, e: int)
    ensures
        match find_link(s, e) {
            Some(t) => t >= e && link_at(s, t),
            None => true,
        },
    decreases s.len() - e,
{
    if !(e < 0 || e + 27 > s.len()) && !link_at(s, e) {
        lemma_find_link_ge(s, e + 1);
    }
}

/// A run of spaces ends at or after where it starts.
proof fn lemma_spaces_end_ge(s: Seq<char>, i: int)
    ensures
        spaces_end(s, i) >= i,
    decreases s.len() - i,
{
    if 0 <= i && i < s.len() && s[i] == ' ' {
        lemma_spaces_end_ge(s, i + 1);
    }
}

/// Within one line the scan emits mentions left to right: every id column is
/// at or after the position scanned from, and id columns strictly increase.
proof fn lemma_scan_from_ordered(s: Seq<char>, line: int, i: int)
    ensures
        forall|k: int|
            0 <= k < scan_from(s, line, i).len() ==> (#[trigger] scan_from(
                s,
                line,
                i,
            )[k]).id_loc.line == line,
        forall|k: int|
            0 <= k < scan_from(s, line, i).len() ==> (#[trigger] scan_from(
                s,
                line,
                i,
            )[k]).id_loc.ch >= i,
        forall|a: int, b: int|
            #![trigger scan_from(s, line, i)[a], scan_from(s, line, i)[b]]
            0 <= a < b < scan_from(s, line, i).len() ==> scan_from(s, line, i)[a].id_loc.ch
                < scan_from(s, line, i)[b].id_loc.ch,
    decreases s.len() - i,
{
    if 0 <= i && i < s.len() {
        let cur = scan_from(s, line, i);
        if s[i] == '[' || (flag_at(s, i) && {
            let sp = spaces_end(s, i + 15);
            sp > i + 15 && sp < s.len() && s[sp] == '['
        }) {
            let j: int = if s[i] == '[' {
                i
            } else {
                spaces_end(s, i + 15)
            };
            if s[i] != '[' {
                lemma_spaces_end_ge(s, i + 15);
            }
            lemma_find_link_ge(s, j + 2);
            match find_link(s, j + 2) {
                Some(e) => {
                    let d1 = digits_end(s, e + 27);
                    let end = d1 + 1;
                    let m = cur[0];
                    assert(m.id_loc == LocV { line, ch: e + 27 });
                    assert(i < end && end <= s.len());
                    lemma_scan_from_ordered(s, line, end);
                    let rest = scan_from(s, line, end);
                    assert(cur == seq![m] + rest);
                    assert forall|k: int| 1 <= k < cur.len() implies cur[k] == rest[k - 1] by {}
                    assert(m.id_loc.ch == e + 27 < end);
                },
                None => {
                    lemma_scan_from_ordered(s, line, i + 1);
                },
            }
        } else {
            assert(match_at(s, line, i) is None);
            lemma_scan_from_ordered(s, line, i + 1);
        }
    }
}

/// The scan reports mentions in source order: line ascending, then column
/// ascending within each line, every line index pointing into the input.
pub proof fn lemma_scan_ordered(lines: Seq<Seq<char>>)
    ensures
        forall|k: int|
            0 <= k < scan_spec(lines).len() ==> 0 <= (#[trigger] scan_spec(
                lines,
            )[k]).id_loc.line < lines.len(),
        forall|a: int, b: int|
            #![trigger scan_spec(lines)[a], scan_spec(lines)[b]]
            0 <= a < b < scan_spec(lines).len() ==> {
                let ma = scan_spec(lines)[a];
                let mb = scan_spec(lines)[b];
                ma.id_loc.line < mb.id_loc.line || (ma.id_loc.line == mb.id_loc.line
                    && ma.id_loc.ch < mb.id_loc.ch)
            },
    decreases lines.len(),
{
    if lines.len() > 0 {
        lemma_scan_ordered(lines.drop_last());
        lemma_scan_from_ordered(lines.last(), lines.len() - 1, 0);
        let pre = scan_spec(lines.drop_last());
        let suf = scan_from(lines.last(), lines.len() - 1, 0);
        assert(scan_spec(lines) == pre + suf);
        assert forall|k: int| 0 <= k < pre.len() implies scan_spec(lines)[k] == pre[k] by {}
        assert forall|k: int| pre.len() <= k < scan_spec(lines).len() implies scan_spec(lines)[k]
            == suf[k - pre.len()] by {}
    }
}

/// Filtering commutes with appending one element at the end.
proof fn lemma_filter_push<A>(s: Seq<A>, x: A, pred: spec_fn(A) -> bool)
    ensures
        s.push(x).filter(pred) == if pred(x) {
            s.filter(pred).push(x)
        } else {
            s.filter(pred)
        },
{
    reveal(Seq::filter);
    assert(s.push(x).drop_last() =~= s);
    assert(s.push(x).last() == x);
}

/// An article: the path it was read from and its lines.
pub struct Article {
    pub path: String,
    pub lines: Vec<String>,
}

/// The scanned mentions that carry the profile id `id`, in scan order.
pub open spec fn with_id(all: Seq<MentionV>, id: i32) -> Seq<MentionV> {
    all.filter(|m: MentionV| m.id == id as int)
}

/// What it means for `kv` to group the mentions `all` by profile id: a key is
/// present exactly when some mention carries it, and it maps to those
/// mentions, in scan order.
pub open spec fn groups_mentions(kv: Map<i32, Vec<UserMention>>, all: Seq<MentionV>) -> bool {
    forall|id: i32|
        #![trigger kv.contains_key(id)]
        {
            if with_id(all, id).len() == 0 {
                !kv.contains_key(id)
            } else {
                kv.contains_key(id) && mentions_view(kv[id]@) == with_id(all, id)
            }
        }
}

impl Article {
    /// Builds an article from its path and its whole text.
    pub fn new(path: String, text: &str) -> (a: Article)
        ensures
            a.path == path,
            lines_seq(a.lines@) == lines_spec(text@),
    {
        let lines = split_lines(text);
        Article { path, lines }
    }

    /// Scans the article and groups its mentions by profile id.
    pub fn get_user_profiles(&self) -> (kv: HashMap<i32, Vec<UserMention>>)
        ensures
            groups_mentions(kv@, scan_spec(lines_seq(self.lines@))),
    {
        let mut all = scan_lines(&self.lines);
        let ghost allv = scan_spec(lines_seq(self.lines@));
        let mut kv: HashMap<i32, Vec<UserMention>> = HashMap::new();
        let ghost mut idx: int = 0;
        proof {
            assert(mentions_view(all@) =~= allv.skip(0));
            assert forall|id: i32| with_id(allv.take(0), id).len() == 0 by {
                reveal(Seq::filter);
                assert(allv.take(0) =~= Seq::<MentionV>::empty());
            }
        }
        while all.len() > 0
            invariant
                0 <= idx <= allv.len(),
                mentions_view(all@) == allv.skip(idx),
                groups_mentions(kv@, allv.take(idx)),
            decreases all@.len(),
        {
            let ghost before = all@;
            let m = all.remove(0);
            proof {
                assert(mentions_view(before).len() == before.len());
                assert(mentions_view(all@).len() == all@.len());
                assert(allv.skip(idx).len() == allv.len() - idx);
                assert(idx < allv.len());
                assert(m@ == allv[idx]) by {
                    assert(mentions_view(before)[0] == m@);
                    assert(allv.skip(idx)[0] == allv[idx + 0]);
                }
                assert(mentions_view(all@) =~= allv.skip(idx + 1)) by {
                    assert(all@.len() == allv.len() - (idx + 1));
                    assert forall|t: int| 0 <= t < all@.len() implies mentions_view(all@)[t]
                        == allv.skip(idx + 1)[t] by {
                        assert(all@[t] == before.remove(0)[t]);
                        assert(before[t + 1] == all@[t]);
                        assert(mentions_view(before)[t + 1] == mentions_view(all@)[t]);
                        assert(allv.skip(idx)[t + 1] == allv[idx + (t + 1)]);
                        assert(allv.skip(idx + 1)[t] == allv[idx + 1 + t]);
                    }
                }
            }
            let id = m.id.num;
            let ghost kv0 = kv@;
            let ghost taken = allv.take(idx);
            let mut v: Vec<UserMention> = match kv.remove(&id) {
                Some(v) => v,
                None => Vec::new(),
            };
            proof {
                assert(kv0.contains_key(id) ==> mentions_view(v@) == with_id(taken, id));
                assert(!kv0.contains_key(id) ==> v@ =~= Seq::<UserMention>::empty());
            }
            let ghost v_before = v@;
            v.push(m);
            kv.insert(id, v);
            proof {
                assert(kv@ == kv0.remove(id).insert(id, v));
                assert(allv.take(idx + 1) =~= taken.push(allv[idx]));
                assert(mentions_view(v_before.push(m)) =~= mentions_view(v_before).push(m@));
                assert forall|id2: i32|
                    {
                        if with_id(allv.take(idx + 1), id2).len() == 0 {
                            !kv@.contains_key(id2)
                        } else {
                            kv@.contains_key(id2) && mentions_view(kv@[id2]@) == with_id(
                                allv.take(idx + 1),
                                id2,
                            )
                        }
                    } by {
                    lemma_filter_push(taken, allv[idx], |mm: MentionV| mm.id == id2 as int);
                    assert(with_id(allv.take(idx + 1), id2) == taken.push(allv[idx]).filter(
                        |mm: MentionV| mm.id == id2 as int,
                    ));
                    assert(if with_id(taken, id2).len() == 0 {
                        !kv0.contains_key(id2)
                    } else {
                        kv0.contains_key(id2) && mentions_view(kv0[id2]@) == with_id(taken, id2)
                    });
                    if id2 == id {
                        assert(m@.id == id as int);
                        assert(with_id(allv.take(idx + 1), id) == with_id(taken, id).push(m@));
                        if !kv0.contains_key(id) {
                            assert(with_id(taken, id).len() == 0);
                            assert(mentions_view(v_before) =~= Seq::<MentionV>::empty());
                            assert(with_id(taken, id) =~= Seq::<MentionV>::empty());
                        }
                        assert(mentions_view(kv@[id]@) == with_id(taken, id).push(m@));
                    }
                }
                idx = idx + 1;
            }
        }
        proof {
            assert(allv.skip(idx).len() == 0);
            assert(idx == allv.len());
            assert(allv.take(idx) =~= allv);
        }
        kv
    }
}

/// Stripping commutes with appending one character at the end.
proof fn lemma_canon_push(s: Seq<char>, c: char)
    ensures
        canon(s.push(c)) == if keep_in_username(c) {
            canon(s).push(c)
        } else {
            canon(s)
        },
{
    reveal(Seq::filter);
    assert(s.push(c).drop_last() =~= s);
    assert(s.push(c).last() == c);
}

/// Strips literal `*` and `\` (markdown emphasis and escape markers) from a
/// captured username.
pub fn canonize_username(s: &str) -> (r: String)
    ensures
        r@ == canon(s@),
{
    let s_len = s.unicode_len();
    let mut r = String::new();
    proof {
        reveal(Seq::filter);
        assert(s@.subrange(0, 0) =~= Seq::<char>::empty());
    }
    let mut i: usize = 0;
    while i < s_len
        invariant
            s_len == s@.len(),
            i <= s_len,
            r@ == canon(s@.subrange(0, i as int)),
        decreases s_len - i,
    {
        let c = s.get_char(i);
        if c != '*' && c != '\\' {
            let piece = s.substring_char(i, i + 1);
            r.append(piece);
        }
        proof {
            assert(s@.subrange(0, i + 1) =~= s@.subrange(0, i as int).push(s@[i as int]));
            lemma_canon_push(s@.subrange(0, i as int), s@[i as int]);
            if keep_in_username(s@[i as int]) {
                assert(s@.subrange(i as int, i + 1) =~= seq![s@[i as int]]);
                assert(r@ =~= canon(s@.subrange(0, i as int)).push(s@[i as int]));
            }
        }
        i = i + 1;
    }
    proof {
        assert(s@.subrange(0, s_len as int) =~= s@);
    }
    r
}

/// Every position before `digits_end` holds a digit, and `digits_end` itself
/// (when inside the line) does not.
proof fn lemma_digits_end_props(s: Seq<char>, i: int)
    requires
        0 <= i <= s.len(),
    ensures
        i <= digits_end(s, i) <= s.len(),
        forall|t: int| i <= t < digits_end(s, i) ==> is_ascii_digit(s[t]),
        digits_end(s, i) < s.len() ==> !is_ascii_digit(s[digits_end(s, i)]),
    decreases s.len() - i,
{
    if i < s.len() && is_ascii_digit(s[i]) {
        lemma_digits_end_props(s, i + 1);
    }
}

/// Whether `pat` occurs in `s` starting at position `i`.
fn eq_prefix(s: &str, s_len: usize, i: usize, pat: &str) -> (b: bool)
    requires
        s_len == s@.len(),
    ensures
        b == (i as int + pat@.len() <= s@.len() && s@.subrange(
            i as int,
            i as int + pat@.len(),
        ) == pat@),
{
    let p_len = pat.unicode_len();
    if p_len > s_len || i > s_len - p_len {
        return false;
    }
    let mut k: usize = 0;
    while k < p_len
        invariant
            s_len == s@.len(),
            p_len == pat@.len(),
            i + p_len <= s_len,
            k <= p_len,
            forall|t: int| 0 <= t < k ==> s@[i + t] == pat@[t],
        decreases p_len - k,
    {
        if s.get_char(i + k) != pat.get_char(k) {
            proof {
                assert(s@.subrange(i as int, i as int + pat@.len())[k as int] == s@[i + k]);
            }
            return false;
        }
        k += 1;
    }
    proof {
        assert(s@.subrange(i as int, i as int + pat@.len()) =~= pat@);
    }
    true
}

/// Walks to the end of the digit run that starts at `i`.
fn digits_end_exec(s: &str, s_len: usize, i: usize) -> (r: usize)
    requires
        s_len == s@.len(),
        i <= s_len,
    ensures
        r as int == digits_end(s@, i as int),
        i <= r <= s_len,
{
    let mut r = i;
    while r < s_len
        invariant_except_break
            s_len == s@.len(),
            i <= r <= s_len,
            digits_end(s@, i as int) == digits_end(s@, r as int),
        ensures
            r as int == digits_end(s@, i as int),
            i <= r <= s_len,
        decreases s_len - r,
    {
        let c = s.get_char(r);
        if !('0' <= c && c <= '9') {
            break ;
        }
        r += 1;
    }
    r
}

/// Walks to the end of the space run that starts at `i`.
fn spaces_end_exec(s: &str, s_len: usize, i: usize) -> (r: usize)
    requires
        s_len == s@.len(),
        i <= s_len,
    ensures
        r as int == spaces_end(s@, i as int),
        i <= r <= s_len,
{
    let mut r = i;
    while r < s_len
        invariant_except_break
            s_len == s@.len(),
            i <= r <= s_len,
            spaces_end(s@, i as int) == spaces_end(s@, r as int),
        ensures
            r as int == spaces_end(s@, i as int),
            i <= r <= s_len,
        decreases s_len - r,
    {
        let c = s.get_char(r);
        if c != ' ' {
            break ;
        }
        r += 1;
    }
    r
}

/// Reads the value of the digit run `s[from..to]`, or reports that it does
/// not fit a 32-bit signed integer.
fn digits_value_exec(s: &str, s_len: usize, from: usize, to: usize) -> (r: Option<i32>)
    requires
        s_len == s@.len(),
        from <= to <= s_len,
        forall|t: int| from <= t < to ==> is_ascii_digit(s@[t]),
    ensures
        match r {
            Some(v) => v as int == digits_val(s@.subrange(from as int, to as int)),
            None => digits_val(s@.subrange(from as int, to as int)) > i32::MAX as int,
        },
{
    let mut acc: u64 = 0;
    let mut t = from;
    proof {
        assert(s@.subrange(from as int, from as int) =~= Seq::<char>::empty());
    }
    while t < to
        invariant
            s_len == s@.len(),
            from <= t <= to <= s_len,
            forall|x: int| from <= x < to ==> is_ascii_digit(s@[x]),
            acc <= 2147483648,
            digits_val(s@.subrange(from as int, t as int)) >= 0,
            if digits_val(s@.subrange(from as int, t as int)) <= i32::MAX as int {
                acc as int == digits_val(s@.subrange(from as int, t as int))
            } else {
                acc == 2147483648u64
            },
        decreases to - t,
    {
        let c = s.get_char(t);
        let d: u64 = (c as u32 - 48) as u64;
        proof {
            assert(is_ascii_digit(s@[t as int]));
            assert(s@.subrange(from as int, t + 1).drop_last() =~= s@.subrange(
                from as int,
                t as int,
            ));
            assert(s@.subrange(from as int, t + 1).last() == s@[t as int]);
        }
        acc = acc * 10 + d;
        if acc > 2147483647 {
            acc = 2147483648;
        }
        t += 1;
    }
    if acc > 2147483647 {
        None
    } else {
        Some(acc as i32)
    }
}

/// Whether a country-flag block starts at `i`.
fn flag_at_exec(s: &str, s_len: usize, i: usize) -> (b: bool)
    requires
        s_len == s@.len(),
        i <= s_len,
    ensures
        b == flag_at(s@, i as int),
{
    proof {
        reveal_strlit("::{ flag=");
        reveal_strlit(" }::");
    }
    if s_len - i < 15 {
        return false;
    }
    if !eq_prefix(s, s_len, i, "::{ flag=") {
        return false;
    }
    let c1 = s.get_char(i + 9);
    if !(('a' <= c1 && c1 <= 'z') || ('A' <= c1 && c1 <= 'Z')) {
        return false;
    }
    let c2 = s.get_char(i + 10);
    if !(('a' <= c2 && c2 <= 'z') || ('A' <= c2 && c2 <= 'Z')) {
        return false;
    }
    if !eq_prefix(s, s_len, i + 11, " }::") {
        return false;
    }
    true
}

/// Checks whether the tail of a mention starts at `e`; on success hands back
/// the end of the digit run and the id it names.
fn link_check(s: &str, s_len: usize, e: usize) -> (r: Option<(usize, i32)>)
    requires
        s_len == s@.len(),
        e + 27 <= s_len,
    ensures
        match r {
            Some((d1, num)) => {
                &&& link_at(s@, e as int)
                &&& d1 as int == digits_end(s@, e as int + 27)
                &&& e + 27 < d1 < s_len
                &&& num as int == digits_val(s@.subrange(e as int + 27, d1 as int))
            },
            None => !link_at(s@, e as int),
        },
{
    proof {
        reveal_strlit("](https://osu.ppy.sh/users/");
    }
    if !eq_prefix(s, s_len, e, "](https://osu.ppy.sh/users/") {
        return None;
    }
    let d0 = e + 27;
    let d1 = digits_end_exec(s, s_len, d0);
    proof {
        lemma_digits_end_props(s@, d0 as int);
    }
    if d1 == d0 {
        return None;
    }
    if d1 == s_len {
        return None;
    }
    if s.get_char(d1) != ')' {
        return None;
    }
    match digits_value_exec(s, s_len, d0, d1) {
        None => None,
        Some(num) => Some((d1, num)),
    }
}

/// Finds the first position at or after `start` where the tail of a mention
/// starts; on success also hands back the digit run's end and the id.
fn find_link_exec(s: &str, s_len: usize, start: usize) -> (r: Option<(usize, usize, i32)>)
    requires
        s_len == s@.len(),
        start <= s_len,
    ensures
        match r {
            Some((e, d1, num)) => {
                &&& find_link(s@, start as int) == Some(e as int)
                &&& link_at(s@, e as int)
                &&& start <= e
                &&& d1 as int == digits_end(s@, e as int + 27)
                &&& e + 27 < d1 < s_len
                &&& num as int == digits_val(s@.subrange(e as int + 27, d1 as int))
            },
            None => find_link(s@, start as int) is None,
        },
{
    let mut e = start;
    while s_len - e >= 27
        invariant_except_break
            s_len == s@.len(),
            start <= e <= s_len,
            find_link(s@, start as int) == find_link(s@, e as int),
        ensures
            find_link(s@, start as int) is None,
        decreases s_len - e,
    {
        match link_check(s, s_len, e) {
            Some((d1, num)) => {
                return Some((e, d1, num));
            },
            None => {
                e += 1;
            },
        }
    }
    None
}

/// Builds the mention whose opening bracket sits at `j` and whose tail starts
/// at `e`, with the country code at `flag` when a flag block was matched.
fn build_mention(
    s: &str,
    s_len: usize,
    line: usize,
    flag: Option<usize>,
    j: usize,
    e: usize,
    d1: usize,
    num: i32,
) -> (m: UserMention)
    requires
        s_len == s@.len(),
        j + 1 <= e,
        e + 27 <= d1 <= s_len,
        d1 as int == digits_end(s@, e as int + 27),
        num as int == digits_val(s@.subrange(e as int + 27, d1 as int)),
        match flag {
            Some(ci) => ci + 2 <= s_len,
            None => true,
        },
    ensures
        m@ == mention_of(
            s@,
            line as int,
            match flag {
                Some(ci) => Some(ci as int),
                None => None,
            },
            j as int,
            e as int,
        ),
{
    let uname_raw = s.substring_char(j + 1, e);
    let uname = canonize_username(uname_raw);
    let country = match flag {
        Some(ci) => Some(
            UserCountry {
                text: s.substring_char(ci, ci + 2).to_owned(),
                loc: Location { line, ch: ci },
            },
        ),
        None => None,
    };
    let m = UserMention {
        username: UserName { text: uname, loc: Location { line, ch: j + 1 } },
        id: UserId { num, loc: Location { line, ch: e + 27 } },
        country_code: country,
    };
    proof {
        let flag_v: Option<int> = match flag {
            Some(ci) => Some(ci as int),
            None => None,
        };
        assert(m@ =~= mention_of(s@, line as int, flag_v, j as int, e as int));
    }
    m
}

/// Tries to recognize a mention that starts exactly at position `i`.
fn try_match_at(s: &str, s_len: usize, line: usize, i: usize) -> (r: Option<(UserMention, usize)>)
    requires
        s_len == s@.len(),
        i < s_len,
    ensures
        match r {
            Some((m, end)) => {
                &&& match_at(s@, line as int, i as int) == Some((m@, end as int))
                &&& i < end <= s_len
            },
            None => match_at(s@, line as int, i as int) is None,
        },
{
    let c = s.get_char(i);
    if c == '[' {
        if s_len - i < 2 {
            return None;
        }
        match find_link_exec(s, s_len, i + 2) {
            None => None,
            Some((e, d1, num)) => {
                let m = build_mention(s, s_len, line, None, i, e, d1, num);
                Some((m, d1 + 1))
            },
        }
    } else {
        if !flag_at_exec(s, s_len, i) {
            return None;
        }
        let sp = spaces_end_exec(s, s_len, i + 15);
        if sp == i + 15 {
            return None;
        }
        if sp == s_len {
            return None;
        }
        if s.get_char(sp) != '[' {
            return None;
        }
        if s_len - sp < 2 {
            return None;
        }
        match find_link_exec(s, s_len, sp + 2) {
            None => None,
            Some((e, d1, num)) => {
                let m = build_mention(s, s_len, line, Some(i + 9), sp, e, d1, num);
                Some((m, d1 + 1))
            },
        }
    }
}

/// Scans one line, appending its mentions, leftmost first.
fn scan_line(s: &str, line: usize, out: &mut Vec<UserMention>)
    ensures
        mentions_view(final(out)@) == mentions_view(old(out)@) + scan_from(s@, line as int, 0),
{
    let s_len = s.unicode_len();
    let mut i: usize = 0;
    while i < s_len
        invariant
            s_len == s@.len(),
            i <= s_len,
            mentions_view(out@) + scan_from(s@, line as int, i as int) == mentions_view(old(out)@)
                + scan_from(s@, line as int, 0),
        decreases s_len - i,
    {
        match try_match_at(s, s_len, line, i) {
            Some((m, end)) => {
                proof {
                    assert(scan_from(s@, line as int, i as int) == seq![m@] + scan_from(
                        s@,
                        line as int,
                        end as int,
                    ));
                    assert(mentions_view(out@.push(m)) =~= mentions_view(out@).push(m@));
                    assert(mentions_view(out@).push(m@) + scan_from(s@, line as int, end as int)
                        =~= mentions_view(out@) + scan_from(s@, line as int, i as int));
                }
                out.push(m);
                i = end;
            },
            None => {
                proof {
                    assert(scan_from(s@, line as int, i as int) == scan_from(
                        s@,
                        line as int,
                        i + 1,
                    ));
                }
                i += 1;
            },
        }
    }
    proof {
        assert(scan_from(s@, line as int, i as int) =~= Seq::<MentionV>::empty());
        assert(mentions_view(out@) + scan_from(s@, line as int, i as int) =~= mentions_view(out@));
    }
}

/// Scans a whole file for user-profile mentions.
///
/// The result is a pure function of the lines alone: the mentions come in
/// line order, left to right within each line, usernames stripped of `*` and
/// `\`, with zero-based source positions.
pub fn scan_lines(lines: &Vec<String>) -> (r: Vec<UserMention>)
    ensures
        mentions_view(r@) == scan_spec(lines_seq(lines@)),
{
    let mut out: Vec<UserMention> = Vec::new();
    proof {
        assert(lines_seq(lines@.subrange(0, 0)) =~= Seq::<Seq<char>>::empty());
        assert(mentions_view(out@) =~= Seq::<MentionV>::empty());
    }
    let mut k: usize = 0;
    while k < lines.len()
        invariant
            k <= lines@.len(),
            mentions_view(out@) == scan_spec(lines_seq(lines@.subrange(0, k as int))),
        decreases lines@.len() - k,
    {
        scan_line(lines[k].as_str(), k, &mut out);
        proof {
            let pref = lines_seq(lines@.subrange(0, k + 1));
            assert(pref.drop_last() =~= lines_seq(lines@.subrange(0, k as int)));
            assert(pref.last() == lines@[k as int]@);
        }
        k += 1;
    }
    proof {
        assert(lines@.subrange(0, lines@.len() as int) =~= lines@);
    }
    out
}

/// Stripping markers twice is the same as stripping them once.
pub proof fn lemma_canonize_idempotent(s: Seq<char>)
    ensures
        canon(canon(s)) == canon(s),
    decreases s.len(),
{
    reveal(Seq::filter);
    if s.len() == 0 {
        assert(canon(s) =~= s);
    } else {
        lemma_canonize_idempotent(s.drop_last());
        lemma_canon_push(s.drop_last(), s.last());
        assert(s.drop_last().push(s.last()) =~= s);
        if keep_in_username(s.last()) {
            lemma_canon_push(canon(s.drop_last()), s.last());
        }
    }
}

} // verus!
