//! Outline extraction: the ATX (`# title`) and Setext (title underlined with
//! `===` or `---`) headings of a Markdown text, skipping fenced code blocks.

use vstd::prelude::*;

use crate::text::{
    all_chars, chars_of, is_white_space, lemma_lines_after_newline, lemma_trim_ends, leading_count, spec_lines, split_lines, string_of, trim,
    trim_end_at, trim_end_matches, trim_end_matches_at, trim_start_at,
    views,
};

verus! {

/// One entry of a document's outline: a heading found in its Markdown text.
#[derive(Clone, Debug)]
pub struct Heading {
    pub level: u8,
    pub text: String,
    /// 0-based line number, where the editor jumps to.
    pub line: u32,
}

/// A heading as a mathematical value.
pub struct HeadingView {
    pub level: u8,
    pub text: Seq<char>,
    pub line: u32,
}

impl View for Heading {
    type V = HeadingView;

    open spec fn view(&self) -> HeadingView {
        HeadingView { level: self.level, text: self.text@, line: self.line }
    }
}

/// The views of a list of headings.
pub open spec fn heading_views(v: Seq<Heading>) -> Seq<HeadingView> {
    v.map_values(|h: Heading| h@)
}

/// The fence char that a line opens or closes a fenced code block with:
/// after at most three leading spaces it starts with three backticks or
/// three tildes.
pub open spec fn fence_char(line: Seq<char>) -> Option<char> {
    let n = leading_count(line, ' ');
    let t = line.skip(n as int);
    if n > 3 {
        None
    } else if t.len() >= 3 && t[0] == '`' && t[1] == '`' && t[2] == '`' {
        Some('`')
    } else if t.len() >= 3 && t[0] == '~' && t[1] == '~' && t[2] == '~' {
        Some('~')
    } else {
        None
    }
}

/// The level and text of an ATX heading line: one to six `#` at the very
/// start, then a space or the end of the line; the text is what follows,
/// trimmed, without a closing run of `#`, trimmed again, and not empty.
pub open spec fn atx_heading_of(line: Seq<char>) -> Option<(u8, Seq<char>)> {
    let n = leading_count(line, '#');
    let rest = line.skip(n as int);
    let text = trim(trim_end_matches(trim(rest), '#'));
    if n < 1 || n > 6 {
        None
    } else if rest.len() > 0 && rest[0] != ' ' {
        None
    } else if text.len() == 0 {
        None
    } else {
        Some((n as u8, text))
    }
}

/// The level that a Setext underline gives the line above it: 1 for a line
/// of `=` only, 2 for a line of `-` only (surrounding white space aside).
pub open spec fn setext_level_of(line: Seq<char>) -> Option<u8> {
    let t = trim(line);
    if t.len() == 0 {
        None
    } else if all_chars(t, '=') {
        Some(1)
    } else if all_chars(t, '-') {
        Some(2)
    } else {
        None
    }
}

/// The fence state after a fence line with char `f`: it opens a block when
/// none is open, closes the open block when its char matches, and is
/// ignored inside a block of the other char.
pub open spec fn next_fence(state: Option<char>, f: char) -> Option<char> {
    match state {
        Some(g) => if g == f {
            None
        } else {
            state
        },
        None => Some(f),
    }
}

/// The 0-based line index `i` as the `u32` that `as u32` gives: it wraps
/// around past 2^32 lines.
pub open spec fn line_number(i: int) -> u32 {
    (i % 0x1_0000_0000) as u32
}

/// The line number after `n`, wrapping around as `u32::wrapping_add` does.
pub open spec fn wrapping_next(n: u32) -> u32 {
    ((n as int + 1) % 0x1_0000_0000) as u32
}

/// The line number of the 0-based line index `i`, as `i as u32` gives it.
fn line_of(i: usize) -> (r: u32)
    ensures
        r == line_number(i as int),
{
    assert((i as u32) as u64 == (i as u64) % 0x1_0000_0000) by (bit_vector);
    i as u32
}

/// The headings found from line `i` on, with `fence` the fenced block open
/// before line `i`.
pub open spec fn headings_from(lines: Seq<Seq<char>>, i: int, fence: Option<char>) -> Seq<
    HeadingView,
>
    decreases lines.len() - i,
{
    if i < 0 || i >= lines.len() {
        seq![]
    } else {
        let line = lines[i];
        match fence_char(line) {
            Some(f) => headings_from(lines, i + 1, next_fence(fence, f)),
            None => if fence is Some {
                headings_from(lines, i + 1, fence)
            } else {
                match atx_heading_of(line) {
                    Some(p) => seq![HeadingView { level: p.0, text: p.1, line: line_number(i) }]
                        + headings_from(lines, i + 1, None),
                    None => if trim(line).len() > 0 && i + 1 < lines.len() {
                        match setext_level_of(lines[i + 1]) {
                            Some(level) => seq![
                                HeadingView { level: level, text: trim(line), line: line_number(i) },
                            ] + headings_from(lines, i + 2, None),
                            None => headings_from(lines, i + 1, None),
                        }
                    } else {
                        headings_from(lines, i + 1, None)
                    },
                }
            },
        }
    }
}

/// The outline of a Markdown text.
pub open spec fn spec_extract_headings(src: Seq<char>) -> Seq<HeadingView> {
    headings_from(spec_lines(src), 0, None)
}

/// The view of an optional (level, text) pair.
pub open spec fn atx_view(r: Option<(u8, String)>) -> Option<(u8, Seq<char>)> {
    match r {
        Some(p) => Some((p.0, p.1@)),
        None => None,
    }
}

/// Whether every char of `cs[lo..hi]` is `c`.
fn all_eq(cs: &Vec<char>, lo: usize, hi: usize, c: char) -> (r: bool)
    requires
        lo <= hi <= cs@.len(),
    ensures
        r == all_chars(cs@.subrange(lo as int, hi as int), c),
{
    let mut i = lo;
    while i < hi
        invariant
            lo <= i <= hi <= cs@.len(),
            forall|k: int| lo <= k < i ==> cs@[k] == c,
        decreases hi - i,
    {
        if cs[i] != c {
            assert(cs@.subrange(lo as int, hi as int)[i - lo] != c);
            return false;
        }
        i += 1;
    }
    true
}

/// Recognises a fence line (three backticks or three tildes after at most
/// three leading spaces) and returns its fence char.
pub fn fence_open(line: &str) -> (r: Option<char>)
    ensures
        r == fence_char(line@),
{
    let cs = chars_of(line);
    let n = cs.len();
    let a = count_leading(&cs, ' ');
    let ghost t = line@.skip(a as int);
    assert(t =~= cs@.subrange(a as int, n as int));
    if a > 3 {
        None
    } else if n - a >= 3 && cs[a] == '`' && cs[a + 1] == '`' && cs[a + 2] == '`' {
        Some('`')
    } else if n - a >= 3 && cs[a] == '~' && cs[a + 1] == '~' && cs[a + 2] == '~' {
        Some('~')
    } else {
        None
    }
}

/// The number of `c` at the start of `cs`.
fn count_leading(cs: &Vec<char>, c: char) -> (h: usize)
    ensures
        h == leading_count(cs@, c),
        h <= cs@.len(),
{
    let n = cs.len();
    let mut h: usize = 0;
    assert(cs@.subrange(0, n as int) =~= cs@);
    while h < n && cs[h] == c
        invariant
            h <= n == cs@.len(),
            leading_count(cs@, c) == h + leading_count(cs@.subrange(h as int, n as int), c),
        decreases n - h,
    {
        assert(cs@.subrange(h as int, n as int).drop_first() =~= cs@.subrange(h + 1, n as int));
        h += 1;
    }
    h
}

/// Recognises an ATX heading line and returns its level and text.
pub fn atx_heading(line: &str) -> (r: Option<(u8, String)>)
    ensures
        atx_view(r) == atx_heading_of(line@),
{
    let cs = chars_of(line);
    let n = cs.len();
    let h = count_leading(&cs, '#');
    let ghost rest = line@.skip(h as int);
    assert(rest =~= cs@.subrange(h as int, n as int));
    if h < 1 || h > 6 {
        return None;
    }
    if h < n && cs[h] != ' ' {
        return None;
    }
    let a = trim_start_at(&cs, h, n);
    let b = trim_end_at(&cs, a, n);
    assert(cs@.subrange(a as int, b as int) == trim(rest));
    let b2 = trim_end_matches_at(&cs, a, b, '#');
    let a3 = trim_start_at(&cs, a, b2);
    let b3 = trim_end_at(&cs, a3, b2);
    assert(cs@.subrange(a3 as int, b3 as int) == trim(trim_end_matches(trim(rest), '#')));
    if a3 == b3 {
        return None;
    }
    let text = string_of(&cs, a3, b3);
    Some((h as u8, text))
}

/// The characters of `line` with the bounds of its trimmed part.
fn trim_bounds(line: &str) -> (r: (Vec<char>, usize, usize))
    ensures
        r.0@ == line@,
        r.1 <= r.2 <= r.0@.len(),
        r.0@.subrange(r.1 as int, r.2 as int) == trim(line@),
{
    let cs = chars_of(line);
    let n = cs.len();
    assert(cs@.subrange(0, n as int) =~= line@);
    let a = trim_start_at(&cs, 0, n);
    let b = trim_end_at(&cs, a, n);
    assert(cs@.subrange(a as int, b as int) == trim(line@));
    (cs, a, b)
}

/// Recognises a Setext underline and returns the heading level it gives.
pub fn setext_level(line: &str) -> (r: Option<u8>)
    ensures
        r == setext_level_of(line@),
{
    let (cs, a, b) = trim_bounds(line);
    if a == b {
        None
    } else if all_eq(&cs, a, b, '=') {
        Some(1)
    } else if all_eq(&cs, a, b, '-') {
        Some(2)
    } else {
        None
    }
}

/// Whether a line is empty once trimmed.
fn is_blank(line: &str) -> (r: bool)
    ensures
        r == (trim(line@).len() == 0),
{
    let (_cs, a, b) = trim_bounds(line);
    a == b
}

/// `line` trimmed, as a `String`.
fn trimmed(line: &str) -> (r: String)
    ensures
        r@ == trim(line@),
{
    let (cs, a, b) = trim_bounds(line);
    string_of(&cs, a, b)
}

/// Extracts the outline of a Markdown text: its ATX and Setext headings in
/// order, each with its level, trimmed text and 0-based line number; lines
/// inside a fenced code block (``` or ~~~) are skipped, and a Setext
/// underline is not read again as a line of its own.
pub fn extract_headings(src: &str) -> (headings: Vec<Heading>)
    ensures
        heading_views(headings@) == spec_extract_headings(src@),
{
    let lines = split_lines(src);
    let ghost ls = spec_lines(src@);
    let n = lines.len();
    let mut headings: Vec<Heading> = Vec::new();
    let mut in_fence: Option<char> = None;
    let mut i: usize = 0;
    while i < n
        invariant
            n == lines@.len() == ls.len(),
            views(lines@) == ls,
            i <= n,
            spec_extract_headings(src@) == heading_views(headings@) + headings_from(
                ls,
                i as int,
                in_fence,
            ),
        decreases n - i,
    {
        let line = lines[i].as_str();
        assert(line@ == ls[i as int]);
        let ghost before = headings@;
        if let Some(fence) = fence_open(line) {
            in_fence = match in_fence {
                Some(f) => if f == fence {
                    None
                } else {
                    in_fence
                },
                None => Some(fence),
            };
            i += 1;
        } else if in_fence.is_some() {
            i += 1;
        } else if let Some((level, text)) = atx_heading(line) {
            let h = Heading { level, text, line: line_of(i) };
            headings.push(h);
            assert(heading_views(headings@) =~= heading_views(before).push(h@));
            assert(heading_views(headings@) + headings_from(ls, i + 1, None) =~= heading_views(
                before,
            ) + headings_from(ls, i as int, None));
            i += 1;
        } else if !is_blank(line) && i + 1 < n {
            assert(lines[i + 1]@ == ls[i + 1]);
            if let Some(level) = setext_level(lines[i + 1].as_str()) {
                let h = Heading { level, text: trimmed(line), line: line_of(i) };
                headings.push(h);
                assert(heading_views(headings@) =~= heading_views(before).push(h@));
                assert(heading_views(headings@) + headings_from(ls, i + 2, None)
                    =~= heading_views(before) + headings_from(ls, i as int, None));
                i += 2;
            } else {
                i += 1;
            }
        } else {
            i += 1;
        }
    }
    assert(heading_views(headings@) + headings_from(ls, i as int, in_fence) =~= heading_views(
        headings@,
    ));
    headings
}

/// The shape of every heading: a level from 1 to 6 and a text that is not
/// empty and neither starts nor ends with white space.
pub open spec fn well_shaped(h: HeadingView) -> bool {
    &&& 1 <= h.level <= 6
    &&& h.text.len() > 0
    &&& !is_white_space(h.text[0])
    &&& !is_white_space(h.text.last())
}

proof fn lemma_headings_from_shaped(lines: Seq<Seq<char>>, i: int, fence: Option<char>)
    ensures
        forall|k: int|
            0 <= k < headings_from(lines, i, fence).len() ==> well_shaped(
                #[trigger] headings_from(lines, i, fence)[k],
            ),
    decreases lines.len() - i,
{
    if 0 <= i < lines.len() {
        let line = lines[i];
        match fence_char(line) {
            Some(f) => {
                lemma_headings_from_shaped(lines, i + 1, next_fence(fence, f));
                assert(headings_from(lines, i, fence) == headings_from(lines, i + 1, next_fence(fence, f)));
            },
            None => if fence is Some {
                lemma_headings_from_shaped(lines, i + 1, fence);
                assert(headings_from(lines, i, fence) == headings_from(lines, i + 1, fence));
            } else {
                match atx_heading_of(line) {
                    Some(p) => {
                        lemma_headings_from_shaped(lines, i + 1, None);
                        lemma_trim_ends(
                            trim_end_matches(trim(line.skip(leading_count(line, '#') as int)), '#'),
                        );
                        let h = HeadingView { level: p.0, text: p.1, line: line_number(i) };
                        let rest = headings_from(lines, i + 1, None);
                        assert(headings_from(lines, i, fence) == seq![h] + rest);
                        assert(well_shaped(h));
                        assert forall|k: int| 0 <= k < (seq![h] + rest).len() implies well_shaped(
                            #[trigger] (seq![h] + rest)[k],
                        ) by {
                            if k > 0 {
                                assert((seq![h] + rest)[k] == rest[k - 1]);
                            }
                        }
                    },
                    None => if trim(line).len() > 0 && i + 1 < lines.len() {
                        match setext_level_of(lines[i + 1]) {
                            Some(level) => {
                                lemma_headings_from_shaped(lines, i + 2, None);
                                lemma_trim_ends(line);
                                let h = HeadingView { level: level, text: trim(line), line: line_number(i) };
                                let rest = headings_from(lines, i + 2, None);
                                assert(headings_from(lines, i, fence) == seq![h] + rest);
                                assert(well_shaped(h));
                                assert forall|k: int| 0 <= k < (seq![h] + rest).len() implies well_shaped(
                                    #[trigger] (seq![h] + rest)[k],
                                ) by {
                                    if k > 0 {
                                        assert((seq![h] + rest)[k] == rest[k - 1]);
                                    }
                                }
                            },
                            None => {
                                lemma_headings_from_shaped(lines, i + 1, None);
                                assert(headings_from(lines, i, fence) == headings_from(lines, i + 1, None));
                            },
                        }
                    } else {
                        lemma_headings_from_shaped(lines, i + 1, None);
                        assert(headings_from(lines, i, fence) == headings_from(lines, i + 1, None));
                    },
                }
            },
        }
    }
}

/// Every heading of an outline has a level from 1 to 6 and a non-empty text
/// with no white space at either end.
pub proof fn lemma_outline_shape(src: Seq<char>)
    ensures
        forall|k: int|
            0 <= k < spec_extract_headings(src).len() ==> well_shaped(
                #[trigger] spec_extract_headings(src)[k],
            ),
{
    lemma_headings_from_shaped(spec_lines(src), 0, None);
}

proof fn lemma_prepend_lines(h: HeadingView, rest: Seq<HeadingView>, i: int, n: int)
    requires
        h.line == i,
        i < n,
        forall|k: int| 0 <= k < rest.len() ==> i < (#[trigger] rest[k]).line < n,
        forall|k: int, m: int| 0 <= k < m < rest.len() ==> (#[trigger] rest[k]).line < (#[trigger] rest[m]).line,
    ensures
        forall|k: int| 0 <= k < (seq![h] + rest).len() ==> i <= (#[trigger] (seq![h] + rest)[k]).line < n,
        forall|k: int, m: int|
            0 <= k < m < (seq![h] + rest).len() ==> (#[trigger] (seq![h] + rest)[k]).line < (#[trigger] (seq![h] + rest)[m]).line,
{
    let s = seq![h] + rest;
    assert forall|k: int| 0 <= k < s.len() implies i <= (#[trigger] s[k]).line < n by {
        if k > 0 {
            assert(s[k] == rest[k - 1]);
        }
    }
    assert forall|k: int, m: int| 0 <= k < m < s.len() implies (#[trigger] s[k]).line < (#[trigger] s[m]).line by {
        assert(s[m] == rest[m - 1]);
        if k > 0 {
            assert(s[k] == rest[k - 1]);
        }
    }
}

proof fn lemma_headings_from_lines(lines: Seq<Seq<char>>, i: int, fence: Option<char>)
    requires
        0 <= i,
        lines.len() <= 0x1_0000_0000,
    ensures
        forall|k: int|
            0 <= k < headings_from(lines, i, fence).len() ==> i <= (
            #[trigger] headings_from(lines, i, fence)[k]).line < lines.len(),
        forall|k: int, m: int|
            0 <= k < m < headings_from(lines, i, fence).len() ==> (#[trigger] headings_from(
                lines,
                i,
                fence,
            )[k]).line < (#[trigger] headings_from(lines, i, fence)[m]).line,
    decreases lines.len() - i,
{
    if i < lines.len() {
        let line = lines[i];
        assert(line_number(i) == i) by {
            vstd::arithmetic::div_mod::lemma_small_mod(i as nat, 0x1_0000_0000);
        }
        match fence_char(line) {
            Some(f) => {
                lemma_headings_from_lines(lines, i + 1, next_fence(fence, f));
                assert(headings_from(lines, i, fence) == headings_from(lines, i + 1, next_fence(fence, f)));
            },
            None => if fence is Some {
                lemma_headings_from_lines(lines, i + 1, fence);
                assert(headings_from(lines, i, fence) == headings_from(lines, i + 1, fence));
            } else {
                match atx_heading_of(line) {
                    Some(p) => {
                        lemma_headings_from_lines(lines, i + 1, None);
                        let rest = headings_from(lines, i + 1, None);
                        let h = HeadingView { level: p.0, text: p.1, line: line_number(i) };
                        assert(headings_from(lines, i, fence) == seq![h] + rest);
                        lemma_prepend_lines(h, rest, i, lines.len() as int);
                    },
                    None => if trim(line).len() > 0 && i + 1 < lines.len() {
                        match setext_level_of(lines[i + 1]) {
                            Some(level) => {
                                lemma_headings_from_lines(lines, i + 2, None);
                                let rest = headings_from(lines, i + 2, None);
                                let h = HeadingView { level: level, text: trim(line), line: line_number(i) };
                                assert(headings_from(lines, i, fence) == seq![h] + rest);
                                lemma_prepend_lines(h, rest, i, lines.len() as int);
                            },
                            None => {
                                lemma_headings_from_lines(lines, i + 1, None);
                                assert(headings_from(lines, i, fence) == headings_from(lines, i + 1, None));
                            },
                        }
                    } else {
                        lemma_headings_from_lines(lines, i + 1, None);
                        assert(headings_from(lines, i, fence) == headings_from(lines, i + 1, None));
                    },
                }
            },
        }
    }
}

/// The headings of an outline come in the order of their lines, each on a
/// line of the text (for texts of at most 2^32 lines, whose line numbers fit
/// in a `u32`).
pub proof fn lemma_outline_in_line_order(src: Seq<char>)
    requires
        spec_lines(src).len() <= 0x1_0000_0000,
    ensures
        forall|k: int|
            0 <= k < spec_extract_headings(src).len() ==> (
            #[trigger] spec_extract_headings(src)[k]).line < spec_lines(src).len(),
        forall|k: int, m: int|
            0 <= k < m < spec_extract_headings(src).len() ==> (
            #[trigger] spec_extract_headings(src)[k]).line < (
            #[trigger] spec_extract_headings(src)[m]).line,
{
    lemma_headings_from_lines(spec_lines(src), 0, None);
}

/// Inside a fenced code block, lines give no headings: from a line inside a
/// block opened with `f`, the outline continues as from the first line that
/// could close it.
pub proof fn lemma_fenced_lines_hidden(lines: Seq<Seq<char>>, i: int, j: int, f: char)
    requires
        0 <= i <= j <= lines.len(),
        forall|k: int| i <= k < j ==> fence_char(#[trigger] lines[k]) != Some(f),
    ensures
        headings_from(lines, i, Some(f)) == headings_from(lines, j, Some(f)),
    decreases j - i,
{
    if i < j {
        lemma_fenced_lines_hidden(lines, i + 1, j, f);
        assert(fence_char(lines[i]) != Some(f));
    }
}

/// A fence line of backticks or of tildes outside any code block opens a
/// block: no line from it up to the first line that could close the block
/// is a heading, so every heading from there on lies at or after that line
/// (for texts of at most 2^32 lines, whose line numbers fit in a `u32`).
pub proof fn lemma_fence_opens_block(lines: Seq<Seq<char>>, i: int, j: int, f: char)
    requires
        f == '`' || f == '~',
        0 <= i < j <= lines.len(),
        lines.len() <= 0x1_0000_0000,
        lines[i].len() >= 3,
        lines[i][0] == f,
        lines[i][1] == f,
        lines[i][2] == f,
        forall|k: int| i < k < j ==> fence_char(#[trigger] lines[k]) != Some(f),
    ensures
        forall|k: int|
            0 <= k < headings_from(lines, i, None).len() ==> j <= (
            #[trigger] headings_from(lines, i, None)[k]).line,
{
    let line = lines[i];
    assert(leading_count(line, ' ') == 0);
    assert(line.skip(0) =~= line);
    assert(fence_char(line) == Some(f));
    assert(headings_from(lines, i, None) == headings_from(lines, i + 1, Some(f)));
    lemma_fenced_lines_hidden(lines, i + 1, j, f);
    lemma_headings_from_lines(lines, j, Some(f));
}

/// A text whose first line is a fence of backticks or tildes has no heading
/// before the first line that could close that block (for texts of at most
/// 2^32 lines).
pub proof fn lemma_leading_fence_hides(src: Seq<char>, j: int, f: char)
    requires
        f == '`' || f == '~',
        0 < j <= spec_lines(src).len(),
        spec_lines(src).len() <= 0x1_0000_0000,
        spec_lines(src)[0].len() >= 3,
        spec_lines(src)[0][0] == f,
        spec_lines(src)[0][1] == f,
        spec_lines(src)[0][2] == f,
        forall|k: int| 0 < k < j ==> fence_char(#[trigger] spec_lines(src)[k]) != Some(f),
    ensures
        forall|k: int|
            0 <= k < spec_extract_headings(src).len() ==> j <= (
            #[trigger] spec_extract_headings(src)[k]).line,
{
    lemma_fence_opens_block(spec_lines(src), 0, j, f);
}

/// The headings with every line number one higher (wrapping as `u32` does).
pub open spec fn shift_down(hs: Seq<HeadingView>) -> Seq<HeadingView> {
    hs.map_values(|h: HeadingView| HeadingView { line: wrapping_next(h.line), ..h })
}

proof fn lemma_shift_prepend(h: HeadingView, rest: Seq<HeadingView>)
    ensures
        shift_down(seq![h] + rest) == seq![HeadingView { line: wrapping_next(h.line), ..h }]
            + shift_down(rest),
{
    assert(shift_down(seq![h] + rest) =~= seq![HeadingView { line: wrapping_next(h.line), ..h }]
        + shift_down(rest));
}

proof fn lemma_line_number_next(i: int)
    requires
        0 <= i,
    ensures
        line_number(i + 1) == wrapping_next(line_number(i)),
{
    assert((i + 1) % 0x1_0000_0000 == ((i % 0x1_0000_0000) + 1) % 0x1_0000_0000) by (nonlinear_arith);
}

proof fn lemma_headings_shift(lines: Seq<Seq<char>>, i: int, fence: Option<char>)
    requires
        0 <= i,
    ensures
        headings_from(seq![Seq::<char>::empty()] + lines, i + 1, fence) == shift_down(
            headings_from(lines, i, fence),
        ),
    decreases lines.len() - i,
{
    let l2 = seq![Seq::<char>::empty()] + lines;
    if i >= lines.len() {
        assert(shift_down(Seq::<HeadingView>::empty()) =~= Seq::<HeadingView>::empty());
    } else {
        let line = lines[i];
        assert(l2[i + 1] == line);
        lemma_line_number_next(i);
        match fence_char(line) {
            Some(f) => lemma_headings_shift(lines, i + 1, next_fence(fence, f)),
            None => if fence is Some {
                lemma_headings_shift(lines, i + 1, fence);
            } else {
                match atx_heading_of(line) {
                    Some(p) => {
                        lemma_headings_shift(lines, i + 1, None);
                        let h = HeadingView { level: p.0, text: p.1, line: line_number(i) };
                        lemma_shift_prepend(h, headings_from(lines, i + 1, None));
                    },
                    None => if trim(line).len() > 0 && i + 1 < lines.len() {
                        assert(l2[i + 2] == lines[i + 1]);
                        match setext_level_of(lines[i + 1]) {
                            Some(level) => {
                                lemma_headings_shift(lines, i + 2, None);
                                let h = HeadingView { level: level, text: trim(line), line: line_number(i) };
                                lemma_shift_prepend(h, headings_from(lines, i + 2, None));
                            },
                            None => lemma_headings_shift(lines, i + 1, None),
                        }
                    } else {
                        lemma_headings_shift(lines, i + 1, None);
                    },
                }
            },
        }
    }
}

/// A line break put in front of a text moves every heading of its outline
/// down one line and changes nothing else; line numbers are `u32`s and wrap
/// as `u32::wrapping_add` does.
pub proof fn lemma_leading_newline_shifts(src: Seq<char>)
    ensures
        spec_extract_headings(seq!['\n'] + src) == shift_down(spec_extract_headings(src)),
{
    let lines = spec_lines(src);
    let l2 = seq![Seq::<char>::empty()] + lines;
    lemma_lines_after_newline(src);
    let empty = Seq::<char>::empty();
    assert(l2[0] == empty);
    assert(leading_count(empty, ' ') == 0);
    assert(leading_count(empty, '#') == 0);
    assert(trim(empty) =~= empty);
    assert(headings_from(l2, 0, None) == headings_from(l2, 1, None));
    lemma_headings_shift(lines, 0, None);
}

} // verus!
