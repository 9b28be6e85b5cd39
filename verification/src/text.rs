//! Text handling for the canvas: whitespace classification, splitting on
//! line breaks, and length clipping.

use vstd::prelude::*;
use vstd::string::StrSliceExecFns;

verus! {

/// Whether `c` has the Unicode white-space property, as
/// `char::is_whitespace` decides it.
pub open spec fn is_blank_spec(c: char) -> bool {
    let u = c as u32;
    ||| u == 0x20
    ||| (0x09 <= u && u <= 0x0D)
    ||| u == 0x85
    ||| u == 0xA0
    ||| u == 0x1680
    ||| (0x2000 <= u && u <= 0x200A)
    ||| u == 0x2028
    ||| u == 0x2029
    ||| u == 0x202F
    ||| u == 0x205F
    ||| u == 0x3000
}

/// Whitespace test over code points.
pub fn is_blank(c: char) -> (r: bool)
    ensures
        r == is_blank_spec(c),
{
    let u = c as u32;
    u == 0x20 || (0x09 <= u && u <= 0x0D) || u == 0x85 || u == 0xA0 || u == 0x1680 || (0x2000 <= u
        && u <= 0x200A) || u == 0x2028 || u == 0x2029 || u == 0x202F || u == 0x205F || u == 0x3000
}

/// The index of the first line break in `s`, or `s.len()` if there is none.
pub open spec fn line_break_at(s: Seq<char>) -> int
    decreases s.len(),
{
    if s.len() == 0 {
        0
    } else if s[0] == '\n' {
        0
    } else {
        1 + line_break_at(s.skip(1))
    }
}

pub proof fn lemma_line_break_at(s: Seq<char>)
    ensures
        0 <= line_break_at(s) <= s.len(),
        forall|k: int| 0 <= k < line_break_at(s) ==> s[k] != '\n',
        line_break_at(s) < s.len() ==> s[line_break_at(s)] == '\n',
    decreases s.len(),
{
    if s.len() > 0 && s[0] != '\n' {
        lemma_line_break_at(s.skip(1));
        assert(forall|k: int| 1 <= k < line_break_at(s) ==> s[k] == s.skip(1)[k - 1]);
    }
}

/// The index of the first whitespace character in `s`, or `s.len()`.
pub open spec fn blank_break_at(s: Seq<char>) -> int
    decreases s.len(),
{
    if s.len() == 0 {
        0
    } else if is_blank_spec(s[0]) {
        0
    } else {
        1 + blank_break_at(s.skip(1))
    }
}

pub proof fn lemma_blank_break_at(s: Seq<char>)
    ensures
        0 <= blank_break_at(s) <= s.len(),
        forall|k: int| 0 <= k < blank_break_at(s) ==> !is_blank_spec(s[k]),
        blank_break_at(s) < s.len() ==> is_blank_spec(s[blank_break_at(s)]),
    decreases s.len(),
{
    if s.len() > 0 && !is_blank_spec(s[0]) {
        lemma_blank_break_at(s.skip(1));
        assert(forall|k: int| 1 <= k < blank_break_at(s) ==> s[k] == s.skip(1)[k - 1]);
    }
}

/// The index of the first non-whitespace character in `s`, or `s.len()`.
pub open spec fn nonblank_break_at(s: Seq<char>) -> int
    decreases s.len(),
{
    if s.len() == 0 {
        0
    } else if !is_blank_spec(s[0]) {
        0
    } else {
        1 + nonblank_break_at(s.skip(1))
    }
}

pub proof fn lemma_nonblank_break_at(s: Seq<char>)
    ensures
        0 <= nonblank_break_at(s) <= s.len(),
        forall|k: int| 0 <= k < nonblank_break_at(s) ==> is_blank_spec(s[k]),
        nonblank_break_at(s) < s.len() ==> !is_blank_spec(s[nonblank_break_at(s)]),
    decreases s.len(),
{
    if s.len() > 0 && is_blank_spec(s[0]) {
        lemma_nonblank_break_at(s.skip(1));
        assert(forall|k: int| 1 <= k < nonblank_break_at(s) ==> s[k] == s.skip(1)[k - 1]);
    }
}

/// `s` cut at every line break. The result always has at least one entry,
/// and none of its entries holds a line break.
pub open spec fn split_lines_spec(s: Seq<char>) -> Seq<Seq<char>>
    decreases s.len() via split_lines_spec_decreases
{
    let i = line_break_at(s);
    if i == s.len() {
        seq![s]
    } else {
        seq![s.take(i)] + split_lines_spec(s.skip(i + 1))
    }
}

#[via_fn]
proof fn split_lines_spec_decreases(s: Seq<char>) {
    lemma_line_break_at(s);
}

/// Splitting text that opens with one break-free line and its line break:
/// that line comes off the front.
pub proof fn lemma_split_prepend_line(line: Seq<char>, rest: Seq<char>)
    requires
        forall|k: int| 0 <= k < line.len() ==> line[k] != '\n',
    ensures
        split_lines_spec(line + seq!['\n'] + rest) == seq![line] + split_lines_spec(rest),
{
    let t = line + seq!['\n'] + rest;
    lemma_line_break_at(t);
    assert(t[line.len() as int] == '\n');
    assert(line_break_at(t) == line.len()) by {
        if line_break_at(t) < line.len() {
            assert(t[line_break_at(t)] == line[line_break_at(t)]);
        }
    }
    assert(t.take(line.len() as int) =~= line);
    assert(t.skip(line.len() as int + 1) =~= rest);
}

/// `l` cut down to at most `max` characters.
pub open spec fn clip_line(l: Seq<char>, max: int) -> Seq<char> {
    if l.len() <= max {
        l
    } else {
        l.take(max)
    }
}

/// `n` copies of `c` (none if `n` is negative).
pub open spec fn repeat_char(c: char, n: int) -> Seq<char> {
    Seq::new(if n >= 0 { n as nat } else { 0 }, |i: int| c)
}

/// A vector of `n` copies of `c`.
pub fn repeat_chars(c: char, n: usize) -> (r: Vec<char>)
    ensures
        r@ == repeat_char(c, n as int),
{
    let mut r: Vec<char> = Vec::new();
    let mut i: usize = 0;
    while i < n
        invariant
            i <= n,
            r@ =~= repeat_char(c, i as int),
        decreases n - i,
    {
        r.push(c);
        assert(r@ =~= repeat_char(c, i + 1));
        i += 1;
    }
    r
}

/// The sequences a vector of character vectors holds.
pub open spec fn lines_view(v: Seq<Vec<char>>) -> Seq<Seq<char>> {
    v.map_values(|l: Vec<char>| l@)
}

/// The characters of a string slice as a vector.
pub fn chars_of(s: &str) -> (r: Vec<char>)
    ensures
        r@ == s@,
{
    let len: usize = s.unicode_len();
    let mut r: Vec<char> = Vec::new();
    let mut i: usize = 0;
    while i < len
        invariant
            len == s@.len(),
            i <= len,
            r@ =~= s@.take(i as int),
        decreases len - i,
    {
        r.push(s.get_char(i));
        i += 1;
    }
    assert(s@.take(len as int) =~= s@);
    r
}

/// The characters of `v` from `from` (inclusive) to `to` (exclusive).
pub fn copy_range(v: &Vec<char>, from: usize, to: usize) -> (r: Vec<char>)
    requires
        from <= to <= v@.len(),
    ensures
        r@ == v@.subrange(from as int, to as int),
{
    let mut r: Vec<char> = Vec::new();
    let mut i: usize = from;
    while i < to
        invariant
            from <= i <= to <= v@.len(),
            r@ =~= v@.subrange(from as int, i as int),
        decreases to - i,
    {
        r.push(v[i]);
        assert(r@ =~= v@.subrange(from as int, i + 1));
        i += 1;
    }
    r
}

/// The index of the first line break in `v` at or after `from`, or the
/// length of `v` if there is none.
fn find_line_break(v: &Vec<char>, from: usize) -> (r: usize)
    requires
        from <= v@.len(),
    ensures
        from <= r <= v@.len(),
        forall|k: int| from <= k < r ==> v@[k] != '\n',
        r < v@.len() ==> v@[r as int] == '\n',
{
    let mut i: usize = from;
    while i < v.len()
        invariant
            from <= i <= v@.len(),
            forall|k: int| from <= k < i ==> v@[k] != '\n',
        decreases v@.len() - i,
    {
        if v[i] == '\n' {
            return i;
        }
        i += 1;
    }
    i
}

/// The index of the first whitespace character in `v` at or after `from`,
/// or the length of `v` if there is none.
pub fn find_blank(v: &Vec<char>, from: usize) -> (r: usize)
    requires
        from <= v@.len(),
    ensures
        from <= r <= v@.len(),
        forall|k: int| from <= k < r ==> !is_blank_spec(v@[k]),
        r < v@.len() ==> is_blank_spec(v@[r as int]),
{
    let mut i: usize = from;
    while i < v.len()
        invariant
            from <= i <= v@.len(),
            forall|k: int| from <= k < i ==> !is_blank_spec(v@[k]),
        decreases v@.len() - i,
    {
        if is_blank(v[i]) {
            return i;
        }
        i += 1;
    }
    i
}

/// The index of the first non-whitespace character in `v` at or after
/// `from`, or the length of `v` if there is none.
pub fn find_nonblank(v: &Vec<char>, from: usize) -> (r: usize)
    requires
        from <= v@.len(),
    ensures
        from <= r <= v@.len(),
        forall|k: int| from <= k < r ==> is_blank_spec(v@[k]),
        r < v@.len() ==> !is_blank_spec(v@[r as int]),
{
    let mut i: usize = from;
    while i < v.len()
        invariant
            from <= i <= v@.len(),
            forall|k: int| from <= k < i ==> is_blank_spec(v@[k]),
        decreases v@.len() - i,
    {
        if !is_blank(v[i]) {
            return i;
        }
        i += 1;
    }
    i
}

/// `content` cut at every line break, as [`split_lines_spec`] describes.
pub fn split_lines(content: &Vec<char>) -> (r: Vec<Vec<char>>)
    ensures
        lines_view(r@) == split_lines_spec(content@),
{
    let mut lines: Vec<Vec<char>> = Vec::new();
    let mut pos: usize = 0;
    let mut done: bool = false;
    proof {
        assert(content@.skip(0) =~= content@);
        assert(lines_view(lines@) + split_lines_spec(content@) =~= split_lines_spec(content@));
    }
    while !done
        invariant
            pos <= content@.len(),
            !done ==> split_lines_spec(content@) == lines_view(lines@) + split_lines_spec(
                content@.skip(pos as int),
            ),
            done ==> split_lines_spec(content@) == lines_view(lines@),
        decreases content@.len() - pos + (if done { 0int } else { 1int }),
    {
        let ghost rest = content@.skip(pos as int);
        let j = find_line_break(content, pos);
        proof {
            lemma_line_break_at(rest);
            assert(forall|k: int| 0 <= k < rest.len() ==> rest[k] == content@[pos + k]);
            assert(line_break_at(rest) == j - pos) by {
                if line_break_at(rest) < j - pos {
                    assert(content@[pos + line_break_at(rest)] != '\n');
                } else if j - pos < line_break_at(rest) {
                    assert(j < content@.len());
                    assert(rest[j - pos] == '\n');
                }
            }
        }
        if j < content.len() {
            let line = copy_range(content, pos, j);
            proof {
                assert(rest.take(j - pos) =~= content@.subrange(pos as int, j as int));
                assert(rest.skip(j - pos + 1) =~= content@.skip(j + 1));
                assert(lines_view(lines@.push(line)) =~= lines_view(lines@).push(line@));
                assert(lines_view(lines@).push(line@) + split_lines_spec(content@.skip(j + 1))
                    =~= lines_view(lines@) + (seq![line@] + split_lines_spec(
                    content@.skip(j + 1),
                )));
            }
            lines.push(line);
            pos = j + 1;
        } else {
            let line = copy_range(content, pos, content.len());
            proof {
                assert(rest =~= content@.subrange(pos as int, content@.len() as int));
                assert(lines_view(lines@.push(line)) =~= lines_view(lines@).push(line@));
                assert(lines_view(lines@).push(line@) =~= lines_view(lines@) + seq![line@]);
            }
            lines.push(line);
            done = true;
        }
    }
    lines
}

} // verus!
