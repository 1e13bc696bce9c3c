use vstd::prelude::*;

use crate::chars::{copy_range, str_to_chars};
use crate::error::Error;
use crate::plain_english::{is_space_char, space_char};

verus! {

/// A dictionary base form together with its affix-flag set, as read
/// from the word list. Consumed once by the expansion engine.
#[derive(Clone, Debug, PartialEq, Eq)]
pub struct MarkedWord {
    pub word: Vec<char>,
    pub flags: Vec<char>,
}

/// The pairs (word characters, flag characters) that a marked-word
/// sequence denotes.
pub open spec fn marked_view(s: Seq<MarkedWord>) -> Seq<(Seq<char>, Seq<char>)>
    decreases s.len(),
{
    if s.len() == 0 {
        Seq::empty()
    } else {
        marked_view(s.drop_last()) + seq![(s.last().word@, s.last().flags@)]
    }
}

/// The index of the newline ending the line that starts at `i`, or
/// the end of the text.
pub open spec fn line_end(s: Seq<char>, i: int) -> int
    decreases s.len() - i,
{
    if i < 0 || i >= s.len() {
        s.len() as int
    } else if s[i] == '\n' {
        i
    } else {
        line_end(s, i + 1)
    }
}

proof fn lemma_line_end_bounds(s: Seq<char>, i: int)
    requires
        0 <= i <= s.len(),
    ensures
        i <= line_end(s, i) <= s.len(),
    decreases s.len() - i,
{
    if i < s.len() && s[i] != '\n' {
        lemma_line_end_bounds(s, i + 1);
    }
}

/// If no newline stands in `[i, j)`, the scans from `i` and `j` agree.
proof fn lemma_line_end_skip(s: Seq<char>, i: int, j: int)
    requires
        0 <= i <= j,
        j <= s.len(),
        forall|m: int| i <= m < j ==> (#[trigger] s[m]) != '\n',
    ensures
        line_end(s, i) == line_end(s, j),
    decreases j - i,
{
    if i < j {
        assert(s[i] != '\n');
        lemma_line_end_skip(s, i + 1, j);
    }
}

/// The text split at newlines, from position `i` on. A trailing
/// newline contributes no final empty line.
pub open spec fn lines_from(s: Seq<char>, i: int) -> Seq<Seq<char>>
    decreases s.len() - i + 1,
    via lines_from_decreases
{
    if i < 0 || i >= s.len() {
        Seq::empty()
    } else {
        seq![s.subrange(i, line_end(s, i))] + lines_from(s, line_end(s, i) + 1)
    }
}

#[via_fn]
proof fn lines_from_decreases(s: Seq<char>, i: int) {
    if 0 <= i < s.len() {
        lemma_line_end_bounds(s, i);
    }
}

/// The lines of the whole text.
pub open spec fn spec_lines(s: Seq<char>) -> Seq<Seq<char>> {
    lines_from(s, 0)
}

/// The index of the first non-blank character at or after `i`.
pub open spec fn first_solid(s: Seq<char>, i: int) -> int
    decreases s.len() - i,
{
    if i < 0 || i >= s.len() {
        s.len() as int
    } else if is_space_char(s[i]) {
        first_solid(s, i + 1)
    } else {
        i
    }
}

/// The index after the last non-blank character before `i`.
pub open spec fn last_solid(s: Seq<char>, i: int) -> int
    decreases i,
{
    if i <= 0 || i > s.len() {
        0
    } else if is_space_char(s[i - 1]) {
        last_solid(s, i - 1)
    } else {
        i
    }
}

/// The line with surrounding blank characters removed.
pub open spec fn trim(s: Seq<char>) -> Seq<char> {
    let a = first_solid(s, 0);
    let b = last_solid(s, s.len() as int);
    if a <= b {
        s.subrange(a, b)
    } else {
        Seq::empty()
    }
}

/// The index of the first flag separator, or the end of the line.
pub open spec fn slash_pos(s: Seq<char>, i: int) -> int
    decreases s.len() - i,
{
    if i < 0 || i >= s.len() {
        s.len() as int
    } else if s[i] == '/' {
        i
    } else {
        slash_pos(s, i + 1)
    }
}

/// Whether the count line is a decimal number.
pub open spec fn all_digits(s: Seq<char>) -> bool {
    s.len() > 0 && forall|k: int| 0 <= k < s.len() ==> '0' <= #[trigger] s[k] <= '9'
}

/// One trimmed, non-blank line read as a marked word: the characters
/// before the first `/` are the word, those after it the flags.
pub open spec fn spec_entry(t: Seq<char>) -> Option<(Seq<char>, Seq<char>)> {
    let sp = slash_pos(t, 0);
    if sp == 0 {
        None
    } else {
        Some(
            (
                t.subrange(0, sp),
                if sp < t.len() {
                    t.subrange(sp + 1, t.len() as int)
                } else {
                    Seq::empty()
                },
            ),
        )
    }
}

/// The marked words of the lines after the count line. Blank lines
/// are tolerated; a line whose word is empty fails with its 1-based
/// line number.
pub open spec fn spec_entries(lines: Seq<Seq<char>>, lineno: int) -> Result<
    Seq<(Seq<char>, Seq<char>)>,
    int,
>
    decreases lines.len(),
{
    if lines.len() == 0 {
        Ok(Seq::empty())
    } else {
        let t = trim(lines.first());
        let rest = spec_entries(lines.drop_first(), lineno + 1);
        if t.len() == 0 {
            rest
        } else {
            match spec_entry(t) {
                None => Err(lineno),
                Some(e) => match rest {
                    Ok(es) => Ok(seq![e] + es),
                    Err(l) => Err(l),
                },
            }
        }
    }
}

/// What the word-list reader returns: the first line must be a decimal
/// count (informational only: a mismatch with the actual number of
/// lines is tolerated), and each later non-blank line one entry.
pub open spec fn spec_parse_word_list(s: Seq<char>) -> Result<Seq<(Seq<char>, Seq<char>)>, Error> {
    let lines = spec_lines(s);
    if lines.len() == 0 || !all_digits(trim(lines.first())) {
        Err(Error::MalformedCount)
    } else {
        match spec_entries(lines.drop_first(), 2) {
            Ok(es) => Ok(es),
            Err(l) => Err(Error::MalformedWord { line: l as usize }),
        }
    }
}

/// The lines of the text, split at newline characters.
#[verifier::loop_isolation(false)]
fn split_lines(cs: &Vec<char>) -> (r: Vec<Vec<char>>)
    requires
        cs@.len() < usize::MAX,
    ensures
        r@.len() == spec_lines(cs@).len(),
        forall|k: int| 0 <= k < r@.len() ==> (#[trigger] r@[k])@ == spec_lines(cs@)[k],
{
    let n = cs.len();
    let mut out: Vec<Vec<char>> = Vec::new();
    let mut i: usize = 0;
    while i < n
        invariant
            i <= n + 1,
            lines_from(cs@, 0).len() == out@.len() + lines_from(cs@, i as int).len(),
            forall|k: int|
                0 <= k < out@.len() ==> (#[trigger] out@[k])@ == lines_from(cs@, 0)[k],
            forall|k: int|
                0 <= k < lines_from(cs@, i as int).len() ==> lines_from(cs@, i as int)[k]
                    == lines_from(cs@, 0)[out@.len() + k],
        decreases n + 1 - i,
    {
        let mut j = i;
        while j < n && cs[j] != '\n'
            invariant
                i <= j <= n,
                forall|m: int| i <= m < j ==> (#[trigger] cs@[m]) != '\n',
            decreases n - j,
        {
            j = j + 1;
        }
        proof {
            lemma_line_end_skip(cs@, i as int, j as int);
            assert(line_end(cs@, i as int) == j);
            lemma_lines_unfold(cs@, i as int);
        }
        let line = copy_range(cs, i, j);
        out.push(line);
        i = j + 1;
    }
    proof {
        assert(lines_from(cs@, i as int).len() == 0);
    }
    out
}

/// Unfolding aid: the line decomposition at a line start.
proof fn lemma_lines_unfold(s: Seq<char>, i: int)
    requires
        0 <= i < s.len(),
    ensures
        lines_from(s, i).len() == 1 + lines_from(s, line_end(s, i) + 1).len(),
        lines_from(s, i)[0] == s.subrange(i, line_end(s, i)),
        forall|k: int|
            0 <= k < lines_from(s, line_end(s, i) + 1).len() ==> #[trigger] lines_from(
                s,
                line_end(s, i) + 1,
            )[k] == lines_from(s, i)[k + 1],
{
    lemma_line_end_bounds(s, i);
}

/// The line with surrounding blanks removed, as executable code.
#[verifier::loop_isolation(false)]
fn trim_vec(line: &Vec<char>) -> (r: Vec<char>)
    ensures
        r@ == trim(line@),
{
    let n = line.len();
    let mut a: usize = 0;
    while a < n && space_char(line[a])
        invariant
            a <= n,
            first_solid(line@, 0) == first_solid(line@, a as int),
        decreases n - a,
    {
        a = a + 1;
    }
    let mut b: usize = n;
    while b > 0 && space_char(line[b - 1])
        invariant
            b <= n,
            last_solid(line@, n as int) == last_solid(line@, b as int),
        decreases b,
    {
        b = b - 1;
    }
    if a <= b {
        copy_range(line, a, b)
    } else {
        Vec::new()
    }
}

/// The position of the first flag separator in a line.
#[verifier::loop_isolation(false)]
fn slash_scan(t: &Vec<char>) -> (r: usize)
    ensures
        r == slash_pos(t@, 0),
        r <= t@.len(),
{
    let n = t.len();
    let mut i: usize = 0;
    while i < n && t[i] != '/'
        invariant
            i <= n,
            slash_pos(t@, 0) == slash_pos(t@, i as int),
        decreases n - i,
    {
        i = i + 1;
    }
    i
}

/// Whether a trimmed count line is a non-empty run of decimal digits.
#[verifier::loop_isolation(false)]
fn digits_check(t: &Vec<char>) -> (r: bool)
    ensures
        r == all_digits(t@),
{
    let n = t.len();
    if n == 0 {
        return false;
    }
    let mut i: usize = 0;
    while i < n
        invariant
            i <= n,
            forall|k: int| 0 <= k < i ==> '0' <= #[trigger] t@[k] <= '9',
        decreases n - i,
    {
        let c = t[i];
        if c < '0' || c > '9' {
            return false;
        }
        i = i + 1;
    }
    true
}

fn make_marked(word: Vec<char>, flags: Vec<char>) -> (r: MarkedWord)
    ensures
        r.word@ == word@,
        r.flags@ == flags@,
{
    MarkedWord { word, flags }
}

/// Parses the flat word-list format: a decimal count line, then one
/// word per line, optionally followed by `/` and its flag characters.
/// Blank lines and surrounding whitespace are tolerated; a line whose
/// word is empty fails the whole load with that line's number.
#[verifier::loop_isolation(false)]
pub fn parse_word_list(source: &str) -> (r: Result<Vec<MarkedWord>, Error>)
    requires
        source@.len() < usize::MAX,
    ensures
        (match r {
            Ok(ws) => spec_parse_word_list(source@) == Ok::<_, Error>(marked_view(ws@)),
            Err(e) => spec_parse_word_list(source@) == Err::<Seq<(Seq<char>, Seq<char>)>, _>(e),
        }),
{
    let cs = str_to_chars(source);
    let lines = split_lines(&cs);
    let ghost sl = spec_lines(cs@);
    if lines.len() == 0 {
        return Err(Error::MalformedCount);
    }
    let first_t = trim_vec(&lines[0]);
    if !digits_check(&first_t) {
        return Err(Error::MalformedCount);
    }
    let mut out: Vec<MarkedWord> = Vec::new();
    let mut idx: usize = 1;
    proof {
        assert(sl.drop_first() =~= sl.skip(1));
        assert(marked_view(out@) == Seq::<(Seq<char>, Seq<char>)>::empty());
    }
    while idx < lines.len()
        invariant
            1 <= idx <= lines@.len(),
            spec_entries(sl.drop_first(), 2) == (match spec_entries(
                sl.skip(idx as int),
                idx + 1,
            ) {
                Ok(es) => Ok::<_, int>(marked_view(out@) + es),
                Err(l) => Err::<Seq<(Seq<char>, Seq<char>)>, _>(l),
            }),
        decreases lines@.len() - idx,
    {
        let ghost prev = out@;
        let ghost tail = sl.skip(idx as int);
        proof {
            assert(tail.first() == sl[idx as int]);
            assert(tail.drop_first() =~= sl.skip(idx + 1));
        }
        let t = trim_vec(&lines[idx]);
        if t.len() == 0 {
            idx = idx + 1;
            continue;
        }
        let sp = slash_scan(&t);
        if sp == 0 {
            return Err(Error::MalformedWord { line: idx + 1 });
        }
        let word = copy_range(&t, 0, sp);
        let flags = if sp < t.len() {
            copy_range(&t, sp + 1, t.len())
        } else {
            Vec::new()
        };
        proof {
            assert(spec_entry(trim(tail.first())) == Some((word@, flags@)));
        }
        let mw = make_marked(word, flags);
        out.push(mw);
        proof {
            assert(out@.drop_last() =~= prev);
            assert(marked_view(out@) == marked_view(prev) + seq![(word@, flags@)]);
            match spec_entries(sl.skip(idx + 1), idx + 2) {
                Ok(es) => {
                    assert(marked_view(prev) + (seq![(word@, flags@)] + es) =~= marked_view(out@)
                        + es);
                },
                Err(_) => {},
            }
        }
        idx = idx + 1;
    }
    proof {
        assert(sl.skip(lines@.len() as int).len() == 0);
        assert(marked_view(out@) + Seq::<(Seq<char>, Seq<char>)>::empty() =~= marked_view(out@));
    }
    Ok(out)
}

/// The bundled default word list.
pub open spec fn default_word_list() -> Seq<char> {
    "10\nhello\ngiant/SM\ndeallocate/GD\ncat/S\ndog/SM\nrun\njump/GDS\ntalk/GDS\nquick\nhouse/SM"@
}

/// Loads the bundled word list. A failure here signals a packaging
/// defect, not a runtime condition.
pub fn parse_default_word_list() -> (r: Result<Vec<MarkedWord>, Error>)
    ensures
        (match r {
            Ok(ws) => spec_parse_word_list(default_word_list()) == Ok::<_, Error>(
                marked_view(ws@),
            ),
            Err(e) => spec_parse_word_list(default_word_list()) == Err::<
                Seq<(Seq<char>, Seq<char>)>,
                _,
            >(e),
        }),
{
    proof {
        reveal_strlit("10\nhello\ngiant/SM\ndeallocate/GD\ncat/S\ndog/SM\nrun\njump/GDS\ntalk/GDS\nquick\nhouse/SM");
    }
    parse_word_list("10\nhello\ngiant/SM\ndeallocate/GD\ncat/S\ndog/SM\nrun\njump/GDS\ntalk/GDS\nquick\nhouse/SM")
}

} // verus!
