//! How much of an answer a tool shows, and how it says so.
//!
//! Two shapes, because two kinds of output fail in opposite directions. A file is read from the
//! top, so [`head`] keeps the beginning and says which line to ask for next. A command's output is
//! read from the bottom, so [`tail`] keeps the end and says how much is above it.
//!
//! Both obey one rule: never a half line, and never silence.

use vstd::prelude::*;

use crate::text::{
    byte_len, chars_of, copy, count_of, decimal, join, join_of, lemma_byte_len_add,
    lemma_byte_len_chars, lemma_byte_len_push, lemma_decimal_value, lemma_join_prepend,
    lemma_join_push, lemma_lines, lemma_split_join, lemma_split_pieces, lemma_views_push, lines,
    lines_of, size_of, split, split_of, string_of, views, width_of,
};

verus! {

/// Lines a tool shows before it starts truncating.
pub const MAX_LINES: usize = 2000;

/// Bytes a tool shows before it starts truncating: one enormous line is not covered by a line
/// count.
pub const MAX_BYTES: usize = 51200;

/// How many bytes of a single line a command's output may show.
pub const MAX_COLUMN: usize = 512;

/// What one truncation did, and what the caller has to say about it.
#[derive(Debug, Clone, PartialEq, Eq)]
pub struct Truncated {
    /// The text to show. Whole lines only.
    pub text: String,
    /// The first line of the input that is shown, 1-based.
    pub first_line: usize,
    /// The last line of the input that is shown, 1-based and inclusive.
    pub last_line: usize,
    /// How many lines the input had.
    pub total_lines: usize,
    /// True when the text is all of it.
    pub complete: bool,
    /// The first line is longer than the byte budget on its own, so nothing useful can be shown
    /// from here. Only [`head`] reports this: a long first line is no reason to hide a command's
    /// last lines.
    pub first_line_overflows: bool,
}

/// What a [`Truncated`] says.
pub struct TruncatedView {
    pub text: Seq<char>,
    pub first_line: int,
    pub last_line: int,
    pub total_lines: int,
    pub complete: bool,
    pub first_line_overflows: bool,
}

impl View for Truncated {
    type V = TruncatedView;

    open spec fn view(&self) -> TruncatedView {
        TruncatedView {
            text: self.text@,
            first_line: self.first_line as int,
            last_line: self.last_line as int,
            total_lines: self.total_lines as int,
            complete: self.complete,
            first_line_overflows: self.first_line_overflows,
        }
    }
}

impl TruncatedView {
    /// The line to ask for next, when there is more below what was shown and asking would help.
    pub open spec fn next_offset(self) -> Option<int> {
        if !self.first_line_overflows && self.last_line < self.total_lines {
            Some(self.last_line + 1)
        } else {
            None
        }
    }

    /// How many lines are shown.
    pub open spec fn line_count(self) -> int {
        if self.first_line <= self.last_line {
            self.last_line - self.first_line + 1
        } else {
            0
        }
    }
}

impl Truncated {
    /// How many lines are shown. Lines are numbered from one.
    pub fn line_count(&self) -> (out: usize)
        requires
            self.first_line > 0,
        ensures
            out == self@.line_count(),
    {
        if self.first_line <= self.last_line {
            self.last_line - self.first_line + 1
        } else {
            0
        }
    }

    pub fn is_empty(&self) -> (out: bool)
        ensures
            out == (self@.text.len() == 0),
    {
        self.text.as_str().is_empty()
    }

    /// The `offset` to ask for next, when there is more below what was shown.
    pub fn next_offset(&self) -> (out: Option<usize>)
        ensures
            out matches Some(offset) ==> self@.next_offset() == Some(offset as int),
            out is None ==> self@.next_offset() is None,
    {
        if !self.first_line_overflows && self.last_line < self.total_lines {
            Some(self.last_line + 1)
        } else {
            None
        }
    }

    /// An equal value of its own.
    pub fn duplicate(&self) -> (out: Truncated)
        ensures
            out@ == self@,
    {
        Truncated {
            text: copy(&self.text),
            first_line: self.first_line,
            last_line: self.last_line,
            total_lines: self.total_lines,
            complete: self.complete,
            first_line_overflows: self.first_line_overflows,
        }
    }
}

// ---------------------------------------------------------------------------------------------
// The head

/// Whether the first `k` lines stay within both bounds.
pub open spec fn head_fits(
    ls: Seq<Seq<char>>,
    k: int,
    max_lines: int,
    max_bytes: int,
) -> bool {
    0 <= k <= ls.len() && k <= max_lines && byte_len(join(ls.take(k), seq!['\n'])) <= max_bytes
}

/// How many lines beyond the first `k` can be added one by one without crossing a bound, counted
/// from the top.
pub open spec fn head_count(
    ls: Seq<Seq<char>>,
    k: int,
    max_lines: int,
    max_bytes: int,
) -> int
    decreases ls.len() - k,
{
    if head_fits(ls, k + 1, max_lines, max_bytes) {
        head_count(ls, k + 1, max_lines, max_bytes)
    } else {
        k
    }
}

/// Where a read that asks for line `from` starts, counting lines from zero.
pub open spec fn head_start(total: int, from: int) -> int {
    if from <= 1 {
        0
    } else if from - 1 <= total {
        from - 1
    } else {
        total
    }
}

/// What [`head`] answers.
pub open spec fn head_view(
    text: Seq<char>,
    from: int,
    max_lines: int,
    max_bytes: int,
) -> TruncatedView {
    let ls = lines(text);
    let total = ls.len() as int;
    let start = head_start(total, from);
    let rest = ls.skip(start);
    let taken = head_count(rest, 0, max_lines, max_bytes);
    if start < total && byte_len(ls[start]) > max_bytes {
        TruncatedView {
            text: seq![],
            first_line: start + 1,
            last_line: start,
            total_lines: total,
            complete: false,
            first_line_overflows: true,
        }
    } else if start < total && taken == 0 {
        // No room for a single line: the one that was asked for, alone.
        TruncatedView {
            text: ls[start],
            first_line: start + 1,
            last_line: start + 1,
            total_lines: total,
            complete: start + 1 >= total,
            first_line_overflows: false,
        }
    } else {
        TruncatedView {
            text: join(rest.take(taken), seq!['\n']),
            first_line: start + 1,
            last_line: start + taken,
            total_lines: total,
            complete: start + taken >= total,
            first_line_overflows: false,
        }
    }
}

/// How many bytes one line more takes.
proof fn lemma_joined_len(ls: Seq<Seq<char>>, line: Seq<char>)
    ensures
        byte_len(join(ls.push(line), seq!['\n'])) == byte_len(join(ls, seq!['\n'])) + byte_len(line)
            + if ls.len() == 0 {
            0int
        } else {
            1int
        },
{
    let sep = seq!['\n'];
    lemma_join_push(ls, line, sep);
    if ls.len() == 0 {
        lemma_byte_len_chars(join(ls, sep));
    } else {
        let out = join(ls, sep);
        assert(out + sep =~= out.push('\n'));
        lemma_byte_len_push(out, '\n');
        lemma_byte_len_add(out.push('\n'), line);
    }
}

/// Keep the beginning: what a read of a file wants.
///
/// `from` is the 1-based line to start at. The budget is spent line by line, so the result never
/// holds half a line.
pub fn head(text: &str, from: usize, max_lines: usize, max_bytes: usize) -> (out: Truncated)
    ensures
        out@ == head_view(text@, from as int, max_lines as int, max_bytes as int),
{
    let all = lines_of(text);
    let total: usize = all.len();
    let start: usize = if from <= 1 {
        0
    } else if from - 1 <= total {
        from - 1
    } else {
        total
    };
    let ghost ls = lines(text@);
    let ghost rest = ls.skip(start as int);
    assert(views(all@) == ls);
    assert(ls.len() == total);
    assert(forall|i: int| 0 <= i < total ==> ls[i] == #[trigger] all@[i]@) by {
        assert forall|i: int| 0 <= i < total implies ls[i] == #[trigger] all@[i]@ by {
            assert(views(all@)[i] == all@[i]@);
        }
    }

    if start < total && size_of(&all[start]) > max_bytes {
        return Truncated {
            text: String::new(),
            first_line: start + 1,
            last_line: start,
            total_lines: total,
            complete: false,
            first_line_overflows: true,
        };
    }
    let mut out = String::new();
    let mut taken: usize = 0;
    assert(rest.take(0) =~= Seq::<Seq<char>>::empty());
    assert(join(rest.take(0), seq!['\n']) =~= Seq::<char>::empty());
    proof {
        lemma_byte_len_chars(Seq::<char>::empty());
    }
    let mut more: bool = true;
    while more && start + taken < total && taken < max_lines
        invariant
            start <= total,
            start + taken <= total,
            taken <= max_lines,
            total == all@.len(),
            ls.len() == total,
            rest == ls.skip(start as int),
            forall|i: int| 0 <= i < total ==> ls[i] == #[trigger] all@[i]@,
            out@ == join(rest.take(taken as int), seq!['\n']),
            byte_len(out@) <= max_bytes,
            head_count(rest, 0, max_lines as int, max_bytes as int) == head_count(
                rest,
                taken as int,
                max_lines as int,
                max_bytes as int,
            ),
            !more ==> !head_fits(rest, taken + 1, max_lines as int, max_bytes as int),
        decreases total - start - taken + if more { 1int } else { 0int },
    {
        let line = &all[start + taken];
        let first: bool = taken == 0;
        let room: usize = max_bytes - size_of(&out);
        proof {
            assert(rest[taken as int] == line@);
            assert(rest.take(taken + 1) =~= rest.take(taken as int).push(line@));
            lemma_join_push(rest.take(taken as int), line@, seq!['\n']);
            lemma_joined_len(rest.take(taken as int), line@);
        }
        let size: usize = size_of(line);
        if if first {
            size > room
        } else {
            size >= room
        } {
            more = false;
        } else {
            let ghost before = out@;
            if !first {
                out.push('\n');
            }
            out.append(line);
            assert(out@ =~= join(rest.take(taken + 1), seq!['\n'])) by {
                if first {
                    assert(before =~= Seq::<char>::empty());
                }
            }
            taken += 1;
        }
    }
    assert(!head_fits(rest, taken + 1, max_lines as int, max_bytes as int));
    let mut end: usize = start + taken;
    if taken == 0 && start < total {
        out = copy(&all[start]);
        end = start + 1;
    }
    Truncated {
        text: out,
        first_line: start + 1,
        last_line: end,
        total_lines: total,
        complete: end >= total,
        first_line_overflows: false,
    }
}

// ---------------------------------------------------------------------------------------------
// The tail

/// Whether the last `k` lines stay within both bounds.
pub open spec fn tail_fits(
    ls: Seq<Seq<char>>,
    k: int,
    max_lines: int,
    max_bytes: int,
) -> bool {
    0 <= k <= ls.len() && k <= max_lines && byte_len(join(ls.skip(ls.len() - k), seq!['\n']))
        <= max_bytes
}

/// How many lines can be shown from the bottom, counted up from `k` one line at a time.
pub open spec fn tail_count(
    ls: Seq<Seq<char>>,
    k: int,
    max_lines: int,
    max_bytes: int,
) -> int
    decreases ls.len() - k,
{
    if tail_fits(ls, k + 1, max_lines, max_bytes) {
        tail_count(ls, k + 1, max_lines, max_bytes)
    } else {
        k
    }
}

/// The number of the line that follows `above` others; the last number there is where the count
/// runs out.
pub open spec fn line_number(above: int) -> int {
    if above < usize::MAX {
        above + 1
    } else {
        usize::MAX as int
    }
}

/// What [`tail`] answers.
pub open spec fn tail_view(text: Seq<char>, max_lines: int, max_bytes: int) -> TruncatedView {
    let ls = lines(text);
    let total = ls.len() as int;
    let kept = tail_count(ls, 0, max_lines, max_bytes);
    TruncatedView {
        text: join(ls.skip(total - kept), seq!['\n']),
        first_line: line_number(total - kept),
        last_line: total,
        total_lines: total,
        complete: kept == total,
        first_line_overflows: false,
    }
}

pub proof fn lemma_tail_count(ls: Seq<Seq<char>>, k: int, max_lines: int, max_bytes: int)
    requires
        0 <= k <= ls.len(),
        max_lines >= 0,
        k <= max_lines,
    ensures
        k <= tail_count(ls, k, max_lines, max_bytes) <= ls.len(),
        tail_count(ls, k, max_lines, max_bytes) <= max_lines,
    decreases ls.len() - k,
{
    if tail_fits(ls, k + 1, max_lines, max_bytes) {
        lemma_tail_count(ls, k + 1, max_lines, max_bytes);
    }
}

/// Keep the end: what a command's output wants.
pub fn tail(text: &str, max_lines: usize, max_bytes: usize) -> (out: Truncated)
    ensures
        out@ == tail_view(text@, max_lines as int, max_bytes as int),
{
    let all = lines_of(text);
    let total: usize = all.len();
    let ghost ls = lines(text@);
    let ghost sep = seq!['\n'];
    assert(views(all@) == ls);
    assert forall|i: int| 0 <= i < total implies ls[i] == #[trigger] all@[i]@ by {
        assert(views(all@)[i] == all@[i]@);
    }
    let mut kept: usize = 0;
    let mut bytes: usize = 0;
    let mut more: bool = true;
    assert(ls.skip(ls.len() - 0) =~= Seq::<Seq<char>>::empty());
    proof {
        lemma_byte_len_chars(Seq::<char>::empty());
        assert(join(Seq::<Seq<char>>::empty(), sep) =~= Seq::<char>::empty());
    }
    while more && kept < total && kept < max_lines
        invariant
            kept <= total,
            kept <= max_lines,
            total == all@.len(),
            ls.len() == total,
            sep == seq!['\n'],
            forall|i: int| 0 <= i < total ==> ls[i] == #[trigger] all@[i]@,
            bytes == byte_len(join(ls.skip(total - kept), sep)),
            bytes <= max_bytes,
            tail_count(ls, 0, max_lines as int, max_bytes as int) == tail_count(
                ls,
                kept as int,
                max_lines as int,
                max_bytes as int,
            ),
            !more ==> !tail_fits(ls, kept + 1, max_lines as int, max_bytes as int),
        decreases total - kept + if more { 1int } else { 0int },
    {
        let line = &all[total - kept - 1];
        let size: usize = size_of(line);
        let room: usize = max_bytes - bytes;
        proof {
            let below = ls.skip(total - kept);
            assert(ls.skip(total - kept - 1) =~= seq![line@] + below);
            lemma_join_prepend(line@, below, sep);
            if kept > 0 {
                lemma_byte_len_add(line@ + sep, join(below, sep));
                assert(line@ + sep =~= line@.push('\n'));
                lemma_byte_len_push(line@, '\n');
            }
        }
        if if kept == 0 {
            size > room
        } else {
            size >= room
        } {
            more = false;
        } else {
            bytes = bytes + size + if kept == 0 {
                0usize
            } else {
                1usize
            };
            kept += 1;
        }
    }
    let start: usize = total - kept;
    let shown = vstd::slice::slice_subrange(&all, start, total);
    assert(views(shown@) =~= ls.skip(start as int));
    let newline = newline();
    Truncated {
        text: join_of(shown, &newline),
        first_line: start.saturating_add(1),
        last_line: total,
        total_lines: total,
        complete: start == 0,
        first_line_overflows: false,
    }
}

// ---------------------------------------------------------------------------------------------
// Columns

/// How many characters of a line fit in `cap` bytes, counted up from `k`.
pub open spec fn columns(line: Seq<char>, cap: int, k: int) -> int
    decreases line.len() - k,
{
    if 0 <= k < line.len() && byte_len(line.take(k + 1)) <= cap {
        columns(line, cap, k + 1)
    } else {
        k
    }
}

/// A line of at most `cap` bytes, with a mark that says how many bytes were cut.
pub open spec fn cap_line(line: Seq<char>, cap: int) -> Seq<char> {
    if byte_len(line) <= cap {
        line
    } else {
        let kept = line.take(columns(line, cap, 0));
        kept + "…[+"@ + decimal((byte_len(line) - byte_len(kept)) as nat) + " bytes]"@
    }
}

/// What [`cap_columns`] answers.
pub open spec fn cap_columns_view(text: Seq<char>, cap: int) -> Seq<char> {
    join(Seq::new(split(text, '\n').len(), |i: int| cap_line(split(text, '\n')[i], cap)), seq!['\n'])
}

fn capped(line: &str, cap: usize) -> (out: String)
    ensures
        out@ == cap_line(line@, cap as int),
{
    let size: usize = size_of(line);
    if size <= cap {
        return copy(line);
    }
    let chars = chars_of(line);
    let mut k: usize = 0;
    let mut bytes: usize = 0;
    assert(line@.take(0) =~= Seq::<char>::empty());
    proof {
        lemma_byte_len_chars(Seq::<char>::empty());
    }
    let mut more: bool = true;
    while more && k < chars.len()
        invariant
            k <= chars@.len(),
            chars@ == line@,
            bytes == byte_len(line@.take(k as int)),
            bytes <= cap,
            columns(line@, cap as int, 0) == columns(line@, cap as int, k as int),
            !more ==> k < line@.len() && byte_len(line@.take(k + 1)) > cap,
        decreases chars@.len() - k + if more { 1int } else { 0int },
    {
        let w: usize = width_of(chars[k]);
        proof {
            assert(line@.take(k + 1) =~= line@.take(k as int).push(line@[k as int]));
            lemma_byte_len_push(line@.take(k as int), line@[k as int]);
        }
        if w > cap - bytes {
            more = false;
        } else {
            bytes += w;
            k += 1;
        }
    }
    let ghost kept = line@.take(columns(line@, cap as int, 0));
    proof {
        assert(kept =~= line@.take(k as int));
        lemma_byte_len_add(kept, line@.skip(k as int));
        assert(kept + line@.skip(k as int) =~= line@);
    }
    let mut out = string_of(vstd::slice::slice_subrange(&chars, 0, k));
    assert(out@ =~= kept);
    out.append("…[+");
    out.append(&count_of(size - bytes));
    out.append(" bytes]");
    out
}

/// Cut every line to `cap` bytes, marking where it was cut: a silently shortened line reads as a
/// complete one.
pub fn cap_columns(text: &str, cap: usize) -> (out: String)
    ensures
        out@ == cap_columns_view(text@, cap as int),
{
    let pieces = split_of(text, '\n');
    let ghost ls = split(text@, '\n');
    let ghost want = Seq::new(ls.len(), |i: int| cap_line(ls[i], cap as int));
    let mut cut: Vec<String> = Vec::new();
    let mut i: usize = 0;
    while i < pieces.len()
        invariant
            i <= pieces@.len(),
            views(pieces@) == ls,
            want == Seq::new(ls.len(), |i: int| cap_line(ls[i], cap as int)),
            views(cut@) == want.take(i as int),
        decreases pieces@.len() - i,
    {
        let line = capped(&pieces[i], cap);
        proof {
            assert(views(pieces@)[i as int] == pieces@[i as int]@);
            lemma_views_push(cut@, line);
            assert(want.take(i + 1) =~= want.take(i as int).push(line@));
        }
        cut.push(line);
        i += 1;
    }
    assert(want.take(i as int) =~= want);
    let newline = newline();
    join_of(&cut, &newline)
}

fn newline() -> (out: String)
    ensures
        out@ == seq!['\n'],
{
    let mut out = String::new();
    out.push('\n');
    assert(out@ =~= seq!['\n']);
    out
}

// ---------------------------------------------------------------------------------------------
// Laws

proof fn lemma_head_count(ls: Seq<Seq<char>>, k: int, max_lines: int, max_bytes: int)
    requires
        head_fits(ls, k, max_lines, max_bytes),
    ensures
        head_fits(ls, head_count(ls, k, max_lines, max_bytes), max_lines, max_bytes),
        k <= head_count(ls, k, max_lines, max_bytes),
        !head_fits(ls, head_count(ls, k, max_lines, max_bytes) + 1, max_lines, max_bytes),
    decreases ls.len() - k,
{
    if head_fits(ls, k + 1, max_lines, max_bytes) {
        lemma_head_count(ls, k + 1, max_lines, max_bytes);
    }
}

proof fn lemma_nothing_fits(ls: Seq<Seq<char>>, max_lines: int, max_bytes: int)
    requires
        0 <= max_lines,
        0 <= max_bytes,
    ensures
        head_fits(ls, 0, max_lines, max_bytes),
{
    assert(ls.take(0) =~= Seq::<Seq<char>>::empty());
    lemma_byte_len_chars(join(ls.take(0), seq!['\n']));
}

/// A read never crosses its byte bound, and what it shows are the lines it names, blank ones
/// included, joined by line feeds. A complete read from the first line is every line of the text.
pub proof fn law_head_shows_the_lines_it_names(
    text: Seq<char>,
    from: int,
    max_lines: int,
    max_bytes: int,
)
    requires
        max_lines >= 0,
        max_bytes >= 0,
    ensures
        ({
            let out = head_view(text, from, max_lines, max_bytes);
            &&& byte_len(out.text) <= max_bytes
            &&& out.total_lines == lines(text).len()
            &&& 1 <= out.first_line <= out.last_line + 1
            &&& out.last_line <= out.total_lines
            &&& out.text == join(
                lines(text).subrange(out.first_line - 1, out.last_line),
                seq!['\n'],
            )
            &&& out.last_line - out.first_line + 1 <= max_lines || out.last_line == out.first_line
            &&& out.complete && out.first_line == 1 ==> out.text == join(lines(text), seq!['\n'])
        }),
{
    let ls = lines(text);
    let start = head_start(ls.len() as int, from);
    let rest = ls.skip(start);
    lemma_nothing_fits(rest, max_lines, max_bytes);
    lemma_head_count(rest, 0, max_lines, max_bytes);
    let taken = head_count(rest, 0, max_lines, max_bytes);
    assert(rest.take(taken) =~= ls.subrange(start, start + taken));
    assert(ls.subrange(start, start) =~= Seq::<Seq<char>>::empty());
    assert(join(ls.subrange(start, start), seq!['\n']) =~= Seq::<char>::empty());
    lemma_byte_len_chars(Seq::<char>::empty());
    if start < ls.len() {
        assert(ls.subrange(start, start + 1) =~= seq![ls[start]]);
    }
    assert(ls.subrange(0, ls.len() as int) =~= ls);
}

/// A read that stops short says so: either it names the line to ask for next, or it says that the
/// line asked for is too long to be shown at all.
pub proof fn law_head_is_never_silent(text: Seq<char>, from: int, max_lines: int, max_bytes: int)
    requires
        max_lines >= 0,
        max_bytes >= 0,
    ensures
        ({
            let out = head_view(text, from, max_lines, max_bytes);
            &&& out.complete <==> out.last_line >= out.total_lines && !out.first_line_overflows
            &&& !out.complete ==> out.first_line_overflows || out.next_offset() is Some
        }),
{
    law_head_shows_the_lines_it_names(text, from, max_lines, max_bytes);
}

/// Asking for the next offset starts exactly where the last answer stopped, and every step shows
/// at least one line more: stepping through a file with the offsets it is told reaches the end
/// without a gap or a repetition.
pub proof fn law_head_continues_where_it_stopped(
    text: Seq<char>,
    from: int,
    max_lines: int,
    max_bytes: int,
)
    requires
        max_lines >= 0,
        max_bytes >= 0,
    ensures
        ({
            let out = head_view(text, from, max_lines, max_bytes);
            out.next_offset() matches Some(offset) ==> {
                &&& offset > out.first_line
                &&& offset == out.last_line + 1
                &&& head_view(text, offset, max_lines, max_bytes).first_line == offset
            }
        }),
{
    law_head_shows_the_lines_it_names(text, from, max_lines, max_bytes);
    let ls = lines(text);
    let start = head_start(ls.len() as int, from);
    let rest = ls.skip(start);
    lemma_nothing_fits(rest, max_lines, max_bytes);
    lemma_head_count(rest, 0, max_lines, max_bytes);
}

/// Neither shape ever shows half a line: what stands between the line feeds of an answer is always
/// a whole line of the input.
pub proof fn law_only_whole_lines_are_shown(
    text: Seq<char>,
    from: int,
    max_lines: int,
    max_bytes: int,
)
    requires
        max_lines >= 0,
        max_bytes >= 0,
    ensures
        ({
            let shown = head_view(text, from, max_lines, max_bytes).text;
            shown.len() > 0 ==> forall|i: int|
                0 <= i < split(shown, '\n').len() ==> lines(text).contains(
                    #[trigger] split(shown, '\n')[i],
                )
        }),
        ({
            let shown = tail_view(text, max_lines, max_bytes).text;
            shown.len() > 0 ==> forall|i: int|
                0 <= i < split(shown, '\n').len() ==> lines(text).contains(
                    #[trigger] split(shown, '\n')[i],
                )
        }),
{
    let ls = lines(text);
    lemma_lines(text);
    let out = head_view(text, from, max_lines, max_bytes);
    law_head_shows_the_lines_it_names(text, from, max_lines, max_bytes);
    let named = ls.subrange(out.first_line - 1, out.last_line);
    assert forall|i: int| 0 <= i < named.len() implies !(#[trigger] named[i]).contains('\n') by {
        assert(named[i] == ls[out.first_line - 1 + i]);
    }
    if out.text.len() > 0 {
        assert(named.len() > 0);
        lemma_split_join(named, '\n');
        assert forall|i: int| 0 <= i < split(out.text, '\n').len() implies ls.contains(
            #[trigger] split(out.text, '\n')[i],
        ) by {
            assert(ls[out.first_line - 1 + i] == named[i]);
        }
    }
    let shown = tail_view(text, max_lines, max_bytes).text;
    lemma_tail_count(ls, 0, max_lines, max_bytes);
    let kept = tail_count(ls, 0, max_lines, max_bytes);
    let below = ls.skip(ls.len() - kept);
    if shown.len() > 0 {
        assert(below.len() > 0);
        assert forall|i: int| 0 <= i < below.len() implies !(#[trigger] below[i]).contains('\n') by {
            assert(below[i] == ls[ls.len() - kept + i]);
        }
        lemma_split_join(below, '\n');
        assert forall|i: int| 0 <= i < split(shown, '\n').len() implies ls.contains(
            #[trigger] split(shown, '\n')[i],
        ) by {
            assert(ls[ls.len() - kept + i] == below[i]);
        }
    }
}

/// A tail stays within both bounds, shows the last lines of the input, has nothing below it to ask
/// for, and is complete exactly when it shows every line.
pub proof fn law_tail_keeps_the_end(text: Seq<char>, max_lines: int, max_bytes: int)
    requires
        lines(text).len() < usize::MAX,
        max_lines >= 0,
        max_bytes >= 0,
    ensures
        ({
            let out = tail_view(text, max_lines, max_bytes);
            &&& byte_len(out.text) <= max_bytes
            &&& out.last_line == lines(text).len()
            &&& 1 <= out.first_line <= out.last_line + 1
            &&& out.last_line - out.first_line + 1 <= max_lines
            &&& out.text == join(lines(text).skip(out.first_line - 1), seq!['\n'])
            &&& out.next_offset() is None
            &&& out.complete <==> out.first_line == 1
        }),
{
    let ls = lines(text);
    lemma_tail_count(ls, 0, max_lines, max_bytes);
    lemma_tail_fits(ls, 0, max_lines, max_bytes);
}

proof fn lemma_tail_fits(ls: Seq<Seq<char>>, k: int, max_lines: int, max_bytes: int)
    requires
        0 <= k <= ls.len(),
        k <= max_lines,
        0 <= max_bytes,
        k == 0 || tail_fits(ls, k, max_lines, max_bytes),
    ensures
        tail_fits(ls, tail_count(ls, k, max_lines, max_bytes), max_lines, max_bytes),
    decreases ls.len() - k,
{
    if k == 0 {
        assert(ls.skip(ls.len() as int) =~= Seq::<Seq<char>>::empty());
        lemma_byte_len_chars(join(ls.skip(ls.len() as int), seq!['\n']));
    }
    if tail_fits(ls, k + 1, max_lines, max_bytes) {
        lemma_tail_fits(ls, k + 1, max_lines, max_bytes);
    }
}

/// Capping columns keeps the lines apart: there are as many as before, and each is the capped form
/// of the line that stood there.
pub proof fn law_capping_keeps_the_lines(text: Seq<char>, cap: int)
    requires
        cap >= 0,
    ensures
        split(cap_columns_view(text, cap), '\n').len() == split(text, '\n').len(),
        forall|i: int|
            0 <= i < split(text, '\n').len() ==> #[trigger] split(
                cap_columns_view(text, cap),
                '\n',
            )[i] == cap_line(split(text, '\n')[i], cap),
{
    let ls = split(text, '\n');
    let want = Seq::new(ls.len(), |i: int| cap_line(ls[i], cap));
    lemma_split_pieces(text, '\n');
    assert forall|i: int| 0 <= i < want.len() implies !(#[trigger] want[i]).contains('\n') by {
        assert(!ls[i].contains('\n'));
        lemma_cap_line_is_one_line(ls[i], cap);
    }
    lemma_split_join(want, '\n');
    assert(cap_columns_view(text, cap) == join(want, seq!['\n']));
}

proof fn lemma_columns(line: Seq<char>, cap: int, k: int)
    requires
        0 <= k <= line.len(),
    ensures
        k <= columns(line, cap, k) <= line.len(),
    decreases line.len() - k,
{
    if k < line.len() && byte_len(line.take(k + 1)) <= cap {
        lemma_columns(line, cap, k + 1);
    }
}

proof fn lemma_cap_line_is_one_line(line: Seq<char>, cap: int)
    requires
        !line.contains('\n'),
    ensures
        !cap_line(line, cap).contains('\n'),
{
    reveal_strlit("…[+");
    reveal_strlit(" bytes]");
    if byte_len(line) > cap {
        lemma_columns(line, cap, 0);
        let kept = line.take(columns(line, cap, 0));
        let n = (byte_len(line) - byte_len(kept)) as nat;
        lemma_decimal_value(n);
        let out = cap_line(line, cap);
        assert forall|i: int| 0 <= i < out.len() implies out[i] != '\n' by {
            let a = kept.len() as int;
            let b = a + "…[+"@.len();
            let c = b + decimal(n).len();
            if i < a {
                assert(out[i] == line[i]);
                assert(line.contains(line[i]));
            } else if i < b {
                assert(out[i] == "…[+"@[i - a]);
            } else if i < c {
                assert(out[i] == decimal(n)[i - b]);
                assert('0' <= decimal(n)[i - b] <= '9');
            } else {
                assert(out[i] == " bytes]"@[i - c]);
            }
        }
    }
}

/// A read starts at the line it was asked for, the first where that is none, and behind the last
/// where there are not so many. It goes on until the text ends or one line more would cross a bound,
/// and says that a line is too long exactly when that line alone crosses the byte bound.
pub proof fn law_head_shows_as_much_as_fits(
    text: Seq<char>,
    from: int,
    max_lines: int,
    max_bytes: int,
)
    requires
        max_lines >= 0,
        max_bytes >= 0,
    ensures
        ({
            let out = head_view(text, from, max_lines, max_bytes);
            let ls = lines(text);
            let shown = out.last_line - out.first_line + 1;
            &&& from <= 1 ==> out.first_line == 1
            &&& 1 <= from <= ls.len() + 1 ==> out.first_line == from
            &&& from > ls.len() + 1 ==> out.first_line == ls.len() + 1
            &&& out.first_line_overflows <==> out.first_line <= ls.len() && byte_len(
                ls[out.first_line - 1],
            ) > max_bytes
            &&& out.first_line_overflows ==> shown == 0
            &&& out.first_line <= ls.len() && !out.first_line_overflows ==> shown >= 1
            &&& !out.first_line_overflows && out.last_line < ls.len() ==> shown >= max_lines
                || byte_len(
                join(ls.subrange(out.first_line - 1, out.last_line + 1), seq!['\n']),
            ) > max_bytes
        }),
{
    let ls = lines(text);
    let start = head_start(ls.len() as int, from);
    let rest = ls.skip(start);
    lemma_nothing_fits(rest, max_lines, max_bytes);
    lemma_head_count(rest, 0, max_lines, max_bytes);
    let taken = head_count(rest, 0, max_lines, max_bytes);
    let out = head_view(text, from, max_lines, max_bytes);
    if !out.first_line_overflows && out.last_line < ls.len() {
        assert(rest.take(taken + 1) =~= ls.subrange(start, start + taken + 1));
        if taken == 0 && max_lines > 1 {
            assert(rest.take(1) =~= seq![ls[start]]);
            assert(join(rest.take(1), seq!['\n']) == ls[start]);
        }
    }
}

/// A tail reaches as far up as it can: it shows every line, or one line more would cross a bound.
pub proof fn law_tail_shows_as_much_as_fits(text: Seq<char>, max_lines: int, max_bytes: int)
    requires
        lines(text).len() < usize::MAX,
        max_lines >= 0,
        max_bytes >= 0,
    ensures
        ({
            let out = tail_view(text, max_lines, max_bytes);
            let ls = lines(text);
            out.first_line == 1 || out.last_line - out.first_line + 1 == max_lines || byte_len(
                join(ls.skip(out.first_line - 2), seq!['\n']),
            ) > max_bytes
        }),
        tail_view(text, max_lines, max_bytes).total_lines == lines(text).len(),
        !tail_view(text, max_lines, max_bytes).first_line_overflows,
{
    let ls = lines(text);
    lemma_tail_count(ls, 0, max_lines, max_bytes);
    lemma_tail_stops(ls, 0, max_lines, max_bytes);
}

proof fn lemma_tail_stops(ls: Seq<Seq<char>>, k: int, max_lines: int, max_bytes: int)
    requires
        0 <= k <= ls.len(),
    ensures
        !tail_fits(ls, tail_count(ls, k, max_lines, max_bytes) + 1, max_lines, max_bytes),
    decreases ls.len() - k,
{
    if tail_fits(ls, k + 1, max_lines, max_bytes) {
        lemma_tail_stops(ls, k + 1, max_lines, max_bytes);
    }
}

/// A line within the bound is left as it is; a longer one is cut behind the last character that fits,
/// and says how many bytes were cut.
pub proof fn law_a_long_line_is_cut_where_it_must_be(line: Seq<char>, cap: int)
    requires
        cap >= 0,
    ensures
        byte_len(line) <= cap ==> cap_line(line, cap) == line,
        byte_len(line) > cap ==> exists|k: int|
            0 <= k < line.len() && byte_len(#[trigger] line.take(k)) <= cap && byte_len(
                line.take(k + 1),
            ) > cap && cap_line(line, cap) == line.take(k) + "…[+"@ + decimal(
                byte_len(line.skip(k)),
            ) + " bytes]"@,
{
    if byte_len(line) > cap {
        lemma_byte_len_chars(Seq::<char>::empty());
        assert(line.take(0) =~= Seq::<char>::empty());
        lemma_columns_stop(line, cap, 0);
        let k = columns(line, cap, 0);
        assert(line.take(k) + line.skip(k) =~= line);
        lemma_byte_len_add(line.take(k), line.skip(k));
        assert(byte_len(line.take(k)) <= cap);
    }
}

proof fn lemma_columns_stop(line: Seq<char>, cap: int, k: int)
    requires
        0 <= k <= line.len(),
        byte_len(line.take(k)) <= cap,
        byte_len(line) > cap,
    ensures
        ({
            let n = columns(line, cap, k);
            &&& k <= n < line.len()
            &&& byte_len(line.take(n)) <= cap
            &&& byte_len(line.take(n + 1)) > cap
        }),
    decreases line.len() - k,
{
    if k < line.len() {
        if byte_len(line.take(k + 1)) <= cap {
            lemma_columns_stop(line, cap, k + 1);
        }
    } else {
        assert(line.take(k) =~= line);
    }
}

/// What an answer says of itself agrees: as many lines are shown as its numbers span, and the line to
/// ask for next is the one below the last shown, where there is one and it could be shown.
pub proof fn law_the_numbers_of_an_answer_agree(out: TruncatedView)
    ensures
        out.first_line <= out.last_line + 1 ==> out.line_count() == out.last_line + 1
            - out.first_line,
        out.next_offset() is Some <==> !out.first_line_overflows && out.last_line + 1
            <= out.total_lines,
        out.next_offset() matches Some(offset) ==> offset == out.last_line + 1,
{
}

} // verus!
