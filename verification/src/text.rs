//! Text as a sequence of characters, and the operations every other module is written with.
//!
//! A string is modelled by the characters it holds. Sizes that are counted in bytes are the
//! lengths of the UTF-8 encoding.

use vstd::prelude::*;
use vstd::utf8::*;

verus! {

/// Trusted: `String::push`, which appends one character to the end.
pub assume_specification[ String::push ](s: &mut String, c: char)
    ensures
        final(s)@ == old(s)@.push(c),
;

// ---------------------------------------------------------------------------------------------
// Strings and character vectors

/// The characters of each string of a list.
pub open spec fn views(list: Seq<String>) -> Seq<Seq<char>> {
    Seq::new(list.len(), |i: int| list[i]@)
}

/// The characters of a string that may be missing.
pub open spec fn opt_view(text: Option<String>) -> Option<Seq<char>> {
    match text {
        Some(text) => Some(text@),
        None => None,
    }
}

pub fn chars_of(s: &str) -> (out: Vec<char>)
    ensures
        out@ == s@,
{
    let mut out: Vec<char> = Vec::new();
    for c in iter: s.chars()
        invariant
            iter.seq() == s@,
            out@ == s@.take(iter.index() as int),
    {
        out.push(c);
    }
    assert(s@.take(s@.len() as int) =~= s@);
    out
}

pub fn string_of(chars: &[char]) -> (out: String)
    ensures
        out@ == chars@,
{
    let mut out = String::new();
    let mut i: usize = 0;
    while i < chars.len()
        invariant
            i <= chars@.len(),
            out@ == chars@.take(i as int),
        decreases chars@.len() - i,
    {
        out.push(chars[i]);
        i += 1;
        assert(chars@.take(i as int) =~= chars@.take(i - 1).push(chars@[i - 1]));
    }
    assert(chars@.take(chars@.len() as int) =~= chars@);
    out
}

/// A copy of a string.
pub fn copy(s: &str) -> (out: String)
    ensures
        out@ == s@,
{
    s.to_owned()
}

/// A copy of a string that may be missing.
pub fn copy_opt(s: &Option<String>) -> (out: Option<String>)
    ensures
        opt_view(out) == opt_view(*s),
{
    match s {
        Some(s) => Some(s.clone()),
        None => None,
    }
}

pub fn same(a: &str, b: &str) -> (out: bool)
    ensures
        out == (a@ == b@),
{
    a.to_owned() == b.to_owned()
}


// ---------------------------------------------------------------------------------------------
// Bytes

/// What `String::from_utf8_lossy` makes of a run of bytes.
pub uninterp spec fn lossy(bytes: Seq<u8>) -> Seq<char>;

/// Trusted: `String::from_utf8_lossy`. The text depends on the bytes alone, and bytes that are
/// valid UTF-8 give the text they encode.
#[verifier::external_body]
pub(crate) fn lossy_text(bytes: &[u8]) -> (out: String)
    ensures
        out@ == lossy(bytes@),
        valid_utf8(bytes@) ==> out@ == decode_utf8(bytes@),
{
    String::from_utf8_lossy(bytes).into_owned()
}

/// Trusted: `String::from_utf8`. Bytes that are valid UTF-8 give the text they encode, and any
/// others are refused.
#[verifier::external_body]
pub(crate) fn utf8_text(bytes: Vec<u8>) -> (out: Option<String>)
    ensures
        match out {
            Some(text) => valid_utf8(bytes@) && text@ == decode_utf8(bytes@),
            None => !valid_utf8(bytes@),
        },
{
    String::from_utf8(bytes).ok()
}

// ---------------------------------------------------------------------------------------------
// White space

/// Unicode's `White_Space` property.
pub open spec fn white(c: char) -> bool {
    let n = c as u32;
    ||| 0x09 <= n <= 0x0d
    ||| n == 0x20
    ||| n == 0x85
    ||| n == 0xa0
    ||| n == 0x1680
    ||| 0x2000 <= n <= 0x200a
    ||| n == 0x2028
    ||| n == 0x2029
    ||| n == 0x202f
    ||| n == 0x205f
    ||| n == 0x3000
}

pub fn is_white(c: char) -> (out: bool)
    ensures
        out == white(c),
{
    let n: u32 = c as u32;
    (0x09 <= n && n <= 0x0d) || n == 0x20 || n == 0x85 || n == 0xa0 || n == 0x1680 || (0x2000 <= n
        && n <= 0x200a) || n == 0x2028 || n == 0x2029 || n == 0x202f || n == 0x205f || n == 0x3000
}

/// Without the white space in front.
pub open spec fn trim_start(s: Seq<char>) -> Seq<char>
    decreases s.len(),
{
    if s.len() > 0 && white(s[0]) {
        trim_start(s.drop_first())
    } else {
        s
    }
}

/// Without the white space at the end.
pub open spec fn trim_end(s: Seq<char>) -> Seq<char>
    decreases s.len(),
{
    if s.len() > 0 && white(s.last()) {
        trim_end(s.drop_last())
    } else {
        s
    }
}

/// Without the white space at either end.
pub open spec fn trim(s: Seq<char>) -> Seq<char> {
    trim_end(trim_start(s))
}

/// Whether there is nothing but white space.
pub open spec fn blank(s: Seq<char>) -> bool {
    forall|i: int| 0 <= i < s.len() ==> white(#[trigger] s[i])
}

pub fn trim_start_of(v: &[char]) -> (out: &[char])
    ensures
        out@ == trim_start(v@),
{
    let mut i: usize = 0;
    assert(v@.skip(0) =~= v@);
    while i < v.len() && is_white(v[i])
        invariant
            i <= v@.len(),
            trim_start(v@) == trim_start(v@.skip(i as int)),
        decreases v@.len() - i,
    {
        assert(v@.skip(i as int).drop_first() =~= v@.skip(i + 1));
        i += 1;
    }
    assert(v@.skip(i as int) =~= v@.subrange(i as int, v@.len() as int));
    vstd::slice::slice_subrange(v, i, v.len())
}

pub fn trim_end_of(v: &[char]) -> (out: &[char])
    ensures
        out@ == trim_end(v@),
{
    let mut n: usize = v.len();
    assert(v@.take(n as int) =~= v@);
    while n > 0 && is_white(v[n - 1])
        invariant
            n <= v@.len(),
            trim_end(v@) == trim_end(v@.take(n as int)),
        decreases n,
    {
        assert(v@.take(n as int).drop_last() =~= v@.take(n - 1));
        n -= 1;
    }
    assert(v@.take(n as int) =~= v@.subrange(0, n as int));
    vstd::slice::slice_subrange(v, 0, n)
}

pub fn trim_of(v: &[char]) -> (out: &[char])
    ensures
        out@ == trim(v@),
{
    trim_end_of(trim_start_of(v))
}

pub fn trimmed(s: &str) -> (out: String)
    ensures
        out@ == trim(s@),
{
    let chars = chars_of(s);
    string_of(trim_of(&chars))
}

pub fn trimmed_end(s: &str) -> (out: String)
    ensures
        out@ == trim_end(s@),
{
    let chars = chars_of(s);
    string_of(trim_end_of(&chars))
}

pub fn is_blank(s: &str) -> (out: bool)
    ensures
        out == blank(s@),
        out == (trim(s@).len() == 0),
{
    let chars = chars_of(s);
    let kept = trim_of(&chars);
    proof {
        lemma_trim_blank(s@);
    }
    kept.len() == 0
}

/// Trimming leaves nothing exactly when there is nothing but white space.
pub proof fn lemma_trim_blank(s: Seq<char>)
    ensures
        blank(s) <==> trim(s).len() == 0,
        blank(s) <==> trim_start(s).len() == 0,
    decreases s.len(),
{
    if s.len() > 0 && white(s[0]) {
        lemma_trim_blank(s.drop_first());
        assert(blank(s) <==> blank(s.drop_first())) by {
            if blank(s.drop_first()) {
                assert forall|i: int| 0 <= i < s.len() implies white(#[trigger] s[i]) by {
                    if i > 0 {
                        assert(s[i] == s.drop_first()[i - 1]);
                    }
                }
            }
            if blank(s) {
                assert forall|i: int| 0 <= i < s.drop_first().len() implies white(
                    #[trigger] s.drop_first()[i],
                ) by {
                    assert(s.drop_first()[i] == s[i + 1]);
                }
            }
        }
    } else if s.len() > 0 {
        assert(!white(s[0]));
        lemma_trim_end_keeps(s, 0);
    }
}

/// A character that is not white space survives trimming at the end, and so does what precedes it.
pub proof fn lemma_trim_end_keeps(s: Seq<char>, i: int)
    requires
        0 <= i < s.len(),
        !white(s[i]),
    ensures
        trim_end(s).len() > i,
    decreases s.len(),
{
    if white(s.last()) {
        lemma_trim_end_keeps(s.drop_last(), i);
    }
}

// ---------------------------------------------------------------------------------------------
// Splitting and joining

/// How many characters come before the first `c`: all of them when there is none.
pub open spec fn upto(s: Seq<char>, c: char) -> int
    decreases s.len(),
{
    if s.len() == 0 || s[0] == c {
        0
    } else {
        1 + upto(s.drop_first(), c)
    }
}

/// `upto` is the one place with no `c` before it and a `c`, or the end, at it.
pub proof fn lemma_upto(s: Seq<char>, c: char)
    ensures
        0 <= upto(s, c) <= s.len(),
        forall|i: int| 0 <= i < upto(s, c) ==> s[i] != c,
        upto(s, c) < s.len() ==> s[upto(s, c)] == c,
    decreases s.len(),
{
    if s.len() > 0 && s[0] != c {
        lemma_upto(s.drop_first(), c);
        assert forall|i: int| 0 <= i < upto(s, c) implies s[i] != c by {
            if i > 0 {
                assert(s[i] == s.drop_first()[i - 1]);
            }
        }
    }
}

pub proof fn lemma_upto_is(s: Seq<char>, c: char, k: int)
    requires
        0 <= k <= s.len(),
        forall|i: int| 0 <= i < k ==> s[i] != c,
        k < s.len() ==> s[k] == c,
    ensures
        upto(s, c) == k,
{
    lemma_upto(s, c);
}

/// The pieces between the occurrences of `c`; one more than there are occurrences.
pub open spec fn split(s: Seq<char>, c: char) -> Seq<Seq<char>>
    decreases s.len(),
{
    proof {
        lemma_upto(s, c);
    }
    if upto(s, c) == s.len() {
        seq![s]
    } else {
        seq![s.take(upto(s, c))] + split(s.skip(upto(s, c) + 1), c)
    }
}

/// A piece followed by a separator is the first piece.
pub proof fn lemma_split_first(piece: Seq<char>, c: char, rest: Seq<char>)
    requires
        !piece.contains(c),
    ensures
        split(piece.push(c) + rest, c) == seq![piece] + split(rest, c),
{
    let s = piece.push(c) + rest;
    lemma_upto_is(s, c, piece.len() as int);
    assert(s.take(piece.len() as int) =~= piece);
    assert(s.skip(piece.len() as int + 1) =~= rest);
}

pub proof fn lemma_split_last(piece: Seq<char>, c: char)
    requires
        !piece.contains(c),
    ensures
        split(piece, c) == seq![piece],
{
    lemma_upto_is(piece, c, piece.len() as int);
}

pub proof fn lemma_views_push(list: Seq<String>, s: String)
    ensures
        views(list.push(s)) == views(list).push(s@),
{
    assert(views(list.push(s)) =~= views(list).push(s@));
}

/// Splitting two texts with a separator between them splits each of them.
pub proof fn lemma_split_add(a: Seq<char>, c: char, b: Seq<char>)
    ensures
        split(a.push(c) + b, c) == split(a, c) + split(b, c),
    decreases a.len(),
{
    lemma_upto(a, c);
    let k = upto(a, c);
    if k == a.len() {
        assert(!a.contains(c));
        lemma_split_first(a, c, b);
    } else {
        let first = a.take(k);
        let rest = a.skip(k + 1);
        assert(!first.contains(c));
        assert(a.push(c) + b =~= first.push(c) + (rest.push(c) + b));
        lemma_split_first(first, c, rest.push(c) + b);
        lemma_split_add(rest, c, b);
        assert(seq![first] + (split(rest, c) + split(b, c)) =~= seq![first] + split(rest, c)
            + split(b, c));
    }
}

/// Splitting what was joined gives back the pieces, when none of them holds the separator.
pub proof fn lemma_split_join(list: Seq<Seq<char>>, c: char)
    requires
        list.len() > 0,
        forall|i: int| 0 <= i < list.len() ==> !(#[trigger] list[i]).contains(c),
    ensures
        split(join(list, seq![c]), c) == list,
    decreases list.len(),
{
    if list.len() == 1 {
        lemma_split_last(list[0], c);
        assert(seq![list[0]] =~= list);
    } else {
        let front = list.drop_last();
        assert forall|i: int| 0 <= i < front.len() implies !(#[trigger] front[i]).contains(c) by {
            assert(front[i] == list[i]);
        }
        lemma_split_join(front, c);
        assert(join(list, seq![c]) =~= join(front, seq![c]).push(c) + list.last());
        lemma_split_add(join(front, seq![c]), c, list.last());
        lemma_split_last(list.last(), c);
        assert(front + seq![list.last()] =~= list);
    }
}

/// No piece holds the separator.
pub proof fn lemma_split_pieces(s: Seq<char>, c: char)
    ensures
        split(s, c).len() > 0,
        forall|i: int| 0 <= i < split(s, c).len() ==> !(#[trigger] split(s, c)[i]).contains(c),
    decreases s.len(),
{
    lemma_upto(s, c);
    let k = upto(s, c);
    if k < s.len() {
        lemma_split_pieces(s.skip(k + 1), c);
        assert(!s.take(k).contains(c));
        assert forall|i: int| 0 <= i < split(s, c).len() implies !(#[trigger] split(
            s,
            c,
        )[i]).contains(c) by {
            if i > 0 {
                assert(split(s, c)[i] == split(s.skip(k + 1), c)[i - 1]);
            }
        }
    } else {
        assert(!s.contains(c));
    }
}

pub fn split_of(s: &str, c: char) -> (out: Vec<String>)
    ensures
        views(out@) == split(s@, c),
        out@.len() > 0,
{
    let mut out: Vec<String> = Vec::new();
    let mut piece = String::new();
    assert(views(out@) =~= Seq::<Seq<char>>::empty());
    assert(views(out@) + split(piece@ + s@.skip(0), c) =~= split(s@, c)) by {
        assert(piece@ + s@.skip(0) =~= s@);
    }
    for x in iter: s.chars()
        invariant
            iter.seq() == s@,
            !piece@.contains(c),
            views(out@) + split(piece@ + s@.skip(iter.index() as int), c) == split(s@, c),
    {
        let ghost i = iter.index() as int;
        if x == c {
            proof {
                lemma_split_first(piece@, c, s@.skip(i + 1));
                assert(piece@ + s@.skip(i) =~= piece@.push(c) + s@.skip(i + 1));
                lemma_views_push(out@, piece);
                assert(views(out@) + (seq![piece@] + split(s@.skip(i + 1), c)) =~= views(out@).push(
                    piece@,
                ) + split(s@.skip(i + 1), c));
            }
            out.push(piece);
            piece = String::new();
            assert(piece@ + s@.skip(i + 1) =~= s@.skip(i + 1));
        } else {
            let ghost before = piece@;
            piece.push(x);
            assert(before + s@.skip(i) =~= piece@ + s@.skip(i + 1));
            assert forall|j: int| 0 <= j < piece@.len() implies piece@[j] != c by {
                if j < before.len() {
                    assert(before.contains(before[j]));
                }
            }
        }
    }
    proof {
        lemma_split_last(piece@, c);
        lemma_views_push(out@, piece);
        assert(piece@ + s@.skip(s@.len() as int) =~= piece@);
        assert(views(out@) + seq![piece@] =~= views(out@).push(piece@));
    }
    out.push(piece);
    out
}

/// A line's text without the carriage return that ended it.
pub open spec fn chop_return(s: Seq<char>) -> Seq<char> {
    if s.len() > 0 && s.last() == '\r' {
        s.drop_last()
    } else {
        s
    }
}

/// The lines of a text. A line ends with a line feed, with a carriage return and a line feed, or
/// with the text; the last line feed is not followed by an empty line.
pub open spec fn lines(s: Seq<char>) -> Seq<Seq<char>>
    decreases s.len(),
{
    proof {
        lemma_upto(s, '\n');
    }
    if s.len() == 0 {
        seq![]
    } else if upto(s, '\n') == s.len() {
        seq![s]
    } else {
        seq![chop_return(s.take(upto(s, '\n')))] + lines(s.skip(upto(s, '\n') + 1))
    }
}

/// A line followed by a line feed is the first line.
pub proof fn lemma_lines_first(line: Seq<char>, rest: Seq<char>)
    requires
        !line.contains('\n'),
    ensures
        lines(line.push('\n') + rest) == seq![chop_return(line)] + lines(rest),
{
    let s = line.push('\n') + rest;
    lemma_upto_is(s, '\n', line.len() as int);
    assert(s.take(line.len() as int) =~= line);
    assert(s.skip(line.len() as int + 1) =~= rest);
}

pub proof fn lemma_lines_last(line: Seq<char>)
    requires
        !line.contains('\n'),
    ensures
        lines(line) == if line.len() == 0 {
            Seq::<Seq<char>>::empty()
        } else {
            seq![line]
        },
{
    lemma_upto_is(line, '\n', line.len() as int);
}

/// No line holds a line feed, and each takes up at least one character of the text.
pub proof fn lemma_lines(s: Seq<char>)
    ensures
        forall|i: int| 0 <= i < lines(s).len() ==> !(#[trigger] lines(s)[i]).contains('\n'),
        lines(s).len() <= s.len(),
    decreases s.len(),
{
    lemma_upto(s, '\n');
    let k = upto(s, '\n');
    if s.len() > 0 {
        if k < s.len() {
            lemma_lines(s.skip(k + 1));
            assert(!chop_return(s.take(k)).contains('\n'));
            assert forall|i: int| 0 <= i < lines(s).len() implies !(#[trigger] lines(
                s,
            )[i]).contains('\n') by {
                if i > 0 {
                    assert(lines(s)[i] == lines(s.skip(k + 1))[i - 1]);
                }
            }
        } else {
            assert(!s.contains('\n'));
        }
    }
}

/// Without the carriage return at the end, if there is one.
fn chopped(s: String) -> (out: String)
    ensures
        out@ == chop_return(s@),
{
    let chars = chars_of(&s);
    let n: usize = chars.len();
    if n > 0 && chars[n - 1] == '\r' {
        assert(chars@.subrange(0, n - 1) =~= s@.drop_last());
        string_of(vstd::slice::slice_subrange(&chars, 0, n - 1))
    } else {
        s
    }
}

pub fn lines_of(s: &str) -> (out: Vec<String>)
    ensures
        views(out@) == lines(s@),
{
    let mut out: Vec<String> = Vec::new();
    let mut line = String::new();
    assert(views(out@) =~= Seq::<Seq<char>>::empty());
    assert(views(out@) + lines(line@ + s@.skip(0)) =~= lines(s@)) by {
        assert(line@ + s@.skip(0) =~= s@);
    }
    for x in iter: s.chars()
        invariant
            iter.seq() == s@,
            !line@.contains('\n'),
            views(out@) + lines(line@ + s@.skip(iter.index() as int)) == lines(s@),
    {
        let ghost i = iter.index() as int;
        if x == '\n' {
            let ghost before = line@;
            let whole = chopped(line);
            proof {
                lemma_lines_first(before, s@.skip(i + 1));
                assert(before + s@.skip(i) =~= before.push('\n') + s@.skip(i + 1));
                lemma_views_push(out@, whole);
                assert(views(out@) + (seq![whole@] + lines(s@.skip(i + 1))) =~= views(out@).push(
                    whole@,
                ) + lines(s@.skip(i + 1)));
            }
            out.push(whole);
            line = String::new();
            assert(line@ + s@.skip(i + 1) =~= s@.skip(i + 1));
        } else {
            let ghost before = line@;
            line.push(x);
            assert(before + s@.skip(i) =~= line@ + s@.skip(i + 1));
            assert forall|j: int| 0 <= j < line@.len() implies line@[j] != '\n' by {
                if j < before.len() {
                    assert(before.contains(before[j]));
                }
            }
        }
    }
    proof {
        lemma_lines_last(line@);
        assert(line@ + s@.skip(s@.len() as int) =~= line@);
    }
    let empty: bool = line.as_str().is_empty();
    if !empty {
        proof {
            lemma_views_push(out@, line);
            assert(views(out@) + seq![line@] =~= views(out@).push(line@));
        }
        out.push(line);
    } else {
        assert(views(out@) + Seq::<Seq<char>>::empty() =~= views(out@));
    }
    out
}

/// The pieces of a list with a separator between each two.
pub open spec fn join(list: Seq<Seq<char>>, sep: Seq<char>) -> Seq<char>
    decreases list.len(),
{
    if list.len() == 0 {
        seq![]
    } else if list.len() == 1 {
        list[0]
    } else {
        join(list.drop_last(), sep) + sep + list.last()
    }
}

pub proof fn lemma_join_push(list: Seq<Seq<char>>, x: Seq<char>, sep: Seq<char>)
    ensures
        join(list.push(x), sep) == if list.len() == 0 {
            x
        } else {
            join(list, sep) + sep + x
        },
{
    assert(list.push(x).drop_last() =~= list);
}

pub proof fn lemma_join_prepend(x: Seq<char>, ls: Seq<Seq<char>>, sep: Seq<char>)
    ensures
        join(seq![x] + ls, sep) == if ls.len() == 0 {
            x
        } else {
            x + sep + join(ls, sep)
        },
    decreases ls.len(),
{
    let whole = seq![x] + ls;
    if ls.len() == 0 {
        assert(whole =~= seq![x]);
    } else {
        assert(whole.drop_last() =~= seq![x] + ls.drop_last());
        lemma_join_prepend(x, ls.drop_last(), sep);
        if ls.len() == 1 {
            assert(join(whole, sep) =~= x + sep + ls[0]);
        } else {
            assert(join(whole, sep) =~= x + sep + join(ls, sep));
        }
    }
}

pub fn join_of(list: &[String], sep: &str) -> (out: String)
    ensures
        out@ == join(views(list@), sep@),
{
    let mut out = String::new();
    let mut i: usize = 0;
    while i < list.len()
        invariant
            i <= list@.len(),
            out@ == join(views(list@).take(i as int), sep@),
        decreases list@.len() - i,
    {
        proof {
            assert(views(list@).take(i + 1) =~= views(list@).take(i as int).push(list@[i as int]@));
            lemma_join_push(views(list@).take(i as int), list@[i as int]@, sep@);
        }
        if i > 0 {
            out.append(sep);
        }
        out.append(&list[i]);
        i += 1;
    }
    assert(views(list@).take(i as int) =~= views(list@));
    out
}

// ---------------------------------------------------------------------------------------------
// Looking for text

/// Whether `s` begins with `prefix`.
pub open spec fn begins(s: Seq<char>, prefix: Seq<char>) -> bool {
    prefix.len() <= s.len() && s.take(prefix.len() as int) == prefix
}

/// Whether `needle` stands at position `i` of `s`.
pub open spec fn stands_at(s: Seq<char>, needle: Seq<char>, i: int) -> bool {
    0 <= i && i + needle.len() <= s.len() && s.subrange(i, i + needle.len()) == needle
}

/// Whether `needle` stands anywhere in `s`.
pub open spec fn holds(s: Seq<char>, needle: Seq<char>) -> bool {
    exists|i: int| stands_at(s, needle, i)
}

/// The first place at or after `from` where `needle` stands.
pub open spec fn find_from(s: Seq<char>, needle: Seq<char>, from: int) -> Option<int>
    decreases s.len() - from + 1,
{
    if from < 0 || from + needle.len() > s.len() {
        None
    } else if stands_at(s, needle, from) {
        Some(from)
    } else {
        find_from(s, needle, from + 1)
    }
}

pub proof fn lemma_find_from(s: Seq<char>, needle: Seq<char>, from: int)
    requires
        0 <= from,
    ensures
        find_from(s, needle, from) matches Some(at) ==> {
            &&& from <= at
            &&& stands_at(s, needle, at)
            &&& forall|i: int| from <= i < at ==> !stands_at(s, needle, i)
        },
        find_from(s, needle, from) is None ==> forall|i: int|
            from <= i ==> !stands_at(s, needle, i),
    decreases s.len() - from + 1,
{
    if from + needle.len() <= s.len() && !stands_at(s, needle, from) {
        lemma_find_from(s, needle, from + 1);
    }
}

/// Whether `needle` stands at position `i`.
pub fn is_at(s: &[char], needle: &[char], i: usize) -> (out: bool)
    requires
        i <= s@.len(),
    ensures
        out == stands_at(s@, needle@, i as int),
{
    if needle.len() > s.len() - i {
        return false;
    }
    let mut j: usize = 0;
    while j < needle.len()
        invariant
            j <= needle@.len(),
            i + needle@.len() <= s.len(),
            forall|k: int| 0 <= k < j ==> s@[i + k] == needle@[k],
        decreases needle@.len() - j,
    {
        if s[i + j] != needle[j] {
            assert(s@.subrange(i as int, i + needle@.len())[j as int] != needle@[j as int]);
            return false;
        }
        j += 1;
    }
    assert(s@.subrange(i as int, i + needle@.len()) =~= needle@);
    true
}

/// The first place at or after `from` where `needle` stands.
pub fn find_of(s: &[char], needle: &[char], from: usize) -> (out: Option<usize>)
    requires
        from <= s@.len(),
    ensures
        out matches Some(at) ==> find_from(s@, needle@, from as int) == Some(at as int),
        out is None ==> find_from(s@, needle@, from as int) is None,
{
    if needle.len() > s.len() - from {
        return None;
    }
    let last: usize = s.len() - needle.len();
    let mut i: usize = from;
    while i < last
        invariant
            from <= i <= last,
            last == s@.len() - needle@.len(),
            find_from(s@, needle@, from as int) == find_from(s@, needle@, i as int),
        decreases last - i,
    {
        if is_at(s, needle, i) {
            return Some(i);
        }
        i += 1;
    }
    if is_at(s, needle, i) {
        Some(i)
    } else {
        assert(find_from(s@, needle@, i + 1) is None);
        None
    }
}

/// Whether `s` begins with `prefix`.
pub fn begins_with(s: &[char], prefix: &[char]) -> (out: bool)
    ensures
        out == begins(s@, prefix@),
{
    let out = is_at(s, prefix, 0);
    assert(prefix@.len() <= s@.len() ==> s@.take(prefix@.len() as int) =~= s@.subrange(
        0,
        prefix@.len() as int,
    ));
    out
}

// ---------------------------------------------------------------------------------------------
// Sizes in bytes

/// How many bytes the text takes in UTF-8.
pub open spec fn byte_len(s: Seq<char>) -> nat {
    encode_utf8(s).len()
}

/// How many bytes one character takes in UTF-8.
pub open spec fn width(c: char) -> nat {
    let n = c as u32;
    if n <= 0x7f {
        1
    } else if n <= 0x7ff {
        2
    } else if n <= 0xffff {
        3
    } else {
        4
    }
}

pub proof fn lemma_byte_len_first(s: Seq<char>)
    requires
        s.len() > 0,
    ensures
        byte_len(s) == width(s[0]) + byte_len(s.drop_first()),
{
    char_is_scalar(s[0]);
    assert(encode_scalar(s[0] as u32).len() == width(s[0]));
}

pub proof fn lemma_byte_len_add(a: Seq<char>, b: Seq<char>)
    ensures
        byte_len(a + b) == byte_len(a) + byte_len(b),
    decreases a.len(),
{
    if a.len() == 0 {
        assert(a + b =~= b);
        assert(byte_len(a) == 0);
    } else {
        assert((a + b).drop_first() =~= a.drop_first() + b);
        lemma_byte_len_add(a.drop_first(), b);
        lemma_byte_len_first(a);
        lemma_byte_len_first(a + b);
    }
}

pub proof fn lemma_byte_len_push(a: Seq<char>, c: char)
    ensures
        byte_len(a.push(c)) == byte_len(a) + width(c),
{
    assert(a.push(c) =~= a + seq![c]);
    lemma_byte_len_add(a, seq![c]);
    lemma_byte_len_first(seq![c]);
    assert(seq![c].drop_first() =~= Seq::<char>::empty());
    assert(byte_len(Seq::<char>::empty()) == 0);
}

/// A text takes at least one byte for each of its characters, and none when it is empty.
pub proof fn lemma_byte_len_chars(s: Seq<char>)
    ensures
        s.len() <= byte_len(s),
        byte_len(s) == 0 <==> s.len() == 0,
    decreases s.len(),
{
    if s.len() > 0 {
        lemma_byte_len_first(s);
        lemma_byte_len_chars(s.drop_first());
    }
}

/// The bytes of two texts put together are the bytes of the one and of the other.
proof fn lemma_bytes_add(a: Seq<char>, b: Seq<char>)
    ensures
        encode_utf8(a + b) == encode_utf8(a) + encode_utf8(b),
    decreases a.len(),
{
    if a.len() == 0 {
        assert(a + b =~= b);
        assert(encode_utf8(a) + encode_utf8(b) =~= encode_utf8(b));
    } else {
        assert((a + b).drop_first() =~= a.drop_first() + b);
        lemma_bytes_add(a.drop_first(), b);
        assert(encode_utf8(a + b) =~= encode_utf8(a) + encode_utf8(b));
    }
}

/// The bytes of a text from where a prefix of it ends are the bytes of the rest.
pub proof fn lemma_bytes_after(s: Seq<char>, k: int, rest: Seq<char>)
    requires
        0 <= k <= s.len(),
        encode_utf8(rest) == encode_utf8(s).subrange(
            byte_len(s.take(k)) as int,
            byte_len(s) as int,
        ),
    ensures
        rest == s.skip(k),
{
    lemma_bytes_add(s.take(k), s.skip(k));
    assert(s.take(k) + s.skip(k) =~= s);
    assert(encode_utf8(rest) =~= encode_utf8(s.skip(k)));
    encode_utf8_decode_utf8(rest);
    encode_utf8_decode_utf8(s.skip(k));
}

/// A place in the bytes of a text is between two characters exactly where a prefix of it ends.
pub proof fn lemma_boundary(s: Seq<char>, index: int)
    ensures
        is_char_boundary(encode_utf8(s), index) <==> exists|k: int|
            0 <= k <= s.len() && byte_len(#[trigger] s.take(k)) == index,
    decreases s.len(),
{
    let bytes = encode_utf8(s);
    encode_utf8_valid_utf8(s);
    assert(byte_len(s.take(0)) == 0) by {
        lemma_byte_len_chars(s.take(0));
    }
    assert forall|k: int| 0 <= k <= s.len() implies byte_len(#[trigger] s.take(k)) <= byte_len(
        s,
    ) by {
        lemma_byte_len_add(s.take(k), s.skip(k));
        assert(s.take(k) + s.skip(k) =~= s);
    }
    if s.len() > 0 && 0 < index <= bytes.len() {
        let rest = s.drop_first();
        let first = width(s[0]) as int;
        encode_utf8_first_scalar(s);
        char_is_scalar(s[0]);
        assert(encode_scalar(s[0] as u32).len() == first);
        assert(pop_first_scalar(bytes) =~= encode_utf8(rest));
        lemma_boundary(rest, index - first);
        assert forall|k: int| 0 < k <= s.len() implies byte_len(#[trigger] s.take(k)) == first
            + byte_len(rest.take(k - 1)) by {
            lemma_byte_len_first(s.take(k));
            assert(s.take(k).drop_first() =~= rest.take(k - 1));
        }
        if is_char_boundary(bytes, index) {
            let k = choose|k: int|
                0 <= k <= rest.len() && byte_len(#[trigger] rest.take(k)) == index - first;
            assert(rest.take(k + 1 - 1) == rest.take(k));
            assert(byte_len(s.take(k + 1)) == index);
        }
        if exists|k: int| 0 <= k <= s.len() && byte_len(#[trigger] s.take(k)) == index {
            let k = choose|k: int| 0 <= k <= s.len() && byte_len(#[trigger] s.take(k)) == index;
            assert(k > 0);
            assert(byte_len(rest.take(k - 1)) == index - first);
        }
    }
}

/// How many bytes the text takes.
pub fn size_of(s: &str) -> (out: usize)
    ensures
        out == byte_len(s@),
{
    s.as_bytes().len()
}

/// How many bytes one character takes.
pub fn width_of(c: char) -> (out: usize)
    ensures
        out == width(c),
        1 <= out <= 4,
{
    let n: u32 = c as u32;
    if n <= 0x7f {
        1
    } else if n <= 0x7ff {
        2
    } else if n <= 0xffff {
        3
    } else {
        4
    }
}

// ---------------------------------------------------------------------------------------------
// Order

/// Whether one text comes after another, character by character from `from` on.
pub open spec fn after_from(a: Seq<char>, b: Seq<char>, from: int) -> bool
    decreases a.len() - from,
{
    if from < 0 || from >= a.len() {
        false
    } else if from >= b.len() {
        true
    } else if a[from] == b[from] {
        after_from(a, b, from + 1)
    } else {
        a[from] > b[from]
    }
}

pub fn comes_after(a: &str, b: &str) -> (out: bool)
    ensures
        out == after_from(a@, b@, 0),
{
    let left = chars_of(a);
    let right = chars_of(b);
    let mut i: usize = 0;
    while i < left.len()
        invariant
            left@ == a@,
            right@ == b@,
            i <= left@.len(),
            after_from(a@, b@, 0) == after_from(a@, b@, i as int),
        decreases left@.len() - i,
    {
        if i >= right.len() {
            return true;
        }
        if left[i] != right[i] {
            return left[i] > right[i];
        }
        i += 1;
    }
    false
}

pub proof fn lemma_after_transitive(a: Seq<char>, b: Seq<char>, c: Seq<char>, from: int)
    requires
        0 <= from,
        after_from(a, b, from),
        after_from(b, c, from),
    ensures
        after_from(a, c, from),
    decreases a.len() - from,
{
    if from < c.len() && a[from] == b[from] && b[from] == c[from] {
        lemma_after_transitive(a, b, c, from + 1);
    }
}

pub proof fn lemma_not_after_itself(a: Seq<char>, from: int)
    ensures
        !after_from(a, a, from),
    decreases a.len() - from,
{
    if 0 <= from < a.len() {
        lemma_not_after_itself(a, from + 1);
    }
}

// ---------------------------------------------------------------------------------------------
// Letters

/// A letter without its ASCII case.
pub open spec fn ascii_lower(c: char) -> char {
    if 'A' <= c <= 'Z' {
        ((c as int) + 32) as char
    } else {
        c
    }
}

/// A text without its ASCII case.
pub open spec fn lowered(s: Seq<char>) -> Seq<char> {
    Seq::new(s.len(), |i: int| ascii_lower(s[i]))
}

fn lower_letter(c: char) -> (out: char)
    ensures
        out == ascii_lower(c),
{
    match c {
        'A' => 'a',
        'B' => 'b',
        'C' => 'c',
        'D' => 'd',
        'E' => 'e',
        'F' => 'f',
        'G' => 'g',
        'H' => 'h',
        'I' => 'i',
        'J' => 'j',
        'K' => 'k',
        'L' => 'l',
        'M' => 'm',
        'N' => 'n',
        'O' => 'o',
        'P' => 'p',
        'Q' => 'q',
        'R' => 'r',
        'S' => 's',
        'T' => 't',
        'U' => 'u',
        'V' => 'v',
        'W' => 'w',
        'X' => 'x',
        'Y' => 'y',
        'Z' => 'z',
        _ => c,
    }
}

pub fn lowered_of(s: &[char]) -> (out: Vec<char>)
    ensures
        out@ == lowered(s@),
{
    let mut out: Vec<char> = Vec::new();
    let mut i: usize = 0;
    while i < s.len()
        invariant
            i <= s@.len(),
            out@.len() == i,
            forall|k: int| 0 <= k < i ==> #[trigger] out@[k] == ascii_lower(s@[k]),
        decreases s@.len() - i,
    {
        out.push(lower_letter(s[i]));
        i += 1;
    }
    assert(out@ =~= lowered(s@));
    out
}

// ---------------------------------------------------------------------------------------------
// Numbers in decimal

/// The character for a digit.
pub open spec fn digit(d: int) -> char {
    (('0' as u32) + d) as u32 as char
}

/// A number in decimal, without leading zeros.
pub open spec fn decimal(n: nat) -> Seq<char>
    decreases n,
{
    if n < 10 {
        seq![digit(n as int)]
    } else {
        decimal(n / 10).push(digit((n % 10) as int))
    }
}

/// A number in decimal, with a minus sign when it is negative.
pub open spec fn signed_decimal(n: int) -> Seq<char> {
    if n < 0 {
        seq!['-'] + decimal((-n) as nat)
    } else {
        decimal(n as nat)
    }
}

fn digit_of(d: u64) -> (out: char)
    requires
        d < 10,
    ensures
        out == digit(d as int),
{
    if d == 0 {
        '0'
    } else if d == 1 {
        '1'
    } else if d == 2 {
        '2'
    } else if d == 3 {
        '3'
    } else if d == 4 {
        '4'
    } else if d == 5 {
        '5'
    } else if d == 6 {
        '6'
    } else if d == 7 {
        '7'
    } else if d == 8 {
        '8'
    } else {
        '9'
    }
}

pub fn decimal_of(n: u64) -> (out: String)
    ensures
        out@ == decimal(n as nat),
    decreases n,
{
    if n < 10 {
        let mut out = String::new();
        out.push(digit_of(n));
        assert(out@ =~= decimal(n as nat));
        out
    } else {
        let mut out = decimal_of(n / 10);
        out.push(digit_of(n % 10));
        out
    }
}

pub fn count_of(n: usize) -> (out: String)
    ensures
        out@ == decimal(n as nat),
{
    decimal_of(n as u64)
}

pub fn signed_decimal_of(n: i32) -> (out: String)
    ensures
        out@ == signed_decimal(n as int),
{
    if n < 0 {
        let mut out = String::new();
        out.push('-');
        let rest = decimal_of((-(n as i64)) as u64);
        out.append(&rest);
        assert(out@ =~= signed_decimal(n as int));
        out
    } else {
        decimal_of(n as u64)
    }
}

/// The value a digit stands for.
pub open spec fn digit_value(c: char) -> Option<int> {
    if '0' <= c <= '9' {
        Some(c as int - '0' as int)
    } else {
        None
    }
}

/// The number that a row of decimal digits spells: none when there is anything else in it.
pub open spec fn digits_value(s: Seq<char>) -> Option<nat>
    decreases s.len(),
{
    if s.len() == 0 {
        Some(0)
    } else {
        match (digits_value(s.drop_last()), digit_value(s.last())) {
            (Some(n), Some(d)) => Some((n * 10 + d) as nat),
            _ => None,
        }
    }
}

/// The 64-bit number a text spells: digits, at least one of them, with an optional plus sign in
/// front.
pub open spec fn parse_number(s: Seq<char>) -> Option<nat> {
    let digits = if s.len() > 0 && s[0] == '+' {
        s.drop_first()
    } else {
        s
    };
    if digits.len() == 0 {
        None
    } else {
        match digits_value(digits) {
            Some(n) if n <= u64::MAX => Some(n),
            _ => None,
        }
    }
}

/// What a decimal spells is the number it was made of.
pub proof fn lemma_decimal_value(n: nat)
    ensures
        digits_value(decimal(n)) == Some(n),
        decimal(n).len() > 0,
        forall|i: int| 0 <= i < decimal(n).len() ==> '0' <= #[trigger] decimal(n)[i] <= '9',
    decreases n,
{
    if n < 10 {
        assert(decimal(n).drop_last() =~= Seq::<char>::empty());
        assert(digits_value(Seq::<char>::empty()) == Some(0nat));
    } else {
        lemma_decimal_value(n / 10);
        assert(decimal(n).drop_last() =~= decimal(n / 10));
    }
}

pub proof fn lemma_digits_monotone(s: Seq<char>, k: int)
    requires
        0 <= k <= s.len(),
    ensures
        digits_value(s.take(k)) is None ==> digits_value(s) is None,
        digits_value(s) matches Some(n) ==> digits_value(s.take(k))->0 <= n,
    decreases s.len() - k,
{
    if k < s.len() {
        lemma_digits_monotone(s, k + 1);
        assert(s.take(k + 1).drop_last() =~= s.take(k));
    } else {
        assert(s.take(k) =~= s);
    }
}

pub fn parse_number_of(s: &[char]) -> (out: Option<u64>)
    ensures
        out matches Some(n) ==> parse_number(s@) == Some(n as nat),
        out is None ==> parse_number(s@) is None,
{
    let start: usize = if s.len() > 0 && s[0] == '+' {
        1
    } else {
        0
    };
    let ghost digits = s@.skip(start as int);
    assert(start == 1 ==> digits =~= s@.drop_first());
    assert(start == 0 ==> digits =~= s@);
    if start == s.len() {
        return None;
    }
    let mut n: u64 = 0;
    let mut i: usize = start;
    assert(digits.take(0) =~= Seq::<char>::empty());
    while i < s.len()
        invariant
            start <= i <= s@.len(),
            start <= 1,
            digits == s@.skip(start as int),
            digits_value(digits.take(i - start)) == Some(n as nat),
            start < s@.len(),
            parse_number(s@) == (match digits_value(digits) {
                Some(v) if v <= u64::MAX => Some(v),
                _ => None::<nat>,
            }),
        decreases s@.len() - i,
    {
        let c: char = s[i];
        proof {
            assert(digits.take(i - start + 1).drop_last() =~= digits.take(i - start));
            assert(digits.take(i - start + 1).last() == c);
            lemma_digits_monotone(digits, i - start + 1);
        }
        if c < '0' || '9' < c {
            return None;
        }
        let d: u64 = (c as u32 - '0' as u32) as u64;
        if n > u64::MAX / 10 || n * 10 > u64::MAX - d {
            return None;
        }
        n = n * 10 + d;
        i += 1;
    }
    assert(digits.take(i - start) =~= digits);
    Some(n)
}

// ---------------------------------------------------------------------------------------------
// Laws

proof fn lemma_trim_start_parts(s: Seq<char>)
    ensures
        trim_start(s).len() <= s.len(),
        trim_start(s) == s.skip(s.len() - trim_start(s).len()),
        blank(s.take(s.len() - trim_start(s).len())),
        trim_start(s).len() > 0 ==> !white(trim_start(s)[0]),
    decreases s.len(),
{
    if s.len() > 0 && white(s[0]) {
        let rest = s.drop_first();
        lemma_trim_start_parts(rest);
        let k = s.len() - trim_start(s).len();
        assert(s.skip(k) =~= rest.skip(k - 1));
        assert forall|i: int| 0 <= i < k implies white(#[trigger] s.take(k)[i]) by {
            if i > 0 {
                assert(s.take(k)[i] == rest.take(k - 1)[i - 1]);
            }
        }
    } else {
        assert(s.skip(0) =~= s);
    }
}

proof fn lemma_trim_end_parts(s: Seq<char>)
    ensures
        trim_end(s).len() <= s.len(),
        trim_end(s) == s.take(trim_end(s).len() as int),
        blank(s.skip(trim_end(s).len() as int)),
        trim_end(s).len() > 0 ==> !white(trim_end(s).last()),
    decreases s.len(),
{
    if s.len() > 0 && white(s.last()) {
        let rest = s.drop_last();
        lemma_trim_end_parts(rest);
        let k = trim_end(s).len() as int;
        assert(s.take(k) =~= rest.take(k));
        assert forall|i: int| 0 <= i < s.len() - k implies white(#[trigger] s.skip(k)[i]) by {
            if i < rest.len() - k {
                assert(s.skip(k)[i] == rest.skip(k)[i]);
            }
        }
    } else {
        assert(s.take(s.len() as int) =~= s);
    }
}

/// Trimming takes away white space at the two ends, all of it, and nothing else.
pub proof fn law_trimming_takes_only_white_space(s: Seq<char>) -> (cut: (Seq<char>, Seq<char>))
    ensures
        s == cut.0 + trim(s) + cut.1,
        blank(cut.0),
        blank(cut.1),
        trim(s).len() > 0 ==> !white(trim(s)[0]) && !white(trim(s).last()),
{
    lemma_trim_start_parts(s);
    let start = trim_start(s);
    lemma_trim_end_parts(start);
    let front = s.take(s.len() - start.len());
    let back = start.skip(trim(s).len() as int);
    assert(s =~= front + trim(s) + back);
    if trim(s).len() > 0 {
        assert(trim(s)[0] == start[0]);
    }
    (front, back)
}

/// Taking a text apart at a character and putting the pieces together with it gives the text back,
/// and no piece holds the character.
pub proof fn law_pieces_make_up_their_text(s: Seq<char>, c: char)
    ensures
        split(s, c).len() > 0,
        join(split(s, c), seq![c]) == s,
        forall|i: int| 0 <= i < split(s, c).len() ==> !(#[trigger] split(s, c)[i]).contains(c),
    decreases s.len(),
{
    lemma_upto(s, c);
    lemma_split_pieces(s, c);
    let k = upto(s, c);
    if k < s.len() {
        let rest = s.skip(k + 1);
        law_pieces_make_up_their_text(rest, c);
        lemma_split_pieces(rest, c);
        assert(split(s, c) == seq![s.take(k)] + split(rest, c));
        lemma_join_prepend(s.take(k), split(rest, c), seq![c]);
        assert(s.take(k) + seq![c] + rest =~= s);
        assert forall|i: int| 0 <= i < split(s, c).len() implies !(#[trigger] split(
            s,
            c,
        )[i]).contains(c) by {
            if i > 0 {
                assert(split(s, c)[i] == split(rest, c)[i - 1]);
            }
        }
    } else {
        assert(split(s, c) =~= seq![s]);
        reveal_with_fuel(join, 2);
        assert(seq![s].drop_last() =~= Seq::<Seq<char>>::empty());
    }
}

/// The letters of a text without their case: only the twenty-six capitals change, each into its own
/// small letter.
pub proof fn law_only_capitals_are_lowered(s: Seq<char>, i: int)
    requires
        0 <= i < s.len(),
    ensures
        lowered(s).len() == s.len(),
        'A' <= s[i] <= 'Z' ==> lowered(s)[i] as int == s[i] as int + 32,
        !('A' <= s[i] <= 'Z') ==> lowered(s)[i] == s[i],
{
}

/// Whether two texts are the same up to a position, where the second ends or has the smaller
/// character.
pub open spec fn differ_at(a: Seq<char>, b: Seq<char>, k: int) -> bool {
    &&& 0 <= k < a.len()
    &&& k <= b.len()
    &&& a.take(k) == b.take(k)
    &&& k == b.len() || a[k] > b[k]
}

/// Whether a text comes later than another in the order of a dictionary.
pub open spec fn comes_later(a: Seq<char>, b: Seq<char>) -> bool {
    exists|k: int| differ_at(a, b, k)
}

proof fn lemma_after_from(a: Seq<char>, b: Seq<char>, from: int)
    requires
        0 <= from <= a.len(),
        from <= b.len(),
        a.take(from) == b.take(from),
    ensures
        after_from(a, b, from) <==> comes_later(a, b),
    decreases a.len() - from,
{
    if comes_later(a, b) {
        let k = choose|k: int| differ_at(a, b, k);
        if k < from {
            assert(a.take(from)[k] == a[k]);
            assert(b.take(from)[k] == b[k]);
        }
        if from < k {
            assert(a.take(k)[from] == a[from]);
            assert(b.take(k)[from] == b[from]);
        }
    }
    if from < a.len() {
        if from == b.len() {
            assert(differ_at(a, b, from));
        } else if a[from] == b[from] {
            assert(a.take(from + 1) =~= a.take(from).push(a[from]));
            assert(b.take(from + 1) =~= b.take(from).push(b[from]));
            lemma_after_from(a, b, from + 1);
        } else if a[from] > b[from] {
            assert(differ_at(a, b, from));
        }
    }
}

/// Texts are ordered by the first character in which they differ; a text that only goes on comes
/// after the one it begins with.
pub proof fn law_text_is_ordered_by_its_first_difference(a: Seq<char>, b: Seq<char>)
    ensures
        after_from(a, b, 0) <==> comes_later(a, b),
{
    assert(a.take(0) =~= b.take(0));
    lemma_after_from(a, b, 0);
}

/// A text is read line by line: what stands before a line end is a line, without the carriage return
/// that may belong to the end, what stands behind the last end is one if there is anything, and a
/// text without a line end is a single line as it is.
pub proof fn law_lines_end_with_a_line_feed(line: Seq<char>, rest: Seq<char>)
    requires
        !line.contains('\n'),
    ensures
        lines(line.push('\r').push('\n') + rest) == seq![line] + lines(rest),
        line.len() == 0 || line.last() != '\r' ==> lines(line.push('\n') + rest) == seq![line]
            + lines(rest),
        line.len() > 0 ==> lines(line) == seq![line],
        lines(Seq::empty()).len() == 0,
{
    let returned = line.push('\r');
    assert(!returned.contains('\n')) by {
        assert forall|i: int| 0 <= i < returned.len() implies returned[i] != '\n' by {
            if i < line.len() {
                assert(line.contains(line[i]));
            }
        }
    }
    lemma_lines_first(returned, rest);
    assert(chop_return(returned) =~= line);
    lemma_lines_first(line, rest);
    lemma_lines_last(line);
}

/// White space around a text makes no difference to its trimming: what is left is the text from its
/// first character that is none to its last.
pub proof fn law_trimming_undoes_padding(a: Seq<char>, x: Seq<char>, b: Seq<char>)
    requires
        blank(a),
        blank(b),
        x.len() > 0,
        !white(x[0]),
        !white(x.last()),
    ensures
        trim(a + x + b) == x,
        trim_start(a + x + b) == x + b,
{
    let s = a + x + b;
    lemma_trim_start_parts(s);
    let start = trim_start(s);
    let k = s.len() - start.len();
    if k < a.len() {
        assert(start[0] == s[k]);
        assert(s[k] == a[k]);
        assert(white(a[k]));
    }
    if k > a.len() {
        assert(s.take(k)[a.len() as int] == x[0]);
    }
    assert(start =~= x + b);
    lemma_trim_end_parts(start);
    let n = trim_end(start).len() as int;
    if n > x.len() {
        assert(trim_end(start).last() == start[n - 1]);
        assert(start[n - 1] == b[n - 1 - x.len()]);
    }
    if n < x.len() {
        assert(start.skip(n)[x.len() - 1 - n] == x.last());
    }
    assert(trim(s) =~= x);
}

/// A number is written in digits, without a zero in front of others, and is read back from them, with
/// or without a plus sign; a negative one has a minus sign in front of its magnitude.
pub proof fn law_a_number_is_read_back(n: nat)
    ensures
        forall|i: int| 0 <= i < decimal(n).len() ==> '0' <= #[trigger] decimal(n)[i] <= '9',
        decimal(n).len() > 0,
        n > 0 ==> decimal(n)[0] != '0',
        n <= u64::MAX ==> parse_number(decimal(n)) == Some(n) && parse_number(
            seq!['+'] + decimal(n),
        ) == Some(n),
        signed_decimal(n as int) == decimal(n),
        n > 0 ==> signed_decimal(-n) == seq!['-'] + decimal(n),
    decreases n,
{
    lemma_decimal_value(n);
    assert((seq!['+'] + decimal(n)).drop_first() =~= decimal(n));
    assert('0' <= decimal(n)[0] <= '9');
    if n >= 10 {
        law_a_number_is_read_back(n / 10);
        assert(decimal(n)[0] == decimal(n / 10)[0]);
    }
}

/// What is read as a number is digits and nothing else, at least one of them, behind at most one plus
/// sign.
pub proof fn law_only_digits_are_a_number(s: Seq<char>)
    ensures
        parse_number(s) matches Some(n) ==> n <= u64::MAX && ({
            let digits = if s.len() > 0 && s[0] == '+' {
                s.drop_first()
            } else {
                s
            };
            digits.len() > 0 && forall|i: int|
                0 <= i < digits.len() ==> '0' <= #[trigger] digits[i] <= '9'
        }),
{
    if parse_number(s) is Some {
        let digits = if s.len() > 0 && s[0] == '+' {
            s.drop_first()
        } else {
            s
        };
        lemma_all_digits(digits);
    }
}

proof fn lemma_all_digits(s: Seq<char>)
    requires
        digits_value(s) is Some,
    ensures
        forall|i: int| 0 <= i < s.len() ==> '0' <= #[trigger] s[i] <= '9',
    decreases s.len(),
{
    if s.len() > 0 {
        lemma_all_digits(s.drop_last());
        assert forall|i: int| 0 <= i < s.len() implies '0' <= #[trigger] s[i] <= '9' by {
            if i < s.len() - 1 {
                assert(s.drop_last()[i] == s[i]);
            }
        }
    }
}

/// Where a text stands in another is the first place where it does.
pub proof fn law_the_first_place_is_found(s: Seq<char>, needle: Seq<char>, at: int)
    ensures
        find_from(s, needle, 0) == Some(at) <==> stands_at(s, needle, at) && forall|i: int|
            0 <= i < at ==> !stands_at(s, needle, i),
        find_from(s, needle, 0) is None <==> forall|i: int| !stands_at(s, needle, i),
{
    lemma_find_from(s, needle, 0);
    if stands_at(s, needle, at) && find_from(s, needle, 0) is Some {
        let k = find_from(s, needle, 0)->0;
        assert(stands_at(s, needle, k));
    }
}

} // verus!
