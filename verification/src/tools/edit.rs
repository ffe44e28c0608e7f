//! The `edit` tool: replace exact text, and say precisely why that could not be done.
//!
//! The model gives a snippet that occurs **once** in the file and what should stand there instead.
//! Everything that makes that safe to automate lives here rather than in the model's head:
//!
//! - **Every edit is matched against the file as it is, not against the file as previous edits
//!   left it.** Two edits in one call are two independent passages of the same original text, so
//!   their order in the request cannot change the result.
//! - **A snippet that is not unique is refused, not guessed.** Replacing the first of two matches
//!   is how a tool edits the wrong function.
//! - **Overlapping edits are refused.** They are a sign that the model meant one edit, not two.
//! - **The file's line endings and byte-order mark survive.** Matching happens against the LF form
//!   (so a model that has never seen the file's CRLF can still edit it), and the file's own style is
//!   put back on the way out.
//!
//! A near-miss is an error, and the error text says what to do about it (read the file again, copy
//! the snippet exactly, include more context).

use vstd::prelude::*;

use super::read::{read_whole, whole_text, OnDisk, ReadError, ReadErrorView};
use super::schema::{
    build_parameters, build_property, law_a_property_says_its_type,
    law_a_schema_lists_its_parameters, names, parameters, property,
};
use super::write::{not_written, not_written_text};
use crate::json::{entry_views, no_entries, object, put, text, Json, JsonView};
use crate::text::{
    byte_len, chars_of, copy, count_of, decimal, is_at, size_of, stands_at, string_of,
};

verus! {

#[derive(Debug, Clone, PartialEq, Eq)]
pub struct EditArgs {
    pub path: String,
    /// One or more replacements. Each is matched against the original file.
    pub edits: Vec<Replace>,
}

#[derive(Debug, Clone, PartialEq, Eq)]
pub struct Replace {
    /// Text that occurs exactly once in the file.
    pub old_text: String,
    pub new_text: String,
}

#[verifier::ext_equal]
pub struct ReplaceView {
    pub old_text: Seq<char>,
    pub new_text: Seq<char>,
}

impl View for Replace {
    type V = ReplaceView;

    open spec fn view(&self) -> ReplaceView {
        ReplaceView { old_text: self.old_text@, new_text: self.new_text@ }
    }
}

/// What each replacement of a list says.
pub open spec fn replace_views(edits: Seq<Replace>) -> Seq<ReplaceView> {
    Seq::new(edits.len(), |i: int| edits[i]@)
}

/// What the model is told one replacement is.
pub open spec fn replace_schema() -> JsonView {
    JsonView::Object(
        seq![
            ("type"@, JsonView::Text("object"@)),
            (
                "properties"@,
                JsonView::Object(
                    seq![
                        (
                            "old_text"@,
                            property(
                                "string"@,
                                "Text to replace, copied from the file exactly, appearing only once."@,
                            ),
                        ),
                        (
                            "new_text"@,
                            property(
                                "string"@,
                                "What to put in its place. Empty deletes the snippet."@,
                            ),
                        ),
                    ],
                ),
            ),
            ("required"@, names(seq!["old_text"@, "new_text"@])),
        ],
    )
}

/// The schema the model is shown for an edit.
pub open spec fn edit_schema() -> JsonView {
    parameters(
        seq![
            ("path"@, property("string"@, "Path of the file to edit. `~` is expanded."@)),
            (
                "edits"@,
                JsonView::Object(
                    seq![
                        ("type"@, JsonView::Text("array"@)),
                        ("minItems"@, JsonView::Int(1)),
                        (
                            "description"@,
                            JsonView::Text(
                                "Replacements, all matched against the file as it is now (not one after another). Keep `old_text` as small as it can be while still being unique."@,
                            ),
                        ),
                        ("items"@, replace_schema()),
                    ],
                ),
            ),
        ],
        seq!["path"@, "edits"@],
    )
}

fn build_replace_schema() -> (out: Json)
    ensures
        out@ == replace_schema(),
{
    let mut properties = no_entries();
    put(
        &mut properties,
        "old_text",
        build_property(
            "string",
            "Text to replace, copied from the file exactly, appearing only once.",
        ),
    );
    put(
        &mut properties,
        "new_text",
        build_property("string", "What to put in its place. Empty deletes the snippet."),
    );
    let ghost held = entry_views(properties@);
    let required: [&str; 2] = ["old_text", "new_text"];
    let out = build_parameters(properties, &required);
    assert(held =~= replace_schema()->Object_0[1].1->Object_0);
    assert(Seq::new(required@.len(), |i: int| required@[i]@) =~= seq!["old_text"@, "new_text"@]);
    assert(out@ == parameters(held, seq!["old_text"@, "new_text"@]));
    assert(parameters(held, seq!["old_text"@, "new_text"@])->Object_0
        =~= replace_schema()->Object_0);
    out
}

impl EditArgs {
    /// The JSON schema the model is shown.
    pub fn schema() -> (out: Json)
        ensures
            out@ == edit_schema(),
    {
        let mut edits = no_entries();
        put(&mut edits, "type", text("array"));
        put(&mut edits, "minItems", Json::Unsigned(1));
        put(
            &mut edits,
            "description",
            text(
                "Replacements, all matched against the file as it is now (not one after another). Keep `old_text` as small as it can be while still being unique.",
            ),
        );
        put(&mut edits, "items", build_replace_schema());
        let ghost inner = entry_views(edits@);
        let mut properties = no_entries();
        put(
            &mut properties,
            "path",
            build_property("string", "Path of the file to edit. `~` is expanded."),
        );
        put(&mut properties, "edits", object(edits));
        let ghost held = entry_views(properties@);
        let required: [&str; 2] = ["path", "edits"];
        let out = build_parameters(properties, &required);
        assert(inner =~= edit_schema()->Object_0[1].1->Object_0[1].1->Object_0);
        assert(held =~= edit_schema()->Object_0[1].1->Object_0);
        assert(Seq::new(required@.len(), |i: int| required@[i]@) =~= seq!["path"@, "edits"@]);
        out
    }
}

// ---------------------------------------------------------------------------------------------
// Failures

#[derive(Debug, Clone, PartialEq, Eq)]
pub enum EditError {
    Read(ReadError),
    EmptyOldText { index: usize },
    NotFound { index: usize, path: String },
    NotUnique { index: usize, count: usize },
    Overlap { first: usize, second: usize },
    NoChange,
    Io { path: String, error: String },
}

#[verifier::ext_equal]
pub enum EditErrorView {
    Read(ReadErrorView),
    EmptyOldText { index: int },
    NotFound { index: int, path: Seq<char> },
    NotUnique { index: int, count: int },
    Overlap { first: int, second: int },
    NoChange,
    Io { path: Seq<char>, error: Seq<char> },
}

impl View for EditError {
    type V = EditErrorView;

    open spec fn view(&self) -> EditErrorView {
        match *self {
            EditError::Read(error) => EditErrorView::Read(error@),
            EditError::EmptyOldText { index } => EditErrorView::EmptyOldText { index: index as int },
            EditError::NotFound { index, path } => EditErrorView::NotFound {
                index: index as int,
                path: path@,
            },
            EditError::NotUnique { index, count } => EditErrorView::NotUnique {
                index: index as int,
                count: count as int,
            },
            EditError::Overlap { first, second } => EditErrorView::Overlap {
                first: first as int,
                second: second as int,
            },
            EditError::NoChange => EditErrorView::NoChange,
            EditError::Io { path, error } => EditErrorView::Io { path: path@, error: error@ },
        }
    }
}

impl EditErrorView {
    /// What the model is told. Every one of these is an instruction: the model reads it and has
    /// what it needs to send a request that works.
    pub open spec fn message(self) -> Seq<char> {
        match self {
            EditErrorView::Read(error) => error.message(),
            EditErrorView::EmptyOldText { index } => "edits["@ + decimal(index as nat)
                + "].old_text is empty. Give the exact text to replace — a snippet copied from the file."@,
            EditErrorView::NotFound { index, path } => "edits["@ + decimal(index as nat)
                + "]: could not find that text in "@ + path
                + ". Read the file again and copy the snippet exactly, including its indentation."@,
            EditErrorView::NotUnique { index, count } => "edits["@ + decimal(index as nat)
                + "]: old_text appears "@ + decimal(count as nat)
                + " times in the file. Include more of the surrounding lines so it matches once."@,
            EditErrorView::Overlap { first, second } => "edits["@ + decimal(first as nat)
                + "] and edits["@ + decimal(second as nat)
                + "] cover overlapping parts of the file. Merge them into one edit, or make them cover different text."@,
            EditErrorView::NoChange =>
                "the edit would leave the file exactly as it is. Change new_text, or drop the edit."@,
            EditErrorView::Io { path, error } => not_written(path, error),
        }
    }
}

impl EditError {
    /// What the model is told.
    pub fn message(&self) -> (out: String)
        ensures
            out@ == self@.message(),
    {
        match self {
            EditError::Read(error) => error.message(),
            EditError::EmptyOldText { index } => {
                let mut out = copy("edits[");
                out.append(&count_of(*index));
                out.append(
                    "].old_text is empty. Give the exact text to replace — a snippet copied from the file.",
                );
                out
            },
            EditError::NotFound { index, path } => {
                let mut out = copy("edits[");
                out.append(&count_of(*index));
                out.append("]: could not find that text in ");
                out.append(path);
                out.append(
                    ". Read the file again and copy the snippet exactly, including its indentation.",
                );
                out
            },
            EditError::NotUnique { index, count } => {
                let mut out = copy("edits[");
                out.append(&count_of(*index));
                out.append("]: old_text appears ");
                out.append(&count_of(*count));
                out.append(
                    " times in the file. Include more of the surrounding lines so it matches once.",
                );
                out
            },
            EditError::Overlap { first, second } => {
                let mut out = copy("edits[");
                out.append(&count_of(*first));
                out.append("] and edits[");
                out.append(&count_of(*second));
                out.append(
                    "] cover overlapping parts of the file. Merge them into one edit, or make them cover different text.",
                );
                out
            },
            EditError::NoChange => copy(
                "the edit would leave the file exactly as it is. Change new_text, or drop the edit.",
            ),
            EditError::Io { path, error } => not_written_text(path, error),
        }
    }
}

// ---------------------------------------------------------------------------------------------
// Style

/// The byte-order mark.
pub open spec fn is_mark(c: char) -> bool {
    c == '\u{feff}'
}

pub open spec fn without_mark(s: Seq<char>) -> Seq<char> {
    if s.len() > 0 && is_mark(s[0]) {
        s.skip(1)
    } else {
        s
    }
}

/// Whether a carriage return and a line feed stand together anywhere.
pub open spec fn has_crlf(s: Seq<char>) -> bool {
    exists|i: int| 0 <= i < s.len() - 1 && #[trigger] s[i] == '\r' && s[i + 1] == '\n'
}

/// A text with every CRLF made a line feed.
pub open spec fn to_lf(s: Seq<char>) -> Seq<char>
    decreases s.len(),
{
    if s.len() == 0 {
        s
    } else if s.len() > 1 && s[0] == '\r' && s[1] == '\n' {
        seq!['\n'] + to_lf(s.skip(2))
    } else {
        seq![s[0]] + to_lf(s.skip(1))
    }
}

/// A text with every line feed made a CRLF.
pub open spec fn to_crlf(s: Seq<char>) -> Seq<char>
    decreases s.len(),
{
    if s.len() == 0 {
        s
    } else if s.last() == '\n' {
        to_crlf(s.drop_last()).push('\r').push('\n')
    } else {
        to_crlf(s.drop_last()).push(s.last())
    }
}

/// What it takes to put a file's own style back.
#[derive(Debug, Clone, Copy, PartialEq, Eq, Structural)]
pub struct Style {
    pub bom: bool,
    pub crlf: bool,
}

/// A file as it is matched: without a byte-order mark, and in line feeds.
pub open spec fn matched_text(s: Seq<char>) -> Seq<char> {
    to_lf(without_mark(s))
}

pub open spec fn style_of(s: Seq<char>) -> Style {
    Style { bom: s.len() > 0 && is_mark(s[0]), crlf: has_crlf(without_mark(s)) }
}

impl Style {
    pub open spec fn restored(self, edited: Seq<char>) -> Seq<char> {
        let body = if self.crlf {
            to_crlf(edited)
        } else {
            edited
        };
        if self.bom {
            seq!['\u{feff}'] + body
        } else {
            body
        }
    }

    /// Put the file's own line endings and BOM back on the edited text.
    ///
    /// A CRLF file is matched and edited in LF and written back in CRLF, which is what makes the
    /// untouched lines byte-identical: they were CRLF, they became LF for matching, and they are
    /// CRLF again here. The edit's own new lines get the file's endings too, so a file does not
    /// end up with two styles inside it.
    pub fn restore(&self, edited: &[char]) -> (out: Vec<char>)
        ensures
            out@ == self.restored(edited@),
    {
        let mut out: Vec<char> = Vec::new();
        if self.bom {
            out.push('\u{feff}');
        }
        let ghost start = out@;
        let mut i: usize = 0;
        assert(edited@.take(0) =~= Seq::<char>::empty());
        assert(start + Seq::<char>::empty() =~= start);
        while i < edited.len()
            invariant
                i <= edited@.len(),
                start == if self.bom {
                    seq!['\u{feff}']
                } else {
                    Seq::empty()
                },
                out@ == start + if self.crlf {
                    to_crlf(edited@.take(i as int))
                } else {
                    edited@.take(i as int)
                },
            decreases edited@.len() - i,
        {
            let c = edited[i];
            let ghost before = edited@.take(i as int);
            proof {
                assert(edited@.take(i + 1).drop_last() =~= before);
                assert(edited@.take(i + 1) =~= before.push(c));
            }
            if self.crlf && c == '\n' {
                out.push('\r');
            }
            out.push(c);
            assert(out@ =~= start + if self.crlf {
                to_crlf(edited@.take(i + 1))
            } else {
                edited@.take(i + 1)
            });
            i += 1;
        }
        assert(edited@.take(edited@.len() as int) =~= edited@);
        assert(out@ =~= self.restored(edited@));
        out
    }
}

proof fn lemma_to_lf_push(s: Seq<char>, c: char)
    ensures
        to_lf(s.push(c)) == if s.len() > 0 && s.last() == '\r' && c == '\n' {
            to_lf(s.drop_last()).push('\n')
        } else {
            to_lf(s).push(c)
        },
    decreases s.len(),
{
    let t = s.push(c);
    reveal_with_fuel(to_lf, 3);
    if s.len() == 0 {
        assert(t.skip(1) =~= Seq::<char>::empty());
        assert(to_lf(t) =~= to_lf(s).push(c));
    } else if s.len() == 1 {
        if s[0] == '\r' && c == '\n' {
            assert(t.skip(2) =~= Seq::<char>::empty());
            assert(s.drop_last() =~= Seq::<char>::empty());
            assert(to_lf(t) =~= to_lf(s.drop_last()).push('\n'));
        } else {
            lemma_to_lf_push(s.skip(1), c);
            assert(t.skip(1) =~= s.skip(1).push(c));
            assert(to_lf(t) =~= to_lf(s).push(c));
        }
    } else if s[0] == '\r' && s[1] == '\n' {
        lemma_to_lf_push(s.skip(2), c);
        assert(t.skip(2) =~= s.skip(2).push(c));
        if s.len() > 2 {
            assert(s.skip(2).last() == s.last());
            assert(s.drop_last().skip(2) =~= s.skip(2).drop_last());
        }
        if s.last() == '\r' && c == '\n' {
            assert(s.len() > 2);
            assert(to_lf(t) =~= to_lf(s.drop_last()).push('\n'));
        } else {
            assert(to_lf(t) =~= to_lf(s).push(c));
        }
    } else {
        lemma_to_lf_push(s.skip(1), c);
        assert(t.skip(1) =~= s.skip(1).push(c));
        assert(s.skip(1).last() == s.last());
        assert(s.drop_last().skip(1) =~= s.skip(1).drop_last());
        if s.last() == '\r' && c == '\n' {
            if s.len() == 2 {
                assert(s.drop_last().len() == 1);
            } else {
                assert(!(s.drop_last()[0] == '\r' && s.drop_last()[1] == '\n'));
            }
            assert(to_lf(t) =~= to_lf(s.drop_last()).push('\n'));
        } else {
            assert(to_lf(t) =~= to_lf(s).push(c));
        }
    }
}

/// Strip a byte-order mark and normalise line endings, so the model never has to know either.
pub fn normalize(text: &str) -> (out: (Vec<char>, Style))
    ensures
        out.0@ == matched_text(text@),
        out.1 == style_of(text@),
{
    let chars = chars_of(text);
    let bom: bool = chars.len() > 0 && chars[0] == '\u{feff}';
    let from: usize = if bom {
        1
    } else {
        0
    };
    let ghost body = without_mark(text@);
    let mut crlf: bool = false;
    let mut out: Vec<char> = Vec::new();
    let mut i: usize = from;
    assert(body.take(0) =~= Seq::<char>::empty());
    while i < chars.len()
        invariant
            from <= i <= chars@.len(),
            chars@ == text@,
            from == if bom {
                1int
            } else {
                0
            },
            body == chars@.skip(from as int),
            out@ == to_lf(body.take(i - from)),
            crlf == has_crlf(body.take(i - from)),
        decreases chars@.len() - i,
    {
        let c = chars[i];
        let ghost before = body.take(i - from);
        assert(body.take(i + 1 - from) =~= before.push(c));
        proof {
            lemma_to_lf_push(before, c);
        }
        if i > from && chars[i - 1] == '\r' && c == '\n' {
            proof {
                assert(before.last() == '\r');
                lemma_to_lf_push(before.drop_last(), '\r');
                assert(before.drop_last().push('\r') =~= before);
                let t = before.push(c);
                assert(t[t.len() - 2] == '\r' && t[t.len() - 1] == '\n');
                assert(has_crlf(t));
            }
            out.pop();
            assert(out@ =~= to_lf(before.drop_last()));
            crlf = true;
        } else {
            proof {
                let t = before.push(c);
                if has_crlf(before) {
                    let k = choose|k: int|
                        0 <= k < before.len() - 1 && #[trigger] before[k] == '\r' && before[k + 1]
                            == '\n';
                    assert(t[k] == '\r' && t[k + 1] == '\n');
                }
                if has_crlf(t) {
                    let k = choose|k: int|
                        0 <= k < t.len() - 1 && #[trigger] t[k] == '\r' && t[k + 1] == '\n';
                    assert(k < before.len() - 1);
                    assert(before[k] == '\r' && before[k + 1] == '\n');
                }
            }
        }
        out.push(c);
        i += 1;
    }
    assert(body.take(body.len() as int) =~= body);
    (out, Style { bom, crlf })
}

// ---------------------------------------------------------------------------------------------
// Finding

/// Where a snippet stands in the text, among the places before `n`. Overlapping occurrences count:
/// `aa` stands twice in `aaa`.
pub open spec fn hits(s: Seq<char>, needle: Seq<char>, n: int) -> Seq<int>
    decreases n,
{
    if n <= 0 {
        Seq::empty()
    } else if stands_at(s, needle, n - 1) {
        hits(s, needle, n - 1).push(n - 1)
    } else {
        hits(s, needle, n - 1)
    }
}

/// A stretch of the text and what goes there.
#[verifier::ext_equal]
pub struct Spot {
    pub start: int,
    pub end: int,
    pub text: Seq<char>,
}

/// The one place of an edit's snippet, or why there is not one.
pub open spec fn spot_of(
    s: Seq<char>,
    edit: ReplaceView,
    index: int,
    path: Seq<char>,
) -> Result<Spot, EditErrorView> {
    let old = matched_text(edit.old_text);
    let places = hits(s, old, s.len() as int);
    if old.len() == 0 {
        Err(EditErrorView::EmptyOldText { index })
    } else if places.len() == 0 {
        Err(EditErrorView::NotFound { index, path })
    } else if places.len() > 1 {
        Err(EditErrorView::NotUnique { index, count: places.len() as int })
    } else {
        Ok(Spot { start: places[0], end: places[0] + old.len(), text: edit.new_text })
    }
}

/// The places of the edits, in the order of the request; the first that has none ends it.
pub open spec fn spots_of(s: Seq<char>, edits: Seq<ReplaceView>, path: Seq<char>) -> Result<
    Seq<Spot>,
    EditErrorView,
>
    decreases edits.len(),
{
    if edits.len() == 0 {
        Ok(Seq::empty())
    } else {
        match spots_of(s, edits.drop_last(), path) {
            Err(error) => Err(error),
            Ok(spots) => match spot_of(s, edits.last(), edits.len() - 1, path) {
                Err(error) => Err(error),
                Ok(spot) => Ok(spots.push(spot)),
            },
        }
    }
}

/// How many of the first spots start no later than `start`.
pub open spec fn rank(spots: Seq<Spot>, start: int, k: int) -> int
    decreases k,
{
    if k <= 0 {
        0
    } else if spots[k - 1].start <= start {
        k
    } else {
        rank(spots, start, k - 1)
    }
}

/// The spots by where they start; of two that start together, the one asked for first.
pub open spec fn by_start(spots: Seq<Spot>) -> Seq<Spot>
    decreases spots.len(),
{
    if spots.len() == 0 {
        spots
    } else {
        let sorted = by_start(spots.drop_last());
        sorted.insert(rank(sorted, spots.last().start, sorted.len() as int), spots.last())
    }
}

/// The places in the request of the spots as [`by_start`] sorts them.
pub open spec fn order_of(spots: Seq<Spot>) -> Seq<int>
    decreases spots.len(),
{
    if spots.len() == 0 {
        Seq::empty()
    } else {
        let sorted = by_start(spots.drop_last());
        order_of(spots.drop_last()).insert(
            rank(sorted, spots.last().start, sorted.len() as int),
            spots.len() - 1,
        )
    }
}

/// The first spot, from `k` on, that runs into the one after it.
pub open spec fn clash(spots: Seq<Spot>, k: int) -> Option<int>
    decreases spots.len() - k,
{
    if k < 0 || k + 1 >= spots.len() {
        None
    } else if spots[k].end > spots[k + 1].start {
        Some(k)
    } else {
        clash(spots, k + 1)
    }
}

/// How many line feeds there are.
pub open spec fn line_feeds(s: Seq<char>) -> nat
    decreases s.len(),
{
    if s.len() == 0 {
        0
    } else {
        line_feeds(s.drop_last()) + if s.last() == '\n' {
            1nat
        } else {
            0nat
        }
    }
}

/// What is to be done to the text.
#[verifier::ext_equal]
pub struct PlanView {
    pub spots: Seq<Spot>,
    pub first_changed_line: int,
}

/// The plan of a request: every snippet found once, sorted, and none running into another. A clash
/// is named by the places of the two edits in the request.
pub open spec fn plan_of(s: Seq<char>, edits: Seq<ReplaceView>, path: Seq<char>) -> Result<
    PlanView,
    EditErrorView,
> {
    match spots_of(s, edits, path) {
        Err(error) => Err(error),
        Ok(spots) => {
            let sorted = by_start(spots);
            match clash(sorted, 0) {
                Some(k) => Err(
                    EditErrorView::Overlap {
                        first: order_of(spots)[k],
                        second: order_of(spots)[k + 1],
                    },
                ),
                None => Ok(
                    PlanView {
                        spots: sorted,
                        first_changed_line: if sorted.len() == 0 {
                            1
                        } else {
                            line_feeds(s.take(sorted[0].start)) + 1int
                        },
                    },
                ),
            }
        },
    }
}

/// The text from a place on, with the spots from `k` on replaced.
pub open spec fn applied(s: Seq<char>, spots: Seq<Spot>, from: int, k: int) -> Seq<char>
    decreases spots.len() - k,
{
    if k < 0 || k >= spots.len() {
        s.skip(from)
    } else {
        s.subrange(from, spots[k].start) + spots[k].text + applied(s, spots, spots[k].end, k + 1)
    }
}

/// A stretch of the text and what goes there.
#[derive(Debug, Clone, PartialEq, Eq)]
pub struct Replacement {
    pub start: usize,
    pub end: usize,
    pub new_text: String,
}

impl View for Replacement {
    type V = Spot;

    open spec fn view(&self) -> Spot {
        Spot { start: self.start as int, end: self.end as int, text: self.new_text@ }
    }
}

pub open spec fn spot_views(list: Seq<Replacement>) -> Seq<Spot> {
    Seq::new(list.len(), |i: int| list[i]@)
}

/// What is to be done to a text.
#[derive(Debug, Clone, PartialEq, Eq)]
pub struct Plan {
    pub replacements: Vec<Replacement>,
    pub first_changed_line: usize,
}

impl View for Plan {
    type V = PlanView;

    open spec fn view(&self) -> PlanView {
        PlanView {
            spots: spot_views(self.replacements@),
            first_changed_line: self.first_changed_line as int,
        }
    }
}

proof fn lemma_hits(s: Seq<char>, needle: Seq<char>, n: int)
    requires
        0 <= n,
    ensures
        hits(s, needle, n).len() <= n,
        forall|k: int|
            0 <= k < hits(s, needle, n).len() ==> {
                &&& 0 <= #[trigger] hits(s, needle, n)[k] < n
                &&& stands_at(s, needle, hits(s, needle, n)[k])
            },
        forall|i: int|
            0 <= i < n && stands_at(s, needle, i) ==> hits(s, needle, n).contains(i),
    decreases n,
{
    if n > 0 {
        lemma_hits(s, needle, n - 1);
        let before = hits(s, needle, n - 1);
        let after = hits(s, needle, n);
        assert forall|i: int| 0 <= i < n && stands_at(s, needle, i) implies after.contains(i) by {
            if i == n - 1 {
                assert(after[before.len() as int] == i);
            } else {
                let k = choose|k: int| 0 <= k < before.len() && before[k] == i;
                assert(after[k] == i);
            }
        }
    }
}

/// Every occurrence of `needle` in `haystack`, counting the overlapping ones too.
///
/// Overlapping occurrences are the awkward case, and they count as ambiguous: replacing "the first
/// of them" is a guess, and a tool that edits files does not guess.
pub fn find_all(haystack: &[char], needle: &[char]) -> (out: Vec<usize>)
    ensures
        out@.len() == hits(haystack@, needle@, haystack@.len() as int).len(),
        forall|k: int|
            0 <= k < out@.len() ==> #[trigger] out@[k] == hits(
                haystack@,
                needle@,
                haystack@.len() as int,
            )[k],
{
    let mut out: Vec<usize> = Vec::new();
    let mut i: usize = 0;
    while i < haystack.len()
        invariant
            i <= haystack@.len(),
            out@.len() == hits(haystack@, needle@, i as int).len(),
            forall|k: int|
                0 <= k < out@.len() ==> #[trigger] out@[k] == hits(haystack@, needle@, i as int)[k],
        decreases haystack@.len() - i,
    {
        if is_at(haystack, needle, i) {
            out.push(i);
        }
        i += 1;
    }
    out
}

/// Whether two runs of characters are the same.
fn equal(a: &[char], b: &[char]) -> (out: bool)
    ensures
        out == (a@ == b@),
{
    if a.len() != b.len() {
        return false;
    }
    let mut i: usize = 0;
    while i < a.len()
        invariant
            i <= a@.len(),
            a@.len() == b@.len(),
            forall|k: int| 0 <= k < i ==> a@[k] == b@[k],
        decreases a@.len() - i,
    {
        if a[i] != b[i] {
            return false;
        }
        i += 1;
    }
    assert(a@ =~= b@);
    true
}

/// Puts a replacement where it starts, behind those that start no later.
fn place(list: &mut Vec<Replacement>, new: Replacement) -> (out: usize)
    ensures
        out == rank(spot_views(old(list)@), new@.start, old(list)@.len() as int),
        spot_views(final(list)@) == spot_views(old(list)@).insert(
            rank(spot_views(old(list)@), new@.start, old(list)@.len() as int),
            new@,
        ),
{
    let ghost before = spot_views(list@);
    let mut k: usize = list.len();
    while k > 0 && list[k - 1].start > new.start
        invariant
            k <= list@.len(),
            before == spot_views(list@),
            rank(before, new@.start, list@.len() as int) == rank(before, new@.start, k as int),
        decreases k,
    {
        assert(before[k - 1] == list@[k - 1]@);
        k -= 1;
    }
    proof {
        if k > 0 {
            assert(before[k - 1] == list@[k - 1]@);
        }
    }
    list.insert(k, new);
    assert(spot_views(list@) =~= before.insert(k as int, new@));
    k
}

/// Every spot lies in the text, and is not empty.
pub open spec fn inside(s: Seq<char>, spots: Seq<Spot>) -> bool {
    forall|i: int|
        0 <= i < spots.len() ==> 0 <= (#[trigger] spots[i]).start < spots[i].end <= s.len()
}

proof fn lemma_rank(spots: Seq<Spot>, start: int, k: int)
    requires
        0 <= k <= spots.len(),
    ensures
        0 <= rank(spots, start, k) <= k,
        rank(spots, start, k) > 0 ==> spots[rank(spots, start, k) - 1].start <= start,
        forall|i: int| rank(spots, start, k) <= i < k ==> (#[trigger] spots[i]).start > start,
    decreases k,
{
    if k > 0 && spots[k - 1].start > start {
        lemma_rank(spots, start, k - 1);
    }
}

pub open spec fn index_views(order: Seq<usize>) -> Seq<int> {
    Seq::new(order.len(), |i: int| order[i] as int)
}

/// Sorting keeps the places in the request: each sorted spot is the one its place names, and no
/// place is named twice.
proof fn lemma_order(spots: Seq<Spot>)
    ensures
        by_start(spots).len() == spots.len(),
        order_of(spots).len() == spots.len(),
        forall|i: int|
            0 <= i < spots.len() ==> {
                &&& 0 <= #[trigger] order_of(spots)[i] < spots.len()
                &&& by_start(spots)[i] == spots[order_of(spots)[i]]
            },
        forall|i: int, j: int|
            0 <= i < j < spots.len() ==> #[trigger] order_of(spots)[i]
                != #[trigger] order_of(spots)[j],
    decreases spots.len(),
{
    if spots.len() > 0 {
        let front = spots.drop_last();
        lemma_order(front);
        let sorted = by_start(front);
        let at = rank(sorted, spots.last().start, sorted.len() as int);
        lemma_rank(sorted, spots.last().start, sorted.len() as int);
        let now = order_of(spots);
        assert(now == order_of(front).insert(at, spots.len() - 1));
        assert forall|i: int| 0 <= i < spots.len() implies {
            &&& 0 <= #[trigger] now[i] < spots.len()
            &&& by_start(spots)[i] == spots[now[i]]
        } by {
            if i < at {
                assert(now[i] == order_of(front)[i]);
                assert(by_start(spots)[i] == sorted[i]);
            } else if i > at {
                assert(now[i] == order_of(front)[i - 1]);
                assert(by_start(spots)[i] == sorted[i - 1]);
            }
        }
        assert forall|i: int, j: int| 0 <= i < j < spots.len() implies #[trigger] now[i]
            != #[trigger] now[j] by {
            let a = if i < at {
                order_of(front)[i]
            } else if i == at {
                spots.len() - 1
            } else {
                order_of(front)[i - 1]
            };
            let b = if j < at {
                order_of(front)[j]
            } else if j == at {
                spots.len() - 1
            } else {
                order_of(front)[j - 1]
            };
            assert(now[i] == a && now[j] == b);
        }
    }
}

proof fn lemma_clash_at(spots: Seq<Spot>, k: int)
    requires
        0 <= k,
    ensures
        match clash(spots, k) {
            Some(i) => k <= i < spots.len() - 1 && spots[i].end > spots[i + 1].start,
            None => true,
        },
    decreases spots.len() - k,
{
    if k + 1 < spots.len() && spots[k].end <= spots[k + 1].start {
        lemma_clash_at(spots, k + 1);
    }
}

proof fn lemma_spots(s: Seq<char>, edits: Seq<ReplaceView>, path: Seq<char>)
    ensures
        spots_of(s, edits, path) is Ok ==> {
            &&& spots_of(s, edits, path)->Ok_0.len() == edits.len()
            &&& inside(s, spots_of(s, edits, path)->Ok_0)
            &&& inside(s, by_start(spots_of(s, edits, path)->Ok_0))
            &&& forall|i: int|
                0 <= i < edits.len() ==> spot_of(s, #[trigger] edits[i], i, path) == Ok::<
                    Spot,
                    EditErrorView,
                >(spots_of(s, edits, path)->Ok_0[i])
        },
    decreases edits.len(),
{
    if edits.len() > 0 {
        lemma_spots(s, edits.drop_last(), path);
        if spots_of(s, edits, path) is Ok {
            let before = spots_of(s, edits.drop_last(), path)->Ok_0;
            let all = spots_of(s, edits, path)->Ok_0;
            let old = matched_text(edits.last().old_text);
            lemma_hits(s, old, s.len() as int);
            let places = hits(s, old, s.len() as int);
            assert(stands_at(s, old, places[0]));
            assert(all.drop_last() =~= before);
            let sorted = by_start(before);
            lemma_rank(sorted, all.last().start, sorted.len() as int);
            let at = rank(sorted, all.last().start, sorted.len() as int);
            let now = by_start(all);
            assert forall|i: int| 0 <= i < now.len() implies 0 <= (#[trigger] now[i]).start
                < now[i].end <= s.len() by {
                if i < at {
                    assert(now[i] == sorted[i]);
                } else if i > at {
                    assert(now[i] == sorted[i - 1]);
                }
            }
            assert forall|i: int| 0 <= i < edits.len() implies spot_of(
                s,
                #[trigger] edits[i],
                i,
                path,
            ) == Ok::<Spot, EditErrorView>(all[i]) by {
                if i < edits.len() - 1 {
                    assert(edits.drop_last()[i] == edits[i]);
                    assert(all[i] == before[i]);
                }
            }
        }
    }
}

/// Looking for the snippets never ends in a clash.
proof fn lemma_refusal(s: Seq<char>, edits: Seq<ReplaceView>, path: Seq<char>)
    ensures
        spots_of(s, edits, path) is Err ==> !(spots_of(s, edits, path)->Err_0 is Overlap),
    decreases edits.len(),
{
    if edits.len() > 0 {
        lemma_refusal(s, edits.drop_last(), path);
    }
}

proof fn lemma_first_error(s: Seq<char>, edits: Seq<ReplaceView>, path: Seq<char>, n: int)
    requires
        0 <= n <= edits.len(),
        spots_of(s, edits.take(n), path) is Err,
    ensures
        spots_of(s, edits, path) == spots_of(s, edits.take(n), path),
    decreases edits.len() - n,
{
    if n < edits.len() {
        assert(edits.take(n + 1).drop_last() =~= edits.take(n));
        lemma_first_error(s, edits, path, n + 1);
    } else {
        assert(edits.take(n) =~= edits);
    }
}

/// How many line feeds stand before a place.
fn feeds_before(s: &[char], end: usize) -> (out: usize)
    requires
        end <= s@.len(),
    ensures
        out == line_feeds(s@.take(end as int)),
        out <= end,
{
    let mut out: usize = 0;
    let mut i: usize = 0;
    assert(s@.take(0) =~= Seq::<char>::empty());
    while i < end
        invariant
            i <= end <= s@.len(),
            out == line_feeds(s@.take(i as int)),
            out <= i,
        decreases end - i,
    {
        assert(s@.take(i + 1).drop_last() =~= s@.take(i as int));
        if s[i] == '\n' {
            out += 1;
        }
        i += 1;
    }
    out
}

/// Find every edit's snippet, refuse the ambiguous and the overlapping ones, and sort what is left
/// so the replacements can be applied to the original text in one pass.
pub fn plan_edits(text: &[char], edits: &[Replace], path: &str) -> (out: Result<Plan, EditError>)
    ensures
        match (out, plan_of(text@, replace_views(edits@), path@)) {
            (Ok(plan), Ok(want)) => plan@ == want,
            (Err(error), Err(want)) => error@ == want,
            _ => false,
        },
{
    let ghost all = replace_views(edits@);
    let ghost mut spots = Seq::<Spot>::empty();
    let mut found: Vec<Replacement> = Vec::new();
    let mut order: Vec<usize> = Vec::new();
    let mut index: usize = 0;
    proof {
        assert(index_views(order@) =~= Seq::<int>::empty());
        assert(all.take(0) =~= Seq::<ReplaceView>::empty());
        assert(spot_views(found@) =~= Seq::<Spot>::empty());
        assert(by_start(spots) =~= Seq::<Spot>::empty());
    }
    while index < edits.len()
        invariant
            index <= edits@.len(),
            all == replace_views(edits@),
            spots_of(text@, all.take(index as int), path@) == Ok::<Seq<Spot>, EditErrorView>(spots),
            spots.len() == index,
            spot_views(found@) == by_start(spots),
            index_views(order@) == order_of(spots),
        decreases edits@.len() - index,
    {
        let (old, _) = normalize(&edits[index].old_text);
        proof {
            assert(all[index as int] == edits@[index as int]@);
            assert(all.take(index + 1).drop_last() =~= all.take(index as int));
            assert(all.take(index + 1).last() == all[index as int]);
            lemma_hits(text@, old@, text@.len() as int);
        }
        if old.len() == 0 {
            proof {
                lemma_first_error(text@, all, path@, index + 1);
            }
            return Err(EditError::EmptyOldText { index });
        }
        let starts = find_all(text, old.as_slice());
        let count: usize = starts.len();
        if count == 0 {
            proof {
                lemma_first_error(text@, all, path@, index + 1);
            }
            return Err(EditError::NotFound { index, path: copy(path) });
        }
        if count > 1 {
            proof {
                lemma_first_error(text@, all, path@, index + 1);
            }
            return Err(EditError::NotUnique { index, count });
        }
        let start: usize = starts[0];
        assert(start == hits(text@, old@, text@.len() as int)[0]);
        assert(stands_at(text@, old@, start as int));
        assert(start + old@.len() <= text.len());
        let new = Replacement {
            start,
            end: start + old.len(),
            new_text: copy(&edits[index].new_text),
        };
        proof {
            spots = spots.push(new@);
            assert(spots.drop_last() =~= spots_of(text@, all.take(index as int), path@)->Ok_0);
        }
        let ghost before = index_views(order@);
        proof {
            lemma_order(spots.drop_last());
            lemma_rank(by_start(spots.drop_last()), new@.start, found@.len() as int);
        }
        let at: usize = place(&mut found, new);
        order.insert(at, index);
        assert(index_views(order@) =~= before.insert(at as int, index as int));
        index += 1;
    }
    proof {
        assert(all.take(all.len() as int) =~= all);
        lemma_spots(text@, all, path@);
        lemma_order(spots);
    }
    let ghost sorted = by_start(spots);

    // Sorted by where they start, so "do these two touch?" is one comparison per neighbour.
    let mut k: usize = 0;
    while k < found.len() && k + 1 < found.len()
        invariant
            k <= found@.len(),
            sorted == spot_views(found@),
            sorted == by_start(spots),
            order@.len() == found@.len(),
            index_views(order@) == order_of(spots),
            inside(text@, sorted),
            all == replace_views(edits@),
            spots_of(text@, all, path@) == Ok::<Seq<Spot>, EditErrorView>(spots),
            clash(sorted, 0) == clash(sorted, k as int),
        decreases found@.len() - k,
    {
        assert(sorted[k as int] == found@[k as int]@);
        assert(sorted[k + 1] == found@[k + 1]@);
        if found[k].end > found[k + 1].start {
            // Which two, by their place in the request rather than their place in the file: that is
            // what the model can look at.
            let first: usize = order[k];
            let second: usize = order[k + 1];
            assert(first == index_views(order@)[k as int]);
            assert(second == index_views(order@)[k + 1]);
            return Err(EditError::Overlap { first, second });
        }
        k += 1;
    }
    let first_changed_line: usize = if found.len() > 0 {
        assert(sorted[0] == found@[0]@);
        let end: usize = found[0].start;
        feeds_before(text, end) + 1
    } else {
        1
    };
    Ok(Plan { replacements: found, first_changed_line })
}

/// Sorted spots that do not run into each other.
pub open spec fn in_order(s: Seq<char>, spots: Seq<Spot>) -> bool {
    &&& inside(s, spots)
    &&& forall|i: int, j: int|
        0 <= i < j < spots.len() ==> (#[trigger] spots[i]).end <= (#[trigger] spots[j]).start
}

/// Build the edited text from `text` and sorted, non-overlapping replacements.
pub fn apply(text: &[char], replacements: &[Replacement]) -> (out: Vec<char>)
    requires
        in_order(text@, spot_views(replacements@)),
    ensures
        out@ == applied(text@, spot_views(replacements@), 0, 0),
{
    let ghost spots = spot_views(replacements@);
    let mut out: Vec<char> = Vec::new();
    let mut cursor: usize = 0;
    let mut k: usize = 0;
    assert(Seq::<char>::empty() + applied(text@, spots, 0, 0) =~= applied(text@, spots, 0, 0));
    while k < replacements.len()
        invariant
            k <= replacements@.len(),
            spots == spot_views(replacements@),
            in_order(text@, spots),
            cursor == if k == 0 {
                0int
            } else {
                spots[k - 1].end
            },
            cursor <= text@.len(),
            out@ + applied(text@, spots, cursor as int, k as int) == applied(text@, spots, 0, 0),
        decreases replacements@.len() - k,
    {
        let next = &replacements[k];
        assert(spots[k as int] == next@);
        let ghost before = out@;
        let kept = vstd::slice::slice_subrange(text, cursor, next.start);
        out.extend_from_slice(kept);
        let new = chars_of(&next.new_text);
        out.extend_from_slice(new.as_slice());
        assert(out@ =~= before + text@.subrange(cursor as int, next.start as int) + next@.text);
        cursor = next.end;
        k += 1;
        assert(before + (text@.subrange(
            if k == 1 {
                0int
            } else {
                spots[k - 2].end
            },
            next.start as int,
        ) + next@.text + applied(text@, spots, cursor as int, k as int)) =~= out@ + applied(
            text@,
            spots,
            cursor as int,
            k as int,
        ));
    }
    let rest = vstd::slice::slice_subrange(text, cursor, text.len());
    let ghost before = out@;
    assert(rest@ =~= text@.skip(cursor as int));
    out.extend_from_slice(rest);
    assert(out@ =~= before + rest@);
    out
}

proof fn lemma_sorted(spots: Seq<Spot>)
    ensures
        by_start(spots).len() == spots.len(),
        forall|i: int, j: int|
            0 <= i < j < spots.len() ==> (#[trigger] by_start(spots)[i]).start <= (
            #[trigger] by_start(spots)[j]).start,
        by_start(spots).to_multiset() == spots.to_multiset(),
    decreases spots.len(),
{
    if spots.len() > 0 {
        let front = spots.drop_last();
        let last = spots.last();
        lemma_sorted(front);
        let sorted = by_start(front);
        let at = rank(sorted, last.start, sorted.len() as int);
        lemma_rank(sorted, last.start, sorted.len() as int);
        let now = by_start(spots);
        assert(now == sorted.insert(at, last));
        assert forall|i: int, j: int| 0 <= i < j < now.len() implies (#[trigger] now[i]).start <= (
        #[trigger] now[j]).start by {
            let a = if i < at {
                sorted[i]
            } else if i == at {
                last
            } else {
                sorted[i - 1]
            };
            assert(now[i] == a);
            if i < at {
                if at > 0 && i < at - 1 {
                    assert(sorted[i].start <= sorted[at - 1].start);
                }
            }
        }
        vstd::seq_lib::to_multiset_insert(sorted, at, last);
        vstd::seq_lib::to_multiset_insert(front, front.len() as int, last);
        assert(front.insert(front.len() as int, last) =~= spots);
    }
}

proof fn lemma_clash(spots: Seq<Spot>, k: int)
    requires
        0 <= k,
        clash(spots, k) is None,
    ensures
        forall|i: int| k <= i < spots.len() - 1 ==> (#[trigger] spots[i]).end <= spots[i + 1].start,
    decreases spots.len() - k,
{
    if k + 1 < spots.len() {
        lemma_clash(spots, k + 1);
    }
}

proof fn lemma_apart(spots: Seq<Spot>, i: int, j: int)
    requires
        forall|k: int| 0 <= k < spots.len() ==> (#[trigger] spots[k]).start < spots[k].end,
        forall|k: int| 0 <= k < spots.len() - 1 ==> (#[trigger] spots[k]).end <= spots[k + 1].start,
        0 <= i < j < spots.len(),
    ensures
        spots[i].end <= spots[j].start,
    decreases j - i,
{
    if i + 1 < j {
        lemma_apart(spots, i + 1, j);
        assert(spots[i].end <= spots[i + 1].start);
    } else {
        assert(spots[i].end <= spots[i + 1].start);
    }
}

/// A plan that was made can be carried out: its spots are sorted and none runs into another.
pub proof fn law_a_plan_is_in_order(s: Seq<char>, edits: Seq<ReplaceView>, path: Seq<char>)
    requires
        plan_of(s, edits, path) is Ok,
    ensures
        in_order(s, plan_of(s, edits, path)->Ok_0.spots),
        plan_of(s, edits, path)->Ok_0.spots.len() == edits.len(),
{
    lemma_spots(s, edits, path);
    let found = spots_of(s, edits, path)->Ok_0;
    lemma_sorted(found);
    let spots = by_start(found);
    lemma_clash(spots, 0);
    assert forall|i: int, j: int| 0 <= i < j < spots.len() implies (#[trigger] spots[i]).end <= (
    #[trigger] spots[j]).start by {
        lemma_apart(spots, i, j);
    }
}

// ---------------------------------------------------------------------------------------------
// The edit

#[derive(Debug, Clone, PartialEq, Eq)]
pub struct EditOutput {
    pub path: String,
    /// How many replacements were made.
    pub replaced: usize,
    /// Where the first one starts, for a pane that wants to jump there.
    pub first_changed_line: usize,
    pub bytes: usize,
}

#[verifier::ext_equal]
pub struct EditOutputView {
    pub path: Seq<char>,
    pub replaced: int,
    pub first_changed_line: int,
    pub bytes: int,
}

impl View for EditOutput {
    type V = EditOutputView;

    open spec fn view(&self) -> EditOutputView {
        EditOutputView {
            path: self.path@,
            replaced: self.replaced as int,
            first_changed_line: self.first_changed_line as int,
            bytes: self.bytes as int,
        }
    }
}

/// A file to be written, and what is said once it has been.
#[derive(Debug, Clone, PartialEq, Eq)]
pub struct Edited {
    pub content: String,
    pub output: EditOutput,
}

/// The content of an edited file and what is said of it.
pub open spec fn edit_of(original: Seq<char>, edits: Seq<ReplaceView>, path: Seq<char>) -> Result<
    (Seq<char>, EditOutputView),
    EditErrorView,
> {
    let s = matched_text(original);
    match plan_of(s, edits, path) {
        Err(error) => Err(error),
        Ok(plan) => {
            let edited = applied(s, plan.spots, 0, 0);
            let content = style_of(original).restored(edited);
            if edited == s {
                Err(EditErrorView::NoChange)
            } else {
                Ok(
                    (
                        content,
                        EditOutputView {
                            path,
                            replaced: plan.spots.len() as int,
                            first_changed_line: plan.first_changed_line,
                            bytes: byte_len(content) as int,
                        },
                    ),
                )
            }
        },
    }
}

/// Apply edits to a file's text.
///
/// The comparison that refuses an edit without effect is of the file's *content*: an edit that only
/// spells the file differently (LF against CRLF) is not an edit.
pub fn edit_text(original: &str, edits: &[Replace], path: &str) -> (out: Result<Edited, EditError>)
    ensures
        match (out, edit_of(original@, replace_views(edits@), path@)) {
            (Ok(edited), Ok(want)) => edited.content@ == want.0 && edited.output@ == want.1,
            (Err(error), Err(want)) => error@ == want,
            _ => false,
        },
{
    let (text, style) = normalize(original);
    let plan = match plan_edits(text.as_slice(), edits, path) {
        Ok(plan) => plan,
        Err(error) => {
            return Err(error);
        },
    };
    proof {
        law_a_plan_is_in_order(text@, replace_views(edits@), path@);
    }
    let edited = apply(text.as_slice(), plan.replacements.as_slice());
    if equal(edited.as_slice(), text.as_slice()) {
        return Err(EditError::NoChange);
    }
    let content = string_of(style.restore(edited.as_slice()).as_slice());
    let bytes: usize = size_of(&content);
    Ok(
        Edited {
            content,
            output: EditOutput {
                path: copy(path),
                replaced: plan.replacements.len(),
                first_changed_line: plan.first_changed_line,
                bytes,
            },
        },
    )
}

/// What an edit comes to, once it is known what is on disk at the path: the content to write and
/// what to say then, or why the file is left alone.
pub fn edit(args: &EditArgs, path: &str, found: OnDisk) -> (out: Result<Edited, EditError>)
    ensures
        match whole_text(path@, found) {
            Err(error) => out is Err && out->Err_0@ == EditErrorView::Read(error),
            Ok(original) => match (out, edit_of(original, replace_views(args.edits@), path@)) {
                (Ok(edited), Ok(want)) => edited.content@ == want.0 && edited.output@ == want.1,
                (Err(error), Err(want)) => error@ == want,
                _ => false,
            },
        },
{
    match read_whole(path, found) {
        Err(error) => Err(EditError::Read(error)),
        Ok(original) => edit_text(&original, args.edits.as_slice(), path),
    }
}

// ---------------------------------------------------------------------------------------------
// Laws

/// A clash names two edits of the request, the one that starts first in the text first: the places
/// of two different edits whose snippets do run into each other there.
pub proof fn law_a_clash_names_the_two_edits(
    s: Seq<char>,
    edits: Seq<ReplaceView>,
    path: Seq<char>,
    first: int,
    second: int,
)
    requires
        plan_of(s, edits, path) == Err::<PlanView, EditErrorView>(
            EditErrorView::Overlap { first, second },
        ),
    ensures
        0 <= first < edits.len(),
        0 <= second < edits.len(),
        first != second,
        spot_of(s, edits[first], first, path) is Ok,
        spot_of(s, edits[second], second, path) is Ok,
        ({
            let a = spot_of(s, edits[first], first, path)->Ok_0;
            let b = spot_of(s, edits[second], second, path)->Ok_0;
            a.start <= b.start < a.end
        }),
{
    lemma_spots(s, edits, path);
    match spots_of(s, edits, path) {
        Ok(spots) => {
            lemma_order(spots);
            lemma_sorted(spots);
            let sorted = by_start(spots);
            lemma_clash_at(sorted, 0);
            let k = clash(sorted, 0)->0;
            let order = order_of(spots);
            assert(first == order[k] && second == order[k + 1]);
            assert(sorted[k].start <= sorted[k + 1].start);
        },
        Err(_) => {
            lemma_refusal(s, edits, path);
        },
    }
}

/// A snippet is replaced only where it stands exactly once: in a plan every edit's spot holds its
/// snippet, and the snippet stands nowhere else.
pub proof fn law_only_unique_snippets_are_replaced(
    s: Seq<char>,
    edits: Seq<ReplaceView>,
    path: Seq<char>,
    i: int,
)
    requires
        plan_of(s, edits, path) is Ok,
        0 <= i < edits.len(),
    ensures
        ({
            let old = matched_text(edits[i].old_text);
            exists|at: int|
                {
                    &&& #[trigger] stands_at(s, old, at)
                    &&& forall|other: int|
                        0 <= other < s.len() && #[trigger] stands_at(s, old, other) ==> other == at
                    &&& plan_of(s, edits, path)->Ok_0.spots.contains(
                        Spot { start: at, end: at + old.len(), text: edits[i].new_text },
                    )
                }
        }),
{
    lemma_spots(s, edits, path);
    let found = spots_of(s, edits, path)->Ok_0;
    let old = matched_text(edits[i].old_text);
    assert(spot_of(s, edits[i], i, path) == Ok::<Spot, EditErrorView>(found[i]));
    lemma_hits(s, old, s.len() as int);
    let places = hits(s, old, s.len() as int);
    let at = places[0];
    assert(stands_at(s, old, at));
    assert forall|other: int|
        0 <= other < s.len() && #[trigger] stands_at(s, old, other) implies other == at by {
        assert(places.contains(other));
    }
    lemma_sorted(found);
    broadcast use vstd::seq_lib::group_to_multiset_ensures;

    assert(found.contains(found[i]));
    assert(found.to_multiset().count(found[i]) > 0);
    assert(by_start(found).to_multiset().count(found[i]) > 0);
    assert(by_start(found).contains(found[i]));
}

/// Two lists sorted by start that hold the same spots are the same, when no two spots of one start
/// together.
proof fn lemma_sorted_once(a: Seq<Spot>, b: Seq<Spot>)
    requires
        a.to_multiset() == b.to_multiset(),
        forall|i: int, j: int|
            0 <= i < j < a.len() ==> (#[trigger] a[i]).start < (#[trigger] a[j]).start,
        forall|i: int, j: int|
            0 <= i < j < b.len() ==> (#[trigger] b[i]).start <= (#[trigger] b[j]).start,
    ensures
        a == b,
    decreases a.len(),
{
    broadcast use vstd::seq_lib::group_to_multiset_ensures;

    assert(a.len() == a.to_multiset().len());
    assert(b.len() == b.to_multiset().len());
    if a.len() > 0 {
        assert(a.contains(a[0]));
        assert(a.to_multiset().count(a[0]) > 0);
        assert(b.contains(a[0]));
        assert(b.contains(b[0]));
        assert(b.to_multiset().count(b[0]) > 0);
        assert(a.contains(b[0]));
        let j = choose|j: int| 0 <= j < b.len() && b[j] == a[0];
        let i = choose|i: int| 0 <= i < a.len() && a[i] == b[0];
        assert(b[0].start <= a[0].start) by {
            if j > 0 {
                assert(b[0].start <= b[j].start);
            }
        }
        assert(i == 0) by {
            if i > 0 {
                assert(a[0].start < a[i].start);
            }
        }
        assert(a[0] == b[0]);
        let x = a.remove(0);
        let y = b.remove(0);
        assert(x.to_multiset() == a.to_multiset().remove(a[0]));
        assert(y.to_multiset() == b.to_multiset().remove(b[0]));
        assert forall|i: int, j: int| 0 <= i < j < x.len() implies (#[trigger] x[i]).start < (
        #[trigger] x[j]).start by {
            assert(x[i] == a[i + 1] && x[j] == a[j + 1]);
        }
        assert forall|i: int, j: int| 0 <= i < j < y.len() implies (#[trigger] y[i]).start <= (
        #[trigger] y[j]).start by {
            assert(y[i] == b[i + 1] && y[j] == b[j + 1]);
        }
        lemma_sorted_once(x, y);
        assert(a =~= seq![a[0]] + x);
        assert(b =~= seq![b[0]] + y);
    }
}

proof fn lemma_spots_multiset(
    s: Seq<char>,
    edits: Seq<ReplaceView>,
    path: Seq<char>,
    spot: spec_fn(ReplaceView) -> Spot,
)
    requires
        spots_of(s, edits, path) is Ok,
        forall|i: int|
            0 <= i < edits.len() ==> spots_of(s, edits, path)->Ok_0[i] == spot(#[trigger] edits[i]),
    ensures
        spots_of(s, edits, path)->Ok_0 == edits.map_values(spot),
{
    lemma_spots(s, edits, path);
    assert(spots_of(s, edits, path)->Ok_0 =~= edits.map_values(spot));
}

/// The spot an edit has when it has one.
pub open spec fn own_spot(s: Seq<char>, edit: ReplaceView) -> Spot {
    let old = matched_text(edit.old_text);
    let at = hits(s, old, s.len() as int)[0];
    Spot { start: at, end: at + old.len(), text: edit.new_text }
}

proof fn lemma_all_found(s: Seq<char>, edits: Seq<ReplaceView>, path: Seq<char>)
    requires
        forall|i: int| 0 <= i < edits.len() ==> spot_of(s, #[trigger] edits[i], i, path) is Ok,
    ensures
        spots_of(s, edits, path) is Ok,
    decreases edits.len(),
{
    if edits.len() > 0 {
        assert forall|i: int| 0 <= i < edits.drop_last().len() implies spot_of(
            s,
            #[trigger] edits.drop_last()[i],
            i,
            path,
        ) is Ok by {
            assert(edits.drop_last()[i] == edits[i]);
        }
        lemma_all_found(s, edits.drop_last(), path);
        assert(spot_of(s, edits[edits.len() - 1], edits.len() - 1, path) is Ok);
    }
}

/// The order of the edits in a request does not change the result: a request with the same edits in
/// another order has the same plan, and so the same edited text.
pub proof fn law_the_order_of_edits_does_not_matter(
    s: Seq<char>,
    edits: Seq<ReplaceView>,
    others: Seq<ReplaceView>,
    path: Seq<char>,
)
    requires
        plan_of(s, edits, path) is Ok,
        edits.to_multiset() == others.to_multiset(),
    ensures
        plan_of(s, others, path) == plan_of(s, edits, path),
{
    broadcast use vstd::seq_lib::group_to_multiset_ensures;

    lemma_spots(s, edits, path);
    let found = spots_of(s, edits, path)->Ok_0;
    assert forall|i: int| 0 <= i < others.len() implies spot_of(
        s,
        #[trigger] others[i],
        i,
        path,
    ) is Ok by {
        assert(others.contains(others[i]));
        assert(others.to_multiset().count(others[i]) > 0);
        assert(edits.contains(others[i]));
        let j = choose|j: int| 0 <= j < edits.len() && edits[j] == others[i];
        assert(spot_of(s, edits[j], j, path) is Ok);
    }
    lemma_all_found(s, others, path);
    lemma_spots(s, others, path);
    let again = spots_of(s, others, path)->Ok_0;
    let spot = |edit: ReplaceView| own_spot(s, edit);
    assert forall|i: int| 0 <= i < edits.len() implies found[i] == spot(#[trigger] edits[i]) by {
        assert(spot_of(s, edits[i], i, path) == Ok::<Spot, EditErrorView>(found[i]));
    }
    assert forall|i: int| 0 <= i < others.len() implies again[i] == spot(#[trigger] others[i]) by {
        assert(spot_of(s, others[i], i, path) == Ok::<Spot, EditErrorView>(again[i]));
    }
    lemma_spots_multiset(s, edits, path, spot);
    lemma_spots_multiset(s, others, path, spot);
    lemma_map_multiset(edits, others, spot);
    lemma_sorted(found);
    lemma_sorted(again);
    law_a_plan_is_in_order(s, edits, path);
    let a = by_start(found);
    let b = by_start(again);
    assert forall|i: int, j: int| 0 <= i < j < a.len() implies (#[trigger] a[i]).start < (
    #[trigger] a[j]).start by {
        assert(a[i].start < a[i].end <= a[j].start);
    }
    lemma_sorted_once(a, b);
}

proof fn lemma_map_multiset(
    a: Seq<ReplaceView>,
    b: Seq<ReplaceView>,
    f: spec_fn(ReplaceView) -> Spot,
)
    requires
        a.to_multiset() == b.to_multiset(),
    ensures
        a.map_values(f).to_multiset() == b.map_values(f).to_multiset(),
    decreases a.len(),
{
    broadcast use vstd::seq_lib::group_to_multiset_ensures;

    assert(a.len() == a.to_multiset().len());
    assert(b.len() == b.to_multiset().len());
    if a.len() > 0 {
        let x = a[0];
        assert(a.contains(x));
        assert(a.to_multiset().count(x) > 0);
        assert(b.contains(x));
        let j = choose|j: int| 0 <= j < b.len() && b[j] == x;
        assert(a.remove(0).to_multiset() == a.to_multiset().remove(x));
        assert(b.remove(j).to_multiset() == b.to_multiset().remove(x));
        lemma_map_multiset(a.remove(0), b.remove(j), f);
        assert(a.map_values(f).remove(0) =~= a.remove(0).map_values(f));
        assert(b.map_values(f).remove(j) =~= b.remove(j).map_values(f));
        let fa = a.map_values(f);
        let fb = b.map_values(f);
        assert(fa.remove(0).to_multiset() == fa.to_multiset().remove(f(x)));
        assert(fb.remove(j).to_multiset() == fb.to_multiset().remove(f(x)));
        assert(fa.contains(fa[0]) && fb.contains(fb[j]));
        assert(fa.to_multiset().count(f(x)) > 0 && fb.to_multiset().count(f(x)) > 0);
        assert(fa.to_multiset() =~= fa.to_multiset().remove(f(x)).insert(f(x)));
        assert(fb.to_multiset() =~= fb.to_multiset().remove(f(x)).insert(f(x)));
    } else {
        assert(a.map_values(f) =~= b.map_values(f));
    }
}

/// Whether every line feed of a text follows a carriage return.
pub open spec fn all_crlf(s: Seq<char>) -> bool {
    forall|i: int| 0 <= i < s.len() && #[trigger] s[i] == '\n' ==> i > 0 && s[i - 1] == '\r'
}

proof fn lemma_crlf_round(s: Seq<char>)
    requires
        all_crlf(s),
    ensures
        to_crlf(to_lf(s)) == s,
    decreases s.len(),
{
    if s.len() > 0 {
        let front = s.drop_last();
        let c = s.last();
        lemma_to_lf_push(front, c);
        assert(front.push(c) =~= s);
        if c == '\n' {
            assert(s[s.len() - 1] == '\n');
            assert(front.last() == '\r');
            let body = front.drop_last();
            assert forall|i: int| 0 <= i < body.len() && #[trigger] body[i] == '\n' implies i > 0
                && body[i - 1] == '\r' by {
                assert(s[i] == '\n');
            }
            lemma_crlf_round(body);
            assert(to_lf(s) == to_lf(body).push('\n'));
            assert(to_lf(body).push('\n').drop_last() =~= to_lf(body));
            assert(to_crlf(to_lf(s)) =~= body.push('\r').push('\n'));
            assert(body.push('\r').push('\n') =~= s);
        } else {
            assert forall|i: int| 0 <= i < front.len() && #[trigger] front[i] == '\n' implies i > 0
                && front[i - 1] == '\r' by {
                assert(s[i] == '\n');
            }
            lemma_crlf_round(front);
            assert(to_lf(front).push(c).drop_last() =~= to_lf(front));
            assert(to_crlf(to_lf(s)) =~= front.push(c));
        }
    }
}

proof fn lemma_no_crlf(s: Seq<char>)
    requires
        !has_crlf(s),
    ensures
        to_lf(s) == s,
    decreases s.len(),
{
    if s.len() > 0 {
        if s.len() > 1 && s[0] == '\r' {
            assert(s[1] != '\n');
        }
        let rest = s.skip(1);
        assert(!has_crlf(rest)) by {
            if has_crlf(rest) {
                let i = choose|i: int|
                    0 <= i < rest.len() - 1 && #[trigger] rest[i] == '\r' && rest[i + 1] == '\n';
                assert(s[i + 1] == '\r' && s[i + 2] == '\n');
            }
        }
        lemma_no_crlf(rest);
        assert(to_lf(s) =~= s);
    }
}

/// A file's own style survives: taking it off and putting it back gives the file as it was,
/// byte-order mark and line endings included, for every file whose line endings are all of one
/// kind.
pub proof fn law_the_style_survives(original: Seq<char>)
    requires
        has_crlf(without_mark(original)) ==> all_crlf(without_mark(original)),
    ensures
        style_of(original).restored(matched_text(original)) == original,
{
    let body = without_mark(original);
    if has_crlf(body) {
        lemma_crlf_round(body);
    } else {
        lemma_no_crlf(body);
    }
    if style_of(original).bom {
        assert(seq!['\u{feff}'] + body =~= original);
    }
}

/// Putting the style back works on each stretch of the text by itself, so what was not edited is
/// written as it stood.
pub proof fn law_stretches_are_restored_apart(a: Seq<char>, b: Seq<char>)
    ensures
        to_crlf(a + b) == to_crlf(a) + to_crlf(b),
    decreases b.len(),
{
    if b.len() == 0 {
        assert(a + b =~= a);
        assert(to_crlf(a) + to_crlf(b) =~= to_crlf(a));
    } else {
        law_stretches_are_restored_apart(a, b.drop_last());
        assert((a + b).drop_last() =~= a + b.drop_last());
        assert(to_crlf(a + b) =~= to_crlf(a) + to_crlf(b));
    }
}

impl Style {
    /// A stretch of the matched text in the file's own line endings.
    pub open spec fn ended(self, s: Seq<char>) -> Seq<char> {
        if self.crlf {
            to_crlf(s)
        } else {
            s
        }
    }

    /// The byte-order mark of the file, if it has one.
    pub open spec fn mark(self) -> Seq<char> {
        if self.bom {
            seq!['\u{feff}']
        } else {
            Seq::empty()
        }
    }
}

/// A file's text from a place on, stretch by stretch: between the spots from `k` on it is what
/// stands in `s`, and at each spot it is the text for that spot.
pub open spec fn woven(
    style: Style,
    s: Seq<char>,
    spots: Seq<Spot>,
    texts: Seq<Seq<char>>,
    from: int,
    k: int,
) -> Seq<char>
    decreases spots.len() - k,
{
    if k < 0 || k >= spots.len() {
        style.ended(s.skip(from))
    } else {
        style.ended(s.subrange(from, spots[k].start)) + style.ended(texts[k]) + woven(
            style,
            s,
            spots,
            texts,
            spots[k].end,
            k + 1,
        )
    }
}

/// What stands at each spot before the edit.
pub open spec fn old_texts(s: Seq<char>, spots: Seq<Spot>) -> Seq<Seq<char>> {
    Seq::new(spots.len(), |i: int| s.subrange(spots[i].start, spots[i].end))
}

/// What is put at each spot.
pub open spec fn new_texts(spots: Seq<Spot>) -> Seq<Seq<char>> {
    Seq::new(spots.len(), |i: int| spots[i].text)
}

proof fn lemma_ended_add(style: Style, a: Seq<char>, b: Seq<char>)
    ensures
        style.ended(a + b) == style.ended(a) + style.ended(b),
{
    law_stretches_are_restored_apart(a, b);
}

proof fn lemma_woven(style: Style, s: Seq<char>, spots: Seq<Spot>, from: int, k: int)
    requires
        in_order(s, spots),
        0 <= k <= spots.len(),
        0 <= from <= s.len(),
        k < spots.len() ==> from <= spots[k].start,
    ensures
        style.ended(applied(s, spots, from, k)) == woven(
            style,
            s,
            spots,
            new_texts(spots),
            from,
            k,
        ),
        style.ended(s.skip(from)) == woven(style, s, spots, old_texts(s, spots), from, k),
    decreases spots.len() - k,
{
    if k < spots.len() {
        let spot = spots[k];
        lemma_woven(style, s, spots, spot.end, k + 1);
        let before = s.subrange(from, spot.start);
        let there = s.subrange(spot.start, spot.end);
        let rest = applied(s, spots, spot.end, k + 1);
        lemma_ended_add(style, before + spot.text, rest);
        lemma_ended_add(style, before, spot.text);
        assert(s.skip(from) =~= before + there + s.skip(spot.end));
        lemma_ended_add(style, before + there, s.skip(spot.end));
        lemma_ended_add(style, before, there);
    }
}

/// What was not edited keeps its bytes: the file before and the file after are the same stretches,
/// in the same line endings and behind the same byte-order mark, and differ only in what stands at
/// the spots of the plan. It holds of every file whose line endings are all of one kind.
pub proof fn law_untouched_text_keeps_its_bytes(
    original: Seq<char>,
    edits: Seq<ReplaceView>,
    path: Seq<char>,
)
    requires
        has_crlf(without_mark(original)) ==> all_crlf(without_mark(original)),
        edit_of(original, edits, path) is Ok,
    ensures
        ({
            let style = style_of(original);
            let s = matched_text(original);
            let spots = plan_of(s, edits, path)->Ok_0.spots;
            &&& original == style.mark() + woven(style, s, spots, old_texts(s, spots), 0, 0)
            &&& edit_of(original, edits, path)->Ok_0.0 == style.mark() + woven(
                style,
                s,
                spots,
                new_texts(spots),
                0,
                0,
            )
        }),
{
    let style = style_of(original);
    let s = matched_text(original);
    let spots = plan_of(s, edits, path)->Ok_0.spots;
    law_a_plan_is_in_order(s, edits, path);
    law_the_style_survives(original);
    lemma_woven(style, s, spots, 0, 0);
    assert(s.skip(0) =~= s);
    assert(style.restored(s) =~= style.mark() + style.ended(s));
    let edited = applied(s, spots, 0, 0);
    assert(style.restored(edited) =~= style.mark() + style.ended(edited));
}

/// Stretches of text from the k-th on, with a filling between each two.
pub open spec fn filled(gaps: Seq<Seq<char>>, fillings: Seq<Seq<char>>, k: int) -> Seq<char>
    decreases fillings.len() - k,
{
    if k < 0 || k >= fillings.len() {
        gaps[k]
    } else {
        gaps[k] + fillings[k] + filled(gaps, fillings, k + 1)
    }
}

/// The snippets of a request, as they are looked for.
pub open spec fn snippets(edits: Seq<ReplaceView>) -> Seq<Seq<char>> {
    Seq::new(edits.len(), |i: int| matched_text(edits[i].old_text))
}

/// What a request puts in their places.
pub open spec fn fillings(edits: Seq<ReplaceView>) -> Seq<Seq<char>> {
    Seq::new(edits.len(), |i: int| edits[i].new_text)
}

/// Whether a snippet stands in a text, and in one place only.
pub open spec fn stands_once(s: Seq<char>, snippet: Seq<char>) -> bool {
    &&& exists|at: int| stands_at(s, snippet, at)
    &&& forall|at: int, other: int| #[trigger]
        stands_at(s, snippet, at) && #[trigger] stands_at(s, snippet, other) ==> at == other
}

/// Where the k-th stretch begins.
spec fn offset(gaps: Seq<Seq<char>>, olds: Seq<Seq<char>>, k: int) -> int
    decreases k,
{
    if k <= 0 {
        0
    } else {
        offset(gaps, olds, k - 1) + gaps[k - 1].len() + olds[k - 1].len()
    }
}

proof fn lemma_stretches(s: Seq<char>, gaps: Seq<Seq<char>>, olds: Seq<Seq<char>>, k: int)
    requires
        s == filled(gaps, olds, 0),
        gaps.len() == olds.len() + 1,
        0 <= k <= olds.len(),
    ensures
        0 <= offset(gaps, olds, k) <= s.len(),
        s.skip(offset(gaps, olds, k)) == filled(gaps, olds, k),
        k < olds.len() ==> {
            let at = offset(gaps, olds, k) + gaps[k].len();
            &&& stands_at(s, olds[k], at)
            &&& s.subrange(offset(gaps, olds, k), at) == gaps[k]
            &&& offset(gaps, olds, k + 1) == at + olds[k].len()
        },
    decreases k,
{
    if k > 0 {
        lemma_stretches(s, gaps, olds, k - 1);
        let before = offset(gaps, olds, k - 1);
        let here = offset(gaps, olds, k);
        let rest = filled(gaps, olds, k);
        assert(s.skip(before) == gaps[k - 1] + olds[k - 1] + rest);
        assert(s.skip(here) =~= rest) by {
            assert forall|i: int| 0 <= i < rest.len() implies s.skip(here)[i] == rest[i] by {
                assert(s.skip(before)[here - before + i] == s[here + i]);
            }
        }
    } else {
        assert(s.skip(0) =~= s);
    }
    if k < olds.len() {
        let here = offset(gaps, olds, k);
        let at = here + gaps[k].len();
        let whole = gaps[k] + olds[k] + filled(gaps, olds, k + 1);
        assert(s.skip(here) == whole);
        assert(s.subrange(here, at) =~= gaps[k]) by {
            assert forall|i: int| 0 <= i < gaps[k].len() implies s.subrange(here, at)[i]
                == gaps[k][i] by {
                assert(s.skip(here)[i] == s[here + i]);
            }
        }
        assert(s.subrange(at, at + olds[k].len()) =~= olds[k]) by {
            assert forall|i: int| 0 <= i < olds[k].len() implies s.subrange(
                at,
                at + olds[k].len(),
            )[i] == olds[k][i] by {
                assert(s.skip(here)[gaps[k].len() + i] == s[at + i]);
            }
        }
    }
}

proof fn lemma_filled(
    s: Seq<char>,
    gaps: Seq<Seq<char>>,
    olds: Seq<Seq<char>>,
    spots: Seq<Spot>,
    news: Seq<Seq<char>>,
    k: int,
)
    requires
        s == filled(gaps, olds, 0),
        gaps.len() == olds.len() + 1,
        spots.len() == olds.len(),
        news.len() == olds.len(),
        forall|i: int|
            0 <= i < spots.len() ==> #[trigger] spots[i] == (Spot {
                start: offset(gaps, olds, i) + gaps[i].len(),
                end: offset(gaps, olds, i + 1),
                text: news[i],
            }),
        0 <= k <= olds.len(),
    ensures
        applied(s, spots, offset(gaps, olds, k), k) == filled(gaps, news, k),
    decreases olds.len() - k,
{
    lemma_stretches(s, gaps, olds, k);
    if k < olds.len() {
        lemma_filled(s, gaps, olds, spots, news, k + 1);
        assert(spots[k].text == news[k]);
    }
}

proof fn lemma_offsets(gaps: Seq<Seq<char>>, olds: Seq<Seq<char>>, i: int, j: int)
    requires
        0 <= i <= j,
    ensures
        offset(gaps, olds, i) <= offset(gaps, olds, j),
    decreases j - i,
{
    if i < j {
        lemma_offsets(gaps, olds, i, j - 1);
    }
}

/// The place of a snippet that stands once.
proof fn lemma_placed(s: Seq<char>, edit: ReplaceView, index: int, path: Seq<char>, at: int)
    requires
        matched_text(edit.old_text).len() > 0,
        stands_at(s, matched_text(edit.old_text), at),
        stands_once(s, matched_text(edit.old_text)),
    ensures
        spot_of(s, edit, index, path) == Ok::<Spot, EditErrorView>(
            Spot {
                start: at,
                end: at + matched_text(edit.old_text).len(),
                text: edit.new_text,
            },
        ),
{
    let old = matched_text(edit.old_text);
    let places = seq![at];
    assert(places[0] == at);
    assert forall|other: int| #[trigger] stands_at(s, old, other) <==> places.contains(other) by {
        if stands_at(s, old, other) {
            assert(other == at);
        }
    }
    lemma_places_are(s, old, s.len() as int, places);
}

/// The places of a snippet are the ones where it stands, in order.
proof fn lemma_places_are(s: Seq<char>, needle: Seq<char>, n: int, places: Seq<int>)
    requires
        needle.len() > 0,
        0 <= n <= s.len(),
        forall|i: int, j: int|
            0 <= i < j < places.len() ==> #[trigger] places[i] < #[trigger] places[j],
        forall|at: int| #[trigger] stands_at(s, needle, at) <==> places.contains(at),
    ensures
        hits(s, needle, n).len() <= places.len(),
        hits(s, needle, n) == places.take(hits(s, needle, n).len() as int),
        hits(s, needle, n).len() < places.len() ==> places[hits(s, needle, n).len() as int] >= n,
        n == s.len() ==> hits(s, needle, n) == places,
    decreases n,
{
    let found = hits(s, needle, n);
    if n > 0 {
        lemma_places_are(s, needle, n - 1, places);
        let before = hits(s, needle, n - 1);
        let k = before.len() as int;
        if stands_at(s, needle, n - 1) {
            let i = choose|i: int| 0 <= i < places.len() && places[i] == n - 1;
            if i < k {
                assert(before[i] == places[i]);
                lemma_hits(s, needle, n - 1);
                assert(0 <= before[i] < n - 1);
            }
            if k < i {
                assert(places[k] < places[i]);
            }
            assert(found =~= places.take(k + 1));
            if k + 1 < places.len() {
                assert(places[k] < places[k + 1]);
            }
        } else if k < places.len() && places[k] == n - 1 {
            assert(places.contains(places[k]));
            assert(stands_at(s, needle, n - 1));
        }
    } else {
        assert(places.take(0) =~= Seq::<int>::empty());
        if places.len() > 0 {
            assert(places.contains(places[0]));
            assert(stands_at(s, needle, places[0]));
        }
    }
    if n == s.len() {
        if found.len() < places.len() {
            let at = places[found.len() as int];
            assert(places.contains(at));
            assert(stands_at(s, needle, at));
        }
        assert(places.take(places.len() as int) =~= places);
    }
}

/// An edit that can be made is made. When every snippet of a request stands in the file once and no
/// two run into each other, so that the file is the snippets and the stretches around them, the
/// edited file is the same stretches around the new texts, in the file's own style, whatever the
/// order of the request. It is refused as no change only if that is the text that was there.
pub proof fn law_an_edit_that_can_be_made_is_made(
    original: Seq<char>,
    edits: Seq<ReplaceView>,
    request: Seq<ReplaceView>,
    path: Seq<char>,
    gaps: Seq<Seq<char>>,
)
    requires
        gaps.len() == edits.len() + 1,
        matched_text(original) == filled(gaps, snippets(edits), 0),
        forall|i: int|
            0 <= i < edits.len() ==> (#[trigger] snippets(edits)[i]).len() > 0 && stands_once(
                matched_text(original),
                snippets(edits)[i],
            ),
        request.to_multiset() == edits.to_multiset(),
    ensures
        ({
            let edited = filled(gaps, fillings(edits), 0);
            &&& edited == matched_text(original) ==> edit_of(original, request, path) == Err::<
                (Seq<char>, EditOutputView),
                EditErrorView,
            >(EditErrorView::NoChange)
            &&& edited != matched_text(original) ==> {
                &&& edit_of(original, request, path) matches Ok((content, output))
                &&& content == style_of(original).restored(edited)
                &&& output.path == path
                &&& output.replaced == edits.len()
                &&& output.first_changed_line == line_feeds(gaps[0]) + 1
                &&& output.bytes == byte_len(content)
            }
        }),
{
    let s = matched_text(original);
    let olds = snippets(edits);
    let news = fillings(edits);
    let want = Seq::new(
        edits.len(),
        |i: int|
            Spot {
                start: offset(gaps, olds, i) + gaps[i].len(),
                end: offset(gaps, olds, i + 1),
                text: news[i],
            },
    );
    assert forall|i: int| 0 <= i < edits.len() implies spot_of(s, #[trigger] edits[i], i, path)
        == Ok::<Spot, EditErrorView>(want[i]) by {
        lemma_stretches(s, gaps, olds, i);
        assert(olds[i] == matched_text(edits[i].old_text));
        lemma_placed(s, edits[i], i, path, offset(gaps, olds, i) + gaps[i].len());
    }
    lemma_all_found(s, edits, path);
    lemma_spots(s, edits, path);
    let found = spots_of(s, edits, path)->Ok_0;
    assert(found =~= want) by {
        assert forall|i: int| 0 <= i < found.len() implies found[i] == want[i] by {
            assert(spot_of(s, edits[i], i, path) == Ok::<Spot, EditErrorView>(found[i]));
        }
    }
    assert forall|i: int, j: int| 0 <= i < j < want.len() implies (#[trigger] want[i]).end <= (
    #[trigger] want[j]).start && want[i].start < want[i].end by {
        lemma_offsets(gaps, olds, i + 1, j);
        assert(olds[i].len() > 0);
    }
    lemma_sorted(found);
    let sorted = by_start(found);
    lemma_sorted_once(want, sorted);
    lemma_clash_at(sorted, 0);
    if let Some(k) = clash(sorted, 0) {
        assert(want[k].end <= want[k + 1].start);
    }
    let plan = plan_of(s, edits, path);
    assert(plan is Ok && plan->Ok_0.spots == want);
    lemma_filled(s, gaps, olds, want, news, 0);
    law_the_order_of_edits_does_not_matter(s, edits, request, path);
    lemma_stretches(s, gaps, olds, 0);
    if edits.len() > 0 {
        assert(want[0].start == gaps[0].len());
        assert(s.take(gaps[0].len() as int) =~= s.subrange(0, gaps[0].len() as int));
    } else {
        assert(applied(s, want, 0, 0) =~= s);
    }
}

/// A request is refused for its first edit that has no place of its own: one whose snippet is empty,
/// one whose snippet stands nowhere, and one whose snippet stands in several places, of which it
/// tells how many there are.
pub proof fn law_the_first_edit_without_a_place_is_named(
    original: Seq<char>,
    edits: Seq<ReplaceView>,
    path: Seq<char>,
    n: int,
    places: Seq<int>,
)
    requires
        0 <= n < edits.len(),
        forall|i: int|
            0 <= i < n ==> (#[trigger] snippets(edits)[i]).len() > 0 && stands_once(
                matched_text(original),
                snippets(edits)[i],
            ),
        forall|i: int, j: int|
            0 <= i < j < places.len() ==> #[trigger] places[i] < #[trigger] places[j],
        forall|at: int| #[trigger]
            stands_at(matched_text(original), snippets(edits)[n], at) <==> places.contains(at),
    ensures
        snippets(edits)[n].len() == 0 ==> edit_of(original, edits, path) == Err::<
            (Seq<char>, EditOutputView),
            EditErrorView,
        >(EditErrorView::EmptyOldText { index: n }),
        snippets(edits)[n].len() > 0 && places.len() == 0 ==> edit_of(original, edits, path)
            == Err::<(Seq<char>, EditOutputView), EditErrorView>(
            EditErrorView::NotFound { index: n, path },
        ),
        snippets(edits)[n].len() > 0 && places.len() > 1 ==> edit_of(original, edits, path)
            == Err::<(Seq<char>, EditOutputView), EditErrorView>(
            EditErrorView::NotUnique { index: n, count: places.len() as int },
        ),
{
    let s = matched_text(original);
    let front = edits.take(n);
    assert forall|i: int| 0 <= i < front.len() implies spot_of(
        s,
        #[trigger] front[i],
        i,
        path,
    ) is Ok by {
        let old = snippets(edits)[i];
        assert(old.len() > 0 && stands_once(s, old));
        let at = choose|at: int| stands_at(s, old, at);
        lemma_placed(s, edits[i], i, path, at);
    }
    lemma_all_found(s, front, path);
    if snippets(edits)[n].len() > 0 {
        lemma_places_are(s, snippets(edits)[n], s.len() as int, places);
    }
    if spot_of(s, edits[n], n, path) is Err {
        let more = edits.take(n + 1);
        assert(more.drop_last() =~= front);
        assert(more.last() == edits[n]);
        lemma_first_error(s, edits, path, n + 1);
    }
}

/// Every snippet that stands once has its spot there.
proof fn lemma_all_placed(s: Seq<char>, edits: Seq<ReplaceView>, path: Seq<char>)
    requires
        forall|k: int|
            0 <= k < edits.len() ==> (#[trigger] snippets(edits)[k]).len() > 0 && stands_once(
                s,
                snippets(edits)[k],
            ),
    ensures
        spots_of(s, edits, path) is Ok,
        spots_of(s, edits, path)->Ok_0.len() == edits.len(),
{
    assert forall|k: int| 0 <= k < edits.len() implies spot_of(
        s,
        #[trigger] edits[k],
        k,
        path,
    ) is Ok by {
        let old = snippets(edits)[k];
        assert(old.len() > 0 && stands_once(s, old));
        let at = choose|at: int| stands_at(s, old, at);
        lemma_placed(s, edits[k], k, path, at);
    }
    lemma_all_found(s, edits, path);
    lemma_spots(s, edits, path);
}

/// The spot of a snippet that stands once is where it stands.
proof fn lemma_spot_at(s: Seq<char>, edits: Seq<ReplaceView>, path: Seq<char>, i: int, at: int)
    requires
        spots_of(s, edits, path) is Ok,
        0 <= i < edits.len(),
        snippets(edits)[i].len() > 0,
        stands_once(s, snippets(edits)[i]),
        stands_at(s, snippets(edits)[i], at),
    ensures
        spots_of(s, edits, path)->Ok_0[i].start == at,
        spots_of(s, edits, path)->Ok_0[i].end == at + snippets(edits)[i].len(),
{
    lemma_spots(s, edits, path);
    lemma_placed(s, edits[i], i, path, at);
    assert(spot_of(s, edits[i], i, path) == Ok::<Spot, EditErrorView>(
        spots_of(s, edits, path)->Ok_0[i],
    ));
}

/// Spots of which two run into each other clash.
proof fn lemma_clashes(spots: Seq<Spot>, i: int, j: int)
    requires
        0 <= i < spots.len(),
        0 <= j < spots.len(),
        i != j,
        forall|k: int| 0 <= k < spots.len() ==> (#[trigger] spots[k]).start < spots[k].end,
        spots[i].start <= spots[j].start < spots[i].end,
    ensures
        clash(by_start(spots), 0) is Some,
        0 <= clash(by_start(spots), 0)->0 < spots.len() - 1,
{
    lemma_order(spots);
    let sorted = by_start(spots);
    let order = order_of(spots);
    lemma_clash_at(sorted, 0);
    if clash(sorted, 0) is None {
        lemma_clash(sorted, 0);
        lemma_named(order, spots.len() as int, i);
        lemma_named(order, spots.len() as int, j);
        let p = choose|p: int| 0 <= p < order.len() && order[p] == i;
        let q = choose|q: int| 0 <= q < order.len() && order[q] == j;
        assert(sorted[p] == spots[i] && sorted[q] == spots[j]);
        assert forall|k: int| 0 <= k < sorted.len() implies (#[trigger] sorted[k]).start
            < sorted[k].end by {
            assert(sorted[k] == spots[order[k]]);
        }
        if p < q {
            lemma_apart(sorted, p, q);
        } else {
            lemma_apart(sorted, q, p);
        }
    }
}

/// Two snippets that run into each other are never both replaced: the request is refused as an
/// overlap.
pub proof fn law_overlapping_edits_are_refused(
    original: Seq<char>,
    edits: Seq<ReplaceView>,
    path: Seq<char>,
    i: int,
    j: int,
    at: int,
    other: int,
)
    requires
        0 <= i < edits.len(),
        0 <= j < edits.len(),
        i != j,
        forall|k: int|
            0 <= k < edits.len() ==> (#[trigger] snippets(edits)[k]).len() > 0 && stands_once(
                matched_text(original),
                snippets(edits)[k],
            ),
        stands_at(matched_text(original), snippets(edits)[i], at),
        stands_at(matched_text(original), snippets(edits)[j], other),
        at <= other < at + snippets(edits)[i].len(),
    ensures
        edit_of(original, edits, path) matches Err(EditErrorView::Overlap { first, second }) && 0
            <= first < edits.len() && 0 <= second < edits.len() && first != second,
{
    let s = matched_text(original);
    lemma_all_placed(s, edits, path);
    let found = spots_of(s, edits, path)->Ok_0;
    assert(snippets(edits)[i].len() > 0 && snippets(edits)[j].len() > 0);
    lemma_spot_at(s, edits, path, i, at);
    lemma_spot_at(s, edits, path, j, other);
    lemma_spots(s, edits, path);
    lemma_clashes(found, i, j);
    lemma_order(found);
    let k = clash(by_start(found), 0)->0;
    assert(order_of(found)[k] != order_of(found)[k + 1]);
}

/// A list of as many different places as there are names every one of them.
proof fn lemma_named(order: Seq<int>, n: int, i: int)
    requires
        order.len() == n,
        0 <= i < n,
        forall|k: int| 0 <= k < n ==> 0 <= #[trigger] order[k] < n,
        forall|j: int, k: int|
            0 <= j < k < n ==> #[trigger] order[j] != #[trigger] order[k],
    ensures
        order.contains(i),
{
    order.unique_seq_to_set();
    let named = order.to_set();
    let all = vstd::set_lib::set_int_range(0, n);
    vstd::set_lib::lemma_int_range(0, n);
    assert forall|x: int| named.contains(x) implies #[trigger] all.contains(x) by {
        let k = choose|k: int| 0 <= k < order.len() && order[k] == x;
        assert(0 <= order[k] < n);
    }
    vstd::set_lib::lemma_subset_equality(named, all);
    assert(all.contains(i));
}

/// Line feeds are counted one by one.
pub proof fn law_every_line_feed_counts(s: Seq<char>)
    ensures
        line_feeds(s) == s.filter(|c: char| c == '\n').len(),
    decreases s.len(),
{
    reveal(Seq::filter);
    if s.len() > 0 {
        law_every_line_feed_counts(s.drop_last());
    }
}

/// A file's style is its own: a byte-order mark is left out of the matching and put back in front,
/// and a file with a CRLF anywhere gets each of its line ends as one, while any other is written as
/// it was edited.
pub proof fn law_the_style_is_put_back(body: Seq<char>, edited: Seq<char>)
    requires
        body.len() > 0 ==> body[0] != '\u{feff}',
    ensures
        ({
            let marked = seq!['\u{feff}'] + body;
            &&& matched_text(marked) == matched_text(body)
            &&& style_of(marked).restored(edited) == seq!['\u{feff}'] + style_of(body).restored(
                edited,
            )
        }),
        (exists|i: int| 0 <= i < body.len() - 1 && #[trigger] body[i] == '\r' && body[i + 1] == '\n')
            ==> style_of(body).restored(edited) == to_crlf(edited),
        !(exists|i: int|
            0 <= i < body.len() - 1 && #[trigger] body[i] == '\r' && body[i + 1] == '\n')
            ==> style_of(body).restored(edited) == edited && matched_text(body) == body,
{
    let marked = seq!['\u{feff}'] + body;
    assert(marked[0] == '\u{feff}');
    assert(marked.skip(1) =~= body);
    if !has_crlf(body) {
        lemma_no_crlf(body);
    }
}

/// Each line feed becomes a carriage return and a line feed, and every other character stays.
pub proof fn law_a_line_end_becomes_one_crlf(c: char, a: Seq<char>, b: Seq<char>)
    ensures
        to_crlf(seq![c]) == if c == '\n' {
            seq!['\r', '\n']
        } else {
            seq![c]
        },
        to_lf(a + seq!['\r', '\n'] + b) == to_lf(a) + seq!['\n'] + to_lf(b),
{
    let one = seq![c];
    assert(one.drop_last() =~= Seq::<char>::empty());
    assert(one.last() == c);
    reveal_with_fuel(to_crlf, 2);
    assert(to_crlf(one) =~= if c == '\n' {
        seq!['\r', '\n']
    } else {
        one
    });
    lemma_to_lf_pair(a, b);
}

proof fn lemma_to_lf_pair(a: Seq<char>, b: Seq<char>)
    ensures
        to_lf(a + seq!['\r', '\n'] + b) == to_lf(a) + seq!['\n'] + to_lf(b),
    decreases b.len(),
{
    let pair = seq!['\r', '\n'];
    if b.len() == 0 {
        lemma_to_lf_push(a, '\r');
        lemma_to_lf_push(a.push('\r'), '\n');
        assert(a + pair + b =~= a.push('\r').push('\n'));
        assert(a.push('\r').drop_last() =~= a);
        assert(to_lf(a).push('\n') =~= to_lf(a) + seq!['\n'] + to_lf(b));
    } else {
        let front = b.drop_last();
        let c = b.last();
        lemma_to_lf_pair(a, front);
        lemma_to_lf_push(a + pair + front, c);
        lemma_to_lf_push(front, c);
        assert((a + pair + front).push(c) =~= a + pair + b);
        assert(front.push(c) =~= b);
        if front.len() > 0 && front.last() == '\r' && c == '\n' {
            lemma_to_lf_pair(a, front.drop_last());
            assert((a + pair + front).drop_last() =~= a + pair + front.drop_last());
            assert((to_lf(a) + seq!['\n'] + to_lf(front.drop_last())).push('\n') =~= to_lf(a)
                + seq!['\n'] + to_lf(front.drop_last()).push('\n'));
        } else {
            if front.len() == 0 {
                assert((a + pair + front).last() == '\n');
            } else {
                assert((a + pair + front).last() == front.last());
            }
            assert((to_lf(a) + seq!['\n'] + to_lf(front)).push(c) =~= to_lf(a) + seq!['\n']
                + to_lf(front).push(c));
        }
    }
}

/// The model is told to pass a path and at least one edit, each of them the text to replace and what
/// to put in its place.
pub proof fn law_an_edit_asks_for_a_path_and_its_edits()
    ensures
        edit_schema().get("type"@) == Some(JsonView::Text("object"@)),
        edit_schema().get("required"@) == Some(
            JsonView::List(seq![JsonView::Text("path"@), JsonView::Text("edits"@)]),
        ),
        edit_schema().get("properties"@) matches Some(properties) && {
            &&& properties.get_in("path"@, "type"@) == Some(JsonView::Text("string"@))
            &&& properties.get_in("edits"@, "type"@) == Some(JsonView::Text("array"@))
            &&& properties.get_in("edits"@, "minItems"@) == Some(JsonView::Int(1))
            &&& properties.get_in("edits"@, "items"@) matches Some(item) && item.get("type"@)
                == Some(JsonView::Text("object"@)) && item.get("required"@) == Some(
                JsonView::List(seq![JsonView::Text("old_text"@), JsonView::Text("new_text"@)]),
            )
        },
{
    reveal_strlit("path");
    reveal_strlit("edits");
    reveal_strlit("type");
    reveal_strlit("minItems");
    reveal_strlit("description");
    reveal_strlit("items");
    reveal_strlit("properties");
    reveal_strlit("required");
    assert("path"@.len() == 4 && "edits"@.len() == 5);
    assert("type"@.len() == 4 && "minItems"@.len() == 8 && "description"@.len() == 11);
    assert("items"@.len() == 5 && "properties"@.len() == 10 && "required"@.len() == 8);
    let properties = edit_schema()->Object_0[1].1->Object_0;
    let required = seq!["path"@, "edits"@];
    law_a_schema_lists_its_parameters(properties, required);
    assert(edit_schema() == parameters(properties, required));
    assert(names(required)->List_0 =~= seq![JsonView::Text("path"@), JsonView::Text("edits"@)]);
    law_a_property_says_its_type("string"@, "Path of the file to edit. `~` is expanded."@);
    reveal_with_fuel(JsonView::position, 5);
    assert(properties[0].0 == "path"@ && properties[1].0 == "edits"@);
    let inner = properties[1].1->Object_0;
    assert(inner[0].0 == "type"@ && inner[1].0 == "minItems"@ && inner[2].0 == "description"@
        && inner[3].0 == "items"@);
    let item = replace_schema()->Object_0;
    assert(item[0].0 == "type"@ && item[1].0 == "properties"@ && item[2].0 == "required"@);
    assert(names(seq!["old_text"@, "new_text"@])->List_0 =~= seq![
        JsonView::Text("old_text"@),
        JsonView::Text("new_text"@),
    ]);
}

/// What the model is told of an edit that was refused names the edit by its place in the request, and
/// what has to change for it to work.
pub proof fn law_a_refused_edit_says_what_to_change(error: EditErrorView)
    ensures
        match error {
            EditErrorView::Read(fault) => error.message() == fault.message(),
            EditErrorView::EmptyOldText { index } => error.message() == "edits["@ + decimal(
                index as nat,
            )
                + "].old_text is empty. Give the exact text to replace — a snippet copied from the file."@,
            EditErrorView::NotFound { index, path } => error.message() == "edits["@ + decimal(
                index as nat,
            ) + "]: could not find that text in "@ + path
                + ". Read the file again and copy the snippet exactly, including its indentation."@,
            EditErrorView::NotUnique { index, count } => error.message() == "edits["@ + decimal(
                index as nat,
            ) + "]: old_text appears "@ + decimal(count as nat)
                + " times in the file. Include more of the surrounding lines so it matches once."@,
            EditErrorView::Overlap { first, second } => error.message() == "edits["@ + decimal(
                first as nat,
            ) + "] and edits["@ + decimal(second as nat)
                + "] cover overlapping parts of the file. Merge them into one edit, or make them cover different text."@,
            EditErrorView::NoChange => error.message()
                == "the edit would leave the file exactly as it is. Change new_text, or drop the edit."@,
            EditErrorView::Io { path, error: fault } => error.message() == path
                + " could not be written: "@ + fault,
        },
{
}

/// Every place where a snippet stands is found, those that overlap too, once each and from the front.
pub proof fn law_every_place_of_a_snippet_is_found(s: Seq<char>, needle: Seq<char>, at: int)
    requires
        needle.len() > 0,
    ensures
        hits(s, needle, s.len() as int).contains(at) <==> stands_at(s, needle, at),
        forall|i: int, j: int|
            0 <= i < j < hits(s, needle, s.len() as int).len() ==> #[trigger] hits(
                s,
                needle,
                s.len() as int,
            )[i] < #[trigger] hits(s, needle, s.len() as int)[j],
{
    lemma_hits(s, needle, s.len() as int);
    lemma_hits_ordered(s, needle, s.len() as int);
}

proof fn lemma_hits_ordered(s: Seq<char>, needle: Seq<char>, n: int)
    requires
        0 <= n,
    ensures
        forall|i: int, j: int|
            0 <= i < j < hits(s, needle, n).len() ==> #[trigger] hits(s, needle, n)[i]
                < #[trigger] hits(s, needle, n)[j],
    decreases n,
{
    if n > 0 {
        lemma_hits_ordered(s, needle, n - 1);
        lemma_hits(s, needle, n - 1);
        let before = hits(s, needle, n - 1);
        let now = hits(s, needle, n);
        assert forall|i: int, j: int| 0 <= i < j < now.len() implies #[trigger] now[i]
            < #[trigger] now[j] by {
            assert(now[i] == before[i]);
            assert(0 <= before[i] < n - 1);
            if j < before.len() {
                assert(now[j] == before[j]);
            }
        }
    }
}

} // verus!
