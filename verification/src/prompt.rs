//! The prompt file: what the human is asking for, written down before it is sent.
//!
//! ```text
//! ---
//! path: src/tools/bash.rs
//! instruction: 让默认超时变成 120 秒
//! ---
//! 顺便看一眼 clamp 的提示语是不是也该跟着改。
//! ```
//!
//! The header is two keys under a pair of fences. A file with no header is still a prompt: the whole
//! text is its body. What gets sent is a function of the file, so it can be shown before anything is
//! sent.

use vstd::prelude::*;

use crate::paths::{app_dir, config_dir, join_path, joined};
use crate::text::{
    after_from, begins, begins_with, blank, chars_of, comes_after, copy, is_blank,
    lemma_after_transitive, lemma_lines_first, lemma_not_after_itself, lemma_upto, lemma_upto_is,
    lines, lines_of, opt_view, same, string_of, trim, trim_end, trim_of, trim_start, trimmed,
    trimmed_end, upto, views,
};

verus! {

/// The keys the header understands.
pub const PATH_KEY: &'static str = "path:";

pub const INSTRUCTION_KEY: &'static str = "instruction:";

/// What opens and closes the header.
pub const FENCE: &'static str = "---";

/// A prompt file, parsed.
#[derive(Debug, Clone, PartialEq, Eq)]
pub struct Prompt {
    /// The file the work is about, as the human wrote it.
    pub path: Option<String>,
    /// What to do, in one line.
    pub instruction: Option<String>,
    /// Everything after the header, verbatim but for the white space around it.
    pub body: String,
}

#[verifier::ext_equal]
pub struct PromptView {
    pub path: Option<Seq<char>>,
    pub instruction: Option<Seq<char>>,
    pub body: Seq<char>,
}

impl View for Prompt {
    type V = PromptView;

    open spec fn view(&self) -> PromptView {
        PromptView {
            path: opt_view(self.path),
            instruction: opt_view(self.instruction),
            body: self.body@,
        }
    }
}

impl Default for Prompt {
    fn default() -> (out: Self)
        ensures
            out@ == (PromptView { path: None, instruction: None, body: Seq::empty() }),
    {
        let out = Prompt { path: None, instruction: None, body: String::new() };
        assert(out@.body =~= Seq::<char>::empty());
        out
    }
}

#[derive(Debug, Clone, Copy, PartialEq, Eq, Structural)]
pub enum PromptError {
    /// A fence that was opened and never closed.
    UnclosedFrontmatter,
}

pub const UNCLOSED: &'static str =
    "开头有 `---` 却没有收尾的 `---`：要么补上，要么把那行删掉，正文就当提示词发出去";

impl PromptError {
    /// What the human is told.
    pub fn message(&self) -> (out: String)
        ensures
            out@ == UNCLOSED@,
    {
        copy(UNCLOSED)
    }
}

// ---------------------------------------------------------------------------------------------
// Reading

/// Whether a row is a fence.
pub open spec fn is_fence(row: Seq<char>) -> bool {
    trim_end(row) == FENCE@
}

/// The first fence from `from` on.
pub open spec fn fence_at(rows: Seq<Seq<char>>, from: int) -> Option<int>
    decreases rows.len() - from,
{
    if from < 0 || from >= rows.len() {
        None
    } else if is_fence(rows[from]) {
        Some(from)
    } else {
        fence_at(rows, from + 1)
    }
}

/// What a row says of a key, which ends in its colon; nothing when it is another key's row.
pub open spec fn value_in(row: Seq<char>, key: Seq<char>) -> Option<Seq<char>> {
    let row = trim(row);
    if begins(row, key) {
        Some(trim(row.skip(key.len() as int)))
    } else {
        None
    }
}

/// What the first `n` rows say of a key: the last of them that speaks of it counts, and an empty
/// value is no value.
pub open spec fn setting(rows: Seq<Seq<char>>, key: Seq<char>, n: int) -> Option<Seq<char>>
    decreases n,
{
    if n <= 0 || n > rows.len() {
        None
    } else {
        match value_in(rows[n - 1], key) {
            Some(value) => if value.len() == 0 {
                None
            } else {
                Some(value)
            },
            None => setting(rows, key, n - 1),
        }
    }
}

/// What stands below the first `n` rows of a text, as it is written there.
pub open spec fn below(text: Seq<char>, n: int) -> Seq<char>
    decreases n,
{
    if n <= 0 {
        text
    } else if upto(text, '\n') >= text.len() {
        Seq::empty()
    } else {
        below(text.skip(upto(text, '\n') + 1), n - 1)
    }
}

/// What a file says. Only its very first row opens a header; without one, all of it is the body.
pub open spec fn prompt_of(text: Seq<char>) -> Result<PromptView, PromptError> {
    let rows = lines(text);
    if rows.len() == 0 || !is_fence(rows[0]) {
        Ok(PromptView { path: None, instruction: None, body: trim(text) })
    } else {
        match fence_at(rows, 1) {
            None => Err(PromptError::UnclosedFrontmatter),
            Some(end) => Ok(
                PromptView {
                    path: setting(rows.subrange(1, end), PATH_KEY@, end - 1),
                    instruction: setting(rows.subrange(1, end), INSTRUCTION_KEY@, end - 1),
                    body: trim(below(text, end + 1)),
                },
            ),
        }
    }
}

fn fences(row: &str) -> (out: bool)
    ensures
        out == is_fence(row@),
{
    same(&trimmed_end(row), FENCE)
}

/// What a row says of a key.
fn read_value(row: &str, key: &str) -> (out: Option<String>)
    ensures
        opt_view(out) == value_in(row@, key@),
{
    let chars = chars_of(row);
    let kept = trim_of(&chars);
    let wanted = chars_of(key);
    if begins_with(kept, &wanted) {
        let n: usize = wanted.len();
        assert(kept@.subrange(n as int, kept@.len() as int) =~= kept@.skip(n as int));
        Some(string_of(trim_of(vstd::slice::slice_subrange(kept, n, kept.len()))))
    } else {
        None
    }
}

/// A value, unless it is empty.
fn not_empty(value: String) -> (out: Option<String>)
    ensures
        opt_view(out) == if value@.len() == 0 {
            None
        } else {
            Some(value@)
        },
{
    if value.as_str().is_empty() {
        None
    } else {
        Some(value)
    }
}

impl Prompt {
    /// Reads a prompt file.
    pub fn parse(text: &str) -> (out: Result<Prompt, PromptError>)
        ensures
            match out {
                Ok(prompt) => prompt_of(text@) == Ok::<PromptView, PromptError>(prompt@),
                Err(error) => prompt_of(text@) == Err::<PromptView, PromptError>(error),
            },
    {
        let rows = lines_of(text);
        let ghost all = lines(text@);
        if rows.len() == 0 {
            return Ok(Prompt { path: None, instruction: None, body: trimmed(text) });
        }
        assert(all[0] == rows@[0]@);
        if !fences(&rows[0]) {
            // Trailing blank lines are not content: a file saved by an editor ends with a newline.
            return Ok(Prompt { path: None, instruction: None, body: trimmed(text) });
        }
        let mut path: Option<String> = None;
        let mut instruction: Option<String> = None;
        let mut i: usize = 1;
        while i < rows.len()
            invariant
                all == lines(text@),
                all == views(rows@),
                1 <= i <= rows@.len(),
                is_fence(all[0]),
                fence_at(all, 1) == fence_at(all, i as int),
                opt_view(path) == setting(all.subrange(1, i as int), PATH_KEY@, i - 1),
                opt_view(instruction) == setting(
                    all.subrange(1, i as int),
                    INSTRUCTION_KEY@,
                    i - 1,
                ),
            decreases rows@.len() - i,
        {
            assert(all[i as int] == rows@[i as int]@);
            if fences(&rows[i]) {
                let rest = text_below(text, i + 1);
                return Ok(Prompt { path, instruction, body: trimmed(&rest) });
            }
            proof {
                let header = all.subrange(1, i + 1);
                assert(header[i - 1] == all[i as int]);
                lemma_setting_prefix(all.subrange(1, i as int), header, PATH_KEY@, i - 1);
                lemma_setting_prefix(all.subrange(1, i as int), header, INSTRUCTION_KEY@, i - 1);
                lemma_keys_exclude(all[i as int]);
            }
            match read_value(&rows[i], PATH_KEY) {
                Some(value) => {
                    path = not_empty(value);
                },
                None => match read_value(&rows[i], INSTRUCTION_KEY) {
                    Some(value) => {
                        instruction = not_empty(value);
                    },
                    // Anything else is a key this build does not know. It is skipped rather than
                    // refused: a file written for a later version is still worth sending.
                    None => {},
                },
            }
            i += 1;
        }
        Err(PromptError::UnclosedFrontmatter)
    }
}

/// What the first rows say does not depend on the rows behind them.
proof fn lemma_setting_prefix(a: Seq<Seq<char>>, b: Seq<Seq<char>>, key: Seq<char>, n: int)
    requires
        0 <= n <= a.len() <= b.len(),
        forall|i: int| 0 <= i < a.len() ==> #[trigger] a[i] == b[i],
    ensures
        setting(a, key, n) == setting(b, key, n),
    decreases n,
{
    if n > 0 {
        assert(a[n - 1] == b[n - 1]);
        lemma_setting_prefix(a, b, key, n - 1);
    }
}

/// A row speaks of one of the two keys at most.
proof fn lemma_keys_exclude(row: Seq<char>)
    ensures
        value_in(row, PATH_KEY@) is None || value_in(row, INSTRUCTION_KEY@) is None,
{
    reveal_strlit("path:");
    reveal_strlit("instruction:");
    let kept = trim(row);
    if begins(kept, PATH_KEY@) && begins(kept, INSTRUCTION_KEY@) {
        assert(kept.take(5)[0] == PATH_KEY@[0]);
        assert(kept.take(12)[0] == INSTRUCTION_KEY@[0]);
    }
}

/// What stands below the first `n` rows.
fn text_below(text: &str, n: usize) -> (out: String)
    ensures
        out@ == below(text@, n as int),
{
    let chars = chars_of(text);
    let mut start: usize = 0;
    let mut left: usize = n;
    assert(text@.skip(0) =~= text@);
    while left > 0 && start < chars.len()
        invariant
            chars@ == text@,
            start <= chars@.len(),
            left <= n,
            below(text@, n as int) == below(text@.skip(start as int), left as int),
        decreases left,
    {
        let mut end: usize = start;
        while end < chars.len() && chars[end] != '\n'
            invariant
                start <= end <= chars@.len(),
                chars@ == text@,
                forall|k: int| start <= k < end ==> text@[k] != '\n',
            decreases chars@.len() - end,
        {
            end += 1;
        }
        proof {
            let here = text@.skip(start as int);
            assert forall|k: int| 0 <= k < end - start implies here[k] != '\n' by {
                assert(here[k] == text@[start + k]);
            }
            lemma_upto_is(here, '\n', end - start);
            if end < text@.len() {
                assert(here.skip(end - start + 1) =~= text@.skip(end + 1));
            } else {
                assert(text@.skip(end as int) =~= Seq::<char>::empty());
                lemma_below_nothing(left - 1);
            }
        }
        start = if end < chars.len() {
            end + 1
        } else {
            end
        };
        left -= 1;
    }
    proof {
        if left > 0 {
            assert(text@.skip(start as int) =~= Seq::<char>::empty());
            lemma_below_nothing(left as int);
        }
        assert(chars@.subrange(start as int, chars@.len() as int) =~= text@.skip(start as int));
    }
    string_of(vstd::slice::slice_subrange(&chars, start, chars.len()))
}

proof fn lemma_below_nothing(n: int)
    ensures
        below(Seq::empty(), n) == Seq::<char>::empty(),
{
}

// ---------------------------------------------------------------------------------------------
// Sending

impl PromptView {
    /// The labelled pieces in front of the body.
    pub open spec fn labels(self, base: Seq<char>) -> Seq<char> {
        (match self.path {
            Some(path) => "File: "@ + joined(base, path) + seq!['\n'],
            None => Seq::empty(),
        }) + (match self.instruction {
            Some(instruction) => "Task: "@ + instruction + seq!['\n'],
            None => Seq::empty(),
        })
    }

    /// What the model is sent.
    pub open spec fn assembled(self, base: Seq<char>) -> Seq<char> {
        let labels = self.labels(base);
        trim_end(
            if self.body.len() == 0 {
                labels
            } else if labels.len() == 0 {
                self.body
            } else {
                labels + seq!['\n'] + self.body
            },
        )
    }

    /// Whether there is nothing to send.
    pub open spec fn hollow(self) -> bool {
        self.path is None && self.instruction is None && blank(self.body)
    }
}

/// The file a first run finds. Every line of guidance is a comment inside the header, and there is
/// no body: an untouched template assembles to nothing.
pub const TEMPLATE: &'static str = "---\n# 要改哪个文件（相对路径按会话目录解析；不写就只发正文）\npath: \n# 一句话说清要做什么\ninstruction: \n# 正文写在下面那条 --- 之后：复现步骤、约束、要保留的行为、你不想再看到的东西。\n# 发出去的正文里 `#` 也算正文，所以注释只能写在这一段里。\n---\n";

impl Prompt {
    /// What the model is sent.
    ///
    /// The pieces are labelled because the model has to know which is which. A relative path is
    /// resolved against `base`, so the path the model sees is one it can paste into a tool call.
    pub fn assemble(&self, base: &str) -> (out: String)
        ensures
            out@ == self@.assembled(base@),
    {
        let mut out = String::new();
        match &self.path {
            Some(path) => {
                out.append("File: ");
                out.append(&join_path(base, path));
                out.push('\n');
            },
            None => {},
        }
        match &self.instruction {
            Some(instruction) => {
                out.append("Task: ");
                out.append(instruction);
                out.push('\n');
            },
            None => {},
        }
        assert(out@ =~= self@.labels(base@));
        if !self.body.as_str().is_empty() {
            if !out.as_str().is_empty() {
                out.push('\n');
            }
            out.append(&self.body);
            assert(out@ =~= if self@.labels(base@).len() == 0 {
                self.body@
            } else {
                self@.labels(base@) + seq!['\n'] + self.body@
            });
        }
        trimmed_end(&out)
    }

    /// Whether there is nothing to send.
    pub fn is_empty(&self) -> (out: bool)
        ensures
            out == self@.hollow(),
    {
        self.path.is_none() && self.instruction.is_none() && is_blank(&self.body)
    }

    /// The file a first run finds, so the format is learned by seeing it.
    pub fn template() -> (out: String)
        ensures
            out@ == TEMPLATE@,
    {
        copy(TEMPLATE)
    }
}

// ---------------------------------------------------------------------------------------------
// Where prompts are kept

/// Where prompt files live in a configuration directory.
pub open spec fn prompts_path(config_dir: Seq<char>) -> Seq<char> {
    joined(config_dir, "prompts"@)
}

/// Where prompt files live in a configuration directory.
pub fn prompts_in(config_dir: &str) -> (out: String)
    ensures
        out@ == prompts_path(config_dir@),
{
    join_path(config_dir, "prompts")
}

/// Where prompt files live: they are the user's own writing, so beside the configuration.
pub fn prompts_dir() -> (out: String)
    ensures
        exists|base: Option<Seq<char>>| out@ == prompts_path(#[trigger] app_dir(base)),
{
    let dir = config_dir();
    prompts_in(&dir)
}

/// The file the app opens when nothing else is asked for.
pub open spec fn default_prompt(prompts: Seq<char>) -> Seq<char> {
    joined(prompts, "prompt.md"@)
}

/// The file the app opens when nothing else is asked for, in the directory of the prompts.
pub fn default_prompt_in(prompts: &str) -> (out: String)
    ensures
        out@ == default_prompt(prompts@),
{
    join_path(prompts, "prompt.md")
}

/// The file the app opens when nothing else is asked for.
pub fn default_prompt_path() -> (out: String)
    ensures
        exists|base: Option<Seq<char>>|
            out@ == default_prompt(prompts_path(#[trigger] app_dir(base))),
{
    let dir = prompts_dir();
    default_prompt_in(&dir)
}

/// Something in a directory: its name, and whether it is a file.
#[derive(Debug, Clone, PartialEq, Eq)]
pub struct Entry {
    pub name: String,
    pub is_file: bool,
}

pub open spec fn entry_views(entries: Seq<Entry>) -> Seq<(Seq<char>, bool)> {
    Seq::new(entries.len(), |i: int| (entries[i].name@, entries[i].is_file))
}

/// What a template's name ends with.
pub const TEMPLATE_END: &'static str = ".md";

/// The template something in the directory is: a file whose name ends in `.md`, without that end.
pub open spec fn template_of(name: Seq<char>, is_file: bool) -> Option<Seq<char>> {
    let n = name.len() - TEMPLATE_END@.len();
    if is_file && n > 0 && name.skip(n) == TEMPLATE_END@ {
        Some(name.take(n))
    } else {
        None
    }
}

/// The templates in a directory, in its order.
pub open spec fn templates_of(entries: Seq<(Seq<char>, bool)>) -> Seq<Seq<char>>
    decreases entries.len(),
{
    if entries.len() == 0 {
        Seq::empty()
    } else {
        let before = templates_of(entries.drop_last());
        match template_of(entries.last().0, entries.last().1) {
            Some(name) => before.push(name),
            None => before,
        }
    }
}

/// The first place, from `from` on, where a text stands that comes after this one.
pub open spec fn place(names: Seq<Seq<char>>, name: Seq<char>, from: int) -> int
    decreases names.len() - from,
{
    if from < 0 || from >= names.len() || after_from(names[from], name, 0) {
        from
    } else {
        place(names, name, from + 1)
    }
}

/// Names in the order of their texts.
pub open spec fn by_name(names: Seq<Seq<char>>) -> Seq<Seq<char>>
    decreases names.len(),
{
    if names.len() == 0 {
        Seq::empty()
    } else {
        let before = by_name(names.drop_last());
        before.insert(place(before, names.last(), 0), names.last())
    }
}

/// The template something in the directory is.
fn template_name(entry: &Entry) -> (out: Option<String>)
    ensures
        opt_view(out) == template_of(entry.name@, entry.is_file),
{
    let chars = chars_of(&entry.name);
    let end = chars_of(TEMPLATE_END);
    if !entry.is_file || chars.len() <= end.len() {
        return None;
    }
    let n: usize = chars.len() - end.len();
    assert(chars@.subrange(n as int, chars@.len() as int) =~= entry.name@.skip(n as int));
    assert(chars@.subrange(0, n as int) =~= entry.name@.take(n as int));
    let back = string_of(vstd::slice::slice_subrange(&chars, n, chars.len()));
    if same(&back, TEMPLATE_END) {
        Some(string_of(vstd::slice::slice_subrange(&chars, 0, n)))
    } else {
        None
    }
}

/// The templates among what is in a directory, by name: `<name>.md` is the template `name`.
///
/// What is offered in a menu has to be something that can be read, so a directory that happens to
/// be called `x.md` is not one.
pub fn templates_in(entries: &[Entry]) -> (out: Vec<String>)
    ensures
        views(out@) == by_name(templates_of(entry_views(entries@))),
{
    let ghost all = entry_views(entries@);
    let mut out: Vec<String> = Vec::new();
    let mut i: usize = 0;
    assert(all.take(0) =~= Seq::<(Seq<char>, bool)>::empty());
    assert(views(out@) =~= Seq::<Seq<char>>::empty());
    while i < entries.len()
        invariant
            all == entry_views(entries@),
            i <= entries@.len(),
            views(out@) == by_name(templates_of(all.take(i as int))),
        decreases entries@.len() - i,
    {
        assert(all.take(i + 1).drop_last() =~= all.take(i as int));
        assert(all.take(i + 1).last() == (entries@[i as int].name@, entries@[i as int].is_file));
        match template_name(&entries[i]) {
            Some(name) => {
                let ghost before = views(out@);
                let mut k: usize = 0;
                while k < out.len() && !comes_after(&out[k], &name)
                    invariant
                        before == views(out@),
                        k <= out@.len(),
                        place(before, name@, 0) == place(before, name@, k as int),
                    decreases out@.len() - k,
                {
                    assert(before[k as int] == out@[k as int]@);
                    k += 1;
                }
                proof {
                    let names = templates_of(all.take(i + 1));
                    assert(names.drop_last() =~= templates_of(all.take(i as int)));
                    if k < out@.len() {
                        assert(before[k as int] == out@[k as int]@);
                    }
                }
                out.insert(k, name);
                assert(views(out@) =~= before.insert(k as int, name@));
            },
            None => {},
        }
        i += 1;
    }
    assert(all.take(all.len() as int) =~= all);
    out
}

// ---------------------------------------------------------------------------------------------
// Laws

proof fn lemma_trim_end_once(s: Seq<char>)
    ensures
        trim_end(trim_end(s)) == trim_end(s),
    decreases s.len(),
{
    if s.len() > 0 && white_last(s) {
        lemma_trim_end_once(s.drop_last());
    }
}

spec fn white_last(s: Seq<char>) -> bool {
    s.len() > 0 && crate::text::white(s.last())
}

/// Prose is a prompt: a file whose first row is no fence is sent as it is, but for the white space
/// around it.
pub proof fn law_prose_is_sent_as_it_is(text: Seq<char>, base: Seq<char>)
    requires
        lines(text).len() == 0 || !is_fence(lines(text)[0]),
    ensures
        prompt_of(text) is Ok,
        (prompt_of(text)->Ok_0).assembled(base) == trim(text),
{
    let prompt = prompt_of(text)->Ok_0;
    assert(prompt.labels(base) =~= Seq::<char>::empty());
    lemma_trim_end_once(trim_start(text));
    if trim(text).len() == 0 {
        assert(trim(text) =~= Seq::<char>::empty());
    }
}

/// The body is what stands below the header: a text made of a header of whole rows, the last of them
/// the first fence behind its opening one, and of anything below them, has the rest for its body,
/// character by character, but for the white space around it.
pub proof fn law_the_body_is_verbatim(header: Seq<char>, rest: Seq<char>)
    requires
        header.len() > 0,
        header.last() == '\n',
        lines(header).len() >= 2,
        is_fence(lines(header)[0]),
        fence_at(lines(header), 1) == Some(lines(header).len() - 1),
    ensures
        prompt_of(header + rest) is Ok,
        (prompt_of(header + rest)->Ok_0).body == trim(rest),
{
    lemma_rows_above(header, rest);
    let rows = lines(header + rest);
    assert(rows[0] == lines(header)[0]);
    lemma_fence_kept(lines(header), rows, 1);
}

/// Whole rows stay what they are in front of more text, and the text is what stands below them.
proof fn lemma_rows_above(header: Seq<char>, rest: Seq<char>)
    requires
        header.len() > 0 ==> header.last() == '\n',
    ensures
        lines(header + rest) == lines(header) + lines(rest),
        below(header + rest, lines(header).len() as int) == rest,
    decreases header.len(),
{
    if header.len() == 0 {
        assert(header + rest =~= rest);
        assert(lines(header) + lines(rest) =~= lines(rest));
    } else {
        lemma_upto(header, '\n');
        let k = upto(header, '\n');
        assert(header[header.len() - 1] == '\n');
        assert(k < header.len());
        let row = header.take(k);
        let more = header.skip(k + 1);
        assert(row.push('\n') + more =~= header);
        assert(row.push('\n') + (more + rest) =~= header + rest);
        lemma_lines_first(row, more);
        lemma_lines_first(row, more + rest);
        if more.len() > 0 {
            assert(more.last() == header.last());
        }
        lemma_rows_above(more, rest);
        assert(lines(header + rest) =~= lines(header) + lines(rest));
        lemma_upto_is(header + rest, '\n', k);
        assert((header + rest).skip(k + 1) =~= more + rest);
    }
}

proof fn lemma_fence_kept(above: Seq<Seq<char>>, rows: Seq<Seq<char>>, from: int)
    requires
        0 <= from,
        above.len() <= rows.len(),
        forall|i: int| 0 <= i < above.len() ==> #[trigger] above[i] == rows[i],
        fence_at(above, from) is Some,
    ensures
        fence_at(rows, from) == fence_at(above, from),
    decreases above.len() - from,
{
    assert(above[from] == rows[from]);
    if !is_fence(above[from]) {
        lemma_fence_kept(above, rows, from + 1);
    }
}

/// A prompt with nothing in it sends nothing.
pub proof fn law_an_empty_prompt_sends_nothing(prompt: PromptView, base: Seq<char>)
    requires
        prompt.hollow(),
    ensures
        prompt.assembled(base).len() == 0,
{
    assert(prompt.labels(base) =~= Seq::<char>::empty());
    lemma_blank_end(prompt.body);
}

proof fn lemma_blank_end(s: Seq<char>)
    requires
        blank(s),
    ensures
        trim_end(s).len() == 0,
    decreases s.len(),
{
    if s.len() > 0 {
        assert(crate::text::white(s[s.len() - 1]));
        assert forall|i: int| 0 <= i < s.drop_last().len() implies crate::text::white(
            #[trigger] s.drop_last()[i],
        ) by {
            assert(s.drop_last()[i] == s[i]);
        }
        lemma_blank_end(s.drop_last());
    }
}

proof fn lemma_place(names: Seq<Seq<char>>, name: Seq<char>, from: int)
    requires
        0 <= from <= names.len(),
    ensures
        from <= place(names, name, from) <= names.len(),
        forall|i: int|
            from <= i < place(names, name, from) ==> !after_from(#[trigger] names[i], name, 0),
        place(names, name, from) < names.len() ==> after_from(
            names[place(names, name, from)],
            name,
            0,
        ),
    decreases names.len() - from,
{
    if from < names.len() && !after_from(names[from], name, 0) {
        lemma_place(names, name, from + 1);
    }
}

/// Templates are listed by name: nothing stands in front of something that comes before it, and no
/// template is lost or made up.
pub proof fn law_templates_are_sorted(names: Seq<Seq<char>>)
    ensures
        ({
            let sorted = by_name(names);
            forall|i: int, j: int|
                0 <= i < j < sorted.len() ==> !after_from(
                    #[trigger] sorted[i],
                    #[trigger] sorted[j],
                    0,
                )
        }),
        by_name(names).to_multiset() == names.to_multiset(),
    decreases names.len(),
{
    broadcast use vstd::seq_lib::group_to_multiset_ensures;

    if names.len() > 0 {
        let before = by_name(names.drop_last());
        let name = names.last();
        law_templates_are_sorted(names.drop_last());
        lemma_place(before, name, 0);
        let k = place(before, name, 0);
        let sorted = before.insert(k, name);
        vstd::seq_lib::to_multiset_insert(before, k, name);
        assert(names.drop_last().push(name) =~= names);
        assert forall|i: int, j: int| 0 <= i < j < sorted.len() implies !after_from(
            #[trigger] sorted[i],
            #[trigger] sorted[j],
            0,
        ) by {
            if j < k {
                assert(sorted[i] == before[i] && sorted[j] == before[j]);
            } else if j == k {
                assert(sorted[i] == before[i]);
            } else {
                assert(sorted[j] == before[j - 1]);
                if i == k {
                    // What this one came after would come before what stands behind it.
                    if after_from(name, before[j - 1], 0) {
                        lemma_after_transitive(before[k], name, before[j - 1], 0);
                        lemma_not_after_itself(before[k], 0);
                        assert(j - 1 > k);
                        assert(!after_from(before[k], before[j - 1], 0));
                    }
                } else if i < k {
                    assert(sorted[i] == before[i]);
                } else {
                    assert(sorted[i] == before[i - 1]);
                }
            }
        }
    } else {
        assert(names =~= Seq::<Seq<char>>::empty());
    }
}

/// A row of three dashes is a fence, whatever white space follows them, and no other row is.
pub proof fn law_a_fence_is_three_dashes(row: Seq<char>, padding: Seq<char>)
    requires
        blank(padding),
    ensures
        is_fence("---"@ + padding),
        is_fence(row) ==> "---"@.is_prefix_of(row) && blank(row.skip(3)),
{
    reveal_strlit("---");
    let fence = "---"@ + padding;
    let none = Seq::<char>::empty();
    crate::text::law_trimming_undoes_padding(none, "---"@, padding);
    assert(none + "---"@ + padding =~= fence);
    assert(trim_start(fence) == fence);
    if is_fence(row) {
        lemma_end_cut(row);
        assert(row.take(3) == "---"@);
        assert("---"@.is_prefix_of(row)) by {
            assert(row.subrange(0, 3) =~= row.take(3));
        }
    }
}

proof fn lemma_end_cut(s: Seq<char>)
    ensures
        trim_end(s).len() <= s.len(),
        trim_end(s) == s.take(trim_end(s).len() as int),
        blank(s.skip(trim_end(s).len() as int)),
    decreases s.len(),
{
    if white_last(s) {
        let rest = s.drop_last();
        lemma_end_cut(rest);
        let k = trim_end(s).len() as int;
        assert(s.take(k) =~= rest.take(k));
        assert forall|i: int| 0 <= i < s.len() - k implies crate::text::white(
            #[trigger] s.skip(k)[i],
        ) by {
            if i < rest.len() - k {
                assert(s.skip(k)[i] == rest.skip(k)[i]);
            }
        }
    } else {
        assert(s.take(s.len() as int) =~= s);
    }
}

/// A row that begins with a key, behind any white space, says what stands behind the key, without the
/// white space around it; a row that begins otherwise says nothing of the key.
pub proof fn law_a_row_says_what_stands_behind_its_key(
    pad: Seq<char>,
    key: Seq<char>,
    gap: Seq<char>,
    value: Seq<char>,
    end: Seq<char>,
    row: Seq<char>,
)
    requires
        blank(pad),
        blank(gap),
        blank(end),
        key.len() > 0,
        !crate::text::white(key[0]),
        value.len() > 0,
        !crate::text::white(value[0]),
        !crate::text::white(value.last()),
    ensures
        value_in(pad + key + gap + value + end, key) == Some(value),
        !key.is_prefix_of(trim(row)) ==> value_in(row, key) is None,
{
    let inner = key + gap + value;
    crate::text::law_trimming_undoes_padding(pad, inner, end);
    assert(pad + inner + end =~= pad + key + gap + value + end);
    assert(inner.take(key.len() as int) =~= key);
    let none = Seq::<char>::empty();
    crate::text::law_trimming_undoes_padding(gap, value, none);
    assert(inner.skip(key.len() as int) =~= gap + value + none);
    if begins(trim(row), key) {
        assert(key.is_prefix_of(trim(row))) by {
            assert(trim(row).subrange(0, key.len() as int) =~= trim(row).take(key.len() as int));
        }
    }
}

/// The last row that speaks of a key counts, an empty value is no value, and with no such row there is
/// none.
pub proof fn law_the_last_row_counts(rows: Seq<Seq<char>>, row: Seq<char>, key: Seq<char>)
    ensures
        setting(Seq::empty(), key, 0) is None,
        setting(rows.push(row), key, rows.len() as int + 1) == (match value_in(row, key) {
            Some(value) => if value.len() > 0 {
                Some(value)
            } else {
                None
            },
            None => setting(rows, key, rows.len() as int),
        }),
{
    let n = rows.len() as int;
    lemma_setting_prefix(rows, rows.push(row), key, n);
    assert(rows.push(row)[n] == row);
}

/// A header that is opened has to be closed: a file whose first row is a fence and none of whose other
/// rows is one is refused, and no other file is.
pub proof fn law_an_open_header_is_refused(text: Seq<char>)
    ensures
        prompt_of(text) is Err <==> lines(text).len() > 0 && is_fence(lines(text)[0]) && forall|
            i: int,
        |
            1 <= i < lines(text).len() ==> !is_fence(#[trigger] lines(text)[i]),
{
    lemma_fence_at(lines(text), 1);
}

proof fn lemma_fence_at(rows: Seq<Seq<char>>, from: int)
    requires
        0 <= from,
    ensures
        match fence_at(rows, from) {
            Some(k) => from <= k < rows.len() && is_fence(rows[k]) && forall|i: int|
                from <= i < k ==> !is_fence(#[trigger] rows[i]),
            None => forall|i: int| from <= i < rows.len() ==> !is_fence(#[trigger] rows[i]),
        },
    decreases rows.len() - from,
{
    if from < rows.len() && !is_fence(rows[from]) {
        lemma_fence_at(rows, from + 1);
    }
}

/// What a header says is what the rows between its two fences say, and nothing below them is read as
/// a key.
pub proof fn law_a_header_is_read_between_its_fences(
    text: Seq<char>,
    rows: Seq<Seq<char>>,
    behind: Seq<Seq<char>>,
    open: Seq<char>,
    close: Seq<char>,
)
    requires
        lines(text) == seq![open] + rows + seq![close] + behind,
        is_fence(open),
        is_fence(close),
        forall|i: int| 0 <= i < rows.len() ==> !is_fence(#[trigger] rows[i]),
    ensures
        prompt_of(text) matches Ok(prompt) && prompt.path == setting(
            rows,
            "path:"@,
            rows.len() as int,
        ) && prompt.instruction == setting(rows, "instruction:"@, rows.len() as int),
{
    let all = lines(text);
    let end = rows.len() + 1;
    assert(all[0] == open);
    assert(all[end as int] == close);
    lemma_fence_at(all, 1);
    let k = fence_at(all, 1)->0;
    if k < end {
        assert(all[k] == rows[k - 1]);
    }
    assert(k == end);
    assert(all.subrange(1, end as int) =~= rows);
}

/// The model is sent the file and the task under their labels, each on a row of its own, then a blank
/// row and the body; what there is not is left out.
pub proof fn law_what_is_sent_is_labelled(
    path: Seq<char>,
    instruction: Seq<char>,
    body: Seq<char>,
    base: Seq<char>,
)
    requires
        body.len() > 0,
        !crate::text::white(body.last()),
    ensures
        (PromptView { path: Some(path), instruction: Some(instruction), body }).assembled(base)
            == "File: "@ + joined(base, path) + seq!['\n'] + "Task: "@ + instruction + seq!['\n']
            + seq!['\n'] + body,
        (PromptView { path: Some(path), instruction: None, body }).assembled(base) == "File: "@
            + joined(base, path) + seq!['\n'] + seq!['\n'] + body,
        (PromptView { path: None, instruction: Some(instruction), body }).assembled(base)
            == "Task: "@ + instruction + seq!['\n'] + seq!['\n'] + body,
        (PromptView { path: None, instruction: None, body }).assembled(base) == body,
{
    reveal_strlit("File: ");
    reveal_strlit("Task: ");
    let both = PromptView { path: Some(path), instruction: Some(instruction), body };
    let file = PromptView { path: Some(path), instruction: None, body };
    let task = PromptView { path: None, instruction: Some(instruction), body };
    let bare = PromptView { path: None, instruction: None, body };
    assert(both.labels(base) + seq!['\n'] + body =~= "File: "@ + joined(base, path) + seq!['\n']
        + "Task: "@ + instruction + seq!['\n'] + seq!['\n'] + body);
    assert(file.labels(base) =~= "File: "@ + joined(base, path) + seq!['\n']);
    assert(task.labels(base) =~= "Task: "@ + instruction + seq!['\n']);
    assert(bare.labels(base) =~= Seq::<char>::empty());
}

/// A prompt without a body is its labels, without the line feed behind the last.
pub proof fn law_a_task_alone_is_sent(instruction: Seq<char>, base: Seq<char>)
    requires
        instruction.len() > 0,
        !crate::text::white(instruction.last()),
    ensures
        (PromptView {
            path: None,
            instruction: Some(instruction),
            body: Seq::empty(),
        }).assembled(base) == "Task: "@ + instruction,
{
    reveal_strlit("Task: ");
    let task = PromptView { path: None, instruction: Some(instruction), body: Seq::empty() };
    let whole = "Task: "@ + instruction;
    assert(task.labels(base) =~= whole.push('\n'));
    assert(whole.push('\n').drop_last() =~= whole);
    reveal_with_fuel(trim_end, 2);
}

/// There is nothing to send exactly when no file, no task and nothing but white space is there.
pub proof fn law_a_prompt_is_empty_when_nothing_was_written(prompt: PromptView)
    ensures
        prompt.hollow() <==> prompt.path is None && prompt.instruction is None && forall|i: int|
            0 <= i < prompt.body.len() ==> crate::text::white(#[trigger] prompt.body[i]),
{
}

/// A template is a file whose name ends in `.md`, under the name in front of that; every one in a
/// directory is found, in its order, and nothing else is.
pub proof fn law_a_template_is_a_file_of_its_kind(
    name: Seq<char>,
    other: Seq<char>,
    is_file: bool,
    a: Seq<(Seq<char>, bool)>,
    b: Seq<(Seq<char>, bool)>,
)
    ensures
        name.len() > 0 ==> template_of(name + ".md"@, true) == Some(name),
        template_of(name, false) is None,
        template_of(other, is_file) matches Some(stem) ==> is_file && stem.len() > 0 && other
            == stem + ".md"@,
        templates_of(a + b) == templates_of(a) + templates_of(b),
        templates_of(seq![(other, is_file)]) == (match template_of(other, is_file) {
            Some(stem) => seq![stem],
            None => Seq::empty(),
        }),
    decreases b.len(),
{
    let whole = name + ".md"@;
    assert(whole.skip(name.len() as int) =~= ".md"@);
    assert(whole.take(name.len() as int) =~= name);
    if let Some(stem) = template_of(other, is_file) {
        assert(other =~= stem + ".md"@);
    }
    if b.len() == 0 {
        assert(a + b =~= a);
        assert(templates_of(a) + templates_of(b) =~= templates_of(a));
    } else {
        law_a_template_is_a_file_of_its_kind(name, other, is_file, a, b.drop_last());
        assert((a + b).drop_last() =~= a + b.drop_last());
        assert((a + b).last() == b.last());
        assert(templates_of(a + b) =~= templates_of(a) + templates_of(b));
    }
    let one = seq![(other, is_file)];
    assert(one.drop_last() =~= Seq::<(Seq<char>, bool)>::empty());
    assert(one.last() == (other, is_file));
    reveal_with_fuel(templates_of, 2);
    assert(templates_of(one) =~= (match template_of(other, is_file) {
        Some(stem) => seq![stem],
        None => Seq::empty(),
    }));
}

/// The prompts stand at fixed places beside the configuration.
pub proof fn law_prompts_stand_beside_the_configuration(dir: Seq<char>)
    requires
        dir.len() > 0,
        dir.last() != '/',
    ensures
        prompts_path(dir) == dir + seq!['/'] + "prompts"@,
        default_prompt(dir) == dir + seq!['/'] + "prompt.md"@,
{
    reveal_strlit("prompts");
    reveal_strlit("prompt.md");
    crate::paths::law_a_path_below_another(dir, "prompts"@);
    crate::paths::law_a_path_below_another(dir, "prompt.md"@);
}

} // verus!
