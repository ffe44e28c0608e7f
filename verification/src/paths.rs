//! Where the app keeps its files.
//!
//! Everything is under one directory per kind, named after the app, resolved through `dirs` so
//! the XDG variables (and the platform equivalents) are honoured. The fallback is the working
//! directory rather than `~`: the point of the fallback is to keep a machine with no home directory
//! writable, and `.` always is.
//!
//! A path is its text, with `/` between the names.

use vstd::prelude::*;

use crate::text::{
    begins, chars_of, copy, join, join_of, lemma_split_join, lemma_split_last, lemma_split_pieces,
    lemma_upto_is, lemma_views_push, opt_view, same, split, split_of, string_of, views,
};

verus! {

/// The name of every directory this app has.
pub const APP: &'static str = "jmds";

/// Whether a path starts at the root.
pub open spec fn absolute(path: Seq<char>) -> bool {
    path.len() > 0 && path[0] == '/'
}

/// A path below another. An absolute one stands on its own.
pub open spec fn joined(base: Seq<char>, name: Seq<char>) -> Seq<char> {
    if absolute(name) {
        name
    } else if base.len() == 0 || base.last() == '/' {
        base + name
    } else {
        base.push('/') + name
    }
}

/// Whether a path starts at the root.
pub fn is_absolute(path: &str) -> (out: bool)
    ensures
        out == absolute(path@),
{
    let chars = chars_of(path);
    chars.len() > 0 && chars[0] == '/'
}

/// A path below another. An absolute one stands on its own.
pub fn join_path(base: &str, name: &str) -> (out: String)
    ensures
        out@ == joined(base@, name@),
{
    if is_absolute(name) {
        return copy(name);
    }
    let chars = chars_of(base);
    let mut out = copy(base);
    if chars.len() > 0 && chars[chars.len() - 1] != '/' {
        out.push('/');
    }
    out.append(name);
    out
}

/// The app's directory in a base directory; in the working directory when there is no base.
pub open spec fn app_dir(base: Option<Seq<char>>) -> Seq<char> {
    joined(
        match base {
            Some(base) => base,
            None => "."@,
        },
        APP@,
    )
}

/// The app's directory in a base directory.
pub fn app_dir_in(base: Option<String>) -> (out: String)
    ensures
        out@ == app_dir(opt_view(base)),
{
    match base {
        Some(base) => join_path(&base, APP),
        None => join_path(".", APP),
    }
}

/// Trusted: `dirs::config_dir`, the user's configuration directory. It depends on the environment,
/// so nothing is said of which directory it is.
#[verifier::external_body]
fn user_config_dir() -> (out: Option<String>)
{
    dirs::config_dir().map(|path| path.to_string_lossy().into_owned())
}

/// Trusted: `dirs::cache_dir`, the user's cache directory. It depends on the environment, so
/// nothing is said of which directory it is.
#[verifier::external_body]
fn user_cache_dir() -> (out: Option<String>)
{
    dirs::cache_dir().map(|path| path.to_string_lossy().into_owned())
}

/// Trusted: `dirs::home_dir`, the user's home directory. It depends on the environment, so nothing
/// is said of which directory it is.
#[verifier::external_body]
fn user_home_dir() -> (out: Option<String>)
{
    dirs::home_dir().map(|path| path.to_string_lossy().into_owned())
}

/// `~/.config/jmds`: the configuration file and the log directory in a release build.
pub fn config_dir() -> (out: String)
    ensures
        exists|base: Option<Seq<char>>| out@ == #[trigger] app_dir(base),
{
    app_dir_in(user_config_dir())
}

/// `~/.cache/jmds`: sessions, caches, anything reproducible.
pub fn cache_dir() -> (out: String)
    ensures
        exists|base: Option<Seq<char>>| out@ == #[trigger] app_dir(base),
{
    app_dir_in(user_cache_dir())
}

/// Where long outputs are kept, below the cache directory.
pub open spec fn artifacts_path(dir: Seq<char>) -> Seq<char> {
    joined(dir, "artifacts"@)
}

/// Where long outputs are kept, below a cache directory.
pub fn artifacts_in(dir: &str) -> (out: String)
    ensures
        out@ == artifacts_path(dir@),
{
    join_path(dir, "artifacts")
}

/// Where long outputs are kept: a command's whole output, once it outgrew memory.
pub fn artifacts_dir() -> (out: String)
    ensures
        exists|base: Option<Seq<char>>| out@ == artifacts_path(#[trigger] app_dir(base)),
{
    let dir = cache_dir();
    artifacts_in(&dir)
}

/// The configuration file in a configuration directory.
pub open spec fn config_file_path(dir: Seq<char>) -> Seq<char> {
    joined(dir, "config.toml"@)
}

/// The configuration file in a configuration directory.
pub fn config_file_in(dir: &str) -> (out: String)
    ensures
        out@ == config_file_path(dir@),
{
    join_path(dir, "config.toml")
}

/// The configuration file this build reads and writes.
pub fn config_file() -> (out: String)
    ensures
        exists|base: Option<Seq<char>>| out@ == config_file_path(#[trigger] app_dir(base)),
{
    let dir = config_dir();
    config_file_in(&dir)
}

/// A path with a leading `~` put in full. Only the user's own home is meant: `~name` is a name like
/// any other, and so is `~` on a machine that has no home.
pub open spec fn tilde_expanded(path: Seq<char>, home: Option<Seq<char>>) -> Seq<char> {
    match home {
        Some(home) => if path == "~"@ {
            home
        } else if begins(path, "~/"@) {
            joined(home, path.skip(2))
        } else {
            path
        },
        None => path,
    }
}

/// A path with a leading `~` put in full, given where home is.
pub fn expand_tilde_with(path: &str, home: Option<String>) -> (out: String)
    ensures
        out@ == tilde_expanded(path@, opt_view(home)),
{
    proof {
        reveal_strlit("~");
        reveal_strlit("~/");
    }
    match home {
        Some(home) => {
            let chars = chars_of(path);
            if chars.len() == 1 && chars[0] == '~' {
                assert(path@ =~= "~"@);
                return home;
            }
            if chars.len() >= 2 && chars[0] == '~' && chars[1] == '/' {
                assert(path@.take(2) =~= "~/"@);
                let rest = vstd::slice::slice_subrange(&chars, 2, chars.len());
                assert(rest@ =~= path@.skip(2));
                return join_path(&home, &string_of(rest));
            }
            assert(path@ != "~"@);
            assert(!begins(path@, "~/"@)) by {
                if begins(path@, "~/"@) {
                    assert(path@.take(2)[0] == '~' && path@.take(2)[1] == '/');
                }
            }
            copy(path)
        },
        None => copy(path),
    }
}

/// A path with a leading `~` put in full: the model does not have a shell to do it.
pub fn expand_tilde(path: &str) -> (out: String)
    ensures
        exists|home: Option<Seq<char>>| out@ == #[trigger] tilde_expanded(path@, home),
{
    let home = user_home_dir();
    let ghost at = opt_view(home);
    let out = expand_tilde_with(path, home);
    assert(out@ == tilde_expanded(path@, at));
    out
}

// ---------------------------------------------------------------------------------------------
// The names of a path

/// What a path is made of: whether it starts at the root, whether it starts with a dot, and the
/// names between the separators. Empty names and later dots are none.
#[verifier::ext_equal]
pub struct PathView {
    pub rooted: bool,
    pub dotted: bool,
    pub names: Seq<Seq<char>>,
}

/// Whether a piece between two separators is a name.
pub open spec fn is_name(piece: Seq<char>) -> bool {
    piece.len() > 0 && piece != "."@
}

/// The pieces that are names.
pub open spec fn names_of(pieces: Seq<Seq<char>>) -> Seq<Seq<char>>
    decreases pieces.len(),
{
    if pieces.len() == 0 {
        pieces
    } else if is_name(pieces.last()) {
        names_of(pieces.drop_last()).push(pieces.last())
    } else {
        names_of(pieces.drop_last())
    }
}

/// What a path is made of. Two spellings of a path with the same parts are one path.
pub open spec fn path_view(path: Seq<char>) -> PathView {
    PathView {
        rooted: absolute(path),
        dotted: !absolute(path) && split(path, '/')[0] == "."@,
        names: names_of(split(path, '/')),
    }
}

impl PathView {
    /// Whether there is nothing to it.
    pub open spec fn bare(self) -> bool {
        !self.rooted && !self.dotted && self.names.len() == 0
    }

    /// Whether a path lies in a directory, or is that directory. Everything lies in the empty path.
    pub open spec fn within(self, root: PathView) -> bool {
        root.bare() || (self.rooted == root.rooted && self.dotted == root.dotted
            && root.names.len() <= self.names.len() && self.names.take(root.names.len() as int)
            == root.names)
    }
}

/// The first piece, from `from` on, that is a name and has `n` names in front of it; the end of the
/// pieces when there is none.
pub open spec fn name_place(pieces: Seq<Seq<char>>, n: int, from: int) -> int
    decreases pieces.len() - from,
{
    if from >= pieces.len() {
        pieces.len() as int
    } else if !is_name(pieces[from]) {
        name_place(pieces, n, from + 1)
    } else if n <= 0 {
        from
    } else {
        name_place(pieces, n - 1, from + 1)
    }
}

/// How many pieces there are up to the last name.
pub open spec fn names_end(pieces: Seq<Seq<char>>) -> int
    decreases pieces.len(),
{
    if pieces.len() == 0 {
        0
    } else if is_name(pieces.last()) {
        pieces.len() as int
    } else {
        names_end(pieces.drop_last())
    }
}

/// How many pieces say where a path starts: two around the separator of one that starts at the root,
/// and a leading dot.
pub open spec fn head_pieces(path: PathView) -> int {
    if path.rooted {
        2
    } else if path.dotted {
        1
    } else {
        0
    }
}

/// What is left of a path below a directory it lies in, as it is written: from the first name below
/// the directory to the last name, whatever stands between them. Below the empty path it is all of
/// the path, up to its last name.
pub open spec fn rest_below(path: Seq<char>, root: PathView) -> Seq<char> {
    let pieces = split(path, '/');
    let end = names_end(pieces);
    if root.bare() {
        let least = head_pieces(path_view(path));
        join(
            pieces.take(
                if end >= least {
                    end
                } else {
                    least
                },
            ),
            seq!['/'],
        )
    } else {
        let from = name_place(pieces, root.names.len() as int, 0);
        if from < end {
            join(pieces.subrange(from, end), seq!['/'])
        } else {
            Seq::empty()
        }
    }
}

/// What a path is made of.
#[derive(Debug, Clone, PartialEq, Eq)]
pub struct PathParts {
    pub rooted: bool,
    pub dotted: bool,
    pub names: Vec<String>,
}

impl View for PathParts {
    type V = PathView;

    open spec fn view(&self) -> PathView {
        PathView { rooted: self.rooted, dotted: self.dotted, names: views(self.names@) }
    }
}

/// What a path is made of.
pub fn path_parts(path: &str) -> (out: PathParts)
    ensures
        out@ == path_view(path@),
{
    let pieces = split_of(path, '/');
    let ghost all = split(path@, '/');
    proof {
        lemma_split_pieces(path@, '/');
        reveal_strlit(".");
    }
    let rooted = is_absolute(path);
    assert(views(pieces@)[0] == pieces@[0]@);
    let dotted: bool = !rooted && same(&pieces[0], ".");
    let mut names: Vec<String> = Vec::new();
    let mut i: usize = 0;
    assert(all.take(0) =~= Seq::<Seq<char>>::empty());
    assert(views(names@) =~= Seq::<Seq<char>>::empty());
    while i < pieces.len()
        invariant
            i <= pieces@.len(),
            all == views(pieces@),
            views(names@) == names_of(all.take(i as int)),
        decreases pieces@.len() - i,
    {
        assert(all[i as int] == pieces@[i as int]@);
        assert(all.take(i + 1).drop_last() =~= all.take(i as int));
        if names_something(&pieces[i]) {
            let name = copy(&pieces[i]);
            proof {
                lemma_views_push(names@, name);
            }
            names.push(name);
        }
        i += 1;
    }
    assert(all.take(all.len() as int) =~= all);
    PathParts { rooted, dotted, names }
}

/// Whether the first `n` names of two paths agree.
fn names_agree(a: &Vec<String>, b: &Vec<String>, n: usize) -> (out: bool)
    requires
        n <= a@.len(),
        n <= b@.len(),
    ensures
        out == (views(a@).take(n as int) == views(b@).take(n as int)),
{
    let ghost x = views(a@);
    let ghost y = views(b@);
    let mut i: usize = 0;
    while i < n
        invariant
            i <= n,
            n <= a@.len(),
            n <= b@.len(),
            x == views(a@),
            y == views(b@),
            forall|k: int| 0 <= k < i ==> x[k] == y[k],
        decreases n - i,
    {
        if !same(&a[i], &b[i]) {
            assert(x.take(n as int)[i as int] != y.take(n as int)[i as int]);
            return false;
        }
        i += 1;
    }
    assert(x.take(n as int) =~= y.take(n as int));
    true
}

impl PathParts {
    pub fn is_bare(&self) -> (out: bool)
        ensures
            out == self@.bare(),
    {
        !self.rooted && !self.dotted && self.names.len() == 0
    }

    /// Whether the path lies in a directory, or is that directory.
    pub fn is_within(&self, root: &PathParts) -> (out: bool)
        ensures
            out == self@.within(root@),
    {
        if root.is_bare() {
            return true;
        }
        if self.rooted != root.rooted || self.dotted != root.dotted || root.names.len()
            > self.names.len() {
            return false;
        }
        assert(root@.names.take(root.names@.len() as int) =~= root@.names);
        names_agree(&self.names, &root.names, root.names.len())
    }
}

proof fn lemma_names_end(pieces: Seq<Seq<char>>)
    ensures
        0 <= names_end(pieces) <= pieces.len(),
        names_end(pieces) > 0 ==> is_name(pieces[names_end(pieces) - 1]),
        forall|i: int| names_end(pieces) <= i < pieces.len() ==> !is_name(#[trigger] pieces[i]),
    decreases pieces.len(),
{
    if pieces.len() > 0 && !is_name(pieces.last()) {
        let front = pieces.drop_last();
        lemma_names_end(front);
        if names_end(front) > 0 {
            assert(front[names_end(front) - 1] == pieces[names_end(front) - 1]);
        }
        assert forall|i: int| names_end(pieces) <= i < pieces.len() implies !is_name(
            #[trigger] pieces[i],
        ) by {
            if i < front.len() {
                assert(front[i] == pieces[i]);
            }
        }
    }
}

proof fn lemma_name_place(pieces: Seq<Seq<char>>, n: int, from: int)
    requires
        0 <= from <= pieces.len(),
    ensures
        from <= name_place(pieces, n, from) <= pieces.len(),
    decreases pieces.len() - from,
{
    if from < pieces.len() {
        if !is_name(pieces[from]) {
            lemma_name_place(pieces, n, from + 1);
        } else if n > 0 {
            lemma_name_place(pieces, n - 1, from + 1);
        }
    }
}

/// Whether a piece between two separators is a name.
fn names_something(piece: &str) -> (out: bool)
    ensures
        out == is_name(piece@),
{
    !piece.is_empty() && !same(piece, ".")
}

/// What is left of a path below a directory it lies in, as it is written.
pub fn text_below(path: &str, root: &PathParts) -> (out: String)
    ensures
        out@ == rest_below(path@, root@),
{
    let pieces = split_of(path, '/');
    let ghost all = split(path@, '/');
    proof {
        lemma_split_pieces(path@, '/');
        lemma_names_end(all);
        lemma_name_place(all, root@.names.len() as int, 0);
        reveal_strlit("/");
        assert("/"@ =~= seq!['/']);
    }
    let mut end: usize = pieces.len();
    assert(all.take(all.len() as int) =~= all);
    while end > 0 && !names_something(&pieces[end - 1])
        invariant
            end <= pieces@.len(),
            all == views(pieces@),
            names_end(all) == names_end(all.take(end as int)),
        decreases end,
    {
        assert(all.take(end as int).drop_last() =~= all.take(end - 1));
        end -= 1;
    }
    if root.is_bare() {
        let rooted = is_absolute(path);
        proof {
            if rooted {
                lemma_upto_is(path@, '/', 0);
                lemma_split_pieces(path@.skip(1), '/');
                assert(all.len() >= 2);
            }
        }
        let least: usize = if rooted {
            2
        } else if same(&pieces[0], ".") {
            1
        } else {
            0
        };
        assert(all[0] == pieces@[0]@);
        let to: usize = if end >= least {
            end
        } else {
            least
        };
        let kept = vstd::slice::slice_subrange(pieces.as_slice(), 0, to);
        assert(views(kept@) =~= all.take(to as int));
        return join_of(kept, "/");
    }
    let mut from: usize = 0;
    let mut left: usize = root.names.len();
    while from < pieces.len() && (left > 0 || !names_something(&pieces[from]))
        invariant
            from <= pieces@.len(),
            all == views(pieces@),
            name_place(all, root@.names.len() as int, 0) == name_place(all, left as int, from as int),
        decreases pieces@.len() - from,
    {
        assert(all[from as int] == pieces@[from as int]@);
        if names_something(&pieces[from]) {
            left -= 1;
        }
        from += 1;
    }
    if from < end {
        let kept = vstd::slice::slice_subrange(pieces.as_slice(), from, end);
        assert(views(kept@) =~= all.subrange(from as int, end as int));
        join_of(kept, "/")
    } else {
        let none = String::new();
        assert(none@ =~= Seq::<char>::empty());
        none
    }
}

/// Whether two spellings are one path.
pub fn same_path(a: &str, b: &str) -> (out: bool)
    ensures
        out == (path_view(a@) == path_view(b@)),
{
    let x = path_parts(a);
    let y = path_parts(b);
    if x.rooted != y.rooted || x.dotted != y.dotted || x.names.len() != y.names.len() {
        assert(x@.names.len() == x.names@.len() && y@.names.len() == y.names@.len());
        return false;
    }
    assert(x@.names.take(x.names@.len() as int) =~= x@.names);
    assert(y@.names.take(x.names@.len() as int) =~= y@.names);
    names_agree(&x.names, &y.names, x.names.len())
}

// ---------------------------------------------------------------------------------------------
// Laws

/// Every directory of the app is named after it: whatever the base, the last name is the app's.
pub proof fn law_every_path_is_named_after_the_app(base: Option<Seq<char>>)
    ensures
        ({
            let dir = app_dir(base);
            let n = dir.len() - APP@.len();
            &&& n >= 0
            &&& dir.skip(n) == APP@
            &&& n == 0 || dir[n - 1] == '/'
        }),
{
    reveal_strlit("jmds");
    reveal_strlit(".");
    let start = match base {
        Some(base) => base,
        None => "."@,
    };
    let dir = app_dir(base);
    let n = dir.len() - APP@.len();
    assert(dir.skip(n) =~= APP@);
}

/// A path that does not start with `~` is left alone, and one under `~` is as absolute as home is.
pub proof fn law_expansion_leaves_other_paths_alone(path: Seq<char>, home: Seq<char>)
    ensures
        !begins(path, "~"@) ==> tilde_expanded(path, Some(home)) == path,
        absolute(home) && begins(path, "~/"@) ==> absolute(tilde_expanded(path, Some(home))),
        tilde_expanded(path, None) == path,
{
    reveal_strlit("~");
    reveal_strlit("~/");
    if path == "~"@ {
        assert(path.take(1) =~= "~"@);
    }
    if begins(path, "~/"@) {
        assert(path.take(1) =~= "~"@) by {
            assert(path.take(2)[0] == '~');
        }
        let out = tilde_expanded(path, Some(home));
        assert(path.take(2)[0] == '~' && path.take(2)[1] == '/');
        assert(path != "~"@);
    }
}

proof fn lemma_names_add(a: Seq<Seq<char>>, b: Seq<Seq<char>>)
    ensures
        names_of(a + b) == names_of(a) + names_of(b),
    decreases b.len(),
{
    if b.len() == 0 {
        assert(a + b =~= a);
        assert(names_of(a) + names_of(b) =~= names_of(a));
    } else {
        lemma_names_add(a, b.drop_last());
        assert((a + b).drop_last() =~= a + b.drop_last());
        assert(names_of(a + b) =~= names_of(a) + names_of(b));
    }
}

proof fn lemma_no_names(pieces: Seq<Seq<char>>)
    requires
        forall|i: int| 0 <= i < pieces.len() ==> !is_name(#[trigger] pieces[i]),
    ensures
        names_of(pieces).len() == 0,
    decreases pieces.len(),
{
    if pieces.len() > 0 {
        assert(!is_name(pieces[pieces.len() - 1]));
        assert forall|i: int| 0 <= i < pieces.drop_last().len() implies !is_name(
            #[trigger] pieces.drop_last()[i],
        ) by {
            assert(pieces.drop_last()[i] == pieces[i]);
        }
        lemma_no_names(pieces.drop_last());
    }
}

/// In front of the place of a name stand as many names as were asked for, as long as there are enough.
proof fn lemma_names_before(pieces: Seq<Seq<char>>, n: int, from: int)
    requires
        0 <= from <= pieces.len(),
        0 <= n,
    ensures
        ({
            let at = name_place(pieces, n, from);
            let before = names_of(pieces.subrange(from, at));
            &&& from <= at <= pieces.len()
            &&& at < pieces.len() ==> is_name(pieces[at]) && before.len() == n
            &&& at == pieces.len() ==> before.len() <= n
        }),
    decreases pieces.len() - from,
{
    let at = name_place(pieces, n, from);
    if from >= pieces.len() || (is_name(pieces[from]) && n == 0) {
        assert(pieces.subrange(from, at) =~= Seq::<Seq<char>>::empty());
    } else {
        let left = if is_name(pieces[from]) {
            n - 1
        } else {
            n
        };
        lemma_names_before(pieces, left, from + 1);
        let one = seq![pieces[from]];
        assert(pieces.subrange(from, at) =~= one + pieces.subrange(from + 1, at));
        lemma_names_add(one, pieces.subrange(from + 1, at));
        assert(one.drop_last() =~= Seq::<Seq<char>>::empty());
        reveal_with_fuel(names_of, 2);
    }
}

/// What is left of a path is below the directory: its names are those that follow the directory's,
/// and it starts neither at the root nor with a dot.
pub proof fn law_the_rest_is_below_the_directory(path: Seq<char>, root: Seq<char>)
    requires
        !path_view(root).bare(),
        path_view(path).within(path_view(root)),
    ensures
        path_view(rest_below(path, path_view(root))) == (PathView {
            rooted: false,
            dotted: false,
            names: path_view(path).names.skip(path_view(root).names.len() as int),
        }),
{
    let pieces = split(path, '/');
    let n = path_view(root).names.len() as int;
    let names = path_view(path).names;
    let from = name_place(pieces, n, 0);
    let end = names_end(pieces);
    let rest = rest_below(path, path_view(root));
    lemma_split_pieces(path, '/');
    lemma_names_end(pieces);
    lemma_names_before(pieces, n, 0);
    let behind = pieces.skip(end);
    assert forall|i: int| 0 <= i < behind.len() implies !is_name(#[trigger] behind[i]) by {
        assert(behind[i] == pieces[end + i]);
    }
    lemma_no_names(behind);
    let front = pieces.subrange(0, from);
    reveal_strlit(".");
    if from < end {
        let kept = pieces.subrange(from, end);
        assert(pieces =~= front + kept + behind);
        lemma_names_add(front + kept, behind);
        lemma_names_add(front, kept);
        assert(names =~= names_of(front) + names_of(kept));
        assert(names_of(kept) =~= names.skip(n));
        assert forall|i: int| 0 <= i < kept.len() implies !(#[trigger] kept[i]).contains('/') by {
            assert(kept[i] == pieces[from + i]);
        }
        lemma_split_join(kept, '/');
        assert(kept[0] == pieces[from]);
        assert(is_name(kept[0]));
        if absolute(rest) {
            lemma_upto_is(rest, '/', 0);
            assert(split(rest, '/')[0] =~= Seq::<char>::empty());
        }
    } else {
        assert(from == pieces.len() || !is_name(pieces[from]));
        assert(from == pieces.len());
        assert(front =~= pieces);
        assert(names.skip(n) =~= Seq::<Seq<char>>::empty());
        assert(rest =~= Seq::<char>::empty());
        lemma_split_last(rest, '/');
        assert(split(rest, '/') =~= seq![rest]);
        lemma_no_names(split(rest, '/'));
        assert(names_of(split(rest, '/')) =~= names.skip(n));
    }
}

/// A path below another is the two with one separator between them, however the first ends; what
/// starts at the root stands on its own.
pub proof fn law_a_path_below_another(base: Seq<char>, name: Seq<char>)
    ensures
        name.len() > 0 && name[0] == '/' ==> joined(base, name) == name,
        (name.len() == 0 || name[0] != '/') && base.len() > 0 && base.last() != '/' ==> joined(
            base,
            name,
        ) == base + seq!['/'] + name,
        (name.len() == 0 || name[0] != '/') && base.len() > 0 && base.last() == '/' ==> joined(
            base,
            name,
        ) == base + name,
        name.len() > 0 && base.len() == 0 ==> joined(base, name) == name,
{
    assert(base.push('/') =~= base + seq!['/']);
    if base.len() == 0 {
        assert(base + name =~= name);
    }
}

/// A tilde alone is home, and what stands behind a tilde and a separator is below home; a tilde that
/// begins a longer name is part of that name.
pub proof fn law_a_tilde_is_home(rest: Seq<char>, home: Seq<char>)
    ensures
        tilde_expanded("~"@, Some(home)) == home,
        tilde_expanded("~/"@ + rest, Some(home)) == joined(home, rest),
        rest.len() > 0 && rest[0] != '/' ==> tilde_expanded("~"@ + rest, Some(home)) == "~"@ + rest,
{
    reveal_strlit("~");
    reveal_strlit("~/");
    let below = "~/"@ + rest;
    assert(below.take(2) =~= "~/"@);
    assert(below.skip(2) =~= rest);
    assert(below != "~"@) by {
        assert(below.len() >= 2 && "~"@.len() == 1);
    }
    if rest.len() > 0 && rest[0] != '/' {
        let named = "~"@ + rest;
        assert(named.len() >= 2 && "~"@.len() == 1);
        if begins(named, "~/"@) {
            assert(named.take(2)[1] == '/');
            assert(named[1] == rest[0]);
        }
    }
}

/// The app's files stand at fixed places below the base directory.
pub proof fn law_the_files_of_the_app_stand_below_its_base(base: Seq<char>)
    requires
        base.len() > 0,
        base.last() != '/',
    ensures
        app_dir(Some(base)) == base + seq!['/'] + "jmds"@,
        app_dir(None) == "./jmds"@,
        config_file_path(base) == base + seq!['/'] + "config.toml"@,
        artifacts_path(base) == base + seq!['/'] + "artifacts"@,
{
    reveal_strlit("jmds");
    reveal_strlit(".");
    reveal_strlit("./jmds");
    reveal_strlit("config.toml");
    reveal_strlit("artifacts");
    law_a_path_below_another(base, "jmds"@);
    law_a_path_below_another("."@, "jmds"@);
    law_a_path_below_another(base, "config.toml"@);
    law_a_path_below_another(base, "artifacts"@);
    assert("."@ + seq!['/'] + "jmds"@ =~= "./jmds"@);
}

proof fn lemma_names_filter(pieces: Seq<Seq<char>>)
    ensures
        names_of(pieces) == pieces.filter(|piece: Seq<char>| piece.len() > 0 && piece != "."@),
    decreases pieces.len(),
{
    reveal(Seq::filter);
    if pieces.len() > 0 {
        lemma_names_filter(pieces.drop_last());
    } else {
        assert(pieces =~= pieces.filter(|piece: Seq<char>| piece.len() > 0 && piece != "."@));
    }
}

/// A path is its names in their order: what stands between the separators, but for nothing and for a
/// dot. It starts at the root when a separator comes first, and with a dot when that is its first
/// piece.
pub proof fn law_a_path_is_its_names(path: Seq<char>)
    ensures
        path_view(path).names == split(path, '/').filter(
            |piece: Seq<char>| piece.len() > 0 && piece != "."@,
        ),
        path_view(path).rooted <==> path.len() > 0 && path[0] == '/',
        path_view(path).dotted <==> path == "."@ || "./"@.is_prefix_of(path),
{
    lemma_names_filter(split(path, '/'));
    reveal_strlit(".");
    reveal_strlit("./");
    crate::text::lemma_upto(path, '/');
    let k = crate::text::upto(path, '/');
    assert(split(path, '/')[0] == path.take(k)) by {
        if k == path.len() {
            assert(path.take(k) =~= path);
        }
    }
    if path_view(path).dotted {
        assert(path.take(k) == "."@);
        assert(k == 1);
        assert(path.take(1)[0] == '.');
        if k == path.len() {
            assert(path =~= "."@);
        } else {
            assert(path[1] == '/');
            assert("./"@.is_prefix_of(path)) by {
                assert(path.subrange(0, 2) =~= "./"@);
            }
        }
    }
    if path == "."@ {
        assert(path[0] == '.');
        lemma_upto_is(path, '/', 1);
        assert(path.take(1) =~= path);
    }
    if "./"@.is_prefix_of(path) {
        assert(path.subrange(0, 2)[0] == '.' && path.subrange(0, 2)[1] == '/');
        lemma_upto_is(path, '/', 1);
        assert(path.take(1) =~= "."@);
    }
}

/// A path lies in a directory when it starts as the directory does and its names go on from the
/// directory's; a directory lies in itself, and what lies in one that lies in another lies in that.
pub proof fn law_a_path_lies_in_what_it_begins_with(
    path: PathView,
    root: PathView,
    above: PathView,
    rest: Seq<Seq<char>>,
)
    ensures
        path.within(path),
        path.names == root.names + rest && path.rooted == root.rooted && path.dotted == root.dotted
            ==> path.within(root),
        path.within(root) && !root.bare() ==> path.rooted == root.rooted && path.dotted
            == root.dotted && path.names == root.names + path.names.skip(root.names.len() as int),
        path.within(root) && root.within(above) && !root.bare() ==> path.within(above),
{
    assert(path.names.take(path.names.len() as int) =~= path.names);
    if path.names == root.names + rest {
        assert(path.names.take(root.names.len() as int) =~= root.names);
    }
    if path.within(root) && !root.bare() {
        assert(path.names =~= root.names + path.names.skip(root.names.len() as int));
        if root.within(above) && !above.bare() {
            assert(path.names.take(above.names.len() as int) =~= root.names.take(
                above.names.len() as int,
            ));
        }
    }
}

/// What is put below a directory lies in it, under the names it was put there with.
pub proof fn law_what_is_below_a_directory_lies_in_it(base: Seq<char>, name: Seq<char>)
    requires
        base.len() > 0,
        base.last() != '/',
        name.len() == 0 || name[0] != '/',
    ensures
        path_view(joined(base, name)).names == path_view(base).names + path_view(name).names,
        path_view(joined(base, name)).rooted == path_view(base).rooted,
        path_view(joined(base, name)).within(path_view(base)),
{
    let path = joined(base, name);
    law_a_path_below_another(base, name);
    assert(path =~= base.push('/') + name);
    crate::text::lemma_split_add(base, '/', name);
    lemma_names_add(split(base, '/'), split(name, '/'));
    assert(path[0] == base[0]);
    lemma_split_pieces(base, '/');
    assert(split(path, '/')[0] == split(base, '/')[0]);
    law_a_path_lies_in_what_it_begins_with(
        path_view(path),
        path_view(base),
        path_view(base),
        path_view(name).names,
    );
}

proof fn lemma_joined_parts(a: Seq<Seq<char>>, b: Seq<Seq<char>>, sep: Seq<char>)
    requires
        a.len() > 0,
        b.len() > 0,
    ensures
        join(a + b, sep) == join(a, sep) + sep + join(b, sep),
    decreases b.len(),
{
    let whole = a + b;
    assert(whole.drop_last() =~= a + b.drop_last());
    assert(whole.last() == b.last());
    if b.len() == 1 {
        assert(a + b.drop_last() =~= a);
        assert(join(b, sep) == b[0]);
    } else {
        lemma_joined_parts(a, b.drop_last(), sep);
        assert(join(whole, sep) =~= join(a, sep) + sep + join(b, sep));
    }
}

/// What is left of a path is written as it stands in the path: one stretch of its text.
pub proof fn law_the_rest_is_written_as_it_stands(path: Seq<char>, root: PathView)
    ensures
        exists|front: Seq<char>, back: Seq<char>|
            path == #[trigger] (front + rest_below(path, root) + back),
{
    let pieces = split(path, '/');
    let sep = seq!['/'];
    lemma_split_pieces(path, '/');
    crate::text::law_pieces_make_up_their_text(path, '/');
    lemma_names_end(pieces);
    let end = names_end(pieces);
    let none = Seq::<char>::empty();
    let rest = rest_below(path, root);
    let (from, to): (int, int) = if root.bare() {
        let least = head_pieces(path_view(path));
        (
            0,
            if end >= least {
                end
            } else {
                least
            },
        )
    } else {
        (name_place(pieces, root.names.len() as int, 0), end)
    };
    if root.bare() && path_view(path).rooted {
        lemma_rooted_pieces(path);
    }
    if !root.bare() {
        lemma_names_before(pieces, root.names.len() as int, 0);
    }
    if from < to {
        let kept = pieces.subrange(from, to);
        if root.bare() {
            assert(kept =~= pieces.take(to));
        }
        let before = pieces.subrange(0, from);
        let after = pieces.subrange(to, pieces.len() as int);
        let front = if from > 0 {
            join(before, sep) + sep
        } else {
            none
        };
        let back = if to < pieces.len() {
            sep + join(after, sep)
        } else {
            none
        };
        assert(pieces =~= before + kept + after);
        if from > 0 {
            lemma_joined_parts(before, kept, sep);
        } else {
            assert(before + kept =~= kept);
        }
        if to < pieces.len() {
            lemma_joined_parts(before + kept, after, sep);
        } else {
            assert(before + kept + after =~= before + kept);
        }
        assert(path =~= front + rest + back);
    } else {
        if root.bare() {
            assert(pieces.take(to) =~= Seq::<Seq<char>>::empty());
        }
        assert(rest =~= none);
        assert(path =~= none + rest + path);
    }
}

proof fn lemma_rooted_pieces(path: Seq<char>)
    requires
        absolute(path),
    ensures
        split(path, '/').len() >= 2,
{
    lemma_upto_is(path, '/', 0);
    lemma_split_pieces(path.skip(1), '/');
}

/// Below the empty path a path is itself: nothing of its names and of where it starts is lost.
pub proof fn law_below_nothing_a_path_is_itself(path: Seq<char>, root: PathView)
    requires
        root.bare(),
    ensures
        path_view(rest_below(path, root)) == path_view(path),
{
    let pieces = split(path, '/');
    lemma_split_pieces(path, '/');
    lemma_names_end(pieces);
    reveal_strlit(".");
    let end = names_end(pieces);
    let least = head_pieces(path_view(path));
    let n = if end >= least {
        end
    } else {
        least
    };
    let rest = rest_below(path, root);
    if path_view(path).rooted {
        lemma_rooted_pieces(path);
    }
    let kept = pieces.take(n);
    let behind = pieces.skip(n);
    assert(pieces =~= kept + behind);
    lemma_names_add(kept, behind);
    assert forall|i: int| 0 <= i < behind.len() implies !is_name(#[trigger] behind[i]) by {
        assert(behind[i] == pieces[n + i]);
    }
    lemma_no_names(behind);
    assert(names_of(pieces) =~= names_of(kept));
    if n > 0 {
        assert forall|i: int| 0 <= i < kept.len() implies !(#[trigger] kept[i]).contains('/') by {
            assert(kept[i] == pieces[i]);
        }
        lemma_split_join(kept, '/');
        assert(split(rest, '/') == kept);
        assert(kept[0] == pieces[0]);
        lemma_root_piece(path);
        lemma_root_piece(rest);
    } else {
        assert(kept =~= Seq::<Seq<char>>::empty());
        assert(rest =~= Seq::<char>::empty());
        assert(!is_name(behind[0]));
        assert(pieces[0].len() == 0);
        lemma_root_piece(path);
        assert(pieces.len() == 1);
        crate::text::law_pieces_make_up_their_text(path, '/');
        assert(path =~= rest);
    }
}

/// A path starts at the root exactly when its first piece is empty and another follows.
proof fn lemma_root_piece(path: Seq<char>)
    ensures
        absolute(path) <==> split(path, '/').len() >= 2 && split(path, '/')[0].len() == 0,
{
    crate::text::lemma_upto(path, '/');
    let k = crate::text::upto(path, '/');
    lemma_split_pieces(path, '/');
    if absolute(path) {
        lemma_upto_is(path, '/', 0);
        lemma_split_pieces(path.skip(1), '/');
        assert(split(path, '/')[0] =~= Seq::<char>::empty());
    } else if k < path.len() {
        assert(split(path, '/')[0] == path.take(k));
    }
}

} // verus!
