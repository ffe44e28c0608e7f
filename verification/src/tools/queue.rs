//! One writer per file.
//!
//! A turn can ask for several changes to the same file at once (the model emits two `edit` calls,
//! or a `write` after an `edit`), and without a queue they interleave: both read the original, both
//! write, and the first one's work is gone. Reads do not need this (they do not change anything);
//! everything that writes does.
//!
//! The queue is keyed by the file's **resolved** path. Two names for one file are one file: a symlink,
//! a `..`, a relative path joined onto the working directory. Keying by the string the model passed
//! would give two locks for one file, which is the same as no lock at all.

use vstd::prelude::*;

use crate::paths::{join_path, joined};
use crate::text::{copy, opt_view};

verus! {

/// The key of a file: its real path; for one that does not exist yet, the real path of the
/// directory it will be in and its name; and as it was given when not even that is known.
pub open spec fn key_of(
    path: Seq<char>,
    resolved: Option<Seq<char>>,
    real_dir: Option<Seq<char>>,
    name: Option<Seq<char>>,
) -> Seq<char> {
    match (resolved, real_dir, name) {
        (Some(resolved), _, _) => resolved,
        (None, Some(dir), Some(name)) => joined(dir, name),
        _ => path,
    }
}

/// The path a lock is keyed by: the real one.
///
/// Resolving a path fails for a file that does not exist yet, which is exactly what a `write` is
/// about to create. The fallback then is the containing directory, resolved, with the file name,
/// which is enough for two spellings of the same new file to still meet.
pub fn key_for(
    path: &str,
    resolved: Option<String>,
    real_dir: Option<String>,
    name: Option<String>,
) -> (out: String)
    ensures
        out@ == key_of(path@, opt_view(resolved), opt_view(real_dir), opt_view(name)),
{
    match (resolved, real_dir, name) {
        (Some(resolved), _, _) => resolved,
        (None, Some(dir), Some(name)) => join_path(&dir, &name),
        _ => copy(path),
    }
}

/// Whether an entry that this many refer to is held or waited for. One that is not is dead weight.
pub fn in_use(references: usize) -> (out: bool)
    ensures
        out == (references > 1),
{
    references > 1
}

// ---------------------------------------------------------------------------------------------
// Laws

/// Two spellings of one file meet: paths that resolve to the same real path have one key, and so
/// have two of a file that is not there yet, in one directory and under one name.
pub proof fn law_two_names_for_one_file_share_a_key(
    a: Seq<char>,
    b: Seq<char>,
    resolved: Option<Seq<char>>,
    dir: Option<Seq<char>>,
    other: Option<Seq<char>>,
    name: Seq<char>,
)
    ensures
        resolved is Some ==> key_of(a, resolved, dir, Some(name)) == key_of(b, resolved, other, Some(name)),
        resolved is None && dir is Some ==> key_of(a, resolved, dir, Some(name)) == key_of(
            b,
            resolved,
            dir,
            Some(name),
        ),
{
}

/// A file that is there is known by its real path, however it was named; one that is not there yet by
/// its name below the real path of its directory; and what is below nothing real by its own text.
pub proof fn law_a_file_is_known_by_its_real_path(
    path: Seq<char>,
    resolved: Seq<char>,
    dir: Option<Seq<char>>,
    name: Option<Seq<char>>,
)
    ensures
        key_of(path, Some(resolved), dir, name) == resolved,
        match (dir, name) {
            (Some(dir), Some(name)) => key_of(path, None, Some(dir), Some(name)) == joined(
                dir,
                name,
            ),
            _ => key_of(path, None, dir, name) == path,
        },
{
}

} // verus!
