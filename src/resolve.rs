//! Mapping of module specifiers to paths.
//!
//! The entry file is resolved against a fixed base directory. A nested
//! import must be relative (`./` or `../`) or absolute, and is resolved
//! against the directory of the importing module; bare specifiers are not
//! supported. The host then turns the joined path into a canonical
//! identity, which fails when no such file exists.
use vstd::prelude::*;

verus! {

#[derive(PartialEq, Eq, Structural, Clone, Copy, Debug)]
pub enum ResolveError {
    /// The specifier is empty.
    Malformed,
    /// The specifier is neither relative nor absolute.
    Bare,
}

pub open spec fn starts_with(s: Seq<char>, prefix: Seq<char>) -> bool {
    s.len() >= prefix.len() && s.subrange(0, prefix.len() as int) == prefix
}

pub open spec fn is_relative(s: Seq<char>) -> bool {
    starts_with(s, "./"@) || starts_with(s, "../"@)
}

pub open spec fn is_absolute(s: Seq<char>) -> bool {
    s.len() > 0 && s[0] == '/'
}

pub open spec fn join(dir: Seq<char>, rel: Seq<char>) -> Seq<char> {
    dir + "/"@ + rel
}

/// Index of the last `/` in `s`, or -1 when there is none.
pub open spec fn last_slash(s: Seq<char>) -> int
    decreases s.len(),
{
    if s.len() == 0 {
        -1
    } else if s.last() == '/' {
        s.len() - 1
    } else {
        last_slash(s.drop_last())
    }
}

/// The directory part of a path: what comes before its last `/`; `/` for
/// a file at the root, `.` for a bare file name.
pub open spec fn dir_of(s: Seq<char>) -> Seq<char> {
    let k = last_slash(s);
    if k < 0 {
        "."@
    } else if k == 0 {
        "/"@
    } else {
        s.subrange(0, k)
    }
}

fn first_chars_are(s: &str, a: char, b: char, c: Option<char>) -> (r: bool)
    ensures
        r == match c {
            Some(c) => s@.len() >= 3 && s@[0] == a && s@[1] == b && s@[2] == c,
            None => s@.len() >= 2 && s@[0] == a && s@[1] == b,
        },
{
    let n = s.unicode_len();
    match c {
        Some(c) => n >= 3 && s.get_char(0) == a && s.get_char(1) == b && s.get_char(2) == c,
        None => n >= 2 && s.get_char(0) == a && s.get_char(1) == b,
    }
}

fn joined(dir: &str, rel: &str) -> (r: String)
    ensures
        r@ == join(dir@, rel@),
{
    let r = String::from_str(dir);
    let r = r.concat("/");
    proof { reveal_strlit("/"); }
    r.concat(rel)
}

fn is_absolute_exec(s: &str) -> (r: bool)
    ensures
        r == is_absolute(s@),
{
    s.unicode_len() > 0 && s.get_char(0) == '/'
}

/// The path of the entry file `filename`: itself when absolute, else
/// joined to `base_dir`.
pub fn resolve_entry(base_dir: &str, filename: &str) -> (r: Result<String, ResolveError>)
    ensures
        filename@.len() == 0 ==> r == Err::<String, ResolveError>(ResolveError::Malformed),
        filename@.len() > 0 && is_absolute(filename@) ==> (r matches Ok(p) && p@ == filename@),
        filename@.len() > 0 && !is_absolute(filename@) ==> (r matches Ok(p) && p@ == join(base_dir@, filename@)),
{
    if filename.unicode_len() == 0 {
        Err(ResolveError::Malformed)
    } else if is_absolute_exec(filename) {
        Ok(String::from_str(filename))
    } else {
        Ok(joined(base_dir, filename))
    }
}

/// The path of `specifier` imported from a module in `importer_dir`.
pub fn resolve_import(importer_dir: &str, specifier: &str) -> (r: Result<String, ResolveError>)
    ensures
        specifier@.len() == 0 ==> r == Err::<String, ResolveError>(ResolveError::Malformed),
        is_absolute(specifier@) ==> (r matches Ok(p) && p@ == specifier@),
        is_relative(specifier@) ==> (r matches Ok(p) && p@ == join(importer_dir@, specifier@)),
        specifier@.len() > 0 && !is_absolute(specifier@) && !is_relative(specifier@)
            ==> r == Err::<String, ResolveError>(ResolveError::Bare),
{
    proof {
        reveal_strlit("./");
        reveal_strlit("../");
    }
    let rel = first_chars_are(specifier, '.', '/', None) || first_chars_are(specifier, '.', '.', Some('/'));
    assert(rel == is_relative(specifier@)) by {
        if specifier@.len() >= 2 {
            assert(specifier@.subrange(0, 2) =~= seq![specifier@[0], specifier@[1]]);
        }
        if specifier@.len() >= 3 {
            assert(specifier@.subrange(0, 3) =~= seq![specifier@[0], specifier@[1], specifier@[2]]);
        }
        assert("./"@ =~= seq!['.', '/']);
        assert("../"@ =~= seq!['.', '.', '/']);
    }
    if specifier.unicode_len() == 0 {
        Err(ResolveError::Malformed)
    } else if is_absolute_exec(specifier) {
        Ok(String::from_str(specifier))
    } else if rel {
        Ok(joined(importer_dir, specifier))
    } else {
        Err(ResolveError::Bare)
    }
}

/// The directory of the module at `path`, against which its own imports
/// are resolved.
pub fn directory_of(path: &str) -> (r: String)
    ensures
        r@ == dir_of(path@),
{
    let n = path.unicode_len();
    assert(path@.subrange(0, n as int) =~= path@);
    let mut i: usize = n;
    while i > 0
        invariant
            i <= n == path@.len(),
            last_slash(path@) == last_slash(path@.subrange(0, i as int)),
        decreases i,
    {
        if path.get_char(i - 1) == '/' {
            let k = i - 1;
            assert(path@.subrange(0, i as int).last() == '/');
            if k == 0 {
                return String::from_str("/");
            }
            return String::from_str(path.substring_char(0, k));
        }
        assert(path@.subrange(0, i as int).drop_last() =~= path@.subrange(0, i - 1));
        i = i - 1;
    }
    assert(path@.subrange(0, 0).len() == 0);
    String::from_str(".")
}

} // verus!
