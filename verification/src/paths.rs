//! Where the engine keeps its files, and how names of models become paths.
//!
//! The functions take the home directory as an argument; paths are texts with
//! `/` between their parts.

use vstd::prelude::*;

use crate::text::to_chars;

verus! {

/// `name` inside the directory `base`. A name that begins at the root stands for
/// itself.
pub open spec fn joined(base: Seq<char>, name: Seq<char>) -> Seq<char> {
    if name.len() > 0 && name[0] == '/' {
        name
    } else if base.len() == 0 || base.last() == '/' {
        base + name
    } else {
        base.push('/') + name
    }
}

/// `name` inside the directory `base`.
pub fn join_path(base: &str, name: &str) -> (s: String)
    ensures
        s@ == joined(base@, name@),
{
    if name.unicode_len() > 0 && name.get_char(0) == '/' {
        return name.to_string();
    }
    let n: usize = base.unicode_len();
    let mut s = base.to_string();
    if n > 0 && base.get_char(n - 1) != '/' {
        s.push('/');
    }
    s.append(name);
    s
}

/// The engine's directory.
pub open spec fn home_of(home: Seq<char>) -> Seq<char> {
    joined(home, ".nodestor"@)
}

/// The engine's directory, inside the home directory.
pub fn nodestor_home(home: &str) -> (s: String)
    ensures
        s@ == home_of(home@),
{
    join_path(home, ".nodestor")
}

/// The directory of models.
pub fn models_dir(home: &str) -> (s: String)
    ensures
        s@ == joined(home_of(home@), "models"@),
{
    let base = nodestor_home(home);
    join_path(base.as_str(), "models")
}

/// The directory of adapters.
pub fn loras_dir(home: &str) -> (s: String)
    ensures
        s@ == joined(home_of(home@), "loras"@),
{
    let base = nodestor_home(home);
    join_path(base.as_str(), "loras")
}

/// The directory of system prompts.
pub fn prompts_dir(home: &str) -> (s: String)
    ensures
        s@ == joined(home_of(home@), "prompts"@),
{
    let base = nodestor_home(home);
    join_path(base.as_str(), "prompts")
}

/// Where the part of `path` that begins at `from` ends: at the next `/` or at
/// the end.
pub open spec fn part_end(path: Seq<char>, from: int) -> int
    decreases path.len() - from,
{
    if from >= path.len() || from < 0 || path[from] == '/' {
        from
    } else {
        part_end(path, from + 1)
    }
}

/// How many components the path has from `from` on. Empty parts do not count,
/// nor does a `.` unless the path begins with it.
pub open spec fn components_from(path: Seq<char>, from: int) -> nat
    decreases path.len() - from,
{
    if from >= path.len() || from < 0 {
        0
    } else {
        let end = part_end(path, from);
        let counts = end > from && !(from > 0 && end == from + 1 && path[from] == '.');
        (if counts {
            1nat
        } else {
            0nat
        }) + if from < end <= path.len() {
            components_from(path, end)
        } else {
            components_from(path, from + 1)
        }
    }
}

/// The path is a bare name: one component, and no root.
pub open spec fn is_bare(path: Seq<char>) -> bool {
    components_from(path, 0) == 1 && !(path.len() > 0 && path[0] == '/')
}

/// Whether `path` is a bare name.
pub fn is_bare_name(path: &str) -> (b: bool)
    ensures
        b == is_bare(path@),
{
    let v = to_chars(path);
    let n: usize = v.len();
    if n > 0 && v[0] == '/' {
        return false;
    }
    let mut count: usize = 0;
    let mut at: usize = 0;
    while at < n
        invariant
            v@ == path@,
            n == v@.len(),
            at <= n,
            count <= at,
            components_from(path@, 0) == count + components_from(path@, at as int),
        decreases n - at,
    {
        let mut end: usize = at;
        while end < n && v[end] != '/'
            invariant
                v@ == path@,
                n == v@.len(),
                at <= end <= n,
                part_end(path@, at as int) == part_end(path@, end as int),
            decreases n - end,
        {
            end = end + 1;
        }
        let counts: bool = end > at && !(at > 0 && end == at + 1 && v[at] == '.');
        if counts {
            count = count + 1;
        }
        at = if end > at {
            end
        } else {
            at + 1
        };
    }
    count == 1
}

/// The path of a model: a bare name stands for a file in the directory of
/// models, any other path for itself.
pub fn resolve_model_path(path: &str, home: &str) -> (s: String)
    ensures
        s@ == if is_bare(path@) {
            joined(joined(home_of(home@), "models"@), path@)
        } else {
            path@
        },
{
    if is_bare_name(path) {
        let dir = models_dir(home);
        join_path(dir.as_str(), path)
    } else {
        path.to_string()
    }
}

/// A name without a slash is bare.
pub proof fn plain_names_are_bare(name: Seq<char>)
    requires
        name.len() > 0,
        !name.contains('/'),
    ensures
        is_bare(name),
{
    part_runs_to(name, 0, name.len() as int);
    assert(components_from(name, name.len() as int) == 0);
    assert(name[0] != '/');
}

/// A path of two names is not bare, and neither is a path that begins with a slash.
pub proof fn longer_paths_are_not_bare(a: Seq<char>, b: Seq<char>)
    requires
        a.len() > 0,
        b.len() > 0,
        !a.contains('/'),
        !b.contains('/'),
        b != seq!['.'],
    ensures
        !is_bare(a.push('/') + b),
        !is_bare(seq!['/'] + b),
{
    let path = a.push('/') + b;
    let n = a.len() as int;
    assert forall|k: int| 0 <= k < n implies #[trigger] path[k] != '/' by {
        assert(a.contains(a[k]));
    }
    part_runs_to(path, 0, n);
    assert(path[n] == '/');
    assert(part_end(path, n) == n);
    assert forall|k: int| n + 1 <= k < path.len() implies #[trigger] path[k] != '/' by {
        assert(b.contains(b[k - n - 1]));
    }
    part_runs_to(path, n + 1, path.len() as int);
    if b.len() == 1 && path[n + 1] == '.' {
        assert(b =~= seq!['.']);
    }
    assert(components_from(path, path.len() as int) == 0);
    assert(components_from(path, n + 1) == 1);
    assert(components_from(path, n) == 1);
    assert(components_from(path, 0) == 2);
}

proof fn part_runs_to(path: Seq<char>, from: int, end: int)
    requires
        0 <= from <= end <= path.len(),
        forall|k: int| from <= k < end ==> #[trigger] path[k] != '/',
        end < path.len() ==> path[end] == '/',
    ensures
        part_end(path, from) == end,
    decreases end - from,
{
    if from < end {
        assert(path[from] != '/');
        part_runs_to(path, from + 1, end);
    }
}

/// A name is put behind a directory with one slash between them; one that begins with a
/// slash stands alone.
pub proof fn names_stand_behind_their_directory(base: Seq<char>, name: Seq<char>)
    requires
        name.len() > 0,
    ensures
        name[0] == '/' ==> joined(base, name) == name,
        name[0] != '/' && base.len() > 0 && base.last() != '/' ==> joined(base, name) == base
            + seq!['/'] + name,
        name[0] != '/' && base.len() > 0 && base.last() == '/' ==> joined(base, name) == base + name,
{
    if name[0] != '/' && base.len() > 0 && base.last() != '/' {
        assert(joined(base, name) =~= base + seq!['/'] + name);
    }
}

} // verus!
