//! Exclusion rules of a backup: the default excludes, `--exclude` values,
//! and the override list handed to the directory walker.
use crate::paths::{chars_of, ends_with, replace_char, strip_prefix, strip_prefix_exec};
use vstd::prelude::*;

verus! {

broadcast use vstd::seq::group_seq_axioms;

/// Default exclusion globs (gitignore syntax), on unless
/// `--no-default-excludes` is given.
pub const DEFAULT_EXCLUDES: [&'static str; 12] = [
    "**/__pycache__/",
    "**/.venv/",
    "**/venv/",
    "**/.mypy_cache/",
    "**/.pytest_cache/",
    "**/.ruff_cache/",
    "**/.cache/",
    "**/.DS_Store",
    "**/.idea/",
    "**/.vscode/",
    "**/*.swp",
    "**/Thumbs.db",
];

/// An `--exclude` value made ready for the walker.
#[derive(Debug)]
pub struct NormalizedExclude {
    /// Pattern in gitignore syntax.
    pub pattern: String,
    /// Canonical absolute path when the value named an existing path inside
    /// the target; used by the output-location check.
    pub canonical_path: Option<String>,
}

/// What became of one `--exclude` value.
#[derive(Debug)]
pub enum ExcludeResolution {
    /// Not a path: a gitignore glob, used as given (without a leading `!`).
    Glob(NormalizedExclude),
    /// Written as a path that does not exist: used as a glob.
    Unresolved(NormalizedExclude),
    /// A path outside the target: ignored.
    Outside,
    /// The target itself: ignored.
    TargetRoot,
    /// A path inside the target: anchored at the target root.
    Subtree(NormalizedExclude),
}

/// The value without a leading `!`.
pub open spec fn exclude_body_spec(raw: Seq<char>) -> Seq<char> {
    if raw.len() > 0 && raw[0] == '!' {
        raw.drop_first()
    } else {
        raw
    }
}

pub open spec fn starts_with_chars(s: Seq<char>, t: Seq<char>) -> bool {
    t.len() <= s.len() && s.take(t.len() as int) == t
}

/// A value is read as a path when it starts with `./`, `../` or `/`, or when
/// it holds a `/` and names something that exists.
pub open spec fn pathlike_spec(pat: Seq<char>, exists: bool) -> bool {
    starts_with_chars(pat, "./"@) || starts_with_chars(pat, "../"@) || starts_with_chars(pat, "/"@)
        || (pat.contains('/') && exists)
}

pub fn exclude_body(raw: &str) -> (r: String)
    ensures
        r@ == exclude_body_spec(raw@),
{
    if !raw.is_empty() && raw.get_char(0) == '!' {
        let n = raw.unicode_len();
        raw.substring_char(1, n).to_owned()
    } else {
        raw.to_owned()
    }
}

fn starts_with_str(s: &str, t: &str) -> (r: bool)
    ensures
        r == starts_with_chars(s@, t@),
{
    let n = s.unicode_len();
    let m = t.unicode_len();
    if m > n {
        return false;
    }
    let mut i: usize = 0;
    while i < m
        invariant
            i <= m <= n,
            n == s@.len(),
            m == t@.len(),
            forall|k: int| 0 <= k < i ==> s@[k] == t@[k],
        decreases m - i,
    {
        if s.get_char(i) != t.get_char(i) {
            assert(s@.take(m as int)[i as int] == s@[i as int]);
            return false;
        }
        i = i + 1;
    }
    assert(s@.take(m as int) =~= t@);
    true
}

fn contains_char(s: &str, c: char) -> (r: bool)
    ensures
        r == s@.contains(c),
{
    let cs = chars_of(s);
    let mut i: usize = 0;
    while i < cs.len()
        invariant
            i <= cs@.len(),
            cs@ == s@,
            forall|k: int| 0 <= k < i ==> cs@[k] != c,
        decreases cs.len() - i,
    {
        if cs[i] == c {
            return true;
        }
        i = i + 1;
    }
    false
}

/// Whether the value `pat` (already without `!`) is read as a path; `exists`
/// tells whether it names something on disk.
pub fn is_pathlike(pat: &str, exists: bool) -> (r: bool)
    ensures
        r == pathlike_spec(pat@, exists),
{
    starts_with_str(pat, "./") || starts_with_str(pat, "../") || starts_with_str(pat, "/")
        || (contains_char(pat, '/') && exists)
}

/// The pattern anchoring a subtree `rel` (relative to the target) at the
/// target root: `/rel`, with a trailing `/` for a directory.
pub open spec fn anchored_pattern(rel: Seq<char>, is_dir: bool) -> Seq<char> {
    let p = "/"@ + rel;
    if is_dir && !ends_with(p, "/"@) {
        p + "/"@
    } else {
        p
    }
}

/// Normalizes one `--exclude` value. `exists` tells whether the value (without
/// `!`) names something on disk, `canon` is its canonical path when it has
/// one, and `is_dir` whether that is a directory.
pub fn normalize_exclude(
    target_canon: &str,
    raw: &str,
    exists: bool,
    canon: Option<String>,
    is_dir: bool,
) -> (r: ExcludeResolution)
    ensures
        ({
            let pat = exclude_body_spec(raw@);
            if !pathlike_spec(pat, exists) {
                r matches ExcludeResolution::Glob(n) && n.pattern@ == pat && n.canonical_path is None
            } else {
                match canon {
                    None => r matches ExcludeResolution::Unresolved(n) && n.pattern@ == pat
                        && n.canonical_path is None,
                    Some(c) => match strip_prefix(c@, target_canon@) {
                        None => r is Outside,
                        Some(rel) => {
                            let rel2 = replace_char(rel, '\\', '/');
                            if rel2.len() == 0 {
                                r is TargetRoot
                            } else {
                                r matches ExcludeResolution::Subtree(n) && n.pattern@ == anchored_pattern(rel2, is_dir)
                                    && n.canonical_path == Some(c)
                            }
                        },
                    },
                }
            }
        }),
{
    let pat = exclude_body(raw);
    if !is_pathlike(pat.as_str(), exists) {
        return ExcludeResolution::Glob(NormalizedExclude { pattern: pat, canonical_path: None });
    }
    let c = match canon {
        None => {
            return ExcludeResolution::Unresolved(NormalizedExclude { pattern: pat, canonical_path: None });
        },
        Some(c) => c,
    };
    let rel = match strip_prefix_exec(c.as_str(), target_canon) {
        None => {
            return ExcludeResolution::Outside;
        },
        Some(rel) => rel,
    };
    let rel2 = crate::paths::replace_backslashes(rel.as_str());
    if rel2.as_str().is_empty() {
        return ExcludeResolution::TargetRoot;
    }
    let mut pattern = String::from_str("/");
    pattern.append(rel2.as_str());
    proof {
        reveal_strlit("/");
    }
    let ghost p0 = pattern@;
    let n = pattern.as_str().unicode_len();
    let ends_slash = pattern.as_str().get_char(n - 1) == '/';
    proof {
        assert(ends_with(p0, "/"@) <==> p0.last() == '/') by {
            if ends_with(p0, "/"@) {
                assert(p0.skip(p0.len() - 1)[0] == p0.last());
            }
            if p0.last() == '/' {
                assert(p0.skip(p0.len() - 1) =~= "/"@);
            }
        }
    }
    if is_dir && !ends_slash {
        pattern.append("/");
    }
    ExcludeResolution::Subtree(NormalizedExclude { pattern, canonical_path: Some(c) })
}

} // verus!

verus! {

/// An exclusion pattern as an override that leaves matches out: a leading
/// `!` is kept, else one is added.
pub open spec fn as_exclusion(p: Seq<char>) -> Seq<char> {
    if p.len() > 0 && p[0] == '!' {
        p
    } else {
        "!"@ + p
    }
}

/// The overrides of the file walker, in order: the `.git` directories, the
/// default excludes unless they are turned off, then the extra patterns.
pub open spec fn override_list(no_default_excludes: bool, extra: Seq<Seq<char>>) -> Seq<Seq<char>> {
    seq!["!.git/"@, "!**/.git/"@] + (if no_default_excludes {
        Seq::empty()
    } else {
        Seq::new(12, |i: int| "!"@ + DEFAULT_EXCLUDES@[i]@)
    }) + extra.map_values(|p: Seq<char>| as_exclusion(p))
}

fn bang(p: &str) -> (r: String)
    ensures
        r@ == "!"@ + p@,
{
    let mut s = String::from_str("!");
    s.append(p);
    s
}

/// The override patterns of the file walker.
pub fn override_patterns(no_default_excludes: bool, extra_excludes: &Vec<String>) -> (r: Vec<String>)
    ensures
        r@.map_values(|s: String| s@) == override_list(
            no_default_excludes,
            extra_excludes@.map_values(|s: String| s@),
        ),
{
    let mut out: Vec<String> = Vec::new();
    out.push(String::from_str("!.git/"));
    out.push(String::from_str("!**/.git/"));
    let ghost head = seq!["!.git/"@, "!**/.git/"@];
    let ghost defaults: Seq<Seq<char>> = if no_default_excludes {
        Seq::empty()
    } else {
        Seq::new(12, |i: int| "!"@ + DEFAULT_EXCLUDES@[i]@)
    };
    assert(out@.map_values(|s: String| s@) =~= head);
    if !no_default_excludes {
        let mut i: usize = 0;
        while i < 12
            invariant
                i <= 12,
                !no_default_excludes,
                defaults == Seq::new(12, |k: int| "!"@ + DEFAULT_EXCLUDES@[k]@),
                out@.map_values(|s: String| s@) == head + defaults.take(i as int),
            decreases 12 - i,
        {
            let ghost before = out@.map_values(|s: String| s@);
            let d = DEFAULT_EXCLUDES[i];
            assert(d@ == DEFAULT_EXCLUDES@[i as int]@);
            out.push(bang(d));
            assert(defaults.take(i + 1) =~= defaults.take(i as int).push(defaults[i as int]));
            assert(out@.map_values(|s: String| s@) =~= before.push(defaults[i as int]));
            i = i + 1;
        }
        assert(defaults.take(12) =~= defaults);
    }
    assert(out@.map_values(|s: String| s@) == head + defaults);
    let ghost ex = extra_excludes@.map_values(|s: String| s@);
    let mut j: usize = 0;
    while j < extra_excludes.len()
        invariant
            j <= extra_excludes@.len(),
            ex == extra_excludes@.map_values(|s: String| s@),
            out@.map_values(|s: String| s@) == head + defaults + ex.take(j as int).map_values(
                |p: Seq<char>| as_exclusion(p),
            ),
        decreases extra_excludes.len() - j,
    {
        let ghost before = out@.map_values(|s: String| s@);
        let p = extra_excludes[j].as_str();
        let item = if !p.is_empty() && p.get_char(0) == '!' {
            p.to_owned()
        } else {
            bang(p)
        };
        out.push(item);
        assert(ex[j as int] == p@);
        assert(ex.take(j + 1) =~= ex.take(j as int).push(ex[j as int]));
        assert(out@.map_values(|s: String| s@) =~= before.push(as_exclusion(ex[j as int])));
        assert(head + defaults + ex.take(j + 1).map_values(|p: Seq<char>| as_exclusion(p)) =~= before.push(as_exclusion(ex[j as int])));
        j = j + 1;
    }
    assert(ex.take(j as int) =~= ex);
    out
}

} // verus!
