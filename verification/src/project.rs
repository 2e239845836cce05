//! A git project found under the backup root: where it is, its sidecar, and
//! the files git tracks in it.
use vstd::prelude::*;
use vstd::utf8::valid_utf8;
use crate::error::Error;
use crate::gitmeta::{project_path_spec, GitConfig, GitHead, GitMeta, GitRemote, SCHEMA_VERSION};
use crate::manifest::{index_of, lemma_index_of, utf8_str};
use crate::paths::{components, join_spec, path_components, path_join, strip_prefix, strip_prefix_exec};
use crate::text::utf8;

verus! {

broadcast use vstd::seq::group_seq_axioms;

/// A git project under the backup root.
#[derive(Debug, Clone)]
pub struct Project {
    pub root_abs: String,
    pub root_rel: String,
    pub gitmeta: GitMeta,
    /// Paths of the tracked files relative to `root_abs`, each listed once.
    pub tracked_files: Vec<String>,
}

/// The pieces of `git ls-files -z` output: the stretches between NUL bytes.
pub open spec fn nul_pieces(b: Seq<u8>) -> Seq<Seq<u8>>
    decreases b.len(),
{
    proof {
        lemma_index_of(b, 0);
    }
    if b.len() == 0 {
        Seq::empty()
    } else {
        let i = index_of(b, 0);
        if i == b.len() {
            seq![b]
        } else {
            seq![b.take(i as int)] + nul_pieces(b.skip(i as int + 1))
        }
    }
}

/// A piece names a tracked file when it is nonempty UTF-8.
pub open spec fn tracked_piece(p: Seq<u8>) -> bool {
    p.len() > 0 && valid_utf8(p)
}

/// The tracked files listed by `git ls-files -z`: every nonempty UTF-8
/// piece, each listed once.
pub open spec fn tracked_listing(out: Seq<u8>, r: Seq<Seq<char>>) -> bool {
    &&& forall|i: int, j: int| 0 <= i < j < r.len() ==> #[trigger] r[i] != #[trigger] r[j]
    &&& forall|i: int| 0 <= i < r.len() ==> nul_pieces(out).contains(utf8(#[trigger] r[i])) && r[i].len() > 0
    &&& forall|k: int| 0 <= k < nul_pieces(out).len() && tracked_piece(#[trigger] nul_pieces(out)[k])
        ==> exists|i: int| 0 <= i < r.len() && utf8(#[trigger] r[i]) == nul_pieces(out)[k]
}

fn contains_string(v: &Vec<String>, s: &String) -> (r: bool)
    ensures
        r == exists|i: int| 0 <= i < v@.len() && (#[trigger] v@[i])@ == s@,
{
    let mut i: usize = 0;
    while i < v.len()
        invariant
            i <= v@.len(),
            forall|j: int| 0 <= j < i ==> (#[trigger] v@[j])@ != s@,
        decreases v.len() - i,
    {
        if v[i] == *s {
            return true;
        }
        i = i + 1;
    }
    false
}

/// The tracked files from the output of `git ls-files -z`.
pub fn tracked_paths(out: &[u8]) -> (r: Vec<String>)
    ensures
        tracked_listing(out@, r@.map_values(|s: String| s@)),
{
    let n = out.len();
    let mut res: Vec<String> = Vec::new();
    let mut pos: usize = 0;
    let ghost seen: Seq<Seq<u8>> = Seq::empty();
    assert(out@.skip(0) =~= out@);
    while pos < n
        invariant
            pos <= n == out@.len(),
            nul_pieces(out@) == seen + nul_pieces(out@.skip(pos as int)),
            forall|i: int, j: int| 0 <= i < j < res@.len() ==> (#[trigger] res@[i])@ != (#[trigger] res@[j])@,
            forall|i: int| 0 <= i < res@.len() ==> seen.contains(utf8((#[trigger] res@[i])@)) && res@[i]@.len() > 0,
            forall|k: int| 0 <= k < seen.len() && tracked_piece(#[trigger] seen[k]) ==> exists|i: int|
                0 <= i < res@.len() && utf8((#[trigger] res@[i])@) == seen[k],
        decreases n - pos,
    {
        let mut end = pos;
        while end < n && out[end] != 0
            invariant
                pos <= end <= n == out@.len(),
                forall|k: int| pos <= k < end ==> out@[k] != 0,
            decreases n - end,
        {
            end = end + 1;
        }
        let ghost rest = out@.skip(pos as int);
        proof {
            lemma_index_of(rest, 0);
            let i = index_of(rest, 0);
            if i < end - pos {
                assert(rest[i as int] == out@[pos + i]);
            }
            if end < n && end - pos < i {
                assert(rest[end - pos] == out@[end as int]);
            }
        }
        let piece = vstd::slice::slice_subrange(out, pos, end);
        let ghost p = piece@;
        assert(p =~= rest.take(end - pos));
        let next = if end < n { end + 1 } else { n };
        proof {
            if end < n {
                assert(rest.skip(end - pos + 1) =~= out@.skip(next as int));
                assert(nul_pieces(rest) == seq![p] + nul_pieces(out@.skip(next as int)));
            } else {
                assert(rest =~= p);
                assert(out@.skip(next as int) =~= Seq::<u8>::empty());
                assert(nul_pieces(rest) == seq![p]);
            }
        }
        let ghost old_res = res@;
        if end > pos {
            match utf8_str(piece) {
                Ok(s) => {
                    let t = s.to_owned();
                    assert(utf8(t@) == p);
                    if !contains_string(&res, &t) {
                        res.push(t);
                    } else {
                        proof {
                            let i = choose|i: int| 0 <= i < res@.len() && (#[trigger] res@[i])@ == t@;
                            assert(utf8(res@[i]@) == p);
                        }
                    }
                },
                Err(_) => {},
            }
        }
        proof {
            let old_seen = seen;
            seen = seen.push(p);
            assert(old_seen + (seq![p] + nul_pieces(out@.skip(next as int))) =~= seen + nul_pieces(
                out@.skip(next as int),
            ));
            assert forall|i: int| 0 <= i < res@.len() implies seen.contains(utf8((#[trigger] res@[i])@)) && res@[i]@.len() > 0 by {
                if i < old_res.len() {
                    assert(res@[i] == old_res[i]);
                    assert(old_seen.contains(utf8(old_res[i]@)));
                    let k = choose|k: int| 0 <= k < old_seen.len() && old_seen[k] == utf8(old_res[i]@);
                    assert(seen[k] == old_seen[k]);
                } else {
                    assert(seen[seen.len() - 1] == p);
                    if res@[i]@.len() == 0 {
                        crate::text::lemma_utf8_empty(res@[i]@);
                    }
                }
            }
            assert forall|k: int| 0 <= k < seen.len() && tracked_piece(#[trigger] seen[k]) implies exists|i: int|
                0 <= i < res@.len() && utf8((#[trigger] res@[i])@) == seen[k] by {
                if k < old_seen.len() {
                    assert(seen[k] == old_seen[k]);
                    let i = choose|i: int| 0 <= i < old_res.len() && utf8((#[trigger] old_res[i])@) == old_seen[k];
                    assert(res@[i] == old_res[i]);
                } else if res@.len() > old_res.len() {
                    assert(utf8(res@[res@.len() - 1]@) == p);
                }
            }
        }
        pos = next;
    }
    assert(out@.skip(n as int) =~= Seq::<u8>::empty());
    assert(seen + Seq::<Seq<u8>>::empty() =~= seen);
    proof {
        let r = res@.map_values(|s: String| s@);
        assert forall|i: int, j: int| 0 <= i < j < r.len() implies #[trigger] r[i] != #[trigger] r[j] by {
            assert(r[i] == res@[i]@);
            assert(r[j] == res@[j]@);
        }
        assert forall|i: int| 0 <= i < r.len() implies nul_pieces(out@).contains(utf8(#[trigger] r[i])) && r[i].len() > 0 by {
            assert(r[i] == res@[i]@);
        }
        assert forall|k: int| 0 <= k < nul_pieces(out@).len() && tracked_piece(#[trigger] nul_pieces(out@)[k])
            implies exists|i: int| 0 <= i < r.len() && utf8(#[trigger] r[i]) == nul_pieces(out@)[k] by {
            let i = choose|i: int| 0 <= i < res@.len() && utf8((#[trigger] res@[i])@) == seen[k];
            assert(r[i] == res@[i]@);
        }
    }
    res
}

/// A file lies in a project and git tracks it: its path relative to the
/// project root has the components of one of the tracked paths.
pub open spec fn tracked_in(p: Project, abs: Seq<char>) -> bool {
    match strip_prefix(abs, p.root_abs@) {
        Some(rel) => exists|j: int|
            0 <= j < p.tracked_files@.len() && components(rel) == components(#[trigger] p.tracked_files@[j]@),
        None => false,
    }
}

fn same_components(a: &Vec<String>, b: &Vec<String>) -> (r: bool)
    ensures
        r == (a@.map_values(|s: String| s@) == b@.map_values(|s: String| s@)),
{
    if a.len() != b.len() {
        proof {
            assert(a@.map_values(|s: String| s@).len() != b@.map_values(|s: String| s@).len());
        }
        return false;
    }
    let mut i: usize = 0;
    while i < a.len()
        invariant
            i <= a@.len() == b@.len(),
            forall|k: int| 0 <= k < i ==> (#[trigger] a@[k])@ == b@[k]@,
        decreases a.len() - i,
    {
        if a[i] != b[i] {
            proof {
                assert(a@.map_values(|s: String| s@)[i as int] != b@.map_values(|s: String| s@)[i as int]);
            }
            return false;
        }
        i = i + 1;
    }
    assert(a@.map_values(|s: String| s@) =~= b@.map_values(|s: String| s@));
    true
}

fn comps_view(p: &str) -> (r: Vec<String>)
    ensures
        r@.map_values(|s: String| s@) == components(p@),
{
    let c = path_components(p);
    assert(c@.map_values(|s: String| s@) =~= components(p@));
    c
}

/// Whether some project tracks the file at `abs`.
pub fn is_tracked(projects: &Vec<Project>, abs: &str) -> (r: bool)
    ensures
        r == exists|i: int| 0 <= i < projects@.len() && tracked_in(#[trigger] projects@[i], abs@),
{
    let mut i: usize = 0;
    while i < projects.len()
        invariant
            i <= projects@.len(),
            forall|k: int| 0 <= k < i ==> !tracked_in(#[trigger] projects@[k], abs@),
        decreases projects.len() - i,
    {
        let p = &projects[i];
        match strip_prefix_exec(abs, p.root_abs.as_str()) {
            Some(rel) => {
                let rc = comps_view(rel.as_str());
                let mut j: usize = 0;
                while j < p.tracked_files.len()
                    invariant
                        i < projects@.len(),
                        *p == projects@[i as int],
                        strip_prefix(abs@, p.root_abs@) == Some(rel@),
                        j <= p.tracked_files@.len(),
                        rc@.map_values(|s: String| s@) == components(rel@),
                        forall|k: int| 0 <= k < j ==> components(rel@) != components((#[trigger] p.tracked_files@[k])@),
                    decreases p.tracked_files.len() - j,
                {
                    let tc = comps_view(p.tracked_files[j].as_str());
                    if same_components(&rc, &tc) {
                        assert(tracked_in(projects@[i as int], abs@));
                        return true;
                    }
                    j = j + 1;
                }
            },
            None => {},
        }
        i = i + 1;
    }
    false
}

/// A file counts as tracked only when its whole path relative to the project
/// root is a tracked path: as many components as that path, and the same
/// component at every position. Sharing a first directory, or any shorter
/// part, is not enough.
pub proof fn lemma_tracked_means_listed(p: Project, abs: Seq<char>)
    requires
        tracked_in(p, abs),
    ensures
        strip_prefix(abs, p.root_abs@) is Some,
        ({
            let rel = strip_prefix(abs, p.root_abs@).unwrap();
            exists|j: int|
                0 <= j < p.tracked_files@.len() && components(rel).len() == components(
                    #[trigger] p.tracked_files@[j]@,
                ).len() && forall|m: int|
                    0 <= m < components(rel).len() ==> #[trigger] components(rel)[m] == components(
                        p.tracked_files@[j]@,
                    )[m]
        }),
{
    let rel = strip_prefix(abs, p.root_abs@).unwrap();
    let j = choose|j: int|
        0 <= j < p.tracked_files@.len() && components(rel) == components(#[trigger] p.tracked_files@[j]@);
    assert(components(rel).len() == components(p.tracked_files@[j]@).len());
}

/// A file whose path relative to the project root has the components of a
/// tracked path is tracked.
pub proof fn lemma_listed_is_tracked(p: Project, abs: Seq<char>, j: int)
    requires
        0 <= j < p.tracked_files@.len(),
        strip_prefix(abs, p.root_abs@) matches Some(rel) && components(rel) == components(p.tracked_files@[j]@),
    ensures
        tracked_in(p, abs),
{
}

/// A file outside the project root, or whose relative path differs from every
/// tracked path in some component or in length, is not tracked.
pub proof fn lemma_unlisted_not_tracked(p: Project, abs: Seq<char>)
    requires
        strip_prefix(abs, p.root_abs@) matches Some(rel) ==> forall|j: int|
            0 <= j < p.tracked_files@.len() ==> components(rel).len() != components(
                #[trigger] p.tracked_files@[j]@,
            ).len() || exists|m: int|
                0 <= m < components(rel).len() && components(rel)[m] != #[trigger] components(
                    p.tracked_files@[j]@,
                )[m],
    ensures
        !tracked_in(p, abs),
{
    if tracked_in(p, abs) {
        let rel = strip_prefix(abs, p.root_abs@).unwrap();
        let j = choose|j: int|
            0 <= j < p.tracked_files@.len() && components(rel) == components(#[trigger] p.tracked_files@[j]@);
        if components(rel).len() == components(p.tracked_files@[j]@).len() {
            let m = choose|m: int|
                0 <= m < components(rel).len() && components(rel)[m] != #[trigger] components(
                    p.tracked_files@[j]@,
                )[m];
        }
    }
}

/// Fails unless the project root holds a `.git` directory
/// (`git_dir_is_dir`), naming that directory.
pub fn check_git_dir(project_root_abs: &str, git_dir_is_dir: bool) -> (r: Result<(), Error>)
    ensures
        r is Ok <==> git_dir_is_dir,
        r matches Err(e) ==> e matches Error::GitMeta { path, message } && path@ == join_spec(
            project_root_abs@,
            ".git"@,
        ) && message@ == "not a directory"@,
{
    if git_dir_is_dir {
        Ok(())
    } else {
        Err(Error::GitMeta { path: path_join(project_root_abs, ".git"), message: String::from_str("not a directory") })
    }
}

/// The commit a branch points at: the trimmed contents of its ref file when
/// that could be read, else what `packed-refs` (when it could be read) gives.
pub fn resolve_commit(direct: Option<String>, packed: Option<String>, branch: &str) -> (r: Option<String>)
    ensures
        match direct {
            Some(d) => r matches Some(c) && c@ == crate::textlines::trim(d@),
            None => match packed {
                Some(body) => match crate::gitmeta::packed_lookup(
                    crate::textlines::text_lines(body@),
                    "refs/heads/"@ + branch@,
                ) {
                    Some(c) => r matches Some(x) && x@ == c,
                    None => r is None,
                },
                None => r is None,
            },
        },
{
    match direct {
        Some(d) => Some(crate::textlines::trim_str(d.as_str())),
        None => match packed {
            Some(body) => crate::gitmeta::packed_ref_commit(body.as_str(), branch),
            None => None,
        },
    }
}

/// A project from what was read of it: its root (absolute), the backup root,
/// the head, the remotes, the raw `.git/config`, the tracked files and the
/// capture time.
pub fn gather_project(
    project_root_abs: &str,
    archive_root: &str,
    head: GitHead,
    remotes: Vec<GitRemote>,
    config_raw: String,
    tracked_files: Vec<String>,
    captured_at: String,
) -> (r: Project)
    ensures
        r.root_abs@ == project_root_abs@,
        r.root_rel@ == match strip_prefix(project_root_abs@, archive_root@) {
            Some(rest) => rest,
            None => project_root_abs@,
        },
        r.gitmeta.schema_version == SCHEMA_VERSION,
        r.gitmeta.captured_at == captured_at,
        r.gitmeta.project_path@ == project_path_spec(r.root_rel@),
        r.gitmeta.head == head,
        r.gitmeta.remotes == remotes,
        r.gitmeta.config.raw == config_raw,
        r.tracked_files == tracked_files,
{
    let root_rel = crate::paths::relativize(project_root_abs, archive_root);
    let project_path = crate::gitmeta::project_path_for(root_rel.as_str());
    let gitmeta = GitMeta {
        schema_version: SCHEMA_VERSION,
        captured_at,
        project_path,
        head,
        remotes,
        config: GitConfig { raw: config_raw },
    };
    Project { root_abs: project_root_abs.to_owned(), root_rel, gitmeta, tracked_files }
}

} // verus!
