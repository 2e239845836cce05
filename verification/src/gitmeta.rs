//! The `.gitmeta` sidecar of a git project: what is captured about the
//! repository, and how the text that git leaves in `.git` and prints is read.
use crate::excludes::starts_with_chars;
use crate::paths::{chars_of, components, is_prefix, strip_prefix, strip_prefix_exec};
use crate::text::string_of_range;
use crate::textlines::{first_text_line, line_bounds, text_lines, trim, word_ranges, words};
use vstd::prelude::*;

verus! {

broadcast use vstd::seq::group_seq_axioms;

/// Version of the sidecar format.
pub const SCHEMA_VERSION: u32 = 1;

/// Name of the sidecar file at a project's root.
pub const GITMETA_NAME: &'static str = ".gitmeta";

#[derive(Debug, Clone)]
pub struct GitMeta {
    pub schema_version: u32,
    pub captured_at: String,
    pub project_path: String,
    pub head: GitHead,
    pub remotes: Vec<GitRemote>,
    pub config: GitConfig,
}

#[derive(Debug, Clone)]
pub struct GitHead {
    pub branch: Option<String>,
    pub detached: bool,
    pub commit: String,
}

#[derive(Debug, Clone)]
pub struct GitRemote {
    pub name: String,
    pub fetch: String,
    pub push: String,
}

#[derive(Debug, Clone)]
pub struct GitConfig {
    pub raw: String,
}

/// The branch named by the contents of `.git/HEAD`: after trimming, a
/// symbolic ref `ref: refs/heads/<branch>`.
pub open spec fn head_branch_spec(raw: Seq<char>) -> Option<Seq<char>> {
    let t = trim(raw);
    if starts_with_chars(t, "ref: refs/heads/"@) {
        Some(t.skip(16))
    } else {
        None
    }
}

/// The branch `.git/HEAD` points at, if it points at one.
pub fn head_branch(raw: &str) -> (r: Option<String>)
    ensures
        r matches Some(b) ==> head_branch_spec(raw@) == Some(b@),
        r is None ==> head_branch_spec(raw@) is None,
{
    let t = crate::textlines::trim_str(raw);
    let prefix = "ref: refs/heads/";
    proof {
        reveal_strlit("ref: refs/heads/");
        assert(prefix@ =~= "ref: refs/heads/"@);
    }
    let cs = chars_of(t.as_str());
    let pc = chars_of(prefix);
    if cs.len() < pc.len() {
        assert(pc@.len() == 16);
        return None;
    }
    let mut i: usize = 0;
    while i < pc.len()
        invariant
            i <= pc@.len() <= cs@.len(),
            pc@ == prefix@,
            pc@ == "ref: refs/heads/"@,
            cs@ == t@,
            t@ == trim(raw@),
            forall|k: int| 0 <= k < i ==> cs@[k] == pc@[k],
        decreases pc.len() - i,
    {
        if cs[i] != pc[i] {
            assert(cs@.take(pc@.len() as int)[i as int] == cs@[i as int]);
            return None;
        }
        i = i + 1;
    }
    assert(cs@.take(pc@.len() as int) =~= pc@);
    Some(string_of_range(cs.as_slice(), pc.len(), cs.len()))
}

/// The head recorded for a project: on a branch, the branch and the commit
/// that the branch was resolved to (empty when it could not be); else
/// detached at the trimmed contents of `.git/HEAD`.
pub open spec fn head_matches(h: GitHead, raw: Seq<char>, resolved: Option<Seq<char>>) -> bool {
    match head_branch_spec(raw) {
        Some(b) => {
            &&& h.branch matches Some(hb) && hb@ == b
            &&& !h.detached
            &&& h.commit@ == match resolved {
                Some(c) => c,
                None => Seq::<char>::empty(),
            }
        },
        None => {
            &&& h.branch is None
            &&& h.detached
            &&& h.commit@ == trim(raw)
        },
    }
}

/// Builds the recorded head from `.git/HEAD` and, when it names a branch, the
/// commit that branch resolved to.
pub fn git_head(raw: &str, resolved_commit: Option<String>) -> (r: GitHead)
    ensures
        head_matches(r, raw@, match resolved_commit {
            Some(c) => Some(c@),
            None => None,
        }),
{
    match head_branch(raw) {
        Some(b) => {
            let commit = match resolved_commit {
                Some(c) => c,
                None => String::new(),
            };
            GitHead { branch: Some(b), detached: false, commit }
        },
        None => GitHead { branch: None, detached: true, commit: crate::textlines::trim_str(raw) },
    }
}

/// A `packed-refs` line that may hold a ref: not a comment (`#`) and not a
/// peeled line (`^`).
pub open spec fn ref_line(l: Seq<char>) -> bool {
    !(l.len() > 0 && (l[0] == '#' || l[0] == '^'))
}

/// The commit of the first ref line whose second word is `target`.
pub open spec fn packed_lookup(lines: Seq<Seq<char>>, target: Seq<char>) -> Option<Seq<char>>
    decreases lines.len(),
{
    if lines.len() == 0 {
        None
    } else {
        let l = lines[0];
        let w = words(l);
        if ref_line(l) && w.len() >= 2 && w[1] == target {
            Some(w[0])
        } else {
            packed_lookup(lines.drop_first(), target)
        }
    }
}

pub(crate) fn same_chars(cs: &Vec<char>, a: usize, b: usize, t: &Vec<char>) -> (r: bool)
    requires
        a <= b <= cs@.len(),
    ensures
        r == (cs@.subrange(a as int, b as int) == t@),
{
    if b - a != t.len() {
        return false;
    }
    let mut i: usize = 0;
    while i < t.len()
        invariant
            i <= t@.len(),
            b - a == t@.len(),
            a <= b <= cs@.len(),
            forall|k: int| 0 <= k < i ==> cs@[a + k] == t@[k],
        decreases t.len() - i,
    {
        if cs[a + i] != t[i] {
            assert(cs@.subrange(a as int, b as int)[i as int] == cs@[a + i]);
            return false;
        }
        i = i + 1;
    }
    assert(cs@.subrange(a as int, b as int) =~= t@);
    true
}

/// The commit that `packed-refs` gives for `refs/heads/<branch>`.
pub fn packed_ref_commit(body: &str, branch: &str) -> (r: Option<String>)
    ensures
        r matches Some(c) ==> packed_lookup(text_lines(body@), "refs/heads/"@ + branch@) == Some(c@),
        r is None ==> packed_lookup(text_lines(body@), "refs/heads/"@ + branch@) is None,
{
    let mut target = String::from_str("refs/heads/");
    target.append(branch);
    proof {
        reveal_strlit("refs/heads/");
    }
    let tc = chars_of(target.as_str());
    let cs = chars_of(body);
    let n = cs.len();
    let mut pos: usize = 0;
    let ghost tgt = "refs/heads/"@ + branch@;
    assert(cs@.skip(0) =~= cs@);
    while pos < n
        invariant
            pos <= n,
            n == cs@.len(),
            cs@ == body@,
            tc@ == tgt,
            tgt == "refs/heads/"@ + branch@,
            packed_lookup(text_lines(body@), tgt) == packed_lookup(text_lines(cs@.skip(pos as int)), tgt),
        decreases n - pos,
    {
        let (end, next) = line_bounds(&cs, pos);
        let ghost line = cs@.subrange(pos as int, end as int);
        assert(text_lines(cs@.skip(pos as int)) == seq![line] + text_lines(cs@.skip(next as int)));
        assert((seq![line] + text_lines(cs@.skip(next as int))).drop_first() =~= text_lines(cs@.skip(next as int)));
        let is_ref = !(end > pos && (cs[pos] == '#' || cs[pos] == '^'));
        assert(is_ref == ref_line(line)) by {
            if end > pos {
                assert(line[0] == cs@[pos as int]);
            }
        }
        if is_ref {
            let w = word_ranges(&cs, pos, end);
            if w.len() >= 2 && same_chars(&cs, w[1].0, w[1].1, &tc) {
                let sha = string_of_range(cs.as_slice(), w[0].0, w[0].1);
                proof {
                    assert(w@[0].0 <= w@[0].1 <= end);
                    assert(w@[1].0 <= w@[1].1 <= end);
                    let ws = words(line);
                    assert(ws[1] == tgt);
                    assert(sha@ == ws[0]);
                    let tl = text_lines(cs@.skip(pos as int));
                    assert(tl[0] == line);
                    assert(packed_lookup(tl, tgt) == Some(ws[0]));
                }
                return Some(sha);
            }
        }
        pos = next;
    }
    assert(cs@.skip(n as int) =~= Seq::<char>::empty());
    None
}

/// The project path recorded in the sidecar: the project root relative to
/// the backup root, or `.` for the backup root itself.
pub open spec fn project_path_spec(root_rel: Seq<char>) -> Seq<char> {
    if root_rel.len() == 0 {
        "."@
    } else {
        root_rel
    }
}

pub fn project_path_for(root_rel: &str) -> (r: String)
    ensures
        r@ == project_path_spec(root_rel@),
{
    if root_rel.is_empty() {
        String::from_str(".")
    } else {
        root_rel.to_owned()
    }
}

/// The archive name of a project's sidecar: `.gitmeta` at the project root.
pub open spec fn gitmeta_entry_name_spec(root_rel: Seq<char>) -> Seq<char> {
    if root_rel.len() == 0 {
        ".gitmeta"@
    } else {
        root_rel + "/.gitmeta"@
    }
}

pub fn gitmeta_entry_name(root_rel: &str) -> (r: String)
    ensures
        r@ == gitmeta_entry_name_spec(root_rel@),
{
    if root_rel.is_empty() {
        String::from_str(".gitmeta")
    } else {
        let mut s = root_rel.to_owned();
        s.append("/.gitmeta");
        s
    }
}

} // verus!

verus! {

/// Strict lexicographic order of strings by code point, the order of
/// `String::cmp`.
pub open spec fn chars_lt(a: Seq<char>, b: Seq<char>) -> bool
    decreases a.len(),
{
    if b.len() == 0 {
        false
    } else if a.len() == 0 {
        true
    } else if (a[0] as u32) < (b[0] as u32) {
        true
    } else if (a[0] as u32) > (b[0] as u32) {
        false
    } else {
        chars_lt(a.drop_first(), b.drop_first())
    }
}

proof fn lemma_chars_lt_irrefl(a: Seq<char>)
    ensures
        !chars_lt(a, a),
    decreases a.len(),
{
    if a.len() > 0 {
        lemma_chars_lt_irrefl(a.drop_first());
    }
}

proof fn lemma_chars_lt_trans(a: Seq<char>, b: Seq<char>, c: Seq<char>)
    requires
        chars_lt(a, b),
        chars_lt(b, c),
    ensures
        chars_lt(a, c),
    decreases a.len(),
{
    if a.len() > 0 && b.len() > 0 && c.len() > 0 && a[0] as u32 == b[0] as u32 && b[0] as u32 == c[0] as u32 {
        lemma_chars_lt_trans(a.drop_first(), b.drop_first(), c.drop_first());
    }
}

proof fn lemma_chars_lt_total(a: Seq<char>, b: Seq<char>)
    requires
        a != b,
    ensures
        chars_lt(a, b) || chars_lt(b, a),
    decreases a.len(),
{
    if a.len() > 0 && b.len() > 0 {
        vstd::utf8::char_u32_cast(a[0], a[0] as u32);
        vstd::utf8::char_u32_cast(b[0], b[0] as u32);
        if a[0] as u32 == b[0] as u32 {
            assert(a[0] == b[0]);
            if a.drop_first() == b.drop_first() {
                assert(a =~= seq![a[0]] + a.drop_first());
                assert(b =~= seq![b[0]] + b.drop_first());
            }
            lemma_chars_lt_total(a.drop_first(), b.drop_first());
        }
    } else if a.len() == 0 && b.len() == 0 {
        assert(a =~= b);
    }
}

fn chars_lt_exec(a: &Vec<char>, b: &Vec<char>) -> (r: bool)
    ensures
        r == chars_lt(a@, b@),
{
    let mut i: usize = 0;
    assert(a@.skip(0) =~= a@);
    assert(b@.skip(0) =~= b@);
    while i < a.len() && i < b.len()
        invariant
            i <= a@.len(),
            i <= b@.len(),
            chars_lt(a@, b@) == chars_lt(a@.skip(i as int), b@.skip(i as int)),
        decreases a.len() - i,
    {
        let x = a[i] as u32;
        let y = b[i] as u32;
        if x < y {
            return true;
        }
        if x > y {
            return false;
        }
        assert(a@.skip(i as int).drop_first() =~= a@.skip(i + 1));
        assert(b@.skip(i as int).drop_first() =~= b@.skip(i + 1));
        i = i + 1;
    }
    i == a.len() && i < b.len()
}

/// `s` holds `t` as a contiguous part.
pub open spec fn contains_seq(s: Seq<char>, t: Seq<char>) -> bool {
    exists|i: int| 0 <= i && i + t.len() <= s.len() && #[trigger] s.subrange(i, i + t.len()) == t
}

fn contains_exec(s: &Vec<char>, a: usize, b: usize, t: &Vec<char>) -> (r: bool)
    requires
        a <= b <= s@.len(),
    ensures
        r == contains_seq(s@.subrange(a as int, b as int), t@),
{
    let ghost sub = s@.subrange(a as int, b as int);
    let m = t.len();
    if m > b - a {
        return false;
    }
    let limit = (b - a) - m;
    let mut i: usize = 0;
    while i <= limit
        invariant
            a <= b <= s@.len(),
            m == t@.len(),
            limit == (b - a) - m,
            i <= limit,
            sub == s@.subrange(a as int, b as int),
            forall|k: int| 0 <= k < i ==> #[trigger] sub.subrange(k, k + m) != t@,
        decreases limit - i,
    {
        assert(sub.subrange(i as int, i + m) =~= s@.subrange(a + i, a + i + m));
        if same_chars(s, a + i, a + i + m, t) {
            return true;
        }
        if i == limit {
            return false;
        }
        i = i + 1;
    }
    false
}

/// The kind word of a `git remote -v` line; `(fetch)` when there is none.
pub open spec fn remote_kind(w: Seq<Seq<char>>) -> Seq<char> {
    if w.len() >= 3 {
        w[2]
    } else {
        "(fetch)"@
    }
}

/// The remotes after one line of `git remote -v`: a line with a name and a
/// URL sets the fetch URL (kind containing `fetch`) or the push URL (kind
/// containing `push`) of that remote, which it creates with empty URLs when
/// it is new.
pub open spec fn apply_remote_line(
    m: Map<Seq<char>, (Seq<char>, Seq<char>)>,
    line: Seq<char>,
) -> Map<Seq<char>, (Seq<char>, Seq<char>)> {
    let w = words(line);
    if w.len() < 2 {
        m
    } else {
        let e = if m.contains_key(w[0]) {
            m[w[0]]
        } else {
            (Seq::<char>::empty(), Seq::<char>::empty())
        };
        let k = remote_kind(w);
        m.insert(
            w[0],
            if contains_seq(k, "fetch"@) {
                (w[1], e.1)
            } else if contains_seq(k, "push"@) {
                (e.0, w[1])
            } else {
                e
            },
        )
    }
}

/// The remotes after all lines, in order.
pub open spec fn remote_map(lines: Seq<Seq<char>>) -> Map<Seq<char>, (Seq<char>, Seq<char>)>
    decreases lines.len(),
{
    if lines.len() == 0 {
        Map::empty()
    } else {
        apply_remote_line(remote_map(lines.drop_last()), lines.last())
    }
}

/// Rows (name, fetch, push) sorted strictly by name that list exactly the
/// remotes of `m`.
pub open spec fn rows_model(rows: Seq<(Seq<char>, Seq<char>, Seq<char>)>, m: Map<Seq<char>, (Seq<char>, Seq<char>)>) -> bool {
    &&& forall|i: int, j: int| 0 <= i < j < rows.len() ==> chars_lt(#[trigger] rows[i].0, #[trigger] rows[j].0)
    &&& forall|i: int| 0 <= i < rows.len() ==> m.contains_key(#[trigger] rows[i].0) && m[rows[i].0] == (rows[i].1, rows[i].2)
    &&& forall|k: Seq<char>| m.contains_key(k) ==> exists|i: int| 0 <= i < rows.len() && #[trigger] rows[i].0 == k
}

pub open spec fn row_view(r: (String, String, String)) -> (Seq<char>, Seq<char>, Seq<char>) {
    (r.0@, r.1@, r.2@)
}

proof fn lemma_lt_ne(a: Seq<char>, b: Seq<char>)
    requires
        chars_lt(a, b),
    ensures
        a != b,
{
    if a == b {
        lemma_chars_lt_irrefl(a);
    }
}

pub open spec fn rows_of(v: Seq<(String, String, String)>) -> Seq<(Seq<char>, Seq<char>, Seq<char>)> {
    v.map_values(|r: (String, String, String)| row_view(r))
}

/// The URLs a line leaves for a remote whose URLs were `e`.
pub open spec fn updated_urls(e: (Seq<char>, Seq<char>), kind: Seq<char>, url: Seq<char>) -> (Seq<char>, Seq<char>) {
    if contains_seq(kind, "fetch"@) {
        (url, e.1)
    } else if contains_seq(kind, "push"@) {
        (e.0, url)
    } else {
        e
    }
}

fn urls_after(e0: String, e1: String, is_fetch: bool, is_push: bool, url: String) -> (r: (String, String))
    ensures
        r.0@ == (if is_fetch { url@ } else { e0@ }),
        r.1@ == (if is_fetch { e1@ } else if is_push { url@ } else { e1@ }),
{
    if is_fetch {
        (url, e1)
    } else if is_push {
        (e0, url)
    } else {
        (e0, e1)
    }
}

/// Records one line of `git remote -v` in the sorted rows.
fn apply_line_exec(
    rows: &mut Vec<(String, String, String)>,
    cs: &Vec<char>,
    pos: usize,
    end: usize,
    Ghost(m): Ghost<Map<Seq<char>, (Seq<char>, Seq<char>)>>,
)
    requires
        pos <= end <= cs@.len(),
        rows_model(rows_of(old(rows)@), m),
    ensures
        rows_model(rows_of(final(rows)@), apply_remote_line(m, cs@.subrange(pos as int, end as int))),
{
    let ghost line = cs@.subrange(pos as int, end as int);
    let w = word_ranges(cs, pos, end);
    if w.len() < 2 {
        return;
    }
    let ghost ws = words(line);
    assert(w@[0].0 <= w@[0].1 <= end);
    assert(w@[1].0 <= w@[1].1 <= end);
    let name = string_of_range(cs.as_slice(), w[0].0, w[0].1);
    let url = string_of_range(cs.as_slice(), w[1].0, w[1].1);
    let fetch_word = chars_of("fetch");
    let push_word = chars_of("push");
    let (is_fetch, is_push) = if w.len() >= 3 {
        assert(w@[2].0 <= w@[2].1 <= end);
        (contains_exec(cs, w[2].0, w[2].1, &fetch_word), contains_exec(cs, w[2].0, w[2].1, &push_word))
    } else {
        let dk = chars_of("(fetch)");
        (contains_exec(&dk, 0, dk.len(), &fetch_word), contains_exec(&dk, 0, dk.len(), &push_word))
    };
    proof {
        let k = remote_kind(ws);
        if w@.len() >= 3 {
            assert(k == cs@.subrange(w@[2].0 as int, w@[2].1 as int));
        } else {
            assert(k =~= "(fetch)"@.subrange(0, "(fetch)"@.len() as int));
        }
        assert(is_fetch == contains_seq(k, "fetch"@));
        assert(is_push == contains_seq(k, "push"@));
    }
    let name_chars = chars_of(name.as_str());
    let mut i: usize = 0;
    while i < rows.len()
        invariant
            i <= rows@.len(),
            rows@ == old(rows)@,
            name_chars@ == name@,
            forall|j: int| 0 <= j < i ==> chars_lt(#[trigger] rows@[j].0@, name@),
        ensures
            i < rows@.len() ==> !chars_lt(rows@[i as int].0@, name@),
        decreases rows.len() - i,
    {
        let rc = chars_of(rows[i].0.as_str());
        if !chars_lt_exec(&rc, &name_chars) {
            break;
        }
        i = i + 1;
    }
    let ghost rv = rows_of(rows@);
    assert(forall|j: int| 0 <= j < rv.len() ==> #[trigger] rv[j] == row_view(rows@[j]));
    let found = i < rows.len() && rows[i].0 == name;
    if found {
        let ghost e = m[name@];
        assert(rv[i as int].0 == name@);
        let f0 = rows[i].1.clone();
        let p0 = rows[i].2.clone();
        let (nf, np) = urls_after(f0, p0, is_fetch, is_push, url);
        rows.set(i, (name, nf, np));
        proof {
            let m2 = apply_remote_line(m, line);
            assert(m.contains_key(name@));
            assert(m2 == m.insert(name@, updated_urls(e, remote_kind(ws), ws[1])));
            let nv = rows_of(rows@);
            assert forall|a: int, b: int| 0 <= a < b < nv.len() implies chars_lt(#[trigger] nv[a].0, #[trigger] nv[b].0) by {
                assert(nv[a].0 == rv[a].0);
                assert(nv[b].0 == rv[b].0);
            }
            assert forall|a: int| 0 <= a < nv.len() implies m2.contains_key(#[trigger] nv[a].0) && m2[nv[a].0] == (nv[a].1, nv[a].2) by {
                if a != i {
                    assert(nv[a] == rv[a]);
                    if a < i {
                        lemma_lt_ne(rv[a].0, rv[i as int].0);
                    } else {
                        lemma_lt_ne(rv[i as int].0, rv[a].0);
                    }
                }
            }
            assert forall|k: Seq<char>| m2.contains_key(k) implies exists|a: int| 0 <= a < nv.len() && #[trigger] nv[a].0 == k by {
                if k != name@ {
                    let a = choose|a: int| 0 <= a < rv.len() && #[trigger] rv[a].0 == k;
                    assert(nv[a].0 == k);
                } else {
                    assert(nv[i as int].0 == k);
                }
            }
        }
    } else {
        let ghost e = (Seq::<char>::empty(), Seq::<char>::empty());
        proof {
            if m.contains_key(name@) {
                let j = choose|j: int| 0 <= j < rv.len() && #[trigger] rv[j].0 == name@;
                if j < i {
                    lemma_chars_lt_irrefl(name@);
                } else if j > i {
                    assert(chars_lt(rv[i as int].0, rv[j].0));
                }
            }
            assert(!m.contains_key(name@));
        }
        let (nf, np) = urls_after(String::new(), String::new(), is_fetch, is_push, url);
        let ghost row = (name@, nf@, np@);
        rows.insert(i, (name, nf, np));
        proof {
            let m2 = apply_remote_line(m, line);
            assert(m2 == m.insert(name@, updated_urls(e, remote_kind(ws), ws[1])));
            let nv = rows_of(rows@);
            assert(nv =~= rv.insert(i as int, row));
            if i < rv.len() {
                lemma_chars_lt_total(rv[i as int].0, name@);
                assert(chars_lt(name@, rv[i as int].0));
            }
            assert forall|a: int, b: int| 0 <= a < b < nv.len() implies chars_lt(#[trigger] nv[a].0, #[trigger] nv[b].0) by {
                if b < i {
                } else if b == i {
                    assert(nv[a].0 == rv[a].0);
                } else if a == i {
                    assert(nv[b].0 == rv[b - 1].0);
                    if b - 1 > i {
                        lemma_chars_lt_trans(name@, rv[i as int].0, rv[b - 1].0);
                    }
                } else if a < i {
                    assert(nv[b].0 == rv[b - 1].0);
                    assert(nv[a].0 == rv[a].0);
                } else {
                    assert(nv[b].0 == rv[b - 1].0);
                    assert(nv[a].0 == rv[a - 1].0);
                }
            }
            assert forall|a: int| 0 <= a < nv.len() implies m2.contains_key(#[trigger] nv[a].0) && m2[nv[a].0] == (nv[a].1, nv[a].2) by {
                if a < i {
                    assert(nv[a] == rv[a]);
                    assert(m.contains_key(rv[a].0));
                } else if a > i {
                    assert(nv[a] == rv[a - 1]);
                    assert(m.contains_key(rv[a - 1].0));
                }
            }
            assert forall|k: Seq<char>| m2.contains_key(k) implies exists|a: int| 0 <= a < nv.len() && #[trigger] nv[a].0 == k by {
                if k != name@ {
                    let a = choose|a: int| 0 <= a < rv.len() && #[trigger] rv[a].0 == k;
                    if a < i {
                        assert(nv[a].0 == k);
                    } else {
                        assert(nv[a + 1].0 == k);
                    }
                } else {
                    assert(nv[i as int].0 == k);
                }
            }
        }
    }
}

/// The remotes listed by `git remote -v`, sorted by name, each with its fetch
/// URL and its push URL (the fetch URL when no push URL was listed).
pub fn parse_remotes(text: &str) -> (r: Vec<GitRemote>)
    ensures
        ({
            let m = remote_map(text_lines(text@));
            &&& forall|i: int, j: int| 0 <= i < j < r@.len() ==> chars_lt(#[trigger] r@[i].name@, #[trigger] r@[j].name@)
            &&& forall|i: int| 0 <= i < r@.len() ==> m.contains_key(#[trigger] r@[i].name@)
                && r@[i].fetch@ == m[r@[i].name@].0
                && r@[i].push@ == (if m[r@[i].name@].1.len() == 0 { m[r@[i].name@].0 } else { m[r@[i].name@].1 })
            &&& forall|k: Seq<char>| m.contains_key(k) ==> exists|i: int| 0 <= i < r@.len() && #[trigger] r@[i].name@ == k
        }),
{
    let cs = chars_of(text);
    let n = cs.len();
    let mut rows: Vec<(String, String, String)> = Vec::new();
    let mut pos: usize = 0;
    let ghost done: Seq<Seq<char>> = Seq::empty();
    assert(cs@.skip(0) =~= cs@);
    while pos < n
        invariant
            pos <= n,
            n == cs@.len(),
            cs@ == text@,
            text_lines(text@) == done + text_lines(cs@.skip(pos as int)),
            rows_model(rows_of(rows@), remote_map(done)),
        decreases n - pos,
    {
        let (end, next) = line_bounds(&cs, pos);
        let ghost line = cs@.subrange(pos as int, end as int);
        assert(text_lines(cs@.skip(pos as int)) == seq![line] + text_lines(cs@.skip(next as int)));
        apply_line_exec(&mut rows, &cs, pos, end, Ghost(remote_map(done)));
        proof {
            let old_done = done;
            done = done.push(line);
            assert(done.drop_last() =~= old_done);
            assert(old_done + (seq![line] + text_lines(cs@.skip(next as int))) =~= done + text_lines(cs@.skip(next as int)));
        }
        pos = next;
    }
    assert(cs@.skip(n as int) =~= Seq::<char>::empty());
    assert(done + Seq::<Seq<char>>::empty() =~= done);
    let ghost m = remote_map(done);
    let ghost rv = rows_of(rows@);
    let mut out: Vec<GitRemote> = Vec::new();
    let mut i: usize = 0;
    while i < rows.len()
        invariant
            i <= rows@.len(),
            rv == rows_of(rows@),
            rows_model(rv, m),
            out@.len() == i,
            forall|j: int| 0 <= j < i ==> #[trigger] out@[j].name@ == rv[j].0 && out@[j].fetch@ == rv[j].1
                && out@[j].push@ == (if rv[j].2.len() == 0 { rv[j].1 } else { rv[j].2 }),
        decreases rows.len() - i,
    {
        let name = rows[i].0.clone();
        let fetch = rows[i].1.clone();
        let push = if rows[i].2.as_str().is_empty() { rows[i].1.clone() } else { rows[i].2.clone() };
        assert(rv[i as int] == row_view(rows@[i as int]));
        out.push(GitRemote { name, fetch, push });
        i = i + 1;
    }
    proof {
        assert forall|a: int, b: int| 0 <= a < b < out@.len() implies chars_lt(#[trigger] out@[a].name@, #[trigger] out@[b].name@) by {
            assert(out@[a].name@ == rv[a].0);
            assert(out@[b].name@ == rv[b].0);
        }
        assert forall|k: Seq<char>| m.contains_key(k) implies exists|a: int| 0 <= a < out@.len() && #[trigger] out@[a].name@ == k by {
            let a = choose|a: int| 0 <= a < rv.len() && #[trigger] rv[a].0 == k;
            assert(out@[a].name@ == k);
        }
    }
    out
}

} // verus!
