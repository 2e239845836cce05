//! Turning a restored project back into a git repository: the git commands
//! run from its `.gitmeta` sidecar, and the `.git/info/exclude` update that
//! hides the sidecar.
use vstd::prelude::*;
use crate::error::Error;
use crate::gitmeta::{GitMeta, GitRemote};
use crate::paths::{chars_of, join_spec, path_join, char_index, lemma_char_index};
use crate::textlines::{first_text_line, line_bounds, text_lines, trim, trim_end, is_ws};

verus! {

broadcast use vstd::seq::group_seq_axioms;

/// The directory of a project under the destination: the destination itself
/// for the project path `.` or an empty one.
pub open spec fn project_dir_spec(dest: Seq<char>, project_path: Seq<char>) -> Seq<char> {
    if project_path == "."@ || project_path.len() == 0 {
        dest
    } else {
        join_spec(dest, project_path)
    }
}

pub fn project_dir(dest: &str, project_path: &str) -> (r: String)
    ensures
        r@ == project_dir_spec(dest@, project_path@),
{
    if project_path.is_empty() || project_path.to_owned() == String::from_str(".") {
        dest.to_owned()
    } else {
        path_join(dest, project_path)
    }
}

/// One `git -C <project>` invocation: its arguments, and whether its failure
/// is ignored.
#[derive(Debug, Clone)]
pub struct GitStep {
    pub args: Vec<String>,
    pub may_fail: bool,
}

pub type StepModel = (Seq<Seq<char>>, bool);

pub open spec fn views(v: Seq<String>) -> Seq<Seq<char>> {
    v.map_values(|a: String| a@)
}

pub open spec fn step_view(s: GitStep) -> StepModel {
    (views(s.args@), s.may_fail)
}

pub open spec fn steps_view(v: Seq<GitStep>) -> Seq<StepModel> {
    v.map_values(|s: GitStep| step_view(s))
}

/// `git init` with the captured branch as the initial one, unless the
/// project already has a `.git` directory.
pub open spec fn init_steps(branch: Option<Seq<char>>, has_git_dir: bool) -> Seq<StepModel> {
    if has_git_dir {
        Seq::empty()
    } else {
        match branch {
            Some(b) => seq![(seq!["init"@, "-q"@, "-b"@, b], false)],
            None => seq![(seq!["init"@, "-q"@], false)],
        }
    }
}

/// For each remote in order: remove it (a failure is ignored), add it with
/// its fetch URL, and set its push URL when that differs.
pub open spec fn remote_steps(rs: Seq<GitRemote>) -> Seq<StepModel>
    decreases rs.len(),
{
    if rs.len() == 0 {
        Seq::empty()
    } else {
        let r = rs.last();
        remote_steps(rs.drop_last()) + seq![
            (seq!["remote"@, "remove"@, r.name@], true),
            (seq!["remote"@, "add"@, r.name@, r.fetch@], false),
        ] + if r.push@ != r.fetch@ {
            seq![(seq!["remote"@, "set-url"@, "--push"@, r.name@, r.push@], false)]
        } else {
            Seq::empty()
        }
    }
}

/// Pointing HEAD at the captured commit without touching the files: fetch
/// the branch (one commit deep unless the full history is asked for), make
/// the local branch point at it, check it out symbolically and reset the
/// index; for a detached HEAD, fetch the commit and point HEAD at it.
pub open spec fn head_steps(branch: Option<Seq<char>>, commit: Seq<char>, full_history: bool) -> Seq<StepModel> {
    match branch {
        Some(b) => seq![
            (if full_history {
                seq!["fetch"@, "origin"@, b]
            } else {
                seq!["fetch"@, "--depth=1"@, "origin"@, b]
            }, false),
            (seq!["update-ref"@, "refs/heads/"@ + b, "FETCH_HEAD"@], false),
            (seq!["symbolic-ref"@, "HEAD"@, "refs/heads/"@ + b], false),
            (seq!["reset"@, "--quiet"@], false),
        ],
        None => if commit.len() > 0 {
            seq![
                (seq!["fetch"@, "origin"@, commit], false),
                (seq!["update-ref"@, "HEAD"@, "FETCH_HEAD"@], false),
                (seq!["reset"@, "--quiet"@], false),
            ]
        } else {
            Seq::empty()
        },
    }
}

pub open spec fn branch_view(b: Option<String>) -> Option<Seq<char>> {
    match b {
        Some(s) => Some(s@),
        None => None,
    }
}

/// All git commands that rehydrate a project, in order.
pub open spec fn plan_spec(meta: GitMeta, has_git_dir: bool, full_history: bool) -> Seq<StepModel> {
    init_steps(branch_view(meta.head.branch), has_git_dir) + remote_steps(meta.remotes@) + head_steps(
        branch_view(meta.head.branch),
        meta.head.commit@,
        full_history,
    )
}

fn arg(s: &str) -> (r: String)
    ensures
        r@ == s@,
{
    s.to_owned()
}

fn step(args: Vec<String>, may_fail: bool) -> (r: GitStep)
    ensures
        r.args == args,
        r.may_fail == may_fail,
{
    GitStep { args, may_fail }
}

fn push_step(plan: &mut Vec<GitStep>, args: Vec<String>, may_fail: bool)
    ensures
        steps_view(final(plan)@) == steps_view(old(plan)@).push((views(args@), may_fail)),
{
    plan.push(step(args, may_fail));
    assert(steps_view(plan@) =~= steps_view(old(plan)@).push((views(args@), may_fail)));
}

fn prefixed(prefix: &str, s: &String) -> (r: String)
    ensures
        r@ == prefix@ + s@,
{
    let mut out = prefix.to_owned();
    out.append(s.as_str());
    out
}

/// The git commands that rehydrate a project from its sidecar. Fails when
/// the project directory is missing (`project_is_dir` false), naming it.
pub fn rehydrate_plan(
    meta: &GitMeta,
    project: &str,
    project_is_dir: bool,
    has_git_dir: bool,
    full_history: bool,
) -> (r: Result<Vec<GitStep>, Error>)
    ensures
        r is Ok <==> project_is_dir,
        r matches Ok(v) ==> steps_view(v@) == plan_spec(*meta, has_git_dir, full_history),
        r matches Err(e) ==> e matches Error::Restore(m) && m@ == "project dir missing: "@ + project@,
{
    if !project_is_dir {
        let mut m = String::from_str("project dir missing: ");
        m.append(project);
        return Err(Error::Restore(m));
    }
    let mut plan: Vec<GitStep> = Vec::new();
    let ghost b = branch_view(meta.head.branch);
    if !has_git_dir {
        match &meta.head.branch {
            Some(br) => {
                let mut a = vec![arg("init"), arg("-q"), arg("-b")];
                a.push(br.clone());
                assert(views(a@) =~= seq!["init"@, "-q"@, "-b"@, br@]);
                push_step(&mut plan, a, false);
            },
            None => {
                let a = vec![arg("init"), arg("-q")];
                assert(views(a@) =~= seq!["init"@, "-q"@]);
                push_step(&mut plan, a, false);
            },
        }
    }
    assert(steps_view(plan@) =~= init_steps(b, has_git_dir));
    let mut i: usize = 0;
    while i < meta.remotes.len()
        invariant
            i <= meta.remotes@.len(),
            steps_view(plan@) == init_steps(b, has_git_dir) + remote_steps(meta.remotes@.take(i as int)),
        decreases meta.remotes.len() - i,
    {
        let r = &meta.remotes[i];
        let ghost before = steps_view(plan@);
        let mut a1 = vec![arg("remote"), arg("remove")];
        a1.push(r.name.clone());
        assert(views(a1@) =~= seq!["remote"@, "remove"@, r.name@]);
        push_step(&mut plan, a1, true);
        let mut a2 = vec![arg("remote"), arg("add")];
        a2.push(r.name.clone());
        a2.push(r.fetch.clone());
        assert(views(a2@) =~= seq!["remote"@, "add"@, r.name@, r.fetch@]);
        push_step(&mut plan, a2, false);
        if r.push != r.fetch {
            let mut a3 = vec![arg("remote"), arg("set-url"), arg("--push")];
            a3.push(r.name.clone());
            a3.push(r.push.clone());
            assert(views(a3@) =~= seq!["remote"@, "set-url"@, "--push"@, r.name@, r.push@]);
            push_step(&mut plan, a3, false);
        }
        proof {
            let rs = meta.remotes@.take(i + 1);
            assert(rs.drop_last() =~= meta.remotes@.take(i as int));
            assert(rs.last() == *r);
            let tail = seq![
                (seq!["remote"@, "remove"@, r.name@], true),
                (seq!["remote"@, "add"@, r.name@, r.fetch@], false),
            ] + if r.push@ != r.fetch@ {
                seq![(seq!["remote"@, "set-url"@, "--push"@, r.name@, r.push@], false)]
            } else {
                Seq::<StepModel>::empty()
            };
            assert(steps_view(plan@) =~= before + tail);
        }
        i = i + 1;
    }
    assert(meta.remotes@.take(i as int) =~= meta.remotes@);
    let ghost mid = steps_view(plan@);
    match &meta.head.branch {
        Some(br) => {
            let mut f = if full_history {
                vec![arg("fetch"), arg("origin")]
            } else {
                vec![arg("fetch"), arg("--depth=1"), arg("origin")]
            };
            f.push(br.clone());
            assert(views(f@) =~= (if full_history {
                seq!["fetch"@, "origin"@, br@]
            } else {
                seq!["fetch"@, "--depth=1"@, "origin"@, br@]
            }));
            push_step(&mut plan, f, false);
            let mut u = vec![arg("update-ref")];
            u.push(prefixed("refs/heads/", br));
            u.push(String::from_str("FETCH_HEAD"));
            assert(views(u@) =~= seq!["update-ref"@, "refs/heads/"@ + br@, "FETCH_HEAD"@]);
            push_step(&mut plan, u, false);
            let mut s = vec![arg("symbolic-ref"), arg("HEAD")];
            s.push(prefixed("refs/heads/", br));
            assert(views(s@) =~= seq!["symbolic-ref"@, "HEAD"@, "refs/heads/"@ + br@]);
            push_step(&mut plan, s, false);
            let z = vec![arg("reset"), arg("--quiet")];
            assert(views(z@) =~= seq!["reset"@, "--quiet"@]);
            push_step(&mut plan, z, false);
        },
        None => {
            if !meta.head.commit.as_str().is_empty() {
                let mut f = vec![arg("fetch"), arg("origin")];
                f.push(meta.head.commit.clone());
                assert(views(f@) =~= seq!["fetch"@, "origin"@, meta.head.commit@]);
                push_step(&mut plan, f, false);
                let u = vec![arg("update-ref"), arg("HEAD"), arg("FETCH_HEAD")];
                assert(views(u@) =~= seq!["update-ref"@, "HEAD"@, "FETCH_HEAD"@]);
                push_step(&mut plan, u, false);
                let z = vec![arg("reset"), arg("--quiet")];
                assert(views(z@) =~= seq!["reset"@, "--quiet"@]);
                push_step(&mut plan, z, false);
            }
        },
    }
    assert(steps_view(plan@) =~= mid + head_steps(b, meta.head.commit@, full_history));
    Ok(plan)
}

/// For a project on a branch, the plan ends by moving the branch to the
/// fetched commit, pointing HEAD at it and resetting the index quietly, the
/// fetch coming just before; this holds with or without the full history.
pub proof fn lemma_branch_plan_ends_aligned(meta: GitMeta, has_git_dir: bool, full_history: bool)
    requires
        meta.head.branch is Some,
    ensures
        ({
            let b = meta.head.branch.unwrap()@;
            let p = plan_spec(meta, has_git_dir, full_history);
            &&& p.len() >= 4
            &&& p[p.len() - 4].0[0] == "fetch"@
            &&& p[p.len() - 4].0.last() == b
            &&& p[p.len() - 3] == (seq!["update-ref"@, "refs/heads/"@ + b, "FETCH_HEAD"@], false)
            &&& p[p.len() - 2] == (seq!["symbolic-ref"@, "HEAD"@, "refs/heads/"@ + b], false)
            &&& p[p.len() - 1] == (seq!["reset"@, "--quiet"@], false)
        }),
{
}

/// Asking for the full history changes one step only: the fetch loses its
/// `--depth=1`. Every other step, and the number of steps, stay the same.
pub proof fn lemma_full_history_changes_only_fetch(meta: GitMeta, has_git_dir: bool)
    requires
        meta.head.branch is Some,
    ensures
        ({
            let b = meta.head.branch.unwrap()@;
            let shallow = plan_spec(meta, has_git_dir, false);
            let full = plan_spec(meta, has_git_dir, true);
            let f = shallow.len() - 4;
            &&& full.len() == shallow.len()
            &&& forall|i: int| 0 <= i < shallow.len() && i != f ==> #[trigger] full[i] == shallow[i]
            &&& shallow[f] == (seq!["fetch"@, "--depth=1"@, "origin"@, b], false)
            &&& full[f] == (seq!["fetch"@, "origin"@, b], false)
        }),
{
    let b = meta.head.branch.unwrap()@;
    let pre = init_steps(branch_view(meta.head.branch), has_git_dir) + remote_steps(meta.remotes@);
    let shallow = plan_spec(meta, has_git_dir, false);
    let full = plan_spec(meta, has_git_dir, true);
    assert(shallow == pre + head_steps(Some(b), meta.head.commit@, false));
    assert(full == pre + head_steps(Some(b), meta.head.commit@, true));
    assert forall|i: int| 0 <= i < shallow.len() && i != shallow.len() - 4 implies #[trigger] full[i] == shallow[i] by {
        if i < pre.len() {
            assert(full[i] == pre[i]);
            assert(shallow[i] == pre[i]);
        }
    }
}

/// A detached head with a recorded commit is fetched by that commit, made
/// HEAD, and the index reset quietly, as the last three steps.
pub proof fn lemma_detached_plan_ends_aligned(meta: GitMeta, has_git_dir: bool, full_history: bool)
    requires
        meta.head.branch is None,
        meta.head.commit@.len() > 0,
    ensures
        ({
            let p = plan_spec(meta, has_git_dir, full_history);
            &&& p.len() >= 3
            &&& p[p.len() - 3] == (seq!["fetch"@, "origin"@, meta.head.commit@], false)
            &&& p[p.len() - 2] == (seq!["update-ref"@, "HEAD"@, "FETCH_HEAD"@], false)
            &&& p[p.len() - 1] == (seq!["reset"@, "--quiet"@], false)
        }),
{
}

/// Some line of `text`, once trimmed, is `pattern`.
pub open spec fn has_line(text: Seq<char>, pattern: Seq<char>) -> bool {
    exists|i: int| 0 <= i < text_lines(text).len() && trim(#[trigger] text_lines(text)[i]) == pattern
}

/// `existing` with `pattern` added as a line of its own.
pub open spec fn with_line(existing: Seq<char>, pattern: Seq<char>) -> Seq<char> {
    existing + (if existing.len() > 0 && existing.last() != '\n' {
        seq!['\n']
    } else {
        Seq::<char>::empty()
    }) + pattern + seq!['\n']
}

/// The new contents of `.git/info/exclude` that make git ignore `pattern`:
/// nothing to write when some line already holds it, else the pattern added
/// as a line of its own.
pub fn exclude_update(existing: &str, pattern: &str) -> (r: Option<String>)
    ensures
        r is None <==> has_line(existing@, pattern@),
        r matches Some(s) ==> s@ == with_line(existing@, pattern@),
{
    let cs = chars_of(existing);
    let pat = chars_of(pattern);
    let n = cs.len();
    let mut pos: usize = 0;
    let ghost seen: Seq<Seq<char>> = Seq::empty();
    assert(cs@.skip(0) =~= cs@);
    while pos < n
        invariant
            pos <= n,
            n == cs@.len(),
            cs@ == existing@,
            pat@ == pattern@,
            text_lines(existing@) == seen + text_lines(cs@.skip(pos as int)),
            forall|k: int| 0 <= k < seen.len() ==> trim(#[trigger] seen[k]) != pattern@,
        decreases n - pos,
    {
        let (end, next) = line_bounds(&cs, pos);
        let ghost line = cs@.subrange(pos as int, end as int);
        assert(text_lines(cs@.skip(pos as int)) == seq![line] + text_lines(cs@.skip(next as int)));
        let (a, b) = crate::textlines::trim_range(&cs, pos, end);
        if crate::gitmeta::same_chars(&cs, a, b, &pat) {
            proof {
                let all = text_lines(existing@);
                assert(all[seen.len() as int] == line);
            }
            return None;
        }
        proof {
            let old_seen = seen;
            seen = seen.push(line);
            assert(old_seen + (seq![line] + text_lines(cs@.skip(next as int))) =~= seen + text_lines(
                cs@.skip(next as int),
            ));
        }
        pos = next;
    }
    proof {
        assert(cs@.skip(n as int) =~= Seq::<char>::empty());
        assert(seen + Seq::<Seq<char>>::empty() =~= seen);
        if has_line(existing@, pattern@) {
            let i = choose|i: int| 0 <= i < text_lines(existing@).len() && trim(#[trigger] text_lines(existing@)[i]) == pattern@;
            assert(trim(seen[i]) == pattern@);
        }
    }
    let mut next = existing.to_owned();
    if n > 0 && cs[n - 1] != '\n' {
        crate::text::push_char(&mut next, '\n');
    }
    next.append(pattern);
    crate::text::push_char(&mut next, '\n');
    Some(next)
}

proof fn lemma_char_index_at(s: Seq<char>, c: char, i: int)
    requires
        0 <= i < s.len(),
        s[i] == c,
        forall|j: int| 0 <= j < i ==> s[j] != c,
    ensures
        char_index(s, c) == i,
{
    lemma_char_index(s, c);
    let k = char_index(s, c) as int;
    if k < i {
        assert(s[k] == c);
    }
}

/// The lines of a text that ends with a line ending (or is empty), followed
/// by more text, are its lines followed by the lines of the rest.
proof fn lemma_lines_concat(a: Seq<char>, b: Seq<char>)
    requires
        a.len() == 0 || a.last() == '\n',
    ensures
        text_lines(a + b) == text_lines(a) + text_lines(b),
    decreases a.len(),
{
    if a.len() == 0 {
        assert(a + b =~= b);
    } else {
        let s = a + b;
        lemma_char_index(a, '\n');
        let i = char_index(a, '\n') as int;
        if i == a.len() {
            assert(a[a.len() - 1] == '\n');
        }
        assert(i < a.len());
        assert(s[i] == '\n');
        assert forall|j: int| 0 <= j < i implies s[j] != '\n' by {
            assert(s[j] == a[j]);
        }
        lemma_char_index_at(s, '\n', i);
        assert(s.take(i) =~= a.take(i));
        let rest = a.skip(i + 1);
        assert(s.skip(i + 1) =~= rest + b);
        if rest.len() > 0 {
            assert(rest.last() == a.last());
        }
        lemma_lines_concat(rest, b);
        assert(text_lines(a) == seq![first_text_line(a).0] + text_lines(rest));
        assert(text_lines(s) == seq![first_text_line(s).0] + text_lines(rest + b));
    }
}

/// Adding a line to `.git/info/exclude` is done once: after the update the
/// pattern is there, so a second update writes nothing. This holds for a
/// pattern that is its own trim and holds no line ending, as `.gitmeta` is.
pub proof fn lemma_exclude_update_idempotent(existing: Seq<char>, pattern: Seq<char>)
    requires
        trim(pattern) == pattern,
        !pattern.contains('\n'),
    ensures
        has_line(with_line(existing, pattern), pattern),
{
    let sep = if existing.len() > 0 && existing.last() != '\n' {
        seq!['\n']
    } else {
        Seq::<char>::empty()
    };
    let a = existing + sep;
    let b = pattern + seq!['\n'];
    assert(with_line(existing, pattern) =~= a + b);
    if a.len() > 0 {
        assert(a.last() == '\n');
    }
    lemma_lines_concat(a, b);
    assert forall|j: int| 0 <= j < pattern.len() implies b[j] != '\n' by {
        assert(b[j] == pattern[j]);
        if pattern[j] == '\n' {
            assert(pattern.contains('\n'));
        }
    }
    lemma_char_index_at(b, '\n', pattern.len() as int);
    assert(b.take(pattern.len() as int) =~= pattern);
    assert(b.skip(pattern.len() as int + 1) =~= Seq::<char>::empty());
    if pattern.len() > 0 && pattern.last() == '\r' {
        assert(is_ws('\r'));
        lemma_trim_changes_ws_end(pattern);
    }
    assert(first_text_line(b).0 == pattern);
    assert(first_text_line(b).1 =~= Seq::<char>::empty());
    assert(text_lines(b) == seq![first_text_line(b).0] + text_lines(first_text_line(b).1));
    assert(text_lines(b) =~= seq![pattern]);
    let all = text_lines(a + b);
    assert(all[text_lines(a).len() as int] == pattern);
}

proof fn lemma_trim_end_drops_ws(s: Seq<char>)
    requires
        s.len() > 0,
        is_ws(s.last()),
    ensures
        trim_end(s).len() < s.len(),
    decreases s.len(),
{
    lemma_trim_end_len(s.drop_last());
}

proof fn lemma_trim_end_len(s: Seq<char>)
    ensures
        trim_end(s).len() <= s.len(),
    decreases s.len(),
{
    if s.len() > 0 && is_ws(s.last()) {
        lemma_trim_end_len(s.drop_last());
    }
}

/// Trimming a string that ends in whitespace changes it.
proof fn lemma_trim_changes_ws_end(s: Seq<char>)
    requires
        s.len() > 0,
        is_ws(s.last()),
    ensures
        trim(s) != s,
{
    crate::textlines::lemma_trim_start_len(s);
    let t = crate::textlines::trim_start(s);
    if t.len() == s.len() {
        assert(t =~= s) by {
            lemma_trim_start_suffix(s);
        }
        lemma_trim_end_drops_ws(s);
    } else {
        lemma_trim_end_len(t);
    }
}

proof fn lemma_trim_start_suffix(s: Seq<char>)
    ensures
        crate::textlines::trim_start(s) == s.skip(s.len() - crate::textlines::trim_start(s).len()),
    decreases s.len(),
{
    crate::textlines::lemma_trim_start_len(s);
    if s.len() > 0 && is_ws(s[0]) {
        lemma_trim_start_suffix(s.drop_first());
        crate::textlines::lemma_trim_start_len(s.drop_first());
        let t = crate::textlines::trim_start(s.drop_first());
        assert(s.drop_first().skip(s.drop_first().len() - t.len()) =~= s.skip(s.len() - t.len()));
    } else {
        assert(s.skip(0) =~= s);
    }
}

} // verus!
