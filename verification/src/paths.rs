//! Paths as text: the components of a path (the rules of `std::path` on
//! Unix) and the path rules of backup and restore.
use crate::error::Error;
use vstd::prelude::*;

verus! {

broadcast use vstd::seq::group_seq_axioms;

/// The characters of a string.
pub fn chars_of(s: &str) -> (r: Vec<char>)
    ensures
        r@ == s@,
{
    let mut out: Vec<char> = Vec::new();
    for c in it: s.chars()
        invariant
            out@ == it.seq().take(it.index() as int),
    {
        out.push(c);
    }
    out
}

} // verus!

verus! {

/// The index of the first `c` in `s`, or the length of `s`.
pub open spec fn char_index(s: Seq<char>, c: char) -> nat
    decreases s.len(),
{
    if s.len() == 0 {
        0
    } else if s[0] == c {
        0
    } else {
        1 + char_index(s.drop_first(), c)
    }
}

pub proof fn lemma_char_index(s: Seq<char>, c: char)
    ensures
        char_index(s, c) <= s.len(),
        char_index(s, c) < s.len() ==> s[char_index(s, c) as int] == c,
        forall|j: int| 0 <= j < char_index(s, c) ==> s[j] != c,
    decreases s.len(),
{
    if s.len() > 0 && s[0] != c {
        lemma_char_index(s.drop_first(), c);
        assert forall|j: int| 0 <= j < char_index(s, c) implies s[j] != c by {
            if j > 0 {
                assert(s[j] == s.drop_first()[j - 1]);
            }
        }
    }
}

/// The pieces of `s` between slashes (one empty piece for the empty string).
pub open spec fn split_slash(s: Seq<char>) -> Seq<Seq<char>>
    decreases s.len(),
{
    proof {
        lemma_char_index(s, '/');
    }
    let i = char_index(s, '/');
    if i == s.len() {
        seq![s]
    } else {
        seq![s.take(i as int)] + split_slash(s.skip(i as int + 1))
    }
}

/// The components named by pieces after the first: empty pieces and `.` name
/// nothing; every other piece is a component (`..` is the parent component).
pub open spec fn body_components(ps: Seq<Seq<char>>) -> Seq<Seq<char>>
    decreases ps.len(),
{
    if ps.len() == 0 {
        Seq::empty()
    } else if ps[0].len() == 0 || ps[0] == seq!['.'] {
        body_components(ps.drop_first())
    } else {
        seq![ps[0]] + body_components(ps.drop_first())
    }
}

/// The components of a path, as `Path::components` yields them on Unix,
/// each written as its text: a leading `/` is the root component `/`, a
/// leading `.` piece is the current-directory component `.`, repeated and
/// trailing slashes and inner `.` pieces are dropped, `..` is kept.
pub open spec fn components(s: Seq<char>) -> Seq<Seq<char>> {
    let ps = split_slash(s);
    if s.len() > 0 && s[0] == '/' {
        seq![seq!['/']] + body_components(ps.drop_first())
    } else if ps[0] == seq!['.'] {
        seq![seq!['.']] + body_components(ps.drop_first())
    } else {
        body_components(ps)
    }
}

proof fn lemma_split_slash_nonempty(s: Seq<char>)
    ensures
        split_slash(s).len() >= 1,
        s.len() > 0 && s[0] == '/' ==> split_slash(s)[0].len() == 0,
    decreases s.len(),
{
    lemma_char_index(s, '/');
}

/// The pieces of `cs` between slashes.
fn split_pieces(cs: &Vec<char>) -> (r: Vec<Vec<char>>)
    ensures
        r@.len() == split_slash(cs@).len(),
        forall|i: int| 0 <= i < r@.len() ==> #[trigger] r@[i]@ == split_slash(cs@)[i],
{
    let n = cs.len();
    let mut out: Vec<Vec<char>> = Vec::new();
    let mut cur: Vec<char> = Vec::new();
    let mut i: usize = 0;
    let ghost start: int = 0;
    let ghost done: Seq<Seq<char>> = Seq::empty();
    assert(cs@.skip(0) =~= cs@);
    while i < n
        invariant
            n == cs@.len(),
            0 <= start <= i <= n,
            cur@ == cs@.subrange(start, i as int),
            forall|j: int| start <= j < i ==> cs@[j] != '/',
            out@.len() == done.len(),
            forall|k: int| 0 <= k < done.len() ==> #[trigger] out@[k]@ == done[k],
            split_slash(cs@) == done + split_slash(cs@.skip(start)),
        decreases n - i,
    {
        let c = cs[i];
        if c == '/' {
            proof {
                let rest = cs@.skip(start);
                lemma_char_index(rest, '/');
                assert(rest[i - start] == '/');
                assert(char_index(rest, '/') == i - start);
                assert(rest.take(i - start) =~= cur@);
                assert(rest.skip(i - start + 1) =~= cs@.skip(i + 1));
                done = done.push(cur@);
                start = i + 1;
            }
            out.push(cur);
            cur = Vec::new();
        } else {
            cur.push(c);
        }
        i = i + 1;
    }
    proof {
        let rest = cs@.skip(start);
        lemma_char_index(rest, '/');
        assert(rest =~= cur@);
        assert(char_index(rest, '/') == rest.len());
        done = done.push(cur@);
    }
    out.push(cur);
    assert(split_slash(cs@) =~= done);
    out
}

/// The components of a path, each as a string.
pub fn path_components(p: &str) -> (r: Vec<String>)
    ensures
        r@.len() == components(p@).len(),
        forall|i: int| 0 <= i < r@.len() ==> #[trigger] r@[i]@ == components(p@)[i],
{
    let cs = chars_of(p);
    let pieces = split_pieces(&cs);
    proof {
        lemma_split_slash_nonempty(cs@);
    }
    let ghost ps = pieces@;
    let rooted = cs.len() > 0 && cs[0] == '/';
    let lead_dot = pieces[0].len() == 1 && pieces[0][0] == '.';
    proof {
        if lead_dot {
            assert(pieces@[0]@ =~= seq!['.']);
        }
        if pieces@[0]@ == seq!['.'] {
            assert(pieces@[0]@.len() == 1);
        }
    }
    let mut out: Vec<String> = Vec::new();
    let mut k: usize = 0;
    let ghost expect: Seq<Seq<char>> = components(p@);
    let ghost skipped_first = rooted || lead_dot;
    if rooted {
        out.push(String::from_str("/"));
        k = 1;
        proof { reveal_strlit("/"); assert(out@[0]@ =~= seq!['/']); }
    } else if lead_dot {
        out.push(String::from_str("."));
        k = 1;
        proof { reveal_strlit("."); assert(out@[0]@ =~= seq!['.']); }
    }
    let ghost prefix_len = out@.len();
    let ghost sp = split_slash(cs@);
    assert(ps.len() == sp.len());
    proof {
        assert(expect == out@.map_values(|x: String| x@) + body_components(sp.skip(k as int))) by {
            if rooted {
                assert(sp.drop_first() =~= sp.skip(1));
            } else if lead_dot {
                assert(sp.drop_first() =~= sp.skip(1));
            } else {
                assert(sp.skip(0) =~= sp);
            }
            assert(out@.map_values(|x: String| x@) =~= if rooted { seq![seq!['/']] } else if lead_dot { seq![seq!['.']] } else { Seq::<Seq<char>>::empty() });
        }
    }
    while k < pieces.len()
        invariant
            k <= pieces@.len(),
            pieces@.len() == sp.len(),
            forall|i: int| 0 <= i < pieces@.len() ==> #[trigger] pieces@[i]@ == sp[i],
            expect == out@.map_values(|x: String| x@) + body_components(sp.skip(k as int)),
        decreases pieces.len() - k,
    {
        let piece = &pieces[k];
        let ghost before = out@;
        assert(sp.skip(k as int)[0] == sp[k as int]);
        assert(sp.skip(k as int).drop_first() =~= sp.skip(k + 1));
        let is_dot = piece.len() == 1 && piece[0] == '.';
        proof {
            if is_dot {
                assert(piece@ =~= seq!['.']);
            }
            if piece@ == seq!['.'] {
                assert(piece@.len() == 1);
            }
        }
        if piece.len() == 0 || is_dot {
        } else {
            let s = crate::text::string_of(piece.as_slice());
            out.push(s);
            assert(out@.map_values(|x: String| x@) =~= before.map_values(|x: String| x@).push(sp[k as int]));
            assert(before.map_values(|x: String| x@) + body_components(sp.skip(k as int)) =~=
                out@.map_values(|x: String| x@) + body_components(sp.skip(k + 1)));
        }
        k = k + 1;
    }
    assert(sp.skip(k as int) =~= Seq::<Seq<char>>::empty());
    assert(expect =~= out@.map_values(|x: String| x@));
    out
}

} // verus!

verus! {

/// Pieces joined with slashes between them.
pub open spec fn join_slash(c: Seq<Seq<char>>) -> Seq<char>
    decreases c.len(),
{
    if c.len() == 0 {
        Seq::empty()
    } else if c.len() == 1 {
        c[0]
    } else {
        c[0] + seq!['/'] + join_slash(c.drop_first())
    }
}

/// The path text of a sequence of components: a leading root component is
/// written as the leading `/`.
pub open spec fn join_components(c: Seq<Seq<char>>) -> Seq<char> {
    if c.len() > 0 && c[0] == seq!['/'] {
        seq!['/'] + join_slash(c.drop_first())
    } else {
        join_slash(c)
    }
}

/// `a` is a prefix of `b`.
pub open spec fn is_prefix<A>(a: Seq<A>, b: Seq<A>) -> bool {
    a.len() <= b.len() && b.take(a.len() as int) == a
}

/// `Path::starts_with`: the components of `base` begin the components of `path`.
pub open spec fn path_starts_with(path: Seq<char>, base: Seq<char>) -> bool {
    is_prefix(components(base), components(path))
}

/// `Path::strip_prefix`, with the remainder written as its components joined
/// by slashes.
pub open spec fn strip_prefix(path: Seq<char>, base: Seq<char>) -> Option<Seq<char>> {
    if path_starts_with(path, base) {
        Some(join_components(components(path).skip(components(base).len() as int)))
    } else {
        None
    }
}

/// Component sequences are equal (`String` equality on each component).
fn same_strings(a: &Vec<String>, b: &Vec<String>, len: usize) -> (r: bool)
    requires
        len <= a@.len(),
        len <= b@.len(),
    ensures
        r == (forall|i: int| 0 <= i < len ==> #[trigger] a@[i]@ == b@[i]@),
{
    let mut i: usize = 0;
    while i < len
        invariant
            i <= len,
            len <= a@.len(),
            len <= b@.len(),
            forall|j: int| 0 <= j < i ==> #[trigger] a@[j]@ == b@[j]@,
        decreases len - i,
    {
        if a[i] != b[i] {
            return false;
        }
        i = i + 1;
    }
    true
}

/// `path` starts with all components of `base`.
pub fn starts_with(path: &str, base: &str) -> (r: bool)
    ensures
        r == path_starts_with(path@, base@),
{
    let pc = path_components(path);
    let bc = path_components(base);
    if bc.len() > pc.len() {
        return false;
    }
    let same = same_strings(&pc, &bc, bc.len());
    proof {
        let cp = components(path@);
        let cb = components(base@);
        if same {
            assert forall|i: int| 0 <= i < cb.len() implies #[trigger] cp.take(cb.len() as int)[i] == cb[i] by {
                assert(pc@[i]@ == bc@[i]@);
            }
            assert(cp.take(cb.len() as int) =~= cb);
        } else {
            if cp.take(cb.len() as int) == cb {
                assert forall|i: int| 0 <= i < bc@.len() implies #[trigger] pc@[i]@ == bc@[i]@ by {
                    assert(cp.take(cb.len() as int)[i] == cp[i]);
                }
            }
        }
    }
    same
}

/// Components `c[from..]` written as a path.
fn join_from(c: &Vec<String>, from: usize) -> (r: String)
    requires
        from <= c@.len(),
    ensures
        r@ == join_components(c@.map_values(|x: String| x@).skip(from as int)),
{
    let ghost v = c@.map_values(|x: String| x@);
    let ghost rest = v.skip(from as int);
    let mut out = String::new();
    let n = c.len();
    if from == n {
        return out;
    }
    let mut i = from;
    let first = &c[from];
    let rooted = first.as_str().unicode_len() == 1 && first.as_str().get_char(0) == '/';
    proof {
        assert(rest[0] == c@[from as int]@);
        if rooted {
            assert(rest[0] =~= seq!['/']);
        }
        if rest[0] == seq!['/'] {
            assert(rest[0].len() == 1);
        }
    }
    let ghost parts: Seq<Seq<char>> = if rooted { rest.drop_first() } else { rest };
    if rooted {
        crate::text::push_char(&mut out, '/');
        i = i + 1;
    }
    assert(parts =~= v.skip(i as int));
    let ghost lead = out@;
    let start = i;
    while i < n
        invariant
            start <= i <= n,
            n == c@.len(),
            v == c@.map_values(|x: String| x@),
            parts == v.skip(start as int),
            out@ == lead + join_slash(v.subrange(start as int, i as int)),
        decreases n - i,
    {
        let ghost before = out@;
        if i > start {
            crate::text::push_char(&mut out, '/');
        }
        out.append(c[i].as_str());
        proof {
            lemma_join_slash_push(v.subrange(start as int, i as int), v[i as int]);
            assert(v.subrange(start as int, i + 1) =~= v.subrange(start as int, i as int).push(v[i as int]));
            assert(c@[i as int]@ == v[i as int]);
        }
        i = i + 1;
    }
    proof {
        assert(v.subrange(start as int, n as int) =~= parts);
        if rooted {
            assert(rest =~= seq![seq!['/']] + parts);
            assert(rest.drop_first() =~= parts);
        }
    }
    out
}

proof fn lemma_join_slash_push(c: Seq<Seq<char>>, x: Seq<char>)
    ensures
        join_slash(c.push(x)) == if c.len() == 0 { x } else { join_slash(c) + seq!['/'] + x },
    decreases c.len(),
{
    if c.len() == 0 {
        assert(c.push(x) =~= seq![x]);
    } else if c.len() == 1 {
        assert(c.push(x).drop_first() =~= seq![x]);
        assert(join_slash(seq![x]) == x);
        assert(c.push(x)[0] == c[0]);
        assert(join_slash(c) == c[0]);
    } else {
        lemma_join_slash_push(c.drop_first(), x);
        assert(c.push(x).drop_first() =~= c.drop_first().push(x));
        assert(c.push(x)[0] == c[0]);
        let j = join_slash(c.drop_first());
        assert(join_slash(c.push(x)) == c[0] + seq!['/'] + (j + seq!['/'] + x));
        assert(join_slash(c) == c[0] + seq!['/'] + j);
        assert(c[0] + seq!['/'] + (j + seq!['/'] + x) =~= (c[0] + seq!['/'] + j) + seq!['/'] + x);
    }
}

/// `Path::strip_prefix`: the rest of `path` after the components of `base`,
/// when `path` starts with them.
pub fn strip_prefix_exec(path: &str, base: &str) -> (r: Option<String>)
    ensures
        r matches Some(s) ==> strip_prefix(path@, base@) == Some(s@),
        r is None ==> strip_prefix(path@, base@) is None,
{
    if !starts_with(path, base) {
        return None;
    }
    let pc = path_components(path);
    let bc = path_components(base);
    let s = join_from(&pc, bc.len());
    proof {
        assert(pc@.map_values(|x: String| x@) =~= components(path@));
    }
    Some(s)
}

/// The path of `abs` relative to `root`, or `abs` itself when it does not lie
/// under `root`.
pub fn relativize(abs: &str, root: &str) -> (r: String)
    ensures
        r@ == match strip_prefix(abs@, root@) {
            Some(rest) => rest,
            None => abs@,
        },
{
    match strip_prefix_exec(abs, root) {
        Some(s) => s,
        None => abs.to_owned(),
    }
}

/// An archive entry path is safe to extract: nonempty, relative, and with no
/// parent component.
pub open spec fn is_safe_relative(p: Seq<char>) -> bool {
    p.len() > 0 && p[0] != '/' && !components(p).contains(seq!['.', '.'])
}

/// The archive entry path itself when it is safe to extract under the
/// destination, else nothing.
pub fn safe_relative(p: &str) -> (r: Option<String>)
    ensures
        r matches Some(s) ==> s@ == p@ && is_safe_relative(p@),
        r is None ==> !is_safe_relative(p@),
{
    if p.is_empty() {
        return None;
    }
    if p.get_char(0) == '/' {
        return None;
    }
    let comps = path_components(p);
    let mut i: usize = 0;
    while i < comps.len()
        invariant
            i <= comps@.len(),
            comps@.len() == components(p@).len(),
            forall|k: int| 0 <= k < comps@.len() ==> #[trigger] comps@[k]@ == components(p@)[k],
            forall|k: int| 0 <= k < i ==> components(p@)[k] != seq!['.', '.'],
        decreases comps.len() - i,
    {
        let c = comps[i].as_str();
        let is_parent = c.unicode_len() == 2 && c.get_char(0) == '.' && c.get_char(1) == '.';
        proof {
            if is_parent {
                assert(c@ =~= seq!['.', '.']);
            }
            if c@ == seq!['.', '.'] {
                assert(c@.len() == 2);
            }
        }
        if is_parent {
            return None;
        }
        i = i + 1;
    }
    Some(p.to_owned())
}

} // verus!

verus! {

/// `s` with every trailing `c` removed.
pub open spec fn trim_end_char(s: Seq<char>, c: char) -> Seq<char>
    decreases s.len(),
{
    if s.len() > 0 && s.last() == c {
        trim_end_char(s.drop_last(), c)
    } else {
        s
    }
}

/// `s` with every `from` replaced by `to`.
pub open spec fn replace_char(s: Seq<char>, from: char, to: char) -> Seq<char> {
    s.map_values(|x: char| if x == from { to } else { x })
}

/// An archive entry name in the form the manifest uses: trailing slashes
/// dropped and backslashes turned into slashes.
pub fn normalize_archive_path(s: &str) -> (r: String)
    ensures
        r@ == replace_char(trim_end_char(s@, '/'), '\\', '/'),
{
    let cs = chars_of(s);
    let mut end = cs.len();
    assert(cs@.take(end as int) =~= cs@);
    while end > 0 && cs[end - 1] == '/'
        invariant
            end <= cs@.len(),
            trim_end_char(cs@, '/') == trim_end_char(cs@.take(end as int), '/'),
        decreases end,
    {
        assert(cs@.take(end as int).drop_last() =~= cs@.take(end - 1));
        end = end - 1;
    }
    let ghost kept = cs@.take(end as int);
    assert(trim_end_char(kept, '/') == kept);
    let mut out = String::new();
    let mut i: usize = 0;
    while i < end
        invariant
            i <= end <= cs@.len(),
            kept == cs@.take(end as int),
            out@ == replace_char(kept.take(i as int), '\\', '/'),
        decreases end - i,
    {
        let c = cs[i];
        let d = if c == '\\' { '/' } else { c };
        crate::text::push_char(&mut out, d);
        assert(kept.take(i + 1) =~= kept.take(i as int).push(kept[i as int]));
        assert(out@ =~= replace_char(kept.take(i + 1), '\\', '/'));
        i = i + 1;
    }
    assert(kept.take(end as int) =~= kept);
    out
}

/// The text of a component other than the root, `.` and `..`.
pub open spec fn is_normal_component(c: Seq<char>) -> bool {
    c != seq!['/'] && c != seq!['.'] && c != seq!['.', '.']
}

/// `Path::file_name`: the last component when it is a normal one.
pub open spec fn file_name_spec(p: Seq<char>) -> Option<Seq<char>> {
    let c = components(p);
    if c.len() > 0 && is_normal_component(c.last()) {
        Some(c.last())
    } else {
        None
    }
}

/// `Path::parent`: the path without its last component, unless that is the
/// root or there is none.
pub open spec fn parent_spec(p: Seq<char>) -> Option<Seq<char>> {
    let c = components(p);
    if c.len() > 0 && c.last() != seq!['/'] {
        Some(join_components(c.drop_last()))
    } else {
        None
    }
}

fn is_component(s: &String, a: char, b: Option<char>) -> (r: bool)
    ensures
        r == (s@ == match b {
            Some(b) => seq![a, b],
            None => seq![a],
        }),
{
    let t = s.as_str();
    let n = t.unicode_len();
    let r = match b {
        Some(bc) => n == 2 && t.get_char(0) == a && t.get_char(1) == bc,
        None => n == 1 && t.get_char(0) == a,
    };
    proof {
        match b {
            Some(bc) => {
                if r {
                    assert(t@ =~= seq![a, bc]);
                }
            },
            None => {
                if r {
                    assert(t@ =~= seq![a]);
                }
            },
        }
    }
    r
}

/// The last component of a path when it is a normal one.
pub fn file_name(p: &str) -> (r: Option<String>)
    ensures
        r matches Some(s) ==> file_name_spec(p@) == Some(s@),
        r is None ==> file_name_spec(p@) is None,
{
    let mut comps = path_components(p);
    let n = comps.len();
    if n == 0 {
        return None;
    }
    let last = &comps[n - 1];
    let special = is_component(last, '/', None) || is_component(last, '.', None)
        || is_component(last, '.', Some('.'));
    if special {
        return None;
    }
    let s = comps.pop().unwrap();
    Some(s)
}

/// The path without its last component, unless that is the root or there is
/// none.
pub fn parent(p: &str) -> (r: Option<String>)
    ensures
        r matches Some(s) ==> parent_spec(p@) == Some(s@),
        r is None ==> parent_spec(p@) is None,
{
    let comps = path_components(p);
    let n = comps.len();
    if n == 0 || is_component(&comps[n - 1], '/', None) {
        return None;
    }
    let s = join_from_prefix(&comps, n - 1);
    proof {
        assert(comps@.map_values(|x: String| x@) =~= components(p@));
        assert(components(p@).take(n - 1) =~= components(p@).drop_last());
        assert(comps@[n - 1]@ == components(p@).last());
    }
    Some(s)
}

fn join_from_prefix(c: &Vec<String>, len: usize) -> (r: String)
    requires
        len <= c@.len(),
    ensures
        r@ == join_components(c@.map_values(|x: String| x@).take(len as int)),
{
    let mut head: Vec<String> = Vec::new();
    let mut i: usize = 0;
    while i < len
        invariant
            i <= len <= c@.len(),
            head@.len() == i,
            forall|k: int| 0 <= k < i ==> #[trigger] head@[k]@ == c@[k]@,
        decreases len - i,
    {
        head.push(c[i].clone());
        i = i + 1;
    }
    let s = join_from(&head, 0);
    assert(head@.map_values(|x: String| x@).skip(0) =~= c@.map_values(|x: String| x@).take(len as int));
    s
}

/// The directory in which a missing output file would be created: its parent,
/// or `.` when it has none.
pub open spec fn lookup_dir_spec(output: Seq<char>) -> Seq<char> {
    match parent_spec(output) {
        Some(d) => if d.len() > 0 { d } else { seq!['.'] },
        None => seq!['.'],
    }
}

pub fn lookup_dir(output: &str) -> (r: String)
    ensures
        r@ == lookup_dir_spec(output@),
{
    match parent(output) {
        Some(d) => {
            if d.as_str().is_empty() {
                let s = String::from_str(".");
                proof {
                    reveal_strlit(".");
                }
                s
            } else {
                d
            }
        },
        None => {
            let s = String::from_str(".");
            proof {
                reveal_strlit(".");
            }
            s
        },
    }
}

/// `PathBuf::push`: an absolute `p` replaces `base`; otherwise `p` follows
/// `base`, with a slash between them unless `base` is empty or ends in one.
pub open spec fn join_spec(base: Seq<char>, p: Seq<char>) -> Seq<char> {
    if p.len() > 0 && p[0] == '/' {
        p
    } else if base.len() > 0 && base.last() != '/' {
        base + seq!['/'] + p
    } else {
        base + p
    }
}

pub fn path_join(base: &str, p: &str) -> (r: String)
    ensures
        r@ == join_spec(base@, p@),
{
    if !p.is_empty() && p.get_char(0) == '/' {
        return p.to_owned();
    }
    let mut out = base.to_owned();
    let n = base.unicode_len();
    if n > 0 && base.get_char(n - 1) != '/' {
        crate::text::push_char(&mut out, '/');
    }
    out.append(p);
    out
}

/// The output would land in the target tree and in none of the excluded
/// subtrees.
pub open spec fn output_in_target(output: Seq<char>, target: Seq<char>, excluded: Seq<Seq<char>>) -> bool {
    path_starts_with(output, target) && forall|i: int|
        0 <= i < excluded.len() ==> !path_starts_with(output, #[trigger] excluded[i])
}

/// An output that lies in any one of the excluded subtrees (its components
/// begin with that subtree's, whichever position the subtree has in the
/// list) is accepted, inside the target or not.
pub proof fn lemma_excluded_output_accepted(
    output: Seq<char>,
    target: Seq<char>,
    excluded: Seq<Seq<char>>,
    k: int,
)
    requires
        0 <= k < excluded.len(),
        is_prefix(components(excluded[k]), components(output)),
    ensures
        !output_in_target(output, target, excluded),
{
    assert(path_starts_with(output, excluded[k]));
}

/// An output whose components do not begin with the target's is accepted.
pub proof fn lemma_output_outside_accepted(output: Seq<char>, target: Seq<char>, excluded: Seq<Seq<char>>)
    requires
        !is_prefix(components(target), components(output)),
    ensures
        !output_in_target(output, target, excluded),
{
}

/// An output under the target that lies in no excluded subtree is refused.
pub proof fn lemma_output_inside_refused(output: Seq<char>, target: Seq<char>, excluded: Seq<Seq<char>>)
    requires
        is_prefix(components(target), components(output)),
        forall|k: int| 0 <= k < excluded.len() ==> !is_prefix(components(#[trigger] excluded[k]), components(output)),
    ensures
        output_in_target(output, target, excluded),
{
    assert forall|k: int| 0 <= k < excluded.len() implies !path_starts_with(output, #[trigger] excluded[k]) by {
        assert(!is_prefix(components(excluded[k]), components(output)));
    }
}

/// The verdict depends on the excluded subtrees as a set: listing them in
/// another order, or with repeats, gives the same answer.
pub proof fn lemma_output_check_ignores_order(
    output: Seq<char>,
    target: Seq<char>,
    a: Seq<Seq<char>>,
    b: Seq<Seq<char>>,
)
    requires
        a.to_set() == b.to_set(),
    ensures
        output_in_target(output, target, a) == output_in_target(output, target, b),
{
    if output_in_target(output, target, a) && !output_in_target(output, target, b) {
        let k = choose|k: int| 0 <= k < b.len() && path_starts_with(output, #[trigger] b[k]);
        assert(b.to_set().contains(b[k]));
        assert(a.to_set().contains(b[k]));
        let j = choose|j: int| 0 <= j < a.len() && a[j] == b[k];
        assert(path_starts_with(output, a[j]));
    }
    if output_in_target(output, target, b) && !output_in_target(output, target, a) {
        let k = choose|k: int| 0 <= k < a.len() && path_starts_with(output, #[trigger] a[k]);
        assert(a.to_set().contains(a[k]));
        assert(b.to_set().contains(a[k]));
        let j = choose|j: int| 0 <= j < b.len() && b[j] == a[k];
        assert(path_starts_with(output, b[j]));
    }
}

/// Refuses an output archive (given by its canonical path) that would land
/// inside the canonical target tree, unless it lies in an excluded subtree,
/// which the backup leaves out anyway.
pub fn check_output_location(output_canon: &str, target_canon: &str, excluded_subtrees: &Vec<String>) -> (r: Result<(), Error>)
    ensures
        r is Ok <==> !output_in_target(output_canon@, target_canon@, excluded_subtrees@.map_values(|x: String| x@)),
        r matches Err(e) ==> e matches Error::OutputInsideTarget { output, target }
            && output@ == output_canon@ && target@ == target_canon@,
{
    let ghost ex = excluded_subtrees@.map_values(|x: String| x@);
    if !starts_with(output_canon, target_canon) {
        return Ok(());
    }
    let mut i: usize = 0;
    while i < excluded_subtrees.len()
        invariant
            i <= excluded_subtrees@.len(),
            ex == excluded_subtrees@.map_values(|x: String| x@),
            forall|k: int| 0 <= k < i ==> !path_starts_with(output_canon@, #[trigger] ex[k]),
        decreases excluded_subtrees.len() - i,
    {
        if starts_with(output_canon, excluded_subtrees[i].as_str()) {
            assert(ex[i as int] == excluded_subtrees@[i as int]@);
            return Ok(());
        }
        i = i + 1;
    }
    Err(Error::OutputInsideTarget { output: output_canon.to_owned(), target: target_canon.to_owned() })
}

/// `s` ends with `t`.
pub open spec fn ends_with(s: Seq<char>, t: Seq<char>) -> bool {
    t.len() <= s.len() && s.skip(s.len() - t.len()) == t
}

fn ends_with_exec(s: &str, t: &str) -> (r: bool)
    ensures
        r == ends_with(s@, t@),
{
    let n = s.unicode_len();
    let m = t.unicode_len();
    if m > n {
        return false;
    }
    let mut i: usize = 0;
    while i < m
        invariant
            i <= m <= n,
            n == s@.len(),
            m == t@.len(),
            forall|k: int| 0 <= k < i ==> s@[n - m + k] == t@[k],
        decreases m - i,
    {
        if s.get_char(n - m + i) != t.get_char(i) {
            assert(s@.skip(n - m)[i as int] == s@[n - m + i]);
            return false;
        }
        i = i + 1;
    }
    assert(s@.skip(n - m) =~= t@);
    true
}

/// An archive is encrypted when its name ends in `.age`.
pub fn is_age(p: &str) -> (r: bool)
    ensures
        r == ends_with(p@, ".age"@),
{
    ends_with_exec(p, ".age")
}

/// Where the archive is written until it is complete: the output path with
/// `.partial` appended.
pub fn append_partial_suffix(p: &str) -> (r: String)
    ensures
        r@ == p@ + ".partial"@,
{
    let mut s = p.to_owned();
    s.append(".partial");
    s
}

/// The default output name for a target and a UTC time stamp:
/// `<target name>-<stamp>.tar.zst`, with `.age` added when encrypting; a
/// target without a name is called `backup`.
pub open spec fn output_name_spec(target: Seq<char>, stamp: Seq<char>, encrypt: bool) -> Seq<char> {
    let base = match file_name_spec(target) {
        Some(n) => n,
        None => "backup"@,
    };
    base + "-"@ + stamp + if encrypt { ".tar.zst.age"@ } else { ".tar.zst"@ }
}

pub fn output_name_with_stamp(target: &str, stamp: &str, encrypt: bool) -> (r: String)
    ensures
        r@ == output_name_spec(target@, stamp@, encrypt),
{
    let mut s = match file_name(target) {
        Some(n) => n,
        None => String::from_str("backup"),
    };
    s.append("-");
    s.append(stamp);
    if encrypt {
        s.append(".tar.zst.age");
    } else {
        s.append(".tar.zst");
    }
    s
}

/// The default output name when none is given: the target's name, the
/// current UTC time stamp, and the archive extension.
pub fn default_output_name(target: &str, encrypt: bool) -> (r: String)
    ensures
        exists|y: int, mo: nat, d: nat, h: nat, mi: nat, sec: nat|
            1 <= mo <= 12 && 1 <= d <= 31 && h < 24 && mi < 60 && sec < 60
            && r@ == output_name_spec(target@, crate::stamp::stamp_spec(y, mo, d, h, mi, sec), encrypt),
{
    let stamp = crate::stamp::utc_stamp();
    output_name_with_stamp(target, stamp.as_str(), encrypt)
}

} // verus!

verus! {

/// `s` with backslashes turned into slashes.
pub fn replace_backslashes(s: &str) -> (r: String)
    ensures
        r@ == replace_char(s@, '\\', '/'),
{
    let cs = chars_of(s);
    let mut out = String::new();
    let mut i: usize = 0;
    while i < cs.len()
        invariant
            i <= cs@.len(),
            cs@ == s@,
            out@ == replace_char(cs@.take(i as int), '\\', '/'),
        decreases cs.len() - i,
    {
        let c = cs[i];
        let d = if c == '\\' { '/' } else { c };
        crate::text::push_char(&mut out, d);
        assert(cs@.take(i + 1) =~= cs@.take(i as int).push(cs@[i as int]));
        assert(out@ =~= replace_char(cs@.take(i + 1), '\\', '/'));
        i = i + 1;
    }
    assert(cs@.take(i as int) =~= cs@);
    out
}

} // verus!
