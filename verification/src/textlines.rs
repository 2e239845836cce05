//! Lines and whitespace-separated words of text, as `str::lines`,
//! `str::trim` and `str::split_whitespace` see them.
use crate::paths::{char_index, lemma_char_index};
use vstd::prelude::*;

verus! {

broadcast use vstd::seq::group_seq_axioms;

/// `char::is_whitespace`: the Unicode `White_Space` characters.
pub open spec fn is_ws(c: char) -> bool {
    let v = c as u32;
    (0x9 <= v <= 0xd) || v == 0x20 || v == 0x85 || v == 0xa0 || v == 0x1680 || (0x2000 <= v
        <= 0x200a) || v == 0x2028 || v == 0x2029 || v == 0x202f || v == 0x205f || v == 0x3000
}

pub fn is_ws_exec(c: char) -> (r: bool)
    ensures
        r == is_ws(c),
{
    let v = c as u32;
    (0x9 <= v && v <= 0xd) || v == 0x20 || v == 0x85 || v == 0xa0 || v == 0x1680 || (0x2000 <= v
        && v <= 0x200a) || v == 0x2028 || v == 0x2029 || v == 0x202f || v == 0x205f || v == 0x3000
}

/// `s` without leading whitespace.
pub open spec fn trim_start(s: Seq<char>) -> Seq<char>
    decreases s.len(),
{
    if s.len() > 0 && is_ws(s[0]) {
        trim_start(s.drop_first())
    } else {
        s
    }
}

/// `s` without trailing whitespace.
pub open spec fn trim_end(s: Seq<char>) -> Seq<char>
    decreases s.len(),
{
    if s.len() > 0 && is_ws(s.last()) {
        trim_end(s.drop_last())
    } else {
        s
    }
}

/// `str::trim`.
pub open spec fn trim(s: Seq<char>) -> Seq<char> {
    trim_end(trim_start(s))
}

/// The index of the first whitespace character, or the length.
pub open spec fn ws_index(s: Seq<char>) -> nat
    decreases s.len(),
{
    if s.len() == 0 {
        0
    } else if is_ws(s[0]) {
        0
    } else {
        1 + ws_index(s.drop_first())
    }
}

pub proof fn lemma_ws_index(s: Seq<char>)
    ensures
        ws_index(s) <= s.len(),
        s.len() > 0 && !is_ws(s[0]) ==> ws_index(s) >= 1,
        ws_index(s) < s.len() ==> is_ws(s[ws_index(s) as int]),
        forall|j: int| 0 <= j < ws_index(s) ==> !is_ws(s[j]),
    decreases s.len(),
{
    if s.len() > 0 && !is_ws(s[0]) {
        lemma_ws_index(s.drop_first());
        assert forall|j: int| 0 <= j < ws_index(s) implies !is_ws(s[j]) by {
            if j > 0 {
                assert(s[j] == s.drop_first()[j - 1]);
            }
        }
    }
}

pub proof fn lemma_trim_start_len(s: Seq<char>)
    ensures
        trim_start(s).len() <= s.len(),
        trim_start(s).len() > 0 ==> !is_ws(trim_start(s)[0]),
    decreases s.len(),
{
    if s.len() > 0 && is_ws(s[0]) {
        lemma_trim_start_len(s.drop_first());
    }
}

/// `str::split_whitespace`: the maximal runs of non-whitespace characters.
pub open spec fn words(s: Seq<char>) -> Seq<Seq<char>>
    decreases s.len(),
{
    let t = trim_start(s);
    proof {
        lemma_trim_start_len(s);
        lemma_ws_index(t);
    }
    if t.len() == 0 {
        Seq::empty()
    } else {
        let i = ws_index(t);
        seq![t.take(i as int)] + words(t.skip(i as int))
    }
}

/// The first line of a text and what follows its line ending (`str::lines`).
pub open spec fn first_text_line(s: Seq<char>) -> (Seq<char>, Seq<char>) {
    let i = char_index(s, '\n');
    if i == s.len() {
        (s, Seq::empty())
    } else {
        let l = s.take(i as int);
        (if l.len() > 0 && l.last() == '\r' { l.drop_last() } else { l }, s.skip(i as int + 1))
    }
}

/// `str::lines`.
pub open spec fn text_lines(s: Seq<char>) -> Seq<Seq<char>>
    decreases s.len(),
{
    proof {
        lemma_char_index(s, '\n');
    }
    if s.len() == 0 {
        Seq::empty()
    } else {
        seq![first_text_line(s).0] + text_lines(first_text_line(s).1)
    }
}

/// The characters `cs[a..b]` with leading and trailing whitespace removed,
/// as a range.
pub(crate) fn trim_range(cs: &Vec<char>, a: usize, b: usize) -> (r: (usize, usize))
    requires
        a <= b <= cs@.len(),
    ensures
        r.0 <= r.1 <= b,
        a <= r.0,
        cs@.subrange(r.0 as int, r.1 as int) == trim(cs@.subrange(a as int, b as int)),
{
    let mut i = a;
    while i < b && is_ws_exec(cs[i])
        invariant
            a <= i <= b <= cs@.len(),
            trim_start(cs@.subrange(a as int, b as int)) == trim_start(cs@.subrange(i as int, b as int)),
        decreases b - i,
    {
        assert(cs@.subrange(i as int, b as int).drop_first() =~= cs@.subrange(i + 1, b as int));
        i = i + 1;
    }
    assert(trim_start(cs@.subrange(i as int, b as int)) == cs@.subrange(i as int, b as int));
    let mut j = b;
    while j > i && is_ws_exec(cs[j - 1])
        invariant
            i <= j <= b <= cs@.len(),
            trim_end(cs@.subrange(i as int, b as int)) == trim_end(cs@.subrange(i as int, j as int)),
        decreases j - i,
    {
        assert(cs@.subrange(i as int, j as int).drop_last() =~= cs@.subrange(i as int, j - 1));
        j = j - 1;
    }
    (i, j)
}

/// `str::trim`.
pub fn trim_str(s: &str) -> (r: String)
    ensures
        r@ == trim(s@),
{
    let cs = crate::paths::chars_of(s);
    let (a, b) = trim_range(&cs, 0, cs.len());
    assert(cs@.subrange(0, cs@.len() as int) =~= cs@);
    crate::text::string_of_range(cs.as_slice(), a, b)
}

/// The end of the line starting at `from`, and where the next line starts.
pub fn line_bounds(cs: &Vec<char>, from: usize) -> (r: (usize, usize))
    requires
        from < cs@.len(),
    ensures
        from <= r.0 <= r.1 <= cs@.len(),
        r.1 > from,
        first_text_line(cs@.skip(from as int)) == (
            cs@.subrange(from as int, r.0 as int),
            cs@.skip(r.1 as int),
        ),
{
    let n = cs.len();
    let mut j = from;
    while j < n && cs[j] != '\n'
        invariant
            from <= j <= n,
            n == cs@.len(),
            forall|k: int| from <= k < j ==> cs@[k] != '\n',
        decreases n - j,
    {
        j = j + 1;
    }
    let ghost rest = cs@.skip(from as int);
    proof {
        lemma_char_index(rest, '\n');
        let i = char_index(rest, '\n');
        if i < j - from {
            assert(rest[i as int] == cs@[from + i]);
        }
        if j - from < i {
            assert(rest[j - from] == cs@[j as int]);
        }
    }
    if j == n {
        assert(rest =~= cs@.subrange(from as int, n as int));
        assert(cs@.skip(n as int) =~= Seq::<char>::empty());
        (n, n)
    } else {
        let mut end = j;
        if end > from && cs[end - 1] == '\r' {
            end = end - 1;
        }
        assert(rest.take(j - from) =~= cs@.subrange(from as int, j as int));
        assert(rest.skip(j - from + 1) =~= cs@.skip(j + 1));
        if j > from {
            assert(cs@.subrange(from as int, j as int).drop_last() =~= cs@.subrange(from as int, j - 1));
        }
        (end, j + 1)
    }
}

/// The whitespace-separated words of `cs[a..b]`, as ranges.
pub fn word_ranges(cs: &Vec<char>, a: usize, b: usize) -> (r: Vec<(usize, usize)>)
    requires
        a <= b <= cs@.len(),
    ensures
        r@.len() == words(cs@.subrange(a as int, b as int)).len(),
        forall|k: int|
            #![trigger r@[k]]
            0 <= k < r@.len() ==> r@[k].0 <= r@[k].1 <= b && cs@.subrange(
                r@[k].0 as int,
                r@[k].1 as int,
            ) == words(cs@.subrange(a as int, b as int))[k],
{
    let mut out: Vec<(usize, usize)> = Vec::new();
    let mut i = a;
    let ghost done: Seq<Seq<char>> = Seq::empty();
    while i < b
        invariant
            a <= i <= b <= cs@.len(),
            words(cs@.subrange(a as int, b as int)) == done + words(cs@.subrange(i as int, b as int)),
            out@.len() == done.len(),
            forall|k: int|
                #![trigger out@[k]]
                0 <= k < out@.len() ==> out@[k].0 <= out@[k].1 <= b && cs@.subrange(
                    out@[k].0 as int,
                    out@[k].1 as int,
                ) == done[k],
        decreases b - i,
    {
        let ghost s = cs@.subrange(i as int, b as int);
        if is_ws_exec(cs[i]) {
            assert(s[0] == cs@[i as int]);
            assert(s.drop_first() =~= cs@.subrange(i + 1, b as int));
            assert(trim_start(s) == trim_start(s.drop_first()));
            proof {
                lemma_trim_start_len(s.drop_first());
            }
            assert(words(s) == words(s.drop_first()));
            i = i + 1;
        } else {
            let mut j = i;
            while j < b && !is_ws_exec(cs[j])
                invariant
                    i <= j <= b <= cs@.len(),
                    forall|k: int| i <= k < j ==> !is_ws(cs@[k]),
                decreases b - j,
            {
                j = j + 1;
            }
            proof {
                assert(s[0] == cs@[i as int]);
                assert(trim_start(s) == s);
                lemma_ws_index(s);
                let w = ws_index(s);
                if w < j - i {
                    assert(s[w as int] == cs@[i + w]);
                }
                if j - i < w {
                    assert(s[j - i] == cs@[j as int]);
                }
                assert(s.take((j - i) as int) =~= cs@.subrange(i as int, j as int));
                assert(s.skip((j - i) as int) =~= cs@.subrange(j as int, b as int));
                assert(words(s) == seq![cs@.subrange(i as int, j as int)] + words(cs@.subrange(j as int, b as int)));
                let old_done = done;
                done = done.push(cs@.subrange(i as int, j as int));
                assert(old_done + words(s) =~= done + words(cs@.subrange(j as int, b as int)));
            }
            out.push((i, j));
            i = j;
        }
    }
    proof {
        assert(cs@.subrange(b as int, b as int) =~= Seq::<char>::empty());
        assert(trim_start(cs@.subrange(b as int, b as int)).len() == 0);
        assert(done + Seq::<Seq<char>>::empty() =~= done);
    }
    out
}

} // verus!
