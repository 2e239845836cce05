//! The `MANIFEST.blake3` format: one line per archived file, sorted by path.
use vstd::prelude::*;
use crate::error::Error;
use crate::text::{dec_chars, dec_digits, decimal_string, lacks, push_decimal, utf8};
use vstd::string::StringSliceAdditionalSpecFns;
use vstd::utf8::*;

verus! {

broadcast use vstd::seq::group_seq_axioms;

/// One manifest line: the BLAKE3 digest in hex, the size and the archive path.
#[derive(Debug, Clone)]
pub struct ManifestEntry {
    pub blake3_hex: String,
    pub size: u64,
    pub path: String,
}

/// The sort key of an entry: the bytes of its path.
pub open spec fn path_key(e: ManifestEntry) -> Seq<u8> {
    utf8(e.path@)
}

/// Lexicographic order on byte strings, the order of `String::cmp`.
pub open spec fn lex_le(a: Seq<u8>, b: Seq<u8>) -> bool
    decreases a.len(),
{
    if a.len() == 0 {
        true
    } else if b.len() == 0 {
        false
    } else if a[0] < b[0] {
        true
    } else if a[0] > b[0] {
        false
    } else {
        lex_le(a.drop_first(), b.drop_first())
    }
}

/// Entries in nondecreasing path order.
pub open spec fn sorted_by_path(s: Seq<ManifestEntry>) -> bool {
    forall|i: int, j: int|
        0 <= i < j < s.len() ==> lex_le(#[trigger] path_key(s[i]), #[trigger] path_key(s[j]))
}

/// The entries of `s` whose path key is `k`, in their order in `s`.
pub open spec fn with_key(s: Seq<ManifestEntry>, k: Seq<u8>) -> Seq<ManifestEntry>
    decreases s.len(),
{
    if s.len() == 0 {
        Seq::empty()
    } else if path_key(s.last()) == k {
        with_key(s.drop_last(), k).push(s.last())
    } else {
        with_key(s.drop_last(), k)
    }
}

/// `out` is `input` stably sorted by path: sorted, and for every path the
/// entries with that path appear in the same order as in `input`.
pub open spec fn is_path_sorting(input: Seq<ManifestEntry>, out: Seq<ManifestEntry>) -> bool {
    &&& sorted_by_path(out)
    &&& forall|k: Seq<u8>| #[trigger] with_key(out, k) == with_key(input, k)
}

proof fn lemma_lex_refl(a: Seq<u8>)
    ensures
        lex_le(a, a),
    decreases a.len(),
{
    if a.len() > 0 {
        lemma_lex_refl(a.drop_first());
    }
}

proof fn lemma_lex_total(a: Seq<u8>, b: Seq<u8>)
    ensures
        lex_le(a, b) || lex_le(b, a),
    decreases a.len(),
{
    if a.len() > 0 && b.len() > 0 && a[0] == b[0] {
        lemma_lex_total(a.drop_first(), b.drop_first());
    }
}

proof fn lemma_lex_trans(a: Seq<u8>, b: Seq<u8>, c: Seq<u8>)
    requires
        lex_le(a, b),
        lex_le(b, c),
    ensures
        lex_le(a, c),
    decreases a.len(),
{
    if a.len() > 0 && b.len() > 0 && c.len() > 0 && a[0] == b[0] && b[0] == c[0] {
        lemma_lex_trans(a.drop_first(), b.drop_first(), c.drop_first());
    }
}

/// Two byte strings that are each at most the other are equal.
pub proof fn lemma_lex_antisym(a: Seq<u8>, b: Seq<u8>)
    requires
        lex_le(a, b),
        lex_le(b, a),
    ensures
        a == b,
    decreases a.len(),
{
    if a.len() > 0 && b.len() > 0 {
        lemma_lex_antisym(a.drop_first(), b.drop_first());
        assert(a =~= seq![a[0]] + a.drop_first());
        assert(b =~= seq![b[0]] + b.drop_first());
    }
}

/// Merges two path-sorted sequences, working from their ends; on equal paths
/// the entries of `a` come first.
pub open spec fn merge_back(a: Seq<ManifestEntry>, b: Seq<ManifestEntry>) -> Seq<ManifestEntry>
    decreases a.len() + b.len(),
{
    if a.len() == 0 {
        b
    } else if b.len() == 0 {
        a
    } else if !lex_le(path_key(a.last()), path_key(b.last())) {
        merge_back(a.drop_last(), b).push(a.last())
    } else {
        merge_back(a, b.drop_last()).push(b.last())
    }
}

/// Every entry of `s` has a path key at most `k`.
pub open spec fn all_le(s: Seq<ManifestEntry>, k: Seq<u8>) -> bool {
    forall|i: int| 0 <= i < s.len() ==> lex_le(#[trigger] path_key(s[i]), k)
}

proof fn lemma_sorted_all_le(s: Seq<ManifestEntry>)
    requires
        sorted_by_path(s),
        s.len() > 0,
    ensures
        all_le(s, path_key(s.last())),
        sorted_by_path(s.drop_last()),
{
    assert forall|i: int| 0 <= i < s.len() implies lex_le(#[trigger] path_key(s[i]), path_key(s.last())) by {
        if i < s.len() - 1 {
        } else {
            lemma_lex_refl(path_key(s.last()));
        }
    }
}

proof fn lemma_merge_all_le(a: Seq<ManifestEntry>, b: Seq<ManifestEntry>, k: Seq<u8>)
    requires
        all_le(a, k),
        all_le(b, k),
    ensures
        all_le(merge_back(a, b), k),
        merge_back(a, b).len() == a.len() + b.len(),
    decreases a.len() + b.len(),
{
    if a.len() == 0 || b.len() == 0 {
    } else if !lex_le(path_key(a.last()), path_key(b.last())) {
        lemma_merge_all_le(a.drop_last(), b, k);
    } else {
        lemma_merge_all_le(a, b.drop_last(), k);
    }
}

proof fn lemma_merge_sorted(a: Seq<ManifestEntry>, b: Seq<ManifestEntry>)
    requires
        sorted_by_path(a),
        sorted_by_path(b),
    ensures
        sorted_by_path(merge_back(a, b)),
        merge_back(a, b).len() == a.len() + b.len(),
    decreases a.len() + b.len(),
{
    if a.len() == 0 || b.len() == 0 {
    } else {
        let ka = path_key(a.last());
        let kb = path_key(b.last());
        lemma_sorted_all_le(a);
        lemma_sorted_all_le(b);
        if !lex_le(ka, kb) {
            lemma_lex_total(ka, kb);
            lemma_merge_sorted(a.drop_last(), b);
            assert forall|i: int| 0 <= i < b.len() implies lex_le(#[trigger] path_key(b[i]), ka) by {
                lemma_lex_trans(path_key(b[i]), kb, ka);
            }
            lemma_merge_all_le(a.drop_last(), b, ka);
            let m = merge_back(a.drop_last(), b);
            assert(merge_back(a, b) == m.push(a.last()));
        } else {
            lemma_merge_sorted(a, b.drop_last());
            assert forall|i: int| 0 <= i < a.len() implies lex_le(#[trigger] path_key(a[i]), kb) by {
                lemma_lex_trans(path_key(a[i]), ka, kb);
            }
            lemma_merge_all_le(a, b.drop_last(), kb);
            let m = merge_back(a, b.drop_last());
            assert(merge_back(a, b) == m.push(b.last()));
        }
    }
}

proof fn lemma_with_key_concat(a: Seq<ManifestEntry>, b: Seq<ManifestEntry>, k: Seq<u8>)
    ensures
        with_key(a + b, k) == with_key(a, k) + with_key(b, k),
    decreases b.len(),
{
    if b.len() == 0 {
        assert(a + b =~= a);
        assert(with_key(a, k) + with_key(b, k) =~= with_key(a, k));
    } else {
        lemma_with_key_concat(a, b.drop_last(), k);
        assert((a + b).drop_last() =~= a + b.drop_last());
        assert((a + b).last() == b.last());
        if path_key(b.last()) == k {
            assert(with_key(a, k) + with_key(b, k) =~= (with_key(a, k) + with_key(b.drop_last(), k)).push(b.last()));
        } else {
        }
    }
}

proof fn lemma_with_key_none(s: Seq<ManifestEntry>, k: Seq<u8>, bound: Seq<u8>)
    requires
        all_le(s, bound),
        !lex_le(k, bound),
    ensures
        with_key(s, k) == Seq::<ManifestEntry>::empty(),
    decreases s.len(),
{
    if s.len() > 0 {
        assert(path_key(s[s.len() - 1]) == path_key(s.last()));
        lemma_with_key_none(s.drop_last(), k, bound);
    }
}

proof fn lemma_merge_with_key(a: Seq<ManifestEntry>, b: Seq<ManifestEntry>, k: Seq<u8>)
    requires
        sorted_by_path(a),
        sorted_by_path(b),
    ensures
        with_key(merge_back(a, b), k) == with_key(a, k) + with_key(b, k),
    decreases a.len() + b.len(),
{
    if a.len() == 0 {
        assert(with_key(a, k) + with_key(b, k) =~= with_key(b, k));
    } else if b.len() == 0 {
        assert(with_key(a, k) + with_key(b, k) =~= with_key(a, k));
    } else {
        let ka = path_key(a.last());
        let kb = path_key(b.last());
        lemma_sorted_all_le(a);
        lemma_sorted_all_le(b);
        if !lex_le(ka, kb) {
            lemma_merge_with_key(a.drop_last(), b, k);
            let m = merge_back(a.drop_last(), b);
            assert(merge_back(a, b) == m.push(a.last()));
            assert(m.push(a.last()).drop_last() =~= m);
            if ka == k {
                lemma_with_key_none(b, k, kb);
                assert(with_key(a, k) + with_key(b, k) =~= (with_key(a.drop_last(), k) + with_key(b, k)).push(a.last()));
            }
        } else {
            lemma_merge_with_key(a, b.drop_last(), k);
            let m = merge_back(a, b.drop_last());
            assert(merge_back(a, b) == m.push(b.last()));
            assert(m.push(b.last()).drop_last() =~= m);
            if kb == k {
                assert(with_key(a, k) + with_key(b, k) =~= (with_key(a, k) + with_key(b.drop_last(), k)).push(b.last()));
            }
        }
    }
}

/// Lexicographic comparison of byte slices.
fn bytes_le(a: &[u8], b: &[u8]) -> (r: bool)
    ensures
        r == lex_le(a@, b@),
{
    let mut i: usize = 0;
    assert(a@.skip(0) =~= a@);
    assert(b@.skip(0) =~= b@);
    while i < a.len() && i < b.len()
        invariant
            i <= a@.len(),
            i <= b@.len(),
            lex_le(a@, b@) == lex_le(a@.skip(i as int), b@.skip(i as int)),
        decreases a.len() - i,
    {
        if a[i] < b[i] {
            return true;
        }
        if a[i] > b[i] {
            return false;
        }
        assert(a@.skip(i as int).drop_first() =~= a@.skip(i + 1));
        assert(b@.skip(i as int).drop_first() =~= b@.skip(i + 1));
        i = i + 1;
    }
    i == a.len()
}

fn key_le(x: &ManifestEntry, y: &ManifestEntry) -> (r: bool)
    ensures
        r == lex_le(path_key(*x), path_key(*y)),
{
    bytes_le(x.path.as_str().as_bytes(), y.path.as_str().as_bytes())
}

/// The elements of `s` in reverse order.
pub open spec fn reversed<A>(s: Seq<A>) -> Seq<A>
    decreases s.len(),
{
    if s.len() == 0 {
        Seq::empty()
    } else {
        seq![s.last()] + reversed(s.drop_last())
    }
}

fn merge(a: Vec<ManifestEntry>, b: Vec<ManifestEntry>) -> (r: Vec<ManifestEntry>)
    ensures
        r@ == merge_back(a@, b@),
{
    let ghost a0 = a@;
    let ghost b0 = b@;
    let mut a = a;
    let mut b = b;
    let mut rev: Vec<ManifestEntry> = Vec::new();
    while a.len() > 0 && b.len() > 0
        invariant
            merge_back(a0, b0) == merge_back(a@, b@) + reversed(rev@),
        decreases a.len() + b.len(),
    {
        let take_a = !key_le(&a[a.len() - 1], &b[b.len() - 1]);
        let ghost before = rev@;
        let ghost ma = a@;
        let ghost mb = b@;
        if take_a {
            let x = a.pop().unwrap();
            rev.push(x);
            assert(merge_back(ma, mb) == merge_back(a@, b@).push(x));
        } else {
            let x = b.pop().unwrap();
            rev.push(x);
            assert(merge_back(ma, mb) == merge_back(a@, b@).push(x));
        }
        assert(rev@.drop_last() =~= before);
        assert(reversed(rev@) == seq![rev@.last()] + reversed(before));
        assert(merge_back(a0, b0) =~= merge_back(a@, b@) + reversed(rev@));
    }
    let mut out = if a.len() == 0 { b } else { a };
    assert(merge_back(a0, b0) == out@ + reversed(rev@));
    while rev.len() > 0
        invariant
            merge_back(a0, b0) == out@ + reversed(rev@),
        decreases rev.len(),
    {
        let ghost before = rev@;
        let ghost ob = out@;
        let x = rev.pop().unwrap();
        out.push(x);
        assert(rev@ =~= before.drop_last());
        assert(reversed(before) == seq![x] + reversed(rev@));
        assert(ob + reversed(before) =~= out@ + reversed(rev@));
    }
    assert(reversed(rev@) =~= Seq::<ManifestEntry>::empty());
    assert(out@ + reversed(rev@) =~= out@);
    out
}

/// Sorts entries by path, keeping entries with equal paths in their order.
fn sort_by_path(v: Vec<ManifestEntry>) -> (r: Vec<ManifestEntry>)
    ensures
        is_path_sorting(v@, r@),
    decreases v.len(),
{
    if v.len() <= 1 {
        assert(sorted_by_path(v@));
        return v;
    }
    let ghost v0 = v@;
    let mut left = v;
    let mid = left.len() / 2;
    let right = left.split_off(mid);
    assert(v0 =~= left@ + right@);
    let sl = sort_by_path(left);
    let sr = sort_by_path(right);
    let ghost l0 = sl@;
    let ghost r0 = sr@;
    let m = merge(sl, sr);
    proof {
        lemma_merge_sorted(l0, r0);
        assert forall|k: Seq<u8>| #[trigger] with_key(m@, k) == with_key(v0, k) by {
            lemma_merge_with_key(l0, r0, k);
            lemma_with_key_concat(left@, right@, k);
        }
    }
    m
}


/// The two comment lines every manifest starts with.
pub const MANIFEST_HEADER: &'static str = "# minbup manifest v1\n# blake3-hex\tsize\tpath\n";

/// A path that would break the line format: it holds a tab or a newline.
pub open spec fn bad_path(e: ManifestEntry) -> bool {
    !lacks(e.path@, '\t') || !lacks(e.path@, '\n')
}

/// The line of one entry: digest, size and path separated by tabs.
pub open spec fn render_line(e: ManifestEntry) -> Seq<u8> {
    utf8(e.blake3_hex@) + seq![9u8] + dec_digits(e.size as nat) + seq![9u8] + utf8(e.path@) + seq![
        10u8,
    ]
}

/// The lines of all entries, in order.
pub open spec fn render_lines(s: Seq<ManifestEntry>) -> Seq<u8>
    decreases s.len(),
{
    if s.len() == 0 {
        Seq::empty()
    } else {
        render_lines(s.drop_last()) + render_line(s.last())
    }
}

/// A whole manifest for entries already in their final order.
pub open spec fn render_manifest(s: Seq<ManifestEntry>) -> Seq<u8> {
    utf8(MANIFEST_HEADER@) + render_lines(s)
}

/// Accumulates the entries of the archive being written.
#[derive(Debug)]
pub struct ManifestBuilder {
    entries: Vec<ManifestEntry>,
}

impl View for ManifestBuilder {
    type V = Seq<ManifestEntry>;

    closed spec fn view(&self) -> Seq<ManifestEntry> {
        self.entries@
    }
}

fn append_bytes(out: &mut Vec<u8>, b: &[u8])
    ensures
        final(out)@ == old(out)@ + b@,
{
    let mut i: usize = 0;
    while i < b.len()
        invariant
            i <= b@.len(),
            out@ == old(out)@ + b@.take(i as int),
        decreases b.len() - i,
    {
        out.push(b[i]);
        assert(b@.take(i + 1) =~= b@.take(i as int).push(b@[i as int]));
        i = i + 1;
    }
    assert(b@.take(i as int) =~= b@);
}

/// True when the bytes hold a tab or a newline.
fn has_tab_or_newline(b: &[u8]) -> (r: bool)
    ensures
        r == (!lacks(b@, 9u8) || !lacks(b@, 10u8)),
{
    let mut i: usize = 0;
    while i < b.len()
        invariant
            i <= b@.len(),
            forall|j: int| 0 <= j < i ==> b@[j] != 9u8 && b@[j] != 10u8,
        decreases b.len() - i,
    {
        if b[i] == 9 || b[i] == 10 {
            return true;
        }
        i = i + 1;
    }
    false
}

impl Default for ManifestBuilder {
    fn default() -> (r: Self)
        ensures
            r@ == Seq::<ManifestEntry>::empty(),
    {
        ManifestBuilder { entries: Vec::new() }
    }
}

impl ManifestBuilder {
    pub fn new() -> (r: Self)
        ensures
            r@ == Seq::<ManifestEntry>::empty(),
    {
        ManifestBuilder { entries: Vec::new() }
    }

    pub fn push(&mut self, entry: ManifestEntry)
        ensures
            final(self)@ == old(self)@.push(entry),
    {
        self.entries.push(entry);
    }

    pub fn len(&self) -> (r: usize)
        ensures
            r == self@.len(),
    {
        self.entries.len()
    }

    /// The manifest text: the header, then one line per entry sorted by path.
    /// Fails on the first entry, in path order, whose path holds a tab or a
    /// newline.
    pub fn into_bytes(self) -> (r: Result<Vec<u8>, Error>)
        ensures
            r is Ok <==> (forall|i: int| 0 <= i < self@.len() ==> !bad_path(#[trigger] self@[i])),
            exists|out: Seq<ManifestEntry>|
                #![trigger is_path_sorting(self@, out)]
                is_path_sorting(self@, out) && match r {
                    Ok(b) => b@ == render_manifest(out),
                    Err(e) => exists|i: int|
                        #![trigger out[i]]
                        0 <= i < out.len() && bad_path(out[i]) && (forall|j: int|
                            0 <= j < i ==> !bad_path(#[trigger] out[j])) && (e matches Error::Manifest(m)
                            && m@ == "path contains tab or newline: "@ + out[i].path@),
                },
    {
        let ghost input = self@;
        let sorted = sort_by_path(self.entries);
        let mut out: Vec<u8> = Vec::new();
        append_bytes(&mut out, MANIFEST_HEADER.as_bytes());
        let mut i: usize = 0;
        while i < sorted.len()
            invariant
                i <= sorted@.len(),
                input == self@,
                is_path_sorting(input, sorted@),
                out@ == utf8(MANIFEST_HEADER@) + render_lines(sorted@.take(i as int)),
                forall|j: int| 0 <= j < i ==> !bad_path(#[trigger] sorted@[j]),
            decreases sorted.len() - i,
        {
            let e = &sorted[i];
            let path_bytes = e.path.as_str().as_bytes();
            if has_tab_or_newline(path_bytes) {
                proof {
                    crate::text::lemma_utf8_lacks_ascii(e.path@, 9u8);
                    crate::text::lemma_utf8_lacks_ascii(e.path@, 10u8);
                    assert(9u8 as char == '\t');
                    assert(10u8 as char == '\n');
                    assert(bad_path(sorted@[i as int]));
                    lemma_sorting_keeps_bad(input, sorted@, i as int);
                    assert(is_path_sorting(self@, sorted@));
                }
                let mut msg = String::from_str("path contains tab or newline: ");
                msg.append(e.path.as_str());
                return Err(Error::Manifest(msg));
            }
            proof {
                crate::text::lemma_utf8_lacks_ascii(e.path@, 9u8);
                crate::text::lemma_utf8_lacks_ascii(e.path@, 10u8);
                assert(9u8 as char == '\t');
                assert(10u8 as char == '\n');
            }
            let ghost before = out@;
            append_bytes(&mut out, e.blake3_hex.as_str().as_bytes());
            out.push(9u8);
            push_decimal(&mut out, e.size);
            out.push(9u8);
            append_bytes(&mut out, path_bytes);
            out.push(10u8);
            proof {
                assert(sorted@.take(i + 1).drop_last() =~= sorted@.take(i as int));
                assert(out@ =~= before + render_line(sorted@[i as int]));
            }
            i = i + 1;
        }
        proof {
            assert(sorted@.take(i as int) =~= sorted@);
            lemma_sorting_keeps_bad_all(input, sorted@);
            assert(is_path_sorting(self@, sorted@));
        }
        Ok(out)
    }
}

/// Every entry of the input occurs in a stable sorting of it, and back.
proof fn lemma_with_key_member(s: Seq<ManifestEntry>, k: Seq<u8>, j: int)
    requires
        0 <= j < s.len(),
        path_key(s[j]) == k,
    ensures
        with_key(s, k).contains(s[j]),
    decreases s.len(),
{
    if j == s.len() - 1 {
        assert(with_key(s, k).last() == s[j]);
    } else {
        lemma_with_key_member(s.drop_last(), k, j);
        if path_key(s.last()) == k {
            let w = with_key(s.drop_last(), k);
            let i = choose|i: int| 0 <= i < w.len() && w[i] == s[j];
            assert(w.push(s.last())[i] == s[j]);
        }
    }
}

proof fn lemma_with_key_keys(s: Seq<ManifestEntry>, k: Seq<u8>, x: ManifestEntry)
    requires
        with_key(s, k).contains(x),
    ensures
        path_key(x) == k,
        s.contains(x),
    decreases s.len(),
{
    if s.len() > 0 {
        let w = with_key(s.drop_last(), k);
        let i = choose|i: int| 0 <= i < with_key(s, k).len() && with_key(s, k)[i] == x;
        if path_key(s.last()) == k && i == w.len() {
            assert(s[s.len() - 1] == x);
        } else {
            assert(w[i] == x);
            lemma_with_key_keys(s.drop_last(), k, x);
            let j = choose|j: int| 0 <= j < s.drop_last().len() && s.drop_last()[j] == x;
            assert(s[j] == x);
        }
    }
}

proof fn lemma_sorting_keeps_bad(input: Seq<ManifestEntry>, out: Seq<ManifestEntry>, i: int)
    requires
        is_path_sorting(input, out),
        0 <= i < out.len(),
        bad_path(out[i]),
    ensures
        !(forall|j: int| 0 <= j < input.len() ==> !bad_path(#[trigger] input[j])),
{
    let k = path_key(out[i]);
    lemma_with_key_member(out, k, i);
    assert(with_key(out, k) == with_key(input, k));
    lemma_with_key_keys(input, k, out[i]);
    let j = choose|j: int| 0 <= j < input.len() && input[j] == out[i];
    assert(bad_path(input[j]));
}

proof fn lemma_sorting_keeps_bad_all(input: Seq<ManifestEntry>, out: Seq<ManifestEntry>)
    requires
        is_path_sorting(input, out),
        forall|j: int| 0 <= j < out.len() ==> !bad_path(#[trigger] out[j]),
    ensures
        forall|j: int| 0 <= j < input.len() ==> !bad_path(#[trigger] input[j]),
{
    assert forall|j: int| 0 <= j < input.len() implies !bad_path(#[trigger] input[j]) by {
        let k = path_key(input[j]);
        lemma_with_key_member(input, k, j);
        assert(with_key(out, k) == with_key(input, k));
        lemma_with_key_keys(out, k, input[j]);
        let i = choose|i: int| 0 <= i < out.len() && out[i] == input[j];
        assert(!bad_path(out[i]));
    }
}


/// Why a size field is not a `u64` (the kinds of `ParseIntError` that `u64`
/// parsing can give).
#[derive(Debug, Copy, Clone, PartialEq, Eq, Structural)]
pub enum IntErrorKind {
    Empty,
    InvalidDigit,
    PosOverflow,
}

/// Why a manifest line is not an entry.
#[derive(Debug, Copy, Clone, PartialEq, Eq, Structural)]
pub enum LineProblem {
    MissingSize,
    MissingPath,
    BadSize(IntErrorKind),
}

/// The index of the first `x` in `b`, or the length of `b` when there is none.
pub open spec fn index_of(b: Seq<u8>, x: u8) -> nat
    decreases b.len(),
{
    if b.len() == 0 {
        0
    } else if b[0] == x {
        0
    } else {
        1 + index_of(b.drop_first(), x)
    }
}

pub proof fn lemma_index_of(b: Seq<u8>, x: u8)
    ensures
        index_of(b, x) <= b.len(),
        index_of(b, x) < b.len() ==> b[index_of(b, x) as int] == x,
        forall|j: int| 0 <= j < index_of(b, x) ==> b[j] != x,
    decreases b.len(),
{
    if b.len() > 0 && b[0] != x {
        lemma_index_of(b.drop_first(), x);
        assert forall|j: int| 0 <= j < index_of(b, x) implies b[j] != x by {
            if j > 0 {
                assert(b[j] == b.drop_first()[j - 1]);
            }
        }
    }
}

/// The value of decimal digits read left to right after `acc`, failing on the
/// first byte that is not a digit or that takes the value past `u64::MAX`.
pub open spec fn digits_value(d: Seq<u8>, acc: nat) -> Result<u64, IntErrorKind>
    decreases d.len(),
{
    if d.len() == 0 {
        Ok(acc as u64)
    } else if !(48 <= d[0] <= 57) {
        Err(IntErrorKind::InvalidDigit)
    } else if acc * 10 + (d[0] - 48) > u64::MAX {
        Err(IntErrorKind::PosOverflow)
    } else {
        digits_value(d.drop_first(), (acc * 10 + (d[0] - 48)) as nat)
    }
}

/// `u64::from_str`: an optional `+`, then one or more decimal digits.
pub open spec fn parse_u64_spec(s: Seq<u8>) -> Result<u64, IntErrorKind> {
    if s.len() == 0 {
        Err(IntErrorKind::Empty)
    } else if s.len() == 1 && (s[0] == 43 || s[0] == 45) {
        Err(IntErrorKind::InvalidDigit)
    } else if s[0] == 43 {
        digits_value(s.drop_first(), 0)
    } else {
        digits_value(s, 0)
    }
}

/// A line with its trailing carriage return removed.
pub open spec fn strip_cr(l: Seq<u8>) -> Seq<u8> {
    if l.len() > 0 && l.last() == 13 {
        l.drop_last()
    } else {
        l
    }
}

/// The first line of a text and what follows its line ending (`str::lines`:
/// lines end at `\n` or `\r\n`; the last line may lack an ending and then
/// keeps a trailing `\r`).
pub open spec fn first_line(b: Seq<u8>) -> (Seq<u8>, Seq<u8>) {
    let i = index_of(b, 10);
    if i == b.len() {
        (b, Seq::empty())
    } else {
        (strip_cr(b.take(i as int)), b.skip(i as int + 1))
    }
}

/// Blank lines and comment lines carry no entry.
pub open spec fn skipped_line(l: Seq<u8>) -> bool {
    l.len() == 0 || l[0] == 35
}

/// The fields of an entry line: digest, size and path, split at the first two
/// tabs (the path keeps any further tab).
pub open spec fn line_fields(line: Seq<u8>) -> Result<(Seq<u8>, u64, Seq<u8>), LineProblem> {
    let t1 = index_of(line, 9);
    if t1 == line.len() {
        Err(LineProblem::MissingSize)
    } else {
        let rest = line.skip(t1 as int + 1);
        let t2 = index_of(rest, 9);
        if t2 == rest.len() {
            Err(LineProblem::MissingPath)
        } else {
            match parse_u64_spec(rest.take(t2 as int)) {
                Ok(n) => Ok((line.take(t1 as int), n, rest.skip(t2 as int + 1))),
                Err(k) => Err(LineProblem::BadSize(k)),
            }
        }
    }
}

/// The entries of a manifest text whose first line has number `n`, or the
/// first line, in order, that is not an entry.
pub open spec fn parse_text(b: Seq<u8>, n: nat) -> Result<Seq<(Seq<u8>, u64, Seq<u8>)>, (nat, LineProblem)>
    decreases b.len(),
{
    if b.len() == 0 {
        Ok(Seq::empty())
    } else {
        proof {
            lemma_index_of(b, 10);
        }
        let (line, rest) = first_line(b);
        if skipped_line(line) {
            parse_text(rest, n + 1)
        } else {
            match line_fields(line) {
                Err(p) => Err((n, p)),
                Ok(m) => match parse_text(rest, n + 1) {
                    Ok(ms) => Ok(seq![m] + ms),
                    Err(x) => Err(x),
                },
            }
        }
    }
}

/// An entry seen as the bytes of its fields.
pub open spec fn entry_model(e: ManifestEntry) -> (Seq<u8>, u64, Seq<u8>) {
    (utf8(e.blake3_hex@), e.size, utf8(e.path@))
}

/// The message `ParseIntError` displays for each kind.
pub open spec fn int_error_text(k: IntErrorKind) -> Seq<char> {
    match k {
        IntErrorKind::Empty => "cannot parse integer from empty string"@,
        IntErrorKind::InvalidDigit => "invalid digit found in string"@,
        IntErrorKind::PosOverflow => "number too large to fit in target type"@,
    }
}

/// The message for a line that is not an entry.
pub open spec fn line_problem_text(n: nat, p: LineProblem) -> Seq<char> {
    "line "@ + dec_chars(n) + match p {
        LineProblem::MissingSize => ": missing size"@,
        LineProblem::MissingPath => ": missing path"@,
        LineProblem::BadSize(k) => ": bad size: "@ + int_error_text(k),
    }
}

/// Whether bytes are UTF-8, with the slice as text (`std::str::from_utf8`);
/// the error is the displayed `Utf8Error`.
#[verifier::external_body]
pub(crate) fn utf8_str<'a>(b: &'a [u8]) -> (r: Result<&'a str, String>)
    ensures
        r is Ok <==> valid_utf8(b@),
        r matches Ok(s) ==> s.spec_bytes() == b@,
{
    match std::str::from_utf8(b) {
        Ok(s) => Ok(s),
        Err(e) => Err(e.to_string()),
    }
}

/// A stretch of valid UTF-8 that starts and ends next to ASCII bytes (or at
/// the ends) is valid UTF-8 by itself.
proof fn lemma_valid_between_ascii(b: Seq<u8>, a: int, c: int)
    requires
        valid_utf8(b),
        0 <= a <= c <= b.len(),
        a == 0 || b[a - 1] < 0x80,
        c == b.len() || b[c] < 0x80,
    ensures
        valid_utf8(b.subrange(a, c)),
{
    let n = b.len() as int;
    if a > 0 {
        is_char_boundary_iff_not_is_continuation_byte(b, a - 1);
        valid_utf8_split(b, a - 1);
        let t = b.subrange(a - 1, n);
        assert(is_leading_byte_width_1(t[0]));
        assert(pop_first_scalar(t) =~= b.subrange(a, n));
    } else {
        assert(b.subrange(0, n) =~= b);
    }
    let s = b.subrange(a, n);
    assert(valid_utf8(s));
    if c < n {
        assert(s[c - a] == b[c]);
        is_char_boundary_iff_not_is_continuation_byte(s, c - a);
        valid_utf8_split(s, c - a);
        assert(s.subrange(0, c - a) =~= b.subrange(a, c));
    } else {
        assert(s =~= b.subrange(a, c));
    }
}

/// The position of the first `x` in `b[from..to]`, or `to`.
fn find_byte(b: &[u8], from: usize, to: usize, x: u8) -> (r: usize)
    requires
        from <= to <= b@.len(),
    ensures
        from <= r <= to,
        r - from == index_of(b@.subrange(from as int, to as int), x),
{
    let mut j = from;
    while j < to && b[j] != x
        invariant
            from <= j <= to,
            to <= b@.len(),
            forall|k: int| from <= k < j ==> b@[k] != x,
        decreases to - j,
    {
        j = j + 1;
    }
    proof {
        let s = b@.subrange(from as int, to as int);
        lemma_index_of(s, x);
        let i = index_of(s, x);
        if i < j - from {
            assert(s[i as int] == b@[from + i]);
        }
        if j - from < i {
            assert(s[j - from] == b@[j as int]);
        }
    }
    j - from + from
}

/// `u64::from_str` on bytes.
fn parse_u64_bytes(s: &[u8]) -> (r: Result<u64, IntErrorKind>)
    ensures
        r == parse_u64_spec(s@),
{
    let n = s.len();
    if n == 0 {
        return Err(IntErrorKind::Empty);
    }
    if n == 1 && (s[0] == 43 || s[0] == 45) {
        return Err(IntErrorKind::InvalidDigit);
    }
    let mut i: usize = if s[0] == 43 { 1 } else { 0 };
    let ghost d = if s@[0] == 43 { s@.drop_first() } else { s@ };
    assert(s@.skip(i as int) =~= d);
    let mut acc: u64 = 0;
    while i < n
        invariant
            i <= n,
            n == s@.len(),
            parse_u64_spec(s@) == digits_value(s@.skip(i as int), acc as nat),
        decreases n - i,
    {
        let c = s[i];
        assert(s@.skip(i as int)[0] == c);
        assert(s@.skip(i as int).drop_first() =~= s@.skip(i + 1));
        if c < 48 || c > 57 {
            return Err(IntErrorKind::InvalidDigit);
        }
        if acc > 1844674407370955161 || (acc == 1844674407370955161 && c - 48 > 5) {
            return Err(IntErrorKind::PosOverflow);
        }
        acc = acc * 10 + (c - 48) as u64;
        i = i + 1;
    }
    assert(s@.skip(i as int) =~= Seq::<u8>::empty());
    Ok(acc)
}

/// The message of a line that is not an entry.
fn line_problem_message(n: u64, p: LineProblem) -> (r: String)
    ensures
        r@ == line_problem_text(n as nat, p),
{
    let mut m = String::from_str("line ");
    let num = decimal_string(n);
    m.append(num.as_str());
    match p {
        LineProblem::MissingSize => m.append(": missing size"),
        LineProblem::MissingPath => m.append(": missing path"),
        LineProblem::BadSize(k) => {
            m.append(": bad size: ");
            match k {
                IntErrorKind::Empty => m.append("cannot parse integer from empty string"),
                IntErrorKind::InvalidDigit => m.append("invalid digit found in string"),
                IntErrorKind::PosOverflow => m.append("number too large to fit in target type"),
            }
        },
    }
    m
}

/// Puts the entries parsed so far in front of the result of the rest.
pub open spec fn after_models(
    done: Seq<(Seq<u8>, u64, Seq<u8>)>,
    rest: Result<Seq<(Seq<u8>, u64, Seq<u8>)>, (nat, LineProblem)>,
) -> Result<Seq<(Seq<u8>, u64, Seq<u8>)>, (nat, LineProblem)> {
    match rest {
        Ok(ms) => Ok(done + ms),
        Err(x) => Err(x),
    }
}

/// The text of `b[a..c]` as a string; `b` is UTF-8 and the stretch is bounded
/// by ASCII bytes.
fn owned_text(b: &[u8], a: usize, c: usize) -> (r: String)
    requires
        valid_utf8(b@),
        a <= c <= b@.len(),
        a == 0 || b@[a - 1] < 0x80,
        c == b@.len() || b@[c as int] < 0x80,
    ensures
        utf8(r@) == b@.subrange(a as int, c as int),
{
    proof {
        lemma_valid_between_ascii(b@, a as int, c as int);
    }
    let piece = vstd::slice::slice_subrange(b, a, c);
    match utf8_str(piece) {
        Ok(s) => s.to_owned(),
        Err(_) => {
            assert(false);
            String::new()
        },
    }
}

/// The entry on the line `b[pos..end]`: none for a blank or comment line.
fn parse_line(b: &[u8], pos: usize, end: usize, lineno: u64) -> (r: Result<
    Option<ManifestEntry>,
    Error,
>)
    requires
        valid_utf8(b@),
        pos <= end <= b@.len(),
        pos == 0 || b@[pos - 1] < 0x80,
        end == b@.len() || b@[end as int] < 0x80,
    ensures
        ({
            let line = b@.subrange(pos as int, end as int);
            if skipped_line(line) {
                r matches Ok(None)
            } else {
                match line_fields(line) {
                    Ok(m) => r matches Ok(Some(e)) && entry_model(e) == m,
                    Err(p) => r matches Err(Error::Manifest(msg)) && msg@ == line_problem_text(
                        lineno as nat,
                        p,
                    ),
                }
            }
        }),
{
    let ghost line = b@.subrange(pos as int, end as int);
    if end == pos || b[pos] == 35 {
        assert(skipped_line(line));
        return Ok(None);
    }
    assert(line[0] == b@[pos as int]);
    let t1 = find_byte(b, pos, end, 9);
    proof {
        lemma_index_of(line, 9);
    }
    if t1 == end {
        return Err(Error::Manifest(line_problem_message(lineno, LineProblem::MissingSize)));
    }
    let t2 = find_byte(b, t1 + 1, end, 9);
    let ghost rest = line.skip(t1 - pos + 1);
    proof {
        assert(rest =~= b@.subrange(t1 + 1, end as int));
        lemma_index_of(rest, 9);
    }
    if t2 == end {
        return Err(Error::Manifest(line_problem_message(lineno, LineProblem::MissingPath)));
    }
    let size_bytes = vstd::slice::slice_subrange(b, t1 + 1, t2);
    assert(rest.take(t2 - t1 - 1) =~= size_bytes@);
    let size = match parse_u64_bytes(size_bytes) {
        Ok(v) => v,
        Err(k) => {
            return Err(Error::Manifest(line_problem_message(lineno, LineProblem::BadSize(k))));
        },
    };
    let hex = owned_text(b, pos, t1);
    let path = owned_text(b, t2 + 1, end);
    let entry = ManifestEntry { blake3_hex: hex, size, path };
    assert(line.take(t1 - pos) =~= b@.subrange(pos as int, t1 as int));
    assert(rest.skip(t2 - t1) =~= b@.subrange(t2 + 1, end as int));
    Ok(Some(entry))
}

/// One step of `parse_text`: the first line decides.
proof fn lemma_parse_text_step(b: Seq<u8>, n: nat)
    requires
        b.len() > 0,
    ensures
        ({
            let (line, rest) = first_line(b);
            parse_text(b, n) == if skipped_line(line) {
                parse_text(rest, n + 1)
            } else {
                match line_fields(line) {
                    Err(p) => Err((n, p)),
                    Ok(m) => after_models(seq![m], parse_text(rest, n + 1)),
                }
            }
        }),
{
    let (line, rest) = first_line(b);
    if !skipped_line(line) {
        match line_fields(line) {
            Err(p) => {},
            Ok(m) => {
                match parse_text(rest, n + 1) {
                    Ok(ms) => {},
                    Err(x) => {},
                }
            },
        }
    }
}

/// Reads a manifest: skips blank and `#` lines and reads every other line as
/// digest, size and path separated by tabs.
#[verifier::rlimit(40)]
pub fn parse(bytes: &[u8]) -> (r: Result<Vec<ManifestEntry>, Error>)
    ensures
        !valid_utf8(bytes@) ==> (r matches Err(Error::Manifest(m)) && m@.len() >= 19
            && m@.take(19) == "non-utf8 manifest: "@),
        valid_utf8(bytes@) ==> match parse_text(bytes@, 1) {
            Ok(ms) => r matches Ok(v) && v@.len() == ms.len() && forall|i: int|
                0 <= i < ms.len() ==> #[trigger] entry_model(v@[i]) == ms[i],
            Err((n, p)) => r matches Err(Error::Manifest(m)) && m@ == line_problem_text(n, p),
        },
{
    match utf8_str(bytes) {
        Err(detail) => {
            let mut m = String::from_str("non-utf8 manifest: ");
            let ghost head = m@;
            m.append(detail.as_str());
            proof {
                reveal_strlit("non-utf8 manifest: ");
                assert(m@.take(19) =~= head);
            }
            return Err(Error::Manifest(m));
        },
        Ok(_) => {},
    }
    let n = bytes.len();
    let mut out: Vec<ManifestEntry> = Vec::new();
    let mut pos: usize = 0;
    let mut done: usize = 0;
    let ghost models: Seq<(Seq<u8>, u64, Seq<u8>)> = Seq::empty();
    assert(bytes@.subrange(0, n as int) =~= bytes@);
    while pos < n
        invariant
            pos <= n,
            n == bytes@.len(),
            valid_utf8(bytes@),
            done <= pos,
            pos == 0 || pos == n || bytes@[pos - 1] == 10,
            out@.len() == models.len(),
            forall|i: int| 0 <= i < models.len() ==> #[trigger] entry_model(out@[i]) == models[i],
            parse_text(bytes@, 1) == after_models(
                models,
                parse_text(bytes@.subrange(pos as int, n as int), done as nat + 1),
            ),
        decreases n - pos,
    {
        let ghost rem = bytes@.subrange(pos as int, n as int);
        let j = find_byte(bytes, pos, n, 10);
        let mut end = j;
        if j < n && end > pos && bytes[end - 1] == 13 {
            end = end - 1;
        }
        let next = if j < n { j + 1 } else { n };
        proof {
            lemma_index_of(rem, 10);
            let fl = first_line(rem);
            if j < n {
                assert(rem.take((j - pos) as int) =~= bytes@.subrange(pos as int, j as int));
            }
            assert(fl.0 =~= bytes@.subrange(pos as int, end as int));
            assert(fl.1 =~= bytes@.subrange(next as int, n as int));
        }
        let lineno: u64 = done as u64 + 1;
        proof {
            lemma_parse_text_step(rem, lineno as nat);
        }
        let parsed = parse_line(bytes, pos, end, lineno);
        match parsed {
            Err(e) => {
                return Err(e);
            },
            Ok(None) => {},
            Ok(Some(entry)) => {
                proof {
                    let ghost old_models = models;
                    let m = entry_model(entry);
                    models = models.push(m);
                    let rest_spec = parse_text(bytes@.subrange(next as int, n as int), lineno as nat + 1);
                    match rest_spec {
                        Ok(ms) => {
                            assert(old_models + (seq![m] + ms) =~= models + ms);
                        },
                        Err(_) => {},
                    }
                    assert(after_models(old_models, after_models(seq![m], rest_spec)) == after_models(models, rest_spec));
                }
                out.push(entry);
            },
        }
        pos = next;
        done = done + 1;
    }
    assert(bytes@.subrange(n as int, n as int) =~= Seq::<u8>::empty());
    assert(models + Seq::<(Seq<u8>, u64, Seq<u8>)>::empty() =~= models);
    Ok(out)
}


/// An entry whose line reads back as itself: digest and path hold no tab or
/// newline, the digest does not start with `#`, and the path does not end
/// with a carriage return.
pub open spec fn line_safe(e: ManifestEntry) -> bool {
    &&& lacks(e.blake3_hex@, '\t')
    &&& lacks(e.blake3_hex@, '\n')
    &&& (e.blake3_hex@.len() == 0 || e.blake3_hex@[0] != '#')
    &&& !bad_path(e)
    &&& (e.path@.len() == 0 || e.path@.last() != '\r')
}

proof fn lemma_index_of_concat(a: Seq<u8>, b: Seq<u8>, x: u8)
    requires
        lacks(a, x),
    ensures
        index_of(a + b, x) == a.len() + index_of(b, x),
    decreases a.len(),
{
    if a.len() == 0 {
        assert(a + b =~= b);
    } else {
        assert((a + b)[0] == a[0]);
        assert((a + b).drop_first() =~= a.drop_first() + b);
        lemma_index_of_concat(a.drop_first(), b, x);
    }
}

proof fn lemma_ascii_valid(b: Seq<u8>)
    requires
        forall|i: int| 0 <= i < b.len() ==> b[i] < 0x80,
    ensures
        valid_utf8(b),
{
    assert(b.subrange(0, 0) =~= Seq::<u8>::empty());
    assert(partial_valid_utf8(b, 0));
    partial_valid_utf8_extend_ascii_block(b, 0, b.len() as int);
    assert(b.subrange(0, b.len() as int) =~= b);
}

proof fn lemma_digits_value_concat(a: Seq<u8>, b: Seq<u8>, acc: nat)
    requires
        acc <= u64::MAX,
    ensures
        digits_value(a + b, acc) == match digits_value(a, acc) {
            Ok(v) => digits_value(b, v as nat),
            Err(k) => Err(k),
        },
    decreases a.len(),
{
    if a.len() == 0 {
        assert(a + b =~= b);
    } else {
        assert((a + b)[0] == a[0]);
        assert((a + b).drop_first() =~= a.drop_first() + b);
        if 48 <= a[0] <= 57 && acc * 10 + (a[0] - 48) <= u64::MAX {
            lemma_digits_value_concat(a.drop_first(), b, (acc * 10 + (a[0] - 48)) as nat);
        }
    }
}

proof fn lemma_digits_value_dec(n: u64)
    ensures
        digits_value(dec_digits(n as nat), 0) == Ok::<u64, IntErrorKind>(n),
    decreases n,
{
    if n < 10 {
        let d = dec_digits(n as nat);
        assert(d =~= seq![(48 + n) as u8]);
        assert(d[0] - 48 == n);
        assert(d.drop_first() =~= Seq::<u8>::empty());
        assert(digits_value(d.drop_first(), n as nat) == Ok::<u64, IntErrorKind>(n));
    } else {
        let q = n / 10;
        lemma_digits_value_dec(q);
        let d = seq![(48 + n % 10) as u8];
        assert(dec_digits(n as nat) == dec_digits(q as nat) + d);
        lemma_digits_value_concat(dec_digits(q as nat), d, 0);
        assert(d.drop_first() =~= Seq::<u8>::empty());
        assert(d[0] - 48 == n % 10);
        assert(q * 10 + n % 10 == n);
        assert(digits_value(d.drop_first(), n as nat) == Ok::<u64, IntErrorKind>(n));
        assert(digits_value(d, q as nat) == Ok::<u64, IntErrorKind>(n));
    }
}

proof fn lemma_parse_u64_dec(n: u64)
    ensures
        parse_u64_spec(dec_digits(n as nat)) == Ok::<u64, IntErrorKind>(n),
{
    crate::text::lemma_dec_digits_shape(n as nat);
    lemma_digits_value_dec(n);
    let d = dec_digits(n as nat);
    assert(48 <= d[0] <= 57);
}

proof fn lemma_render_lines_front(s: Seq<ManifestEntry>)
    requires
        s.len() > 0,
    ensures
        render_lines(s) == render_line(s[0]) + render_lines(s.drop_first()),
    decreases s.len(),
{
    if s.len() == 1 {
        assert(s.drop_last() =~= Seq::<ManifestEntry>::empty());
        assert(s.drop_first() =~= Seq::<ManifestEntry>::empty());
        assert(render_line(s[0]) + Seq::<u8>::empty() =~= render_line(s[0]));
    } else {
        lemma_render_lines_front(s.drop_last());
        assert(s.drop_last().drop_first() =~= s.drop_first().drop_last());
        assert(s.drop_first().last() == s.last());
        assert(s.drop_last()[0] == s[0]);
    }
}

/// The line of a safe entry, without its newline.
spec fn line_body(e: ManifestEntry) -> Seq<u8> {
    utf8(e.blake3_hex@) + seq![9u8] + dec_digits(e.size as nat) + seq![9u8] + utf8(e.path@)
}

proof fn lemma_line_reads_back(e: ManifestEntry, rest: Seq<u8>, n: nat)
    requires
        line_safe(e),
    ensures
        parse_text(render_line(e) + rest, n) == after_models(seq![entry_model(e)], parse_text(rest, n + 1)),
{
    let h = utf8(e.blake3_hex@);
    let p = utf8(e.path@);
    let d = dec_digits(e.size as nat);
    let body = line_body(e);
    let b = render_line(e) + rest;
    assert(9u8 as char == '\t');
    assert(10u8 as char == '\n');
    assert(35u8 as char == '#');
    assert(13u8 as char == '\r');
    crate::text::lemma_utf8_lacks_ascii(e.blake3_hex@, 9u8);
    crate::text::lemma_utf8_lacks_ascii(e.blake3_hex@, 10u8);
    crate::text::lemma_utf8_lacks_ascii(e.path@, 9u8);
    crate::text::lemma_utf8_lacks_ascii(e.path@, 10u8);
    crate::text::lemma_dec_digits_shape(e.size as nat);
    assert(lacks(d, 9u8) && lacks(d, 10u8));
    // the line ends at the newline after the body
    assert(render_line(e) == body + seq![10u8]);
    assert(b =~= body + (seq![10u8] + rest));
    assert(lacks(body, 10u8)) by {
        assert forall|i: int| 0 <= i < body.len() implies body[i] != 10u8 by {
            if i < h.len() {
                assert(body[i] == h[i]);
            } else if i == h.len() {
            } else if i < h.len() + 1 + d.len() {
                assert(body[i] == d[i - h.len() - 1]);
            } else if i == h.len() + 1 + d.len() {
            } else {
                assert(body[i] == p[i - h.len() - 2 - d.len()]);
            }
        }
    }
    lemma_index_of_concat(body, seq![10u8] + rest, 10u8);
    assert((seq![10u8] + rest)[0] == 10u8);
    assert(index_of(b, 10u8) == body.len());
    assert(b.take(body.len() as int) =~= body);
    assert(b.skip(body.len() as int + 1) =~= rest);
    // no carriage return at its end
    if e.path@.len() > 0 {
        crate::text::lemma_utf8_last(e.path@, 13u8);
        assert(body.last() == p.last());
    }
    assert(strip_cr(body) == body);
    // the first byte is not '#'
    if e.blake3_hex@.len() > 0 {
        crate::text::lemma_utf8_first(e.blake3_hex@, 35u8);
        assert(body[0] == h[0]);
    } else {
        crate::text::lemma_utf8_empty(e.blake3_hex@);
        assert(body[0] == 9u8);
    }
    assert(!skipped_line(body));
    // the fields
    assert(body =~= h + (seq![9u8] + (d + seq![9u8] + p)));
    lemma_index_of_concat(h, seq![9u8] + (d + seq![9u8] + p), 9u8);
    let t1 = h.len();
    assert(index_of(body, 9u8) == t1);
    let rest1 = body.skip(t1 as int + 1);
    assert(rest1 =~= d + (seq![9u8] + p));
    lemma_index_of_concat(d, seq![9u8] + p, 9u8);
    assert(index_of(rest1, 9u8) == d.len());
    assert(rest1.take(d.len() as int) =~= d);
    assert(rest1.skip(d.len() as int + 1) =~= p);
    assert(body.take(t1 as int) =~= h);
    lemma_parse_u64_dec(e.size);
    assert(line_fields(body) == Ok::<(Seq<u8>, u64, Seq<u8>), LineProblem>(entry_model(e)));
    assert(first_line(b) == (body, rest));
    lemma_parse_text_step(b, n);
}

proof fn lemma_lines_read_back(s: Seq<ManifestEntry>, n: nat)
    requires
        forall|i: int| 0 <= i < s.len() ==> line_safe(#[trigger] s[i]),
    ensures
        parse_text(render_lines(s), n) == Ok::<Seq<(Seq<u8>, u64, Seq<u8>)>, (nat, LineProblem)>(
            s.map_values(|e: ManifestEntry| entry_model(e)),
        ),
    decreases s.len(),
{
    if s.len() == 0 {
        assert(s.map_values(|e: ManifestEntry| entry_model(e)) =~= Seq::<(Seq<u8>, u64, Seq<u8>)>::empty());
    } else {
        lemma_render_lines_front(s);
        let rest = s.drop_first();
        assert forall|i: int| 0 <= i < rest.len() implies line_safe(#[trigger] rest[i]) by {
            assert(rest[i] == s[i + 1]);
        }
        lemma_lines_read_back(rest, n + 1);
        assert(line_safe(s[0]));
        lemma_line_reads_back(s[0], render_lines(rest), n);
        assert(seq![entry_model(s[0])] + rest.map_values(|e: ManifestEntry| entry_model(e))
            =~= s.map_values(|e: ManifestEntry| entry_model(e)));
    }
}


proof fn lemma_skip_comment(l: Seq<u8>, rest: Seq<u8>, n: nat)
    requires
        lacks(l, 10u8),
        l.len() > 0,
        l[0] == 35,
    ensures
        parse_text(l + seq![10u8] + rest, n) == parse_text(rest, n + 1),
{
    let b = l + seq![10u8] + rest;
    assert(b =~= l + (seq![10u8] + rest));
    lemma_index_of_concat(l, seq![10u8] + rest, 10u8);
    assert((seq![10u8] + rest)[0] == 10u8);
    assert(b.take(l.len() as int) =~= l);
    assert(b.skip(l.len() as int + 1) =~= rest);
    assert(strip_cr(l)[0] == 35);
    lemma_parse_text_step(b, n);
}

proof fn lemma_header_shape()
    ensures
        ({
            let h = utf8(MANIFEST_HEADER@);
            &&& h.len() == 44
            &&& forall|i: int| 0 <= i < 44 ==> h[i] < 0x80
            &&& h[0] == 35 && h[20] == 10 && h[21] == 35 && h[43] == 10
            &&& forall|i: int| 0 <= i < 20 ==> h[i] != 10
            &&& forall|i: int| 21 <= i < 43 ==> h[i] != 10
        }),
{
    reveal_strlit("# minbup manifest v1\n# blake3-hex\tsize\tpath\n");
    let c = MANIFEST_HEADER@;
    assert(c.len() == 44);
    assert(is_ascii_chars(c));
    is_ascii_chars_encode_utf8(c);
    let h = utf8(c);
    assert forall|i: int| 0 <= i < 44 implies h[i] < 0x80 by {
        assert(c[i] as u8 == h[i]);
    }
    assert(c[0] as u8 == h[0]);
    assert(c[20] as u8 == h[20]);
    assert(c[21] as u8 == h[21]);
    assert(c[43] as u8 == h[43]);
    assert forall|i: int| 0 <= i < 20 implies h[i] != 10 by {
        assert(c[i] as u8 == h[i]);
    }
    assert forall|i: int| 21 <= i < 43 implies h[i] != 10 by {
        assert(c[i] as u8 == h[i]);
    }
}

proof fn lemma_lines_valid(s: Seq<ManifestEntry>)
    ensures
        valid_utf8(render_lines(s)),
    decreases s.len(),
{
    if s.len() > 0 {
        let e = s.last();
        lemma_lines_valid(s.drop_last());
        encode_utf8_valid_utf8(e.blake3_hex@);
        encode_utf8_valid_utf8(e.path@);
        crate::text::lemma_dec_digits_shape(e.size as nat);
        let d = dec_digits(e.size as nat);
        lemma_ascii_valid(seq![9u8]);
        lemma_ascii_valid(seq![10u8]);
        lemma_ascii_valid(d);
        let h = utf8(e.blake3_hex@);
        let p = utf8(e.path@);
        valid_utf8_concat(h, seq![9u8]);
        valid_utf8_concat(h + seq![9u8], d);
        valid_utf8_concat(h + seq![9u8] + d, seq![9u8]);
        valid_utf8_concat(h + seq![9u8] + d + seq![9u8], p);
        valid_utf8_concat(h + seq![9u8] + d + seq![9u8] + p, seq![10u8]);
        valid_utf8_concat(render_lines(s.drop_last()), render_line(e));
    }
}

/// Reading back the manifest written for entries gives those entries, field
/// for field and in the same order, whenever each entry's line is safe (see
/// `line_safe`).
pub proof fn lemma_manifest_roundtrip(out: Seq<ManifestEntry>)
    requires
        forall|i: int| 0 <= i < out.len() ==> line_safe(#[trigger] out[i]),
    ensures
        valid_utf8(render_manifest(out)),
        parse_text(render_manifest(out), 1) == Ok::<Seq<(Seq<u8>, u64, Seq<u8>)>, (nat, LineProblem)>(
            out.map_values(|e: ManifestEntry| entry_model(e)),
        ),
{
    lemma_header_shape();
    let h = utf8(MANIFEST_HEADER@);
    let body = render_lines(out);
    let l1 = h.take(20);
    let l2 = h.subrange(21, 43);
    assert(h =~= l1 + seq![10u8] + l2 + seq![10u8]);
    assert(l1[0] == 35);
    assert(l2[0] == 35);
    assert(lacks(l1, 10u8));
    assert(lacks(l2, 10u8));
    assert(render_manifest(out) =~= l1 + seq![10u8] + (l2 + seq![10u8] + body));
    lemma_skip_comment(l1, l2 + seq![10u8] + body, 1);
    lemma_skip_comment(l2, body, 2);
    lemma_lines_read_back(out, 3);
    lemma_ascii_valid(h);
    lemma_lines_valid(out);
    valid_utf8_concat(h, body);
}


pub proof fn lemma_sorting_member(input: Seq<ManifestEntry>, out: Seq<ManifestEntry>, i: int)
    requires
        is_path_sorting(input, out),
        0 <= i < out.len(),
    ensures
        input.contains(out[i]),
{
    let k = path_key(out[i]);
    lemma_with_key_member(out, k, i);
    assert(with_key(out, k) == with_key(input, k));
    lemma_with_key_keys(input, k, out[i]);
}

/// What `parse` reads back of the bytes `into_bytes` writes: the builder's
/// entries sorted by path (stably), field for field, whenever every entry's
/// line is safe (see `line_safe`).
pub proof fn lemma_builder_roundtrip(entries: Seq<ManifestEntry>, out: Seq<ManifestEntry>)
    requires
        is_path_sorting(entries, out),
        forall|j: int| 0 <= j < entries.len() ==> line_safe(#[trigger] entries[j]),
    ensures
        forall|i: int| 0 <= i < out.len() ==> !bad_path(#[trigger] out[i]),
        valid_utf8(render_manifest(out)),
        parse_text(render_manifest(out), 1) == Ok::<Seq<(Seq<u8>, u64, Seq<u8>)>, (nat, LineProblem)>(
            out.map_values(|e: ManifestEntry| entry_model(e)),
        ),
{
    assert forall|i: int| 0 <= i < out.len() implies line_safe(#[trigger] out[i]) by {
        lemma_sorting_member(entries, out, i);
        let j = choose|j: int| 0 <= j < entries.len() && entries[j] == out[i];
        assert(line_safe(entries[j]));
    }
    lemma_manifest_roundtrip(out);
}

proof fn lemma_key_present(s: Seq<ManifestEntry>)
    requires
        s.len() > 0,
    ensures
        with_key(s, path_key(s.last())).len() > 0,
        with_key(s, path_key(s.last())).last() == s.last(),
        with_key(s, path_key(s.last())).drop_last() == with_key(s.drop_last(), path_key(s.last())),
{
}

proof fn lemma_sorted_same_keys_equal(a: Seq<ManifestEntry>, b: Seq<ManifestEntry>)
    requires
        sorted_by_path(a),
        sorted_by_path(b),
        forall|k: Seq<u8>| #[trigger] with_key(a, k) == with_key(b, k),
    ensures
        a == b,
    decreases a.len() + b.len(),
{
    if a.len() == 0 && b.len() == 0 {
        assert(a =~= b);
    } else if a.len() == 0 {
        lemma_key_present(b);
        assert(with_key(a, path_key(b.last())).len() == 0);
    } else if b.len() == 0 {
        lemma_key_present(a);
        assert(with_key(b, path_key(a.last())).len() == 0);
    } else {
        let ka = path_key(a.last());
        let kb = path_key(b.last());
        lemma_sorted_all_le(a);
        lemma_sorted_all_le(b);
        lemma_key_present(a);
        lemma_key_present(b);
        if ka != kb {
            lemma_lex_total(ka, kb);
            if lex_le(ka, kb) {
                if lex_le(kb, ka) {
                    lemma_lex_antisym(ka, kb);
                }
                lemma_with_key_none(a, kb, ka);
                assert(with_key(a, kb) == with_key(b, kb));
            } else {
                lemma_with_key_none(b, ka, kb);
                assert(with_key(a, ka) == with_key(b, ka));
            }
        }
        assert(ka == kb);
        assert(with_key(a, ka) == with_key(b, ka));
        assert(a.last() == b.last());
        let a2 = a.drop_last();
        let b2 = b.drop_last();
        assert forall|k: Seq<u8>| #[trigger] with_key(a2, k) == with_key(b2, k) by {
            if k == ka {
                assert(with_key(a, ka).drop_last() == with_key(b, ka).drop_last());
            } else {
                assert(with_key(a, k) == with_key(b, k));
            }
        }
        lemma_sorted_same_keys_equal(a2, b2);
        assert(a =~= a2.push(a.last()));
        assert(b =~= b2.push(b.last()));
    }
}

/// The stable sort by path is unique: any two sequences that each sort the
/// same entries stably by path are equal, so `into_bytes` writes exactly one
/// byte string for a given builder.
pub proof fn lemma_path_sorting_unique(input: Seq<ManifestEntry>, a: Seq<ManifestEntry>, b: Seq<ManifestEntry>)
    requires
        is_path_sorting(input, a),
        is_path_sorting(input, b),
    ensures
        a == b,
{
    assert forall|k: Seq<u8>| #[trigger] with_key(a, k) == with_key(b, k) by {
        assert(with_key(a, k) == with_key(input, k));
        assert(with_key(b, k) == with_key(input, k));
    }
    lemma_sorted_same_keys_equal(a, b);
}

} // verus!
