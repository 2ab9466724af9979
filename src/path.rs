//! Case-insensitive archive paths.
//!
//! A path is a byte string of `/`-separated names. Paths compare and order
//! with ASCII letters folded to lower case, so `Docs/README.txt` and
//! `docs/readme.TXT` are the same path.
use vstd::prelude::*;
use core::cmp::Ordering;

verus! {

/// The separator between the names of a path.
pub const SEPARATOR: u8 = 0x2f;

/// `b` with an ASCII upper-case letter folded to lower case.
pub open spec fn fold_byte(b: u8) -> u8 {
    if 0x41 <= b <= 0x5a {
        (b + 0x20) as u8
    } else {
        b
    }
}

/// `s` with every ASCII upper-case letter folded to lower case.
pub open spec fn fold(s: Seq<u8>) -> Seq<u8> {
    s.map_values(|b: u8| fold_byte(b))
}

/// The lexicographic order of two byte strings: the first differing byte
/// decides, and a proper prefix comes first.
pub open spec fn lex_cmp(a: Seq<u8>, b: Seq<u8>) -> Ordering
    decreases a.len(),
{
    if a.len() == 0 {
        if b.len() == 0 {
            Ordering::Equal
        } else {
            Ordering::Less
        }
    } else if b.len() == 0 {
        Ordering::Greater
    } else if a[0] < b[0] {
        Ordering::Less
    } else if a[0] > b[0] {
        Ordering::Greater
    } else {
        lex_cmp(a.drop_first(), b.drop_first())
    }
}

/// The order of two paths: that of their folded bytes.
pub open spec fn path_cmp(a: Seq<u8>, b: Seq<u8>) -> Ordering {
    lex_cmp(fold(a), fold(b))
}

/// Whether two paths are equal: their folded bytes are.
pub open spec fn path_eq(a: Seq<u8>, b: Seq<u8>) -> bool {
    fold(a) == fold(b)
}

/// Two byte strings are in the `Equal` order exactly when they are equal.
pub proof fn lemma_lex_cmp_equal(a: Seq<u8>, b: Seq<u8>)
    ensures
        (lex_cmp(a, b) == Ordering::Equal) == (a == b),
    decreases a.len(),
{
    if a.len() > 0 && b.len() > 0 && a[0] == b[0] {
        lemma_lex_cmp_equal(a.drop_first(), b.drop_first());
        if a.drop_first() == b.drop_first() {
            assert(a =~= seq![a[0]] + a.drop_first());
            assert(b =~= seq![b[0]] + b.drop_first());
        }
        if a == b {
            assert(a.drop_first() =~= b.drop_first());
        }
    } else if a.len() > 0 && b.len() > 0 {
        assert(a[0] != b[0]);
    } else if a.len() == 0 && b.len() == 0 {
        assert(a =~= b);
    }
}

/// Swapping the arguments reverses the order.
pub proof fn lemma_lex_cmp_reverse(a: Seq<u8>, b: Seq<u8>)
    ensures
        (lex_cmp(a, b) == Ordering::Less) == (lex_cmp(b, a) == Ordering::Greater),
        (lex_cmp(a, b) == Ordering::Equal) == (lex_cmp(b, a) == Ordering::Equal),
    decreases a.len(),
{
    if a.len() > 0 && b.len() > 0 && a[0] == b[0] {
        lemma_lex_cmp_reverse(a.drop_first(), b.drop_first());
    }
}

/// The order is transitive.
pub proof fn lemma_lex_cmp_transitive(a: Seq<u8>, b: Seq<u8>, c: Seq<u8>)
    requires
        lex_cmp(a, b) == Ordering::Less,
        lex_cmp(b, c) == Ordering::Less,
    ensures
        lex_cmp(a, c) == Ordering::Less,
    decreases a.len(),
{
    if a.len() > 0 && b.len() > 0 && c.len() > 0 && a[0] == b[0] && b[0] == c[0] {
        lemma_lex_cmp_transitive(a.drop_first(), b.drop_first(), c.drop_first());
    }
}

/// Path equality and path order agree: two paths are equal exactly when
/// they compare `Equal`; swapping two paths reverses their order; and the
/// order is transitive, so it is a total order on paths up to case.
pub proof fn lemma_path_order(a: Seq<u8>, b: Seq<u8>, c: Seq<u8>)
    ensures
        path_eq(a, b) == (path_cmp(a, b) == Ordering::Equal),
        (path_cmp(a, b) == Ordering::Less) == (path_cmp(b, a) == Ordering::Greater),
        path_cmp(a, b) == Ordering::Less && path_cmp(b, c) == Ordering::Less ==> path_cmp(a, c)
            == Ordering::Less,
{
    lemma_lex_cmp_equal(fold(a), fold(b));
    lemma_lex_cmp_reverse(fold(a), fold(b));
    if path_cmp(a, b) == Ordering::Less && path_cmp(b, c) == Ordering::Less {
        lemma_lex_cmp_transitive(fold(a), fold(b), fold(c));
    }
}

/// `b` with an ASCII upper-case letter folded to lower case.
pub fn fold_u8(b: u8) -> (r: u8)
    ensures
        r == fold_byte(b),
{
    if 0x41 <= b && b <= 0x5a {
        b + 0x20
    } else {
        b
    }
}

/// Compares two byte strings with ASCII letters folded to lower case.
pub fn compare_folded(a: &[u8], b: &[u8]) -> (r: Ordering)
    ensures
        r == path_cmp(a@, b@),
{
    let ghost fa = fold(a@);
    let ghost fb = fold(b@);
    let mut i: usize = 0;
    assert(fa.skip(0) =~= fa && fb.skip(0) =~= fb);
    while i < a.len() && i < b.len()
        invariant
            i <= a@.len(),
            i <= b@.len(),
            fa == fold(a@),
            fb == fold(b@),
            lex_cmp(fa, fb) == lex_cmp(fa.skip(i as int), fb.skip(i as int)),
        decreases a@.len() - i,
    {
        let x = fold_u8(a[i]);
        let y = fold_u8(b[i]);
        assert(fa.skip(i as int)[0] == x && fb.skip(i as int)[0] == y);
        if x < y {
            return Ordering::Less;
        }
        if x > y {
            return Ordering::Greater;
        }
        assert(fa.skip(i as int).drop_first() =~= fa.skip(i + 1));
        assert(fb.skip(i as int).drop_first() =~= fb.skip(i + 1));
        i += 1;
    }
    if a.len() == b.len() {
        Ordering::Equal
    } else if i == a.len() {
        Ordering::Less
    } else {
        Ordering::Greater
    }
}

/// Whether two byte strings are equal with ASCII letters folded to lower case.
pub fn eq_folded(a: &[u8], b: &[u8]) -> (r: bool)
    ensures
        r == path_eq(a@, b@),
{
    let o = compare_folded(a, b);
    proof {
        lemma_lex_cmp_equal(fold(a@), fold(b@));
    }
    match o {
        Ordering::Equal => true,
        _ => false,
    }
}

/// The `/`-separated pieces of `p`, empty ones included: `a//b` has
/// the pieces `a`, the empty piece and `b`.
pub open spec fn segments(p: Seq<u8>) -> Seq<Seq<u8>>
    decreases p.len(),
{
    if p.len() == 0 {
        seq![Seq::<u8>::empty()]
    } else {
        let init = segments(p.drop_last());
        if p.last() == SEPARATOR {
            init.push(Seq::<u8>::empty())
        } else {
            init.update(init.len() - 1, init.last().push(p.last()))
        }
    }
}

/// The piece `.`.
pub open spec fn dot() -> Seq<u8> {
    seq![0x2eu8]
}

/// The piece `..`.
pub open spec fn dot_dot() -> Seq<u8> {
    seq![0x2eu8, 0x2eu8]
}

/// The names so far, after the piece `seg`: an empty piece and `.` change
/// nothing, `..` drops the last name (there is nothing above the root), and
/// any other piece is the next name.
pub open spec fn push_segment(names: Seq<Seq<u8>>, seg: Seq<u8>) -> Seq<Seq<u8>> {
    if seg.len() == 0 || seg == dot() {
        names
    } else if seg == dot_dot() {
        if names.len() > 0 {
            names.drop_last()
        } else {
            names
        }
    } else {
        names.push(seg)
    }
}

/// The names that the pieces `segs` come to, read from the first.
pub open spec fn normalize(segs: Seq<Seq<u8>>) -> Seq<Seq<u8>>
    decreases segs.len(),
{
    if segs.len() == 0 {
        Seq::empty()
    } else {
        push_segment(normalize(segs.drop_last()), segs.last())
    }
}

/// The names along path `p` from the root, with redundant separators and
/// relative pieces resolved.
pub open spec fn components(p: Seq<u8>) -> Seq<Seq<u8>> {
    normalize(segments(p))
}

/// The names `cs` joined by single separators.
pub open spec fn join(cs: Seq<Seq<u8>>) -> Seq<u8>
    decreases cs.len(),
{
    if cs.len() == 0 {
        Seq::empty()
    } else if cs.len() == 1 {
        cs[0]
    } else {
        join(cs.drop_last()) + seq![SEPARATOR] + cs.last()
    }
}

/// The canonical form of path `p`.
pub open spec fn canonical(p: Seq<u8>) -> Seq<u8> {
    join(components(p))
}

/// Whether `c` can stand as a name of a canonical path.
pub open spec fn is_name(c: Seq<u8>) -> bool {
    &&& c.len() > 0
    &&& c != dot()
    &&& c != dot_dot()
    &&& !c.contains(SEPARATOR)
}

/// The byte views of a list of byte vectors.
pub open spec fn views(v: Seq<Vec<u8>>) -> Seq<Seq<u8>> {
    v.map_values(|x: Vec<u8>| x@)
}

proof fn lemma_segments_shape(p: Seq<u8>)
    ensures
        segments(p).len() >= 1,
        forall|i: int| 0 <= i < segments(p).len() ==> !(#[trigger] segments(p)[i]).contains(SEPARATOR),
    decreases p.len(),
{
    if p.len() > 0 {
        lemma_segments_shape(p.drop_last());
        let init = segments(p.drop_last());
        if p.last() != SEPARATOR {
            let l = init.last().push(p.last());
            assert forall|k: int| 0 <= k < l.len() implies l[k] != SEPARATOR by {
                if k < l.len() - 1 {
                    assert(init[init.len() - 1][k] == l[k]);
                }
            }
        } else {
            assert(!Seq::<u8>::empty().contains(SEPARATOR));
        }
    }
}

proof fn lemma_normalize_names(segs: Seq<Seq<u8>>)
    requires
        forall|i: int| 0 <= i < segs.len() ==> !(#[trigger] segs[i]).contains(SEPARATOR),
    ensures
        forall|i: int| 0 <= i < normalize(segs).len() ==> is_name(#[trigger] normalize(segs)[i]),
    decreases segs.len(),
{
    if segs.len() > 0 {
        let init = segs.drop_last();
        assert forall|i: int| 0 <= i < init.len() implies !(#[trigger] init[i]).contains(SEPARATOR) by {
            assert(init[i] == segs[i]);
        }
        lemma_normalize_names(init);
        let n = normalize(init);
        assert(!segs[segs.len() - 1].contains(SEPARATOR));
        if segs.last() == dot_dot() && n.len() > 0 {
            assert forall|i: int| 0 <= i < n.drop_last().len() implies is_name(
                #[trigger] n.drop_last()[i],
            ) by {
                assert(n.drop_last()[i] == n[i]);
            }
        }
    }
}

proof fn lemma_segments_of_name(c: Seq<u8>)
    requires
        !c.contains(SEPARATOR),
    ensures
        segments(c) == seq![c],
    decreases c.len(),
{
    if c.len() == 0 {
        assert(c =~= Seq::<u8>::empty());
        assert(segments(c) =~= seq![c]);
    } else {
        let init = c.drop_last();
        assert(!init.contains(SEPARATOR)) by {
            if init.contains(SEPARATOR) {
                let k = choose|k: int| 0 <= k < init.len() && init[k] == SEPARATOR;
                assert(c[k] == SEPARATOR);
            }
        }
        lemma_segments_of_name(init);
        assert(c.last() != SEPARATOR) by {
            assert(c[c.len() - 1] == c.last());
        }
        assert(init.push(c.last()) =~= c);
        let si = segments(init);
        assert(segments(c) == si.update(si.len() - 1, si.last().push(c.last())));
        assert(si.last() == init);
        assert(segments(c) =~= seq![c]);
    }
}

proof fn lemma_segments_after_separator(x: Seq<u8>, c: Seq<u8>)
    requires
        !c.contains(SEPARATOR),
    ensures
        segments(x + seq![SEPARATOR] + c) == segments(x).push(c),
    decreases c.len(),
{
    let y = x + seq![SEPARATOR] + c;
    if c.len() == 0 {
        assert(c =~= Seq::<u8>::empty());
        assert(y.drop_last() =~= x);
        assert(y.last() == SEPARATOR);
        assert(segments(y) =~= segments(x).push(c));
    } else {
        let init = c.drop_last();
        assert(!init.contains(SEPARATOR)) by {
            if init.contains(SEPARATOR) {
                let k = choose|k: int| 0 <= k < init.len() && init[k] == SEPARATOR;
                assert(c[k] == SEPARATOR);
            }
        }
        lemma_segments_after_separator(x, init);
        assert(y.drop_last() =~= x + seq![SEPARATOR] + init);
        assert(y.last() == c.last());
        assert(c.last() != SEPARATOR) by {
            assert(c[c.len() - 1] == c.last());
        }
        assert(init.push(c.last()) =~= c);
        let sy = segments(y.drop_last());
        assert(sy == segments(x).push(init));
        assert(segments(y) == sy.update(sy.len() - 1, sy.last().push(y.last())));
        assert(segments(y) =~= segments(x).push(c));
    }
}

proof fn lemma_segments_of_join(cs: Seq<Seq<u8>>)
    requires
        cs.len() >= 1,
        forall|i: int| 0 <= i < cs.len() ==> is_name(#[trigger] cs[i]),
    ensures
        segments(join(cs)) == cs,
    decreases cs.len(),
{
    if cs.len() == 1 {
        assert(is_name(cs[0]));
        lemma_segments_of_name(cs[0]);
        assert(seq![cs[0]] =~= cs);
    } else {
        let init = cs.drop_last();
        assert forall|i: int| 0 <= i < init.len() implies is_name(#[trigger] init[i]) by {
            assert(init[i] == cs[i]);
        }
        lemma_segments_of_join(init);
        assert(is_name(cs[cs.len() - 1]));
        lemma_segments_after_separator(join(init), cs.last());
        assert(init.push(cs.last()) =~= cs);
    }
}

proof fn lemma_normalize_names_unchanged(cs: Seq<Seq<u8>>)
    requires
        forall|i: int| 0 <= i < cs.len() ==> is_name(#[trigger] cs[i]),
    ensures
        normalize(cs) == cs,
    decreases cs.len(),
{
    if cs.len() == 0 {
        assert(normalize(cs) =~= cs);
    } else {
        let init = cs.drop_last();
        assert forall|i: int| 0 <= i < init.len() implies is_name(#[trigger] init[i]) by {
            assert(init[i] == cs[i]);
        }
        lemma_normalize_names_unchanged(init);
        assert(is_name(cs[cs.len() - 1]));
        assert(init.push(cs.last()) =~= cs);
    }
}

/// The names along a path are names: non-empty, neither `.` nor `..`, and
/// free of separators.
pub proof fn lemma_components_are_names(p: Seq<u8>)
    ensures
        forall|i: int| 0 <= i < components(p).len() ==> is_name(#[trigger] components(p)[i]),
{
    lemma_segments_shape(p);
    lemma_normalize_names(segments(p));
}

/// A path and its canonical form go through the same names, so they lead to
/// the same node; and a canonical form is its own canonical form.
pub proof fn lemma_canonical_same_components(p: Seq<u8>)
    ensures
        components(canonical(p)) == components(p),
        canonical(canonical(p)) == canonical(p),
{
    let cs = components(p);
    lemma_components_are_names(p);
    if cs.len() == 0 {
        assert(segments(Seq::<u8>::empty()) =~= seq![Seq::<u8>::empty()]);
        assert(seq![Seq::<u8>::empty()].drop_last() =~= Seq::<Seq<u8>>::empty());
        let e = seq![Seq::<u8>::empty()];
        assert(normalize(Seq::<Seq<u8>>::empty()) == Seq::<Seq<u8>>::empty());
        assert(e.last() == Seq::<u8>::empty());
        assert(normalize(e) == push_segment(normalize(e.drop_last()), e.last()));
        assert(normalize(e) =~= Seq::<Seq<u8>>::empty());
    } else {
        lemma_segments_of_join(cs);
        lemma_normalize_names_unchanged(cs);
    }
}

/// Appends the names that the piece `seg` comes to.
fn push_segment_exec(names: &mut Vec<Vec<u8>>, seg: Vec<u8>)
    ensures
        views(final(names)@) == push_segment(views(old(names)@), seg@),
{
    if seg.len() == 0 || (seg.len() == 1 && seg[0] == 0x2e) {
        assert(seg.len() == 1 ==> seg@ =~= dot());
    } else if seg.len() == 2 && seg[0] == 0x2e && seg[1] == 0x2e {
        assert(seg@ =~= dot_dot());
        names.pop();
        assert(views(names@) =~= push_segment(views(old(names)@), seg@));
    } else {
        assert(seg@ != dot()) by {
            if seg@ == dot() {
                assert(seg@.len() == 1 && seg@[0] == 0x2e);
            }
        }
        assert(seg@ != dot_dot()) by {
            if seg@ == dot_dot() {
                assert(seg@.len() == 2 && seg@[0] == 0x2e && seg@[1] == 0x2e);
            }
        }
        let ghost s = seg@;
        names.push(seg);
        assert(views(names@) =~= views(old(names)@).push(s));
    }
}

/// The names along `p` from the root.
pub fn path_components(p: &[u8]) -> (r: Vec<Vec<u8>>)
    ensures
        views(r@) == components(p@),
{
    let mut names: Vec<Vec<u8>> = Vec::new();
    let mut cur: Vec<u8> = Vec::new();
    let mut i: usize = 0;
    proof {
        assert(p@.take(0) =~= Seq::<u8>::empty());
        assert(views(names@) =~= Seq::<Seq<u8>>::empty());
    }
    while i < p.len()
        invariant
            i <= p@.len(),
            segments(p@.take(i as int)).len() >= 1,
            views(names@) == normalize(segments(p@.take(i as int)).drop_last()),
            cur@ == segments(p@.take(i as int)).last(),
        decreases p@.len() - i,
    {
        let b = p[i];
        let ghost before = segments(p@.take(i as int));
        assert(p@.take(i + 1).drop_last() =~= p@.take(i as int));
        assert(p@.take(i + 1).last() == b);
        if b == SEPARATOR {
            assert(segments(p@.take(i + 1)).drop_last() =~= before);
            push_segment_exec(&mut names, cur);
            cur = Vec::new();
        } else {
            assert(segments(p@.take(i + 1)).drop_last() =~= before.drop_last());
            cur.push(b);
        }
        i += 1;
    }
    assert(p@.take(p@.len() as int) =~= p@);
    push_segment_exec(&mut names, cur);
    names
}

/// Appends the bytes of `src` to `out`.
fn append_bytes(out: &mut Vec<u8>, src: &Vec<u8>)
    ensures
        final(out)@ == old(out)@ + src@,
{
    let mut j: usize = 0;
    while j < src.len()
        invariant
            j <= src@.len(),
            out@ == old(out)@ + src@.take(j as int),
        decreases src@.len() - j,
    {
        out.push(src[j]);
        assert(src@.take(j + 1) =~= src@.take(j as int).push(src@[j as int]));
        j += 1;
    }
    assert(src@.take(src@.len() as int) =~= src@);
}

/// The names `cs` joined by single separators.
pub fn join_names(cs: &Vec<Vec<u8>>) -> (r: Vec<u8>)
    ensures
        r@ == join(views(cs@)),
{
    let ghost v = views(cs@);
    let mut out: Vec<u8> = Vec::new();
    let mut k: usize = 0;
    assert(v.take(0) =~= Seq::<Seq<u8>>::empty());
    while k < cs.len()
        invariant
            k <= cs@.len(),
            v == views(cs@),
            out@ == join(v.take(k as int)),
        decreases cs@.len() - k,
    {
        let ghost t = v.take(k + 1);
        assert(t.drop_last() =~= v.take(k as int));
        assert(t.last() == cs@[k as int]@);
        if k > 0 {
            out.push(SEPARATOR);
        } else {
            assert(out@ =~= Seq::<u8>::empty());
        }
        append_bytes(&mut out, &cs[k]);
        assert(k == 0 ==> out@ =~= t[0]);
        assert(k > 0 ==> out@ =~= join(t.drop_last()) + seq![SEPARATOR] + t.last());
        k += 1;
    }
    assert(v.take(cs@.len() as int) =~= v);
    out
}

/// Whether two byte strings are equal, byte for byte.
fn bytes_equal(a: &[u8], b: &[u8]) -> (r: bool)
    ensures
        r == (a@ == b@),
{
    if a.len() != b.len() {
        return false;
    }
    let mut i: usize = 0;
    while i < a.len()
        invariant
            i <= a@.len() == b@.len(),
            a@.take(i as int) == b@.take(i as int),
        decreases a@.len() - i,
    {
        if a[i] != b[i] {
            return false;
        }
        assert(a@.take(i + 1) =~= a@.take(i as int).push(a@[i as int]));
        assert(b@.take(i + 1) =~= b@.take(i as int).push(b@[i as int]));
        i += 1;
    }
    assert(a@.take(a@.len() as int) =~= a@);
    assert(b@.take(b@.len() as int) =~= b@);
    true
}

/// A case-insensitive path.
#[derive(Debug)]
pub struct Path {
    bytes: Vec<u8>,
}

impl View for Path {
    type V = Seq<u8>;

    closed spec fn view(&self) -> Seq<u8> {
        self.bytes@
    }
}

impl Path {
    /// The path with the given bytes.
    pub fn new(path: &[u8]) -> (r: Path)
        ensures
            r@ == path@,
    {
        Path { bytes: vstd::slice::slice_to_vec(path) }
    }

    /// The path's bytes.
    pub fn as_bytes(&self) -> (r: &[u8])
        ensures
            r@ == self@,
    {
        self.bytes.as_slice()
    }

    /// The names along the path from the root, with empty pieces and `.`
    /// dropped and each `..` taking away the name before it.
    pub fn components(&self) -> (r: Vec<Vec<u8>>)
        ensures
            views(r@) == components(self@),
    {
        path_components(self.bytes.as_slice())
    }

    /// The canonical form of the path: its names joined by single
    /// separators. It leads to the same node as the path.
    pub fn canonicalize(&self) -> (r: Path)
        ensures
            r@ == canonical(self@),
    {
        let names = path_components(self.bytes.as_slice());
        Path { bytes: join_names(&names) }
    }

    /// Whether the path is its own canonical form.
    pub fn is_canonical(&self) -> (r: bool)
        ensures
            r == (canonical(self@) == self@),
    {
        let c = self.canonicalize();
        bytes_equal(c.bytes.as_slice(), self.bytes.as_slice())
    }

    /// The order of two paths, with ASCII letters folded to lower case.
    pub fn cmp(&self, other: &Path) -> (r: Ordering)
        ensures
            r == path_cmp(self@, other@),
    {
        compare_folded(self.bytes.as_slice(), other.bytes.as_slice())
    }
}

impl PartialEq for Path {
    fn eq(&self, other: &Path) -> (r: bool)
        ensures
            r == path_eq(self@, other@),
    {
        eq_folded(self.bytes.as_slice(), other.bytes.as_slice())
    }
}

impl vstd::std_specs::cmp::PartialEqSpecImpl for Path {
    open spec fn obeys_eq_spec() -> bool {
        true
    }

    open spec fn eq_spec(&self, other: &Path) -> bool {
        path_eq(self@, other@)
    }
}

impl Eq for Path {

}

impl PartialOrd for Path {
    fn partial_cmp(&self, other: &Path) -> (r: Option<Ordering>)
        ensures
            r == Some(path_cmp(self@, other@)),
    {
        Some(compare_folded(self.bytes.as_slice(), other.bytes.as_slice()))
    }
}

impl vstd::std_specs::cmp::PartialOrdSpecImpl for Path {
    open spec fn obeys_partial_cmp_spec() -> bool {
        true
    }

    open spec fn partial_cmp_spec(&self, other: &Path) -> Option<Ordering> {
        Some(path_cmp(self@, other@))
    }
}

} // verus!
