//! Orders on byte strings, identifier lists, and filesystem pathnames.
use std::cmp::Ordering;
use vstd::prelude::*;

verus! {

/// `elem` orders values strictly: `Equal` exactly on equal values, reversing the
/// arguments reverses the answer, and `Less` is transitive.
pub open spec fn is_strict_order<T>(elem: spec_fn(T, T) -> Ordering) -> bool {
    &&& forall|x: T, y: T| #[trigger] elem(x, y) == Ordering::Equal <==> x == y
    &&& forall|x: T, y: T|
        #[trigger] elem(x, y) == Ordering::Less <==> #[trigger] elem(y, x) == Ordering::Greater
    &&& forall|x: T, y: T, z: T|
        #[trigger] elem(x, y) == Ordering::Less && #[trigger] elem(y, z) == Ordering::Less
            ==> elem(x, z) == Ordering::Less
}

/// The lexicographic order of two sequences under the element order `elem`.
pub open spec fn lex_order<T>(a: Seq<T>, b: Seq<T>, elem: spec_fn(T, T) -> Ordering) -> Ordering
    decreases a.len(),
{
    if a.len() == 0 {
        if b.len() == 0 {
            Ordering::Equal
        } else {
            Ordering::Less
        }
    } else if b.len() == 0 {
        Ordering::Greater
    } else {
        match elem(a[0], b[0]) {
            Ordering::Equal => lex_order(a.drop_first(), b.drop_first(), elem),
            o => o,
        }
    }
}

/// The lexicographic order is a strict order whenever the element order is.
pub proof fn lemma_lex_strict<T>(a: Seq<T>, b: Seq<T>, c: Seq<T>, elem: spec_fn(T, T) -> Ordering)
    requires
        is_strict_order(elem),
    ensures
        lex_order(a, b, elem) == Ordering::Equal <==> a == b,
        lex_order(a, b, elem) == Ordering::Less <==> lex_order(b, a, elem) == Ordering::Greater,
        lex_order(a, b, elem) == Ordering::Less && lex_order(b, c, elem) == Ordering::Less
            ==> lex_order(a, c, elem) == Ordering::Less,
    decreases a.len(),
{
    if a.len() > 0 && b.len() > 0 {
        let c1 = if c.len() > 0 {
            c.drop_first()
        } else {
            c
        };
        lemma_lex_strict(a.drop_first(), b.drop_first(), c1, elem);
        if elem(a[0], b[0]) == Ordering::Equal {
            assert(a[0] == b[0]);
            if lex_order(a.drop_first(), b.drop_first(), elem) == Ordering::Equal {
                assert(a =~= seq![a[0]] + a.drop_first());
                assert(b =~= seq![b[0]] + b.drop_first());
            }
        }
        if a == b {
            assert(a.drop_first() == b.drop_first());
        }
    } else if a.len() == 0 && b.len() == 0 {
        assert(a =~= b);
    }
}

/// The order of two bytes.
pub open spec fn byte_order() -> spec_fn(u8, u8) -> Ordering {
    |x: u8, y: u8|
        if x < y {
            Ordering::Less
        } else if x > y {
            Ordering::Greater
        } else {
            Ordering::Equal
        }
}

/// The order of two identifiers.
pub open spec fn id_order() -> spec_fn(i64, i64) -> Ordering {
    |x: i64, y: i64|
        if x < y {
            Ordering::Less
        } else if x > y {
            Ordering::Greater
        } else {
            Ordering::Equal
        }
}

/// The order of two strings: their UTF-8 bytes compared lexicographically.
pub open spec fn str_order(a: Seq<char>, b: Seq<char>) -> Ordering {
    lex_order(vstd::utf8::encode_utf8(a), vstd::utf8::encode_utf8(b), byte_order())
}

/// The order of two identifier lists, compared lexicographically.
pub open spec fn ids_order(a: Seq<i64>, b: Seq<i64>) -> Ordering {
    lex_order(a, b, id_order())
}

pub proof fn lemma_byte_order_strict()
    ensures
        is_strict_order(byte_order()),
{
}

pub proof fn lemma_id_order_strict()
    ensures
        is_strict_order(id_order()),
{
}

/// The string order is a total order.
pub proof fn lemma_str_order(a: Seq<char>, b: Seq<char>, c: Seq<char>)
    ensures
        str_order(a, b) == Ordering::Equal <==> a == b,
        str_order(a, b) == Ordering::Less <==> str_order(b, a) == Ordering::Greater,
        str_order(a, b) == Ordering::Less && str_order(b, c) == Ordering::Less ==> str_order(a, c)
            == Ordering::Less,
{
    lemma_byte_order_strict();
    let (ea, eb, ec) = (
        vstd::utf8::encode_utf8(a),
        vstd::utf8::encode_utf8(b),
        vstd::utf8::encode_utf8(c),
    );
    lemma_lex_strict(ea, eb, ec, byte_order());
    if ea == eb {
        vstd::utf8::encode_utf8_decode_utf8(a);
        vstd::utf8::encode_utf8_decode_utf8(b);
    }
}

/// The identifier list order is a total order.
pub proof fn lemma_ids_order(a: Seq<i64>, b: Seq<i64>, c: Seq<i64>)
    ensures
        ids_order(a, b) == Ordering::Equal <==> a == b,
        ids_order(a, b) == Ordering::Less <==> ids_order(b, a) == Ordering::Greater,
        ids_order(a, b) == Ordering::Less && ids_order(b, c) == Ordering::Less ==> ids_order(a, c)
            == Ordering::Less,
{
    lemma_id_order_strict();
    lemma_lex_strict(a, b, c, id_order());
}

/// A suffix of `s` starting at position `i`.
pub open spec fn suffix<T>(s: Seq<T>, i: usize) -> Seq<T> {
    s.skip(i as int)
}

/// The suffix of `s` that follows position `i`.
pub open spec fn suffix_after<T>(s: Seq<T>, i: usize) -> Seq<T> {
    s.skip(i as int + 1)
}

pub proof fn lemma_lex_step<T>(a: Seq<T>, b: Seq<T>, i: usize)
    requires
        i < a.len(),
        i < b.len(),
    ensures
        suffix(a, i).len() > 0 && suffix(b, i).len() > 0,
        suffix(a, i)[0] == a[i as int],
        suffix(b, i)[0] == b[i as int],
        suffix(a, i).drop_first() == suffix_after(a, i),
        suffix(b, i).drop_first() == suffix_after(b, i),
{
    assert(suffix(a, i).drop_first() =~= suffix_after(a, i));
    assert(suffix(b, i).drop_first() =~= suffix_after(b, i));
}

pub proof fn lemma_suffix_zero<T>(s: Seq<T>)
    ensures
        suffix(s, 0) == s,
{
    assert(suffix(s, 0) =~= s);
}

pub proof fn lemma_suffix_end<T>(s: Seq<T>, i: usize)
    requires
        i == s.len(),
    ensures
        suffix(s, i).len() == 0,
{
}

/// Compares two byte slices lexicographically.
pub fn compare_bytes(a: &[u8], b: &[u8]) -> (r: Ordering)
    ensures
        r == lex_order(a@, b@, byte_order()),
{
    let mut i: usize = 0;
    proof {
        lemma_suffix_zero(a@);
        lemma_suffix_zero(b@);
    }
    while i < a.len() && i < b.len()
        invariant
            i <= a.len(),
            i <= b.len(),
            lex_order(a@, b@, byte_order()) == lex_order(suffix(a@, i), suffix(b@, i), byte_order()),
        decreases a.len() - i,
    {
        proof {
            lemma_lex_step(a@, b@, i);
        }
        if a[i] < b[i] {
            return Ordering::Less;
        }
        if a[i] > b[i] {
            return Ordering::Greater;
        }
        i = i + 1;
    }
    proof {
        if i == a.len() {
            lemma_suffix_end(a@, i);
        }
        if i == b.len() {
            lemma_suffix_end(b@, i);
        }
    }
    if i == a.len() && i == b.len() {
        Ordering::Equal
    } else if i == a.len() {
        Ordering::Less
    } else {
        Ordering::Greater
    }
}

/// Compares two identifier lists lexicographically.
pub fn compare_ids(a: &[i64], b: &[i64]) -> (r: Ordering)
    ensures
        r == ids_order(a@, b@),
{
    let mut i: usize = 0;
    proof {
        lemma_suffix_zero(a@);
        lemma_suffix_zero(b@);
    }
    while i < a.len() && i < b.len()
        invariant
            i <= a.len(),
            i <= b.len(),
            lex_order(a@, b@, id_order()) == lex_order(suffix(a@, i), suffix(b@, i), id_order()),
        decreases a.len() - i,
    {
        proof {
            lemma_lex_step(a@, b@, i);
        }
        if a[i] < b[i] {
            return Ordering::Less;
        }
        if a[i] > b[i] {
            return Ordering::Greater;
        }
        i = i + 1;
    }
    proof {
        if i == a.len() {
            lemma_suffix_end(a@, i);
        }
        if i == b.len() {
            lemma_suffix_end(b@, i);
        }
    }
    if i == a.len() && i == b.len() {
        Ordering::Equal
    } else if i == a.len() {
        Ordering::Less
    } else {
        Ordering::Greater
    }
}

/// Compares two strings by their UTF-8 bytes, which is the order of `str`.
pub fn compare_str(a: &str, b: &str) -> (r: Ordering)
    ensures
        r == str_order(a@, b@),
{
    compare_bytes(a.as_bytes(), b.as_bytes())
}

/// The lexicographic order of byte sequences, as an element order.
pub open spec fn bytes_lex() -> spec_fn(Seq<u8>, Seq<u8>) -> Ordering {
    |x: Seq<u8>, y: Seq<u8>| lex_order(x, y, byte_order())
}

pub proof fn lemma_bytes_lex_strict()
    ensures
        is_strict_order(bytes_lex()),
{
    lemma_byte_order_strict();
    assert forall|x: Seq<u8>, y: Seq<u8>, z: Seq<u8>|
        #[trigger] bytes_lex()(x, y) == Ordering::Less && #[trigger] bytes_lex()(y, z)
            == Ordering::Less implies bytes_lex()(x, z) == Ordering::Less by {
        lemma_lex_strict(x, y, z, byte_order());
    }
    assert forall|x: Seq<u8>, y: Seq<u8>| #[trigger] bytes_lex()(x, y) == Ordering::Equal <==> x == y by {
        lemma_lex_strict(x, y, x, byte_order());
    }
    assert forall|x: Seq<u8>, y: Seq<u8>|
        #[trigger] bytes_lex()(x, y) == Ordering::Less <==> #[trigger] bytes_lex()(y, x)
            == Ordering::Greater by {
        lemma_lex_strict(x, y, x, byte_order());
    }
}

/// The `/` separated segments of a pathname, empty segments included.
pub open spec fn segments(b: Seq<u8>) -> Seq<Seq<u8>>
    decreases b.len(),
{
    if b.len() == 0 {
        seq![Seq::<u8>::empty()]
    } else {
        let s = segments(b.drop_last());
        if b.last() == 47u8 {
            s.push(Seq::<u8>::empty())
        } else {
            s.update(s.len() - 1, s.last().push(b.last()))
        }
    }
}

/// The pathname component a segment stands for, encoded as bytes whose first byte ranks
/// the component kind (root, current directory, parent directory, name) and whose
/// remaining bytes are the name: empty segments and inner `.` segments stand for nothing.
pub open spec fn segment_part(seg: Seq<u8>, leading_cur_dir: bool) -> Seq<Seq<u8>> {
    if seg.len() == 0 {
        seq![]
    } else if seg == seq![46u8] {
        if leading_cur_dir {
            seq![seq![1u8]]
        } else {
            seq![]
        }
    } else if seg == seq![46u8, 46u8] {
        seq![seq![2u8]]
    } else {
        seq![seq![3u8] + seg]
    }
}

/// The components of a list of segments.
pub open spec fn segments_parts(segs: Seq<Seq<u8>>, rooted: bool) -> Seq<Seq<u8>>
    decreases segs.len(),
{
    if segs.len() == 0 {
        seq![]
    } else {
        segments_parts(segs.drop_last(), rooted) + segment_part(
            segs.last(),
            !rooted && segs.len() == 1,
        )
    }
}

/// The components of a pathname, the way `std::path::Path::components` yields them on Unix.
pub open spec fn path_parts(b: Seq<u8>) -> Seq<Seq<u8>> {
    if b.len() > 0 && b[0] == 47u8 {
        seq![seq![0u8]] + segments_parts(segments(b.drop_first()), true)
    } else {
        segments_parts(segments(b), false)
    }
}

/// The order of two pathnames: their components compared lexicographically.
pub open spec fn path_order(a: Seq<char>, b: Seq<char>) -> Ordering {
    lex_order(
        path_parts(vstd::utf8::encode_utf8(a)),
        path_parts(vstd::utf8::encode_utf8(b)),
        bytes_lex(),
    )
}

/// Pathnames are ordered by a total preorder.
pub proof fn lemma_path_order(a: Seq<char>, b: Seq<char>, c: Seq<char>)
    ensures
        path_order(a, b) == Ordering::Less <==> path_order(b, a) == Ordering::Greater,
        path_order(a, a) == Ordering::Equal,
        path_order(a, b) != Ordering::Greater && path_order(b, c) != Ordering::Greater
            ==> path_order(a, c) != Ordering::Greater,
{
    lemma_bytes_lex_strict();
    let pa = path_parts(vstd::utf8::encode_utf8(a));
    let pb = path_parts(vstd::utf8::encode_utf8(b));
    let pc = path_parts(vstd::utf8::encode_utf8(c));
    lemma_lex_strict(pa, pb, pc, bytes_lex());
    lemma_lex_strict(pa, pa, pa, bytes_lex());
    lemma_lex_strict(pb, pc, pa, bytes_lex());
    lemma_lex_strict(pa, pc, pb, bytes_lex());
}

/// The part of `b` from `start` up to `end`.
pub open spec fn bytes_between(b: Seq<u8>, start: usize, end: usize) -> Seq<u8> {
    b.subrange(start as int, end as int)
}

/// The deep view of a list of byte vectors is the list of their views.
pub proof fn lemma_byte_lists_deep_view(v: Seq<Vec<u8>>)
    ensures
        v.map_values(|x: Vec<u8>| x.deep_view()) == v.map_values(|x: Vec<u8>| x@),
        forall|i: int| 0 <= i < v.len() ==> (#[trigger] v[i]).deep_view() == v[i]@,
{
    assert forall|i: int| 0 <= i < v.len() implies (#[trigger] v[i]).deep_view() == v[i]@ by {
        assert(v[i].deep_view() =~= v[i]@);
    }
    assert(v.map_values(|x: Vec<u8>| x.deep_view()) =~= v.map_values(|x: Vec<u8>| x@));
}

/// Appends the component a finished segment stands for.
fn push_segment_part(parts: &mut Vec<Vec<u8>>, seg: &Vec<u8>, leading_cur_dir: bool)
    ensures
        final(parts).deep_view() == old(parts).deep_view() + segment_part(seg@, leading_cur_dir),
{
    let ghost before = parts.deep_view();
    proof {
        lemma_byte_lists_deep_view(parts@);
    }
    if seg.len() == 0 {
    } else if seg.len() == 1 && seg[0] == 46u8 {
        assert(seg@ =~= seq![46u8]);
        if leading_cur_dir {
            let part = vec![1u8];
            assert(part@ =~= seq![1u8]);
            parts.push(part);
        }
    } else if seg.len() == 2 && seg[0] == 46u8 && seg[1] == 46u8 {
        assert(seg@ =~= seq![46u8, 46u8]);
        let part = vec![2u8];
        assert(part@ =~= seq![2u8]);
        parts.push(part);
    } else {
        assert(seg@ != seq![46u8]);
        assert(seg@ != seq![46u8, 46u8]);
        let mut part: Vec<u8> = vec![3u8];
        let mut i: usize = 0;
        assert(part@ =~= seq![3u8] + seg@.subrange(0, 0));
        while i < seg.len()
            invariant
                i <= seg.len(),
                part@ == seq![3u8] + seg@.subrange(0, i as int),
            decreases seg.len() - i,
        {
            part.push(seg[i]);
            i = i + 1;
            assert(part@ =~= seq![3u8] + seg@.subrange(0, i as int));
        }
        assert(seg@.subrange(0, i as int) =~= seg@);
        parts.push(part);
    }
    proof {
        lemma_byte_lists_deep_view(parts@);
        assert(parts.deep_view() =~= before + segment_part(seg@, leading_cur_dir));
    }
}

/// Splits a pathname into its components.
pub fn path_parts_of(b: &[u8]) -> (r: Vec<Vec<u8>>)
    ensures
        r.deep_view() == path_parts(b@),
{
    let rooted = b.len() > 0 && b[0] == 47u8;
    let start: usize = if rooted {
        1
    } else {
        0
    };
    let mut parts: Vec<Vec<u8>> = Vec::new();
    if rooted {
        let root = vec![0u8];
        assert(root@ =~= seq![0u8]);
        parts.push(root);
    }
    let ghost prefix = parts.deep_view();
    proof {
        lemma_byte_lists_deep_view(parts@);
        if rooted {
            assert(prefix =~= seq![seq![0u8]]);
        } else {
            assert(prefix =~= Seq::<Seq<u8>>::empty());
        }
    }
    let mut cur: Vec<u8> = Vec::new();
    let mut seg_count: usize = 0;
    let mut i: usize = start;
    assert(bytes_between(b@, start, i) =~= Seq::<u8>::empty());
    while i < b.len()
        invariant
            start <= i <= b.len(),
            start == (if rooted { 1usize } else { 0usize }),
            rooted == (b@.len() > 0 && b@[0] == 47u8),
            seg_count <= i,
            segments(bytes_between(b@, start, i)).len() == seg_count + 1,
            segments(bytes_between(b@, start, i)).last() == cur@,
            parts.deep_view() == prefix + segments_parts(
                segments(bytes_between(b@, start, i)).drop_last(),
                rooted,
            ),
            prefix == (if rooted { seq![seq![0u8]] } else { Seq::<Seq<u8>>::empty() }),
        decreases b.len() - i,
    {
        let ghost body = bytes_between(b@, start, i);
        let ghost segs = segments(body);
        assert(bytes_between(b@, start, (i + 1) as usize) =~= body.push(b@[i as int]));
        assert(bytes_between(b@, start, (i + 1) as usize).drop_last() =~= body);
        if b[i] == 47u8 {
            push_segment_part(&mut parts, &cur, !rooted && seg_count == 0);
            assert(segs.drop_last().push(segs.last()) =~= segs);
            assert(segs.push(Seq::<u8>::empty()).drop_last() =~= segs);
            cur = Vec::new();
            seg_count = seg_count + 1;
        } else {
            cur.push(b[i]);
            let ghost nsegs = segs.update(segs.len() - 1, segs.last().push(b@[i as int]));
            assert(nsegs.drop_last() =~= segs.drop_last());
        }
        i = i + 1;
    }
    let ghost segs = segments(bytes_between(b@, start, i));
    push_segment_part(&mut parts, &cur, !rooted && seg_count == 0);
    assert(segs.drop_last().push(segs.last()) =~= segs);
    if rooted {
        assert(bytes_between(b@, start, i) =~= b@.drop_first());
    } else {
        assert(bytes_between(b@, start, i) =~= b@);
    }
    parts
}

/// Compares two component lists lexicographically.
fn compare_part_lists(a: &Vec<Vec<u8>>, b: &Vec<Vec<u8>>) -> (r: Ordering)
    ensures
        r == lex_order(a.deep_view(), b.deep_view(), bytes_lex()),
{
    let mut i: usize = 0;
    proof {
        lemma_suffix_zero(a.deep_view());
        lemma_suffix_zero(b.deep_view());
    }
    while i < a.len() && i < b.len()
        invariant
            i <= a.len(),
            i <= b.len(),
            lex_order(a.deep_view(), b.deep_view(), bytes_lex()) == lex_order(
                suffix(a.deep_view(), i),
                suffix(b.deep_view(), i),
                bytes_lex(),
            ),
        decreases a.len() - i,
    {
        proof {
            lemma_lex_step(a.deep_view(), b.deep_view(), i);
            lemma_byte_lists_deep_view(a@);
            lemma_byte_lists_deep_view(b@);
        }
        let o = compare_bytes(a[i].as_slice(), b[i].as_slice());
        if is_not_equal(o) {
            return o;
        }
        i = i + 1;
    }
    proof {
        if i == a.len() {
            lemma_suffix_end(a.deep_view(), i);
        }
        if i == b.len() {
            lemma_suffix_end(b.deep_view(), i);
        }
    }
    if i == a.len() && i == b.len() {
        Ordering::Equal
    } else if i == a.len() {
        Ordering::Less
    } else {
        Ordering::Greater
    }
}

/// Whether an ordering answer is other than `Equal`.
pub fn is_not_equal(o: Ordering) -> (r: bool)
    ensures
        r == (o != Ordering::Equal),
{
    match o {
        Ordering::Equal => false,
        _ => true,
    }
}

/// Compares two strings as filesystem pathnames, component by component.
pub fn paths_cmp(l: &str, r: &str) -> (o: Ordering)
    ensures
        o == path_order(l@, r@),
{
    let lp = path_parts_of(l.as_bytes());
    let rp = path_parts_of(r.as_bytes());
    compare_part_lists(&lp, &rp)
}

/// Whether the first text sorts after the second.
pub open spec fn text_greater(a: Seq<char>, b: Seq<char>) -> bool {
    str_order(a, b) == Ordering::Greater
}

/// Whether the first string sorts after the second.
pub fn str_greater(a: &str, b: &str) -> (r: bool)
    ensures
        r == text_greater(a@, b@),
{
    match compare_str(a, b) {
        Ordering::Greater => true,
        _ => false,
    }
}

/// Whether two strings are equal.
pub fn str_equal(a: &str, b: &str) -> (r: bool)
    ensures
        r == (a@ == b@),
{
    proof {
        lemma_str_order(a@, b@, a@);
    }
    !is_not_equal(compare_str(a, b))
}

} // verus!
