//! The order of paths.
//!
//! Paths are ordered as words in a dictionary are, segment by segment, and
//! segments as strings are ordered in Rust: by their UTF-8 encodings, byte by
//! byte. A path therefore comes before the paths below it.

use vstd::prelude::*;
use vstd::utf8::{encode_utf8, encode_utf8_decode_utf8};

verus! {

/// How one thing stands to another in an order.
#[derive(Clone, Copy, Debug, PartialEq, Eq, Structural)]
pub enum Side {
    Before,
    Same,
    After,
}

/// Whether `a` and `b` agree in their first `k` items and `a` comes before
/// `b` from there: `a` ends there and `b` does not, or the item of `a` at
/// `k` comes before that of `b`.
pub open spec fn parts_at<T>(a: Seq<T>, b: Seq<T>, lt: spec_fn(T, T) -> bool, k: int) -> bool {
    &&& 0 <= k <= a.len()
    &&& k < b.len()
    &&& a.take(k) == b.take(k)
    &&& k < a.len() ==> lt(a[k], b[k])
}

/// The order of dictionaries on sequences, over the order `lt` on items.
pub open spec fn lex_before<T>(a: Seq<T>, b: Seq<T>, lt: spec_fn(T, T) -> bool) -> bool {
    exists|k: int| parts_at(a, b, lt, k)
}

/// What makes a relation a strict total order.
pub open spec fn is_strict_total_order<T>(lt: spec_fn(T, T) -> bool) -> bool {
    &&& forall|x: T| !#[trigger] lt(x, x)
    &&& forall|x: T, y: T, z: T| #[trigger] lt(x, y) && #[trigger] lt(y, z) ==> lt(x, z)
    &&& forall|x: T, y: T| x != y ==> #[trigger] lt(x, y) || lt(y, x)
}

/// The order of bytes.
pub open spec fn byte_before() -> spec_fn(u8, u8) -> bool {
    |x: u8, y: u8| x < y
}

/// Whether the text `a` comes before the text `b`.
pub open spec fn text_before(a: Seq<char>, b: Seq<char>) -> bool {
    lex_before(encode_utf8(a), encode_utf8(b), byte_before())
}

/// The order of texts as a relation.
pub open spec fn text_order() -> spec_fn(Seq<char>, Seq<char>) -> bool {
    |a: Seq<char>, b: Seq<char>| text_before(a, b)
}

/// Whether the path `p` comes before the path `q`.
pub open spec fn path_before(p: Seq<Seq<char>>, q: Seq<Seq<char>>) -> bool {
    lex_before(p, q, text_order())
}

/// Two sequences that agree in their first `k` items agree in any smaller
/// number of their first items, and in each of those items.
proof fn lemma_agree_shorter<T>(a: Seq<T>, b: Seq<T>, k: int, j: int)
    requires
        0 <= j <= k <= a.len(),
        k <= b.len(),
        a.take(k) == b.take(k),
    ensures
        a.take(j) == b.take(j),
        j < k ==> a[j] == b[j],
{
    assert(a.take(j) =~= a.take(k).take(j));
    assert(b.take(j) =~= b.take(k).take(j));
    if j < k {
        assert(a[j] == a.take(k)[j]);
        assert(b[j] == b.take(k)[j]);
    }
}

/// No sequence comes before itself.
pub proof fn lemma_lex_irreflexive<T>(a: Seq<T>, lt: spec_fn(T, T) -> bool)
    requires
        is_strict_total_order(lt),
    ensures
        !lex_before(a, a, lt),
{
}

/// The order of dictionaries is transitive.
pub proof fn lemma_lex_transitive<T>(a: Seq<T>, b: Seq<T>, c: Seq<T>, lt: spec_fn(T, T) -> bool)
    requires
        is_strict_total_order(lt),
        lex_before(a, b, lt),
        lex_before(b, c, lt),
    ensures
        lex_before(a, c, lt),
{
    let i = choose|i: int| parts_at(a, b, lt, i);
    let j = choose|j: int| parts_at(b, c, lt, j);
    let k = if i <= j { i } else { j };
    lemma_agree_shorter(a, b, i, k);
    lemma_agree_shorter(b, c, j, k);
    assert(parts_at(a, c, lt, k));
}

/// Of two different sequences one comes before the other: the one that is
/// first to end or to hold the smaller item, from position `k` on, up to
/// which the two agree.
proof fn lemma_lex_total_from<T>(a: Seq<T>, b: Seq<T>, lt: spec_fn(T, T) -> bool, k: int)
    requires
        is_strict_total_order(lt),
        a != b,
        0 <= k <= a.len(),
        k <= b.len(),
        a.take(k) == b.take(k),
    ensures
        lex_before(a, b, lt) || lex_before(b, a, lt),
    decreases a.len() - k,
{
    if k == a.len() {
        if k == b.len() {
            assert(a.take(k) == a);
            assert(b.take(k) == b);
        } else {
            assert(parts_at(a, b, lt, k));
        }
    } else if k == b.len() {
        assert(parts_at(b, a, lt, k));
    } else if a[k] == b[k] {
        assert(a.take(k + 1) =~= a.take(k).push(a[k]));
        assert(b.take(k + 1) =~= b.take(k).push(b[k]));
        lemma_lex_total_from(a, b, lt, k + 1);
    } else if lt(a[k], b[k]) {
        assert(parts_at(a, b, lt, k));
    } else {
        assert(lt(b[k], a[k]));
        assert(parts_at(b, a, lt, k));
    }
}

/// Of two different sequences one comes before the other.
pub proof fn lemma_lex_total<T>(a: Seq<T>, b: Seq<T>, lt: spec_fn(T, T) -> bool)
    requires
        is_strict_total_order(lt),
        a != b,
    ensures
        lex_before(a, b, lt) || lex_before(b, a, lt),
{
    assert(a.take(0) =~= b.take(0));
    lemma_lex_total_from(a, b, lt, 0);
}

/// The order of texts is a strict total order.
pub proof fn lemma_text_order()
    ensures
        is_strict_total_order(text_order()),
{
    let lt = byte_before();
    assert(is_strict_total_order(lt));
    assert forall|x: Seq<char>| !#[trigger] text_order()(x, x) by {
        lemma_lex_irreflexive(encode_utf8(x), lt);
    }
    assert forall|x: Seq<char>, y: Seq<char>, z: Seq<char>| #[trigger]
        text_order()(x, y) && #[trigger] text_order()(y, z) implies text_order()(x, z) by {
        lemma_lex_transitive(encode_utf8(x), encode_utf8(y), encode_utf8(z), lt);
    }
    assert forall|x: Seq<char>, y: Seq<char>| x != y implies #[trigger] text_order()(x, y)
        || text_order()(y, x) by {
        encode_utf8_decode_utf8(x);
        encode_utf8_decode_utf8(y);
        lemma_lex_total(encode_utf8(x), encode_utf8(y), lt);
    }
}

/// The order of paths is a strict total order: no path comes before itself,
/// of two different paths one comes before the other and not the other way
/// round, and the order is transitive.
pub proof fn lemma_path_order(p: Seq<Seq<char>>, q: Seq<Seq<char>>, r: Seq<Seq<char>>)
    ensures
        !path_before(p, p),
        p != q ==> path_before(p, q) || path_before(q, p),
        path_before(p, q) ==> !path_before(q, p),
        path_before(p, q) && path_before(q, r) ==> path_before(p, r),
{
    lemma_text_order();
    lemma_lex_irreflexive(p, text_order());
    if p != q {
        lemma_lex_total(p, q, text_order());
    }
    if path_before(p, q) && path_before(q, r) {
        lemma_lex_transitive(p, q, r, text_order());
    }
    if path_before(p, q) && path_before(q, p) {
        lemma_lex_transitive(p, q, p, text_order());
    }
}

/// A path comes before every path below it.
pub proof fn lemma_head_comes_first(p: Seq<Seq<char>>, q: Seq<Seq<char>>)
    requires
        p.is_prefix_of(q),
        p != q,
    ensures
        path_before(p, q),
{
    if p.len() == q.len() {
        assert(q.take(q.len() as int) == q);
    }
    assert(p.take(p.len() as int) == p);
    assert(parts_at(p, q, text_order(), p.len() as int));
}

/// How the text `a` stands to the text `b`.
pub fn text_side(a: &str, b: &str) -> (side: Side)
    ensures
        match side {
            Side::Before => text_before(a@, b@),
            Side::Same => a@ == b@,
            Side::After => text_before(b@, a@),
        },
{
    let x = a.as_bytes();
    let y = b.as_bytes();
    let ghost lt = byte_before();
    let mut i: usize = 0;
    assert(x@.take(0) =~= y@.take(0));
    while i < x.len() && i < y.len()
        invariant
            i <= x.len(),
            i <= y.len(),
            x@ == encode_utf8(a@),
            y@ == encode_utf8(b@),
            lt == byte_before(),
            x@.take(i as int) == y@.take(i as int),
        decreases x.len() - i,
    {
        if x[i] != y[i] {
            if x[i] < y[i] {
                assert(parts_at(x@, y@, lt, i as int));
                return Side::Before;
            } else {
                assert(parts_at(y@, x@, lt, i as int));
                return Side::After;
            }
        }
        proof {
            assert(x@.take(i + 1) =~= x@.take(i as int).push(x@[i as int]));
            assert(y@.take(i + 1) =~= y@.take(i as int).push(y@[i as int]));
        }
        i = i + 1;
    }
    if x.len() < y.len() {
        assert(parts_at(x@, y@, lt, i as int));
        Side::Before
    } else if y.len() < x.len() {
        assert(parts_at(y@, x@, lt, i as int));
        Side::After
    } else {
        proof {
            assert(x@.take(i as int) == x@);
            assert(y@.take(i as int) == y@);
            encode_utf8_decode_utf8(a@);
            encode_utf8_decode_utf8(b@);
        }
        Side::Same
    }
}

} // verus!
