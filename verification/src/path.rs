//! Dotted paths into a configuration tree.
//!
//! A path such as `settings.pki.certs` names a node by the keys that lead to it
//! from the root. In contracts a path is the sequence of its segments, each a
//! sequence of characters.

use crate::order::{lemma_path_order, parts_at, path_before, text_order, text_side, Side};
use vstd::prelude::*;

verus! {

/// The segments of a dotted string, read character by character: a dot opens a
/// new segment, any other character extends the last one. The empty string has
/// one empty segment.
pub open spec fn split_dots(s: Seq<char>) -> Seq<Seq<char>>
    decreases s.len(),
{
    if s.len() == 0 {
        seq![Seq::empty()]
    } else {
        let before = split_dots(s.drop_last());
        if s.last() == '.' {
            before.push(Seq::empty())
        } else {
            before.update(before.len() - 1, before.last().push(s.last()))
        }
    }
}

/// The segments written out with a dot between neighbours.
pub open spec fn join_dots(p: Seq<Seq<char>>) -> Seq<char>
    decreases p.len(),
{
    if p.len() == 0 {
        Seq::empty()
    } else if p.len() == 1 {
        p[0]
    } else {
        join_dots(p.drop_last()).push('.') + p.last()
    }
}

/// What a sequence of segments must satisfy to be a path: there is at least
/// one segment, and no segment holds a dot.
pub open spec fn is_path(p: Seq<Seq<char>>) -> bool {
    &&& p.len() >= 1
    &&& forall|i: int| 0 <= i < p.len() ==> !(#[trigger] p[i]).contains('.')
}

/// The character sequences of a list of strings.
pub open spec fn texts(v: Seq<String>) -> Seq<Seq<char>> {
    Seq::new(v.len(), |i: int| v[i]@)
}

/// A path: one or more segments, none of which holds a dot.
#[derive(Debug)]
pub struct Path {
    segments: Vec<String>,
}

impl View for Path {
    type V = Seq<Seq<char>>;

    closed spec fn view(&self) -> Seq<Seq<char>> {
        texts(self.segments@)
    }
}

impl Path {
    #[verifier::type_invariant]
    spec fn well_formed(self) -> bool {
        is_path(texts(self.segments@))
    }

    /// Reads a dotted string. Every string is a path: a string without a dot
    /// is a path of one segment, and between two neighbouring dots lies an
    /// empty segment.
    pub fn parse(s: &str) -> (p: Path)
        ensures
            p@ == split_dots(s@),
            is_path(p@),
    {
        let n = s.unicode_len();
        let mut segments: Vec<String> = Vec::new();
        let mut start: usize = 0;
        let mut i: usize = 0;
        proof {
            assert(s@.take(0).len() == 0);
            assert(s@.subrange(0, 0) == Seq::<char>::empty());
            assert(seq![Seq::<char>::empty()] == texts(segments@).push(Seq::<char>::empty()));
        }
        while i < n
            invariant
                n == s@.len(),
                start <= i <= n,
                split_dots(s@.take(i as int)) == texts(segments@).push(
                    s@.subrange(start as int, i as int),
                ),
                forall|j: int| 0 <= j < segments.len() ==> !(#[trigger] segments[j]@).contains('.'),
                forall|j: int| start <= j < i ==> s@[j] != '.',
            decreases n - i,
        {
            let c = s.get_char(i);
            proof {
                let head = s@.take(i as int);
                let next = s@.take(i + 1);
                assert(next.drop_last() == head);
                assert(next.last() == c);
                if c != '.' {
                    assert(s@.subrange(start as int, i + 1) == s@.subrange(
                        start as int,
                        i as int,
                    ).push(c));
                }
            }
            if c == '.' {
                let segment = s.substring_char(start, i).to_owned();
                proof {
                    assert(texts(segments@.push(segment)) == texts(segments@).push(segment@));
                    assert(s@.subrange(i + 1, i + 1) == Seq::<char>::empty());
                }
                segments.push(segment);
                start = i + 1;
            }
            i = i + 1;
        }
        let segment = s.substring_char(start, n).to_owned();
        proof {
            assert(texts(segments@.push(segment)) == texts(segments@).push(segment@));
            assert(s@.take(n as int) == s@);
        }
        segments.push(segment);
        Path { segments }
    }

    /// Makes a path of the given segments, where they form one.
    pub fn from_segments(segments: Vec<String>) -> (r: Option<Path>)
        ensures
            r is Some == is_path(texts(segments@)),
            r is Some ==> r->0@ == texts(segments@),
    {
        if segments.len() == 0 {
            return None;
        }
        let mut i: usize = 0;
        while i < segments.len()
            invariant
                i <= segments.len(),
                forall|j: int| 0 <= j < i ==> !(#[trigger] texts(segments@)[j]).contains('.'),
            decreases segments.len() - i,
        {
            if has_dot(segments[i].as_str()) {
                assert(texts(segments@)[i as int].contains('.'));
                return None;
            }
            i = i + 1;
        }
        Some(Path { segments })
    }

    /// The number of segments, which is at least one.
    pub fn len(&self) -> (n: usize)
        ensures
            n == self@.len(),
            is_path(self@),
    {
        proof {
            use_type_invariant(self);
        }
        self.segments.len()
    }

    /// The segment at position `i`.
    pub fn segment(&self, i: usize) -> (s: &String)
        requires
            i < self@.len(),
        ensures
            s@ == self@[i as int],
    {
        &self.segments[i]
    }

    /// The path made of the first `k` segments.
    pub fn head(&self, k: usize) -> (p: Path)
        requires
            1 <= k <= self@.len(),
        ensures
            p@ == self@.take(k as int),
            is_path(p@),
    {
        proof {
            use_type_invariant(self);
        }
        let mut segments: Vec<String> = Vec::new();
        let mut i: usize = 0;
        while i < k
            invariant
                i <= k <= self.segments.len(),
                segments.len() == i,
                forall|j: int| 0 <= j < i ==> segments[j]@ == self.segments[j]@,
            decreases k - i,
        {
            segments.push(self.segments[i].clone());
            i = i + 1;
        }
        proof {
            let mine = texts(self.segments@);
            assert(texts(segments@) == mine.take(k as int));
            assert forall|j: int| 0 <= j < k implies !(#[trigger] texts(segments@)[j]).contains(
                '.',
            ) by {
                assert(texts(segments@)[j] == mine[j]);
            }
        }
        Path { segments }
    }

    /// How `self` stands to the path made of the first `k` segments of
    /// `other` in the order of paths.
    pub(crate) fn side_of_head(&self, other: &Path, k: usize) -> (side: Side)
        requires
            k <= other@.len(),
        ensures
            match side {
                Side::Before => path_before(self@, other@.take(k as int)),
                Side::Same => self@ == other@.take(k as int),
                Side::After => path_before(other@.take(k as int), self@),
            },
    {
        let n = self.segments.len();
        let ghost head = other@.take(k as int);
        let mut i: usize = 0;
        while i < n && i < k
            invariant
                i <= n,
                i <= k <= other.segments.len(),
                n == self.segments.len(),
                head == other@.take(k as int),
                forall|j: int| 0 <= j < i ==> self.segments[j]@ == other.segments[j]@,
            decreases n - i,
        {
            let side = text_side(self.segments[i].as_str(), other.segments[i].as_str());
            proof {
                assert(self@.take(i as int) =~= head.take(i as int));
                assert(self@[i as int] == self.segments[i as int]@);
                assert(head[i as int] == other.segments[i as int]@);
            }
            match side {
                Side::Same => {},
                Side::Before => {
                    assert(parts_at(self@, head, text_order(), i as int));
                    return Side::Before;
                },
                Side::After => {
                    assert(parts_at(head, self@, text_order(), i as int));
                    return Side::After;
                },
            }
            i = i + 1;
        }
        proof {
            assert(self@.take(i as int) =~= head.take(i as int));
        }
        if n < k {
            assert(parts_at(self@, head, text_order(), i as int));
            Side::Before
        } else if k < n {
            assert(parts_at(head, self@, text_order(), i as int));
            Side::After
        } else {
            assert(self@ =~= head);
            Side::Same
        }
    }

    /// How `self` stands to `other` in the order of paths.
    pub fn side_of(&self, other: &Path) -> (side: Side)
        ensures
            match side {
                Side::Before => path_before(self@, other@),
                Side::Same => self@ == other@,
                Side::After => path_before(other@, self@),
            },
    {
        assert(other@.take(other@.len() as int) == other@);
        self.side_of_head(other, other.segments.len())
    }

    /// Whether `self` is the path made of the first `k` segments of `other`.
    pub(crate) fn is_head_of(&self, other: &Path, k: usize) -> (b: bool)
        requires
            k <= other@.len(),
        ensures
            b == (self@ == other@.take(k as int)),
    {
        proof {
            lemma_path_order(self@, other@.take(k as int), self@);
        }
        match self.side_of_head(other, k) {
            Side::Same => true,
            Side::Before => false,
            Side::After => false,
        }
    }

    /// Whether the segments of `prefix` are the first segments of `self`.
    pub fn starts_with(&self, prefix: &Path) -> (b: bool)
        ensures
            b == prefix@.is_prefix_of(self@),
    {
        prefix.segments.len() <= self.segments.len() && prefix.is_head_of(
            self,
            prefix.segments.len(),
        )
    }

    /// The path as a dotted string.
    pub fn to_dotted(&self) -> (s: String)
        ensures
            s@ == join_dots(self@),
    {
        proof {
            use_type_invariant(self);
        }
        let mut out = self.segments[0].clone();
        let mut i: usize = 1;
        assert(self@.take(1) == seq![self@[0]]);
        while i < self.segments.len()
            invariant
                1 <= i <= self.segments.len(),
                out@ == join_dots(self@.take(i as int)),
            decreases self.segments.len() - i,
        {
            proof {
                reveal_strlit(".");
                let next = self@.take(i + 1);
                assert(next.drop_last() == self@.take(i as int));
                assert(out@ + "."@ == out@.push('.'));
            }
            out.append(".");
            out.append(self.segments[i].as_str());
            i = i + 1;
        }
        assert(self@.take(i as int) == self@);
        out
    }
}

impl Clone for Path {
    fn clone(&self) -> (p: Path)
        ensures
            p@ == self@,
            is_path(p@),
    {
        let p = self.head(self.len());
        assert(self@.take(self@.len() as int) == self@);
        p
    }
}

impl PartialEq for Path {
    fn eq(&self, other: &Path) -> (b: bool) {
        assert(other@.take(other@.len() as int) == other@);
        self.is_head_of(other, other.len())
    }
}

impl vstd::std_specs::cmp::PartialEqSpecImpl for Path {
    open spec fn obeys_eq_spec() -> bool {
        true
    }

    open spec fn eq_spec(&self, other: &Path) -> bool {
        self@ == other@
    }
}

/// Whether a dot occurs in the string.
pub fn has_dot(s: &str) -> (b: bool)
    ensures
        b == s@.contains('.'),
{
    let n = s.unicode_len();
    let mut i: usize = 0;
    while i < n
        invariant
            i <= n,
            n == s@.len(),
            forall|j: int| 0 <= j < i ==> s@[j] != '.',
        decreases n - i,
    {
        if s.get_char(i) == '.' {
            return true;
        }
        i = i + 1;
    }
    false
}

/// The segments of a dotted string form a path.
pub proof fn lemma_split_is_path(s: Seq<char>)
    ensures
        is_path(split_dots(s)),
    decreases s.len(),
{
    if s.len() > 0 {
        lemma_split_is_path(s.drop_last());
        let before = split_dots(s.drop_last());
        if s.last() != '.' {
            let grown = before.last().push(s.last());
            assert forall|j: int| 0 <= j < grown.len() implies grown[j] != '.' by {
                if j < before.last().len() {
                    assert(before.last().contains(grown[j]));
                }
            }
        }
    }
}

/// Writing the segments of a dotted string out again gives the string back.
pub proof fn lemma_join_split(s: Seq<char>)
    ensures
        join_dots(split_dots(s)) == s,
    decreases s.len(),
{
    if s.len() > 0 {
        let rest = s.drop_last();
        lemma_join_split(rest);
        lemma_split_is_path(rest);
        let before = split_dots(rest);
        let after = split_dots(s);
        assert(s == rest.push(s.last()));
        if s.last() == '.' {
            assert(after.drop_last() == before);
            assert(join_dots(before).push('.') + Seq::<char>::empty() == rest.push('.'));
        } else if before.len() == 1 {
            assert(join_dots(before) == before[0]);
        } else {
            assert(after.drop_last() == before.drop_last());
            let front = join_dots(before.drop_last()).push('.');
            assert(front + before.last().push(s.last()) == (front + before.last()).push(s.last()));
        }
    }
}

/// Appending a text without a dot to a dotted string extends its last segment.
pub proof fn lemma_split_extend(s: Seq<char>, tail: Seq<char>)
    requires
        !tail.contains('.'),
    ensures
        split_dots(s + tail) == split_dots(s).update(
            split_dots(s).len() - 1,
            split_dots(s).last() + tail,
        ),
    decreases tail.len(),
{
    lemma_split_is_path(s);
    let segments = split_dots(s);
    if tail.len() == 0 {
        assert(s + tail == s);
        assert(segments.last() + tail == segments.last());
        assert(segments.update(segments.len() - 1, segments.last()) == segments);
    } else {
        let shorter = tail.drop_last();
        assert forall|j: int| 0 <= j < shorter.len() implies shorter[j] != '.' by {
            assert(tail.contains(tail[j]));
        }
        lemma_split_extend(s, shorter);
        assert(tail.contains(tail.last()));
        assert((s + tail).drop_last() == s + shorter);
        assert((segments.last() + shorter).push(tail.last()) == segments.last() + tail);
        assert(segments.update(segments.len() - 1, segments.last() + shorter).update(
            segments.len() - 1,
            segments.last() + tail,
        ) == segments.update(segments.len() - 1, segments.last() + tail));
    }
}

/// Reading the dotted form of a path gives the path back.
pub proof fn lemma_split_join(p: Seq<Seq<char>>)
    requires
        is_path(p),
    ensures
        split_dots(join_dots(p)) == p,
    decreases p.len(),
{
    let empty = Seq::<char>::empty();
    if p.len() == 1 {
        lemma_split_extend(empty, p[0]);
        assert(empty + p[0] == p[0]);
        assert(split_dots(empty) == seq![empty]);
        assert(seq![empty].update(0, empty + p[0]) == p);
    } else {
        let front = p.drop_last();
        lemma_split_join(front);
        let dotted = join_dots(front).push('.');
        assert(dotted.drop_last() == join_dots(front));
        assert(split_dots(dotted) == front.push(empty));
        lemma_split_extend(dotted, p.last());
        assert(empty + p.last() == p.last());
        assert(front.push(empty).update(front.len() as int, p.last()) == p);
    }
}

} // verus!
