//! Structural differences between nested trees of maps, sequences and leaves.

use vstd::prelude::*;

use crate::myers::{diff as diff_seq, fits, is_script, models, myers_script, new_side, Edit, Element};
use crate::text::chars_of;
use std::collections::HashMap;

verus! {

broadcast use vstd::std_specs::vec::group_vec_axioms;

/// A tree: a map from strings to trees, a sequence of trees, or a leaf
/// value. A map's entries are kept in strictly increasing key order
/// (`wf_tree`), which `to_node` establishes and `diff_tree` and
/// `apply_tree` require.
#[derive(Debug, PartialEq, Eq)]
pub enum Node<P> {
    Mapping(Vec<(String, Node<P>)>),
    Sequence(Vec<Node<P>>),
    Leaf(P),
}

/// The abstract value of a tree.
pub enum NodeView<V> {
    Mapping(Seq<(Seq<char>, NodeView<V>)>),
    Sequence(Seq<NodeView<V>>),
    Leaf(V),
}

pub open spec fn node_view<P: DeepView>(n: Node<P>) -> NodeView<P::V>
    decreases n,
{
    match n {
        Node::Leaf(p) => NodeView::Leaf(p.deep_view()),
        Node::Sequence(v) => NodeView::Sequence(
            Seq::new(v@.len(), |i: int| if 0 <= i < v@.len() { node_view(v@[i]) } else { NodeView::Leaf(arbitrary()) }),
        ),
        Node::Mapping(v) => NodeView::Mapping(
            Seq::new(v@.len(), |i: int| if 0 <= i < v@.len() { (v@[i].0@, node_view(v@[i].1)) } else { (Seq::empty(), NodeView::Leaf(arbitrary())) }),
        ),
    }
}

impl<P: DeepView> DeepView for Node<P> {
    type V = NodeView<P::V>;

    open spec fn deep_view(&self) -> NodeView<P::V> {
        node_view(*self)
    }
}

/// One step of a path into a tree.
#[derive(Debug, PartialEq, Eq)]
pub enum PathSegment {
    /// A map key.
    Key(String),
    /// A sequence index.
    Index(usize),
}

/// The abstract value of a path segment.
pub enum PathKey {
    Key(Seq<char>),
    Index(int),
}

impl DeepView for PathSegment {
    type V = PathKey;

    open spec fn deep_view(&self) -> PathKey {
        match self {
            PathSegment::Key(k) => PathKey::Key(k@),
            PathSegment::Index(i) => PathKey::Index(*i as int),
        }
    }
}

impl PathSegment {
    pub fn duplicate(&self) -> (r: PathSegment)
        ensures
            r.deep_view() == self.deep_view(),
    {
        match self {
            PathSegment::Key(k) => PathSegment::Key(k.clone()),
            PathSegment::Index(i) => PathSegment::Index(*i),
        }
    }
}

/// What changed at the end of a path.
#[derive(Debug, PartialEq, Eq)]
pub enum ChangeKind<P> {
    /// A leaf appeared at a map key.
    Added(P),
    /// A map or sequence appeared at a map key.
    NodeAdded(Node<P>),
    /// A leaf disappeared from a map key.
    Removed(P),
    /// A map or sequence disappeared from a map key.
    NodeRemoved(Node<P>),
    /// A leaf changed from the first value to the second.
    Modified(P, P),
    /// The edit script that turns the old sequence into the new one.
    SequenceChange(Vec<Edit<Node<P>>>),
}

/// One change in a tree, addressed by its path from the root.
#[derive(Debug, PartialEq, Eq)]
pub struct Change<P> {
    pub path: Vec<PathSegment>,
    pub kind: ChangeKind<P>,
}

pub enum ChangeKindView<V> {
    Added(V),
    NodeAdded(NodeView<V>),
    Removed(V),
    NodeRemoved(NodeView<V>),
    Modified(V, V),
    SequenceChange(Seq<Edit<NodeView<V>>>),
}

pub struct ChangeView<V> {
    pub path: Seq<PathKey>,
    pub kind: ChangeKindView<V>,
}

impl<P: DeepView> DeepView for ChangeKind<P> {
    type V = ChangeKindView<P::V>;

    open spec fn deep_view(&self) -> ChangeKindView<P::V> {
        match self {
            ChangeKind::Added(p) => ChangeKindView::Added(p.deep_view()),
            ChangeKind::NodeAdded(n) => ChangeKindView::NodeAdded(node_view(*n)),
            ChangeKind::Removed(p) => ChangeKindView::Removed(p.deep_view()),
            ChangeKind::NodeRemoved(n) => ChangeKindView::NodeRemoved(node_view(*n)),
            ChangeKind::Modified(a, b) => ChangeKindView::Modified(a.deep_view(), b.deep_view()),
            ChangeKind::SequenceChange(es) => ChangeKindView::SequenceChange(models(es@)),
        }
    }
}

impl<P: DeepView> DeepView for Change<P> {
    type V = ChangeView<P::V>;

    open spec fn deep_view(&self) -> ChangeView<P::V> {
        ChangeView { path: models(self.path@), kind: self.kind.deep_view() }
    }
}

/// A value that can sit at a leaf of a tree.
pub trait Primitive: Element {
}

impl Primitive for u8 {}
impl Primitive for u16 {}
impl Primitive for u32 {}
impl Primitive for u64 {}
impl Primitive for u128 {}
impl Primitive for usize {}
impl Primitive for i8 {}
impl Primitive for i16 {}
impl Primitive for i32 {}
impl Primitive for i64 {}
impl Primitive for i128 {}
impl Primitive for isize {}
impl Primitive for bool {}
impl Primitive for char {}
impl Primitive for String {}

/// Strict lexicographic order on keys, character by character.
pub open spec fn key_lt(a: Seq<char>, b: Seq<char>) -> bool
    decreases a.len(),
{
    if a.len() == 0 {
        b.len() > 0
    } else if b.len() == 0 {
        false
    } else if a[0] != b[0] {
        a[0] < b[0]
    } else {
        key_lt(a.drop_first(), b.drop_first())
    }
}

fn key_less(a: &String, b: &String) -> (r: bool)
    ensures
        r == key_lt(a@, b@),
{
    let x = chars_of(a.as_str());
    let y = chars_of(b.as_str());
    let mut i: usize = 0;
    assert(a@.subrange(0, a@.len() as int) =~= a@);
    assert(b@.subrange(0, b@.len() as int) =~= b@);
    while i < x.len() && i < y.len() && x[i] == y[i]
        invariant
            i <= x@.len(),
            i <= y@.len(),
            x@ == a@,
            y@ == b@,
            key_lt(a@, b@) == key_lt(a@.subrange(i as int, a@.len() as int), b@.subrange(i as int, b@.len() as int)),
        decreases x@.len() - i,
    {
        let ghost sa = a@.subrange(i as int, a@.len() as int);
        let ghost sb = b@.subrange(i as int, b@.len() as int);
        assert(sa.drop_first() =~= a@.subrange(i + 1, a@.len() as int));
        assert(sb.drop_first() =~= b@.subrange(i + 1, b@.len() as int));
        i += 1;
    }
    let ghost sa = a@.subrange(i as int, a@.len() as int);
    let ghost sb = b@.subrange(i as int, b@.len() as int);
    if i == x.len() {
        assert(sa.len() == 0);
        i < y.len()
    } else if i == y.len() {
        false
    } else {
        assert(sa[0] == x@[i as int] && sb[0] == y@[i as int]);
        x[i] < y[i]
    }
}

/// The longest sequence that goes through the shortest-edit-script engine:
/// a node takes more than 16 bytes, so no sequence of nodes this long fits
/// in memory.
fn max_sequence() -> (r: usize)
    ensures
        r == isize::MAX / 16,
{
    (isize::MAX / 16) as usize
}

fn node_same<P: Element>(a: &Node<P>, b: &Node<P>) -> (r: bool)
    ensures
        r == (node_view(*a) == node_view(*b)),
    decreases a,
{
    match (a, b) {
        (Node::Leaf(x), Node::Leaf(y)) => x.same(y),
        (Node::Sequence(x), Node::Sequence(y)) => {
            assert(*a == Node::Sequence(*x) && *b == Node::Sequence(*y));
            if x.len() != y.len() {
                proof {
                    if node_view(*a) == node_view(*b) {
                        assert(node_view(*a)->Sequence_0.len() == x@.len());
                    }
                }
                return false;
            }
            let mut i: usize = 0;
            while i < x.len()
                invariant
                    *a == Node::Sequence(*x),
                    *b == Node::Sequence(*y),
                    x@.len() == y@.len(),
                    i <= x@.len(),
                    forall|q: int| 0 <= q < i ==> node_view(x@[q]) == node_view(y@[q]),
                decreases x@.len() - i,
            {
                assert(decreases_to!(*x => (*x)[i as int]));
                assert(decreases_to!(*a => x@[i as int]));
                if !node_same(&x[i], &y[i]) {
                    proof {
                        if node_view(*a) == node_view(*b) {
                            assert(node_view(*a)->Sequence_0[i as int] == node_view(x@[i as int]));
                            assert(node_view(*b)->Sequence_0[i as int] == node_view(y@[i as int]));
                        }
                    }
                    return false;
                }
                i += 1;
            }
            assert(node_view(*a)->Sequence_0 =~= node_view(*b)->Sequence_0);
            true
        },
        (Node::Mapping(x), Node::Mapping(y)) => {
            assert(*a == Node::Mapping(*x) && *b == Node::Mapping(*y));
            if x.len() != y.len() {
                proof {
                    if node_view(*a) == node_view(*b) {
                        assert(node_view(*a)->Mapping_0.len() == x@.len());
                    }
                }
                return false;
            }
            let mut i: usize = 0;
            while i < x.len()
                invariant
                    *a == Node::Mapping(*x),
                    *b == Node::Mapping(*y),
                    x@.len() == y@.len(),
                    i <= x@.len(),
                    forall|q: int| 0 <= q < i ==> x@[q].0@ == y@[q].0@ && node_view(x@[q].1) == node_view(y@[q].1),
                decreases x@.len() - i,
            {
                assert(decreases_to!(*x => (*x)[i as int]));
                assert(decreases_to!(*a => x@[i as int].1));
                if !(x[i].0 == y[i].0) || !node_same(&x[i].1, &y[i].1) {
                    proof {
                        if node_view(*a) == node_view(*b) {
                            assert(node_view(*a)->Mapping_0[i as int] == (x@[i as int].0@, node_view(x@[i as int].1)));
                            assert(node_view(*b)->Mapping_0[i as int] == (y@[i as int].0@, node_view(y@[i as int].1)));
                        }
                    }
                    return false;
                }
                i += 1;
            }
            assert(node_view(*a)->Mapping_0 =~= node_view(*b)->Mapping_0);
            true
        },
        _ => false,
    }
}

fn node_copy<P: Element>(src: &Node<P>) -> (r: Node<P>)
    ensures
        node_view(r) == node_view(*src),
    decreases node_view(*src),
{
    match (src, src) {
        (Node::Leaf(x), _) => Node::Leaf(x.duplicate()),
        (Node::Sequence(x), _) => {
            assert(*src == Node::Sequence(*x));
            assert(node_view(*src)->Sequence_0.len() == x@.len());
            let mut copied: Vec<Node<P>> = Vec::new();
            let mut i: usize = 0;
            while i < x.len()
                invariant
                    *src == Node::Sequence(*x),
                    i <= x@.len(),
                    copied@.len() == i,
                    forall|q: int| 0 <= q < i ==> node_view(#[trigger] copied@[q]) == node_view(x@[q]),
                decreases x@.len() - i,
            {
                assert(node_view(*src)->Sequence_0[i as int] == node_view(x@[i as int]));
                copied.push(node_copy(&x[i]));
                i += 1;
            }
            let r = Node::Sequence(copied);
            assert(node_view(r)->Sequence_0 =~= node_view(*src)->Sequence_0);
            r
        },
        (Node::Mapping(x), _) => {
            assert(*src == Node::Mapping(*x));
            let mut copied: Vec<(String, Node<P>)> = Vec::new();
            let mut i: usize = 0;
            while i < x.len()
                invariant
                    *src == Node::Mapping(*x),
                    i <= x@.len(),
                    copied@.len() == i,
                    forall|q: int| 0 <= q < i ==> (#[trigger] copied@[q]).0@ == x@[q].0@ && node_view(copied@[q].1) == node_view(x@[q].1),
                decreases x@.len() - i,
            {
                assert(node_view(*src)->Mapping_0[i as int] == (x@[i as int].0@, node_view(x@[i as int].1)));
                proof {
                    let m = node_view(*src)->Mapping_0;
                    assert(decreases_to!(node_view(*src) => m));
                    assert(decreases_to!(m => m[i as int]));
                    assert(decreases_to!(m[i as int] => m[i as int].1));
                }
                let child = node_copy(&x[i].1);
                copied.push((x[i].0.clone(), child));
                i += 1;
            }
            let r = Node::Mapping(copied);
            assert(node_view(r)->Mapping_0 =~= node_view(*src)->Mapping_0);
            r
        },
    }
}

impl<P: Element> Element for Node<P> {
    fn same(&self, other: &Node<P>) -> (r: bool) {
        node_same(self, other)
    }

    fn duplicate(&self) -> (r: Node<P>) {
        node_copy(self)
    }
}

/// The change that records a value leaving a map key: a leaf as `Removed`,
/// anything else as `NodeRemoved`.
pub open spec fn removal<V>(path: Seq<PathKey>, n: NodeView<V>) -> ChangeView<V> {
    match n {
        NodeView::Leaf(p) => ChangeView { path, kind: ChangeKindView::Removed(p) },
        _ => ChangeView { path, kind: ChangeKindView::NodeRemoved(n) },
    }
}

/// The change that records a value arriving at a map key: a leaf as
/// `Added`, anything else as `NodeAdded`.
pub open spec fn addition<V>(path: Seq<PathKey>, n: NodeView<V>) -> ChangeView<V> {
    match n {
        NodeView::Leaf(p) => ChangeView { path, kind: ChangeKindView::Added(p) },
        _ => ChangeView { path, kind: ChangeKindView::NodeAdded(n) },
    }
}

pub open spec fn all_equal<A>(edits: Seq<Edit<A>>) -> bool {
    forall|i: int| 0 <= i < edits.len() ==> edits[i] is Equal
}

/// `out` is what diffing `old` against `new` at `path` emits:
/// - two leaves: nothing if equal, else one `Modified`;
/// - two sequences: nothing if equal, else one `SequenceChange` whose
///   script turns the old elements into the new ones, Myers' script for
///   any sequences that fit in memory;
/// - two maps: the changes of each key of either, keys in increasing order
///   (see `merge_ok`);
/// - anything else: `NodeRemoved(old)` then `NodeAdded(new)`, both at `path`.
pub open spec fn diff_ok<V>(old: NodeView<V>, new: NodeView<V>, path: Seq<PathKey>, out: Seq<ChangeView<V>>) -> bool
    decreases old, new,
{
    match (old, new) {
        (NodeView::Leaf(a), NodeView::Leaf(b)) => if a == b {
            out == Seq::<ChangeView<V>>::empty()
        } else {
            out == seq![ChangeView { path, kind: ChangeKindView::Modified(a, b) }]
        },
        (NodeView::Sequence(a), NodeView::Sequence(b)) => if a == b {
            out == Seq::<ChangeView<V>>::empty()
        } else {
            &&& out.len() == 1
            &&& out[0].path == path
            &&& out[0].kind is SequenceChange
            &&& is_script(out[0].kind->SequenceChange_0, a, b)
            &&& (a.len() <= isize::MAX / 16 && b.len() <= isize::MAX / 16) ==> out[0].kind->SequenceChange_0
                == myers_script(a, b)
        },
        (NodeView::Mapping(a), NodeView::Mapping(b)) => merge_ok(a, b, path, out),
        _ => out == seq![
            ChangeView { path, kind: ChangeKindView::NodeRemoved(old) },
            ChangeView { path, kind: ChangeKindView::NodeAdded(new) },
        ],
    }
}

/// `out` is what diffing two maps (their entries in key order) emits: walking
/// both key lists together, a key only in `a` gives its removal, a key only
/// in `b` its addition, and a key in both the diff of its two values, with
/// the key appended to the path.
pub open spec fn merge_ok<V>(
    a: Seq<(Seq<char>, NodeView<V>)>,
    b: Seq<(Seq<char>, NodeView<V>)>,
    path: Seq<PathKey>,
    out: Seq<ChangeView<V>>,
) -> bool
    decreases a, b,
{
    if a.len() == 0 && b.len() == 0 {
        out == Seq::<ChangeView<V>>::empty()
    } else if a.len() > 0 && (b.len() == 0 || key_lt(a[0].0, b[0].0)) {
        &&& out.len() > 0
        &&& out[0] == removal(path.push(PathKey::Key(a[0].0)), a[0].1)
        &&& merge_ok(a.drop_first(), b, path, out.drop_first())
    } else if a.len() == 0 || key_lt(b[0].0, a[0].0) || a[0].0 != b[0].0 {
        &&& out.len() > 0
        &&& out[0] == addition(path.push(PathKey::Key(b[0].0)), b[0].1)
        &&& merge_ok(a, b.drop_first(), path, out.drop_first())
    } else {
        exists|j: int|
            0 <= j <= out.len() && diff_ok(a[0].1, b[0].1, path.push(PathKey::Key(a[0].0)), out.subrange(0, j))
                && merge_ok(a.drop_first(), b.drop_first(), path, #[trigger] out.subrange(j, out.len() as int))
    }
}

fn copy_path(path: &Vec<PathSegment>) -> (r: Vec<PathSegment>)
    ensures
        models(r@) == models(path@),
{
    let mut r: Vec<PathSegment> = Vec::new();
    let mut i: usize = 0;
    while i < path.len()
        invariant
            i <= path@.len(),
            r@.len() == i,
            forall|q: int| 0 <= q < i ==> (#[trigger] r@[q]).deep_view() == path@[q].deep_view(),
        decreases path@.len() - i,
    {
        r.push(path[i].duplicate());
        i += 1;
    }
    assert(models(r@) =~= models(path@));
    r
}

fn extend_path(path: &Vec<PathSegment>, key: &String) -> (r: Vec<PathSegment>)
    ensures
        models(r@) == models(path@).push(PathKey::Key(key@)),
{
    let mut r = copy_path(path);
    let ghost before = r@;
    r.push(PathSegment::Key(key.clone()));
    assert(models(r@) =~= models(before).push(PathKey::Key(key@)));
    r
}

fn leaving<P: Primitive>(path: Vec<PathSegment>, n: &Node<P>) -> (r: Change<P>)
    ensures
        r.deep_view() == removal(models(path@), node_view(*n)),
{
    match n {
        Node::Leaf(p) => Change { path, kind: ChangeKind::Removed(p.duplicate()) },
        _ => Change { path, kind: ChangeKind::NodeRemoved(node_copy(n)) },
    }
}

fn arriving<P: Primitive>(path: Vec<PathSegment>, n: &Node<P>) -> (r: Change<P>)
    ensures
        r.deep_view() == addition(models(path@), node_view(*n)),
{
    match n {
        Node::Leaf(p) => Change { path, kind: ChangeKind::Added(p.duplicate()) },
        _ => Change { path, kind: ChangeKind::NodeAdded(node_copy(n)) },
    }
}

/// Deletes every old element and then inserts every new one, unless the two
/// sequences are equal: then it keeps them all.
fn plain_script<P: Primitive>(a: &Vec<Node<P>>, b: &Vec<Node<P>>) -> (r: Vec<Edit<Node<P>>>)
    ensures
        is_script(models(r@), models(a@), models(b@)),
        models(a@) == models(b@) ==> all_equal(models(r@)),
{
    let mut r: Vec<Edit<Node<P>>> = Vec::new();
    let mut same = a.len() == b.len();
    let mut i: usize = 0;
    assert(models(a@) == models(b@) ==> models(a@).len() == b@.len());
    while same && i < a.len()
        invariant
            i <= a@.len(),
            same ==> a@.len() == b@.len(),
            same ==> forall|q: int| 0 <= q < i ==> node_view(a@[q]) == node_view(b@[q]),
            models(a@) == models(b@) ==> same,
        decreases a@.len() - i,
    {
        same = node_same(&a[i], &b[i]);
        proof {
            if models(a@) == models(b@) {
                assert(models(a@)[i as int] == models(b@)[i as int]);
            }
        }
        i += 1;
    }
    if same {
        let mut q: usize = 0;
        while q < a.len()
            invariant
                q <= a@.len(),
                a@.len() == b@.len(),
                r@.len() == q,
                forall|t: int| 0 <= t < q ==> (#[trigger] r@[t]).deep_view() == Edit::Equal(node_view(a@[t])),
            decreases a@.len() - q,
        {
            r.push(Edit::Equal(node_copy(&a[q])));
            q += 1;
        }
        proof {
            assert(models(a@) =~= models(b@));
            assert(models(r@) =~= crate::myers::all_equals(models(a@)));
            crate::myers::lemma_equals_script(models(a@));
        }
    } else {
        let mut q: usize = 0;
        while q < a.len()
            invariant
                q <= a@.len(),
                r@.len() == q,
                forall|t: int| 0 <= t < q ==> (#[trigger] r@[t]).deep_view() == Edit::Delete(node_view(a@[t])),
            decreases a@.len() - q,
        {
            r.push(Edit::Delete(node_copy(&a[q])));
            q += 1;
        }
        let mut q: usize = 0;
        while q < b.len()
            invariant
                q <= b@.len(),
                r@.len() == a@.len() + q,
                forall|t: int| 0 <= t < a@.len() ==> (#[trigger] r@[t]).deep_view() == Edit::Delete(node_view(a@[t])),
                forall|t: int| 0 <= t < q ==> (#[trigger] r@[a@.len() + t]).deep_view() == Edit::Insert(node_view(b@[t])),
            decreases b@.len() - q,
        {
            r.push(Edit::Insert(node_copy(&b[q])));
            q += 1;
        }
        proof {
            let d = crate::myers::all_deletes(models(a@));
            let n = crate::myers::all_inserts(models(b@));
            assert forall|t: int| 0 <= t < r@.len() implies models(r@)[t] == (d + n)[t] by {
                if t >= a@.len() {
                    assert(r@[a@.len() + (t - a@.len())].deep_view() == Edit::Insert(node_view(b@[t - a@.len()])));
                }
            }
            assert(models(r@) =~= d + n);
            crate::myers::lemma_deletes_script(models(a@));
            crate::myers::lemma_inserts_script(models(b@));
            crate::myers::lemma_sides_concat(d, n);
            assert(models(a@) + Seq::<NodeView<P::V>>::empty() =~= models(a@));
            assert(Seq::<NodeView<P::V>>::empty() + models(b@) =~= models(b@));
        }
    }
    r
}

fn diff_nodes<P: Primitive>(old: &Node<P>, new: &Node<P>, path: &Vec<PathSegment>) -> (r: Vec<Change<P>>)
    ensures
        diff_ok(node_view(*old), node_view(*new), models(path@), models(r@)),
    decreases node_view(*old),
{
    let ghost pv = models(path@);
    match (old, new) {
        (Node::Leaf(a), Node::Leaf(b)) => {
            let mut r: Vec<Change<P>> = Vec::new();
            if !a.same(b) {
                r.push(Change { path: copy_path(path), kind: ChangeKind::Modified(a.duplicate(), b.duplicate()) });
                assert(models(r@) =~= seq![ChangeView { path: pv, kind: ChangeKindView::Modified(a.deep_view(), b.deep_view()) }]);
            } else {
                assert(models(r@) =~= Seq::<ChangeView<P::V>>::empty());
            }
            r
        },
        (Node::Sequence(a), Node::Sequence(b)) => {
            let ghost av = node_view(*old)->Sequence_0;
            let ghost bv = node_view(*new)->Sequence_0;
            assert(av =~= models(a@));
            assert(bv =~= models(b@));
            let limit = max_sequence();
            let edits = if a.len() <= limit && b.len() <= limit {
                diff_seq(a.as_slice(), b.as_slice())
            } else {
                plain_script(a, b)
            };
            proof {
                if av == bv && a.len() <= limit && b.len() <= limit {
                    assert(models(edits@) == crate::myers::all_equals(models(a@)));
                    assert forall|q: int| 0 <= q < edits@.len() implies models(edits@)[q] is Equal by {}
                }
                if av == bv {
                    assert(all_equal(models(edits@)));
                }
            }
            let mut all_same = true;
            let mut i: usize = 0;
            while i < edits.len()
                invariant
                    i <= edits@.len(),
                    all_same == (forall|q: int| 0 <= q < i ==> (#[trigger] edits@[q]) is Equal),
                decreases edits@.len() - i,
            {
                if !matches!(edits[i], Edit::Equal(_)) {
                    all_same = false;
                }
                i += 1;
            }
            let mut r: Vec<Change<P>> = Vec::new();
            if all_same {
                proof {
                    assert(all_equal(models(edits@)));
                    crate::myers::lemma_all_equal_sides(models(edits@));
                }
                assert(models(r@) =~= Seq::<ChangeView<P::V>>::empty());
            } else {
                proof {
                    if av == bv {
                        let q = choose|q: int| 0 <= q < edits@.len() && !(edits@[q] is Equal);
                        assert(models(edits@)[q] is Equal);
                    }
                }
                r.push(Change { path: copy_path(path), kind: ChangeKind::SequenceChange(edits) });
            }
            r
        },
        (Node::Mapping(a), Node::Mapping(b)) => {
            let ghost am = node_view(*old)->Mapping_0;
            let ghost bm = node_view(*new)->Mapping_0;
            let mut r: Vec<Change<P>> = Vec::new();
            let mut i: usize = 0;
            let mut j: usize = 0;
            assert(am.subrange(0, am.len() as int) =~= am);
            assert(bm.subrange(0, bm.len() as int) =~= bm);
            assert(models(r@) =~= Seq::<ChangeView<P::V>>::empty());
            assert forall|x: Seq<ChangeView<P::V>>| merge_ok(am.subrange(0, am.len() as int), bm.subrange(0, bm.len() as int), pv, x)
                implies merge_ok(am, bm, pv, models(r@) + x) by {
                assert(models(r@) + x =~= x);
            }
            while i < a.len() || j < b.len()
                invariant
                    *old == Node::Mapping(*a),
                    *new == Node::Mapping(*b),
                    am == node_view(*old)->Mapping_0,
                    bm == node_view(*new)->Mapping_0,
                    pv == models(path@),
                    i <= a@.len(),
                    j <= b@.len(),
                    forall|x: Seq<ChangeView<P::V>>|
                        merge_ok(am.subrange(i as int, am.len() as int), bm.subrange(j as int, bm.len() as int), pv, x)
                            ==> #[trigger] merge_ok(am, bm, pv, models(r@) + x),
                decreases a@.len() - i + b@.len() - j,
            {
                let ghost sa = am.subrange(i as int, am.len() as int);
                let ghost sb = bm.subrange(j as int, bm.len() as int);
                let ghost done = models(r@);
                if i < a.len() {
                    assert(sa[0] == (a@[i as int].0@, node_view(a@[i as int].1)));
                    assert(sa.drop_first() =~= am.subrange(i + 1, am.len() as int));
                }
                if j < b.len() {
                    assert(sb[0] == (b@[j as int].0@, node_view(b@[j as int].1)));
                    assert(sb.drop_first() =~= bm.subrange(j + 1, bm.len() as int));
                }
                if i < a.len() && (j == b.len() || key_less(&a[i].0, &b[j].0)) {
                    let c = leaving(extend_path(path, &a[i].0), &a[i].1);
                    r.push(c);
                    assert(models(r@) =~= done.push(c.deep_view()));
                    assert forall|x: Seq<ChangeView<P::V>>| merge_ok(am.subrange(i + 1, am.len() as int), sb, pv, x)
                        implies #[trigger] merge_ok(am, bm, pv, models(r@) + x) by {
                        let y = seq![c.deep_view()] + x;
                        assert(y.drop_first() =~= x);
                        assert(merge_ok(sa, sb, pv, y));
                        assert(done + y =~= models(r@) + x);
                    }
                    i += 1;
                } else if j < b.len() && (i == a.len() || !(a[i].0 == b[j].0)) {
                    let c = arriving(extend_path(path, &b[j].0), &b[j].1);
                    r.push(c);
                    assert(models(r@) =~= done.push(c.deep_view()));
                    assert forall|x: Seq<ChangeView<P::V>>| merge_ok(sa, bm.subrange(j + 1, bm.len() as int), pv, x)
                        implies #[trigger] merge_ok(am, bm, pv, models(r@) + x) by {
                        let y = seq![c.deep_view()] + x;
                        assert(y.drop_first() =~= x);
                        assert(merge_ok(sa, sb, pv, y));
                        assert(done + y =~= models(r@) + x);
                    }
                    j += 1;
                } else {
                    proof {
                        let m = node_view(*old)->Mapping_0;
                        assert(decreases_to!(node_view(*old) => m));
                        assert(decreases_to!(m => m[i as int]));
                        assert(decreases_to!(m[i as int] => m[i as int].1));
                    }
                    let child_path = extend_path(path, &a[i].0);
                    let mut child = diff_nodes(&a[i].1, &b[j].1, &child_path);
                    let ghost cv = models(child@);
                    r.append(&mut child);
                    assert(models(r@) =~= done + cv);
                    assert forall|x: Seq<ChangeView<P::V>>|
                        merge_ok(am.subrange(i + 1, am.len() as int), bm.subrange(j + 1, bm.len() as int), pv, x)
                        implies #[trigger] merge_ok(am, bm, pv, models(r@) + x) by {
                        let y = cv + x;
                        assert(y.subrange(0, cv.len() as int) =~= cv);
                        assert(y.subrange(cv.len() as int, y.len() as int) =~= x);
                        assert(merge_ok(sa, sb, pv, y));
                        assert(done + y =~= models(r@) + x);
                    }
                    i += 1;
                    j += 1;
                }
            }
            assert(am.subrange(i as int, am.len() as int) =~= Seq::<(Seq<char>, NodeView<P::V>)>::empty());
            assert(bm.subrange(j as int, bm.len() as int) =~= Seq::<(Seq<char>, NodeView<P::V>)>::empty());
            assert(merge_ok(am, bm, pv, models(r@) + Seq::<ChangeView<P::V>>::empty()));
            assert(models(r@) + Seq::<ChangeView<P::V>>::empty() =~= models(r@));
            r
        },
        _ => {
            let mut r: Vec<Change<P>> = Vec::new();
            r.push(Change { path: copy_path(path), kind: ChangeKind::NodeRemoved(node_copy(old)) });
            r.push(Change { path: copy_path(path), kind: ChangeKind::NodeAdded(node_copy(new)) });
            assert(models(r@) =~= seq![
                ChangeView { path: pv, kind: ChangeKindView::NodeRemoved(node_view(*old)) },
                ChangeView { path: pv, kind: ChangeKindView::NodeAdded(node_view(*new)) },
            ]);
            r
        },
    }
}

/// The value at the first entry with key `k`.
pub open spec fn map_get<V>(m: Seq<(Seq<char>, NodeView<V>)>, k: Seq<char>) -> Option<NodeView<V>>
    decreases m.len(),
{
    if m.len() == 0 {
        None
    } else if m[0].0 == k {
        Some(m[0].1)
    } else {
        map_get(m.drop_first(), k)
    }
}

/// Sets key `k` to `v`: replaces the entry with key `k` or inserts one
/// before the first larger key.
pub open spec fn map_set<V>(m: Seq<(Seq<char>, NodeView<V>)>, k: Seq<char>, v: NodeView<V>) -> Seq<
    (Seq<char>, NodeView<V>),
>
    decreases m.len(),
{
    if m.len() == 0 {
        seq![(k, v)]
    } else if m[0].0 == k {
        seq![(k, v)] + m.drop_first()
    } else if key_lt(k, m[0].0) {
        seq![(k, v)] + m
    } else {
        seq![m[0]] + map_set(m.drop_first(), k, v)
    }
}

/// Drops every entry with key `k`.
pub open spec fn map_remove<V>(m: Seq<(Seq<char>, NodeView<V>)>, k: Seq<char>) -> Seq<(Seq<char>, NodeView<V>)>
    decreases m.len(),
{
    if m.len() == 0 {
        m
    } else if m[0].0 == k {
        map_remove(m.drop_first(), k)
    } else {
        seq![m[0]] + map_remove(m.drop_first(), k)
    }
}

/// The tree after one change at `path`, or `None` where the change does not
/// fit the tree:
/// - at a map, the first path segment names a key: with more segments the
///   change goes into that key's value (which must exist); otherwise
///   `Added`/`Modified` set a leaf, `NodeAdded` sets a subtree and
///   `Removed`/`NodeRemoved` drop the key;
/// - at a sequence, a `SequenceChange` gives the new side of its script;
///   at a map key that holds a sequence, it does so for that sequence;
/// - at a leaf, a `Modified` gives its new value.
pub open spec fn change_at<V>(node: NodeView<V>, path: Seq<PathKey>, kind: ChangeKindView<V>) -> Option<NodeView<V>>
    decreases path.len(),
{
    match node {
        NodeView::Sequence(_) => match kind {
            ChangeKindView::SequenceChange(edits) => Some(NodeView::Sequence(new_side(edits))),
            _ => None,
        },
        NodeView::Leaf(_) => match kind {
            ChangeKindView::Modified(_, p) => Some(NodeView::Leaf(p)),
            _ => None,
        },
        NodeView::Mapping(m) => if path.len() > 0 && path[0] is Key {
            let k = path[0]->Key_0;
            if path.len() > 1 {
                match map_get(m, k) {
                    Some(c) => match change_at(c, path.drop_first(), kind) {
                        Some(c2) => Some(NodeView::Mapping(map_set(m, k, c2))),
                        None => None,
                    },
                    None => None,
                }
            } else {
                match kind {
                    ChangeKindView::Added(p) => Some(NodeView::Mapping(map_set(m, k, NodeView::Leaf(p)))),
                    ChangeKindView::Modified(_, p) => Some(NodeView::Mapping(map_set(m, k, NodeView::Leaf(p)))),
                    ChangeKindView::NodeAdded(n) => Some(NodeView::Mapping(map_set(m, k, n))),
                    ChangeKindView::Removed(_) => Some(NodeView::Mapping(map_remove(m, k))),
                    ChangeKindView::NodeRemoved(_) => Some(NodeView::Mapping(map_remove(m, k))),
                    ChangeKindView::SequenceChange(edits) => match map_get(m, k) {
                        Some(NodeView::Sequence(_)) => Some(
                            NodeView::Mapping(map_set(m, k, NodeView::Sequence(new_side(edits)))),
                        ),
                        _ => None,
                    },
                }
            }
        } else {
            None
        },
    }
}

/// The tree after a list of changes, applied in order.
pub open spec fn apply_all<V>(node: NodeView<V>, changes: Seq<ChangeView<V>>) -> Option<NodeView<V>>
    decreases changes.len(),
{
    if changes.len() == 0 {
        Some(node)
    } else {
        match apply_all(node, changes.drop_last()) {
            Some(n) => change_at(n, changes.last().path, changes.last().kind),
            None => None,
        }
    }
}

pub open spec fn entries_view<P: DeepView>(m: Seq<(String, Node<P>)>) -> Seq<(Seq<char>, NodeView<P::V>)> {
    Seq::new(m.len(), |i: int| (m[i].0@, node_view(m[i].1)))
}

proof fn lemma_mapping_view<P: DeepView>(m: Vec<(String, Node<P>)>)
    ensures
        node_view(Node::Mapping(m)) == NodeView::Mapping(entries_view(m@)),
{
    assert(node_view(Node::Mapping(m))->Mapping_0 =~= entries_view(m@));
}

fn find_key<P: Primitive>(m: &Vec<(String, Node<P>)>, k: &String) -> (r: Option<usize>)
    ensures
        match r {
            Some(i) => i < m@.len() && map_get(entries_view(m@), k@) == Some(node_view(m@[i as int].1)),
            None => map_get(entries_view(m@), k@) is None,
        },
{
    let ghost mv = entries_view(m@);
    let mut i: usize = 0;
    assert(mv.subrange(0, mv.len() as int) =~= mv);
    while i < m.len()
        invariant
            i <= m@.len(),
            mv == entries_view(m@),
            map_get(mv, k@) == map_get(mv.subrange(i as int, mv.len() as int), k@),
        decreases m@.len() - i,
    {
        let ghost rest = mv.subrange(i as int, mv.len() as int);
        assert(rest[0] == (m@[i as int].0@, node_view(m@[i as int].1)));
        if m[i].0 == *k {
            return Some(i);
        }
        assert(rest.drop_first() =~= mv.subrange(i + 1, mv.len() as int));
        i += 1;
    }
    None
}

fn set_entry<P: Primitive>(m: Vec<(String, Node<P>)>, k: String, v: Node<P>) -> (r: Vec<(String, Node<P>)>)
    ensures
        entries_view(r@) == map_set(entries_view(m@), k@, node_view(v)),
{
    let ghost mv = entries_view(m@);
    let total = m.len();
    assert(mv.len() == total);
    let mut m = m;
    let mut rest: Vec<(String, Node<P>)> = Vec::new();
    // Reverse the entries so that each one moves out from the back.
    while m.len() > 0
        invariant
            m@.len() + rest@.len() == mv.len(),
            forall|q: int| 0 <= q < m@.len() ==> (#[trigger] m@[q]).0@ == mv[q].0 && node_view(m@[q].1) == mv[q].1,
            forall|q: int| 0 <= q < rest@.len() ==> (#[trigger] rest@[q]).0@ == mv[mv.len() - 1 - q].0 && node_view(rest@[q].1) == mv[mv.len() - 1 - q].1,
        decreases m@.len(),
    {
        let e = m.pop().unwrap();
        rest.push(e);
    }
    let mut out: Vec<(String, Node<P>)> = Vec::new();
    let mut i: usize = 0;
    let mut placed = false;
    let ghost target = map_set(mv, k@, node_view(v));
    let mut v = Some(v);
    let ghost vv = node_view(v->Some_0);
    assert(mv.subrange(0, mv.len() as int) =~= mv);
    assert(entries_view(out@) + map_set(mv, k@, vv) =~= map_set(mv, k@, vv));
    while rest.len() > 0 && !placed
        invariant
            i + rest@.len() == mv.len(),
            mv.len() <= usize::MAX,
            forall|q: int| 0 <= q < rest@.len() ==> (#[trigger] rest@[q]).0@ == mv[mv.len() - 1 - q].0 && node_view(rest@[q].1) == mv[mv.len() - 1 - q].1,
            !placed ==> v is Some && node_view(v->Some_0) == vv,
            target == map_set(mv, k@, vv),
            !placed ==> target == entries_view(out@) + map_set(mv.subrange(i as int, mv.len() as int), k@, vv),
            placed ==> target == entries_view(out@) + mv.subrange(i as int, mv.len() as int),
        decreases rest@.len(),
    {
        let ghost sub = mv.subrange(i as int, mv.len() as int);
        assert(sub[0] == mv[i as int]);
        assert(sub.drop_first() =~= mv.subrange(i + 1, mv.len() as int));
        let ghost before = entries_view(out@);
        let e = rest.pop().unwrap();
        if e.0 == k {
            let value = v.take().unwrap();
            out.push((k.clone(), value));
            assert(entries_view(out@) =~= before.push((k@, vv)));
            assert(seq![(k@, vv)] + sub.drop_first() =~= seq![(k@, vv)] + mv.subrange(i + 1, mv.len() as int));
            assert(before + (seq![(k@, vv)] + mv.subrange(i + 1, mv.len() as int)) =~= entries_view(out@) + mv.subrange(i + 1, mv.len() as int));
            placed = true;
            i += 1;
        } else if key_less(&k, &e.0) {
            let value = v.take().unwrap();
            out.push((k.clone(), value));
            let ghost mid = entries_view(out@);
            assert(mid =~= before.push((k@, vv)));
            out.push(e);
            assert(before + (seq![(k@, vv)] + sub) =~= entries_view(out@) + mv.subrange(i + 1, mv.len() as int));
            placed = true;
            i += 1;
        } else {
            out.push(e);
            assert(before + (seq![sub[0]] + map_set(sub.drop_first(), k@, vv)) =~= entries_view(out@) + map_set(mv.subrange(i + 1, mv.len() as int), k@, vv));
            i += 1;
        }
    }
    if !placed {
        let value = v.take().unwrap();
        let ghost before = entries_view(out@);
        out.push((k, value));
        assert(mv.subrange(i as int, mv.len() as int) =~= Seq::<(Seq<char>, NodeView<P::V>)>::empty());
        assert(entries_view(out@) =~= before + seq![(k@, vv)]);
    } else {
        while rest.len() > 0
            invariant
                i + rest@.len() == mv.len(),
                mv.len() <= usize::MAX,
                forall|q: int| 0 <= q < rest@.len() ==> (#[trigger] rest@[q]).0@ == mv[mv.len() - 1 - q].0 && node_view(rest@[q].1) == mv[mv.len() - 1 - q].1,
                target == entries_view(out@) + mv.subrange(i as int, mv.len() as int),
            decreases rest@.len(),
        {
            let ghost before = entries_view(out@);
            let e = rest.pop().unwrap();
            out.push(e);
            assert(before + mv.subrange(i as int, mv.len() as int) =~= entries_view(out@) + mv.subrange(i + 1, mv.len() as int));
            i += 1;
        }
        assert(mv.subrange(i as int, mv.len() as int) =~= Seq::<(Seq<char>, NodeView<P::V>)>::empty());
        assert(entries_view(out@) + mv.subrange(i as int, mv.len() as int) =~= entries_view(out@));
    }
    out
}

fn remove_entry<P: Primitive>(m: Vec<(String, Node<P>)>, k: &String) -> (r: Vec<(String, Node<P>)>)
    ensures
        entries_view(r@) == map_remove(entries_view(m@), k@),
{
    let ghost mv = entries_view(m@);
    let total = m.len();
    assert(mv.len() == total);
    let mut m = m;
    let mut rest: Vec<(String, Node<P>)> = Vec::new();
    while m.len() > 0
        invariant
            m@.len() + rest@.len() == mv.len(),
            forall|q: int| 0 <= q < m@.len() ==> (#[trigger] m@[q]).0@ == mv[q].0 && node_view(m@[q].1) == mv[q].1,
            forall|q: int| 0 <= q < rest@.len() ==> (#[trigger] rest@[q]).0@ == mv[mv.len() - 1 - q].0 && node_view(rest@[q].1) == mv[mv.len() - 1 - q].1,
        decreases m@.len(),
    {
        let e = m.pop().unwrap();
        rest.push(e);
    }
    let mut out: Vec<(String, Node<P>)> = Vec::new();
    let mut i: usize = 0;
    assert(mv.subrange(0, mv.len() as int) =~= mv);
    assert(entries_view(out@) + map_remove(mv, k@) =~= map_remove(mv, k@));
    while rest.len() > 0
        invariant
            i + rest@.len() == mv.len(),
            mv.len() <= usize::MAX,
            forall|q: int| 0 <= q < rest@.len() ==> (#[trigger] rest@[q]).0@ == mv[mv.len() - 1 - q].0 && node_view(rest@[q].1) == mv[mv.len() - 1 - q].1,
            map_remove(mv, k@) == entries_view(out@) + map_remove(mv.subrange(i as int, mv.len() as int), k@),
        decreases rest@.len(),
    {
        let ghost sub = mv.subrange(i as int, mv.len() as int);
        assert(sub[0] == mv[i as int]);
        assert(sub.drop_first() =~= mv.subrange(i + 1, mv.len() as int));
        let ghost before = entries_view(out@);
        let e = rest.pop().unwrap();
        if !(e.0 == *k) {
            out.push(e);
            assert(before + (seq![sub[0]] + map_remove(sub.drop_first(), k@)) =~= entries_view(out@) + map_remove(mv.subrange(i + 1, mv.len() as int), k@));
        }
        i += 1;
    }
    assert(mv.subrange(i as int, mv.len() as int) =~= Seq::<(Seq<char>, NodeView<P::V>)>::empty());
    assert(entries_view(out@) + Seq::<(Seq<char>, NodeView<P::V>)>::empty() =~= entries_view(out@));
    out
}

/// The sequence that an edit script produces: every `Equal` and `Insert`
/// payload, in order.
fn apply_to_sequence<P: Primitive>(edits: &Vec<Edit<Node<P>>>) -> (r: Node<P>)
    ensures
        node_view(r) == NodeView::Sequence(new_side(models(edits@))),
{
    let ghost ev = models(edits@);
    let mut result: Vec<Node<P>> = Vec::new();
    let mut i: usize = edits.len();
    let ghost mut acc: Seq<NodeView<P::V>> = Seq::empty();
    let mut rev: Vec<Node<P>> = Vec::new();
    assert(ev.subrange(i as int, ev.len() as int) =~= Seq::<Edit<NodeView<P::V>>>::empty());
    while i > 0
        invariant
            i <= edits@.len(),
            ev == models(edits@),
            new_side(ev.subrange(i as int, ev.len() as int)) == acc,
            rev@.len() == acc.len(),
            forall|q: int| 0 <= q < acc.len() ==> node_view(#[trigger] rev@[q]) == acc[acc.len() - 1 - q],
        decreases i,
    {
        i -= 1;
        let ghost sub = ev.subrange(i as int, ev.len() as int);
        assert(sub =~= seq![ev[i as int]] + ev.subrange(i + 1, ev.len() as int));
        proof { crate::myers::lemma_sides_prepend(ev[i as int], ev.subrange(i + 1, ev.len() as int)); }
        match &edits[i] {
            Edit::Equal(v) => {
                rev.push(node_copy(v));
                proof { acc = seq![node_view(*v)] + acc; }
            },
            Edit::Insert(v) => {
                rev.push(node_copy(v));
                proof { acc = seq![node_view(*v)] + acc; }
            },
            Edit::Delete(_) => {},
        }
    }
    assert(ev.subrange(0, ev.len() as int) =~= ev);
    while rev.len() > 0
        invariant
            result@.len() + rev@.len() == acc.len(),
            forall|q: int| 0 <= q < result@.len() ==> node_view(#[trigger] result@[q]) == acc[q],
            forall|q: int| 0 <= q < rev@.len() ==> node_view(#[trigger] rev@[q]) == acc[acc.len() - 1 - q],
        decreases rev@.len(),
    {
        let n = rev.pop().unwrap();
        result.push(n);
    }
    let r = Node::Sequence(result);
    assert(node_view(r)->Sequence_0 =~= acc);
    r
}

/// Applies one change to `node`, reading the change's path from segment
/// `depth` on; `None` where the change does not fit the tree.
fn apply_change<P: Primitive>(node: Node<P>, change: &Change<P>, depth: usize) -> (r: Option<Node<P>>)
    requires
        depth <= change.path@.len(),
    ensures
        match r {
            Some(n) => change_at(
                node_view(node),
                models(change.path@).subrange(depth as int, change.path@.len() as int),
                change.kind.deep_view(),
            ) == Some(node_view(n)),
            None => change_at(
                node_view(node),
                models(change.path@).subrange(depth as int, change.path@.len() as int),
                change.kind.deep_view(),
            ) is None,
        },
    decreases change.path@.len() - depth,
{
    let ghost pv = models(change.path@).subrange(depth as int, change.path@.len() as int);
    match node {
        Node::Sequence(_) => match &change.kind {
            ChangeKind::SequenceChange(edits) => Some(apply_to_sequence(edits)),
            _ => None,
        },
        Node::Leaf(_) => match &change.kind {
            ChangeKind::Modified(_, p) => Some(Node::Leaf(p.duplicate())),
            _ => None,
        },
        Node::Mapping(m) => {
            if depth < change.path.len() {
                match &change.path[depth] {
                    PathSegment::Key(k) => {
                        assert(pv[0] == PathKey::Key(k@));
                        proof { lemma_mapping_view(m); }
                        apply_to_map(m, k, change, depth)
                    },
                    PathSegment::Index(_) => None,
                }
            } else {
                None
            }
        },
    }
}

/// Applies a change whose path at `depth` names key `key` of a map.
fn apply_to_map<P: Primitive>(map: Vec<(String, Node<P>)>, key: &String, change: &Change<P>, depth: usize) -> (r: Option<Node<P>>)
    requires
        depth < change.path@.len(),
        models(change.path@)[depth as int] == PathKey::Key(key@),
    ensures
        ({
            let res = change_at(
                NodeView::Mapping(entries_view(map@)),
                models(change.path@).subrange(depth as int, change.path@.len() as int),
                change.kind.deep_view(),
            );
            match r {
                Some(n) => res == Some(node_view(n)),
                None => res is None,
            }
        }),
    decreases change.path@.len() - depth, 0nat,
{
    let ghost mv = entries_view(map@);
    let ghost pv = models(change.path@).subrange(depth as int, change.path@.len() as int);
    let ghost kind = change.kind.deep_view();
    proof {
        assert(pv[0] == PathKey::Key(key@));
        assert(pv.drop_first() =~= models(change.path@).subrange(depth + 1, change.path@.len() as int));
    }
    if depth < change.path.len() - 1 {
        match find_key(&map, key) {
            Some(idx) => {
                let child = node_copy(&map[idx].1);
                match apply_change(child, change, depth + 1) {
                    Some(c2) => {
                        let m2 = set_entry(map, key.clone(), c2);
                        proof { lemma_mapping_view(m2); }
                        Some(Node::Mapping(m2))
                    },
                    None => None,
                }
            },
            None => None,
        }
    } else {
        let m2 = match &change.kind {
            ChangeKind::Added(p) => set_entry(map, key.clone(), Node::Leaf(p.duplicate())),
            ChangeKind::Modified(_, p) => set_entry(map, key.clone(), Node::Leaf(p.duplicate())),
            ChangeKind::NodeAdded(n) => set_entry(map, key.clone(), node_copy(n)),
            ChangeKind::Removed(_) => remove_entry(map, key),
            ChangeKind::NodeRemoved(_) => remove_entry(map, key),
            ChangeKind::SequenceChange(edits) => match find_key(&map, key) {
                Some(idx) => {
                    if matches!(map[idx].1, Node::Sequence(_)) {
                        let seq = apply_to_sequence(edits);
                        set_entry(map, key.clone(), seq)
                    } else {
                        return None;
                    }
                },
                None => {
                    return None;
                },
            },
        };
        proof { lemma_mapping_view(m2); }
        Some(Node::Mapping(m2))
    }
}

/// Diffs two trees from the root.
pub fn diff_tree<P: Primitive>(old: &Node<P>, new: &Node<P>) -> (r: Vec<Change<P>>)
    requires
        wf_tree(node_view(*old)),
        wf_tree(node_view(*new)),
    ensures
        diff_ok(node_view(*old), node_view(*new), Seq::empty(), models(r@)),
{
    let path: Vec<PathSegment> = Vec::new();
    assert(models(path@) =~= Seq::<PathKey>::empty());
    diff_nodes(old, new, &path)
}

/// Applies a list of changes to a tree, in order; `None` where one of them
/// does not fit the tree it meets.
pub fn apply_tree<P: Primitive>(old: &Node<P>, changes: &[Change<P>]) -> (r: Option<Node<P>>)
    requires
        wf_tree(node_view(*old)),
    ensures
        match r {
            Some(n) => apply_all(node_view(*old), models(changes@)) == Some(node_view(n)),
            None => apply_all(node_view(*old), models(changes@)) is None,
        },
{
    let ghost cv = models(changes@);
    let mut node = node_copy(old);
    let mut i: usize = 0;
    assert(cv.subrange(0, 0) =~= Seq::<ChangeView<P::V>>::empty());
    while i < changes.len()
        invariant
            i <= changes@.len(),
            cv == models(changes@),
            apply_all(node_view(*old), cv.subrange(0, i as int)) == Some(node_view(node)),
        decreases changes@.len() - i,
    {
        let ghost sub = cv.subrange(0, i + 1);
        assert(sub.drop_last() =~= cv.subrange(0, i as int));
        assert(sub.last() == changes@[i as int].deep_view());
        assert(models(changes@[i as int].path@).subrange(0, changes@[i as int].path@.len() as int)
            =~= models(changes@[i as int].path@));
        match apply_change(node, &changes[i], 0) {
            Some(n) => {
                node = n;
            },
            None => {
                proof { lemma_apply_all_none(node_view(*old), cv, i + 1); }
                return None;
            },
        }
        i += 1;
    }
    assert(cv.subrange(0, i as int) =~= cv);
    Some(node)
}

proof fn lemma_apply_all_none<V>(node: NodeView<V>, changes: Seq<ChangeView<V>>, j: int)
    requires
        0 <= j <= changes.len(),
        apply_all(node, changes.subrange(0, j)) is None,
    ensures
        apply_all(node, changes) is None,
    decreases changes.len(),
{
    if j < changes.len() {
        assert(changes.drop_last().subrange(0, j) =~= changes.subrange(0, j));
        lemma_apply_all_none(node, changes.drop_last(), j);
    } else {
        assert(changes.subrange(0, j) =~= changes);
    }
}

/// Every map in the tree keeps its keys strictly increasing.
pub open spec fn wf_tree<V>(n: NodeView<V>) -> bool
    decreases n,
{
    match n {
        NodeView::Leaf(_) => true,
        NodeView::Sequence(v) => forall|i: int| 0 <= i < v.len() ==> wf_tree(#[trigger] v[i]),
        NodeView::Mapping(m) => {
            &&& keys_increasing(m)
            &&& forall|i: int| 0 <= i < m.len() ==> wf_tree(#[trigger] m[i].1)
        },
    }
}

/// Setting a key keeps the keys increasing, and every entry of the result is
/// the new one or an entry of the map.
proof fn lemma_map_set_sorted<V>(m: Seq<(Seq<char>, NodeView<V>)>, k: Seq<char>, v: NodeView<V>)
    requires
        keys_increasing(m),
    ensures
        keys_increasing(map_set(m, k, v)),
        forall|i: int| 0 <= i < map_set(m, k, v).len() ==> #[trigger] map_set(m, k, v)[i] == (k, v) || m.contains(map_set(m, k, v)[i]),
    decreases m.len(),
{
    let r = map_set(m, k, v);
    if m.len() == 0 {
    } else if m[0].0 == k {
        assert forall|i: int| 0 <= i < r.len() implies #[trigger] r[i] == (k, v) || m.contains(r[i]) by {
            if i > 0 {
                assert(r[i] == m[i]);
            }
        }
        assert forall|i: int, j: int| 0 <= i < j < r.len() implies key_lt(#[trigger] r[i].0, #[trigger] r[j].0) by {
            assert(r[j].0 == m[j].0);
            assert(r[i].0 == m[i].0);
        }
    } else if key_lt(k, m[0].0) {
        assert forall|i: int| 0 <= i < r.len() implies #[trigger] r[i] == (k, v) || m.contains(r[i]) by {
            if i > 0 {
                assert(r[i] == m[i - 1]);
            }
        }
        assert forall|i: int, j: int| 0 <= i < j < r.len() implies key_lt(#[trigger] r[i].0, #[trigger] r[j].0) by {
            assert(r[j] == m[j - 1]);
            if i == 0 {
                if j > 1 {
                    lemma_key_lt_transitive(k, m[0].0, m[j - 1].0);
                }
            } else {
                assert(r[i] == m[i - 1]);
            }
        }
    } else {
        lemma_key_lt_total(m[0].0, k);
        let rest = m.drop_first();
        assert(keys_increasing(rest)) by {
            assert forall|i: int, j: int| 0 <= i < j < rest.len() implies key_lt(#[trigger] rest[i].0, #[trigger] rest[j].0) by {
                assert(rest[i] == m[i + 1] && rest[j] == m[j + 1]);
            }
        }
        lemma_map_set_sorted(rest, k, v);
        let t = map_set(rest, k, v);
        assert(r =~= seq![m[0]] + t);
        assert forall|i: int| 0 <= i < r.len() implies #[trigger] r[i] == (k, v) || m.contains(r[i]) by {
            if i > 0 {
                assert(r[i] == t[i - 1]);
                if t[i - 1] != (k, v) {
                    let q = choose|q: int| 0 <= q < rest.len() && rest[q] == t[i - 1];
                    assert(m[q + 1] == rest[q]);
                }
            } else {
                assert(m[0] == r[0]);
            }
        }
        assert forall|i: int, j: int| 0 <= i < j < r.len() implies key_lt(#[trigger] r[i].0, #[trigger] r[j].0) by {
            assert(r[j] == t[j - 1]);
            if i == 0 {
                assert(t[j - 1] == (k, v) || rest.contains(t[j - 1]));
                if t[j - 1] != (k, v) {
                    let q = choose|q: int| 0 <= q < rest.len() && rest[q] == t[j - 1];
                    assert(m[q + 1] == rest[q]);
                }
            } else {
                assert(r[i] == t[i - 1]);
            }
        }
    }
}

/// A type that converts to and from a tree.
///
/// Provided for maps keyed by string, for vectors, and for each primitive
/// leaf type.
pub trait Diffable: Sized {
    type P: Primitive;

    /// The tree this value stands for.
    spec fn tree(&self) -> NodeView<<Self::P as DeepView>::V>;

    /// The conversions below are proved to follow `tree`.
    spec fn exact() -> bool;

    fn to_node(&self) -> (r: Node<Self::P>)
        ensures
            Self::exact() ==> node_view(r) == self.tree(),
            wf_tree(node_view(r)),
    ;

    /// The value a tree stands for; `None` when the tree does not have
    /// this type's shape.
    fn from_node(node: Node<Self::P>) -> (r: Option<Self>)
        ensures
            Self::exact() && r is Some ==> r->Some_0.tree() == node_view(node),
            Self::exact() && (exists|x: Self| x.tree() == node_view(node)) ==> r is Some,
    ;
}

impl Diffable for u8 {
    type P = u8;

    open spec fn tree(&self) -> NodeView<u8> {
        NodeView::Leaf(*self)
    }

    open spec fn exact() -> bool {
        true
    }

    fn to_node(&self) -> (r: Node<u8>) {
        Node::Leaf(*self)
    }

    fn from_node(node: Node<u8>) -> (r: Option<u8>) {
        match node {
            Node::Leaf(v) => Some(v),
            _ => None,
        }
    }
}

impl Diffable for u16 {
    type P = u16;

    open spec fn tree(&self) -> NodeView<u16> {
        NodeView::Leaf(*self)
    }

    open spec fn exact() -> bool {
        true
    }

    fn to_node(&self) -> (r: Node<u16>) {
        Node::Leaf(*self)
    }

    fn from_node(node: Node<u16>) -> (r: Option<u16>) {
        match node {
            Node::Leaf(v) => Some(v),
            _ => None,
        }
    }
}

impl Diffable for u32 {
    type P = u32;

    open spec fn tree(&self) -> NodeView<u32> {
        NodeView::Leaf(*self)
    }

    open spec fn exact() -> bool {
        true
    }

    fn to_node(&self) -> (r: Node<u32>) {
        Node::Leaf(*self)
    }

    fn from_node(node: Node<u32>) -> (r: Option<u32>) {
        match node {
            Node::Leaf(v) => Some(v),
            _ => None,
        }
    }
}

impl Diffable for u64 {
    type P = u64;

    open spec fn tree(&self) -> NodeView<u64> {
        NodeView::Leaf(*self)
    }

    open spec fn exact() -> bool {
        true
    }

    fn to_node(&self) -> (r: Node<u64>) {
        Node::Leaf(*self)
    }

    fn from_node(node: Node<u64>) -> (r: Option<u64>) {
        match node {
            Node::Leaf(v) => Some(v),
            _ => None,
        }
    }
}

impl Diffable for u128 {
    type P = u128;

    open spec fn tree(&self) -> NodeView<u128> {
        NodeView::Leaf(*self)
    }

    open spec fn exact() -> bool {
        true
    }

    fn to_node(&self) -> (r: Node<u128>) {
        Node::Leaf(*self)
    }

    fn from_node(node: Node<u128>) -> (r: Option<u128>) {
        match node {
            Node::Leaf(v) => Some(v),
            _ => None,
        }
    }
}

impl Diffable for usize {
    type P = usize;

    open spec fn tree(&self) -> NodeView<usize> {
        NodeView::Leaf(*self)
    }

    open spec fn exact() -> bool {
        true
    }

    fn to_node(&self) -> (r: Node<usize>) {
        Node::Leaf(*self)
    }

    fn from_node(node: Node<usize>) -> (r: Option<usize>) {
        match node {
            Node::Leaf(v) => Some(v),
            _ => None,
        }
    }
}

impl Diffable for i8 {
    type P = i8;

    open spec fn tree(&self) -> NodeView<i8> {
        NodeView::Leaf(*self)
    }

    open spec fn exact() -> bool {
        true
    }

    fn to_node(&self) -> (r: Node<i8>) {
        Node::Leaf(*self)
    }

    fn from_node(node: Node<i8>) -> (r: Option<i8>) {
        match node {
            Node::Leaf(v) => Some(v),
            _ => None,
        }
    }
}

impl Diffable for i16 {
    type P = i16;

    open spec fn tree(&self) -> NodeView<i16> {
        NodeView::Leaf(*self)
    }

    open spec fn exact() -> bool {
        true
    }

    fn to_node(&self) -> (r: Node<i16>) {
        Node::Leaf(*self)
    }

    fn from_node(node: Node<i16>) -> (r: Option<i16>) {
        match node {
            Node::Leaf(v) => Some(v),
            _ => None,
        }
    }
}

impl Diffable for i32 {
    type P = i32;

    open spec fn tree(&self) -> NodeView<i32> {
        NodeView::Leaf(*self)
    }

    open spec fn exact() -> bool {
        true
    }

    fn to_node(&self) -> (r: Node<i32>) {
        Node::Leaf(*self)
    }

    fn from_node(node: Node<i32>) -> (r: Option<i32>) {
        match node {
            Node::Leaf(v) => Some(v),
            _ => None,
        }
    }
}

impl Diffable for i64 {
    type P = i64;

    open spec fn tree(&self) -> NodeView<i64> {
        NodeView::Leaf(*self)
    }

    open spec fn exact() -> bool {
        true
    }

    fn to_node(&self) -> (r: Node<i64>) {
        Node::Leaf(*self)
    }

    fn from_node(node: Node<i64>) -> (r: Option<i64>) {
        match node {
            Node::Leaf(v) => Some(v),
            _ => None,
        }
    }
}

impl Diffable for i128 {
    type P = i128;

    open spec fn tree(&self) -> NodeView<i128> {
        NodeView::Leaf(*self)
    }

    open spec fn exact() -> bool {
        true
    }

    fn to_node(&self) -> (r: Node<i128>) {
        Node::Leaf(*self)
    }

    fn from_node(node: Node<i128>) -> (r: Option<i128>) {
        match node {
            Node::Leaf(v) => Some(v),
            _ => None,
        }
    }
}

impl Diffable for isize {
    type P = isize;

    open spec fn tree(&self) -> NodeView<isize> {
        NodeView::Leaf(*self)
    }

    open spec fn exact() -> bool {
        true
    }

    fn to_node(&self) -> (r: Node<isize>) {
        Node::Leaf(*self)
    }

    fn from_node(node: Node<isize>) -> (r: Option<isize>) {
        match node {
            Node::Leaf(v) => Some(v),
            _ => None,
        }
    }
}

impl Diffable for bool {
    type P = bool;

    open spec fn tree(&self) -> NodeView<bool> {
        NodeView::Leaf(*self)
    }

    open spec fn exact() -> bool {
        true
    }

    fn to_node(&self) -> (r: Node<bool>) {
        Node::Leaf(*self)
    }

    fn from_node(node: Node<bool>) -> (r: Option<bool>) {
        match node {
            Node::Leaf(v) => Some(v),
            _ => None,
        }
    }
}

impl Diffable for char {
    type P = char;

    open spec fn tree(&self) -> NodeView<char> {
        NodeView::Leaf(*self)
    }

    open spec fn exact() -> bool {
        true
    }

    fn to_node(&self) -> (r: Node<char>) {
        Node::Leaf(*self)
    }

    fn from_node(node: Node<char>) -> (r: Option<char>) {
        match node {
            Node::Leaf(v) => Some(v),
            _ => None,
        }
    }
}

impl Diffable for String {
    type P = String;

    open spec fn tree(&self) -> NodeView<Seq<char>> {
        NodeView::Leaf(self@)
    }

    open spec fn exact() -> bool {
        true
    }

    fn to_node(&self) -> (r: Node<String>) {
        Node::Leaf(self.clone())
    }

    fn from_node(node: Node<String>) -> (r: Option<String>) {
        match node {
            Node::Leaf(v) => Some(v),
            _ => None,
        }
    }
}

impl<T: Diffable> Diffable for Vec<T> {
    type P = T::P;

    open spec fn tree(&self) -> NodeView<<T::P as DeepView>::V> {
        NodeView::Sequence(Seq::new(self@.len(), |i: int| self@[i].tree()))
    }

    open spec fn exact() -> bool {
        T::exact()
    }

    fn to_node(&self) -> (r: Node<T::P>) {
        let mut v: Vec<Node<T::P>> = Vec::new();
        let mut i: usize = 0;
        while i < self.len()
            invariant
                i <= self@.len(),
                v@.len() == i,
                T::exact() ==> forall|q: int| 0 <= q < i ==> node_view(#[trigger] v@[q]) == self@[q].tree(),
                forall|q: int| 0 <= q < i ==> wf_tree(node_view(#[trigger] v@[q])),
            decreases self@.len() - i,
        {
            v.push(self[i].to_node());
            i += 1;
        }
        let r = Node::Sequence(v);
        assert(forall|q: int| 0 <= q < v@.len() ==> node_view(r)->Sequence_0[q] == node_view(#[trigger] v@[q]));
        assert(T::exact() ==> node_view(r)->Sequence_0 =~= self.tree()->Sequence_0);
        r
    }

    fn from_node(node: Node<T::P>) -> (r: Option<Vec<T>>) {
        let ghost nv = node_view(node);
        match node {
            Node::Sequence(v) => {
                let ghost vs = v@;
                assert(nv is Sequence && nv->Sequence_0.len() == vs.len());
                assert(forall|i: int| 0 <= i < vs.len() ==> nv->Sequence_0[i] == node_view(#[trigger] vs[i]));
                proof {
                    if T::exact() && (exists|x: Vec<T>| x.tree() == nv) {
                        let x = choose|x: Vec<T>| x.tree() == nv;
                        assert forall|q: int| 0 <= q < vs.len() implies exists|y: T| y.tree() == node_view(#[trigger] vs[q]) by {
                            assert(x.tree()->Sequence_0[q] == x@[q].tree());
                            assert(x@[q].tree() == node_view(vs[q]));
                        }
                    }
                }
                let mut v = v;
                let mut rev: Vec<T> = Vec::new();
                while v.len() > 0
                    invariant
                        nv == node_view(node),
                        v@.len() + rev@.len() == vs.len(),
                        forall|q: int| 0 <= q < v@.len() ==> v@[q] == vs[q],
                        T::exact() ==> forall|q: int| 0 <= q < rev@.len() ==> (#[trigger] rev@[q]).tree() == node_view(vs[vs.len() - 1 - q]),
                        T::exact() && (exists|x: Vec<T>| x.tree() == nv) ==> forall|q: int| 0 <= q < vs.len() ==> exists|y: T| y.tree() == node_view(#[trigger] vs[q]),
                    decreases v@.len(),
                {
                    let ghost before = v@;
                    let n = v.pop().unwrap();
                    let ghost q = v@.len() as int;
                    assert(n == before[q] && before[q] == vs[q]);
                    match T::from_node(n) {
                        Some(t) => rev.push(t),
                        None => {
                            proof {
                                if T::exact() && (exists|x: Vec<T>| x.tree() == nv) {
                                    assert(exists|y: T| y.tree() == node_view(vs[q]));
                                    assert(exists|y: T| y.tree() == node_view(n));
                                }
                            }
                            return None;
                        },
                    }
                }
                let mut out: Vec<T> = Vec::new();
                while rev.len() > 0
                    invariant
                        nv == node_view(node),
                        out@.len() + rev@.len() == vs.len(),
                        T::exact() ==> forall|q: int| 0 <= q < rev@.len() ==> (#[trigger] rev@[q]).tree() == node_view(vs[vs.len() - 1 - q]),
                        T::exact() ==> forall|q: int| 0 <= q < out@.len() ==> (#[trigger] out@[q]).tree() == node_view(vs[q]),
                    decreases rev@.len(),
                {
                    out.push(rev.pop().unwrap());
                }
                assert(T::exact() ==> out.tree()->Sequence_0 =~= nv->Sequence_0);
                Some(out)
            },
            _ => None,
        }
    }
}

/// Relies on `HashMap::iter`: the entries of the map, each once, in an
/// unspecified order.
#[verifier::external_body]
fn map_entries<T>(m: &HashMap<String, T>) -> (r: Vec<(&String, &T)>) {
    m.iter().collect()
}

impl<T: Diffable> Diffable for HashMap<String, T> {
    type P = T::P;

    /// Its entries in increasing key order. std's `HashMap` with `String`
    /// keys has no model to prove the conversions against.
    open spec fn tree(&self) -> NodeView<<T::P as DeepView>::V> {
        NodeView::Mapping(
            choose|s: Seq<(Seq<char>, NodeView<<T::P as DeepView>::V>)>|
                keys_increasing(s) && s.len() == self@.dom().len() && forall|k: String|
                    #[trigger] self@.contains_key(k) ==> s.contains((k@, self@[k].tree())),
        )
    }

    open spec fn exact() -> bool {
        false
    }

    /// The entries go into key order.
    fn to_node(&self) -> (r: Node<T::P>) {
        let entries = map_entries(self);
        let mut v: Vec<(String, Node<T::P>)> = Vec::new();
        let mut i: usize = 0;
        while i < entries.len()
            invariant
                i <= entries@.len(),
                keys_increasing(entries_view(v@)),
                forall|q: int| 0 <= q < v@.len() ==> wf_tree(node_view((#[trigger] v@[q]).1)),
            decreases entries@.len() - i,
        {
            let (k, x) = entries[i];
            let child = x.to_node();
            let ghost vold = v@;
            let ghost before = entries_view(v@);
            proof {
                lemma_map_set_sorted(before, k@, node_view(child));
            }
            v = set_entry(v, k.clone(), child);
            assert forall|q: int| 0 <= q < v@.len() implies wf_tree(node_view((#[trigger] v@[q]).1)) by {
                let e = entries_view(v@)[q];
                assert(e.1 == node_view(v@[q].1));
                if e != (k@, node_view(child)) {
                    let j = choose|j: int| 0 <= j < before.len() && before[j] == e;
                    assert(before[j].1 == node_view(vold[j].1));
                }
            }
            i += 1;
        }
        proof { lemma_mapping_view(v); }
        Node::Mapping(v)
    }

    fn from_node(node: Node<T::P>) -> (r: Option<HashMap<String, T>>) {
        match node {
            Node::Mapping(v) => {
                let mut v = v;
                let mut out: HashMap<String, T> = HashMap::new();
                while v.len() > 0
                    decreases v@.len(),
                {
                    let (k, n) = v.pop().unwrap();
                    match T::from_node(n) {
                        Some(t) => {
                            out.insert(k, t);
                        },
                        None => {
                            return None;
                        },
                    }
                }
                Some(out)
            },
            _ => None,
        }
    }
}

/// Diffs two values through their trees: see `diff_ok` for what each pair
/// of nodes emits.
pub fn diff<T: Diffable>(old: &T, new: &T) -> (r: Vec<Change<T::P>>)
    ensures
        T::exact() ==> diff_ok(old.tree(), new.tree(), Seq::empty(), models(r@)),
{
    let a = old.to_node();
    let b = new.to_node();
    diff_tree(&a, &b)
}

/// Applies changes to a value through its tree; `None` where a change does
/// not fit the tree or the result does not have the value's shape.
pub fn apply<T: Diffable>(old: &T, changes: &[Change<T::P>]) -> (r: Option<T>)
    ensures
        T::exact() ==> match r {
            Some(x) => apply_all(old.tree(), models(changes@)) == Some(x.tree()),
            None => match apply_all(old.tree(), models(changes@)) {
                Some(t) => !(exists|x: T| x.tree() == t),
                None => true,
            },
        },
{
    let a = old.to_node();
    match apply_tree(&a, changes) {
        Some(n) => T::from_node(n),
        None => None,
    }
}

/// Two leaves or two sequences at the root: applying what diffing `old`
/// against `new` emits to `old` gives `new`.
proof fn lemma_apply_round_trip_flat<V>(old: NodeView<V>, new: NodeView<V>, out: Seq<ChangeView<V>>)
    requires
        (old is Leaf && new is Leaf) || (old is Sequence && new is Sequence),
        diff_ok(old, new, Seq::empty(), out),
    ensures
        apply_all(old, out) == Some(new),
{
    if out.len() == 0 {
        assert(apply_all(old, out) == Some(old));
    } else {
        assert(out.drop_last() =~= Seq::<ChangeView<V>>::empty());
        assert(apply_all(old, out.drop_last()) == Some(old));
    }
}

proof fn lemma_key_lt_irreflexive(a: Seq<char>)
    ensures
        !key_lt(a, a),
    decreases a.len(),
{
    if a.len() > 0 {
        lemma_key_lt_irreflexive(a.drop_first());
    }
}

proof fn lemma_key_lt_asymmetric(a: Seq<char>, b: Seq<char>)
    requires
        key_lt(a, b),
    ensures
        !key_lt(b, a),
        a != b,
    decreases a.len(),
{
    lemma_key_lt_irreflexive(a);
    if a.len() > 0 && b.len() > 0 && a[0] == b[0] {
        lemma_key_lt_asymmetric(a.drop_first(), b.drop_first());
    }
}

proof fn lemma_key_lt_transitive(a: Seq<char>, b: Seq<char>, c: Seq<char>)
    requires
        key_lt(a, b),
        key_lt(b, c),
    ensures
        key_lt(a, c),
    decreases a.len(),
{
    if a.len() > 0 && b.len() > 0 && c.len() > 0 && a[0] == b[0] && b[0] == c[0] {
        lemma_key_lt_transitive(a.drop_first(), b.drop_first(), c.drop_first());
    }
}

proof fn lemma_key_lt_total(a: Seq<char>, b: Seq<char>)
    requires
        a != b,
    ensures
        key_lt(a, b) || key_lt(b, a),
    decreases a.len(),
{
    if a.len() > 0 && b.len() > 0 && a[0] == b[0] {
        if a.drop_first() == b.drop_first() {
            assert(a =~= seq![a[0]] + a.drop_first());
            assert(b =~= seq![b[0]] + b.drop_first());
        }
        lemma_key_lt_total(a.drop_first(), b.drop_first());
    } else if a.len() == 0 && b.len() == 0 {
        assert(a =~= b);
    }
}

/// Every key of `m` is below every later one.
pub open spec fn keys_increasing<V>(m: Seq<(Seq<char>, NodeView<V>)>) -> bool {
    forall|i: int, j: int| 0 <= i < j < m.len() ==> key_lt(#[trigger] m[i].0, #[trigger] m[j].0)
}

proof fn lemma_apply_all_concat<V>(n: NodeView<V>, x: Seq<ChangeView<V>>, y: Seq<ChangeView<V>>)
    ensures
        apply_all(n, x + y) == match apply_all(n, x) {
            Some(m) => apply_all(m, y),
            None => None,
        },
    decreases y.len(),
{
    if y.len() == 0 {
        assert(x + y =~= x);
    } else {
        lemma_apply_all_concat(n, x, y.drop_last());
        assert((x + y).drop_last() =~= x + y.drop_last());
        assert((x + y).last() == y.last());
        match apply_all(n, x) {
            Some(m) => {},
            None => {
                assert((x + y).subrange(0, x.len() as int) =~= x);
                lemma_apply_all_none(n, x + y, x.len() as int);
            },
        }
    }
}

proof fn lemma_map_remove_absent<V>(m: Seq<(Seq<char>, NodeView<V>)>, k: Seq<char>)
    requires
        forall|i: int| 0 <= i < m.len() ==> (#[trigger] m[i]).0 != k,
    ensures
        map_remove(m, k) == m,
    decreases m.len(),
{
    if m.len() > 0 {
        lemma_map_remove_absent(m.drop_first(), k);
        assert(seq![m[0]] + m.drop_first() =~= m);
    }
}

proof fn lemma_map_remove_at<V>(pre: Seq<(Seq<char>, NodeView<V>)>, rest: Seq<(Seq<char>, NodeView<V>)>, k: Seq<char>, v: NodeView<V>)
    requires
        forall|i: int| 0 <= i < pre.len() ==> (#[trigger] pre[i]).0 != k,
        forall|i: int| 0 <= i < rest.len() ==> (#[trigger] rest[i]).0 != k,
    ensures
        map_remove(pre + seq![(k, v)] + rest, k) == pre + rest,
    decreases pre.len(),
{
    let w = pre + seq![(k, v)] + rest;
    if pre.len() == 0 {
        assert(w[0] == (k, v));
        assert(w.drop_first() =~= rest);
        lemma_map_remove_absent(rest, k);
        assert(pre + rest =~= rest);
    } else {
        assert(w[0] == pre[0]);
        lemma_map_remove_at(pre.drop_first(), rest, k, v);
        assert(w.drop_first() =~= pre.drop_first() + seq![(k, v)] + rest);
        assert(seq![pre[0]] + (pre.drop_first() + rest) =~= pre + rest);
    }
}

proof fn lemma_map_set_at<V>(pre: Seq<(Seq<char>, NodeView<V>)>, rest: Seq<(Seq<char>, NodeView<V>)>, k: Seq<char>, v: NodeView<V>)
    requires
        forall|i: int| 0 <= i < pre.len() ==> key_lt((#[trigger] pre[i]).0, k),
        rest.len() > 0 ==> (rest[0].0 == k || key_lt(k, rest[0].0)),
    ensures
        map_set(pre + rest, k, v) == pre + seq![(k, v)] + (if rest.len() > 0 && rest[0].0 == k { rest.drop_first() } else { rest }),
    decreases pre.len(),
{
    let w = pre + rest;
    if pre.len() == 0 {
        assert(w =~= rest);
        if rest.len() > 0 && rest[0].0 != k {
            assert(seq![(k, v)] + rest =~= pre + seq![(k, v)] + rest);
        } else if rest.len() > 0 {
            assert(seq![(k, v)] + rest.drop_first() =~= pre + seq![(k, v)] + rest.drop_first());
        } else {
            assert(seq![(k, v)] =~= pre + seq![(k, v)] + rest);
        }
    } else {
        lemma_key_lt_asymmetric(pre[0].0, k);
        assert(w[0] == pre[0]);
        assert(w.drop_first() =~= pre.drop_first() + rest);
        lemma_map_set_at(pre.drop_first(), rest, k, v);
        let tail = if rest.len() > 0 && rest[0].0 == k { rest.drop_first() } else { rest };
        assert(seq![pre[0]] + (pre.drop_first() + seq![(k, v)] + tail) =~= pre + seq![(k, v)] + tail);
    }
}

proof fn lemma_apply_one<V>(n: NodeView<V>, c: ChangeView<V>, rest: Seq<ChangeView<V>>)
    ensures
        apply_all(n, seq![c] + rest) == match change_at(n, c.path, c.kind) {
            Some(m) => apply_all(m, rest),
            None => None,
        },
{
    lemma_apply_all_concat(n, seq![c], rest);
    assert(seq![c].drop_last() =~= Seq::<ChangeView<V>>::empty());
    assert(seq![c].last() == c);
    assert(apply_all(n, Seq::<ChangeView<V>>::empty()) == Some(n));
    assert(apply_all(n, seq![c]) == change_at(n, c.path, c.kind));
}

/// The changes with the first `n` segments of their paths dropped.
pub open spec fn strip_paths<V>(n: int, out: Seq<ChangeView<V>>) -> Seq<ChangeView<V>> {
    out.map_values(|c: ChangeView<V>| ChangeView { path: c.path.subrange(n, c.path.len() as int), kind: c.kind })
}

/// Every change's path begins with `p`, and is longer than `p` by at least
/// `extra` segments.
pub open spec fn paths_under<V>(p: Seq<PathKey>, extra: int, out: Seq<ChangeView<V>>) -> bool {
    forall|i: int| 0 <= i < out.len() ==> {
        &&& (#[trigger] out[i]).path.len() >= p.len() + extra
        &&& out[i].path.subrange(0, p.len() as int) == p
    }
}

proof fn lemma_strip_one<V>(p: Seq<PathKey>, r: Seq<PathKey>, c: ChangeView<V>)
    requires
        c.path == p + r,
    ensures
        c.path.subrange(p.len() as int, c.path.len() as int) == r,
        c.path.subrange(0, p.len() as int) == p,
{
    assert(c.path.subrange(p.len() as int, c.path.len() as int) =~= r);
    assert(c.path.subrange(0, p.len() as int) =~= p);
}

proof fn lemma_shift_diff<V>(old: NodeView<V>, new: NodeView<V>, p: Seq<PathKey>, r: Seq<PathKey>, out: Seq<ChangeView<V>>)
    requires
        diff_ok(old, new, p + r, out),
    ensures
        diff_ok(old, new, r, strip_paths(p.len() as int, out)),
        paths_under(p, r.len() as int, out),
        (old is Mapping && new is Mapping) ==> paths_under(p, r.len() + 1int, out),
    decreases old, new,
{
    let so = strip_paths(p.len() as int, out);
    match (old, new) {
        (NodeView::Mapping(a), NodeView::Mapping(b)) => {
            lemma_shift_merge(a, b, p, r, out);
        },
        _ => {
            assert forall|i: int| 0 <= i < out.len() implies so[i] == ChangeView { path: r, kind: out[i].kind } by {
                lemma_strip_one(p, r, out[i]);
            }
            assert forall|i: int| 0 <= i < out.len() implies {
                &&& (#[trigger] out[i]).path.len() >= p.len() + r.len()
                &&& out[i].path.subrange(0, p.len() as int) == p
            } by {
                lemma_strip_one(p, r, out[i]);
            }
            if out.len() == 1 {
                assert(so =~= seq![ChangeView { path: r, kind: out[0].kind }]);
            } else if out.len() == 2 {
                assert(so =~= seq![ChangeView { path: r, kind: out[0].kind }, ChangeView { path: r, kind: out[1].kind }]);
            } else {
                assert(so =~= Seq::<ChangeView<V>>::empty());
            }
        },
    }
}

proof fn lemma_shift_merge<V>(
    a: Seq<(Seq<char>, NodeView<V>)>,
    b: Seq<(Seq<char>, NodeView<V>)>,
    p: Seq<PathKey>,
    r: Seq<PathKey>,
    out: Seq<ChangeView<V>>,
)
    requires
        merge_ok(a, b, p + r, out),
    ensures
        merge_ok(a, b, r, strip_paths(p.len() as int, out)),
        paths_under(p, r.len() + 1int, out),
    decreases a, b,
{
    let so = strip_paths(p.len() as int, out);
    if a.len() == 0 && b.len() == 0 {
        assert(so =~= Seq::<ChangeView<V>>::empty());
    } else if (a.len() > 0 && (b.len() == 0 || key_lt(a[0].0, b[0].0))) || (a.len() == 0 || key_lt(b[0].0, a[0].0) || a[0].0 != b[0].0) {
        let removing = a.len() > 0 && (b.len() == 0 || key_lt(a[0].0, b[0].0));
        let k = if removing { a[0].0 } else { b[0].0 };
        let rest = out.drop_first();
        if removing {
            lemma_shift_merge(a.drop_first(), b, p, r, rest);
        } else {
            lemma_shift_merge(a, b.drop_first(), p, r, rest);
        }
        assert((p + r).push(PathKey::Key(k)) =~= p + r.push(PathKey::Key(k)));
        lemma_strip_one(p, r.push(PathKey::Key(k)), out[0]);
        assert(so.drop_first() =~= strip_paths(p.len() as int, rest));
        assert forall|i: int| 0 <= i < out.len() implies {
            &&& (#[trigger] out[i]).path.len() >= p.len() + (r.len() + 1)
            &&& out[i].path.subrange(0, p.len() as int) == p
        } by {
            if i > 0 {
                assert(out[i] == rest[i - 1]);
            }
        }
    } else {
        let k = a[0].0;
        let j = choose|j: int|
            0 <= j <= out.len() && diff_ok(a[0].1, b[0].1, (p + r).push(PathKey::Key(k)), out.subrange(0, j))
                && merge_ok(a.drop_first(), b.drop_first(), p + r, #[trigger] out.subrange(j, out.len() as int));
        let first = out.subrange(0, j);
        let rest = out.subrange(j, out.len() as int);
        assert((p + r).push(PathKey::Key(k)) =~= p + r.push(PathKey::Key(k)));
        lemma_shift_diff(a[0].1, b[0].1, p, r.push(PathKey::Key(k)), first);
        lemma_shift_merge(a.drop_first(), b.drop_first(), p, r, rest);
        assert(so.subrange(0, j) =~= strip_paths(p.len() as int, first));
        assert(so.subrange(j, so.len() as int) =~= strip_paths(p.len() as int, rest));
        assert forall|i: int| 0 <= i < out.len() implies {
            &&& (#[trigger] out[i]).path.len() >= p.len() + (r.len() + 1)
            &&& out[i].path.subrange(0, p.len() as int) == p
        } by {
            if i < j {
                assert(out[i] == first[i]);
            } else {
                assert(out[i] == rest[i - j]);
            }
        }
    }
}

proof fn lemma_get_after_set<V>(m: Seq<(Seq<char>, NodeView<V>)>, k: Seq<char>, v: NodeView<V>)
    ensures
        map_get(map_set(m, k, v), k) == Some(v),
    decreases m.len(),
{
    if m.len() > 0 && m[0].0 != k && !key_lt(k, m[0].0) {
        lemma_get_after_set(m.drop_first(), k, v);
        assert((seq![m[0]] + map_set(m.drop_first(), k, v)).drop_first() =~= map_set(m.drop_first(), k, v));
    }
}

proof fn lemma_set_twice<V>(m: Seq<(Seq<char>, NodeView<V>)>, k: Seq<char>, v: NodeView<V>, w: NodeView<V>)
    ensures
        map_set(map_set(m, k, v), k, w) == map_set(m, k, w),
    decreases m.len(),
{
    let m1 = map_set(m, k, v);
    if m.len() == 0 {
        assert(m1.drop_first() =~= Seq::<(Seq<char>, NodeView<V>)>::empty());
        assert(seq![(k, w)] + m1.drop_first() =~= seq![(k, w)]);
    } else if m[0].0 == k {
        assert(m1.drop_first() =~= m.drop_first());
    } else if key_lt(k, m[0].0) {
        assert(m1.drop_first() =~= m);
    } else {
        lemma_set_twice(m.drop_first(), k, v, w);
        assert(m1[0] == m[0]);
        assert(m1.drop_first() =~= map_set(m.drop_first(), k, v));
    }
}

/// Changes all under key `k` of a map act on the value at `k`.
proof fn lemma_lift<V>(m: Seq<(Seq<char>, NodeView<V>)>, k: Seq<char>, x: NodeView<V>, first: Seq<ChangeView<V>>)
    requires
        forall|i: int| 0 <= i < first.len() ==> (#[trigger] first[i]).path.len() >= 2 && first[i].path[0] == PathKey::Key(k),
    ensures
        apply_all(NodeView::Mapping(map_set(m, k, x)), first) == match apply_all(x, strip_paths(1, first)) {
            Some(y) => Some(NodeView::Mapping(map_set(m, k, y))),
            None => None,
        },
    decreases first.len(),
{
    let sf = strip_paths(1, first);
    if first.len() > 0 {
        let prev = first.drop_last();
        lemma_lift(m, k, x, prev);
        assert(sf.drop_last() =~= strip_paths(1, prev));
        let c = first.last();
        assert(c == first[first.len() - 1]);
        assert(sf.last() == ChangeView { path: c.path.subrange(1, c.path.len() as int), kind: c.kind });
        assert(c.path.drop_first() =~= c.path.subrange(1, c.path.len() as int));
        match apply_all(x, strip_paths(1, prev)) {
            Some(cur) => {
                lemma_get_after_set(m, k, cur);
                match change_at(cur, c.path.drop_first(), c.kind) {
                    Some(c2) => {
                        lemma_set_twice(m, k, cur, c2);
                    },
                    None => {},
                }
            },
            None => {},
        }
    }
}

/// Two trees have the same shape at the root, their maps keep their keys
/// increasing, and at every key two matched maps share, two maps are again
/// such a pair.
pub open spec fn sound<V>(old: NodeView<V>, new: NodeView<V>) -> bool
    decreases old,
{
    match (old, new) {
        (NodeView::Leaf(_), NodeView::Leaf(_)) => true,
        (NodeView::Sequence(_), NodeView::Sequence(_)) => true,
        (NodeView::Mapping(a), NodeView::Mapping(b)) => {
            &&& keys_increasing(a)
            &&& keys_increasing(b)
            &&& forall|i: int, j: int|
                0 <= i < a.len() && 0 <= j < b.len() && #[trigger] a[i].0 == #[trigger] b[j].0 ==> match (a[i].1, b[j].1) {
                    (NodeView::Mapping(_), NodeView::Mapping(_)) => sound(a[i].1, b[j].1),
                    _ => true,
                }
        },
        _ => false,
    }
}

/// At every key `a` and `b` share, the two values are as `sound` asks.
pub open spec fn pairs_sound<V>(a: Seq<(Seq<char>, NodeView<V>)>, b: Seq<(Seq<char>, NodeView<V>)>) -> bool {
    forall|i: int, j: int|
        0 <= i < a.len() && 0 <= j < b.len() && #[trigger] a[i].0 == #[trigger] b[j].0 ==> match (a[i].1, b[j].1) {
            (NodeView::Mapping(_), NodeView::Mapping(_)) => sound(a[i].1, b[j].1),
            _ => true,
        }
}

proof fn lemma_pairs_sound_tail<V>(a: Seq<(Seq<char>, NodeView<V>)>, b: Seq<(Seq<char>, NodeView<V>)>, da: int, db: int)
    requires
        pairs_sound(a, b),
        0 <= da <= a.len(),
        0 <= db <= b.len(),
    ensures
        pairs_sound(a.subrange(da, a.len() as int), b.subrange(db, b.len() as int)),
{
    let a2 = a.subrange(da, a.len() as int);
    let b2 = b.subrange(db, b.len() as int);
    assert forall|i: int, j: int| 0 <= i < a2.len() && 0 <= j < b2.len() && #[trigger] a2[i].0 == #[trigger] b2[j].0 implies match (a2[i].1, b2[j].1) {
        (NodeView::Mapping(_), NodeView::Mapping(_)) => sound(a2[i].1, b2[j].1),
        _ => true,
    } by {
        assert(a2[i] == a[i + da] && b2[j] == b[j + db]);
    }
}

proof fn lemma_increasing_drop<V>(pre: Seq<(Seq<char>, NodeView<V>)>, a: Seq<(Seq<char>, NodeView<V>)>)
    requires
        keys_increasing(pre + a),
        a.len() > 0,
    ensures
        keys_increasing(pre + a.drop_first()),
        forall|i: int| 0 <= i < pre.len() ==> key_lt((#[trigger] pre[i]).0, a[0].0),
        forall|i: int| 0 <= i < a.drop_first().len() ==> key_lt(a[0].0, (#[trigger] a.drop_first()[i]).0),
{
    assert forall|i: int, j: int| 0 <= i < j < (pre + a.drop_first()).len() implies key_lt(
        #[trigger] (pre + a.drop_first())[i].0,
        #[trigger] (pre + a.drop_first())[j].0,
    ) by {
        let i2 = if i < pre.len() { i } else { i + 1 };
        let j2 = if j < pre.len() { j } else { j + 1 };
        assert((pre + a.drop_first())[i] == (pre + a)[i2]);
        assert((pre + a.drop_first())[j] == (pre + a)[j2]);
    }
    assert forall|i: int| 0 <= i < pre.len() implies key_lt((#[trigger] pre[i]).0, a[0].0) by {
        assert((pre + a)[i] == pre[i] && (pre + a)[pre.len() as int] == a[0]);
    }
    assert forall|i: int| 0 <= i < a.drop_first().len() implies key_lt(a[0].0, (#[trigger] a.drop_first()[i]).0) by {
        assert((pre + a)[pre.len() + i + 1] == a.drop_first()[i] && (pre + a)[pre.len() as int] == a[0]);
    }
}

proof fn lemma_tree_round<V>(old: NodeView<V>, new: NodeView<V>, out: Seq<ChangeView<V>>)
    requires
        sound(old, new),
        diff_ok(old, new, Seq::empty(), out),
    ensures
        apply_all(old, out) == Some(new),
    decreases old, new,
{
    match (old, new) {
        (NodeView::Mapping(a), NodeView::Mapping(b)) => {
            let pre = Seq::<(Seq<char>, NodeView<V>)>::empty();
            assert(pre + a =~= a);
            assert(pre + b =~= b);
            assert(pairs_sound(a, b));
            lemma_merge_round(pre, a, b, out);
        },
        _ => {
            lemma_apply_round_trip_flat(old, new, out);
        },
    }
}

proof fn lemma_merge_round<V>(
    pre: Seq<(Seq<char>, NodeView<V>)>,
    a: Seq<(Seq<char>, NodeView<V>)>,
    b: Seq<(Seq<char>, NodeView<V>)>,
    out: Seq<ChangeView<V>>,
)
    requires
        merge_ok(a, b, Seq::empty(), out),
        keys_increasing(pre + a),
        keys_increasing(pre + b),
        pairs_sound(a, b),
    ensures
        apply_all(NodeView::Mapping(pre + a), out) == Some(NodeView::Mapping(pre + b)),
    decreases a, b,
{
    let path = Seq::<PathKey>::empty();
    if a.len() == 0 && b.len() == 0 {
        assert(pre + a =~= pre + b);
    } else if a.len() > 0 && (b.len() == 0 || key_lt(a[0].0, b[0].0)) {
        let k = a[0].0;
        let rest = out.drop_first();
        assert(out =~= seq![out[0]] + rest);
        lemma_apply_one(NodeView::Mapping(pre + a), out[0], rest);
        assert(out[0].path == path.push(PathKey::Key(k)));
        assert(pre + a =~= pre + seq![(k, a[0].1)] + a.drop_first());
        lemma_increasing_drop(pre, a);
        assert forall|i: int| 0 <= i < pre.len() implies (#[trigger] pre[i]).0 != k by {
            lemma_key_lt_asymmetric(pre[i].0, k);
        }
        assert forall|i: int| 0 <= i < a.drop_first().len() implies (#[trigger] a.drop_first()[i]).0 != k by {
            lemma_key_lt_asymmetric(k, a.drop_first()[i].0);
        }
        lemma_map_remove_at(pre, a.drop_first(), k, a[0].1);
        lemma_pairs_sound_tail(a, b, 1, 0);
        assert(a.subrange(1, a.len() as int) =~= a.drop_first());
        assert(b.subrange(0, b.len() as int) =~= b);
        lemma_merge_round(pre, a.drop_first(), b, rest);
    } else if a.len() == 0 || key_lt(b[0].0, a[0].0) || a[0].0 != b[0].0 {
        let k = b[0].0;
        let rest = out.drop_first();
        assert(out =~= seq![out[0]] + rest);
        lemma_apply_one(NodeView::Mapping(pre + a), out[0], rest);
        if a.len() > 0 {
            lemma_key_lt_total(a[0].0, b[0].0);
        }
        lemma_increasing_drop(pre, b);
        lemma_map_set_at(pre, a, k, b[0].1);
        let pre2 = pre + seq![b[0]];
        assert(pre + seq![(k, b[0].1)] + a =~= pre2 + a);
        assert(pre2 + b.drop_first() =~= pre + b);
        assert(keys_increasing(pre2 + a)) by {
            assert forall|i: int, j: int| 0 <= i < j < (pre2 + a).len() implies key_lt(
                #[trigger] (pre2 + a)[i].0,
                #[trigger] (pre2 + a)[j].0,
            ) by {
                if j < pre.len() {
                    assert((pre2 + a)[i] == (pre + a)[i] && (pre2 + a)[j] == (pre + a)[j]);
                } else if j == pre.len() {
                    assert((pre2 + a)[i] == (pre + b)[i] && (pre2 + a)[j] == (pre + b)[j]);
                } else if i < pre.len() {
                    assert((pre2 + a)[i] == (pre + a)[i] && (pre2 + a)[j] == (pre + a)[j - 1]);
                } else if i == pre.len() {
                    assert((pre2 + a)[i] == b[0] && (pre2 + a)[j] == a[j - pre.len() - 1]);
                    if j - pre.len() - 1 > 0 {
                        assert((pre + a)[pre.len() as int] == a[0] && (pre + a)[j - 1] == a[j - pre.len() - 1]);
                        lemma_key_lt_transitive(k, a[0].0, a[j - pre.len() - 1].0);
                    }
                } else {
                    assert((pre2 + a)[i] == (pre + a)[i - 1] && (pre2 + a)[j] == (pre + a)[j - 1]);
                }
            }
        }
        lemma_pairs_sound_tail(a, b, 0, 1);
        assert(a.subrange(0, a.len() as int) =~= a);
        assert(b.subrange(1, b.len() as int) =~= b.drop_first());
        lemma_merge_round(pre2, a, b.drop_first(), rest);
    } else {
        let k = a[0].0;
        assert(b[0].0 == k);
        let j = choose|j: int|
            0 <= j <= out.len() && diff_ok(a[0].1, b[0].1, path.push(PathKey::Key(a[0].0)), out.subrange(0, j))
                && merge_ok(a.drop_first(), b.drop_first(), path, #[trigger] out.subrange(j, out.len() as int));
        let first = out.subrange(0, j);
        let rest = out.subrange(j, out.len() as int);
        assert(out =~= first + rest);
        lemma_apply_all_concat(NodeView::Mapping(pre + a), first, rest);
        let x = a[0].1;
        let y = b[0].1;
        let pre2 = pre + seq![b[0]];
        lemma_increasing_drop(pre, a);
        lemma_increasing_drop(pre, b);
        assert(pre + seq![(k, x)] + a.drop_first() =~= pre + a);
        lemma_map_set_at(pre, a, k, y);
        assert(pre + seq![(k, y)] + a.drop_first() =~= pre2 + a.drop_first());
        assert(pairs_sound(a, b));
        assert(a[0].0 == b[0].0);
        match (x, y) {
            (NodeView::Mapping(_), NodeView::Mapping(_)) => {
                assert(sound(x, y));
                let p1 = seq![PathKey::Key(k)];
                assert(path.push(PathKey::Key(k)) =~= p1 + Seq::<PathKey>::empty());
                lemma_shift_diff(x, y, p1, Seq::<PathKey>::empty(), first);
                lemma_tree_round(x, y, strip_paths(1, first));
                assert forall|i: int| 0 <= i < first.len() implies (#[trigger] first[i]).path.len() >= 2
                    && first[i].path[0] == PathKey::Key(k) by {
                    assert(first[i].path.subrange(0, 1)[0] == first[i].path[0]);
                }
                lemma_map_set_at(pre, a, k, x);
                lemma_lift(pre + a, k, x, first);
            },
            (NodeView::Sequence(_), NodeView::Sequence(_)) => {
                if x == y {
                    assert(first.len() == 0);
                    assert(apply_all(NodeView::Mapping(pre + a), first) == Some(NodeView::Mapping(pre + a)));
                    assert(pre + a =~= pre2 + a.drop_first());
                } else {
                    assert(first =~= seq![first[0]] + Seq::<ChangeView<V>>::empty());
                    lemma_apply_one(NodeView::Mapping(pre + a), first[0], Seq::<ChangeView<V>>::empty());
                    lemma_map_set_at(pre, a, k, x);
                    lemma_get_after_set(pre + a, k, x);
                    assert(map_get(pre + a, k) == Some(x));
                }
            },
            (NodeView::Leaf(_), NodeView::Leaf(_)) => {
                if x == y {
                    assert(first.len() == 0);
                    assert(apply_all(NodeView::Mapping(pre + a), first) == Some(NodeView::Mapping(pre + a)));
                    assert(pre + a =~= pre2 + a.drop_first());
                } else {
                    assert(first =~= seq![first[0]] + Seq::<ChangeView<V>>::empty());
                    lemma_apply_one(NodeView::Mapping(pre + a), first[0], Seq::<ChangeView<V>>::empty());
                }
            },
            _ => {
                assert(first.len() == 2);
                assert(first =~= seq![first[0]] + seq![first[1]]);
                lemma_apply_one(NodeView::Mapping(pre + a), first[0], seq![first[1]]);
                assert forall|i: int| 0 <= i < pre.len() implies (#[trigger] pre[i]).0 != k by {
                    lemma_key_lt_asymmetric(pre[i].0, k);
                }
                assert forall|i: int| 0 <= i < a.drop_first().len() implies (#[trigger] a.drop_first()[i]).0 != k by {
                    lemma_key_lt_asymmetric(k, a.drop_first()[i].0);
                }
                lemma_map_remove_at(pre, a.drop_first(), k, x);
                lemma_apply_one(NodeView::Mapping(pre + a.drop_first()), first[1], Seq::<ChangeView<V>>::empty());
                if a.drop_first().len() > 0 {
                    assert(key_lt(k, a.drop_first()[0].0));
                }
                lemma_map_set_at(pre, a.drop_first(), k, y);
                assert(seq![first[1]] =~= seq![first[1]] + Seq::<ChangeView<V>>::empty());
            },
        }
        assert(pre2 + b.drop_first() =~= pre + b);
        assert(keys_increasing(pre2 + a.drop_first())) by {
            assert forall|i: int, j2: int| 0 <= i < j2 < (pre2 + a.drop_first()).len() implies key_lt(
                #[trigger] (pre2 + a.drop_first())[i].0,
                #[trigger] (pre2 + a.drop_first())[j2].0,
            ) by {
                assert((pre2 + a.drop_first())[i].0 == (pre + a)[i].0);
                assert((pre2 + a.drop_first())[j2].0 == (pre + a)[j2].0);
            }
        }
        lemma_pairs_sound_tail(a, b, 1, 1);
        assert(a.subrange(1, a.len() as int) =~= a.drop_first());
        assert(b.subrange(1, b.len() as int) =~= b.drop_first());
        lemma_merge_round(pre2, a.drop_first(), b.drop_first(), rest);
    }
}

/// Apply round trip on trees: for two trees of the same shape at the root
/// whose maps keep their keys increasing, applying what diffing `old`
/// against `new` emits to `old` gives `new`.
pub proof fn lemma_apply_round_trip_trees<V>(old: NodeView<V>, new: NodeView<V>, out: Seq<ChangeView<V>>)
    requires
        sound(old, new),
        diff_ok(old, new, Seq::empty(), out),
    ensures
        apply_all(old, out) == Some(new),
{
    lemma_tree_round(old, new, out);
}

} // verus!
