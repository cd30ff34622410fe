//! The tree: insertion with split, deletion with condensation, and pruned search.
use vstd::prelude::*;
use vstd::multiset::Multiset;
use crate::rect::{is_valid, overlaps, valid_rect};
use crate::node::{
    Child, Entry, Node, child_ok, choose_subtree, copy_bytes, entries_items, entries_ok, fan,
    item_of, items, kids_items, lemma_entries_push, lemma_items_enclosed, lemma_kids_insert,
    lemma_kids_remove, lemma_wf_entries, lemma_wf_rects, node_rect, opt_items, wf,
};
use crate::split::split_node;
use crate::search::{hit_seq, hits, law_search_hits, lemma_views_items, search_node, views};
use crate::delete::{all_valid, holds, remove_rec};

verus! {

broadcast use vstd::std_specs::vec::group_vec_axioms, vstd::seq::group_seq_axioms;

/// Multiset bookkeeping for replacing one child by the result of inserting below it.
proof fn lemma_replace_sum(
    whole: Multiset<(Seq<i64>, Seq<u8>)>,
    rest: Multiset<(Seq<i64>, Seq<u8>)>,
    part: Multiset<(Seq<i64>, Seq<u8>)>,
    got: Multiset<(Seq<i64>, Seq<u8>)>,
    extra: Multiset<(Seq<i64>, Seq<u8>)>,
    now: Multiset<(Seq<i64>, Seq<u8>)>,
    x: (Seq<i64>, Seq<u8>),
)
    requires
        whole == rest.add(part),
        got.add(extra) == part.insert(x),
        now == rest.add(got).add(extra),
    ensures
        now == whole.insert(x),
{
    broadcast use vstd::multiset::group_multiset_axioms;

    assert forall|v| #[trigger] now.count(v) == whole.insert(x).count(v) by {
        assert(got.add(extra).count(v) == part.insert(x).count(v));
        assert(now.count(v) == rest.count(v) + got.count(v) + extra.count(v));
        if v == x {
            assert(Multiset::singleton(x).count(v) == 1);
        } else {
            assert(Multiset::singleton(x).count(v) == 0);
        }
        assert(part.insert(x).count(v) == part.count(v) + Multiset::singleton(x).count(v));
        assert(whole.insert(x).count(v) == whole.count(v) + Multiset::singleton(x).count(v));
    }
    assert(now =~= whole.insert(x));
}

/// Hands back `r` as it is, or split in two where it holds more than `hi` entries.
fn settle(r: Node, d: usize, m: usize, hi: usize, Ghost(lo): Ghost<nat>, Ghost(h): Ghost<nat>) -> (res: (
    Node,
    Option<Node>,
))
    requires
        1 <= m,
        2 * m <= hi + 1,
        lo <= fan(r) <= hi + 1,
        fan(r) >= 1,
        entries_ok(r, d as nat, m as nat, hi as nat, h),
    ensures
        items(res.0).add(opt_items(res.1)) == items(r),
        res.1 is None ==> res.0 == r,
        fan(res.0) >= 1,
        res.1 is None ==> wf(res.0, d as nat, m as nat, hi as nat, lo, h),
        res.1 is Some ==> wf(res.0, d as nat, m as nat, hi as nat, m as nat, h) && wf(
            res.1->Some_0,
            d as nat,
            m as nat,
            hi as nat,
            m as nat,
            h,
        ),
{
    broadcast use vstd::multiset::group_multiset_axioms;

    if crate::node::fan_out(&r) > hi {
        let (a, b) = split_node(r, d, m, hi, Ghost(h));
        proof {
            lemma_wf_entries(a, d as nat, m as nat, hi as nat, m as nat, h);
        }
        (a, Some(b))
    } else {
        proof {
            lemma_wf_entries(r, d as nat, m as nat, hi as nat, lo, h);
        }
        assert(items(r).add(opt_items(None)) =~= items(r));
        (r, None)
    }
}

/// Inserts `e` below `n`; where `n` overflows, it comes back split in two.
fn insert_rec(
    n: Node,
    e: Entry,
    d: usize,
    m: usize,
    hi: usize,
    Ghost(lo): Ghost<nat>,
    Ghost(h): Ghost<nat>,
) -> (res: (Node, Option<Node>))
    requires
        1 <= m,
        2 * m <= hi + 1,
        lo <= m,
        wf(n, d as nat, m as nat, hi as nat, lo, h),
        valid_rect(e.rect@, d as nat),
    ensures
        items(res.0).add(opt_items(res.1)) == items(n).insert(item_of(e)),
        res.1 is None ==> fan(res.0) >= fan(n),
        fan(res.0) >= 1,
        res.1 is None ==> wf(res.0, d as nat, m as nat, hi as nat, lo, h),
        res.1 is Some ==> wf(res.0, d as nat, m as nat, hi as nat, m as nat, h) && wf(
            res.1->Some_0,
            d as nat,
            m as nat,
            hi as nat,
            m as nat,
            h,
        ),
    decreases h, 1int,
{
    proof {
        lemma_wf_entries(n, d as nat, m as nat, hi as nat, lo, h);
    }
    match n {
        Node::Leaf(es) => {
            let ghost old_es = es@;
            let mut es = es;
            es.push(e);
            proof {
                lemma_entries_push(old_es, e);
            }
            let r = Node::Leaf(es);
            assert(entries_ok(r, d as nat, m as nat, hi as nat, h));
            settle(r, d, m, hi, Ghost(lo), Ghost(h))
        },
        Node::Inner(cs) => insert_inner(cs, e, d, m, hi, Ghost(lo), Ghost(h)),
    }
}

/// Inserts `e` below the child that grows least, then takes back what comes up.
#[verifier::rlimit(60)]
fn insert_inner(
    cs: Vec<Child>,
    e: Entry,
    d: usize,
    m: usize,
    hi: usize,
    Ghost(lo): Ghost<nat>,
    Ghost(h): Ghost<nat>,
) -> (res: (Node, Option<Node>))
    requires
        1 <= m,
        2 * m <= hi + 1,
        lo <= m,
        wf(Node::Inner(cs), d as nat, m as nat, hi as nat, lo, h),
        valid_rect(e.rect@, d as nat),
    ensures
        items(res.0).add(opt_items(res.1)) == items(Node::Inner(cs)).insert(item_of(e)),
        res.1 is None ==> fan(res.0) >= cs@.len(),
        fan(res.0) >= 1,
        res.1 is None ==> wf(res.0, d as nat, m as nat, hi as nat, lo, h),
        res.1 is Some ==> wf(res.0, d as nat, m as nat, hi as nat, m as nat, h) && wf(
            res.1->Some_0,
            d as nat,
            m as nat,
            hi as nat,
            m as nat,
            h,
        ),
    decreases h, 0int,
{
    let ghost old_cs = cs@;
    let ghost hc = (h - 1) as nat;
    proof {
        lemma_wf_entries(Node::Inner(cs), d as nat, m as nat, hi as nat, lo, h);
    }
    let mut cs = cs;
    assert forall|j: int| 0 <= j < cs@.len() implies valid_rect(#[trigger] cs@[j].rect@, d as nat) by {
        assert(child_ok(cs@[j], d as nat, m as nat, hi as nat, hc));
    }
    let i = choose_subtree(&cs, &e.rect, d);
    let c = cs.remove(i);
    proof {
        lemma_kids_remove(old_cs, i as int);
        assert(child_ok(c, d as nat, m as nat, hi as nat, hc));
    }
    let ghost mid = cs@;
    let (c2, s) = insert_rec(c.node, e, d, m, hi, Ghost(m as nat), Ghost(hc));
    proof {
        lemma_wf_rects(c2, d as nat, m as nat, hi as nat, m as nat, hc);
    }
    let r2 = node_rect(&c2, d);
    let k2 = Child { rect: r2, node: c2 };
    cs.insert(i, k2);
    proof {
        lemma_kids_insert(mid, i as int, k2);
        assert(child_ok(k2, d as nat, m as nat, hi as nat, hc));
    }
    let ghost after1 = cs@;
    match s {
        Some(sn) => {
            proof {
                lemma_wf_rects(sn, d as nat, m as nat, hi as nat, m as nat, hc);
            }
            let r3 = node_rect(&sn, d);
            let k3 = Child { rect: r3, node: sn };
            cs.insert(i + 1, k3);
            proof {
                lemma_kids_insert(after1, i + 1, k3);
                assert(child_ok(k3, d as nat, m as nat, hi as nat, hc));
            }
        },
        None => {
            assert(kids_items(cs@, cs@.len() as int) == kids_items(cs@, cs@.len() as int).add(
                opt_items(s),
            )) by {
                broadcast use vstd::multiset::group_multiset_axioms;

                assert(kids_items(cs@, cs@.len() as int) =~= kids_items(
                    cs@,
                    cs@.len() as int,
                ).add(opt_items(s)));
            }
        },
    }
    proof {
        lemma_replace_sum(
            kids_items(old_cs, old_cs.len() as int),
            kids_items(mid, mid.len() as int),
            items(c.node),
            items(c2),
            opt_items(s),
            kids_items(cs@, cs@.len() as int),
            item_of(e),
        );
    }
    let r = Node::Inner(cs);
    assert(entries_ok(r, d as nat, m as nat, hi as nat, h)) by {
        assert forall|j: int| 0 <= j < cs@.len() implies #[trigger] child_ok(
            cs@[j],
            d as nat,
            m as nat,
            hi as nat,
            hc,
        ) by {
            let shift = cs@.len() - old_cs.len();
            if j < i {
                assert(cs@[j] == old_cs[j]);
                assert(child_ok(old_cs[j], d as nat, m as nat, hi as nat, hc));
            } else if j > i + shift {
                assert(cs@[j] == old_cs[j - shift]);
                assert(child_ok(old_cs[j - shift], d as nat, m as nat, hi as nat, hc));
            }
        }
    }
    settle(r, d, m, hi, Ghost(lo), Ghost(h))
}

/// A new root over the two halves of a split root.
fn grow_root(a: Node, b: Node, d: usize, m: usize, hi: usize, Ghost(h): Ghost<nat>) -> (r: Node)
    requires
        1 <= m,
        2 * m <= hi + 1,
        2 <= hi,
        wf(a, d as nat, m as nat, hi as nat, m as nat, h),
        wf(b, d as nat, m as nat, hi as nat, m as nat, h),
    ensures
        wf(r, d as nat, m as nat, hi as nat, 0, h + 1),
        items(r) == items(a).add(items(b)),
        r is Inner && fan(r) == 2,
{
    proof {
        lemma_wf_rects(a, d as nat, m as nat, hi as nat, m as nat, h);
        lemma_wf_rects(b, d as nat, m as nat, hi as nat, m as nat, h);
    }
    let ra = node_rect(&a, d);
    let rb = node_rect(&b, d);
    let ca = Child { rect: ra, node: a };
    let cb = Child { rect: rb, node: b };
    let mut cs: Vec<Child> = Vec::new();
    cs.push(ca);
    cs.push(cb);
    let r = Node::Inner(cs);
    proof {
        broadcast use vstd::multiset::group_multiset_axioms;
        assert(seq![ca] =~= Seq::<Child>::empty().push(ca));
        crate::node::lemma_kids_push(Seq::<Child>::empty(), ca);
        crate::node::lemma_kids_push(seq![ca], cb);
        assert(cs@ =~= seq![ca].push(cb));
        assert(items(r) =~= items(a).add(items(b)));
        assert(child_ok(ca, d as nat, m as nat, hi as nat, h));
        assert(child_ok(cb, d as nat, m as nat, hi as nat, h));
        assert(entries_ok(r, d as nat, m as nat, hi as nat, h + 1));
        lemma_wf_entries(r, d as nat, m as nat, hi as nat, 0, h + 1);
    }
    r
}

/// Inserts `e` below the root, growing a new root where the old one splits.
fn put_root(
    root: Node,
    e: Entry,
    d: usize,
    m: usize,
    hi: usize,
    Ghost(h): Ghost<nat>,
) -> (res: (Node, Ghost<nat>))
    requires
        1 <= m,
        2 * m <= hi + 1,
        2 <= hi,
        wf(root, d as nat, m as nat, hi as nat, 0, h),
        valid_rect(e.rect@, d as nat),
    ensures
        wf(res.0, d as nat, m as nat, hi as nat, 0, res.1@),
        items(res.0) == items(root).insert(item_of(e)),
        h <= res.1@ <= h + 1,
        res.1@ == h + 1 ==> res.0 is Inner && fan(res.0) == 2,
        (root is Inner ==> fan(root) >= 2) ==> (res.0 is Inner ==> fan(res.0) >= 2),
{
    let ghost n0 = root;
    let (a, s) = insert_rec(root, e, d, m, hi, Ghost(0), Ghost(h));
    match s {
        None => {
            proof {
                broadcast use vstd::multiset::group_multiset_axioms;
                assert(items(a) =~= items(a).add(opt_items(s)));
                if a is Inner {
                    assert(h > 0);
                    assert(n0 is Inner);
                }
            }
            (a, Ghost(h))
        },
        Some(b) => (grow_root(a, b, d, m, hi, Ghost(h)), Ghost(h + 1)),
    }
}

/// Makes a root of what deletion left: an internal root left without entries
/// becomes an empty leaf, and one left with a single child gives way to it.
fn shorten(n: Node, d: usize, m: usize, Ghost(hi): Ghost<nat>, Ghost(h): Ghost<nat>) -> (res: (
    Node,
    Ghost<nat>,
))
    requires
        1 <= m,
        entries_ok(n, d as nat, m as nat, hi, h),
        fan(n) <= hi,
    ensures
        wf(res.0, d as nat, m as nat, hi, 0, res.1@),
        items(res.0) == items(n),
        res.1@ <= h,
        res.0 is Inner ==> fan(res.0) >= 2,
    decreases h,
{
    match n {
        Node::Leaf(es) => {
            proof {
                lemma_wf_entries(Node::Leaf(es), d as nat, m as nat, hi, 0, h);
            }
            (Node::Leaf(es), Ghost(h))
        },
        Node::Inner(cs) => {
            let ghost old_cs = cs@;
            if cs.len() == 0 {
                let r = Node::Leaf(Vec::new());
                proof {
                    assert(items(r) =~= items(n));
                }
                (r, Ghost(0))
            } else if cs.len() == 1 {
                let mut cs = cs;
                let c = cs.pop().unwrap();
                proof {
                    assert(c == old_cs[0]);
                    assert(child_ok(old_cs[0], d as nat, m as nat, hi, (h - 1) as nat));
                    lemma_wf_entries(c.node, d as nat, m as nat, hi, m as nat, (h - 1) as nat);
                    crate::node::lemma_kids_push(Seq::<Child>::empty(), c);
                    assert(old_cs =~= Seq::<Child>::empty().push(c));
                    broadcast use vstd::multiset::group_multiset_axioms;
                    assert(kids_items(Seq::<Child>::empty(), 0).add(items(c.node)) =~= items(c.node));
                }
                shorten(c.node, d, m, Ghost(hi), Ghost((h - 1) as nat))
            } else {
                proof {
                    lemma_wf_entries(Node::Inner(cs), d as nat, m as nat, hi, 0, h);
                }
                (Node::Inner(cs), Ghost(h))
            }
        },
    }
}

/// Decides whether a search goes on after each item it finds.
pub trait Visitor {
    /// The items handed to this visitor so far, in order. A visitor that is
    /// verified defines this and `answers` so that `visit` meets its contract.
    closed spec fn seen(&self) -> Seq<(Seq<i64>, Seq<u8>)> {
        Seq::empty()
    }

    /// The answers this visitor gave so far, in order.
    closed spec fn answers(&self) -> Seq<bool> {
        Seq::empty()
    }

    /// Looks at one found item; returns false to stop the search.
    fn visit(&mut self, rect: &Vec<i64>, item: &Vec<u8>) -> (go_on: bool)
        ensures
            final(self).seen() == old(self).seen().push((rect@, item@)),
            final(self).answers() == old(self).answers().push(go_on),
    ;
}

/// The most entries a node holds.
pub const MAX_FILL: usize = 8;

/// The fewest entries a node other than the root holds.
pub const MIN_FILL: usize = 3;

/// An R-tree of items, each a rectangle of a fixed number of dimensions and a
/// payload of a fixed number of bytes.
pub struct RTreeC {
    dims: usize,
    item_size: usize,
    min_fill: usize,
    max_fill: usize,
    root: Node,
    len: usize,
    height: Ghost<nat>,
}

impl View for RTreeC {
    type V = Multiset<(Seq<i64>, Seq<u8>)>;

    /// The multiset of stored items, each a rectangle and a payload.
    closed spec fn view(&self) -> Multiset<(Seq<i64>, Seq<u8>)> {
        items(self.root)
    }
}

impl RTreeC {
    /// The number of dimensions of every rectangle.
    pub closed spec fn dims_spec(&self) -> nat {
        self.dims as nat
    }

    /// The number of bytes of every payload.
    pub closed spec fn item_size_spec(&self) -> nat {
        self.item_size as nat
    }

    /// The tree is well formed: every node below the root holds between the
    /// minimum and the maximum fan-out, the root at most the maximum, every
    /// internal rectangle is exactly the bounding rectangle of its child, all
    /// leaves lie at the same depth, and the count is the number of items.
    pub closed spec fn wf(&self) -> bool {
        &&& 1 <= self.min_fill
        &&& 2 * self.min_fill <= self.max_fill + 1
        &&& 2 <= self.max_fill
        &&& (self.root is Inner ==> fan(self.root) >= 2)
        &&& wf(self.root, self.dims as nat, self.min_fill as nat, self.max_fill as nat, 0, self.height@)
        &&& self.len == items(self.root).len()
    }

    /// The items whose rectangle overlaps `q`, in the order a search visits
    /// them: depth first, entries in storage order.
    pub closed spec fn hit_order(&self, q: Seq<i64>) -> Seq<(Seq<i64>, Seq<u8>)> {
        hit_seq(self.root, q, self.dims as nat)
    }

    /// The root node.
    pub closed spec fn root_spec(&self) -> Node {
        self.root
    }

    /// The fan-out bounds.
    pub closed spec fn fill_spec(&self) -> (nat, nat) {
        (self.min_fill as nat, self.max_fill as nat)
    }

    /// The height of the tree: zero where the root is a leaf.
    pub closed spec fn height_spec(&self) -> nat {
        self.height@
    }

    /// The shape of a well-formed tree: every internal rectangle is exactly the
    /// bounding rectangle of its child's entries, every node below the root holds
    /// between the minimum and the maximum fan-out, the root holds at most the
    /// maximum and, where it is internal, at least two, and every leaf lies at
    /// the tree's height; the view is the
    /// multiset of items held by the root's subtree.
    pub proof fn law_shape(&self)
        ensures
            self@ == items(self.root_spec()),
            self.wf() ==> {
                &&& 1 <= self.fill_spec().0
                &&& 2 * self.fill_spec().0 <= self.fill_spec().1 + 1
                &&& 2 <= self.fill_spec().1
                &&& (self.root_spec() is Inner ==> fan(self.root_spec()) >= 2)
                &&& wf(
                    self.root_spec(),
                    self.dims_spec(),
                    self.fill_spec().0,
                    self.fill_spec().1,
                    0,
                    self.height_spec(),
                )
            },
    {
    }

    /// An empty tree for payloads of `item_size` bytes and rectangles of
    /// `dims` dimensions.
    pub fn new(item_size: usize, dims: usize) -> (res: RTreeC)
        ensures
            res.wf(),
            res@ == Multiset::<(Seq<i64>, Seq<u8>)>::empty(),
            res.dims_spec() == dims,
            res.item_size_spec() == item_size,
            res.fill_spec() == (MIN_FILL as nat, MAX_FILL as nat),
    {
        let res = RTreeC {
            dims,
            item_size,
            min_fill: MIN_FILL,
            max_fill: MAX_FILL,
            root: Node::Leaf(Vec::new()),
            len: 0,
            height: Ghost(0),
        };
        proof {
            broadcast use vstd::multiset::group_multiset_axioms;
            let es = Seq::<Entry>::empty();
            assert(items(res.root) == entries_items(es, 0));
        }
        res
    }

    /// The number of stored items.
    pub fn count(&self) -> (res: u64)
        requires
            self.wf(),
        ensures
            res == self@.len(),
    {
        self.len as u64
    }

    /// The number of dimensions.
    pub fn dims(&self) -> (res: usize)
        ensures
            res == self.dims_spec(),
    {
        self.dims
    }

    /// The payload size in bytes.
    pub fn item_size(&self) -> (res: usize)
        ensures
            res == self.item_size_spec(),
    {
        self.item_size
    }

    /// Stores a copy of `item` under `rect`. Returns false, and leaves the tree
    /// as it was, where `rect` is not a valid rectangle of the tree's
    /// dimensions, `item` is not of the tree's payload size, or the count has
    /// reached its limit.
    pub fn insert(&mut self, rect: Vec<i64>, item: &Vec<u8>) -> (ok: bool)
        requires
            old(self).wf(),
        ensures
            final(self).wf(),
            final(self).dims_spec() == old(self).dims_spec(),
            final(self).item_size_spec() == old(self).item_size_spec(),
            final(self).fill_spec() == old(self).fill_spec(),
            ok == (valid_rect(rect@, old(self).dims_spec()) && item@.len() == old(
                self,
            ).item_size_spec() && old(self)@.len() < usize::MAX),
            ok ==> final(self)@ == old(self)@.insert((rect@, item@)),
            ok ==> final(self)@.len() == old(self)@.len() + 1,
            old(self).height_spec() <= final(self).height_spec() <= old(self).height_spec() + 1,
            final(self).height_spec() == old(self).height_spec() + 1
                ==> final(self).root_spec() is Inner && fan(final(self).root_spec()) == 2,
            !ok ==> final(self).root_spec() == old(self).root_spec(),
            !ok ==> final(self)@ == old(self)@,
    {
        if !is_valid(&rect, self.dims) || item.len() != self.item_size || self.len == usize::MAX {
            return false;
        }
        let e = Entry { rect, data: copy_bytes(item) };
        let mut root = Node::Leaf(Vec::new());
        std::mem::swap(&mut root, &mut self.root);
        let ghost h = self.height@;
        let (r, h2) = put_root(root, e, self.dims, self.min_fill, self.max_fill, Ghost(h));
        self.root = r;
        self.height = h2;
        proof {
            broadcast use vstd::multiset::group_multiset_axioms;
        }
        self.len = self.len + 1;
        true
    }

    /// Removes one stored copy of the item with rectangle `rect` and payload
    /// `item`; returns whether there was one. Nothing changes where there was none.
    pub fn delete(&mut self, rect: Vec<i64>, item: &Vec<u8>) -> (found: bool)
        requires
            old(self).wf(),
        ensures
            final(self).wf(),
            final(self).dims_spec() == old(self).dims_spec(),
            final(self).item_size_spec() == old(self).item_size_spec(),
            final(self).fill_spec() == old(self).fill_spec(),
            found == (old(self)@.count((rect@, item@)) > 0),
            final(self)@ == old(self)@.remove((rect@, item@)),
            found ==> final(self)@.len() + 1 == old(self)@.len(),
            !found ==> final(self)@ == old(self)@,
            !found ==> final(self).root_spec() == old(self).root_spec(),
            !found ==> final(self).height_spec() == old(self).height_spec(),
    {
        let ghost x: (Seq<i64>, Seq<u8>) = (rect@, item@);
        let d = self.dims;
        let m = self.min_fill;
        let ghost hi = self.max_fill as nat;
        let ghost h = self.height@;
        let rl = rect.len();
        if d > usize::MAX / 2 || rl != 2 * d {
            proof {
                if items(self.root).count(x) > 0 {
                    lemma_items_enclosed(self.root, d as nat, m as nat, hi, 0, h, x);
                }
                lemma_remove_absent(self@, x);
            }
            return false;
        }
        if !holds(&self.root, &rect, item, d, Ghost(m as nat), Ghost(hi), Ghost(0), Ghost(h)) {
            proof {
                lemma_remove_absent(self@, x);
            }
            return false;
        }
        let ghost before = items(self.root);
        let mut root = Node::Leaf(Vec::new());
        std::mem::swap(&mut root, &mut self.root);
        let (r2, orph) = remove_rec(root, &rect, item, d, m, Ghost(hi), Ghost(0), Ghost(h));
        let (mut cur, mut hc) = shorten(r2, d, m, Ghost(hi), Ghost(h));
        let ghost target = before.remove(x);
        let mut orph = orph;
        proof {
            assert(orph@.subrange(0, orph@.len() as int) =~= orph@);
        }
        let ghost all = orph@;
        while orph.len() > 0
            invariant
                1 <= m,
                2 * m <= self.max_fill + 1,
                2 <= self.max_fill,
                hi == self.max_fill,
                d == self.dims,
                m == self.min_fill,
                wf(cur, d as nat, m as nat, hi, 0, hc@),
                orph@ == all.subrange(0, orph@.len() as int),
                orph@.len() <= all.len(),
                all_valid(all, d as nat),
                items(cur).add(entries_items(all, orph@.len() as int)) == target,
                cur is Inner ==> fan(cur) >= 2,
            decreases orph.len(),
        {
            let ghost k = orph@.len() as int;
            let e = orph.pop().unwrap();
            proof {
                assert(e == all[k - 1]);
                assert(valid_rect(all[k - 1].rect@, d as nat));
            }
            let (nr, nh) = put_root(cur, e, d, m, self.max_fill, hc);
            proof {
                broadcast use vstd::multiset::group_multiset_axioms;
                assert(items(nr).add(entries_items(all, k - 1)) =~= items(cur).add(entries_items(all, k)));
            }
            cur = nr;
            hc = nh;
        }
        proof {
            broadcast use vstd::multiset::group_multiset_axioms;
            assert(items(cur) =~= items(cur).add(entries_items(all, 0)));
            assert(before.count(x) > 0);
            assert(target.len() + 1 == before.len());
        }
        self.root = cur;
        self.height = hc;
        self.len = self.len - 1;
        true
    }

    /// A copy of every stored item whose rectangle overlaps `rect`, in
    /// depth-first order of the tree.
    pub fn search_items(&self, rect: &Vec<i64>) -> (res: Vec<Entry>)
        requires
            self.wf(),
            rect@.len() == 2 * self.dims_spec(),
        ensures
            entries_items(res@, res@.len() as int) == hits(self@, rect@, self.dims_spec()),
            views(res@) == self.hit_order(rect@),
    {
        let mut out: Vec<Entry> = Vec::new();
        search_node(
            &self.root,
            rect,
            self.dims,
            &mut out,
            Ghost(self.min_fill as nat),
            Ghost(self.max_fill as nat),
            Ghost(0),
            Ghost(self.height@),
        );
        proof {
            broadcast use vstd::multiset::group_multiset_axioms;
            assert(entries_items(Seq::<Entry>::empty(), 0).add(hits(self@, rect@, self.dims as nat)) =~= hits(self@, rect@, self.dims as nat));
        }
        out
    }

    /// Hands each stored item whose rectangle overlaps `rect` to `visitor`, in
    /// the order of `hit_order`, until the visitor returns false. Returns false
    /// where the visitor stopped the search, true where every such item was
    /// visited. Each visit gets the stored rectangle and payload whole.
    pub fn search<V: Visitor>(&self, rect: Vec<i64>, visitor: &mut V) -> (completed: bool)
        requires
            self.wf(),
            rect@.len() == 2 * self.dims_spec(),
        ensures
            self.hit_order(rect@).to_multiset() == hits(self@, rect@, self.dims_spec()),
            forall|i: int|
                0 <= i < self.hit_order(rect@).len() ==> overlaps(
                    (#[trigger] self.hit_order(rect@)[i]).0,
                    rect@,
                    self.dims_spec(),
                ) && self@.count(self.hit_order(rect@)[i]) > 0,
            final(visitor).seen().len() >= old(visitor).seen().len(),
            final(visitor).seen() == old(visitor).seen() + self.hit_order(rect@).take(
                final(visitor).seen().len() - old(visitor).seen().len(),
            ),
            final(visitor).answers().len() - old(visitor).answers().len() == final(visitor).seen().len() - old(visitor).seen().len(),
            final(visitor).answers().subrange(0, old(visitor).answers().len() as int) == old(visitor).answers(),
            forall|j: int|
                old(visitor).answers().len() <= j < final(visitor).answers().len() - 1
                    ==> #[trigger] final(visitor).answers()[j],
            completed <==> forall|j: int|
                old(visitor).answers().len() <= j < final(visitor).answers().len()
                    ==> #[trigger] final(visitor).answers()[j],
            completed ==> final(visitor).seen().len() - old(visitor).seen().len() == self.hit_order(rect@).len(),
            !completed ==> final(visitor).answers().len() > old(visitor).answers().len()
                && !final(visitor).answers().last(),
    {
        let found = self.search_items(&rect);
        let ghost o = self.hit_order(rect@);
        let ghost d = self.dims as nat;
        proof {
            lemma_views_items(found@);
            broadcast use vstd::seq_lib::group_to_multiset_ensures;
            assert forall|i: int| 0 <= i < o.len() implies overlaps((#[trigger] o[i]).0, rect@, d)
                && self@.count(o[i]) > 0 by {
                assert(o.contains(o[i]));
                law_search_hits(self@, rect@, d, o[i]);
            }
        }
        let ghost s0 = visitor.seen();
        let ghost a0 = visitor.answers();
        assert(o.len() == found@.len());
        let mut i: usize = 0;
        proof {
            assert(s0 + o.take(0) =~= s0);
            assert(visitor.answers().subrange(0, a0.len() as int) =~= a0);
        }
        while i < found.len()
            invariant
                i <= found@.len(),
                views(found@) == o,
                o == self.hit_order(rect@),
                d == self.dims_spec(),
                o.to_multiset() == hits(self@, rect@, d),
                forall|i: int| 0 <= i < o.len() ==> overlaps((#[trigger] o[i]).0, rect@, d) && self@.count(o[i]) > 0,
                s0 == old(visitor).seen(),
                a0 == old(visitor).answers(),
                o.len() == found@.len(),
                visitor.seen() == s0 + o.take(i as int),
                visitor.answers().len() == a0.len() + i,
                visitor.answers().subrange(0, a0.len() as int) == a0,
                forall|j: int| a0.len() <= j < a0.len() + i ==> #[trigger] visitor.answers()[j],
            decreases found.len() - i,
        {
            let ghost before = visitor.answers();
            let go = visitor.visit(&found[i].rect, &found[i].data);
            proof {
                assert(o[i as int] == item_of(found@[i as int]));
                assert(s0 + o.take(i + 1) =~= (s0 + o.take(i as int)).push(o[i as int]));
                assert(visitor.seen() == s0 + o.take(i + 1));
                assert(visitor.seen().len() == s0.len() + i + 1);
                assert(o.take(i + 1) =~= o.take((visitor.seen().len() - s0.len()) as int));
                assert(visitor.answers().subrange(0, a0.len() as int) =~= before.subrange(0, a0.len() as int));
            }
            if !go {
                assert(!visitor.answers()[(a0.len() + i) as int]);
                return false;
            }
            i += 1;
        }
        proof {
            assert(o.take(i as int) =~= o);
        }
        true
    }
}

/// Removing an item that is not there changes nothing.
proof fn lemma_remove_absent(s: Multiset<(Seq<i64>, Seq<u8>)>, x: (Seq<i64>, Seq<u8>))
    requires
        s.count(x) == 0,
    ensures
        s.remove(x) == s,
{
    broadcast use vstd::multiset::group_multiset_axioms;

    assert forall|v| #[trigger] s.remove(x).count(v) == s.count(v) by {
        if v == x {
            assert(Multiset::singleton(x).count(v) == 1);
        } else {
            assert(Multiset::singleton(x).count(v) == 0);
        }
    }
    assert(s.remove(x) =~= s);
}

/// Inserting an item and then deleting it leaves the stored items as they
/// were, and the deletion finds the item.
pub proof fn law_insert_then_delete(before: Multiset<(Seq<i64>, Seq<u8>)>, x: (Seq<i64>, Seq<u8>))
    ensures
        before.insert(x).count(x) > 0,
        before.insert(x).remove(x) == before,
        before.insert(x).remove(x).len() == before.len(),
{
    broadcast use vstd::multiset::group_multiset_axioms;

    assert forall|v| #[trigger] before.insert(x).remove(x).count(v) == before.count(v) by {
        if v == x {
            assert(Multiset::singleton(x).count(v) == 1);
        } else {
            assert(Multiset::singleton(x).count(v) == 0);
        }
    }
    assert(before.insert(x).remove(x) =~= before);
}

/// The stored items after a run of steps from `s`: a step `(true, x)` is an
/// insertion of `x`, a step `(false, x)` a deletion of `x`.
pub open spec fn replay(s: Multiset<(Seq<i64>, Seq<u8>)>, ops: Seq<(bool, (Seq<i64>, Seq<u8>))>) -> Multiset<
    (Seq<i64>, Seq<u8>),
>
    decreases ops.len(),
{
    if ops.len() == 0 {
        s
    } else {
        let p = replay(s, ops.drop_last());
        if ops.last().0 {
            p.insert(ops.last().1)
        } else {
            p.remove(ops.last().1)
        }
    }
}

/// The number of insertions in a run of steps from `s`, less the number of
/// deletions that found their item.
pub open spec fn net_count(s: Multiset<(Seq<i64>, Seq<u8>)>, ops: Seq<(bool, (Seq<i64>, Seq<u8>))>) -> int
    decreases ops.len(),
{
    if ops.len() == 0 {
        0
    } else {
        let p = replay(s, ops.drop_last());
        net_count(s, ops.drop_last()) + if ops.last().0 {
            1int
        } else if p.count(ops.last().1) > 0 {
            -1int
        } else {
            0int
        }
    }
}

/// After any run of insertions and deletions, the number of stored items is
/// the number there were, plus the insertions, less the deletions that found
/// their item.
pub proof fn law_count(s: Multiset<(Seq<i64>, Seq<u8>)>, ops: Seq<(bool, (Seq<i64>, Seq<u8>))>)
    ensures
        replay(s, ops).len() == s.len() + net_count(s, ops),
    decreases ops.len(),
{
    broadcast use vstd::multiset::group_multiset_axioms;

    if ops.len() > 0 {
        law_count(s, ops.drop_last());
        let p = replay(s, ops.drop_last());
        let x = ops.last().1;
        if !ops.last().0 {
            if p.count(x) == 0 {
                lemma_remove_absent(p, x);
            } else {
                assert(p.remove(x).len() == p.len() - 1);
            }
        }
    }
}

} // verus!
