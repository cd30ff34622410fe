//! Nodes of the tree, the multiset of items that a subtree holds, and its
//! well-formedness: tight bounding rectangles, fan-out bounds and equal leaf depth.
use vstd::prelude::*;
use vstd::multiset::Multiset;
use crate::rect::{
    area, area_of, encloses, join, lemma_encloses_trans, margin, margin_of, union, valid_rect,
};
pub use crate::rect::lemma_join_valid;

verus! {

broadcast use vstd::std_specs::vec::group_vec_axioms, vstd::seq::group_seq_axioms;

/// A stored item: its rectangle and its payload bytes.
pub struct Entry {
    pub rect: Vec<i64>,
    pub data: Vec<u8>,
}

/// An entry of an internal node: a child node and the rectangle that bounds it.
pub struct Child {
    pub rect: Vec<i64>,
    pub node: Node,
}

/// A node holds either items (a leaf) or children (an internal node).
pub enum Node {
    Leaf(Vec<Entry>),
    Inner(Vec<Child>),
}

/// What an item is to the tree's model: its rectangle and its payload.
pub open spec fn item_of(e: Entry) -> (Seq<i64>, Seq<u8>) {
    (e.rect@, e.data@)
}

/// The items of the first `k` leaf entries.
pub open spec fn entries_items(es: Seq<Entry>, k: int) -> Multiset<(Seq<i64>, Seq<u8>)>
    decreases k,
{
    if k <= 0 || k > es.len() {
        Multiset::empty()
    } else {
        entries_items(es, k - 1).insert(item_of(es[k - 1]))
    }
}

/// The items held under the first `k` children.
pub open spec fn kids_items(cs: Seq<Child>, k: int) -> Multiset<(Seq<i64>, Seq<u8>)>
    decreases cs, k,
{
    if k <= 0 || k > cs.len() {
        Multiset::empty()
    } else {
        kids_items(cs, k - 1).add(items(cs[k - 1].node))
    }
}

/// The multiset of items stored in the subtree rooted at `n`.
pub open spec fn items(n: Node) -> Multiset<(Seq<i64>, Seq<u8>)>
    decreases n, 0int,
{
    match n {
        Node::Leaf(es) => entries_items(es@, es@.len() as int),
        Node::Inner(cs) => kids_items(cs@, cs@.len() as int),
    }
}

pub open spec fn opt_items(n: Option<Node>) -> Multiset<(Seq<i64>, Seq<u8>)> {
    match n {
        Some(x) => items(x),
        None => Multiset::empty(),
    }
}

/// The number of entries of a node.
pub open spec fn fan(n: Node) -> nat {
    match n {
        Node::Leaf(es) => es@.len(),
        Node::Inner(cs) => cs@.len(),
    }
}

/// The rectangles of a node's entries, in order.
pub open spec fn rects(n: Node) -> Seq<Seq<i64>> {
    match n {
        Node::Leaf(es) => Seq::new(es@.len(), |i: int| es@[i].rect@),
        Node::Inner(cs) => Seq::new(cs@.len(), |i: int| cs@[i].rect@),
    }
}

/// The bounding rectangle of the first `k` rectangles of `rs` (`k >= 1`).
pub open spec fn bound_upto(rs: Seq<Seq<i64>>, d: nat, k: int) -> Seq<i64>
    decreases k,
{
    if k <= 1 {
        rs[0]
    } else {
        join(bound_upto(rs, d, k - 1), rs[k - 1], d)
    }
}

/// The minimum bounding rectangle of a non-empty node's entries.
pub open spec fn bound(n: Node, d: nat) -> Seq<i64> {
    bound_upto(rects(n), d, fan(n) as int)
}

/// A well-formed subtree of height `h` whose root holds between `lo` and `hi`
/// entries: every rectangle is valid, every child's rectangle is exactly the
/// bounding rectangle of the child, every node below holds between `m` and `hi`
/// entries, and every leaf lies at depth `h`.
pub open spec fn wf(n: Node, d: nat, m: nat, hi: nat, lo: nat, h: nat) -> bool
    decreases n,
{
    &&& lo <= fan(n) <= hi
    &&& match n {
        Node::Leaf(es) => {
            &&& h == 0
            &&& forall|i: int| 0 <= i < es@.len() ==> valid_rect(#[trigger] es@[i].rect@, d)
        },
        Node::Inner(cs) => {
            &&& h > 0
            &&& cs@.len() >= 1
            &&& forall|i: int|
                0 <= i < cs@.len() ==> {
                    &&& valid_rect(#[trigger] cs@[i].rect@, d)
                    &&& wf(cs@[i].node, d, m, hi, m, (h - 1) as nat)
                    &&& cs@[i].rect@ == bound(cs@[i].node, d)
                }
        },
    }
}

/// A child that a well-formed node of height `h + 1` may hold.
pub open spec fn child_ok(c: Child, d: nat, m: nat, hi: nat, h: nat) -> bool {
    &&& valid_rect(c.rect@, d)
    &&& wf(c.node, d, m, hi, m, h)
    &&& c.rect@ == bound(c.node, d)
}

/// The entries of `n` are sound for a node of height `h`, whatever their number.
pub open spec fn entries_ok(n: Node, d: nat, m: nat, hi: nat, h: nat) -> bool {
    match n {
        Node::Leaf(es) => {
            &&& h == 0
            &&& forall|i: int| 0 <= i < es@.len() ==> valid_rect(#[trigger] es@[i].rect@, d)
        },
        Node::Inner(cs) => {
            &&& h > 0
            &&& forall|i: int| 0 <= i < cs@.len() ==> child_ok(#[trigger] cs@[i], d, m, hi, (h - 1) as nat)
        },
    }
}

pub proof fn lemma_wf_entries(n: Node, d: nat, m: nat, hi: nat, lo: nat, h: nat)
    ensures
        wf(n, d, m, hi, lo, h) <==> (lo <= fan(n) <= hi && entries_ok(n, d, m, hi, h) && (
        n is Inner ==> fan(n) >= 1)),
{
    match n {
        Node::Leaf(es) => {},
        Node::Inner(cs) => {
            if wf(n, d, m, hi, lo, h) {
                assert forall|i: int| 0 <= i < cs@.len() implies #[trigger] child_ok(cs@[i], d, m, hi, (h - 1) as nat) by {
                    assert(valid_rect(cs@[i].rect@, d));
                }
            }
            if entries_ok(n, d, m, hi, h) {
                assert forall|i: int| 0 <= i < cs@.len() implies valid_rect(#[trigger] cs@[i].rect@, d) by {
                    assert(child_ok(cs@[i], d, m, hi, (h - 1) as nat));
                }
            }
        },
    }
}

#[verifier::rlimit(40)]
pub proof fn lemma_bound_valid(rs: Seq<Seq<i64>>, d: nat, k: int)
    requires
        1 <= k <= rs.len(),
        forall|i: int| 0 <= i < rs.len() ==> valid_rect(#[trigger] rs[i], d),
    ensures
        valid_rect(bound_upto(rs, d, k), d),
        forall|i: int| 0 <= i < k ==> encloses(bound_upto(rs, d, k), #[trigger] rs[i], d),
    decreases k,
{
    if k > 1 {
        lemma_bound_valid(rs, d, k - 1);
        let p = bound_upto(rs, d, k - 1);
        assert(valid_rect(rs[k - 1], d));
        lemma_join_valid(p, rs[k - 1], d);
        let j = bound_upto(rs, d, k);
        assert forall|i: int| 0 <= i < k implies encloses(j, #[trigger] rs[i], d) by {
            if i < k - 1 {
                lemma_encloses_trans(j, p, rs[i], d);
            }
        }
    } else {
        assert(valid_rect(rs[0], d));
        let r = rs[0];
        assert forall|t: int| #![trigger r[t]] 0 <= t < d implies r[t] <= r[t] && r[d + t] <= r[d + t] by {}
    }
}

/// Splitting a prefix sum of children's items at one child.
pub proof fn lemma_kids_prefix(s: Seq<Child>, t: Seq<Child>, k: int)
    requires
        0 <= k <= s.len(),
        k <= t.len(),
        forall|i: int| 0 <= i < k ==> s[i] == t[i],
    ensures
        kids_items(s, k) == kids_items(t, k),
    decreases k,
{
    if k > 0 {
        lemma_kids_prefix(s, t, k - 1);
    }
}

pub proof fn lemma_entries_prefix(s: Seq<Entry>, t: Seq<Entry>, k: int)
    requires
        0 <= k <= s.len(),
        k <= t.len(),
        forall|i: int| 0 <= i < k ==> s[i] == t[i],
    ensures
        entries_items(s, k) == entries_items(t, k),
    decreases k,
{
    if k > 0 {
        lemma_entries_prefix(s, t, k - 1);
    }
}

/// The first `k` entries hold `k` items.
pub proof fn lemma_entries_len(s: Seq<Entry>, k: int)
    requires
        0 <= k <= s.len(),
    ensures
        entries_items(s, k).len() == k,
    decreases k,
{
    broadcast use vstd::multiset::group_multiset_axioms;

    if k > 0 {
        lemma_entries_len(s, k - 1);
    }
}

pub proof fn lemma_kids_push(s: Seq<Child>, c: Child)
    ensures
        kids_items(s.push(c), s.len() + 1int) == kids_items(s, s.len() as int).add(items(c.node)),
{
    lemma_kids_prefix(s, s.push(c), s.len() as int);
}

pub proof fn lemma_entries_push(s: Seq<Entry>, e: Entry)
    ensures
        entries_items(s.push(e), s.len() + 1int) == entries_items(s, s.len() as int).insert(
            item_of(e),
        ),
{
    lemma_entries_prefix(s, s.push(e), s.len() as int);
}

/// Removing the child at `i` takes its items out of the sum.
pub proof fn lemma_kids_remove(s: Seq<Child>, i: int)
    requires
        0 <= i < s.len(),
    ensures
        kids_items(s.remove(i), s.len() - 1).add(items(s[i].node)) == kids_items(
            s,
            s.len() as int,
        ),
    decreases s.len(),
{
    let r = s.remove(i);
    if i == s.len() - 1 {
        lemma_kids_prefix(r, s, s.len() - 1);
    } else {
        let s0 = s.drop_last();
        lemma_kids_remove(s0, i);
        assert(s0.remove(i).push(s.last()) =~= r);
        lemma_kids_push(s0.remove(i), s.last());
        lemma_kids_push(s0, s.last());
        assert(s0.push(s.last()) =~= s);
        broadcast use vstd::multiset::group_multiset_axioms;
        assert(kids_items(r, s.len() - 1) =~= kids_items(s0.remove(i), s0.len() - 1).add(
            items(s.last().node),
        ));
        assert(kids_items(r, s.len() - 1).add(items(s[i].node)) =~= kids_items(
            s,
            s.len() as int,
        ));
    }
}

/// Puts `c` at position `i` of `cs`: the items under `cs` gain those of `c`.
pub proof fn lemma_kids_insert(cs: Seq<Child>, i: int, c: Child)
    requires
        0 <= i <= cs.len(),
    ensures
        kids_items(cs.insert(i, c), cs.len() + 1int) == kids_items(cs, cs.len() as int).add(
            items(c.node),
        ),
{
    let t = cs.insert(i, c);
    lemma_kids_remove(t, i);
    assert(t.remove(i) =~= cs);
}

pub proof fn lemma_entries_remove(s: Seq<Entry>, i: int)
    requires
        0 <= i < s.len(),
    ensures
        entries_items(s.remove(i), s.len() - 1).insert(item_of(s[i])) == entries_items(
            s,
            s.len() as int,
        ),
    decreases s.len(),
{
    let r = s.remove(i);
    if i == s.len() - 1 {
        lemma_entries_prefix(r, s, s.len() - 1);
    } else {
        let s0 = s.drop_last();
        lemma_entries_remove(s0, i);
        assert(s0.remove(i).push(s.last()) =~= r);
        lemma_entries_push(s0.remove(i), s.last());
        lemma_entries_push(s0, s.last());
        assert(s0.push(s.last()) =~= s);
        broadcast use vstd::multiset::group_multiset_axioms;
        assert(entries_items(r, s.len() - 1).insert(item_of(s[i])) =~= entries_items(
            s,
            s.len() as int,
        ));
    }
}

/// Every entry rectangle of `n` is valid.
pub open spec fn rects_valid(n: Node, d: nat) -> bool {
    forall|i: int| 0 <= i < fan(n) ==> valid_rect(#[trigger] rects(n)[i], d)
}

/// A copy of a rectangle.
pub fn copy_rect(r: &Vec<i64>) -> (res: Vec<i64>)
    ensures
        res@ == r@,
{
    let mut res: Vec<i64> = Vec::new();
    let mut i: usize = 0;
    while i < r.len()
        invariant
            i <= r@.len(),
            res@ == r@.subrange(0, i as int),
        decreases r.len() - i,
    {
        res.push(r[i]);
        i += 1;
        assert(res@ =~= r@.subrange(0, i as int));
    }
    assert(res@ =~= r@);
    res
}

/// A copy of a byte payload.
pub fn copy_bytes(b: &Vec<u8>) -> (res: Vec<u8>)
    ensures
        res@ == b@,
{
    let mut res: Vec<u8> = Vec::new();
    let mut i: usize = 0;
    while i < b.len()
        invariant
            i <= b@.len(),
            res@ == b@.subrange(0, i as int),
        decreases b.len() - i,
    {
        res.push(b[i]);
        i += 1;
        assert(res@ =~= b@.subrange(0, i as int));
    }
    assert(res@ =~= b@);
    res
}

/// The rectangle of the `i`-th entry of `n`.
pub fn entry_rect(n: &Node, i: usize) -> (res: &Vec<i64>)
    requires
        i < fan(*n),
    ensures
        res@ == rects(*n)[i as int],
{
    match n {
        Node::Leaf(es) => &es[i].rect,
        Node::Inner(cs) => &cs[i].rect,
    }
}

/// The number of entries of `n`.
pub fn fan_out(n: &Node) -> (res: usize)
    ensures
        res == fan(*n),
{
    match n {
        Node::Leaf(es) => es.len(),
        Node::Inner(cs) => cs.len(),
    }
}

/// The minimum bounding rectangle of a non-empty node's entries.
pub fn node_rect(n: &Node, d: usize) -> (res: Vec<i64>)
    requires
        fan(*n) >= 1,
        rects_valid(*n, d as nat),
    ensures
        res@ == bound(*n, d as nat),
        valid_rect(res@, d as nat),
{
    let len = fan_out(n);
    let mut acc = copy_rect(entry_rect(n, 0));
    let mut i: usize = 1;
    proof {
        lemma_bound_valid(rects(*n), d as nat, 1);
    }
    while i < len
        invariant
            len == fan(*n),
            1 <= i <= len,
            rects_valid(*n, d as nat),
            acc@ == bound_upto(rects(*n), d as nat, i as int),
        decreases len - i,
    {
        proof {
            lemma_bound_valid(rects(*n), d as nat, i as int);
            assert(valid_rect(rects(*n)[i as int], d as nat));
        }
        acc = union(&acc, entry_rect(n, i), d);
        i += 1;
    }
    proof {
        lemma_bound_valid(rects(*n), d as nat, len as int);
    }
    acc
}

/// `a - b`, or zero where `b` is the larger.
pub open spec fn sat_sub(a: int, b: int) -> int {
    if a >= b { a - b } else { 0 }
}

/// The cost of growing `r` to cover `add`: the growth in area, then the growth
/// in margin, then the area after growing.
pub open spec fn growth_of(r: Seq<i64>, add: Seq<i64>, d: nat) -> (int, int, int) {
    let u = join(r, add, d);
    (sat_sub(area_of(u, d), area_of(r, d)), sat_sub(margin_of(u, d), margin_of(r, d)), area_of(u, d))
}

/// Cost `a` is strictly below cost `b`, compared component by component in order.
pub open spec fn lex_less(a: (int, int, int), b: (int, int, int)) -> bool {
    a.0 < b.0 || (a.0 == b.0 && (a.1 < b.1 || (a.1 == b.1 && a.2 < b.2)))
}

/// The cost of growing `r` to cover `add`.
pub fn growth(r: &Vec<i64>, add: &Vec<i64>, d: usize) -> (res: (u128, u128, u128))
    requires
        valid_rect(r@, d as nat),
        valid_rect(add@, d as nat),
    ensures
        (res.0 as int, res.1 as int, res.2 as int) == growth_of(r@, add@, d as nat),
{
    proof {
        lemma_join_valid(r@, add@, d as nat);
    }
    let u = union(r, add, d);
    let au = area(&u, d);
    let ar = area(r, d);
    let mu = margin(&u, d);
    let mr = margin(r, d);
    (if au >= ar { au - ar } else { 0 }, if mu >= mr { mu - mr } else { 0 }, au)
}

/// Whether cost `a` is strictly below cost `b`.
pub fn cheaper(a: (u128, u128, u128), b: (u128, u128, u128)) -> (res: bool)
    ensures
        res == lex_less((a.0 as int, a.1 as int, a.2 as int), (b.0 as int, b.1 as int, b.2 as int)),
{
    a.0 < b.0 || (a.0 == b.0 && (a.1 < b.1 || (a.1 == b.1 && a.2 < b.2)))
}

/// The child to descend into for a new rectangle: the one whose rectangle grows
/// least, the first of equals.
pub fn choose_subtree(cs: &Vec<Child>, r: &Vec<i64>, d: usize) -> (res: usize)
    requires
        cs@.len() >= 1,
        forall|i: int| 0 <= i < cs@.len() ==> valid_rect(#[trigger] cs@[i].rect@, d as nat),
        valid_rect(r@, d as nat),
    ensures
        res < cs@.len(),
        forall|j: int|
            0 <= j < cs@.len() ==> !lex_less(
                #[trigger] growth_of(cs@[j].rect@, r@, d as nat),
                growth_of(cs@[res as int].rect@, r@, d as nat),
            ),
        forall|j: int|
            0 <= j < res ==> lex_less(
                growth_of(cs@[res as int].rect@, r@, d as nat),
                #[trigger] growth_of(cs@[j].rect@, r@, d as nat),
            ),
{
    let mut best: usize = 0;
    let mut best_cost = growth(&cs[0].rect, r, d);
    let mut i: usize = 1;
    while i < cs.len()
        invariant
            forall|i: int| 0 <= i < cs@.len() ==> valid_rect(#[trigger] cs@[i].rect@, d as nat),
            valid_rect(r@, d as nat),
            1 <= i <= cs@.len(),
            best < i,
            (best_cost.0 as int, best_cost.1 as int, best_cost.2 as int) == growth_of(
                cs@[best as int].rect@,
                r@,
                d as nat,
            ),
            forall|j: int|
                0 <= j < i ==> !lex_less(
                    #[trigger] growth_of(cs@[j].rect@, r@, d as nat),
                    growth_of(cs@[best as int].rect@, r@, d as nat),
                ),
            forall|j: int|
                0 <= j < best ==> lex_less(
                    growth_of(cs@[best as int].rect@, r@, d as nat),
                    #[trigger] growth_of(cs@[j].rect@, r@, d as nat),
                ),
        decreases cs.len() - i,
    {
        let c = growth(&cs[i].rect, r, d);
        if cheaper(c, best_cost) {
            best = i;
            best_cost = c;
        }
        i += 1;
    }
    best
}

pub proof fn lemma_wf_rects(n: Node, d: nat, m: nat, hi: nat, lo: nat, h: nat)
    requires
        wf(n, d, m, hi, lo, h),
    ensures
        rects_valid(n, d),
        n is Inner ==> fan(n) >= 1,
{
    match n {
        Node::Leaf(es) => {
            assert forall|i: int| 0 <= i < fan(n) implies valid_rect(#[trigger] rects(n)[i], d) by {
                assert(valid_rect(es@[i].rect@, d));
            }
        },
        Node::Inner(cs) => {
            assert forall|i: int| 0 <= i < fan(n) implies valid_rect(#[trigger] rects(n)[i], d) by {
                assert(valid_rect(cs@[i].rect@, d));
            }
        },
    }
}

pub proof fn lemma_entries_member(es: Seq<Entry>, k: int, v: (Seq<i64>, Seq<u8>))
    requires
        0 <= k <= es.len(),
        entries_items(es, k).count(v) > 0,
    ensures
        exists|i: int| 0 <= i < k && #[trigger] item_of(es[i]) == v,
    decreases k,
{
    broadcast use vstd::multiset::group_multiset_axioms;

    if k > 0 {
        if item_of(es[k - 1]) != v {
            lemma_entries_member(es, k - 1, v);
        }
    }
}

pub proof fn lemma_kids_member(cs: Seq<Child>, k: int, v: (Seq<i64>, Seq<u8>))
    requires
        0 <= k <= cs.len(),
        kids_items(cs, k).count(v) > 0,
    ensures
        exists|i: int| 0 <= i < k && #[trigger] items(cs[i].node).count(v) > 0,
    decreases k,
{
    broadcast use vstd::multiset::group_multiset_axioms;

    if k > 0 {
        if items(cs[k - 1].node).count(v) == 0 {
            lemma_kids_member(cs, k - 1, v);
        }
    }
}

/// Every item of a non-empty well-formed subtree lies within its bounding rectangle.
pub proof fn lemma_items_enclosed(n: Node, d: nat, m: nat, hi: nat, lo: nat, h: nat, v: (Seq<i64>, Seq<u8>))
    requires
        wf(n, d, m, hi, lo, h),
        items(n).count(v) > 0,
    ensures
        fan(n) >= 1,
        encloses(bound(n, d), v.0, d),
        valid_rect(v.0, d),
    decreases n,
{
    lemma_wf_rects(n, d, m, hi, lo, h);
    match n {
        Node::Leaf(es) => {
            lemma_entries_member(es@, es@.len() as int, v);
            let i = choose|i: int| 0 <= i < es@.len() && #[trigger] item_of(es@[i]) == v;
            lemma_bound_valid(rects(n), d, fan(n) as int);
            assert(rects(n)[i] == v.0);
            assert(valid_rect(es@[i].rect@, d));
        },
        Node::Inner(cs) => {
            lemma_kids_member(cs@, cs@.len() as int, v);
            let i = choose|i: int| 0 <= i < cs@.len() && #[trigger] items(cs@[i].node).count(v) > 0;
            assert(valid_rect(cs@[i].rect@, d));
            assert(wf(cs@[i].node, d, m, hi, m, (h - 1) as nat));
            lemma_items_enclosed(cs@[i].node, d, m, hi, m, (h - 1) as nat, v);
            lemma_bound_valid(rects(n), d, fan(n) as int);
            assert(rects(n)[i] == cs@[i].rect@);
            lemma_encloses_trans(bound(n, d), cs@[i].rect@, v.0, d);
        },
    }
}

} // verus!
