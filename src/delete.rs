//! Deletion: find the item in every subtree whose rectangle overlaps it,
//! remove it, dissolve the nodes that fall below the minimum fan-out and hand
//! their items back for reinsertion.
use vstd::prelude::*;
use vstd::multiset::Multiset;
use crate::rect::{intersects, lemma_enclosed_overlaps, same_bytes, same_rect, valid_rect};
use crate::node::{
    Child, Entry, Node, child_ok, entries_items, entries_ok, fan, fan_out, item_of, items,
    kids_items, lemma_entries_member, lemma_entries_push, lemma_entries_remove,
    lemma_items_enclosed, lemma_kids_insert, lemma_kids_member, lemma_kids_remove,
    lemma_wf_entries, lemma_wf_rects, node_rect, wf,
};

verus! {

broadcast use vstd::std_specs::vec::group_vec_axioms, vstd::seq::group_seq_axioms;

/// Every entry of `s` has a valid rectangle.
pub open spec fn all_valid(s: Seq<Entry>, d: nat) -> bool {
    forall|i: int| 0 <= i < s.len() ==> valid_rect(#[trigger] s[i].rect@, d)
}

/// Moves every item below `n` into `out`.
pub fn drain(
    n: Node,
    out: &mut Vec<Entry>,
    Ghost(d): Ghost<nat>,
    Ghost(m): Ghost<nat>,
    Ghost(hi): Ghost<nat>,
    Ghost(h): Ghost<nat>,
)
    requires
        entries_ok(n, d, m, hi, h),
        all_valid(old(out)@, d),
    ensures
        entries_items(final(out)@, final(out)@.len() as int) == entries_items(
            old(out)@,
            old(out)@.len() as int,
        ).add(items(n)),
        all_valid(final(out)@, d),
    decreases h,
{
    let ghost out0 = entries_items(out@, out@.len() as int);
    match n {
        Node::Leaf(es) => {
            let ghost orig = es@;
            let mut es = es;
            proof {
                broadcast use vstd::multiset::group_multiset_axioms;
                assert(es@.subrange(0, es@.len() as int) =~= es@);
                assert(entries_items(out@, out@.len() as int).add(entries_items(es@, es@.len() as int)) =~= out0.add(items(n)));
            }
            while es.len() > 0
                invariant
                    es@ == orig.subrange(0, es@.len() as int),
                    es@.len() <= orig.len(),
                    forall|i: int| 0 <= i < orig.len() ==> valid_rect(#[trigger] orig[i].rect@, d),
                    all_valid(out@, d),
                    entries_items(out@, out@.len() as int).add(entries_items(orig, es@.len() as int)) == out0.add(items(n)),
                decreases es.len(),
            {
                let ghost k = es@.len() as int;
                let e = es.pop().unwrap();
                proof {
                    assert(e == orig[k - 1]);
                    lemma_entries_push(out@, e);
                    broadcast use vstd::multiset::group_multiset_axioms;
                    assert(entries_items(out@.push(e), out@.len() + 1int).add(entries_items(orig, k - 1))
                        =~= entries_items(out@, out@.len() as int).add(entries_items(orig, k)));
                }
                out.push(e);
            }
            proof {
                broadcast use vstd::multiset::group_multiset_axioms;
                assert(entries_items(out@, out@.len() as int).add(entries_items(orig, 0)) =~= entries_items(out@, out@.len() as int));
            }
        },
        Node::Inner(cs) => {
            let ghost orig = cs@;
            let mut cs = cs;
            proof {
                broadcast use vstd::multiset::group_multiset_axioms;
                assert(cs@.subrange(0, cs@.len() as int) =~= cs@);
                assert(entries_items(out@, out@.len() as int).add(kids_items(cs@, cs@.len() as int)) =~= out0.add(items(n)));
            }
            while cs.len() > 0
                invariant
                    h > 0,
                    cs@ == orig.subrange(0, cs@.len() as int),
                    cs@.len() <= orig.len(),
                    forall|i: int| 0 <= i < orig.len() ==> child_ok(#[trigger] orig[i], d, m, hi, (h - 1) as nat),
                    all_valid(out@, d),
                    entries_items(out@, out@.len() as int).add(kids_items(orig, cs@.len() as int)) == out0.add(items(n)),
                decreases cs.len(),
            {
                let ghost k = cs@.len() as int;
                let ghost before = entries_items(out@, out@.len() as int);
                let c = cs.pop().unwrap();
                proof {
                    assert(c == orig[k - 1]);
                    assert(child_ok(orig[k - 1], d, m, hi, (h - 1) as nat));
                    lemma_wf_entries(c.node, d, m, hi, m, (h - 1) as nat);
                }
                drain(c.node, out, Ghost(d), Ghost(m), Ghost(hi), Ghost((h - 1) as nat));
                proof {
                    broadcast use vstd::multiset::group_multiset_axioms;
                    assert(entries_items(out@, out@.len() as int).add(kids_items(orig, k - 1))
                        =~= before.add(kids_items(orig, k)));
                }
            }
            proof {
                broadcast use vstd::multiset::group_multiset_axioms;
                assert(entries_items(out@, out@.len() as int).add(kids_items(orig, 0)) =~= entries_items(out@, out@.len() as int));
            }
        },
    }
}

proof fn lemma_kid_present(cs: Seq<Child>, i: int, x: (Seq<i64>, Seq<u8>))
    requires
        0 <= i < cs.len(),
        items(cs[i].node).count(x) > 0,
    ensures
        kids_items(cs, cs.len() as int).count(x) > 0,
{
    lemma_kids_remove(cs, i);
    broadcast use vstd::multiset::group_multiset_axioms;
}

/// A child whose rectangle does not overlap `x`'s rectangle does not hold `x`.
proof fn lemma_pruned_absent(c: Child, x: (Seq<i64>, Seq<u8>), d: nat, m: nat, hi: nat, h: nat)
    requires
        child_ok(c, d, m, hi, h),
        x.0.len() == 2 * d,
        !crate::rect::overlaps(c.rect@, x.0, d),
    ensures
        items(c.node).count(x) == 0,
{
    if items(c.node).count(x) > 0 {
        lemma_items_enclosed(c.node, d, m, hi, m, h, x);
        lemma_enclosed_overlaps(c.rect@, x.0, d);
    }
}

/// Whether the subtree `n` holds the item `(r, data)`, looking only below
/// children whose rectangle overlaps `r`.
pub fn holds(
    n: &Node,
    r: &Vec<i64>,
    data: &Vec<u8>,
    d: usize,
    Ghost(m): Ghost<nat>,
    Ghost(hi): Ghost<nat>,
    Ghost(lo): Ghost<nat>,
    Ghost(h): Ghost<nat>,
) -> (res: bool)
    requires
        wf(*n, d as nat, m, hi, lo, h),
        r@.len() == 2 * d,
    ensures
        res == (items(*n).count((r@, data@)) > 0),
    decreases h,
{
    let ghost x: (Seq<i64>, Seq<u8>) = (r@, data@);
    match n {
        Node::Leaf(es) => {
            let mut i: usize = 0;
            while i < es.len()
                invariant
                    x == (r@, data@),
                    *n == Node::Leaf(*es),
                    i <= es@.len(),
                    forall|j: int| 0 <= j < i ==> #[trigger] item_of(es@[j]) != x,
                decreases es.len() - i,
            {
                let sr = same_rect(&es[i].rect, r);
                let sb = same_bytes(&es[i].data, data);
                if sr && sb {
                    proof {
                        lemma_entries_remove(es@, i as int);
                        broadcast use vstd::multiset::group_multiset_axioms;
                        assert(item_of(es@[i as int]) == x);
                    }
                    return true;
                }
                assert(item_of(es@[i as int]) != x);
                i += 1;
            }
            proof {
                if items(*n).count(x) > 0 {
                    lemma_entries_member(es@, es@.len() as int, x);
                }
            }
            false
        },
        Node::Inner(cs) => {
            let mut i: usize = 0;
            while i < cs.len()
                invariant
                    x == (r@, data@),
                    wf(*n, d as nat, m, hi, lo, h),
                    *n == Node::Inner(*cs),
                    r@.len() == 2 * d,
                    i <= cs@.len(),
                    forall|j: int| 0 <= j < i ==> #[trigger] items(cs@[j].node).count(x) == 0,
                decreases cs.len() - i,
            {
                assert(valid_rect(cs@[i as int].rect@, d as nat));
                assert(wf(cs@[i as int].node, d as nat, m, hi, m, (h - 1) as nat));
                if intersects(&cs[i].rect, r, d) {
                    if holds(&cs[i].node, r, data, d, Ghost(m), Ghost(hi), Ghost(m), Ghost((h - 1) as nat)) {
                        proof {
                            lemma_kid_present(cs@, i as int, x);
                        }
                        return true;
                    }
                } else {
                    proof {
                        lemma_pruned_absent(cs@[i as int], x, d as nat, m, hi, (h - 1) as nat);
                    }
                }
                i += 1;
            }
            proof {
                if items(*n).count(x) > 0 {
                    lemma_kids_member(cs@, cs@.len() as int, x);
                }
            }
            false
        },
    }
}

/// Multiset bookkeeping for removing one item below one child.
proof fn lemma_remove_sum(
    whole: Multiset<(Seq<i64>, Seq<u8>)>,
    rest: Multiset<(Seq<i64>, Seq<u8>)>,
    part: Multiset<(Seq<i64>, Seq<u8>)>,
    got: Multiset<(Seq<i64>, Seq<u8>)>,
    orphans: Multiset<(Seq<i64>, Seq<u8>)>,
    now: Multiset<(Seq<i64>, Seq<u8>)>,
    x: (Seq<i64>, Seq<u8>),
)
    requires
        whole == rest.add(part),
        part.count(x) > 0,
        got.add(orphans) == part.remove(x),
        now == rest.add(got).add(orphans),
    ensures
        now == whole.remove(x),
{
    broadcast use vstd::multiset::group_multiset_axioms;

    assert forall|v| #[trigger] now.count(v) == whole.remove(x).count(v) by {
        assert(got.add(orphans).count(v) == part.remove(x).count(v));
        assert(now.count(v) == rest.count(v) + got.count(v) + orphans.count(v));
        assert(whole.count(v) == rest.count(v) + part.count(v));
        if v == x {
            assert(Multiset::singleton(x).count(v) == 1);
        } else {
            assert(Multiset::singleton(x).count(v) == 0);
        }
        assert(part.remove(x).count(v) == part.count(v) - Multiset::singleton(x).count(v));
        assert(whole.remove(x).count(v) == whole.count(v) - Multiset::singleton(x).count(v));
    }
    assert(now =~= whole.remove(x));
}

/// Removes one copy of the item `(r, data)`, which the subtree holds. A child
/// left with fewer than `m` entries is taken out, and its items join those
/// handed back for reinsertion.
pub fn remove_rec(
    n: Node,
    r: &Vec<i64>,
    data: &Vec<u8>,
    d: usize,
    m: usize,
    Ghost(hi): Ghost<nat>,
    Ghost(lo): Ghost<nat>,
    Ghost(h): Ghost<nat>,
) -> (res: (Node, Vec<Entry>))
    requires
        1 <= m,
        wf(n, d as nat, m as nat, hi, lo, h),
        r@.len() == 2 * d,
        items(n).count((r@, data@)) > 0,
    ensures
        items(res.0).add(entries_items(res.1@, res.1@.len() as int)) == items(n).remove(
            (r@, data@),
        ),
        entries_ok(res.0, d as nat, m as nat, hi, h),
        fan(res.0) <= hi,
        fan(res.0) + 1 >= fan(n),
        all_valid(res.1@, d as nat),
    decreases h, 1int,
{
    let ghost x: (Seq<i64>, Seq<u8>) = (r@, data@);
    match n {
        Node::Leaf(es) => remove_leaf(es, r, data, d, Ghost(m as nat), Ghost(hi), Ghost(lo)),
        Node::Inner(cs) => remove_inner(cs, r, data, d, m, Ghost(hi), Ghost(lo), Ghost(h)),
    }
}

/// Removes one copy of the item `(r, data)` from a leaf that holds it.
fn remove_leaf(
    es: Vec<Entry>,
    r: &Vec<i64>,
    data: &Vec<u8>,
    d: usize,
    Ghost(m): Ghost<nat>,
    Ghost(hi): Ghost<nat>,
    Ghost(lo): Ghost<nat>,
) -> (res: (Node, Vec<Entry>))
    requires
        wf(Node::Leaf(es), d as nat, m, hi, lo, 0),
        items(Node::Leaf(es)).count((r@, data@)) > 0,
    ensures
        items(res.0).add(entries_items(res.1@, res.1@.len() as int)) == items(
            Node::Leaf(es),
        ).remove((r@, data@)),
        entries_ok(res.0, d as nat, m, hi, 0),
        fan(res.0) <= hi,
        fan(res.0) + 1 >= es@.len(),
        all_valid(res.1@, d as nat),
{
    let ghost x: (Seq<i64>, Seq<u8>) = (r@, data@);
    let ghost old_es = es@;
    let mut es = es;
    let mut i: usize = 0;
    loop
        invariant
            x == (r@, data@),
            es@ == old_es,
            entries_items(old_es, old_es.len() as int).count(x) > 0,
            i < es@.len(),
            forall|j: int| 0 <= j < i ==> #[trigger] item_of(es@[j]) != x,
        ensures
            i < es@.len(),
            es@ == old_es,
            item_of(es@[i as int]) == x,
        decreases es.len() - i,
    {
        let sr = same_rect(&es[i].rect, r);
        let sb = same_bytes(&es[i].data, data);
        if sr && sb {
            assert(item_of(es@[i as int]) == x);
            break;
        }
        proof {
            assert(item_of(es@[i as int]) != x);
            if i + 1 == es@.len() {
                lemma_entries_member(es@, es@.len() as int, x);
            }
        }
        i += 1;
    }
    assert(item_of(es@[i as int]) == x);
    es.remove(i);
    proof {
        lemma_entries_remove(old_es, i as int);
        broadcast use vstd::multiset::group_multiset_axioms;
    }
    let orph: Vec<Entry> = Vec::new();
    let res = Node::Leaf(es);
    proof {
        broadcast use vstd::multiset::group_multiset_axioms;
        assert(entries_items(es@, es@.len() as int) =~= entries_items(old_es, old_es.len() as int).remove(x));
        assert(items(res).add(entries_items(orph@, 0)) =~= items(res));
        assert forall|j: int| 0 <= j < es@.len() implies valid_rect(#[trigger] es@[j].rect@, d as nat) by {
            if j < i {
                assert(es@[j] == old_es[j]);
            } else {
                assert(es@[j] == old_es[j + 1]);
            }
        }
    }
    (res, orph)
}

/// Removes the item below the first child that holds it, then condenses.
#[verifier::rlimit(60)]
fn remove_inner(
    cs: Vec<Child>,
    r: &Vec<i64>,
    data: &Vec<u8>,
    d: usize,
    m: usize,
    Ghost(hi): Ghost<nat>,
    Ghost(lo): Ghost<nat>,
    Ghost(h): Ghost<nat>,
) -> (res: (Node, Vec<Entry>))
    requires
        1 <= m,
        wf(Node::Inner(cs), d as nat, m as nat, hi, lo, h),
        r@.len() == 2 * d,
        items(Node::Inner(cs)).count((r@, data@)) > 0,
    ensures
        items(res.0).add(entries_items(res.1@, res.1@.len() as int)) == items(
            Node::Inner(cs),
        ).remove((r@, data@)),
        entries_ok(res.0, d as nat, m as nat, hi, h),
        fan(res.0) <= hi,
        fan(res.0) + 1 >= cs@.len(),
        all_valid(res.1@, d as nat),
    decreases h, 0int,
{
    let ghost x: (Seq<i64>, Seq<u8>) = (r@, data@);
    let ghost old_cs = cs@;
    let ghost hc = (h - 1) as nat;
    let ghost n = Node::Inner(cs);
    proof {
        lemma_wf_entries(n, d as nat, m as nat, hi, lo, h);
    }
    let mut cs = cs;
    let mut i: usize = 0;
    loop
        invariant
            x == (r@, data@),
            cs@ == old_cs,
            r@.len() == 2 * d,
            hc == h - 1,
            h > 0,
            kids_items(old_cs, old_cs.len() as int).count(x) > 0,
            forall|j: int| 0 <= j < old_cs.len() ==> #[trigger] child_ok(old_cs[j], d as nat, m as nat, hi, hc),
            i < cs@.len(),
            forall|j: int| 0 <= j < i ==> #[trigger] items(cs@[j].node).count(x) == 0,
        ensures
            i < cs@.len(),
            cs@ == old_cs,
            items(cs@[i as int].node).count(x) > 0,
        decreases cs.len() - i,
    {
        assert(child_ok(cs@[i as int], d as nat, m as nat, hi, hc));
        if intersects(&cs[i].rect, r, d) {
            if holds(&cs[i].node, r, data, d, Ghost(m as nat), Ghost(hi), Ghost(m as nat), Ghost(hc)) {
                break;
            }
        } else {
            proof {
                lemma_pruned_absent(cs@[i as int], x, d as nat, m as nat, hi, hc);
            }
        }
        proof {
            if i + 1 == cs@.len() {
                lemma_kids_member(cs@, cs@.len() as int, x);
            }
        }
        i += 1;
    }
    let c = cs.remove(i);
    proof {
        lemma_kids_remove(old_cs, i as int);
        assert(child_ok(c, d as nat, m as nat, hi, hc));
    }
    let ghost mid = cs@;
    let (c2, orph) = remove_rec(c.node, r, data, d, m, Ghost(hi), Ghost(m as nat), Ghost(hc));
    let ghost orph0 = entries_items(orph@, orph@.len() as int);
    let mut orph = orph;
    if fan_out(&c2) < m {
        drain(c2, &mut orph, Ghost(d as nat), Ghost(m as nat), Ghost(hi), Ghost(hc));
        proof {
            broadcast use vstd::multiset::group_multiset_axioms;
            lemma_remove_sum(
                kids_items(old_cs, old_cs.len() as int),
                kids_items(mid, mid.len() as int),
                items(c.node),
                items(c2),
                orph0,
                kids_items(cs@, cs@.len() as int).add(items(c2)).add(orph0),
                x,
            );
            assert(kids_items(cs@, cs@.len() as int).add(entries_items(orph@, orph@.len() as int))
                =~= kids_items(cs@, cs@.len() as int).add(items(c2)).add(orph0));
        }
    } else {
        proof {
            lemma_wf_entries(c2, d as nat, m as nat, hi, m as nat, hc);
            lemma_wf_rects(c2, d as nat, m as nat, hi, m as nat, hc);
        }
        let rc = node_rect(&c2, d);
        let k2 = Child { rect: rc, node: c2 };
        cs.insert(i, k2);
        proof {
            lemma_kids_insert(mid, i as int, k2);
            assert(child_ok(k2, d as nat, m as nat, hi, hc));
            lemma_remove_sum(
                kids_items(old_cs, old_cs.len() as int),
                kids_items(mid, mid.len() as int),
                items(c.node),
                items(c2),
                orph0,
                kids_items(cs@, cs@.len() as int).add(orph0),
                x,
            );
        }
    }
    let res = Node::Inner(cs);
    assert(entries_ok(res, d as nat, m as nat, hi, h)) by {
        assert forall|j: int| 0 <= j < cs@.len() implies #[trigger] child_ok(cs@[j], d as nat, m as nat, hi, hc) by {
            let shift = old_cs.len() - cs@.len();
            if j < i {
                assert(cs@[j] == old_cs[j]);
            } else if j > i || shift == 1 {
                assert(cs@[j] == old_cs[j + shift]);
            }
        }
    }
    (res, orph)
}

} // verus!
