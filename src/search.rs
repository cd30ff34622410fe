//! Pruned search: the items whose rectangle overlaps a query rectangle.
use vstd::prelude::*;
use vstd::multiset::Multiset;
use crate::rect::{intersects, lemma_overlap_grows, overlaps, valid_rect};
use crate::node::{
    Child, Entry, Node, copy_bytes, copy_rect, entries_items, item_of, items, kids_items,
    lemma_entries_push, lemma_items_enclosed, wf,
};

verus! {

broadcast use vstd::std_specs::vec::group_vec_axioms, vstd::seq::group_seq_axioms;

/// The items of `s` whose rectangle overlaps `q`.
pub open spec fn hits(s: Multiset<(Seq<i64>, Seq<u8>)>, q: Seq<i64>, d: nat) -> Multiset<
    (Seq<i64>, Seq<u8>),
> {
    s.filter(|v: (Seq<i64>, Seq<u8>)| overlaps(v.0, q, d))
}

/// Search completeness: an item is among the hits of a query exactly as often
/// as it is stored when its rectangle overlaps the query, and never otherwise.
pub proof fn law_search_hits(s: Multiset<(Seq<i64>, Seq<u8>)>, q: Seq<i64>, d: nat, v: (Seq<i64>, Seq<u8>))
    ensures
        hits(s, q, d).count(v) == if overlaps(v.0, q, d) { s.count(v) } else { 0 },
{
    broadcast use vstd::multiset::group_multiset_axioms;

}

proof fn lemma_hits_add(a: Multiset<(Seq<i64>, Seq<u8>)>, b: Multiset<(Seq<i64>, Seq<u8>)>, q: Seq<i64>, d: nat)
    ensures
        hits(a.add(b), q, d) == hits(a, q, d).add(hits(b, q, d)),
{
    broadcast use vstd::multiset::group_multiset_axioms;

    assert forall|v| #[trigger] hits(a.add(b), q, d).count(v) == hits(a, q, d).add(hits(b, q, d)).count(v) by {
        law_search_hits(a.add(b), q, d, v);
        law_search_hits(a, q, d, v);
        law_search_hits(b, q, d, v);
    }
    assert(hits(a.add(b), q, d) =~= hits(a, q, d).add(hits(b, q, d)));
}

proof fn lemma_hits_insert(a: Multiset<(Seq<i64>, Seq<u8>)>, x: (Seq<i64>, Seq<u8>), q: Seq<i64>, d: nat)
    ensures
        hits(a.insert(x), q, d) == if overlaps(x.0, q, d) { hits(a, q, d).insert(x) } else { hits(a, q, d) },
{
    broadcast use vstd::multiset::group_multiset_axioms;

    assert forall|v| #[trigger] hits(a.insert(x), q, d).count(v) == (if overlaps(x.0, q, d) { hits(a, q, d).insert(x) } else { hits(a, q, d) }).count(v) by {
        law_search_hits(a.insert(x), q, d, v);
        law_search_hits(a, q, d, v);
    }
    assert(hits(a.insert(x), q, d) =~= if overlaps(x.0, q, d) { hits(a, q, d).insert(x) } else { hits(a, q, d) });
}

/// The items of a sequence of entries, in order.
pub open spec fn views(s: Seq<Entry>) -> Seq<(Seq<i64>, Seq<u8>)> {
    s.map_values(|e: Entry| item_of(e))
}

/// The items among the first `k` leaf entries whose rectangle overlaps `q`, in order.
pub open spec fn entries_hit_seq(es: Seq<Entry>, k: int, q: Seq<i64>, d: nat) -> Seq<(Seq<i64>, Seq<u8>)>
    decreases k,
{
    if k <= 0 || k > es.len() {
        Seq::empty()
    } else if overlaps(es[k - 1].rect@, q, d) {
        entries_hit_seq(es, k - 1, q, d).push(item_of(es[k - 1]))
    } else {
        entries_hit_seq(es, k - 1, q, d)
    }
}

/// The hits below the first `k` children, skipping each child whose rectangle
/// does not overlap `q`, in order.
pub open spec fn kids_hit_seq(cs: Seq<Child>, k: int, q: Seq<i64>, d: nat) -> Seq<(Seq<i64>, Seq<u8>)>
    decreases cs, k,
{
    if k <= 0 || k > cs.len() {
        Seq::empty()
    } else if overlaps(cs[k - 1].rect@, q, d) {
        kids_hit_seq(cs, k - 1, q, d) + hit_seq(cs[k - 1].node, q, d)
    } else {
        kids_hit_seq(cs, k - 1, q, d)
    }
}

/// The items below `n` whose rectangle overlaps `q`, in depth-first order with
/// entries in storage order, descending only into overlapping children.
pub open spec fn hit_seq(n: Node, q: Seq<i64>, d: nat) -> Seq<(Seq<i64>, Seq<u8>)>
    decreases n, 0int,
{
    match n {
        Node::Leaf(es) => entries_hit_seq(es@, es@.len() as int, q, d),
        Node::Inner(cs) => kids_hit_seq(cs@, cs@.len() as int, q, d),
    }
}

/// The items of a sequence of entries, as a multiset.
pub proof fn lemma_views_items(s: Seq<Entry>)
    ensures
        views(s).to_multiset() == entries_items(s, s.len() as int),
    decreases s.len(),
{
    broadcast use vstd::seq_lib::group_to_multiset_ensures;

    if s.len() > 0 {
        let p = s.drop_last();
        lemma_views_items(p);
        assert(views(s) =~= views(p).push(item_of(s.last())));
        assert(p.push(s.last()) =~= s);
        lemma_entries_push(p, s.last());
    } else {
        assert(views(s) =~= Seq::<(Seq<i64>, Seq<u8>)>::empty());
        broadcast use vstd::multiset::group_multiset_axioms;
        assert(views(s).to_multiset() =~= Multiset::empty());
    }
}

/// A copy of an entry.
fn copy_entry(e: &Entry) -> (res: Entry)
    ensures
        item_of(res) == item_of(*e),
{
    Entry { rect: copy_rect(&e.rect), data: copy_bytes(&e.data) }
}

/// Appends to `out` a copy of every item below `n` whose rectangle overlaps `q`,
/// descending only into children whose rectangle overlaps `q`.
pub fn search_node(
    n: &Node,
    q: &Vec<i64>,
    d: usize,
    out: &mut Vec<Entry>,
    Ghost(m): Ghost<nat>,
    Ghost(hi): Ghost<nat>,
    Ghost(lo): Ghost<nat>,
    Ghost(h): Ghost<nat>,
)
    requires
        wf(*n, d as nat, m, hi, lo, h),
        q@.len() == 2 * d,
    ensures
        entries_items(final(out)@, final(out)@.len() as int) == entries_items(
            old(out)@,
            old(out)@.len() as int,
        ).add(hits(items(*n), q@, d as nat)),
        views(final(out)@) == views(old(out)@) + hit_seq(*n, q@, d as nat),
    decreases h,
{
    let ghost out0 = entries_items(out@, out@.len() as int);
    let ghost seq0 = views(out@);
    match n {
        Node::Leaf(es) => {
            let mut i: usize = 0;
            proof {
                broadcast use vstd::multiset::group_multiset_axioms;
                assert(hits(entries_items(es@, 0), q@, d as nat) =~= Multiset::empty());
                assert(seq0 + entries_hit_seq(es@, 0, q@, d as nat) =~= seq0);
                assert(out0.add(Multiset::empty()) =~= out0);
            }
            while i < es.len()
                invariant
                    wf(*n, d as nat, m, hi, lo, h),
                    *n == Node::Leaf(*es),
                    q@.len() == 2 * d,
                    i <= es@.len(),
                    entries_items(out@, out@.len() as int) == out0.add(
                        hits(entries_items(es@, i as int), q@, d as nat),
                    ),
                    views(out@) == seq0 + entries_hit_seq(es@, i as int, q@, d as nat),
                decreases es.len() - i,
            {
                assert(valid_rect(es@[i as int].rect@, d as nat));
                proof {
                    lemma_hits_insert(entries_items(es@, i as int), item_of(es@[i as int]), q@, d as nat);
                }
                if intersects(&es[i].rect, q, d) {
                    let c = copy_entry(&es[i]);
                    proof {
                        lemma_entries_push(out@, c);
                        broadcast use vstd::multiset::group_multiset_axioms;
                        assert(out0.add(hits(entries_items(es@, i as int), q@, d as nat)).insert(item_of(c))
                            =~= out0.add(hits(entries_items(es@, i as int), q@, d as nat).insert(item_of(c))));
                    }
                    let ghost prev = out@;
                    out.push(c);
                    assert(views(prev.push(c)) =~= views(prev).push(item_of(c)));
                    assert(views(out@) =~= seq0 + entries_hit_seq(es@, i + 1, q@, d as nat));
                }
                i += 1;
            }
        },
        Node::Inner(cs) => {
            let mut i: usize = 0;
            proof {
                broadcast use vstd::multiset::group_multiset_axioms;
                assert(hits(kids_items(cs@, 0), q@, d as nat) =~= Multiset::empty());
                assert(seq0 + kids_hit_seq(cs@, 0, q@, d as nat) =~= seq0);
                assert(out0.add(Multiset::empty()) =~= out0);
            }
            while i < cs.len()
                invariant
                    wf(*n, d as nat, m, hi, lo, h),
                    *n == Node::Inner(*cs),
                    q@.len() == 2 * d,
                    i <= cs@.len(),
                    entries_items(out@, out@.len() as int) == out0.add(
                        hits(kids_items(cs@, i as int), q@, d as nat),
                    ),
                    views(out@) == seq0 + kids_hit_seq(cs@, i as int, q@, d as nat),
                decreases cs.len() - i,
            {
                let ghost c = cs@[i as int];
                assert(valid_rect(c.rect@, d as nat));
                assert(wf(c.node, d as nat, m, hi, m, (h - 1) as nat));
                proof {
                    lemma_hits_add(kids_items(cs@, i as int), items(c.node), q@, d as nat);
                }
                let ghost before = entries_items(out@, out@.len() as int);
                let ghost before_seq = views(out@);
                if intersects(&cs[i].rect, q, d) {
                    search_node(&cs[i].node, q, d, out, Ghost(m), Ghost(hi), Ghost(m), Ghost((h - 1) as nat));
                    assert(views(out@) =~= seq0 + kids_hit_seq(cs@, i + 1, q@, d as nat));
                } else {
                    proof {
                        broadcast use vstd::multiset::group_multiset_axioms;
                        assert forall|v| #[trigger] hits(items(c.node), q@, d as nat).count(v) == 0 by {
                            law_search_hits(items(c.node), q@, d as nat, v);
                            if items(c.node).count(v) > 0 && overlaps(v.0, q@, d as nat) {
                                lemma_items_enclosed(c.node, d as nat, m, hi, m, (h - 1) as nat, v);
                                lemma_overlap_grows(c.rect@, v.0, q@, d as nat);
                            }
                        }
                        assert(hits(items(c.node), q@, d as nat) =~= Multiset::empty());
                        assert(before.add(Multiset::empty()) =~= before);
                    }
                }
                proof {
                    broadcast use vstd::multiset::group_multiset_axioms;
                    assert(out0.add(hits(kids_items(cs@, i as int), q@, d as nat)).add(hits(items(c.node), q@, d as nat))
                        =~= out0.add(hits(kids_items(cs@, i as int), q@, d as nat).add(hits(items(c.node), q@, d as nat))));
                }
                i += 1;
            }
        },
    }
}

} // verus!
