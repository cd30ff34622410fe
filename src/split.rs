//! Quadratic split of an overflowing node into two nodes that each respect the
//! minimum fan-out.
use vstd::prelude::*;
use vstd::multiset::Multiset;
use crate::rect::{area, area_of, join, margin, margin_of, union, valid_rect};
use crate::node::{
    Child, Entry, Node, cheaper, child_ok, copy_rect, entries_items, entries_ok, fan, growth,
    growth_of, items, kids_items, lemma_entries_push, lex_less, sat_sub, lemma_join_valid, lemma_kids_push, lemma_wf_entries,
    wf,
};

verus! {

broadcast use vstd::std_specs::vec::group_vec_axioms, vstd::seq::group_seq_axioms;

/// The number of `true` marks.
pub open spec fn trues(s: Seq<bool>) -> nat
    decreases s.len(),
{
    if s.len() == 0 {
        0
    } else {
        trues(s.drop_last()) + if s.last() { 1nat } else { 0nat }
    }
}

proof fn lemma_trues_step(s: Seq<bool>, k: int)
    requires
        0 < k <= s.len(),
    ensures
        trues(s.subrange(0, k)) == trues(s.subrange(0, k - 1)) + if s[k - 1] { 1nat } else { 0nat },
        trues(s.subrange(0, k)) <= k,
    decreases k,
{
    assert(s.subrange(0, k).drop_last() =~= s.subrange(0, k - 1));
    if k > 1 {
        lemma_trues_step(s, k - 1);
    } else {
        assert(s.subrange(0, 0).len() == 0);
    }
}

/// How much covering both `a` and `b` wastes: the area of their bounding
/// rectangle beyond their own areas, then the same for margins.
pub open spec fn waste_of(a: Seq<i64>, b: Seq<i64>, d: nat) -> (int, int) {
    let u = join(a, b, d);
    (
        sat_sub(sat_sub(area_of(u, d), area_of(a, d)), area_of(b, d)),
        sat_sub(sat_sub(margin_of(u, d), margin_of(a, d)), margin_of(b, d)),
    )
}

/// Waste `x` is strictly greater than waste `y`, area first.
pub open spec fn wastes_more(x: (int, int), y: (int, int)) -> bool {
    x.0 > y.0 || (x.0 == y.0 && x.1 > y.1)
}

/// `s1 < s2` name a pair of rectangles of `rs` that wastes the most.
pub open spec fn seeds_of(rs: Seq<Vec<i64>>, d: nat, s1: int, s2: int) -> bool {
    &&& 0 <= s1 < s2 < rs.len()
    &&& forall|i: int, j: int|
        0 <= i < j < rs.len() ==> !wastes_more(
            #[trigger] waste_of(rs[i]@, rs[j]@, d),
            waste_of(rs[s1]@, rs[s2]@, d),
        )
}

/// The rectangles of `rs` after `s1` and `s2` that are not yet placed when
/// position `i` comes up.
pub open spec fn left_at(n: int, s1: int, s2: int, i: int) -> int {
    (n - i) - (if s1 >= i { 1int } else { 0int }) - (if s2 >= i { 1int } else { 0int })
}

/// Where the rectangle at position `i` goes, given the groups' rectangles
/// `ra`, `rb` and sizes `ca`, `cb` so far: to a group that needs every
/// rectangle left to reach `m`, else to the group that grows least, else to the
/// smaller group, the first on a tie.
pub open spec fn goes_first(
    rs: Seq<Vec<i64>>,
    d: nat,
    m: int,
    s1: int,
    s2: int,
    i: int,
    ra: Seq<i64>,
    rb: Seq<i64>,
    ca: int,
    cb: int,
) -> bool {
    let rem = left_at(rs.len() as int, s1, s2, i);
    if ca + rem == m {
        true
    } else if cb + rem == m {
        false
    } else if lex_less(growth_of(ra, rs[i]@, d), growth_of(rb, rs[i]@, d)) {
        true
    } else if lex_less(growth_of(rb, rs[i]@, d), growth_of(ra, rs[i]@, d)) {
        false
    } else {
        ca <= cb
    }
}

/// The groups after the first `k` positions are placed, seeds `s1` and `s2`
/// first: the two groups' rectangles, their sizes (seeds counted from the
/// start), and the marks so far.
pub open spec fn distribute(rs: Seq<Vec<i64>>, d: nat, m: int, s1: int, s2: int, k: int) -> (
    Seq<i64>,
    Seq<i64>,
    int,
    int,
    Seq<bool>,
)
    decreases k,
{
    if k <= 0 {
        (rs[s1]@, rs[s2]@, 1, 1, Seq::empty())
    } else {
        let (ra, rb, ca, cb, mk) = distribute(rs, d, m, s1, s2, k - 1);
        let i = k - 1;
        if i == s1 {
            (ra, rb, ca, cb, mk.push(true))
        } else if i == s2 {
            (ra, rb, ca, cb, mk.push(false))
        } else if goes_first(rs, d, m, s1, s2, i, ra, rb, ca, cb) {
            (join(ra, rs[i]@, d), rb, ca + 1, cb, mk.push(true))
        } else {
            (ra, join(rb, rs[i]@, d), ca, cb + 1, mk.push(false))
        }
    }
}

/// How much covering both `a` and `b` wastes.
fn waste(a: &Vec<i64>, b: &Vec<i64>, d: usize) -> (res: (u128, u128))
    requires
        valid_rect(a@, d as nat),
        valid_rect(b@, d as nat),
    ensures
        (res.0 as int, res.1 as int) == waste_of(a@, b@, d as nat),
{
    proof {
        lemma_join_valid(a@, b@, d as nat);
    }
    let u = union(a, b, d);
    let au = area(&u, d);
    let aa = area(a, d);
    let ab = area(b, d);
    let mu = margin(&u, d);
    let ma = margin(a, d);
    let mb = margin(b, d);
    let wa = if au >= aa { au - aa } else { 0 };
    let wa = if wa >= ab { wa - ab } else { 0 };
    let wm = if mu >= ma { mu - ma } else { 0 };
    let wm = if wm >= mb { wm - mb } else { 0 };
    (wa, wm)
}

/// The pair of rectangles that wastes the most when covered together.
fn pick_seeds(rs: &Vec<Vec<i64>>, d: usize) -> (res: (usize, usize))
    requires
        rs@.len() >= 2,
        forall|i: int| 0 <= i < rs@.len() ==> valid_rect(#[trigger] rs@[i]@, d as nat),
    ensures
        seeds_of(rs@, d as nat, res.0 as int, res.1 as int),
{
    let mut s1: usize = 0;
    let mut s2: usize = 1;
    let mut worst = waste(&rs[0], &rs[1], d);
    let mut i: usize = 0;
    while i < rs.len()
        invariant
            forall|i: int| 0 <= i < rs@.len() ==> valid_rect(#[trigger] rs@[i]@, d as nat),
            i <= rs@.len(),
            s1 < s2 < rs@.len(),
            (worst.0 as int, worst.1 as int) == waste_of(rs@[s1 as int]@, rs@[s2 as int]@, d as nat),
            forall|a: int, b: int|
                0 <= a < i && a < b < rs@.len() ==> !wastes_more(
                    #[trigger] waste_of(rs@[a]@, rs@[b]@, d as nat),
                    waste_of(rs@[s1 as int]@, rs@[s2 as int]@, d as nat),
                ),
        decreases rs.len() - i,
    {
        let mut j: usize = i + 1;
        while j < rs.len()
            invariant
                forall|i: int| 0 <= i < rs@.len() ==> valid_rect(#[trigger] rs@[i]@, d as nat),
                i < j <= rs@.len(),
                s1 < s2 < rs@.len(),
                (worst.0 as int, worst.1 as int) == waste_of(rs@[s1 as int]@, rs@[s2 as int]@, d as nat),
                forall|a: int, b: int|
                    0 <= a < i && a < b < rs@.len() ==> !wastes_more(
                        #[trigger] waste_of(rs@[a]@, rs@[b]@, d as nat),
                        waste_of(rs@[s1 as int]@, rs@[s2 as int]@, d as nat),
                    ),
                forall|b: int|
                    i < b < j ==> !wastes_more(
                        #[trigger] waste_of(rs@[i as int]@, rs@[b]@, d as nat),
                        waste_of(rs@[s1 as int]@, rs@[s2 as int]@, d as nat),
                    ),
            decreases rs.len() - j,
        {
            let w = waste(&rs[i], &rs[j], d);
            if w.0 > worst.0 || (w.0 == worst.0 && w.1 > worst.1) {
                s1 = i;
                s2 = j;
                worst = w;
            }
            j += 1;
        }
        i += 1;
    }
    (s1, s2)
}

/// Marks each of `rs` for one of two groups (`true` for the first), so that
/// each group gets at least `m` of them. The two seeds start the groups; every
/// other rectangle goes, in order, to the group whose rectangle grows least,
/// unless a group needs all that remain to reach `m`.
#[verifier::rlimit(100)]
pub fn split_marks(rs: &Vec<Vec<i64>>, d: usize, m: usize) -> (res: Vec<bool>)
    requires
        rs@.len() >= 2,
        1 <= m,
        2 * m <= rs@.len(),
        forall|i: int| 0 <= i < rs@.len() ==> valid_rect(#[trigger] rs@[i]@, d as nat),
    ensures
        res@.len() == rs@.len(),
        m <= trues(res@),
        m <= rs@.len() - trues(res@),
        exists|s1: int, s2: int|
            #[trigger] seeds_of(rs@, d as nat, s1, s2) && res@[s1] && !res@[s2] && res@
                == distribute(rs@, d as nat, m as int, s1, s2, rs@.len() as int).4,
{
    let n = rs.len();
    let (s1, s2) = pick_seeds(rs, d);
    let mut ra = copy_rect(&rs[s1]);
    let mut rb = copy_rect(&rs[s2]);
    let mut ca: usize = 1;
    let mut cb: usize = 1;
    let mut rem: usize = n - 2;
    let mut marks: Vec<bool> = Vec::new();
    let mut k: usize = 0;
    while k < n
        invariant
            n == rs@.len(),
            forall|i: int| 0 <= i < rs@.len() ==> valid_rect(#[trigger] rs@[i]@, d as nat),
            s1 < s2 < n,
            1 <= m,
            2 * m <= n,
            k <= n,
            marks@.len() == k,
            seeds_of(rs@, d as nat, s1 as int, s2 as int),
            s1 < k ==> marks@[s1 as int],
            s2 < k ==> !marks@[s2 as int],
            (ra@, rb@, ca as int, cb as int, marks@) == distribute(rs@, d as nat, m as int, s1 as int, s2 as int, k as int),
            valid_rect(ra@, d as nat),
            valid_rect(rb@, d as nat),
            ca + cb + rem == n,
            ca + rem >= m,
            cb + rem >= m,
            rem == (n - k) - (if s1 >= k { 1int } else { 0int }) - (if s2 >= k { 1int } else { 0int }),
            trues(marks@) + (if s1 >= k { 1int } else { 0int }) == ca,
            k - trues(marks@) + (if s2 >= k { 1int } else { 0int }) == cb,
        decreases n - k,
    {
        proof {
            assert(marks@ =~= marks@.subrange(0, k as int));
            lemma_trues_step(marks@.push(true), k as int + 1);
            assert(marks@.push(true).subrange(0, k as int) =~= marks@);
            assert(marks@.push(true).subrange(0, k as int + 1) =~= marks@.push(true));
            lemma_trues_step(marks@.push(false), k as int + 1);
            assert(marks@.push(false).subrange(0, k as int) =~= marks@);
            assert(marks@.push(false).subrange(0, k as int + 1) =~= marks@.push(false));
        }
        if k == s1 {
            marks.push(true);
        } else if k == s2 {
            marks.push(false);
        } else {
            let ghost gs = goes_first(rs@, d as nat, m as int, s1 as int, s2 as int, k as int, ra@, rb@, ca as int, cb as int);
            assert(rem == left_at(n as int, s1 as int, s2 as int, k as int));
            let to_a = if ca + rem == m {
                true
            } else if cb + rem == m {
                false
            } else {
                let ga = growth(&ra, &rs[k], d);
                let gb = growth(&rb, &rs[k], d);
                if cheaper(ga, gb) {
                    true
                } else if cheaper(gb, ga) {
                    false
                } else {
                    ca <= cb
                }
            };
            assert(to_a == gs);
            proof {
                lemma_join_valid(ra@, rs@[k as int]@, d as nat);
                lemma_join_valid(rb@, rs@[k as int]@, d as nat);
            }
            if to_a {
                ra = union(&ra, &rs[k], d);
                ca += 1;
                marks.push(true);
            } else {
                rb = union(&rb, &rs[k], d);
                cb += 1;
                marks.push(false);
            }
            rem -= 1;
        }
        k += 1;
    }
    assert(seeds_of(rs@, d as nat, s1 as int, s2 as int) && marks@[s1 as int] && !marks@[s2 as int]
        && marks@ == distribute(rs@, d as nat, m as int, s1 as int, s2 as int, rs@.len() as int).4);
    marks
}

/// Sends each entry to the first group where its mark is `true`, else to the second.
pub fn partition_entries(es: Vec<Entry>, marks: &Vec<bool>, d: usize) -> (res: (
    Vec<Entry>,
    Vec<Entry>,
))
    requires
        es@.len() == marks@.len(),
        forall|i: int| 0 <= i < es@.len() ==> valid_rect(#[trigger] es@[i].rect@, d as nat),
    ensures
        entries_items(res.0@, res.0@.len() as int).add(entries_items(res.1@, res.1@.len() as int))
            == entries_items(es@, es@.len() as int),
        res.0@.len() == trues(marks@),
        res.1@.len() + trues(marks@) == es@.len(),
        forall|i: int| 0 <= i < res.0@.len() ==> valid_rect(#[trigger] res.0@[i].rect@, d as nat),
        forall|i: int| 0 <= i < res.1@.len() ==> valid_rect(#[trigger] res.1@[i].rect@, d as nat),
{
    let ghost orig = es@;
    let n = es.len();
    let mut es = es;
    let mut a: Vec<Entry> = Vec::new();
    let mut b: Vec<Entry> = Vec::new();
    let mut k: usize = n;
    proof {
        assert(marks@.subrange(0, n as int) =~= marks@);
    }
    while k > 0
        invariant
            n == orig.len() == marks@.len(),
            k <= n,
            es@ == orig.subrange(0, k as int),
            forall|i: int| 0 <= i < orig.len() ==> valid_rect(#[trigger] orig[i].rect@, d as nat),
            forall|i: int| 0 <= i < a@.len() ==> valid_rect(#[trigger] a@[i].rect@, d as nat),
            forall|i: int| 0 <= i < b@.len() ==> valid_rect(#[trigger] b@[i].rect@, d as nat),
            entries_items(orig, k as int).add(entries_items(a@, a@.len() as int)).add(
                entries_items(b@, b@.len() as int),
            ) == entries_items(orig, n as int),
            a@.len() + trues(marks@.subrange(0, k as int)) == trues(marks@),
            a@.len() + b@.len() + k == n,
        decreases k,
    {
        let e = es.pop().unwrap();
        k -= 1;
        proof {
            lemma_trues_step(marks@, k + 1);
            assert(e == orig[k as int]);
            lemma_entries_push(a@, e);
            lemma_entries_push(b@, e);
            broadcast use vstd::multiset::group_multiset_axioms;
        }
        if marks[k] {
            a.push(e);
            assert(entries_items(orig, k as int).add(entries_items(a@, a@.len() as int)).add(
                entries_items(b@, b@.len() as int),
            ) =~= entries_items(orig, n as int));
        } else {
            b.push(e);
            assert(entries_items(orig, k as int).add(entries_items(a@, a@.len() as int)).add(
                entries_items(b@, b@.len() as int),
            ) =~= entries_items(orig, n as int));
        }
    }
    proof {
        broadcast use vstd::multiset::group_multiset_axioms;
        assert(entries_items(a@, a@.len() as int).add(entries_items(b@, b@.len() as int))
            =~= entries_items(orig, n as int));
        assert(marks@.subrange(0, 0).len() == 0);
    }
    (a, b)
}

/// Sends each child to the first group where its mark is `true`, else to the second.
pub fn partition_children(
    cs: Vec<Child>,
    marks: &Vec<bool>,
    Ghost(d): Ghost<nat>,
    Ghost(m): Ghost<nat>,
    Ghost(hi): Ghost<nat>,
    Ghost(h): Ghost<nat>,
) -> (res: (Vec<Child>, Vec<Child>))
    requires
        cs@.len() == marks@.len(),
        forall|i: int| 0 <= i < cs@.len() ==> child_ok(#[trigger] cs@[i], d, m, hi, h),
    ensures
        kids_items(res.0@, res.0@.len() as int).add(kids_items(res.1@, res.1@.len() as int))
            == kids_items(cs@, cs@.len() as int),
        res.0@.len() == trues(marks@),
        res.1@.len() + trues(marks@) == cs@.len(),
        forall|i: int| 0 <= i < res.0@.len() ==> child_ok(#[trigger] res.0@[i], d, m, hi, h),
        forall|i: int| 0 <= i < res.1@.len() ==> child_ok(#[trigger] res.1@[i], d, m, hi, h),
{
    let ghost orig = cs@;
    let n = cs.len();
    let mut cs = cs;
    let mut a: Vec<Child> = Vec::new();
    let mut b: Vec<Child> = Vec::new();
    let mut k: usize = n;
    proof {
        assert(marks@.subrange(0, n as int) =~= marks@);
    }
    while k > 0
        invariant
            n == orig.len() == marks@.len(),
            k <= n,
            cs@ == orig.subrange(0, k as int),
            forall|i: int| 0 <= i < orig.len() ==> child_ok(#[trigger] orig[i], d, m, hi, h),
            forall|i: int| 0 <= i < a@.len() ==> child_ok(#[trigger] a@[i], d, m, hi, h),
            forall|i: int| 0 <= i < b@.len() ==> child_ok(#[trigger] b@[i], d, m, hi, h),
            kids_items(orig, k as int).add(kids_items(a@, a@.len() as int)).add(
                kids_items(b@, b@.len() as int),
            ) == kids_items(orig, n as int),
            a@.len() + trues(marks@.subrange(0, k as int)) == trues(marks@),
            a@.len() + b@.len() + k == n,
        decreases k,
    {
        let c = cs.pop().unwrap();
        k -= 1;
        proof {
            lemma_trues_step(marks@, k + 1);
            assert(c == orig[k as int]);
            lemma_kids_push(a@, c);
            lemma_kids_push(b@, c);
            broadcast use vstd::multiset::group_multiset_axioms;
        }
        if marks[k] {
            a.push(c);
            assert(kids_items(orig, k as int).add(kids_items(a@, a@.len() as int)).add(
                kids_items(b@, b@.len() as int),
            ) =~= kids_items(orig, n as int));
        } else {
            b.push(c);
            assert(kids_items(orig, k as int).add(kids_items(a@, a@.len() as int)).add(
                kids_items(b@, b@.len() as int),
            ) =~= kids_items(orig, n as int));
        }
    }
    proof {
        broadcast use vstd::multiset::group_multiset_axioms;
        assert(kids_items(a@, a@.len() as int).add(kids_items(b@, b@.len() as int))
            =~= kids_items(orig, n as int));
        assert(marks@.subrange(0, 0).len() == 0);
    }
    (a, b)
}

/// Splits a node that holds one entry too many into two well-formed nodes of
/// the same kind and height that hold the same items between them.
pub fn split_node(n: Node, d: usize, m: usize, hi: usize, Ghost(h): Ghost<nat>) -> (res: (
    Node,
    Node,
))
    requires
        1 <= m,
        2 * m <= hi + 1,
        fan(n) == hi + 1,
        entries_ok(n, d as nat, m as nat, hi as nat, h),
    ensures
        wf(res.0, d as nat, m as nat, hi as nat, m as nat, h),
        wf(res.1, d as nat, m as nat, hi as nat, m as nat, h),
        items(res.0).add(items(res.1)) == items(n),
{
    match n {
        Node::Leaf(es) => {
            let mut rs: Vec<Vec<i64>> = Vec::new();
            let mut i: usize = 0;
            while i < es.len()
                invariant
                    i <= es@.len(),
                    rs@.len() == i,
                    forall|j: int| 0 <= j < i ==> #[trigger] rs@[j]@ == es@[j].rect@,
                decreases es.len() - i,
            {
                rs.push(copy_rect(&es[i].rect));
                i += 1;
            }
            let marks = split_marks(&rs, d, m);
            let (a, b) = partition_entries(es, &marks, d);
            let ra = Node::Leaf(a);
            let rb = Node::Leaf(b);
            proof {
                lemma_wf_entries(ra, d as nat, m as nat, hi as nat, m as nat, h);
                lemma_wf_entries(rb, d as nat, m as nat, hi as nat, m as nat, h);
            }
            (ra, rb)
        },
        Node::Inner(cs) => {
            let mut rs: Vec<Vec<i64>> = Vec::new();
            let mut i: usize = 0;
            while i < cs.len()
                invariant
                    i <= cs@.len(),
                    rs@.len() == i,
                    forall|j: int| 0 <= j < i ==> #[trigger] rs@[j]@ == cs@[j].rect@,
                decreases cs.len() - i,
            {
                rs.push(copy_rect(&cs[i].rect));
                i += 1;
            }
            proof {
                assert forall|j: int| 0 <= j < rs@.len() implies valid_rect(#[trigger] rs@[j]@, d as nat) by {
                    assert(child_ok(cs@[j], d as nat, m as nat, hi as nat, (h - 1) as nat));
                }
            }
            let marks = split_marks(&rs, d, m);
            let (a, b) = partition_children(cs, &marks, Ghost(d as nat), Ghost(m as nat), Ghost(hi as nat), Ghost((h - 1) as nat));
            let ra = Node::Inner(a);
            let rb = Node::Inner(b);
            proof {
                lemma_wf_entries(ra, d as nat, m as nat, hi as nat, m as nat, h);
                lemma_wf_entries(rb, d as nat, m as nat, hi as nat, m as nat, h);
            }
            (ra, rb)
        },
    }
}

} // verus!
