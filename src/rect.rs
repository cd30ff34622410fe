//! Rectangle algebra: a rectangle of `d` dimensions is a sequence of `2 * d`
//! coordinates, the `d` minimum-corner values followed by the `d` maximum-corner ones.
use vstd::prelude::*;

verus! {

/// The least upper bound of the cost metrics.
pub const COST_MAX: u128 = 0xffff_ffff_ffff_ffff_ffff_ffff_ffff_ffff;

/// A well-formed rectangle: `2 * d` coordinates with `min <= max` on every axis.
pub open spec fn valid_rect(r: Seq<i64>, d: nat) -> bool {
    &&& r.len() == 2 * d
    &&& forall|i: int| #![trigger r[i]] 0 <= i < d ==> r[i] <= r[d + i]
}

/// The two rectangles overlap (touching counts) on every axis.
pub open spec fn overlaps(a: Seq<i64>, b: Seq<i64>, d: nat) -> bool {
    forall|i: int| #![trigger a[i]] 0 <= i < d ==> a[i] <= b[d + i] && b[i] <= a[d + i]
}

/// `b` lies within `a` on every axis.
pub open spec fn encloses(a: Seq<i64>, b: Seq<i64>, d: nat) -> bool {
    forall|i: int| #![trigger a[i]] 0 <= i < d ==> a[i] <= b[i] && b[d + i] <= a[d + i]
}

pub open spec fn min_i64(x: i64, y: i64) -> i64 {
    if x <= y { x } else { y }
}

pub open spec fn max_i64(x: i64, y: i64) -> i64 {
    if x >= y { x } else { y }
}

/// The minimum bounding rectangle of two rectangles.
pub open spec fn join(a: Seq<i64>, b: Seq<i64>, d: nat) -> Seq<i64> {
    Seq::new(2 * d, |i: int| if i < d { min_i64(a[i], b[i]) } else { max_i64(a[i], b[i]) })
}

/// The extent of `r` along axis `i`.
pub open spec fn extent(r: Seq<i64>, d: nat, i: int) -> int {
    r[d + i] - r[i]
}

/// A product capped at `COST_MAX`.
pub open spec fn cap_mul(x: int, y: int) -> int {
    if x * y > COST_MAX as int { COST_MAX as int } else { x * y }
}

/// A sum capped at `COST_MAX`.
pub open spec fn cap_add(x: int, y: int) -> int {
    if x + y > COST_MAX as int { COST_MAX as int } else { x + y }
}

/// The product of the extents of the first `k` axes, capped at `COST_MAX`.
pub open spec fn area_upto(r: Seq<i64>, d: nat, k: nat) -> int
    decreases k,
{
    if k == 0 { 1 } else { cap_mul(area_upto(r, d, (k - 1) as nat), extent(r, d, k - 1)) }
}

/// The sum of the extents of the first `k` axes, capped at `COST_MAX`.
pub open spec fn margin_upto(r: Seq<i64>, d: nat, k: nat) -> int
    decreases k,
{
    if k == 0 { 0 } else { cap_add(margin_upto(r, d, (k - 1) as nat), extent(r, d, k - 1)) }
}

pub open spec fn area_of(r: Seq<i64>, d: nat) -> int {
    area_upto(r, d, d)
}

pub open spec fn margin_of(r: Seq<i64>, d: nat) -> int {
    margin_upto(r, d, d)
}

proof fn lemma_area_bounds(r: Seq<i64>, d: nat, k: nat)
    requires
        valid_rect(r, d),
        k <= d,
    ensures
        0 <= area_upto(r, d, k) <= COST_MAX,
        0 <= margin_upto(r, d, k) <= COST_MAX,
    decreases k,
{
    if k > 0 {
        lemma_area_bounds(r, d, (k - 1) as nat);
        assert(r[k - 1] <= r[d + k - 1]);
        assert(0 <= area_upto(r, d, (k - 1) as nat) * extent(r, d, k - 1)) by (nonlinear_arith)
            requires
                0 <= area_upto(r, d, (k - 1) as nat),
                0 <= extent(r, d, k - 1),
        ;
    }
}

/// Checks that `r` is a well-formed rectangle of `d` dimensions.
pub fn is_valid(r: &Vec<i64>, d: usize) -> (res: bool)
    ensures
        res == valid_rect(r@, d as nat),
{
    let n = r.len();
    if d > usize::MAX / 2 || n != 2 * d {
        return false;
    }
    let mut i: usize = 0;
    while i < d
        invariant
            n == 2 * d,
            r@.len() == 2 * d,
            i <= d,
            forall|j: int| #![trigger r@[j]] 0 <= j < i ==> r@[j] <= r@[d + j],
        decreases d - i,
    {
        if r[i] > r[d + i] {
            return false;
        }
        i += 1;
    }
    true
}

/// Whether `a` and `b` overlap on every axis.
pub fn intersects(a: &Vec<i64>, b: &Vec<i64>, d: usize) -> (res: bool)
    requires
        a@.len() == 2 * d,
        b@.len() == 2 * d,
    ensures
        res == overlaps(a@, b@, d as nat),
{
    let n = a.len();
    let mut i: usize = 0;
    while i < d
        invariant
            n == 2 * d,
            a@.len() == 2 * d,
            b@.len() == 2 * d,
            i <= d,
            forall|j: int| #![trigger a@[j]] 0 <= j < i ==> a@[j] <= b@[d + j] && b@[j] <= a@[d + j],
        decreases d - i,
    {
        if a[i] > b[d + i] || b[i] > a[d + i] {
            return false;
        }
        i += 1;
    }
    true
}

/// Whether `b` lies within `a`.
pub fn contains(a: &Vec<i64>, b: &Vec<i64>, d: usize) -> (res: bool)
    requires
        a@.len() == 2 * d,
        b@.len() == 2 * d,
    ensures
        res == encloses(a@, b@, d as nat),
{
    let n = a.len();
    let mut i: usize = 0;
    while i < d
        invariant
            n == 2 * d,
            a@.len() == 2 * d,
            b@.len() == 2 * d,
            i <= d,
            forall|j: int| #![trigger a@[j]] 0 <= j < i ==> a@[j] <= b@[j] && b@[d + j] <= a@[d + j],
        decreases d - i,
    {
        if a[i] > b[i] || b[d + i] > a[d + i] {
            return false;
        }
        i += 1;
    }
    true
}

/// The minimum bounding rectangle of `a` and `b`.
pub fn union(a: &Vec<i64>, b: &Vec<i64>, d: usize) -> (res: Vec<i64>)
    requires
        a@.len() == 2 * d,
        b@.len() == 2 * d,
    ensures
        res@ == join(a@, b@, d as nat),
{
    let mut res: Vec<i64> = Vec::new();
    let n = a.len();
    let mut i: usize = 0;
    while i < n
        invariant
            n == 2 * d,
            a@.len() == 2 * d,
            b@.len() == 2 * d,
            i <= 2 * d,
            res@.len() == i,
            forall|j: int| #![trigger res@[j]] 0 <= j < i ==> res@[j] == join(a@, b@, d as nat)[j],
        decreases n - i,
    {
        let x = a[i];
        let y = b[i];
        if i < d {
            res.push(if x <= y { x } else { y });
        } else {
            res.push(if x >= y { x } else { y });
        }
        i += 1;
    }
    assert(res@ =~= join(a@, b@, d as nat));
    res
}

/// The product of the extents of `r`, capped at `COST_MAX`; a point has area 0.
pub fn area(r: &Vec<i64>, d: usize) -> (res: u128)
    requires
        valid_rect(r@, d as nat),
    ensures
        res as int == area_of(r@, d as nat),
{
    let mut acc: u128 = 1;
    let n = r.len();
    let mut i: usize = 0;
    while i < d
        invariant
            n == 2 * d,
            valid_rect(r@, d as nat),
            i <= d,
            acc as int == area_upto(r@, d as nat, i as nat),
        decreases d - i,
    {
        proof {
            lemma_area_bounds(r@, d as nat, i as nat);
            assert(r@[i as int] <= r@[d + i]);
        }
        let e: u128 = (r[d + i] as i128 - r[i] as i128) as u128;
        acc = match acc.checked_mul(e) {
            Some(p) => p,
            None => COST_MAX,
        };
        i += 1;
    }
    acc
}

/// The sum of the extents of `r`, capped at `COST_MAX`.
pub fn margin(r: &Vec<i64>, d: usize) -> (res: u128)
    requires
        valid_rect(r@, d as nat),
    ensures
        res as int == margin_of(r@, d as nat),
{
    let mut acc: u128 = 0;
    let n = r.len();
    let mut i: usize = 0;
    while i < d
        invariant
            n == 2 * d,
            valid_rect(r@, d as nat),
            i <= d,
            acc as int == margin_upto(r@, d as nat, i as nat),
        decreases d - i,
    {
        proof {
            lemma_area_bounds(r@, d as nat, i as nat);
            assert(r@[i as int] <= r@[d + i]);
        }
        let e: u128 = (r[d + i] as i128 - r[i] as i128) as u128;
        acc = match acc.checked_add(e) {
            Some(p) => p,
            None => COST_MAX,
        };
        i += 1;
    }
    acc
}

pub proof fn lemma_join_valid(a: Seq<i64>, b: Seq<i64>, d: nat)
    requires
        valid_rect(a, d),
        valid_rect(b, d),
    ensures
        valid_rect(join(a, b, d), d),
        encloses(join(a, b, d), a, d),
        encloses(join(a, b, d), b, d),
{
    let j = join(a, b, d);
    assert forall|i: int| #![trigger j[i]] 0 <= i < d implies j[i] <= j[d + i] by {
        assert(a[i] <= a[d + i]);
        assert(b[i] <= b[d + i]);
    }
}

pub proof fn lemma_encloses_trans(a: Seq<i64>, b: Seq<i64>, c: Seq<i64>, d: nat)
    requires
        encloses(a, b, d),
        encloses(b, c, d),
    ensures
        encloses(a, c, d),
{
    assert forall|t: int| #![trigger a[t]] 0 <= t < d implies a[t] <= c[t] && c[d + t] <= a[d + t] by {
        assert(a[t] <= b[t]);
        assert(b[d + t] <= a[d + t]);
        assert(b[t] <= c[t]);
        assert(c[d + t] <= b[d + t]);
    }
}

/// A rectangle that overlaps `q` overlaps `q` through any rectangle enclosing it.
pub proof fn lemma_overlap_grows(a: Seq<i64>, b: Seq<i64>, q: Seq<i64>, d: nat)
    requires
        encloses(a, b, d),
        overlaps(b, q, d),
    ensures
        overlaps(a, q, d),
{
    assert forall|t: int| #![trigger a[t]] 0 <= t < d implies a[t] <= q[d + t] && q[t] <= a[d + t] by {
        assert(a[t] <= b[t]);
        assert(b[d + t] <= a[d + t]);
        assert(b[t] <= q[d + t]);
        assert(q[t] <= b[d + t]);
    }
}

/// A valid rectangle overlaps any rectangle that encloses it.
pub proof fn lemma_enclosed_overlaps(a: Seq<i64>, b: Seq<i64>, d: nat)
    requires
        encloses(a, b, d),
        valid_rect(b, d),
    ensures
        overlaps(a, b, d),
{
    assert forall|t: int| #![trigger a[t]] 0 <= t < d implies a[t] <= b[d + t] && b[t] <= a[d + t] by {
        assert(a[t] <= b[t]);
        assert(b[d + t] <= a[d + t]);
        assert(b[t] <= b[d + t]);
    }
}

/// Whether two rectangles have the same coordinates.
pub fn same_rect(a: &Vec<i64>, b: &Vec<i64>) -> (res: bool)
    ensures
        res == (a@ == b@),
{
    if a.len() != b.len() {
        return false;
    }
    let mut i: usize = 0;
    while i < a.len()
        invariant
            a@.len() == b@.len(),
            i <= a@.len(),
            forall|j: int| 0 <= j < i ==> a@[j] == b@[j],
        decreases a.len() - i,
    {
        if a[i] != b[i] {
            return false;
        }
        i += 1;
    }
    assert(a@ =~= b@);
    true
}

/// Whether two payloads hold the same bytes.
pub fn same_bytes(a: &Vec<u8>, b: &Vec<u8>) -> (res: bool)
    ensures
        res == (a@ == b@),
{
    if a.len() != b.len() {
        return false;
    }
    let mut i: usize = 0;
    while i < a.len()
        invariant
            a@.len() == b@.len(),
            i <= a@.len(),
            forall|j: int| 0 <= j < i ==> a@[j] == b@[j],
        decreases a.len() - i,
    {
        if a[i] != b[i] {
            return false;
        }
        i += 1;
    }
    assert(a@ =~= b@);
    true
}

} // verus!
