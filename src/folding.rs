//! Stack orderings of a folded strip and the foldability test.
use vstd::prelude::*;
use vstd::set_lib::{lemma_int_range, set_int_range};

verus! {

/// Why a sequence is not the stack ordering of a strip.
#[derive(Debug, Clone, Copy, PartialEq, Eq, Structural)]
pub enum FoldingError {
    /// The least id is not 1, or the greatest is not the number of layers.
    RangeError,
    /// Some id between 1 and the number of layers does not occur.
    CompletenessError,
}

/// Every layer holds a segment id between 1 and the number of layers.
pub open spec fn ids_in_range(s: Seq<u64>) -> bool {
    forall|i: int| 0 <= i < s.len() ==> 1 <= #[trigger] s[i] && s[i] <= s.len()
}

/// Segment `v` lies on some layer of `s`.
pub open spec fn has_id(s: Seq<u64>, v: int) -> bool {
    exists|i: int| 0 <= i < s.len() && s[i] == v
}

/// The least id of `s` is 1 and the greatest is `s.len()`.
pub open spec fn extremes_ok(s: Seq<u64>) -> bool {
    ids_in_range(s) && has_id(s, 1) && has_id(s, s.len() as int)
}

/// Every id between 1 and `s.len()` occurs in `s`.
pub open spec fn complete(s: Seq<u64>) -> bool {
    forall|v: int| 1 <= v <= s.len() ==> #[trigger] has_id(s, v)
}

/// `s` is a permutation of `1..=s.len()`.
pub open spec fn is_permutation(s: Seq<u64>) -> bool {
    ids_in_range(s) && complete(s)
}

/// The outcome of validating `s` as a stack ordering, checks in order: the
/// empty ordering is accepted, then the extremes, then completeness.
pub open spec fn validation(s: Seq<u64>) -> Result<(), FoldingError> {
    if s.len() == 0 {
        Ok(())
    } else if !extremes_ok(s) {
        Err(FoldingError::RangeError)
    } else if !complete(s) {
        Err(FoldingError::CompletenessError)
    } else {
        Ok(())
    }
}

/// The layer (zero-based) on which segment `v` lies in `s`.
pub open spec fn layer_of(s: Seq<u64>, v: int) -> int {
    choose|i: int| 0 <= i < s.len() && s[i] == v
}

/// The lower layer of the joint that links segments `k` and `k + 1`.
pub open spec fn joint_lo(s: Seq<u64>, k: int) -> int {
    let a = layer_of(s, k);
    let b = layer_of(s, k + 1);
    if a < b { a } else { b }
}

/// The upper layer of the joint that links segments `k` and `k + 1`.
pub open spec fn joint_hi(s: Seq<u64>, k: int) -> int {
    let a = layer_of(s, k);
    let b = layer_of(s, k + 1);
    if a < b { b } else { a }
}

/// Layer `p` lies strictly between the ends of joint `j`.
pub open spec fn inside_joint(s: Seq<u64>, j: int, p: int) -> bool {
    joint_lo(s, j) < p && p < joint_hi(s, j)
}

/// Joint `k` crosses the earlier joint `j`: exactly one end of `k` lies
/// strictly inside `j`.
pub open spec fn crosses(s: Seq<u64>, j: int, k: int) -> bool {
    inside_joint(s, j, joint_lo(s, k)) != inside_joint(s, j, joint_hi(s, k))
}

/// No two joints of the parity class of `c` (joints `c`, `c + 2`, ...) cross.
pub open spec fn class_uncrossed(s: Seq<u64>, c: int) -> bool {
    forall|j: int, k: int|
        c <= j < k < s.len() && j % 2 == c % 2 && k % 2 == c % 2 ==> !#[trigger] crosses(s, j, k)
}

/// A stack ordering is foldable when neither the odd joints (segments 1-2,
/// 3-4, ...) nor the even joints (segments 2-3, 4-5, ...) cross among
/// themselves.
pub open spec fn is_foldable_stack(s: Seq<u64>) -> bool {
    class_uncrossed(s, 1) && class_uncrossed(s, 2)
}

/// A permutation of `1..=n` holds no id twice.
pub proof fn lemma_permutation_distinct(s: Seq<u64>)
    requires
        is_permutation(s),
    ensures
        s.no_duplicates(),
{
    let t = s.map_values(|v: u64| v as int);
    let r = set_int_range(1, s.len() as int + 1);
    lemma_int_range(1, s.len() as int + 1);
    assert forall|x: int| r.contains(x) implies t.to_set().contains(x) by {
        assert(has_id(s, x));
        let i = choose|i: int| 0 <= i < s.len() && s[i] == x;
        assert(t[i] == x);
    }
    assert forall|x: int| t.to_set().contains(x) implies r.contains(x) by {
        let i = choose|i: int| 0 <= i < t.len() && t[i] == x;
        assert(1 <= s[i] && s[i] <= s.len());
    }
    assert(t.to_set() =~= r);
    t.lemma_no_dup_set_cardinality();
    assert forall|i: int, j: int| 0 <= i < s.len() && 0 <= j < s.len() && i != j implies s[i]
        != s[j] by {
        assert(t[i] != t[j]);
    }
}

/// In an ordering without repeated ids, the layer of the id on layer `i` is `i`.
pub proof fn lemma_layer_of_distinct(s: Seq<u64>, i: int)
    requires
        s.no_duplicates(),
        0 <= i < s.len(),
    ensures
        layer_of(s, s[i] as int) == i,
{
    let v = s[i] as int;
    assert(0 <= i < s.len() && s[i] == v);
    let l = layer_of(s, v);
    assert(0 <= l < s.len() && s[l] == v);
}

/// Ids counted from 0 (`[0, 1, ..., n - 1]`, or any ordering holding 0) are
/// out of range.
pub proof fn lemma_zero_id_rejected(s: Seq<u64>)
    requires
        has_id(s, 0),
    ensures
        validation(s) == Err::<(), FoldingError>(FoldingError::RangeError),
{
    let i = choose|i: int| 0 <= i < s.len() && s[i] == 0;
    assert(!(1 <= s[i]));
}

/// An ordering that holds an id greater than its length (one layer too few
/// for its ids) is out of range.
pub proof fn lemma_id_above_length_rejected(s: Seq<u64>, i: int)
    requires
        0 <= i < s.len(),
        s[i] > s.len(),
    ensures
        validation(s) == Err::<(), FoldingError>(FoldingError::RangeError),
{
}

/// An ordering whose ids all stay below its length (one layer too many for
/// its ids) is out of range.
pub proof fn lemma_top_id_missing_rejected(s: Seq<u64>)
    requires
        s.len() > 0,
        forall|i: int| 0 <= i < s.len() ==> #[trigger] s[i] < s.len(),
    ensures
        validation(s) == Err::<(), FoldingError>(FoldingError::RangeError),
{
    if has_id(s, s.len() as int) {
        let i = choose|i: int| 0 <= i < s.len() && s[i] == s.len();
        assert(s[i] < s.len());
    }
}

/// An ordering whose ids lie in range, with 1 and the top id present, but
/// with an id repeated, lacks some other id.
pub proof fn lemma_repeated_id_rejected(s: Seq<u64>, i: int, j: int)
    requires
        extremes_ok(s),
        0 <= i < s.len(),
        0 <= j < s.len(),
        i != j,
        s[i] == s[j],
    ensures
        validation(s) == Err::<(), FoldingError>(FoldingError::CompletenessError),
{
    if complete(s) {
        lemma_permutation_distinct(s);
    }
}

/// The increasing ordering `[1, 2, ..., n]` is a permutation and is foldable.
pub proof fn lemma_increasing_foldable(s: Seq<u64>)
    requires
        forall|i: int| 0 <= i < s.len() ==> #[trigger] s[i] == i + 1,
    ensures
        is_permutation(s),
        is_foldable_stack(s),
{
    assert forall|v: int| 1 <= v <= s.len() implies #[trigger] has_id(s, v) by {
        assert(s[v - 1] == v);
    }
    lemma_permutation_distinct(s);
    assert forall|v: int| 1 <= v <= s.len() implies layer_of(s, v) == v - 1 by {
        assert(s[v - 1] == v);
        lemma_layer_of_distinct(s, v - 1);
    }
    assert forall|j: int, k: int| 1 <= j < k < s.len() implies !#[trigger] crosses(s, j, k) by {
        assert(layer_of(s, j) == j - 1 && layer_of(s, j + 1) == j);
    }
}

/// A validated stack ordering of a strip.
pub struct MapFolding {
    stack: Vec<u64>,
}

impl View for MapFolding {
    type V = Seq<u64>;

    closed spec fn view(&self) -> Seq<u64> {
        self.stack@
    }
}

impl MapFolding {
    /// Every `MapFolding` holds a permutation of its segment ids.
    #[verifier::type_invariant]
    closed spec fn inv(&self) -> bool {
        is_permutation(self.stack@)
    }

    /// Validates `stack` (bottom layer first) and, when it is a permutation of
    /// `1..=stack.len()`, keeps a copy of it.
    pub fn from_stack(stack: &[u64]) -> (r: Result<MapFolding, FoldingError>)
        ensures
            match r {
                Ok(f) => validation(stack@) is Ok && f@ == stack@,
                Err(e) => validation(stack@) == Err::<(), FoldingError>(e),
            },
            validation(stack@) is Ok <==> is_permutation(stack@),
    {
        let n = stack.len();
        if n == 0 {
            let f = MapFolding { stack: Vec::new() };
            assert(f.stack@ =~= stack@);
            return Ok(f);
        }
        let mut lo: u64 = stack[0];
        let mut hi: u64 = stack[0];
        let mut i: usize = 1;
        while i < n
            invariant
                n == stack@.len(),
                1 <= i <= n,
                forall|j: int| 0 <= j < i ==> lo <= #[trigger] stack@[j] && stack@[j] <= hi,
                exists|j: int| 0 <= j < i && stack@[j] == lo,
                exists|j: int| 0 <= j < i && stack@[j] == hi,
            decreases n - i,
        {
            if stack[i] < lo {
                lo = stack[i];
            }
            if stack[i] > hi {
                hi = stack[i];
            }
            i += 1;
        }
        if lo != 1 || hi != n as u64 {
            proof {
                if extremes_ok(stack@) {
                    let a = choose|j: int| 0 <= j < n && stack@[j] == lo;
                    let b = choose|j: int| 0 <= j < n && stack@[j] == hi;
                    let c = choose|j: int| 0 <= j < n && stack@[j] == 1;
                    let d = choose|j: int| 0 <= j < n && stack@[j] == n;
                    assert(stack@[a] >= 1 && stack@[c] >= lo);
                    assert(stack@[b] <= n && stack@[d] <= hi);
                }
            }
            return Err(FoldingError::RangeError);
        }
        assert(extremes_ok(stack@));
        let mut seen: Vec<bool> = Vec::new();
        seen.push(false);
        let mut v: usize = 0;
        while v < n
            invariant
                n == stack@.len(),
                v <= n,
                seen@.len() == v + 1,
                forall|w: int| 0 <= w <= v ==> !#[trigger] seen@[w],
            decreases n - v,
        {
            seen.push(false);
            v += 1;
        }
        let mut i: usize = 0;
        while i < n
            invariant
                n == stack@.len(),
                i <= n,
                seen@.len() == n + 1,
                extremes_ok(stack@),
                forall|w: int|
                    1 <= w <= n ==> (#[trigger] seen@[w] <==> exists|j: int|
                        0 <= j < i && stack@[j] == w),
            decreases n - i,
        {
            let x = stack[i] as usize;
            assert(1 <= stack@[i as int] <= n);
            seen.set(x, true);
            proof {
                assert forall|w: int| 1 <= w <= n implies (#[trigger] seen@[w] <==> exists|j: int|
                    0 <= j < i + 1 && stack@[j] == w) by {
                    if w == x {
                        assert(stack@[i as int] == w);
                    }
                }
            }
            i += 1;
        }
        let mut v: usize = 0;
        while v < n
            invariant
                n == stack@.len(),
                v <= n,
                seen@.len() == n + 1,
                extremes_ok(stack@),
                forall|w: int|
                    1 <= w <= n ==> (#[trigger] seen@[w] <==> has_id(stack@, w)),
                forall|w: int| 1 <= w <= v ==> #[trigger] has_id(stack@, w),
            decreases n - v,
        {
            if !seen[v + 1] {
                assert(!has_id(stack@, v + 1));
                return Err(FoldingError::CompletenessError);
            }
            v += 1;
        }
        let mut copy: Vec<u64> = Vec::new();
        let mut i: usize = 0;
        while i < n
            invariant
                n == stack@.len(),
                i <= n,
                copy@ == stack@.subrange(0, i as int),
            decreases n - i,
        {
            copy.push(stack[i]);
            i += 1;
        }
        assert(copy@ =~= stack@);
        Ok(MapFolding { stack: copy })
    }

    /// The segment ids, bottom layer first.
    pub fn stack(&self) -> (r: &[u64])
        ensures
            r@ == self@,
            is_permutation(r@),
    {
        proof {
            use_type_invariant(self);
        }
        self.stack.as_slice()
    }

    /// The position table: entry `v` is the layer of segment `v`; entry 0 is
    /// unused and holds 0.
    pub fn positions(&self) -> (r: Vec<usize>)
        ensures
            r@.len() == self@.len() + 1,
            r@[0] == 0,
            forall|i: int| 0 <= i < self@.len() ==> r@[#[trigger] self@[i] as int] == i,
            forall|v: int| 1 <= v <= self@.len() ==> r@[v] == layer_of(self@, v),
    {
        proof {
            use_type_invariant(self);
            lemma_permutation_distinct(self.stack@);
        }
        let n = self.stack.len();
        let mut pos: Vec<usize> = Vec::new();
        pos.push(0);
        let mut v: usize = 0;
        while v < n
            invariant
                n == self.stack@.len(),
                v <= n,
                pos@.len() == v + 1,
                forall|w: int| 0 <= w <= v ==> #[trigger] pos@[w] == 0,
            decreases n - v,
        {
            pos.push(0);
            v += 1;
        }
        let mut i: usize = 0;
        while i < n
            invariant
                n == self.stack@.len(),
                i <= n,
                pos@.len() == n + 1,
                pos@[0] == 0,
                is_permutation(self.stack@),
                self.stack@.no_duplicates(),
                forall|j: int| 0 <= j < i ==> pos@[#[trigger] self.stack@[j] as int] == j,
            decreases n - i,
        {
            let x = self.stack[i] as usize;
            assert(1 <= self.stack@[i as int] <= n);
            pos.set(x, i);
            proof {
                assert forall|j: int| 0 <= j < i + 1 implies pos@[#[trigger] self.stack@[j] as int]
                    == j by {
                    if j < i {
                        assert(self.stack@[j] != self.stack@[i as int]);
                    }
                }
            }
            i += 1;
        }
        proof {
            assert forall|v: int| 1 <= v <= n implies pos@[v] == layer_of(self.stack@, v) by {
                assert(has_id(self.stack@, v));
                let j = choose|j: int| 0 <= j < n && self.stack@[j] == v;
                lemma_layer_of_distinct(self.stack@, j);
            }
        }
        pos
    }

    /// Decides whether the stack ordering is a valid folding: the odd joints
    /// and the even joints are each checked for a crossing pair.
    pub fn is_foldable(&self) -> (r: bool)
        ensures
            r == is_foldable_stack(self@),
    {
        let pos = self.positions();
        if !uncrossed_class(&pos, 1, Ghost(self@)) {
            return false;
        }
        uncrossed_class(&pos, 2, Ghost(self@))
    }
}

/// Checks the joints `c`, `c + 2`, ... of `s` for a crossing pair, given the
/// position table `pos` of `s`. Each joint is tested against every earlier
/// joint of its class; the first crossing ends the check.
fn uncrossed_class(pos: &Vec<usize>, c: usize, Ghost(s): Ghost<Seq<u64>>) -> (r: bool)
    requires
        c == 1 || c == 2,
        pos@.len() == s.len() + 1,
        forall|v: int| 1 <= v <= s.len() ==> #[trigger] pos@[v] == layer_of(s, v),
    ensures
        r == class_uncrossed(s, c as int),
{
    let len = pos.len();
    let n = len - 1;
    let mut joints: Vec<(usize, usize)> = Vec::new();
    let mut k: usize = c;
    while k < n
        invariant
            n == s.len(),
            pos@.len() == n + 1,
            forall|v: int| 1 <= v <= s.len() ==> #[trigger] pos@[v] == layer_of(s, v),
            c == 1 || c == 2,
            k == c + 2 * joints@.len(),
            k <= n + 2,
            n < usize::MAX,
            forall|m: int|
                0 <= m < joints@.len() ==> (#[trigger] joints@[m]).0 == joint_lo(s, c + 2 * m)
                    && joints@[m].1 == joint_hi(s, c + 2 * m),
            forall|j: int, l: int|
                c <= j < l < k && j % 2 == c % 2 && l % 2 == c % 2 ==> !#[trigger] crosses(s, j, l),
        decreases n + 1 - k,
    {
        let a = pos[k];
        let b = pos[k + 1];
        let lo = if a < b { a } else { b };
        let hi = if a < b { b } else { a };
        assert(lo == joint_lo(s, k as int) && hi == joint_hi(s, k as int));
        let mut m: usize = 0;
        while m < joints.len()
            invariant
                0 <= m <= joints@.len(),
                k < s.len(),
                k == c + 2 * joints@.len(),
                lo == joint_lo(s, k as int),
                hi == joint_hi(s, k as int),
                forall|q: int|
                    0 <= q < joints@.len() ==> (#[trigger] joints@[q]).0 == joint_lo(s, c + 2 * q)
                        && joints@[q].1 == joint_hi(s, c + 2 * q),
                forall|q: int| 0 <= q < m ==> !#[trigger] crosses(s, c + 2 * q, k as int),
            decreases joints@.len() - m,
        {
            let (jl, jh) = joints[m];
            let lo_inside = jl < lo && lo < jh;
            let hi_inside = jl < hi && hi < jh;
            if lo_inside != hi_inside {
                assert(crosses(s, c + 2 * m, k as int));
                assert((c + 2 * m) % 2 == c % 2 && (k as int) % 2 == c % 2);
                assert(c <= c + 2 * m < k < s.len());
                assert(!class_uncrossed(s, c as int));
                return false;
            }
            m += 1;
        }
        proof {
            assert forall|j: int, l: int|
                c <= j < l < k + 2 && j % 2 == c % 2 && l % 2 == c % 2 implies !#[trigger] crosses(
                s,
                j,
                l,
            ) by {
                if l >= k {
                    assert(l == k);
                    let q = (j - c) / 2;
                    assert(j == c + 2 * q);
                }
            }
        }
        joints.push((lo, hi));
        k += 2;
    }
    true
}

} // verus!
