//! Enumerates the integer partitions of a non-negative integer `n`: every way
//! of writing `n` as a sum of positive integers, each partition held as a
//! non-decreasing sequence of parts.
//!
//! The generator owns a single buffer of length `n + 1` and advances in place,
//! one partition per step, in increasing lexicographic order, so that a full
//! enumeration does work proportional to the number of partitions and never
//! allocates after construction. Each emitted partition is read as a borrowed
//! view of a prefix of the buffer.

use vstd::prelude::*;
use vstd::slice::slice_subrange;

verus! {

/// Phase of the generator's state machine.
///
/// `Fresh` is the state right after construction, before anything has been
/// emitted. `Descend` holds the partition `buf[0..=k]`; `Split { x, l }` holds
/// `buf[0..=l]` while the two cells at `k` and `l = k + 1` trade one unit per
/// step. `EmptyHeld` holds the sole (empty) partition of `n = 0`, and `Done`
/// is exhaustion.
#[derive(Debug, Clone, Copy)]
enum Phase {
    Fresh,
    Descend,
    Split { x: usize, l: usize },
    EmptyHeld,
    Done,
}

/// Ghost mirror of [`Phase`], with unbounded integers for the `Split` payload.
pub ghost enum SpecPhase {
    Fresh,
    Descend,
    Split { x: int, l: int },
    EmptyHeld,
    Done,
}

/// The generator's whole abstract state: buffer contents, the boundary index
/// `k`, the remainder `y`, and the phase.
pub ghost struct SpecState {
    pub buf: Seq<usize>,
    pub k: int,
    pub y: int,
    pub phase: SpecPhase,
}

/// The `n` this state enumerates partitions of: the buffer always has length
/// `n + 1`.
pub open spec fn n_of(s: SpecState) -> int {
    s.buf.len() - 1
}

/// Sum of a sequence of parts.
pub open spec fn seq_sum(s: Seq<usize>) -> int
    decreases s.len(),
{
    if s.len() == 0 {
        0
    } else {
        seq_sum(s.drop_last()) + s.last()
    }
}

/// The first `m` entries of `p` never step down: any earlier one is at most
/// any later one.
pub open spec fn nondecreasing_to(p: Seq<usize>, m: int) -> bool {
    forall|i: int, j: int| #![trigger p[i], p[j]] 0 <= i <= j < m ==> p[i] <= p[j]
}

/// `p` is a partition of `n` in the representation this crate uses: strictly
/// positive parts, non-decreasing from left to right, summing to `n`.
pub open spec fn is_ascending_partition_of(p: Seq<usize>, n: int) -> bool {
    &&& forall|i: int| 0 <= i < p.len() ==> p[i] >= 1
    &&& nondecreasing_to(p, p.len() as int)
    &&& seq_sum(p) == n
}

/// Whether the state currently holds a partition to read. `Fresh` holds
/// nothing yet (advance must run first) and `Done` holds nothing any more.
pub open spec fn has_reading(s: SpecState) -> bool {
    match s.phase {
        SpecPhase::Fresh => false,
        SpecPhase::Done => false,
        _ => true,
    }
}

/// The partition a read yields: the active prefix of the buffer, whose length
/// the phase determines. Meaningful only when `has_reading` holds; the empty
/// sequence it gives for `EmptyHeld` is the one partition of `n = 0`.
pub open spec fn reading(s: SpecState) -> Seq<usize> {
    match s.phase {
        SpecPhase::Descend => s.buf.subrange(0, s.k + 1),
        SpecPhase::Split { x: _, l } => s.buf.subrange(0, l + 1),
        _ => Seq::empty(),
    }
}

/// Well-formedness of a generator state. Construction establishes it and
/// every step preserves it; in the two phases that hold a partition it pins
/// the active prefix as a genuine ascending partition of `n`.
pub open spec fn inv_state(s: SpecState) -> bool {
    &&& s.buf.len() >= 1
    &&& s.buf.len() <= usize::MAX
    &&& match s.phase {
        SpecPhase::Fresh => {
            if s.buf.len() == 1 {
                s.k == 0 && s.y == 0
            } else {
                s.k == 1 && s.y == n_of(s) - 1 && s.buf[0] == 0
            }
        },
        SpecPhase::Descend => {
            &&& n_of(s) >= 1
            &&& 0 <= s.k
            &&& s.k + 1 <= s.buf.len()
            &&& is_ascending_partition_of(reading(s), n_of(s))
            &&& s.y == s.buf[s.k] - 1
        },
        SpecPhase::Split { x, l } => {
            &&& n_of(s) >= 1
            &&& 1 <= s.k + 1
            &&& s.k + 1 == l
            &&& l + 1 <= s.buf.len()
            &&& is_ascending_partition_of(reading(s), n_of(s))
            &&& s.buf[s.k] == x
            &&& s.buf[l] == s.y
            &&& 1 <= x <= s.y
        },
        SpecPhase::EmptyHeld => s.buf.len() == 1,
        SpecPhase::Done => true,
    }
}

/// The state a generator for `n` starts in, whatever storage it was built
/// over: a zeroed buffer of length `n + 1`, the boundary at `1` (or `0` when
/// `n = 0`), the remainder `n - 1` (or `0`), phase `Fresh`.
pub open spec fn init_state(n: usize) -> SpecState {
    SpecState {
        buf: Seq::new((n + 1) as nat, |i: int| 0usize),
        k: if n == 0 { 0int } else { 1int },
        y: if n == 0 { 0int } else { n - 1 },
        phase: SpecPhase::Fresh,
    }
}

/// The greedy run of the descent phase: while `2 * x <= y`, write `x` at `k`,
/// take `x` out of `y` and move the boundary right. Returns the buffer,
/// boundary and remainder it stops with.
pub open spec fn lay(buf: Seq<usize>, k: int, x: int, y: int) -> (Seq<usize>, int, int)
    decreases y,
{
    if 1 <= x && 2 * x <= y {
        lay(buf.update(k, x as usize), k + 1, x, y - x)
    } else {
        (buf, k, y)
    }
}

/// One descent step from a state with `k >= 1`: step the boundary left, lay a
/// run of the minimal extension `x = buf[k - 1] + 1`, then either split the
/// rest over two cells (entering `Split`) or merge it into one (staying in
/// `Descend`).
pub open spec fn descend_spec(s: SpecState) -> SpecState {
    let k0 = s.k - 1;
    let x = s.buf[k0] + 1;
    let (b, k1, y1) = lay(s.buf, k0, x, s.y);
    if x <= y1 {
        SpecState {
            buf: b.update(k1, x as usize).update(k1 + 1, y1 as usize),
            k: k1,
            y: y1,
            phase: SpecPhase::Split { x, l: k1 + 1 },
        }
    } else {
        SpecState {
            buf: b.update(k1, (x + y1) as usize),
            k: k1,
            y: x + y1 - 1,
            phase: SpecPhase::Descend,
        }
    }
}

/// The full transition one `advance` call makes, as a function of the
/// abstract state alone: the generator's behaviour is deterministic in it.
pub open spec fn spec_step(s: SpecState) -> SpecState {
    match s.phase {
        SpecPhase::Fresh => {
            if s.buf.len() == 1 {
                SpecState { phase: SpecPhase::EmptyHeld, ..s }
            } else {
                descend_spec(s)
            }
        },
        SpecPhase::Descend => {
            if s.k == 0 {
                SpecState { phase: SpecPhase::Done, ..s }
            } else {
                descend_spec(s)
            }
        },
        SpecPhase::Split { x, l } => {
            let x1 = x + 1;
            let y1 = s.y - 1;
            if x1 <= y1 {
                SpecState {
                    buf: s.buf.update(s.k, x1 as usize).update(l, y1 as usize),
                    y: y1,
                    phase: SpecPhase::Split { x: x1, l },
                    ..s
                }
            } else {
                SpecState {
                    buf: s.buf.update(s.k, (x1 + y1) as usize),
                    y: x1 + y1 - 1,
                    phase: SpecPhase::Descend,
                    ..s
                }
            }
        },
        SpecPhase::EmptyHeld => SpecState { phase: SpecPhase::Done, ..s },
        SpecPhase::Done => s,
    }
}

/// Position `i` witnesses that `p` is lexicographically below `q`: the two
/// agree before `i` and `p` is smaller at `i`.
pub open spec fn lex_lt_at(p: Seq<usize>, q: Seq<usize>, i: int) -> bool {
    &&& 0 <= i < p.len()
    &&& i < q.len()
    &&& p.subrange(0, i) == q.subrange(0, i)
    &&& p[i] < q[i]
}

/// Strict lexicographic order on part sequences: `p` is a proper prefix of
/// `q`, or some position witnesses the difference.
pub open spec fn lex_lt(p: Seq<usize>, q: Seq<usize>) -> bool {
    ||| (p.len() < q.len() && p == q.subrange(0, p.len() as int))
    ||| exists|i: int| lex_lt_at(p, q, i)
}

/// No sequence of parts is lexicographically below itself. Together with
/// transitivity and the `advance` contract — each held partition is strictly
/// `lex_lt`-above the one before — this shows a single run never holds the
/// same partition twice.
pub proof fn lemma_lex_lt_irreflexive(p: Seq<usize>)
    ensures
        !lex_lt(p, p),
{
    if lex_lt(p, p) {
        let i = choose|i: int| lex_lt_at(p, p, i);
        assert(p[i] < p[i]);
    }
}

/// Strict lexicographic order is transitive, so the emissions of a whole run
/// are pairwise distinct, not only neighbouring ones.
pub proof fn lemma_lex_lt_transitive(p: Seq<usize>, q: Seq<usize>, r: Seq<usize>)
    requires
        lex_lt(p, q),
        lex_lt(q, r),
    ensures
        lex_lt(p, r),
{
    let plen = p.len() as int;
    let qlen = q.len() as int;
    if p.len() < q.len() && p == q.subrange(0, plen) {
        if q.len() < r.len() && q == r.subrange(0, qlen) {
            assert(p =~= r.subrange(0, plen));
        } else {
            let j = choose|j: int| lex_lt_at(q, r, j);
            if j < plen {
                assert(p.subrange(0, j) =~= q.subrange(0, j));
                assert(p[j] == q.subrange(0, plen)[j]);
                assert(lex_lt_at(p, r, j));
            } else {
                assert(p =~= r.subrange(0, plen));
                assert(p.len() < r.len());
            }
        }
    } else {
        let i = choose|i: int| lex_lt_at(p, q, i);
        if q.len() < r.len() && q == r.subrange(0, qlen) {
            assert(q[i] == r.subrange(0, qlen)[i]);
            assert(q.subrange(0, i) =~= r.subrange(0, i));
            assert(lex_lt_at(p, r, i));
        } else {
            let j = choose|j: int| lex_lt_at(q, r, j);
            if i <= j {
                if i < j {
                    assert(q[i] == q.subrange(0, j)[i]);
                    assert(r[i] == r.subrange(0, j)[i]);
                }
                assert(p.subrange(0, i) =~= r.subrange(0, i));
                assert(lex_lt_at(p, r, i));
            } else {
                assert(p[j] == p.subrange(0, i)[j]);
                assert(q[j] == q.subrange(0, i)[j]);
                assert(p.subrange(0, j) =~= r.subrange(0, j));
                assert(lex_lt_at(p, r, j));
            }
        }
    }
}

proof fn lemma_sum_nonneg(s: Seq<usize>)
    ensures
        seq_sum(s) >= 0,
    decreases s.len(),
{
    if s.len() > 0 {
        lemma_sum_nonneg(s.drop_last());
    }
}

proof fn lemma_sum_push(s: Seq<usize>, v: usize)
    ensures
        seq_sum(s.push(v)) == seq_sum(s) + v,
{
    assert(s.push(v).drop_last() =~= s);
}

proof fn lemma_sum_ge_len(s: Seq<usize>)
    requires
        forall|i: int| 0 <= i < s.len() ==> s[i] >= 1,
    ensures
        seq_sum(s) >= s.len(),
    decreases s.len(),
{
    if s.len() > 0 {
        assert(forall|i: int| 0 <= i < s.drop_last().len() ==> s.drop_last()[i] >= 1);
        lemma_sum_ge_len(s.drop_last());
    }
}

proof fn lemma_sum_element_bound(s: Seq<usize>, i: int)
    requires
        0 <= i < s.len(),
    ensures
        s[i] <= seq_sum(s),
    decreases s.len(),
{
    if i == s.len() - 1 {
        lemma_sum_nonneg(s.drop_last());
    } else {
        lemma_sum_element_bound(s.drop_last(), i);
    }
}

proof fn lemma_sum_subrange_step(s: Seq<usize>, m: int)
    requires
        0 <= m < s.len(),
    ensures
        seq_sum(s.subrange(0, m + 1)) == seq_sum(s.subrange(0, m)) + s[m],
{
    assert(s.subrange(0, m + 1) =~= s.subrange(0, m).push(s[m]));
    lemma_sum_push(s.subrange(0, m), s[m]);
}

proof fn lemma_sum_first(s: Seq<usize>)
    requires
        s.len() >= 1,
    ensures
        seq_sum(s.subrange(0, 1)) == s[0],
{
    let t = s.subrange(0, 1);
    assert(t.drop_last() =~= Seq::<usize>::empty());
    assert(seq_sum(Seq::<usize>::empty()) == 0);
    assert(t.last() == s[0]);
}

/// What a state must satisfy for a descent step to run: the boundary is at
/// least one, the buffer left of it is a positive non-decreasing prefix, and
/// the prefix plus the remainder plus one accounts for all of `n`.
pub open spec fn pre_descend(s: SpecState) -> bool {
    &&& 1 <= s.k < s.buf.len()
    &&& s.buf.len() <= usize::MAX
    &&& 0 <= s.y
    &&& forall|i: int| 0 <= i < s.k - 1 ==> s.buf[i] >= 1
    &&& nondecreasing_to(s.buf, s.k)
    &&& seq_sum(s.buf.subrange(0, s.k)) + s.y + 1 == n_of(s)
}

proof fn lemma_fresh_pre(s: SpecState)
    requires
        inv_state(s),
        s.phase is Fresh,
        s.buf.len() > 1,
    ensures
        pre_descend(s),
{
    lemma_sum_first(s.buf);
    assert(s.buf.subrange(0, s.k) == s.buf.subrange(0, 1));
}

proof fn lemma_descend_pre(s: SpecState)
    requires
        inv_state(s),
        s.phase is Descend,
        s.k >= 1,
    ensures
        pre_descend(s),
{
    let p0 = reading(s);
    lemma_sum_subrange_step(s.buf, s.k);
    assert(s.buf.subrange(0, s.k + 1) == p0);
    assert(p0[s.k] == s.buf[s.k]);
    assert forall|i: int| 0 <= i < s.k - 1 implies s.buf[i] >= 1 by {
        assert(p0[i] == s.buf[i]);
    }
    assert forall|i: int, j: int| #![trigger s.buf[i], s.buf[j]] 0 <= i <= j < s.k implies s.buf[i]
        <= s.buf[j] by {
        assert(p0[i] == s.buf[i] && p0[j] == s.buf[j]);
    }
    assert(nondecreasing_to(s.buf, s.k));
}

/// The facts the descent loop ends with: `(b, k1, y1)` is where `lay` stopped,
/// the settled prefix is positive and non-decreasing, its tail is a run of
/// `x`, and everything left of the original boundary is untouched.
proof fn lemma_descend_finish(v0: SpecState, b: Seq<usize>, k1: int, y1: int, x: int)
    requires
        pre_descend(v0),
        x == v0.buf[v0.k - 1] + 1,
        lay(v0.buf, v0.k - 1, x, v0.y) == (b, k1, y1),
        b.len() == v0.buf.len(),
        2 * x > y1,
        0 <= y1,
        v0.k - 1 <= k1 <= n_of(v0),
        seq_sum(b.subrange(0, k1)) + x + y1 == n_of(v0),
        forall|i: int| 0 <= i < k1 ==> b[i] >= 1,
        nondecreasing_to(b, k1),
        k1 >= 1 ==> b[k1 - 1] <= x,
        b.subrange(0, v0.k - 1) == v0.buf.subrange(0, v0.k - 1),
        forall|i: int| v0.k - 1 <= i < k1 ==> b[i] == x,
    ensures
        x + y1 <= n_of(v0),
        k1 <= n_of(v0) - 1,
        x <= y1 ==> k1 <= n_of(v0) - 2,
        inv_state(descend_spec(v0)),
        n_of(descend_spec(v0)) == n_of(v0),
        has_reading(descend_spec(v0)),
        v0.phase is Descend && inv_state(v0) ==> lex_lt(reading(v0), reading(descend_spec(v0))),
{
    let n = n_of(v0);
    let k0 = v0.k - 1;
    assert(lay(v0.buf, k0, x, v0.y).0 == b);
    assert(lay(v0.buf, k0, x, v0.y).1 == k1);
    assert(lay(v0.buf, k0, x, v0.y).2 == y1);
    assert forall|i: int| 0 <= i < b.subrange(0, k1).len() implies b.subrange(0, k1)[i] >= 1 by {
        assert(b.subrange(0, k1)[i] == b[i]);
    }
    lemma_sum_ge_len(b.subrange(0, k1));
    let s1 = descend_spec(v0);
    let p1 = reading(s1);
    assert(s1.buf.len() == b.len());
    assert(s1.buf.subrange(0, k1) =~= b.subrange(0, k1));
    lemma_sum_subrange_step(s1.buf, k1);
    if x <= y1 {
        lemma_sum_subrange_step(s1.buf, k1 + 1);
        assert(p1 == s1.buf.subrange(0, k1 + 2));
        assert(s1.buf[k1] == x && s1.buf[k1 + 1] == y1);
    } else {
        assert(p1 == s1.buf.subrange(0, k1 + 1));
        assert(s1.buf[k1] == x + y1);
    }
    assert(seq_sum(p1) == n);
    assert forall|i: int| 0 <= i < p1.len() implies p1[i] >= 1 by {
        assert(p1[i] == s1.buf[i]);
    }
    assert forall|i: int, j: int| #![trigger p1[i], p1[j]] 0 <= i <= j < p1.len() implies p1[i]
        <= p1[j] by {
        assert(p1[i] == s1.buf[i] && p1[j] == s1.buf[j]);
        if j < k1 {
            assert(s1.buf[i] == b[i] && s1.buf[j] == b[j]);
            assert(b[i] <= b[j]);
        } else if i < k1 {
            assert(s1.buf[i] == b[i]);
            assert(b[i] <= b[k1 - 1]);
        }
    }
    assert(nondecreasing_to(p1, p1.len() as int));
    assert(inv_state(s1));
    if v0.phase is Descend && inv_state(v0) {
        let p0 = reading(v0);
        assert(p0.subrange(0, k0) =~= v0.buf.subrange(0, k0));
        assert(p1.subrange(0, k0) =~= s1.buf.subrange(0, k0));
        assert(s1.buf.subrange(0, k0) =~= b.subrange(0, k0));
        assert(b.subrange(0, k0)[0] == b[0] || k0 == 0);
        assert forall|i: int| 0 <= i < k0 implies b[i] == v0.buf[i] by {
            assert(b.subrange(0, k0)[i] == v0.buf.subrange(0, k0)[i]);
        }
        assert(p0[k0] == v0.buf[k0]);
        assert(p1[k0] == s1.buf[k0]);
        assert(p1[k0] >= x);
        assert(lex_lt_at(p0, p1, k0));
    }
}

/// A split step keeps the whole active region a partition of `n` and moves it
/// strictly up in lexicographic order.
proof fn lemma_split_next(s: SpecState, x: int, l: int)
    requires
        inv_state(s),
        s.phase == (SpecPhase::Split { x, l }),
    ensures
        s.buf[s.k] + s.y <= n_of(s),
        inv_state(spec_step(s)),
        n_of(spec_step(s)) == n_of(s),
        has_reading(spec_step(s)),
        lex_lt(reading(s), reading(spec_step(s))),
{
    let n = n_of(s);
    let p0 = reading(s);
    lemma_sum_subrange_step(s.buf, s.k);
    lemma_sum_subrange_step(s.buf, l);
    assert(s.buf.subrange(0, l) =~= s.buf.subrange(0, s.k + 1));
    assert(s.buf.subrange(0, l + 1) == p0);
    lemma_sum_nonneg(s.buf.subrange(0, s.k));
    let s1 = spec_step(s);
    let p1 = reading(s1);
    let x1 = x + 1;
    let y1 = s.y - 1;
    assert(s1.buf.subrange(0, s.k) =~= s.buf.subrange(0, s.k));
    lemma_sum_subrange_step(s1.buf, s.k);
    if x1 <= y1 {
        lemma_sum_subrange_step(s1.buf, l);
        assert(s1.buf.subrange(0, l) =~= s1.buf.subrange(0, s.k + 1));
        assert(p1 == s1.buf.subrange(0, l + 1));
        assert(s1.buf[s.k] == x1 && s1.buf[l] == y1);
    } else {
        assert(p1 == s1.buf.subrange(0, s.k + 1));
        assert(s1.buf[s.k] == x1 + y1);
    }
    assert(seq_sum(p1) == n);
    assert forall|i: int| 0 <= i < p1.len() implies p1[i] >= 1 by {
        assert(p1[i] == s1.buf[i]);
        if i < s.k {
            assert(p0[i] == s.buf[i]);
        }
    }
    assert forall|i: int, j: int| #![trigger p1[i], p1[j]] 0 <= i <= j < p1.len() implies p1[i]
        <= p1[j] by {
        assert(p1[i] == s1.buf[i] && p1[j] == s1.buf[j]);
        if i < s.k {
            assert(s1.buf[i] == s.buf[i] && p0[i] == s.buf[i]);
        }
        if j < s.k {
            assert(s1.buf[j] == s.buf[j] && p0[j] == s.buf[j]);
            assert(p0[i] <= p0[j]);
        } else if i < s.k {
            assert(p0[s.k] == s.buf[s.k]);
            assert(p0[i] <= p0[s.k]);
        }
    }
    assert(nondecreasing_to(p1, p1.len() as int));
    assert(inv_state(s1));
    assert(p0.subrange(0, s.k) =~= s.buf.subrange(0, s.k));
    assert(p1.subrange(0, s.k) =~= s1.buf.subrange(0, s.k));
    assert(p0[s.k] == s.buf[s.k]);
    assert(p1[s.k] > x);
    assert(lex_lt_at(p0, p1, s.k));
}

proof fn lemma_lay_props(buf: Seq<usize>, k: int, x: int, y: int)
    requires
        1 <= x,
        0 <= y,
        0 <= k <= buf.len(),
        buf.len() <= usize::MAX,
        forall|i: int| 0 <= i < k ==> buf[i] >= 1,
        nondecreasing_to(buf, k),
        k >= 1 ==> buf[k - 1] <= x,
        seq_sum(buf.subrange(0, k)) + x + y <= buf.len() - 1,
    ensures
        ({
            let (b, k1, y1) = lay(buf, k, x, y);
            &&& b.len() == buf.len()
            &&& k <= k1
            &&& 0 <= y1 <= y
            &&& 2 * x > y1
            &&& seq_sum(b.subrange(0, k1)) + x + y1 == seq_sum(buf.subrange(0, k)) + x + y
            &&& k1 + x + y1 <= seq_sum(buf.subrange(0, k)) + x + y
            &&& forall|i: int| 0 <= i < k1 ==> b[i] >= 1
            &&& nondecreasing_to(b, k1)
            &&& (k1 >= 1 ==> b[k1 - 1] <= x)
            &&& b.subrange(0, k) == buf.subrange(0, k)
            &&& forall|i: int| k <= i < k1 ==> b[i] == x
        }),
    decreases y,
{
    assert forall|i: int| 0 <= i < buf.subrange(0, k).len() implies buf.subrange(0, k)[i] >= 1 by {
        assert(buf.subrange(0, k)[i] == buf[i]);
    }
    lemma_sum_ge_len(buf.subrange(0, k));
    if 2 * x <= y {
        assert(k < buf.len());
        assert(x <= buf.len() - 1);
        let b1 = buf.update(k, x as usize);
        assert(b1[k] == x);
        assert(b1.subrange(0, k) =~= buf.subrange(0, k));
        lemma_sum_subrange_step(b1, k);
        assert forall|i: int, j: int| #![trigger b1[i], b1[j]] 0 <= i <= j < k + 1 implies b1[i]
            <= b1[j] by {
            if j < k {
                assert(b1[i] == buf[i] && b1[j] == buf[j]);
                assert(buf[i] <= buf[j]);
            } else if i < k {
                assert(b1[i] == buf[i]);
                assert(buf[i] <= buf[k - 1]);
            }
        }
        assert(nondecreasing_to(b1, k + 1));
        lemma_lay_props(b1, k + 1, x, y - x);
        let (b, k1, y1) = lay(b1, k + 1, x, y - x);
        assert(lay(buf, k, x, y) == (b, k1, y1));
        assert(b.subrange(0, k + 1) == b1.subrange(0, k + 1));
        assert(b.subrange(0, k) =~= b1.subrange(0, k));
        assert(b[k] == b.subrange(0, k + 1)[k]);
        assert(b[k] == x);
    }
}

/// A descent step from any state meeting `pre_descend` lands in a sound
/// state holding a partition, strictly above the previous one when there
/// was one.
proof fn lemma_descend_next(s: SpecState)
    requires
        pre_descend(s),
    ensures
        inv_state(descend_spec(s)),
        n_of(descend_spec(s)) == n_of(s),
        has_reading(descend_spec(s)),
        s.phase is Descend && inv_state(s) ==> lex_lt(reading(s), reading(descend_spec(s))),
{
    let k0 = s.k - 1;
    let x = s.buf[k0] + 1;
    lemma_sum_subrange_step(s.buf, k0);
    assert(s.buf.subrange(0, k0 + 1) == s.buf.subrange(0, s.k));
    if k0 >= 1 {
        assert(s.buf[k0 - 1] <= s.buf[k0]);
    }
    lemma_lay_props(s.buf, k0, x, s.y);
    let (b, k1, y1) = lay(s.buf, k0, x, s.y);
    lemma_descend_finish(s, b, k1, y1, x);
}

/// One transition out of any sound state is sound, keeps `n`, changes
/// nothing once exhausted, and moves strictly up in lexicographic order
/// whenever a partition is held on both sides. A state holding a partition
/// is only ever reached from the start state or from another one.
pub proof fn lemma_step_next(s: SpecState)
    requires
        inv_state(s),
    ensures
        inv_state(spec_step(s)),
        n_of(spec_step(s)) == n_of(s),
        s.phase is Done ==> spec_step(s) == s,
        !(spec_step(s).phase is Fresh),
        has_reading(s) && has_reading(spec_step(s)) ==> lex_lt(reading(s), reading(spec_step(s))),
        has_reading(spec_step(s)) ==> s.phase is Fresh || has_reading(s),
{
    match s.phase {
        SpecPhase::Fresh => {
            if s.buf.len() > 1 {
                lemma_fresh_pre(s);
                lemma_descend_next(s);
            }
        },
        SpecPhase::Descend => {
            if s.k != 0 {
                lemma_descend_pre(s);
                lemma_descend_next(s);
            }
        },
        SpecPhase::Split { x, l } => {
            lemma_split_next(s, x, l);
        },
        SpecPhase::EmptyHeld => {},
        SpecPhase::Done => {},
    }
}

/// The state a generator for `n` holds after `i` advances: `spec_step`
/// iterated on the start state. By the contracts of `new`, `recycle` and
/// `advance`, a whole run is this function of `n` and the step count alone —
/// in particular, recycled storage changes nothing about what is produced.
pub open spec fn run(n: usize, i: nat) -> SpecState
    decreases i,
{
    if i == 0 {
        init_state(n)
    } else {
        spec_step(run(n, (i - 1) as nat))
    }
}

/// The start state is sound, whatever `n`.
pub proof fn lemma_init_inv(n: usize)
    requires
        n < usize::MAX,
    ensures
        inv_state(init_state(n)),
        n_of(init_state(n)) == n,
{
}

/// Every state a run passes through is sound and still enumerates `n`.
pub proof fn lemma_run_inv(n: usize, i: nat)
    requires
        n < usize::MAX,
    ensures
        inv_state(run(n, i)),
        n_of(run(n, i)) == n,
    decreases i,
{
    if i == 0 {
        lemma_init_inv(n);
    } else {
        lemma_run_inv(n, (i - 1) as nat);
        lemma_step_next(run(n, (i - 1) as nat));
    }
}

/// Within one run, the partitions held at two different times are strictly
/// ordered: the later one is lexicographically above the earlier one.
pub proof fn lemma_run_lex(n: usize, i: nat, j: nat)
    requires
        n < usize::MAX,
        1 <= i < j,
        has_reading(run(n, i)),
        has_reading(run(n, j)),
    ensures
        lex_lt(reading(run(n, i)), reading(run(n, j))),
    decreases j,
{
    let prev = run(n, (j - 1) as nat);
    lemma_run_inv(n, (j - 1) as nat);
    lemma_step_next(prev);
    assert(!(prev.phase is Fresh)) by {
        lemma_run_inv(n, (j - 2) as nat);
        lemma_step_next(run(n, (j - 2) as nat));
    }
    assert(has_reading(prev));
    if i < j - 1 {
        lemma_run_lex(n, i, (j - 1) as nat);
        lemma_lex_lt_transitive(reading(run(n, i)), reading(prev), reading(run(n, j)));
    }
}

/// A run never holds the same partition twice: each one is visited at most
/// once over the whole enumeration.
pub proof fn lemma_run_no_repeat(n: usize, i: nat, j: nat)
    requires
        n < usize::MAX,
        1 <= i < j,
        has_reading(run(n, i)),
        has_reading(run(n, j)),
    ensures
        reading(run(n, i)) != reading(run(n, j)),
{
    lemma_run_lex(n, i, j);
    lemma_lex_lt_irreflexive(reading(run(n, i)));
}

/// Exhaustion is absorbing: once a run is done, every later state is that
/// same exhausted state, and no later read yields a partition.
pub proof fn lemma_done_stable(n: usize, i: nat, j: nat)
    requires
        i <= j,
        run(n, i).phase is Done,
    ensures
        run(n, j) == run(n, i),
        !has_reading(run(n, j)),
    decreases j,
{
    if i < j {
        lemma_done_stable(n, i, (j - 1) as nat);
    }
}

/// Iterates over the partitions of a given non-negative integer.
#[derive(Debug)]
pub struct Partitions {
    a: Vec<usize>,
    k: usize,
    y: usize,
    phase: Phase,
}

impl View for Partitions {
    type V = SpecState;

    closed spec fn view(&self) -> SpecState {
        SpecState {
            buf: self.a@,
            k: self.k as int,
            y: self.y as int,
            phase: match self.phase {
                Phase::Fresh => SpecPhase::Fresh,
                Phase::Descend => SpecPhase::Descend,
                Phase::Split { x, l } => SpecPhase::Split { x: x as int, l: l as int },
                Phase::EmptyHeld => SpecPhase::EmptyHeld,
                Phase::Done => SpecPhase::Done,
            },
        }
    }
}

impl Partitions {
    /// Makes a new iterator.
    pub fn new(n: usize) -> (r: Partitions)
        requires
            n < usize::MAX,
        ensures
            r@ == init_state(n),
            inv_state(r@),
            n_of(r@) == n,
    {
        Self::recycle(n, Vec::new())
    }

    /// Makes a new iterator, trying to avoid allocations.
    ///
    /// Any vector can be passed to this function, since its contents
    /// will be cleared and it will be filled with zeroes, but note
    /// that the vector will still reallocate if its capacity is less
    /// than `n + 1`. The state this returns is `init_state(n)` whatever
    /// the vector held, so a recycled enumeration is the same as a
    /// fresh one.
    pub fn recycle(n: usize, vec: Vec<usize>) -> (r: Partitions)
        requires
            n < usize::MAX,
        ensures
            r@ == init_state(n),
            inv_state(r@),
            n_of(r@) == n,
    {
        let mut vec = vec;
        vec.clear();
        let mut i: usize = 0;
        while i < n + 1
            invariant
                i <= n + 1,
                n < usize::MAX,
                vec@.len() == i,
                forall|j: int| 0 <= j < i ==> vec@[j] == 0usize,
            decreases n + 1 - i,
        {
            vec.push(0);
            i = i + 1;
        }
        proof {
            assert(vec@ =~= init_state(n).buf);
        }
        if n == 0 {
            Partitions { a: vec, k: 0, y: 0, phase: Phase::Fresh }
        } else {
            Partitions { a: vec, k: 1, y: n - 1, phase: Phase::Fresh }
        }
    }

    /// Destroys the iterator and returns its backing vector for further use.
    ///
    /// You only need to call this function if you want to reuse the
    /// vector for something else. The values left in it are the scratch
    /// contents of the last step and mean nothing on their own.
    pub fn end(self) -> (r: Vec<usize>)
        ensures
            r@ == self@.buf,
    {
        self.a
    }

    /// The descent phase's step: move the boundary one cell left, greedily
    /// lay a run of the minimal extension, then split or merge the rest.
    fn descend_step(&mut self)
        requires
            pre_descend(old(self)@),
        ensures
            final(self)@ == descend_spec(old(self)@),
            inv_state(final(self)@),
            n_of(final(self)@) == n_of(old(self)@),
            has_reading(final(self)@),
            old(self)@.phase is Descend && inv_state(old(self)@) ==> lex_lt(
                reading(old(self)@),
                reading(final(self)@),
            ),
    {
        let ghost v0 = self@;
        let ghost n: int = n_of(v0);
        let ghost k0: int = v0.k - 1;
        let blen = self.a.len();
        proof {
            lemma_sum_element_bound(v0.buf.subrange(0, v0.k), v0.k - 1);
            lemma_sum_nonneg(v0.buf.subrange(0, v0.k - 1));
            assert(v0.buf.subrange(0, v0.k).drop_last() =~= v0.buf.subrange(0, v0.k - 1));
            assert(v0.buf.subrange(0, v0.k)[v0.k - 1] == v0.buf[k0]);
            if v0.k >= 2 {
                assert(v0.buf[v0.k - 2] <= v0.buf[v0.k - 1]);
            }
        }
        let kk0 = self.k - 1;
        let x = self.a[kk0] + 1;
        self.k = kk0;
        while x <= self.y && self.y - x >= x
            invariant
                pre_descend(v0),
                k0 == v0.k - 1,
                n == n_of(v0),
                self.a@.len() == v0.buf.len(),
                v0.buf.len() == blen as int,
                x as int == v0.buf[k0] + 1,
                1 <= x,
                k0 <= self.k as int <= n,
                seq_sum(self.a@.subrange(0, self.k as int)) + x + self.y == n,
                forall|i: int| 0 <= i < self.k as int ==> #[trigger] self.a@[i] >= 1,
                nondecreasing_to(self.a@, self.k as int),
                self.k as int >= 1 ==> self.a@[self.k as int - 1] <= x,
                self.a@.subrange(0, k0) == v0.buf.subrange(0, k0),
                forall|i: int| k0 <= i < self.k as int ==> #[trigger] self.a@[i] == x,
                lay(v0.buf, k0, x as int, v0.y) == lay(
                    self.a@,
                    self.k as int,
                    x as int,
                    self.y as int,
                ),
            decreases self.y,
        {
            proof {
                lemma_sum_ge_len(self.a@.subrange(0, self.k as int));
            }
            let ghost a_in = self.a@;
            let ghost k_in: int = self.k as int;
            let ghost y_in: int = self.y as int;
            let kk = self.k;
            self.a.set(kk, x);
            self.y = self.y - x;
            self.k = kk + 1;
            proof {
                assert(self.a@.subrange(0, k0) =~= a_in.subrange(0, k0));
                assert(self.a@.subrange(0, k_in) =~= a_in.subrange(0, k_in));
                lemma_sum_subrange_step(self.a@, k_in);
                assert forall|i: int, j: int|
                    #![trigger self.a@[i], self.a@[j]]
                    0 <= i <= j < self.k as int implies self.a@[i] <= self.a@[j] by {
                    if j < k_in {
                        assert(self.a@[i] == a_in[i] && self.a@[j] == a_in[j]);
                        assert(a_in[i] <= a_in[j]);
                    } else if i < k_in {
                        assert(self.a@[i] == a_in[i]);
                        assert(a_in[i] <= a_in[k_in - 1]);
                    }
                }
                assert(nondecreasing_to(self.a@, self.k as int));
                assert(lay(a_in, k_in, x as int, y_in) == lay(
                    self.a@,
                    self.k as int,
                    x as int,
                    self.y as int,
                ));
            }
        }
        proof {
            assert(2 * (x as int) > self.y as int);
            assert(lay(self.a@, self.k as int, x as int, self.y as int) == (
                self.a@,
                self.k as int,
                self.y as int,
            ));
            lemma_descend_finish(v0, self.a@, self.k as int, self.y as int, x as int);
        }
        let l = self.k + 1;
        if x <= self.y {
            let kk = self.k;
            let yv = self.y;
            self.a.set(kk, x);
            self.a.set(l, yv);
            self.phase = Phase::Split { x, l };
            proof {
                assert(self@ == descend_spec(v0));
            }
        } else {
            let kk = self.k;
            let t = x + self.y;
            self.a.set(kk, t);
            self.y = t - 1;
            self.phase = Phase::Descend;
            proof {
                assert(self@ == descend_spec(v0));
            }
        }
    }

    /// Mutates the state to compute the next partition (or, once the
    /// enumeration is over, to settle into the exhausted state). Must be
    /// called before the first read and once between every two reads.
    ///
    /// The new state is exactly `spec_step` of the old one, so a whole run is
    /// a function of the initial state alone. Successive held partitions
    /// strictly increase lexicographically, so no partition is ever held
    /// twice; and a step taken after exhaustion changes nothing.
    pub fn advance(&mut self)
        requires
            inv_state(old(self)@),
        ensures
            final(self)@ == spec_step(old(self)@),
            inv_state(final(self)@),
            n_of(final(self)@) == n_of(old(self)@),
            old(self)@.phase is Done ==> final(self)@ == old(self)@,
            has_reading(old(self)@) && has_reading(final(self)@) ==> lex_lt(
                reading(old(self)@),
                reading(final(self)@),
            ),
    {
        let ghost v0 = self@;
        match self.phase {
            Phase::Fresh => {
                if self.a.len() == 1 {
                    self.phase = Phase::EmptyHeld;
                } else {
                    proof {
                        lemma_fresh_pre(v0);
                    }
                    self.descend_step();
                }
            },
            Phase::Descend => {
                if self.k == 0 {
                    self.phase = Phase::Done;
                } else {
                    proof {
                        lemma_descend_pre(v0);
                    }
                    self.descend_step();
                }
            },
            Phase::Split { x, l } => {
                proof {
                    lemma_split_next(v0, x as int, l as int);
                }
                let x1 = x + 1;
                let y1 = self.y - 1;
                let kk = self.k;
                if x1 <= y1 {
                    self.a.set(kk, x1);
                    self.a.set(l, y1);
                    self.y = y1;
                    self.phase = Phase::Split { x: x1, l };
                } else {
                    let t = x1 + y1;
                    self.a.set(kk, t);
                    self.y = t - 1;
                    self.phase = Phase::Descend;
                }
                proof {
                    assert(self@ == spec_step(v0));
                }
            },
            Phase::EmptyHeld => {
                self.phase = Phase::Done;
            },
            Phase::Done => {},
        }
    }

    /// Returns the partition currently held, as a borrowed view of the active
    /// prefix of the buffer, without mutating anything; or `None` both before
    /// the first advance and after exhaustion. Reading is idempotent: after
    /// exhaustion every further read keeps yielding `None`.
    ///
    /// A held partition is always genuine: strictly positive parts in
    /// non-decreasing order, summing to the `n` the generator was built for.
    /// For `n = 0` the one held partition is the empty slice, which is a real
    /// partition and not the exhaustion marker.
    pub fn get(&self) -> (r: Option<&[usize]>)
        requires
            inv_state(self@),
        ensures
            r is Some <==> has_reading(self@),
            r matches Some(v) ==> v@ == reading(self@) && is_ascending_partition_of(
                v@,
                n_of(self@),
            ),
    {
        match self.phase {
            Phase::Fresh => None,
            Phase::Done => None,
            Phase::EmptyHeld => {
                let s = slice_subrange(self.a.as_slice(), 0, 0);
                proof {
                    assert(s@ =~= reading(self@));
                }
                Some(s)
            },
            Phase::Descend => {
                let kk = self.k;
                Some(slice_subrange(self.a.as_slice(), 0, kk + 1))
            },
            Phase::Split { x: _, l } => {
                Some(slice_subrange(self.a.as_slice(), 0, l + 1))
            },
        }
    }
}

} // verus!
