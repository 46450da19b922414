//! Bookkeeping of adaptive quadrature by bisection.
//!
//! The integrator samples an interval at one, two, four and five sixths of its
//! width, compares two estimates built from those four values, and either
//! accepts the interval or cuts it in half and treats each half in turn. The
//! offsets are such that the two inner samples of a half are samples of its
//! parent: a half costs two fresh evaluations, not four.
//!
//! This module keeps the intervals that still wait for a decision, refuses to
//! cut below a depth limit, and counts evaluations. Intervals are addressed by
//! depth and index, so their ends are exact. Evaluating the integrand and
//! judging the error is the caller's part.

use vstd::prelude::*;
use vstd::arithmetic::power2::{
    lemma2_to64_rest, lemma_pow2_adds, lemma_pow2_pos, lemma_pow2_unfold, pow2,
};
use crate::error::IntegrationError;

verus! {

/// No interval lies deeper than this.
pub const DEPTH_LIMIT: u32 = 60;

/// Depth limit of a bisection when the caller has no preference.
pub const DEFAULT_MAX_DEPTH: u32 = 48;

/// Offset, in sixths of the width, of the lower outer sample.
pub const OUTER_LOW: u64 = 1;

/// Offset, in sixths of the width, of the lower inner sample.
pub const INNER_LOW: u64 = 2;

/// Offset, in sixths of the width, of the upper inner sample.
pub const INNER_HIGH: u64 = 4;

/// Offset, in sixths of the width, of the upper outer sample.
pub const OUTER_HIGH: u64 = 5;

/// Evaluations made before the first interval is visited: its inner samples.
pub const SHARED_EVALUATIONS: u64 = 2;

/// Evaluations made when an interval is visited: its outer samples.
pub const FRESH_EVALUATIONS: u64 = 2;

/// Width of an interval at `depth`, in units of `2^-60` of the root.
pub open spec fn span(depth: u32) -> nat {
    pow2((DEPTH_LIMIT - depth) as nat)
}

/// A dyadic part of the root interval: at `depth`, the root is cut into
/// `2^depth` equal parts, and this is the one at position `index`.
#[derive(Clone, Copy, Debug, PartialEq, Eq, Structural)]
pub struct Interval {
    pub depth: u32,
    pub index: u64,
}

impl Interval {
    /// The interval lies inside the root and above the depth limit.
    pub open spec fn wf(&self) -> bool {
        &&& self.depth <= DEPTH_LIMIT
        &&& self.index < pow2(self.depth as nat)
    }

    /// Lower end, in units of `2^-60` of the root.
    pub open spec fn lower(&self) -> nat {
        self.index as nat * span(self.depth)
    }

    /// Upper end, in units of `2^-60` of the root.
    pub open spec fn upper(&self) -> nat {
        (self.index + 1) as nat * span(self.depth)
    }

    /// Position of the sample at `sixths` sixths of the width, in units of
    /// `2^-60 / 6` of the root.
    pub open spec fn sample(&self, sixths: u64) -> nat {
        (6 * self.index + sixths) as nat * span(self.depth)
    }

    /// The lower half.
    pub open spec fn spec_left(&self) -> Interval {
        Interval { depth: (self.depth + 1) as u32, index: (2 * self.index) as u64 }
    }

    /// The upper half.
    pub open spec fn spec_right(&self) -> Interval {
        Interval { depth: (self.depth + 1) as u32, index: (2 * self.index + 1) as u64 }
    }

    /// The whole root interval.
    pub fn root() -> (r: Interval)
        ensures
            r == (Interval { depth: 0, index: 0 }),
            r.wf(),
            r.lower() == 0,
            r.upper() == span(0),
    {
        proof {
            lemma_pow2_pos(0);
            assert(1 * span(0) == span(0));
            assert(0 * span(0) == 0);
        }
        Interval { depth: 0, index: 0 }
    }

    /// The two halves of an interval share its ends and meet in the middle.
    pub proof fn lemma_halves(&self)
        requires
            self.wf(),
            self.depth < DEPTH_LIMIT,
        ensures
            self.spec_left().wf(),
            self.spec_right().wf(),
            self.spec_left().lower() == self.lower(),
            self.spec_left().upper() == self.spec_right().lower(),
            self.spec_right().upper() == self.upper(),
            2 * self.index + 1 <= u64::MAX,
            span(self.depth) == 2 * span((self.depth + 1) as u32),
    {
        let whole: nat = span(self.depth);
        let half: nat = span((self.depth + 1) as u32);
        lemma_pow2_unfold((DEPTH_LIMIT - self.depth) as nat);
        lemma_pow2_unfold((self.depth + 1) as nat);
        lemma_depth_fits(self.depth as nat);
        lemma_depth_fits((self.depth + 1) as nat);
        assert(whole == 2 * half);
        let i: nat = self.index as nat;
        assert((2 * i) * half == i * whole) by (nonlinear_arith)
            requires
                whole == 2 * half,
        ;
        assert((2 * i + 1 + 1) * half == (i + 1) * whole) by (nonlinear_arith)
            requires
                whole == 2 * half,
        ;
    }

    /// The inner samples of each half are samples of the whole: the lower
    /// half inherits the two lower samples, the upper half the two upper ones.
    pub proof fn lemma_samples_are_shared(&self)
        requires
            self.wf(),
            self.depth < DEPTH_LIMIT,
        ensures
            self.spec_left().sample(INNER_LOW) == self.sample(OUTER_LOW),
            self.spec_left().sample(INNER_HIGH) == self.sample(INNER_LOW),
            self.spec_right().sample(INNER_LOW) == self.sample(INNER_HIGH),
            self.spec_right().sample(INNER_HIGH) == self.sample(OUTER_HIGH),
    {
        let whole: nat = span(self.depth);
        let half: nat = span((self.depth + 1) as u32);
        self.lemma_halves();
        lemma_depth_fits(self.depth as nat);
        let i: nat = self.index as nat;
        assert((6 * (2 * i) + 2) * half == (6 * i + 1) * whole) by (nonlinear_arith)
            requires
                whole == 2 * half,
        ;
        assert((6 * (2 * i) + 4) * half == (6 * i + 2) * whole) by (nonlinear_arith)
            requires
                whole == 2 * half,
        ;
        assert((6 * (2 * i + 1) + 2) * half == (6 * i + 4) * whole) by (nonlinear_arith)
            requires
                whole == 2 * half,
        ;
        assert((6 * (2 * i + 1) + 4) * half == (6 * i + 5) * whole) by (nonlinear_arith)
            requires
                whole == 2 * half,
        ;
    }

    /// Cuts the interval in two.
    pub fn halves(&self) -> (parts: (Interval, Interval))
        requires
            self.wf(),
            self.depth < DEPTH_LIMIT,
        ensures
            parts.0 == self.spec_left(),
            parts.1 == self.spec_right(),
            parts.0.wf(),
            parts.1.wf(),
    {
        proof {
            self.lemma_halves();
        }
        (
            Interval { depth: self.depth + 1, index: 2 * self.index },
            Interval { depth: self.depth + 1, index: 2 * self.index + 1 },
        )
    }
}

/// Up to the depth limit, two to the depth fits in 64 bits with room to spare.
pub proof fn lemma_depth_fits(depth: nat)
    requires
        depth <= DEPTH_LIMIT + 1,
    ensures
        pow2(depth) <= 0x2000_0000_0000_0000,
        pow2(depth) >= 1,
    decreases
            DEPTH_LIMIT + 1 - depth,
{
    lemma2_to64_rest();
    lemma_pow2_pos(depth);
    if depth < DEPTH_LIMIT + 1 {
        lemma_depth_fits(depth + 1);
        lemma_pow2_unfold(depth + 1);
    }
}

/// `true` when `parts`, in order, cut `[from, to]` into adjacent intervals.
pub open spec fn tiles(parts: Seq<Interval>, from: nat, to: nat) -> bool
    decreases parts.len(),
{
    if parts.len() == 0 {
        from == to
    } else {
        &&& parts.last().wf()
        &&& parts.last().upper() == to
        &&& tiles(parts.drop_last(), from, parts.last().lower())
    }
}

/// Number of intervals in the full tree below an interval at `depth`, itself
/// included, when nothing is cut below `max_depth`.
pub open spec fn subtree(depth: nat, max_depth: nat) -> nat
    decreases max_depth - depth,
{
    if depth >= max_depth {
        1
    } else {
        1 + 2 * subtree(depth + 1, max_depth)
    }
}

/// The full tree below an interval at `depth` has `2^(max_depth - depth + 1) - 1`
/// intervals.
pub proof fn lemma_subtree_size(depth: nat, max_depth: nat)
    requires
        depth <= max_depth,
    ensures
        subtree(depth, max_depth) + 1 == 2 * pow2((max_depth - depth) as nat),
    decreases max_depth - depth,
{
    if depth < max_depth {
        lemma_subtree_size(depth + 1, max_depth);
        lemma_pow2_unfold((max_depth - depth) as nat);
    } else {
        lemma2_to64_rest();
        vstd::arithmetic::power2::lemma2_to64();
    }
}

/// Upper bound on the intervals still to be visited when `stack` waits.
pub open spec fn work(stack: Seq<Interval>, max_depth: nat) -> nat
    decreases stack.len(),
{
    if stack.len() == 0 {
        0
    } else {
        subtree(stack.last().depth as nat, max_depth) + work(stack.drop_last(), max_depth)
    }
}

/// `true` when the intervals of `stack`, from the last to the first, cut
/// `[from, to]` into adjacent intervals no deeper than `max_depth`.
pub open spec fn waits(stack: Seq<Interval>, from: nat, to: nat, max_depth: u32) -> bool
    decreases stack.len(),
{
    if stack.len() == 0 {
        from == to
    } else {
        &&& stack.last().wf()
        &&& stack.last().depth <= max_depth
        &&& stack.last().lower() == from
        &&& waits(stack.drop_last(), stack.last().upper(), to, max_depth)
    }
}

/// The state of one adaptive integration: the intervals accepted so far, the
/// intervals that wait for a decision, and the evaluations made.
pub struct Bisector {
    pending: Vec<Interval>,
    max_depth: u32,
    accepted: u64,
    splits: u64,
    leaves: Ghost<Seq<Interval>>,
}

impl Bisector {
    /// The accepted intervals, from the lowest to the highest.
    pub closed spec fn leaves(&self) -> Seq<Interval> {
        self.leaves@
    }

    /// The waiting intervals. The last one is visited next, and each one lies
    /// directly above the one after it.
    pub closed spec fn pending(&self) -> Seq<Interval> {
        self.pending@
    }

    /// The depth below which nothing is cut.
    pub closed spec fn max_depth(&self) -> u32 {
        self.max_depth
    }

    /// Number of intervals that were cut.
    pub closed spec fn splits(&self) -> nat {
        self.splits as nat
    }

    /// Evaluations of the integrand so far: two for the inner samples of the
    /// root, and two for every interval accepted or cut.
    pub open spec fn evaluations(&self) -> nat {
        SHARED_EVALUATIONS as nat + FRESH_EVALUATIONS as nat * (self.leaves().len() + self.splits())
    }

    /// Where the accepted intervals end and the waiting ones begin.
    pub open spec fn frontier(&self) -> nat {
        if self.pending().len() == 0 {
            span(0)
        } else {
            self.pending().last().lower()
        }
    }

    /// Upper bound on the number of decisions still to come.
    pub open spec fn remaining_work(&self) -> nat {
        work(self.pending(), self.max_depth() as nat)
    }

    /// The accepted and the waiting intervals together cut the root into
    /// adjacent parts, and the counters agree with them.
    pub closed spec fn wf(&self) -> bool {
        &&& self.max_depth <= DEPTH_LIMIT
        &&& self.accepted == self.leaves@.len()
        &&& self.pending@.len() + self.accepted == self.splits + 1
        &&& tiles(self.leaves@, 0, self.frontier())
        &&& waits(self.pending@, self.frontier(), span(0), self.max_depth)
        &&& self.accepted + self.splits + work(self.pending@, self.max_depth as nat) <= subtree(
            0,
            self.max_depth as nat,
        )
    }

    /// The accepted intervals cut the part of the root below the frontier
    /// into adjacent intervals. When nothing waits, that part is the root.
    pub proof fn lemma_leaves_tile(&self)
        requires
            self.wf(),
        ensures
            tiles(self.leaves(), 0, self.frontier()),
            self.pending().len() == 0 ==> tiles(self.leaves(), 0, span(0)),
    {
    }

    /// Each cut adds one interval: the accepted and the waiting intervals are
    /// one more than the cuts. So a finished integration with `k` accepted
    /// intervals has made `4 * k` evaluations, two fresh ones for each
    /// interval it visited.
    pub proof fn lemma_evaluations(&self)
        requires
            self.wf(),
        ensures
            self.leaves().len() + self.pending().len() == self.splits() + 1,
            self.pending().len() == 0 ==> self.evaluations() == 4 * self.leaves().len(),
            self.evaluations() + 2 * self.remaining_work() <= 2 * pow2(
                (self.max_depth() + 1) as nat,
            ),
            self.evaluations() <= 0x4000_0000_0000_0000,
    {
        lemma_subtree_size(0, self.max_depth as nat);
        lemma_pow2_unfold((self.max_depth + 1) as nat);
        lemma_depth_fits((self.max_depth + 1) as nat);
    }

    /// A bisection of the root that cuts no deeper than `max_depth`, or than
    /// the depth limit if that is less. The two inner samples of the root are
    /// counted as made.
    pub fn new(max_depth: u32) -> (b: Bisector)
        ensures
            b.wf(),
            b.max_depth() == if max_depth <= DEPTH_LIMIT {
                max_depth
            } else {
                DEPTH_LIMIT
            },
            b.leaves() == Seq::<Interval>::empty(),
            b.pending() == seq![Interval { depth: 0, index: 0 }],
            b.splits() == 0,
            b.evaluations() == 2,
    {
        let limit: u32 = if max_depth <= DEPTH_LIMIT {
            max_depth
        } else {
            DEPTH_LIMIT
        };
        let root: Interval = Interval::root();
        let mut pending: Vec<Interval> = Vec::new();
        pending.push(root);
        let b = Bisector { pending, max_depth: limit, accepted: 0, splits: 0, leaves: Ghost(Seq::empty()) };
        proof {
            assert(b.pending@ =~= seq![root]);
            assert(b.pending@.drop_last() =~= Seq::<Interval>::empty());
            assert(waits(b.pending@.drop_last(), root.upper(), span(0), limit));
            assert(waits(b.pending@, 0, span(0), limit));
            assert(work(b.pending@.drop_last(), limit as nat) == 0);
            assert(work(b.pending@, limit as nat) == subtree(0, limit as nat));
        }
        b
    }

    /// The interval to decide next, or `None` when the integration is
    /// finished.
    pub fn current(&self) -> (r: Option<Interval>)
        requires
            self.wf(),
        ensures
            self.pending().len() == 0 ==> r.is_none(),
            self.pending().len() > 0 ==> r == Some(self.pending().last()),
            r.is_some() ==> r.unwrap().wf() && r.unwrap().depth <= self.max_depth(),
    {
        let n: usize = self.pending.len();
        if n == 0 {
            None
        } else {
            Some(self.pending[n - 1])
        }
    }

    /// Accepts the current interval: it joins the accepted ones, and its two
    /// outer samples are counted.
    pub fn accept(&mut self)
        requires
            old(self).wf(),
            old(self).pending().len() > 0,
        ensures
            final(self).wf(),
            final(self).max_depth() == old(self).max_depth(),
            final(self).pending() == old(self).pending().drop_last(),
            final(self).leaves() == old(self).leaves().push(old(self).pending().last()),
            final(self).splits() == old(self).splits(),
            final(self).evaluations() == old(self).evaluations() + 2,
            final(self).remaining_work() < old(self).remaining_work(),
    {
        proof {
            old(self).lemma_evaluations();
            lemma_subtree_size(0, self.max_depth as nat);
            lemma_depth_fits(self.max_depth as nat);
        }
        let ghost before: Seq<Interval> = self.pending@;
        let top: Option<Interval> = self.pending.pop();
        let ghost leaf: Interval = before.last();
        proof {
            assert(self.pending@ =~= before.drop_last());
            assert(self.leaves@.push(leaf).drop_last() =~= self.leaves@);
            assert(self.leaves@.push(leaf).last() == leaf);
            assert(subtree(leaf.depth as nat, self.max_depth as nat) >= 1);
            assert(waits(before, leaf.lower(), span(0), self.max_depth));
            assert(waits(before.drop_last(), leaf.upper(), span(0), self.max_depth));
            if self.pending@.len() > 0 {
                assert(self.pending@.last().lower() == leaf.upper());
            }
            self.leaves@ = self.leaves@.push(leaf);
        }
        self.accepted = self.accepted + 1;
    }

    /// Cuts the current interval in two: its outer samples are counted, and
    /// its halves wait in its place, the lower one first. At the depth limit
    /// nothing changes and the answer is `ToleranceNotAchievable`.
    pub fn split(&mut self) -> (r: Result<(), IntegrationError>)
        requires
            old(self).wf(),
            old(self).pending().len() > 0,
        ensures
            final(self).wf(),
            final(self).max_depth() == old(self).max_depth(),
            final(self).leaves() == old(self).leaves(),
            old(self).pending().last().depth < old(self).max_depth() ==> {
                &&& r == Ok::<(), IntegrationError>(())
                &&& final(self).pending() == old(self).pending().drop_last().push(
                    old(self).pending().last().spec_right(),
                ).push(old(self).pending().last().spec_left())
                &&& final(self).splits() == old(self).splits() + 1
                &&& final(self).evaluations() == old(self).evaluations() + 2
                &&& final(self).remaining_work() < old(self).remaining_work()
            },
            old(self).pending().last().depth >= old(self).max_depth() ==> {
                &&& r == Err::<(), IntegrationError>(IntegrationError::ToleranceNotAchievable)
                &&& final(self).pending() == old(self).pending()
                &&& final(self).splits() == old(self).splits()
            },
    {
        let n: usize = self.pending.len();
        let top: Interval = self.pending[n - 1];
        if top.depth >= self.max_depth {
            return Err(IntegrationError::ToleranceNotAchievable);
        }
        proof {
            old(self).lemma_evaluations();
            lemma_subtree_size(0, self.max_depth as nat);
            lemma_depth_fits(self.max_depth as nat);
            top.lemma_halves();
        }
        let ghost before: Seq<Interval> = self.pending@;
        let parts: (Interval, Interval) = top.halves();
        self.pending.pop();
        self.pending.push(parts.1);
        self.pending.push(parts.0);
        proof {
            let rest: Seq<Interval> = before.drop_last();
            let one: Seq<Interval> = rest.push(parts.1);
            let two: Seq<Interval> = one.push(parts.0);
            assert(self.pending@ =~= two);
            assert(two.drop_last() =~= one);
            assert(one.drop_last() =~= rest);
            assert(two.last() == parts.0);
            assert(one.last() == parts.1);
            assert(waits(rest, top.upper(), span(0), self.max_depth));
            assert(waits(one, parts.1.lower(), span(0), self.max_depth));
            assert(waits(two, parts.0.lower(), span(0), self.max_depth));
            let m: nat = self.max_depth as nat;
            assert(subtree(top.depth as nat, m) == 1 + 2 * subtree((top.depth + 1) as nat, m));
            assert(work(one, m) == subtree(parts.1.depth as nat, m) + work(rest, m));
            assert(work(two, m) == subtree(parts.0.depth as nat, m) + work(one, m));
            assert(work(before, m) == subtree(top.depth as nat, m) + work(rest, m));
        }
        self.splits = self.splits + 1;
        Ok(())
    }

    /// `true` when no interval waits.
    pub fn is_done(&self) -> (done: bool)
        ensures
            done == (self.pending().len() == 0),
    {
        self.pending.len() == 0
    }

    /// Evaluations of the integrand so far.
    pub fn evaluation_count(&self) -> (count: u64)
        requires
            self.wf(),
        ensures
            count == self.evaluations(),
    {
        proof {
            self.lemma_evaluations();
        }
        SHARED_EVALUATIONS + FRESH_EVALUATIONS * (self.accepted + self.splits)
    }

    /// Number of accepted intervals.
    pub fn leaf_count(&self) -> (count: u64)
        requires
            self.wf(),
        ensures
            count == self.leaves().len(),
    {
        self.accepted
    }
}

/// The intervals that wait after the decisions `accepted` have been taken
/// from the root on: `true` accepts the interval in turn, `false` cuts it.
pub open spec fn stack_after(accepted: Seq<bool>) -> Seq<Interval>
    decreases accepted.len(),
{
    if accepted.len() == 0 {
        seq![Interval { depth: 0, index: 0 }]
    } else {
        let before = stack_after(accepted.drop_last());
        if before.len() == 0 {
            before
        } else if accepted.last() {
            before.drop_last()
        } else {
            before.drop_last().push(before.last().spec_right()).push(before.last().spec_left())
        }
    }
}

/// Number of intervals accepted among the decisions `accepted`.
pub open spec fn count_accepted(accepted: Seq<bool>) -> nat
    decreases accepted.len(),
{
    if accepted.len() == 0 {
        0
    } else {
        count_accepted(accepted.drop_last()) + if accepted.last() {
            1nat
        } else {
            0nat
        }
    }
}

/// `true` when visit `k` sees the interval that is in turn after the
/// decisions before it, and `visit` may turn `states[k]` into `states[k + 1]`
/// with the decision `accepted[k]` on seeing it.
pub open spec fn is_visit<A, F: Fn(A, Interval) -> (A, bool)>(
    visit: F,
    states: Seq<A>,
    intervals: Seq<Interval>,
    accepted: Seq<bool>,
    k: int,
) -> bool {
    &&& stack_after(accepted.take(k)).len() > 0
    &&& intervals[k] == stack_after(accepted.take(k)).last()
    &&& call_ensures(visit, (states[k], intervals[k]), (states[k + 1], accepted[k]))
}

/// `true` when the three sequences are the course of a bisection led by
/// `visit`, from the visit of the root on.
pub open spec fn is_bisection<A, F: Fn(A, Interval) -> (A, bool)>(
    visit: F,
    states: Seq<A>,
    intervals: Seq<Interval>,
    accepted: Seq<bool>,
) -> bool {
    &&& states.len() == accepted.len() + 1
    &&& intervals.len() == accepted.len()
    &&& forall|k: int|
        0 <= k < accepted.len() ==> #[trigger] is_visit(visit, states, intervals, accepted, k)
}

/// `true` when each of the first `count` visits that cut its interval did so
/// above `max_depth`.
pub open spec fn cuts_above(
    intervals: Seq<Interval>,
    accepted: Seq<bool>,
    max_depth: u32,
    count: int,
) -> bool {
    forall|k: int| 0 <= k < count && !accepted[k] ==> (#[trigger] intervals[k]).depth < max_depth
}

/// The depth limit in force when `max_depth` is asked for.
pub open spec fn effective_depth(max_depth: u32) -> u32 {
    if max_depth <= DEPTH_LIMIT {
        max_depth
    } else {
        DEPTH_LIMIT
    }
}

/// Integrates by bisection under the lead of `visit`.
///
/// Starting with the root, `visit` is shown the interval in turn, together
/// with what it made of the intervals before, starting from `start`. It
/// answers whether it accepts the interval. A refused interval is cut, and its
/// halves come next, the lower one first. When no interval is left, the
/// result is what `visit` made of the last one, and the number of
/// evaluations: two for the root and two for every visit, which is four for
/// every accepted interval.
///
/// A refusal at the depth limit, which is `max_depth` or 60 if that is less,
/// ends the integration with `ToleranceNotAchievable`.
pub fn bisect<A, F: Fn(A, Interval) -> (A, bool)>(max_depth: u32, start: A, visit: F) -> (r: Result<
    (A, u64),
    IntegrationError,
>)
    requires
        forall|state: A, interval: Interval|
            interval.wf() ==> call_requires(visit, (state, interval)),
    ensures
        r is Ok ==> exists|states: Seq<A>, intervals: Seq<Interval>, accepted: Seq<bool>|
            {
                &&& #[trigger] is_bisection(visit, states, intervals, accepted)
                &&& cuts_above(
                    intervals,
                    accepted,
                    effective_depth(max_depth),
                    accepted.len() as int,
                )
                &&& stack_after(accepted).len() == 0
                &&& states[0] == start
                &&& states.last() == r->Ok_0.0
                &&& r->Ok_0.1 == 2 + 2 * accepted.len()
                &&& r->Ok_0.1 == 4 * count_accepted(accepted)
            },
        r is Err ==> r->Err_0 == IntegrationError::ToleranceNotAchievable && exists|
            states: Seq<A>,
            intervals: Seq<Interval>,
            accepted: Seq<bool>,
        |
            {
                &&& #[trigger] is_bisection(visit, states, intervals, accepted)
                &&& accepted.len() > 0
                &&& cuts_above(
                    intervals,
                    accepted,
                    effective_depth(max_depth),
                    accepted.len() - 1,
                )
                &&& states[0] == start
                &&& !accepted.last()
                &&& intervals.last().depth >= effective_depth(max_depth)
            },
{
    let mut bisector: Bisector = Bisector::new(max_depth);
    let mut state: A = start;
    let ghost mut states: Seq<A> = seq![start];
    let ghost mut intervals: Seq<Interval> = Seq::empty();
    let ghost mut accepted: Seq<bool> = Seq::empty();
    proof {
        assert(accepted.take(0) =~= accepted);
    }
    loop
        invariant
            forall|state: A, interval: Interval|
                interval.wf() ==> call_requires(visit, (state, interval)),
            bisector.wf(),
            bisector.max_depth() == effective_depth(max_depth),
            bisector.pending() == stack_after(accepted),
            bisector.leaves().len() == count_accepted(accepted),
            bisector.leaves().len() + bisector.splits() == accepted.len(),
            is_bisection(visit, states, intervals, accepted),
            cuts_above(intervals, accepted, effective_depth(max_depth), accepted.len() as int),
            states[0] == start,
            states.last() == state,
        decreases bisector.remaining_work(),
    {
        let current: Option<Interval> = bisector.current();
        let interval: Interval = match current {
            Some(interval) => interval,
            None => {
                proof {
                    bisector.lemma_evaluations();
                }
                return Ok((state, bisector.evaluation_count()));
            },
        };
        let ghost before: A = state;
        let answer: (A, bool) = visit(state, interval);
        state = answer.0;
        let ghost old_states = states;
        let ghost old_intervals = intervals;
        let ghost old_accepted = accepted;
        proof {
            states = states.push(state);
            intervals = intervals.push(interval);
            accepted = accepted.push(answer.1);
            assert(accepted.drop_last() =~= old_accepted);
            assert(accepted.take(old_accepted.len() as int) =~= old_accepted);
            assert forall|k: int| 0 <= k < accepted.len() implies #[trigger] is_visit(
                visit,
                states,
                intervals,
                accepted,
                k,
            ) by {
                if k < old_accepted.len() {
                    assert(is_visit(visit, old_states, old_intervals, old_accepted, k));
                    assert(accepted.take(k) =~= old_accepted.take(k));
                    assert(intervals[k] == old_intervals[k]);
                    assert(states[k] == old_states[k]);
                    assert(states[k + 1] == old_states[k + 1]);
                    assert(accepted[k] == old_accepted[k]);
                } else {
                    assert(accepted.take(k) =~= old_accepted);
                    assert(states[k] == before);
                }
            }
            assert(is_bisection(visit, states, intervals, accepted));
        }
        if answer.1 {
            bisector.accept();
        } else {
            match bisector.split() {
                Ok(()) => {},
                Err(e) => {
                    proof {
                        assert(intervals.last() == interval);
                        assert forall|k: int|
                            0 <= k < accepted.len() - 1 && !accepted[k] implies (
                        #[trigger] intervals[k]).depth < effective_depth(max_depth) by {
                            assert(intervals[k] == old_intervals[k]);
                            assert(accepted[k] == old_accepted[k]);
                        }
                    }
                    return Err(e);
                },
            }
        }
        proof {
            assert forall|k: int| 0 <= k < accepted.len() && !accepted[k] implies (
            #[trigger] intervals[k]).depth < effective_depth(max_depth) by {
                if k < old_accepted.len() {
                    assert(intervals[k] == old_intervals[k]);
                    assert(accepted[k] == old_accepted[k]);
                }
            }
        }
    }
}

/// Six times the higher-order estimate over an interval of width `width`
/// from the four samples, in the order of their positions: the weights are
/// two, one, one and two sixths.
pub open spec fn higher_rule(f1: int, f2: int, f3: int, f4: int, width: int) -> int {
    (2 * f1 + f2 + f3 + 2 * f4) * width
}

/// Four times the lower-order estimate: all weights are one quarter.
pub open spec fn lower_rule(f1: int, f2: int, f3: int, f4: int, width: int) -> int {
    (f1 + f2 + f3 + f4) * width
}

/// The value at `x` of the cubic with coefficients `c0` to `c3`.
pub open spec fn cubic(c0: int, c1: int, c2: int, c3: int, x: int) -> int {
    c0 + c1 * x + c2 * (x * x) + c3 * (x * x * x)
}

/// Twelve times the antiderivative of that cubic at `x`.
pub open spec fn cubic_primitive(c0: int, c1: int, c2: int, c3: int, x: int) -> int {
    12 * (c0 * x) + 6 * (c1 * (x * x)) + 4 * (c2 * (x * x * x)) + 3 * (c3 * (x * x * x * x))
}

/// The weighted sum of the powers of the four sample positions of the
/// interval `[m - 3 h, m + 3 h]`: first, second and third powers.
proof fn lemma_power_sums(m: int, h: int)
    ensures
        2 * (m - 2 * h) + (m - h) + (m + h) + 2 * (m + 2 * h) == 6 * m,
        2 * ((m - 2 * h) * (m - 2 * h)) + (m - h) * (m - h) + (m + h) * (m + h) + 2 * ((m + 2 * h)
            * (m + 2 * h)) == 6 * (m * m) + 18 * (h * h),
        2 * ((m - 2 * h) * (m - 2 * h) * (m - 2 * h)) + (m - h) * (m - h) * (m - h) + (m + h) * (m
            + h) * (m + h) + 2 * ((m + 2 * h) * (m + 2 * h) * (m + 2 * h)) == 6 * (m * m * m) + 54
            * (m * (h * h)),
{
    let mm = m * m;
    let mh = m * h;
    let hh = h * h;
    assert((m - 2 * h) * (m - 2 * h) == mm - 4 * mh + 4 * hh) by (nonlinear_arith)
        requires
            mm == m * m,
            mh == m * h,
            hh == h * h,
    ;
    assert((m + 2 * h) * (m + 2 * h) == mm + 4 * mh + 4 * hh) by (nonlinear_arith)
        requires
            mm == m * m,
            mh == m * h,
            hh == h * h,
    ;
    assert((m - h) * (m - h) == mm - 2 * mh + hh) by (nonlinear_arith)
        requires
            mm == m * m,
            mh == m * h,
            hh == h * h,
    ;
    assert((m + h) * (m + h) == mm + 2 * mh + hh) by (nonlinear_arith)
        requires
            mm == m * m,
            mh == m * h,
            hh == h * h,
    ;
    let mmm = m * m * m;
    let mmh = mm * h;
    let mhh = m * hh;
    let hhh = hh * h;
    assert((m - 2 * h) * (m - 2 * h) * (m - 2 * h) == mmm - 6 * mmh + 12 * mhh - 8 * hhh)
        by (nonlinear_arith)
        requires
            mmm == m * m * m,
            mmh == (m * m) * h,
            mhh == m * (h * h),
            hhh == (h * h) * h,
    ;
    assert((m + 2 * h) * (m + 2 * h) * (m + 2 * h) == mmm + 6 * mmh + 12 * mhh + 8 * hhh)
        by (nonlinear_arith)
        requires
            mmm == m * m * m,
            mmh == (m * m) * h,
            mhh == m * (h * h),
            hhh == (h * h) * h,
    ;
    assert((m - h) * (m - h) * (m - h) == mmm - 3 * mmh + 3 * mhh - hhh) by (nonlinear_arith)
        requires
            mmm == m * m * m,
            mmh == (m * m) * h,
            mhh == m * (h * h),
            hhh == (h * h) * h,
    ;
    assert((m + h) * (m + h) * (m + h) == mmm + 3 * mmh + 3 * mhh + hhh) by (nonlinear_arith)
        requires
            mmm == m * m * m,
            mmh == (m * m) * h,
            mhh == m * (h * h),
            hhh == (h * h) * h,
    ;
}

/// The differences of the powers of the two ends of `[m - 3 h, m + 3 h]`,
/// from the second to the fourth power.
proof fn lemma_power_differences(m: int, h: int)
    ensures
        (m + 3 * h) * (m + 3 * h) - (m - 3 * h) * (m - 3 * h) == 12 * (m * h),
        (m + 3 * h) * (m + 3 * h) * (m + 3 * h) - (m - 3 * h) * (m - 3 * h) * (m - 3 * h) == 18 * ((m
            * m) * h) + 54 * ((h * h) * h),
        (m + 3 * h) * (m + 3 * h) * (m + 3 * h) * (m + 3 * h) - (m - 3 * h) * (m - 3 * h) * (m - 3
            * h) * (m - 3 * h) == 24 * ((m * m * m) * h) + 216 * ((m * (h * h)) * h),
{
    assert((m + 3 * h) * (m + 3 * h) - (m - 3 * h) * (m - 3 * h) == 12 * (m * h))
        by (nonlinear_arith);
    assert((m + 3 * h) * (m + 3 * h) * (m + 3 * h) - (m - 3 * h) * (m - 3 * h) * (m - 3 * h) == 18
        * ((m * m) * h) + 54 * ((h * h) * h)) by (nonlinear_arith);
    let p = (m + 3 * h) * (m + 3 * h);
    let q = (m - 3 * h) * (m - 3 * h);
    let mm = m * m;
    let mh = m * h;
    let hh = h * h;
    assert(p == mm + 6 * mh + 9 * hh) by (nonlinear_arith)
        requires
            p == (m + 3 * h) * (m + 3 * h),
            mm == m * m,
            mh == m * h,
            hh == h * h,
    ;
    assert(q == mm - 6 * mh + 9 * hh) by (nonlinear_arith)
        requires
            q == (m - 3 * h) * (m - 3 * h),
            mm == m * m,
            mh == m * h,
            hh == h * h,
    ;
    assert(p * p - q * q == 24 * (mm * mh) + 216 * (mh * hh)) by (nonlinear_arith)
        requires
            p == mm + 6 * mh + 9 * hh,
            q == mm - 6 * mh + 9 * hh,
    ;
    assert(mm * mh == (m * m * m) * h) by (nonlinear_arith)
        requires
            mm == m * m,
            mh == m * h,
    ;
    assert(mh * hh == (m * (h * h)) * h) by (nonlinear_arith)
        requires
            mh == m * h,
            hh == h * h,
    ;
    assert((m + 3 * h) * (m + 3 * h) * (m + 3 * h) * (m + 3 * h) == p * p) by (nonlinear_arith)
        requires
            p == (m + 3 * h) * (m + 3 * h),
    ;
    assert((m - 3 * h) * (m - 3 * h) * (m - 3 * h) * (m - 3 * h) == q * q) by (nonlinear_arith)
        requires
            q == (m - 3 * h) * (m - 3 * h),
    ;
}

/// In exact arithmetic the higher-order estimate of a cubic is its integral:
/// over `[m - 3 h, m + 3 h]`, an interval of width `6 h`, twice the six-fold
/// estimate equals the difference of the twelve-fold antiderivative at the
/// ends. The sum over any set of accepted intervals is therefore exact,
/// whatever tolerance decided the cuts.
pub proof fn lemma_higher_rule_exact_for_cubics(c0: int, c1: int, c2: int, c3: int, m: int, h: int)
    ensures
        2 * higher_rule(
            cubic(c0, c1, c2, c3, m - 2 * h),
            cubic(c0, c1, c2, c3, m - h),
            cubic(c0, c1, c2, c3, m + h),
            cubic(c0, c1, c2, c3, m + 2 * h),
            6 * h,
        ) == cubic_primitive(c0, c1, c2, c3, m + 3 * h) - cubic_primitive(c0, c1, c2, c3, m - 3 * h),
{
    lemma_power_sums(m, h);
    lemma_power_differences(m, h);
    let x1 = m - 2 * h;
    let x2 = m - h;
    let x3 = m + h;
    let x4 = m + 2 * h;
    let a = m - 3 * h;
    let b = m + 3 * h;
    let s1 = 6 * m;
    let s2 = 6 * (m * m) + 18 * (h * h);
    let s3 = 6 * (m * m * m) + 54 * (m * (h * h));
    // The weighted sum of the four values, coefficient by coefficient.
    assert(2 * (c1 * x1) + c1 * x2 + c1 * x3 + 2 * (c1 * x4) == c1 * s1) by (nonlinear_arith)
        requires
            2 * x1 + x2 + x3 + 2 * x4 == s1,
    ;
    let q1 = x1 * x1;
    let q2 = x2 * x2;
    let q3 = x3 * x3;
    let q4 = x4 * x4;
    assert(2 * (c2 * q1) + c2 * q2 + c2 * q3 + 2 * (c2 * q4) == c2 * s2) by (nonlinear_arith)
        requires
            2 * q1 + q2 + q3 + 2 * q4 == s2,
    ;
    let k1 = x1 * x1 * x1;
    let k2 = x2 * x2 * x2;
    let k3 = x3 * x3 * x3;
    let k4 = x4 * x4 * x4;
    assert(2 * (c3 * k1) + c3 * k2 + c3 * k3 + 2 * (c3 * k4) == c3 * s3) by (nonlinear_arith)
        requires
            2 * k1 + k2 + k3 + 2 * k4 == s3,
    ;
    let sum = 2 * cubic(c0, c1, c2, c3, x1) + cubic(c0, c1, c2, c3, x2) + cubic(c0, c1, c2, c3, x3)
        + 2 * cubic(c0, c1, c2, c3, x4);
    assert(sum == 6 * c0 + c1 * s1 + c2 * s2 + c3 * s3);
    // Twelve h times that sum, term by term.
    let t0 = c0 * h;
    let t1 = c1 * (m * h);
    let t2 = c2 * ((m * m) * h);
    let t3 = c2 * ((h * h) * h);
    let t4 = c3 * ((m * m * m) * h);
    let t5 = c3 * ((m * (h * h)) * h);
    assert(sum * (6 * h) == 36 * t0 + 36 * t1 + 36 * t2 + 108 * t3 + 36 * t4 + 324 * t5) by {
        assert((6 * c0) * (6 * h) == 36 * t0) by (nonlinear_arith)
            requires
                t0 == c0 * h,
        ;
        assert((c1 * s1) * (6 * h) == 36 * t1) by (nonlinear_arith)
            requires
                s1 == 6 * m,
                t1 == c1 * (m * h),
        ;
        let mm = m * m;
        let hh = h * h;
        assert((c2 * s2) * (6 * h) == 36 * (c2 * (mm * h)) + 108 * (c2 * (hh * h)))
            by (nonlinear_arith)
            requires
                s2 == 6 * mm + 18 * hh,
        ;
        let mmm = m * m * m;
        let mhh = m * (h * h);
        assert((c3 * s3) * (6 * h) == 36 * (c3 * (mmm * h)) + 324 * (c3 * (mhh * h)))
            by (nonlinear_arith)
            requires
                s3 == 6 * mmm + 54 * mhh,
        ;
        let u0 = 6 * c0;
        let u1 = c1 * s1;
        let u2 = c2 * s2;
        let u3 = c3 * s3;
        let w = 6 * h;
        assert((u0 + u1 + u2 + u3) * w == u0 * w + u1 * w + u2 * w + u3 * w) by (nonlinear_arith);
    }
    // The difference of the antiderivative, term by term.
    let d2 = b * b - a * a;
    let d3 = b * b * b - a * a * a;
    let d4 = b * b * b * b - a * a * a * a;
    assert(c0 * b - c0 * a == 6 * t0) by (nonlinear_arith)
        requires
            b - a == 6 * h,
            t0 == c0 * h,
    ;
    assert(c1 * (b * b) - c1 * (a * a) == 12 * t1) by (nonlinear_arith)
        requires
            b * b - a * a == 12 * (m * h),
            t1 == c1 * (m * h),
    ;
    assert(c2 * (b * b * b) - c2 * (a * a * a) == 18 * t2 + 54 * t3) by (nonlinear_arith)
        requires
            b * b * b - a * a * a == 18 * ((m * m) * h) + 54 * ((h * h) * h),
            t2 == c2 * ((m * m) * h),
            t3 == c2 * ((h * h) * h),
    ;
    assert(c3 * (b * b * b * b) - c3 * (a * a * a * a) == 24 * t4 + 216 * t5) by (nonlinear_arith)
        requires
            b * b * b * b - a * a * a * a == 24 * ((m * m * m) * h) + 216 * ((m * (h * h)) * h),
            t4 == c3 * ((m * m * m) * h),
            t5 == c3 * ((m * (h * h)) * h),
    ;
}

/// Twice the six-fold higher-order estimate of the cubic over `part`, on the
/// scale of the sample positions, where the root has the width `6 * 2^60`.
pub open spec fn leaf_estimate(c0: int, c1: int, c2: int, c3: int, part: Interval) -> int {
    2 * higher_rule(
        cubic(c0, c1, c2, c3, part.sample(OUTER_LOW) as int),
        cubic(c0, c1, c2, c3, part.sample(INNER_LOW) as int),
        cubic(c0, c1, c2, c3, part.sample(INNER_HIGH) as int),
        cubic(c0, c1, c2, c3, part.sample(OUTER_HIGH) as int),
        (6 * span(part.depth)) as int,
    )
}

/// The sum of the estimates over `parts`.
pub open spec fn estimate_sum(c0: int, c1: int, c2: int, c3: int, parts: Seq<Interval>) -> int
    decreases parts.len(),
{
    if parts.len() == 0 {
        0
    } else {
        estimate_sum(c0, c1, c2, c3, parts.drop_last()) + leaf_estimate(c0, c1, c2, c3, parts.last())
    }
}

/// However an interval is cut into parts, the estimates of a cubic over the
/// parts add up to its integral over the whole. So the value found for a
/// cubic does not depend on the tolerance, which only decides the cuts.
pub proof fn lemma_cubic_is_exact_on_any_tiling(
    c0: int,
    c1: int,
    c2: int,
    c3: int,
    parts: Seq<Interval>,
    from: nat,
    to: nat,
)
    requires
        tiles(parts, from, to),
    ensures
        estimate_sum(c0, c1, c2, c3, parts) == cubic_primitive(c0, c1, c2, c3, (6 * to) as int)
            - cubic_primitive(c0, c1, c2, c3, (6 * from) as int),
    decreases parts.len(),
{
    if parts.len() > 0 {
        let part = parts.last();
        lemma_cubic_is_exact_on_any_tiling(c0, c1, c2, c3, parts.drop_last(), from, part.lower());
        let h: int = span(part.depth) as int;
        let i: int = part.index as int;
        let m: int = 6 * (i * h) + 3 * h;
        assert((6 * i + 1) * h == m - 2 * h && (6 * i + 2) * h == m - h && (6 * i + 4) * h == m + h
            && (6 * i + 5) * h == m + 2 * h && 6 * ((i + 1) * h) == m + 3 * h) by (nonlinear_arith)
            requires
                m == 6 * (i * h) + 3 * h,
        ;
        lemma_higher_rule_exact_for_cubics(c0, c1, c2, c3, m, h);
        assert(6 * part.lower() == m - 3 * h);
        assert(6 * part.upper() == m + 3 * h);
    }
}

/// A finished integration of a cubic has found its integral over the root,
/// whatever intervals it accepted.
pub proof fn lemma_finished_cubic_is_exact(c0: int, c1: int, c2: int, c3: int, done: &Bisector)
    requires
        done.wf(),
        done.pending().len() == 0,
    ensures
        estimate_sum(c0, c1, c2, c3, done.leaves()) == cubic_primitive(
            c0,
            c1,
            c2,
            c3,
            (6 * span(0)) as int,
        ) - cubic_primitive(c0, c1, c2, c3, 0),
{
    done.lemma_leaves_tile();
    lemma_cubic_is_exact_on_any_tiling(c0, c1, c2, c3, done.leaves(), 0, span(0));
}

/// The interval that lies where `part` lies when the root is taken the other
/// way round.
pub open spec fn mirror(part: Interval) -> Interval {
    Interval { depth: part.depth, index: (pow2(part.depth as nat) - 1 - part.index) as u64 }
}

/// Taken the other way round, an interval has its samples at the same places
/// in the opposite order: the sample at `sixths` sixths of the mirror image
/// lies as far from one end of the root as the sample at `6 - sixths` sixths
/// of the interval lies from the other.
pub proof fn lemma_mirror_samples(part: Interval, sixths: u64)
    requires
        part.wf(),
        sixths <= 6,
    ensures
        mirror(part).wf(),
        mirror(part).sample(sixths) + part.sample((6 - sixths) as u64) == 6 * span(0),
{
    let p: int = pow2(part.depth as nat) as int;
    let s: int = span(part.depth) as int;
    let i: int = part.index as int;
    let k: int = sixths as int;
    lemma_pow2_adds(part.depth as nat, (DEPTH_LIMIT - part.depth) as nat);
    lemma_depth_fits(part.depth as nat);
    assert(p * s == span(0));
    assert((6 * (p - 1 - i) + k) * s + (6 * i + (6 - k)) * s == 6 * (p * s)) by (nonlinear_arith);
}

/// The lower half of the mirror image is the mirror image of the upper half,
/// and the other way round: a reversed integration that cuts where the
/// forward one cuts visits the mirror images of the same intervals.
pub proof fn lemma_mirror_halves(part: Interval)
    requires
        part.wf(),
        part.depth < DEPTH_LIMIT,
    ensures
        mirror(part).spec_left() == mirror(part.spec_right()),
        mirror(part).spec_right() == mirror(part.spec_left()),
{
    part.lemma_halves();
    lemma_pow2_unfold((part.depth + 1) as nat);
    lemma_depth_fits(part.depth as nat);
    lemma_depth_fits((part.depth + 1) as nat);
}

/// Both estimates change their sign and nothing else when an interval is
/// taken the other way round: the samples come in the opposite order, and the
/// width is negated.
pub proof fn lemma_rules_are_antisymmetric(f1: int, f2: int, f3: int, f4: int, width: int)
    ensures
        higher_rule(f4, f3, f2, f1, -width) == -higher_rule(f1, f2, f3, f4, width),
        lower_rule(f4, f3, f2, f1, -width) == -lower_rule(f1, f2, f3, f4, width),
{
    assert((2 * f4 + f3 + f2 + 2 * f1) * (-width) == -((2 * f1 + f2 + f3 + 2 * f4) * width))
        by (nonlinear_arith);
    assert((f4 + f3 + f2 + f1) * (-width) == -((f1 + f2 + f3 + f4) * width)) by (nonlinear_arith);
}

} // verus!
