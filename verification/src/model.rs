//! The mathematical model of the engine: bucket state, compiled
//! instructions, the advancement semantics, and the construction
//! pipeline, together with the laws proved about them.
use vstd::prelude::*;
use crate::numeric::spec_lcm;

verus! {

/// Internal bucket state: capacity and current fill, in scaled units.
#[derive(Debug, Copy, Clone, PartialEq)]
pub struct Bucket {
    /// capacity, in abstract units
    pub cap: usize,
    /// currently contained value
    pub value: usize,
}

/// One compiled instruction of the linearized tree walk.
#[derive(Debug, Clone, Copy, PartialEq)]
pub enum Op {
    /// Seed the running flow from the infinite source at this rate.
    Inflow(usize),
    /// Combine the flow with the named bucket, emit at most rate times
    /// the elapsed time downstream, leave the remainder in the bucket.
    Take(usize, usize),
    /// Merge the flow into the named bucket up to its capacity and pass
    /// the overflow back up.
    Deposit(usize),
}

/// Construction-time failure reasons; a built engine never fails.
#[derive(Clone, Copy, Debug)]
pub enum Error {
    /// The configuration is empty or its first entry has a parent.
    NoRoot,
    /// A normalized rate, capacity or time bound does not fit the
    /// machine word.
    InvalidRate,
    /// A label does not equal its position, or a parent is not an open
    /// ancestor of the depth-first walk.
    InvalidStructure,
}

impl Error {
    /// A short description of the failure, in place of a formatter.
    pub fn message(&self) -> (r: &'static str)
        ensures
            *self is NoRoot ==> r@ == "Problem with a root node of some sort"@,
            *self is InvalidRate ==> r@ == "Requested message rate can't be represented"@,
            *self is InvalidStructure ==> r@ == "Problem with message structure"@,
    {
        match self {
            Error::NoRoot => "Problem with a root node of some sort",
            Error::InvalidRate => "Requested message rate can't be represented",
            Error::InvalidStructure => "Problem with message structure",
        }
    }
}

/// The current fills of a bucket vector, as mathematical integers.
pub open spec fn vals_of(s: Seq<Bucket>) -> Seq<int> {
    s.map_values(|b: Bucket| b.value as int)
}

/// The capacities of a bucket vector, as mathematical integers.
pub open spec fn caps_of(s: Seq<Bucket>) -> Seq<int> {
    s.map_values(|b: Bucket| b.cap as int)
}

/// Clamp to the largest machine word, the saturation the engine
/// computes with.
pub open spec fn sat(x: int) -> int {
    if x > usize::MAX as int {
        usize::MAX as int
    } else {
        x
    }
}

/// The smaller of two integers.
pub open spec fn min2(a: int, b: int) -> int {
    if a < b {
        a
    } else {
        b
    }
}

/// One instruction applied to the fills `v` with running flow `fl`
/// after `dt` nanoseconds: the new fills and the new flow.
pub open spec fn step(op: Op, caps: Seq<int>, v: Seq<int>, fl: int, dt: int) -> (Seq<int>, int) {
    match op {
        Op::Inflow(r) => (v, sat(r as int * dt)),
        Op::Take(p, r) => {
            let c = sat(fl + v[p as int]);
            let f2 = min2(c, sat(r as int * dt));
            (v.update(p as int, c - f2), f2)
        },
        Op::Deposit(k) => {
            let c = sat(fl + v[k as int]);
            let d = min2(caps[k as int], c);
            (v.update(k as int, d), c - d)
        },
    }
}

/// Fills and flow after the first `j` instructions.
pub open spec fn run(ops: Seq<Op>, caps: Seq<int>, v0: Seq<int>, dt: int, j: int) -> (Seq<int>, int)
    decreases j,
{
    if j <= 0 {
        (v0, 0int)
    } else {
        let prev = run(ops, caps, v0, dt, j - 1);
        step(ops[j - 1], caps, prev.0, prev.1, dt)
    }
}

/// Fills after the whole instruction list: the meaning of advancement.
pub open spec fn advance_vals(ops: Seq<Op>, caps: Seq<int>, v0: Seq<int>, dt: int) -> Seq<int> {
    run(ops, caps, v0, dt, ops.len() as int).0
}

/// Does this instruction deposit into bucket `i`?
pub open spec fn is_dep(op: Op, i: int) -> bool {
    op matches Op::Deposit(k) && k as int == i
}

/// Does this instruction take from bucket `i`?
pub open spec fn is_take(op: Op, i: int) -> bool {
    op matches Op::Take(p, _) && p as int == i
}

/// The bucket an instruction touches; the inflow touches none.
pub open spec fn op_target(op: Op) -> int {
    match op {
        Op::Inflow(_) => -1,
        Op::Take(p, _) => p as int,
        Op::Deposit(k) => k as int,
    }
}

/// Every instruction stays inside a state vector of length `n`.
pub open spec fn ops_in_bounds(ops: Seq<Op>, n: int) -> bool {
    forall|j: int| 0 <= j < ops.len() ==> op_target(#[trigger] ops[j]) < n
}

/// Some instruction at or after position `j` deposits into bucket `i`.
pub open spec fn has_dep_from(ops: Seq<Op>, j: int, i: int) -> bool {
    exists|k: int| j <= k < ops.len() && is_dep(#[trigger] ops[k], i)
}

/// Every take from a bucket is followed by a deposit into it, so the
/// fill is brought back under the capacity before the walk ends.
pub open spec fn deposits_close(ops: Seq<Op>) -> bool {
    forall|j: int, i: int|
        0 <= j < ops.len() && #[trigger] is_take(ops[j], i) ==> has_dep_from(ops, j + 1, i)
}

/// The list opens with the single seeding instruction.
pub open spec fn inflow_first(ops: Seq<Op>) -> bool {
    &&& ops.len() > 0 ==> ops[0] is Inflow
    &&& forall|j: int| 1 <= j < ops.len() ==> !((#[trigger] ops[j]) is Inflow)
}

/// The rate the instruction list seeds the root edge with.
pub open spec fn inflow_rate(ops: Seq<Op>) -> int {
    match ops[0] {
        Op::Inflow(r) => r as int,
        Op::Take(_, _) => 0,
        Op::Deposit(_) => 0,
    }
}

/// Lengths and word bounds are preserved along the walk.
pub proof fn lemma_run_basic(ops: Seq<Op>, caps: Seq<int>, v0: Seq<int>, dt: int, j: int)
    requires
        0 <= j <= ops.len(),
        ops_in_bounds(ops, v0.len() as int),
        dt >= 0,
        forall|i: int| 0 <= i < v0.len() ==> 0 <= #[trigger] v0[i] <= usize::MAX as int,
        forall|i: int| 0 <= i < caps.len() ==> 0 <= #[trigger] caps[i] <= usize::MAX as int,
        caps.len() == v0.len(),
    ensures
        run(ops, caps, v0, dt, j).0.len() == v0.len(),
        forall|i: int|
            0 <= i < v0.len() ==> 0 <= #[trigger] run(ops, caps, v0, dt, j).0[i] <= usize::MAX as int,
        0 <= run(ops, caps, v0, dt, j).1 <= usize::MAX as int,
    decreases j,
{
    if j > 0 {
        lemma_run_basic(ops, caps, v0, dt, j - 1);
        let prev = run(ops, caps, v0, dt, j - 1);
        match ops[j - 1] {
            Op::Inflow(r) => {
                assert(r as int * dt >= 0) by (nonlinear_arith)
                    requires r as int >= 0 && dt >= 0;
            },
            Op::Take(p, r) => {
                assert(r as int * dt >= 0) by (nonlinear_arith)
                    requires r as int >= 0 && dt >= 0;
                assert(op_target(ops[j - 1]) < v0.len() as int);
            },
            Op::Deposit(k) => {
                assert(op_target(ops[j - 1]) < v0.len() as int);
            },
        }
    }
}

/// Advancing by no time at all leaves every fill and the flow alone.
pub proof fn lemma_run_zero(ops: Seq<Op>, caps: Seq<int>, v0: Seq<int>, j: int)
    requires
        0 <= j <= ops.len(),
        ops_in_bounds(ops, v0.len() as int),
        forall|i: int| 0 <= i < v0.len() ==> 0 <= #[trigger] v0[i] <= caps[i],
        forall|i: int| 0 <= i < caps.len() ==> 0 <= #[trigger] caps[i] <= usize::MAX as int,
        caps.len() == v0.len(),
    ensures
        run(ops, caps, v0, 0, j).0 == v0,
        run(ops, caps, v0, 0, j).1 == 0,
    decreases j,
{
    if j > 0 {
        lemma_run_zero(ops, caps, v0, j - 1);
        match ops[j - 1] {
            Op::Inflow(r) => {
                assert(r as int * 0 == 0);
            },
            Op::Take(p, r) => {
                assert(r as int * 0 == 0);
                assert(v0.update(p as int, v0[p as int]) =~= v0);
            },
            Op::Deposit(k) => {
                assert(v0.update(k as int, v0[k as int]) =~= v0);
            },
        }
    }
}

/// After the whole walk every fill is back under its capacity, because
/// every take is closed by a later deposit.
proof fn lemma_run_caps_aux(ops: Seq<Op>, caps: Seq<int>, v0: Seq<int>, dt: int, j: int)
    requires
        0 <= j <= ops.len(),
        ops_in_bounds(ops, v0.len() as int),
        deposits_close(ops),
        dt >= 0,
        forall|i: int| 0 <= i < v0.len() ==> 0 <= #[trigger] v0[i] <= caps[i],
        forall|i: int| 0 <= i < caps.len() ==> 0 <= #[trigger] caps[i] <= usize::MAX as int,
        caps.len() == v0.len(),
    ensures
        forall|i: int|
            0 <= i < v0.len() ==> #[trigger] run(ops, caps, v0, dt, j).0[i] <= caps[i] || has_dep_from(
                ops,
                j,
                i,
            ),
    decreases j,
{
    lemma_run_basic(ops, caps, v0, dt, j);
    if j > 0 {
        lemma_run_caps_aux(ops, caps, v0, dt, j - 1);
        lemma_run_basic(ops, caps, v0, dt, j - 1);
        let prev = run(ops, caps, v0, dt, j - 1);
        let cur = run(ops, caps, v0, dt, j);
        assert forall|i: int| 0 <= i < v0.len() implies #[trigger] cur.0[i] <= caps[i]
            || has_dep_from(ops, j, i) by {
            if is_dep(ops[j - 1], i) {
                assert(cur.0[i] <= caps[i]);
            } else if is_take(ops[j - 1], i) {
                assert(has_dep_from(ops, j, i));
            } else {
                assert(cur.0[i] == prev.0[i]);
                if prev.0[i] <= caps[i] {
                } else {
                    let k = choose|k: int| j - 1 <= k < ops.len() && is_dep(#[trigger] ops[k], i);
                    assert(k >= j);
                    assert(has_dep_from(ops, j, i));
                }
            }
        }
    }
}

/// Law: after an advancement every bucket holds no more than its
/// capacity, whatever the elapsed time.
pub proof fn lemma_advance_in_caps(ops: Seq<Op>, caps: Seq<int>, v0: Seq<int>, dt: int)
    requires
        ops_in_bounds(ops, v0.len() as int),
        deposits_close(ops),
        dt >= 0,
        forall|i: int| 0 <= i < v0.len() ==> 0 <= #[trigger] v0[i] <= caps[i],
        forall|i: int| 0 <= i < caps.len() ==> 0 <= #[trigger] caps[i] <= usize::MAX as int,
        caps.len() == v0.len(),
    ensures
        forall|i: int|
            0 <= i < v0.len() ==> 0 <= #[trigger] advance_vals(ops, caps, v0, dt)[i] <= caps[i],
        advance_vals(ops, caps, v0, dt).len() == v0.len(),
{
    lemma_run_caps_aux(ops, caps, v0, dt, ops.len() as int);
    lemma_run_basic(ops, caps, v0, dt, ops.len() as int);
    assert forall|i: int| 0 <= i < v0.len() implies 0 <= #[trigger] advance_vals(
        ops,
        caps,
        v0,
        dt,
    )[i] <= caps[i] by {
        assert(!has_dep_from(ops, ops.len() as int, i));
    }
}


/// A configuration entry with its labels resolved to machine indices.
pub ghost struct CfgV {
    /// This bucket's index.
    pub this: usize,
    /// The parent's index, absent for the root.
    pub parent: Option<usize>,
    /// Tokens allowed per period.
    pub tokens: usize,
    /// The rate period, in nanoseconds.
    pub period: u128,
    /// Burst capacity, in tokens.
    pub capacity: usize,
}

/// The compiled engine a valid configuration denotes.
pub ghost struct ModelV {
    /// Bucket capacities, in units.
    pub caps: Seq<int>,
    /// The instruction list.
    pub ops: Seq<Op>,
    /// Units per raw token.
    pub unit: int,
    /// The advancement clamp.
    pub limit: int,
}

/// Every rate period is a positive span.
pub open spec fn all_periods_positive(cs: Seq<CfgV>) -> bool {
    forall|i: int| 0 <= i < cs.len() ==> (#[trigger] cs[i].period) > 0
}

/// Least common multiple of the first `j` periods.
pub open spec fn fold_lcm(cs: Seq<CfgV>, j: int) -> int
    decreases j,
{
    if j <= 1 {
        cs[0].period as int
    } else {
        spec_lcm(fold_lcm(cs, j - 1), cs[j - 1].period as int)
    }
}

/// The unit cost the whole configuration normalizes to.
pub open spec fn unit_of(cs: Seq<CfgV>) -> int {
    fold_lcm(cs, cs.len() as int)
}

/// The scaled rate of entry `i`, in units per nanosecond.
pub open spec fn rate_at(cs: Seq<CfgV>, u: int, i: int) -> int {
    cs[i].tokens as int * u / cs[i].period as int
}

/// Every scaled rate fits the machine word.
pub open spec fn rates_ok(cs: Seq<CfgV>, u: int) -> bool {
    forall|i: int| 0 <= i < cs.len() ==> #[trigger] rate_at(cs, u, i) <= usize::MAX as int
}

/// Sum of the first `j` scaled rates.
pub open spec fn sum_rates(cs: Seq<CfgV>, u: int, j: int) -> int
    decreases j,
{
    if j <= 0 {
        0
    } else {
        sum_rates(cs, u, j - 1) + rate_at(cs, u, j - 1)
    }
}

/// The open ancestor on top of the walk stack.
pub open spec fn stack_top(stack: Seq<usize>) -> Option<usize> {
    if stack.len() == 0 {
        Option::None
    } else {
        Option::Some(stack.last())
    }
}

/// Does the stack hold index `x`?
pub open spec fn stack_has(stack: Seq<usize>, x: int) -> bool {
    exists|q: int| 0 <= q < stack.len() && (#[trigger] stack[q]) as int == x
}

/// Close enclosing subtrees, deepest first, until the sought parent is
/// the top of the stack; fails when no open ancestor matches.
pub open spec fn pops(stack: Seq<usize>, parent: Option<usize>, ops: Seq<Op>) -> Option<
    (Seq<usize>, Seq<Op>),
>
    decreases stack.len(),
{
    if stack.len() == 0 {
        Option::None
    } else if parent == Option::Some(stack.last()) {
        Option::Some((stack, ops.push(Op::Deposit(stack.last()))))
    } else {
        pops(stack.drop_last(), parent, ops.push(Op::Deposit(stack.last())))
    }
}

/// One configuration entry applied to the walk state.
pub open spec fn walk_step(cs: Seq<CfgV>, u: int, i: int, stack: Seq<usize>, ops: Seq<Op>) -> Result<
    (Seq<usize>, Seq<Op>),
    Error,
> {
    let c = cs[i];
    if c.this as int != i {
        Result::Err(Error::InvalidStructure)
    } else if c.capacity as int * u > usize::MAX as int {
        Result::Err(Error::InvalidRate)
    } else {
        let after = if c.parent == stack_top(stack) {
            Option::Some((stack, ops))
        } else {
            pops(stack, c.parent, ops)
        };
        match after {
            Option::None => Result::Err(Error::InvalidStructure),
            Option::Some(so) => {
                let edge = match c.parent {
                    Option::Some(p) => Op::Take(p, rate_at(cs, u, i) as usize),
                    Option::None => Op::Inflow(rate_at(cs, u, i) as usize),
                };
                Result::Ok((so.0.push(c.this), so.1.push(edge)))
            },
        }
    }
}

/// The depth-first walk over the first `j` entries.
pub open spec fn walk(cs: Seq<CfgV>, u: int, j: int) -> Result<(Seq<usize>, Seq<Op>), Error>
    decreases j,
{
    if j <= 0 {
        Result::Ok((Seq::<usize>::empty(), Seq::<Op>::empty()))
    } else {
        match walk(cs, u, j - 1) {
            Result::Err(e) => Result::Err(e),
            Result::Ok(so) => walk_step(cs, u, j - 1, so.0, so.1),
        }
    }
}

/// Close every subtree still open when the walk ends, deepest first.
pub open spec fn drain(stack: Seq<usize>, ops: Seq<Op>) -> Seq<Op>
    decreases stack.len(),
{
    if stack.len() == 0 {
        ops
    } else {
        drain(stack.drop_last(), ops.push(Op::Deposit(stack.last())))
    }
}

/// What construction returns, for every configuration: the compiled
/// engine, or the exact failure.
pub open spec fn new_spec(cs: Seq<CfgV>) -> Result<ModelV, Error> {
    if cs.len() == 0 || cs[0].parent is Some {
        Result::Err(Error::NoRoot)
    } else {
        let u = unit_of(cs);
        if u > usize::MAX as int {
            Result::Err(Error::InvalidRate)
        } else if !rates_ok(cs, u) {
            Result::Err(Error::InvalidRate)
        } else {
            match walk(cs, u, cs.len() as int) {
                Result::Err(e) => Result::Err(e),
                Result::Ok(so) => {
                    let limit = u * sum_rates(cs, u, cs.len() as int);
                    if limit > usize::MAX as int / 2 {
                        Result::Err(Error::InvalidRate)
                    } else {
                        Result::Ok(
                            ModelV {
                                caps: Seq::new(cs.len(), |i: int| cs[i].capacity as int * u),
                                ops: drain(so.0, so.1),
                                unit: u,
                                limit: limit,
                            },
                        )
                    }
                },
            }
        }
    }
}

/// The common multiple of positive periods is positive.
pub proof fn lemma_fold_pos(cs: Seq<CfgV>, j: int)
    requires
        1 <= j <= cs.len(),
        all_periods_positive(cs),
    ensures
        fold_lcm(cs, j) >= 1,
    decreases j,
{
    if j <= 1 {
        assert(cs[0].period > 0);
    } else {
        lemma_fold_pos(cs, j - 1);
        crate::numeric::lemma_lcm_ge(fold_lcm(cs, j - 1), cs[j - 1].period as int);
    }
}

/// Folding in more periods never shrinks the common multiple.
pub proof fn lemma_fold_mono(cs: Seq<CfgV>, j1: int, j2: int)
    requires
        1 <= j1 <= j2 <= cs.len(),
        all_periods_positive(cs),
    ensures
        fold_lcm(cs, j2) >= fold_lcm(cs, j1) >= 1,
    decreases j2 - j1,
{
    lemma_fold_pos(cs, j1);
    if j1 < j2 {
        lemma_fold_mono(cs, j1, j2 - 1);
        lemma_fold_pos(cs, j2 - 1);
        crate::numeric::lemma_lcm_ge(fold_lcm(cs, j2 - 1), cs[j2 - 1].period as int);
    }
}

/// A failed walk stays failed however far it is carried.
pub proof fn lemma_walk_err(cs: Seq<CfgV>, u: int, j1: int, j2: int)
    requires
        0 <= j1 <= j2,
        walk(cs, u, j1) is Err,
    ensures
        walk(cs, u, j2) == walk(cs, u, j1),
    decreases j2 - j1,
{
    if j1 < j2 {
        lemma_walk_err(cs, u, j1, j2 - 1);
    }
}

/// What a successful pop phase guarantees: the stack shrinks to a
/// prefix topped by the parent, and everything dropped got a deposit.
pub proof fn lemma_pops_props(stack: Seq<usize>, parent: Option<usize>, ops: Seq<Op>)
    ensures
        pops(stack, parent, ops) matches Some(so) ==> ({
            &&& 1 <= so.0.len() <= stack.len()
            &&& parent == Option::Some(so.0.last())
            &&& forall|q: int| 0 <= q < so.0.len() ==> so.0[q] == stack[q]
            &&& ops.len() < so.1.len()
            &&& forall|m: int| 0 <= m < ops.len() ==> so.1[m] == ops[m]
            &&& forall|m: int|
                ops.len() <= m < so.1.len() ==> ((#[trigger] so.1[m]) is Deposit && stack_has(
                    stack,
                    op_target(so.1[m]),
                ))
            &&& forall|x: int|
                #[trigger] stack_has(stack, x) ==> stack_has(so.0, x) || has_dep_from(
                    so.1,
                    ops.len() as int,
                    x,
                )
        }),
    decreases stack.len(),
{
    if stack.len() == 0 {
    } else if parent == Option::Some(stack.last()) {
        let so = (stack, ops.push(Op::Deposit(stack.last())));
        assert(is_dep(so.1[ops.len() as int], stack.last() as int));
        assert(stack_has(stack, stack.last() as int));
        assert forall|m: int| ops.len() <= m < so.1.len() implies ((#[trigger] so.1[m]) is Deposit
            && stack_has(stack, op_target(so.1[m]))) by {
            assert(m == ops.len());
            assert(so.1[m] == Op::Deposit(stack.last()));
        }
    } else {
        let ops2 = ops.push(Op::Deposit(stack.last()));
        lemma_pops_props(stack.drop_last(), parent, ops2);
        match pops(stack, parent, ops) {
          Option::None => {},
          Option::Some(so) => {
            assert(pops(stack.drop_last(), parent, ops2) == Option::Some(so));
            assert forall|q: int| 0 <= q < so.0.len() implies so.0[q] == stack[q] by {
                assert(so.0[q] == stack.drop_last()[q]);
            }
            assert forall|m: int| 0 <= m < ops.len() implies so.1[m] == ops[m] by {
                assert(so.1[m] == ops2[m]);
            }
            assert forall|m: int| ops.len() <= m < so.1.len() implies ((#[trigger] so.1[m])
                is Deposit && stack_has(stack, op_target(so.1[m]))) by {
                if m == ops.len() {
                    assert(so.1[m] == ops2[m]);
                    assert(so.1[m] == Op::Deposit(stack.last()));
                    assert(stack_has(stack, stack.last() as int));
                } else {
                    assert(so.1[m] is Deposit && stack_has(stack.drop_last(), op_target(so.1[m])));
                    let q = choose|q: int|
                        0 <= q < stack.drop_last().len() && (#[trigger] stack.drop_last()[q]) as int
                            == op_target(so.1[m]);
                    assert(stack[q] as int == op_target(so.1[m]));
                }
            }
            assert forall|x: int| #[trigger] stack_has(stack, x) implies stack_has(so.0, x)
                || has_dep_from(so.1, ops.len() as int, x) by {
                let q = choose|q: int| 0 <= q < stack.len() && (#[trigger] stack[q]) as int == x;
                if q < stack.len() - 1 {
                    assert(stack.drop_last()[q] as int == x);
                    assert(stack_has(stack.drop_last(), x));
                    if !stack_has(so.0, x) {
                        assert(has_dep_from(so.1, ops2.len() as int, x));
                        let m = choose|m: int|
                            ops2.len() <= m < so.1.len() && is_dep(#[trigger] so.1[m], x);
                        assert(is_dep(so.1[m], x));
                        assert(has_dep_from(so.1, ops.len() as int, x));
                    }
                } else {
                    assert(x == stack.last() as int);
                    assert(so.1[ops.len() as int] == ops2[ops.len() as int]);
                    assert(is_dep(so.1[ops.len() as int], x));
                    assert(has_dep_from(so.1, ops.len() as int, x));
                }
            }
          },
        }
    }
}

/// Draining the stack appends one deposit per open ancestor.
pub proof fn lemma_drain_props(stack: Seq<usize>, ops: Seq<Op>)
    ensures
        drain(stack, ops).len() == ops.len() + stack.len(),
        forall|m: int| 0 <= m < ops.len() ==> #[trigger] drain(stack, ops)[m] == ops[m],
        forall|m: int|
            ops.len() <= m < drain(stack, ops).len() ==> ((#[trigger] drain(stack, ops)[m])
                is Deposit && stack_has(stack, op_target(drain(stack, ops)[m]))),
        forall|x: int|
            #[trigger] stack_has(stack, x) ==> has_dep_from(drain(stack, ops), ops.len() as int, x),
    decreases stack.len(),
{
    if stack.len() == 0 {
    } else {
        let ops2 = ops.push(Op::Deposit(stack.last()));
        lemma_drain_props(stack.drop_last(), ops2);
        let d = drain(stack, ops);
        assert forall|m: int| ops.len() <= m < d.len() implies ((#[trigger] d[m]) is Deposit
            && stack_has(stack, op_target(d[m]))) by {
            if m == ops.len() {
                assert(d[m] == ops2[m]);
                assert(d[m] == Op::Deposit(stack.last()));
                assert(stack_has(stack, stack.last() as int));
            } else {
                assert(d[m] is Deposit && stack_has(stack.drop_last(), op_target(d[m])));
                let q = choose|q: int|
                    0 <= q < stack.drop_last().len() && (#[trigger] stack.drop_last()[q]) as int
                        == op_target(d[m]);
                assert(stack[q] as int == op_target(d[m]));
            }
        }
        assert forall|x: int| #[trigger] stack_has(stack, x) implies has_dep_from(
            d,
            ops.len() as int,
            x,
        ) by {
            let q = choose|q: int| 0 <= q < stack.len() && (#[trigger] stack[q]) as int == x;
            if q < stack.len() - 1 {
                assert(stack.drop_last()[q] as int == x);
                assert(stack_has(stack.drop_last(), x));
                let m = choose|m: int| ops2.len() <= m < d.len() && is_dep(#[trigger] d[m], x);
                assert(is_dep(d[m], x));
            } else {
                assert(x == stack.last() as int);
                assert(d[ops.len() as int] == ops2[ops.len() as int]);
                assert(is_dep(d[ops.len() as int], x));
            }
        }
    }
}


/// What a successful walk guarantees: indices stay below the position,
/// the single inflow opens the list, and every take is covered by a
/// later deposit or by an ancestor still open on the stack.
pub proof fn lemma_walk_props(cs: Seq<CfgV>, u: int, j: int)
    requires
        0 <= j <= cs.len(),
    ensures
        walk(cs, u, j) matches Ok(so) ==> ({
            &&& j >= 1 ==> so.0.len() >= 1 && so.1.len() >= 1
            &&& forall|q: int| 0 <= q < so.0.len() ==> ((#[trigger] so.0[q]) as int) < j
            &&& ops_in_bounds(so.1, j)
            &&& inflow_first(so.1)
            &&& forall|m: int, x: int|
                0 <= m < so.1.len() && #[trigger] is_take(so.1[m], x) ==> has_dep_from(
                    so.1,
                    m + 1,
                    x,
                ) || stack_has(so.0, x)
            &&& forall|i: int| 0 <= i < j ==> (#[trigger] cs[i]).this as int == i
            &&& forall|i: int|
                0 <= i < j ==> (#[trigger] cs[i]).capacity as int * u <= usize::MAX as int
        }),
    decreases j,
{
    if j > 0 {
        lemma_walk_props(cs, u, j - 1);
        match walk(cs, u, j - 1) {
            Result::Err(_) => {},
            Result::Ok(sp) => {
                match walk(cs, u, j) {
                    Result::Err(_) => {},
                    Result::Ok(so) => {
                        let c = cs[j - 1];
                        lemma_pops_props(sp.0, c.parent, sp.1);
                        let after = if c.parent == stack_top(sp.0) {
                            Option::Some((sp.0, sp.1))
                        } else {
                            pops(sp.0, c.parent, sp.1)
                        };
                        match after {
                            Option::None => {},
                            Option::Some(mid) => {
                                let st2 = mid.0;
                                let ops2 = mid.1;
                                // the pop phase leaves a prefix of the stack,
                                // extended only by deposits into old stack entries
                                assert(forall|q: int|
                                    0 <= q < st2.len() ==> #[trigger] st2[q] == sp.0[q]);
                                assert(forall|m: int|
                                    0 <= m < sp.1.len() ==> #[trigger] ops2[m] == sp.1[m]);
                                assert(forall|m: int|
                                    sp.1.len() <= m < ops2.len() ==> ((#[trigger] ops2[m])
                                        is Deposit && stack_has(sp.0, op_target(ops2[m]))));
                                if j - 1 >= 1 {
                                    assert(sp.0.len() >= 1);
                                    if c.parent is None {
                                        assert(c.parent != stack_top(sp.0));
                                        assert(after == pops(sp.0, c.parent, sp.1));
                                        assert(false);
                                    }
                                } else {
                                    assert(sp.0 =~= Seq::<usize>::empty());
                                    assert(sp.1 =~= Seq::<Op>::empty());
                                    if c.parent is Some {
                                        assert(stack_top(sp.0) is None);
                                        assert(c.parent != stack_top(sp.0));
                                        assert(false);
                                    }
                                }
                                match c.parent {
                                    Option::Some(p) => {
                                        assert(p == st2.last());
                                        assert(stack_has(st2, p as int));
                                    },
                                    Option::None => {},
                                }
                                assert(so.0 == st2.push(c.this));
                                let edge = so.1[so.1.len() - 1];
                                assert(so.1 == ops2.push(edge));
                                // stack entries stay below the position
                                assert forall|q: int| 0 <= q < so.0.len() implies ((
                                #[trigger] so.0[q]) as int) < j by {
                                    if q < st2.len() {
                                        assert(so.0[q] == sp.0[q]);
                                    } else {
                                        assert(so.0[q] == c.this);
                                    }
                                }
                                // instruction targets stay below the position
                                assert forall|m: int| 0 <= m < so.1.len() implies op_target(
                                    #[trigger] so.1[m],
                                ) < j by {
                                    if m < sp.1.len() {
                                        assert(so.1[m] == sp.1[m]);
                                        assert(op_target(sp.1[m]) < j - 1);
                                    } else if m < ops2.len() {
                                        assert(stack_has(sp.0, op_target(ops2[m])));
                                        let q = choose|q: int|
                                            0 <= q < sp.0.len() && (#[trigger] sp.0[q]) as int
                                                == op_target(ops2[m]);
                                        assert((sp.0[q] as int) < j - 1);
                                    } else {
                                        assert(so.1[m] == edge);
                                    }
                                }
                                // the inflow stands first and alone
                                if j - 1 == 0 {
                                    assert(so.1 =~= seq![edge]);
                                    assert(edge is Inflow);
                                } else {
                                    assert(so.1[0] == sp.1[0]);
                                    assert forall|m: int| 1 <= m < so.1.len() implies !((
                                    #[trigger] so.1[m]) is Inflow) by {
                                        if m < sp.1.len() {
                                            assert(so.1[m] == sp.1[m]);
                                        } else if m < ops2.len() {
                                            assert(so.1[m] is Deposit);
                                        } else {
                                            assert(so.1[m] == edge);
                                            assert(edge is Take);
                                        }
                                    }
                                }
                                // every take is covered
                                assert forall|m: int, x: int|
                                    0 <= m < so.1.len() && #[trigger] is_take(so.1[m], x) implies
                                    has_dep_from(so.1, m + 1, x) || stack_has(so.0, x) by {
                                    if m < sp.1.len() {
                                        assert(is_take(sp.1[m], x));
                                        if has_dep_from(sp.1, m + 1, x) {
                                            let k = choose|k: int|
                                                m + 1 <= k < sp.1.len() && is_dep(
                                                    #[trigger] sp.1[k],
                                                    x,
                                                );
                                            assert(so.1[k] == sp.1[k]);
                                            assert(has_dep_from(so.1, m + 1, x));
                                        } else {
                                            assert(stack_has(sp.0, x));
                                            if stack_has(st2, x) {
                                                let q = choose|q: int|
                                                    0 <= q < st2.len() && (#[trigger] st2[q]) as int
                                                        == x;
                                                assert(so.0[q] as int == x);
                                                assert(stack_has(so.0, x));
                                            } else {
                                                assert(has_dep_from(ops2, sp.1.len() as int, x));
                                                let k = choose|k: int|
                                                    sp.1.len() <= k < ops2.len() && is_dep(
                                                        #[trigger] ops2[k],
                                                        x,
                                                    );
                                                assert(so.1[k] == ops2[k]);
                                                assert(has_dep_from(so.1, m + 1, x));
                                            }
                                        }
                                    } else if m < ops2.len() {
                                        assert(so.1[m] is Deposit);
                                    } else {
                                        assert(so.1[m] == edge);
                                        match c.parent {
                                            Option::Some(p) => {
                                                assert(x == p as int);
                                                let q = choose|q: int|
                                                    0 <= q < st2.len() && (#[trigger] st2[q]) as int
                                                        == x;
                                                assert(so.0[q] as int == x);
                                                assert(stack_has(so.0, x));
                                            },
                                            Option::None => {},
                                        }
                                    }
                                }
                            },
                        }
                    },
                }
            },
        }
    }
}

/// A successfully compiled configuration is a well-formed engine: its
/// instruction list is in bounds, closed by deposits, opened by the
/// single inflow, and its capacities fit the machine word.
pub proof fn lemma_new_spec_wf(cs: Seq<CfgV>)
    requires
        all_periods_positive(cs),
        new_spec(cs) is Ok,
    ensures
        new_spec(cs) matches Ok(m) ==> ({
            &&& m.caps.len() == cs.len()
            &&& ops_in_bounds(m.ops, cs.len() as int)
            &&& deposits_close(m.ops)
            &&& inflow_first(m.ops)
            &&& forall|i: int|
                0 <= i < m.caps.len() ==> 0 <= #[trigger] m.caps[i] <= usize::MAX as int
            &&& m.unit >= 1
        }),
{
    let u = unit_of(cs);
    lemma_fold_pos(cs, cs.len() as int);
    lemma_walk_props(cs, u, cs.len() as int);
    match walk(cs, u, cs.len() as int) {
        Result::Err(_) => {},
        Result::Ok(so) => {
            lemma_drain_props(so.0, so.1);
            let d = drain(so.0, so.1);
            let n = cs.len() as int;
            assert forall|m: int| 0 <= m < d.len() implies op_target(#[trigger] d[m]) < n by {
                if m < so.1.len() {
                    assert(d[m] == so.1[m]);
                    assert(op_target(so.1[m]) < n);
                } else {
                    assert(stack_has(so.0, op_target(d[m])));
                    let q = choose|q: int|
                        0 <= q < so.0.len() && (#[trigger] so.0[q]) as int == op_target(d[m]);
                    assert((so.0[q] as int) < n);
                }
            }
            assert forall|jj: int, x: int|
                0 <= jj < d.len() && #[trigger] is_take(d[jj], x) implies has_dep_from(
                d,
                jj + 1,
                x,
            ) by {
                if jj < so.1.len() {
                    assert(d[jj] == so.1[jj]);
                    assert(is_take(so.1[jj], x));
                    if has_dep_from(so.1, jj + 1, x) {
                        let k = choose|k: int|
                            jj + 1 <= k < so.1.len() && is_dep(#[trigger] so.1[k], x);
                        assert(d[k] == so.1[k]);
                        assert(is_dep(d[k], x));
                        assert(has_dep_from(d, jj + 1, x));
                    } else {
                        assert(stack_has(so.0, x));
                        assert(has_dep_from(d, so.1.len() as int, x));
                        let k = choose|k: int| so.1.len() <= k < d.len() && is_dep(#[trigger] d[k], x);
                        assert(has_dep_from(d, jj + 1, x));
                    }
                } else {
                    assert(d[jj] is Deposit);
                }
            }
            if cs.len() >= 1 {
                assert(d[0] == so.1[0]);
            }
            assert forall|m: int| 1 <= m < d.len() implies !((#[trigger] d[m]) is Inflow) by {
                if m < so.1.len() {
                    assert(d[m] == so.1[m]);
                } else {
                    assert(d[m] is Deposit);
                }
            }
            match new_spec(cs) {
                Result::Err(_) => {},
                Result::Ok(mv) => {
                    assert forall|i: int| 0 <= i < mv.caps.len() implies 0 <= #[trigger] mv.caps[i]
                        <= usize::MAX as int by {
                        assert(mv.caps[i] == cs[i].capacity as int * u);
                        assert(cs[i].capacity as int * u >= 0) by (nonlinear_arith)
                            requires cs[i].capacity as int >= 0 && u >= 1;
                        assert(cs[i].capacity as int * u <= usize::MAX as int);
                    }
                },
            }
        },
    }
}


/// No take instruction draws from bucket `i`: it is a leaf of the tree.
pub open spec fn no_take_of(ops: Seq<Op>, i: int) -> bool {
    forall|m: int| 0 <= m < ops.len() ==> !is_take(#[trigger] ops[m], i)
}

/// Law: advancement never drains a leaf. A bucket that no take
/// instruction draws from can only gain from a tick; interior buckets
/// can be drawn down by their children.
pub proof fn lemma_advance_monotone_leaf(
    ops: Seq<Op>,
    caps: Seq<int>,
    v0: Seq<int>,
    dt: int,
    i: int,
    j: int,
)
    requires
        0 <= j <= ops.len(),
        ops_in_bounds(ops, v0.len() as int),
        dt >= 0,
        forall|w: int| 0 <= w < v0.len() ==> 0 <= #[trigger] v0[w] <= caps[w],
        forall|w: int| 0 <= w < caps.len() ==> 0 <= #[trigger] caps[w] <= usize::MAX as int,
        caps.len() == v0.len(),
        0 <= i < v0.len(),
        no_take_of(ops, i),
    ensures
        v0[i] <= run(ops, caps, v0, dt, j).0[i] <= caps[i],
    decreases j,
{
    if j > 0 {
        lemma_advance_monotone_leaf(ops, caps, v0, dt, i, j - 1);
        lemma_run_basic(ops, caps, v0, dt, j - 1);
        let prev = run(ops, caps, v0, dt, j - 1);
        match ops[j - 1] {
            Op::Inflow(_) => {},
            Op::Take(p, _) => {
                assert(!is_take(ops[j - 1], i));
                assert(p as int != i);
            },
            Op::Deposit(k) => {
                if k as int == i {
                    assert(sat(prev.1 + prev.0[i]) >= prev.0[i]);
                }
            },
        }
    }
}

/// Total fill of a state vector.
pub open spec fn sum_seq(v: Seq<int>) -> int
    decreases v.len(),
{
    if v.len() == 0 {
        0
    } else {
        sum_seq(v.drop_last()) + v.last()
    }
}

/// Updating one entry moves the total by the difference.
pub proof fn lemma_sum_update(v: Seq<int>, i: int, x: int)
    requires
        0 <= i < v.len(),
    ensures
        sum_seq(v.update(i, x)) == sum_seq(v) + x - v[i],
    decreases v.len(),
{
    if i == v.len() - 1 {
        assert(v.update(i, x).drop_last() =~= v.drop_last());
        assert(v.update(i, x).last() == x);
    } else {
        lemma_sum_update(v.drop_last(), i, x);
        assert(v.update(i, x).drop_last() =~= v.drop_last().update(i, x));
        assert(v.update(i, x).last() == v.last());
    }
}

/// Along the walk, total fill plus the flow in hand never exceeds the
/// initial total plus what the root edge seeded.
proof fn lemma_run_conserve_aux(ops: Seq<Op>, caps: Seq<int>, v0: Seq<int>, dt: int, j: int)
    requires
        1 <= j <= ops.len(),
        ops_in_bounds(ops, v0.len() as int),
        dt >= 0,
        forall|w: int| 0 <= w < v0.len() ==> 0 <= #[trigger] v0[w] <= usize::MAX as int,
        forall|w: int| 0 <= w < caps.len() ==> 0 <= #[trigger] caps[w] <= usize::MAX as int,
        caps.len() == v0.len(),
        inflow_first(ops),
    ensures
        sum_seq(run(ops, caps, v0, dt, j).0) + run(ops, caps, v0, dt, j).1 <= sum_seq(v0)
            + inflow_rate(ops) * dt,
    decreases j,
{
    if j == 1 {
        assert(run(ops, caps, v0, dt, 0) == (v0, 0int));
        match ops[0] {
            Op::Inflow(r) => {
                assert(run(ops, caps, v0, dt, 1) == step(ops[0], caps, v0, 0int, dt));
                assert(run(ops, caps, v0, dt, 1).0 == v0);
                assert(run(ops, caps, v0, dt, 1).1 == sat(r as int * dt));
                assert(sat(r as int * dt) <= r as int * dt);
                assert(inflow_rate(ops) == r as int);
            },
            Op::Take(_, _) => {},
            Op::Deposit(_) => {},
        }
    } else {
        lemma_run_conserve_aux(ops, caps, v0, dt, j - 1);
        lemma_run_basic(ops, caps, v0, dt, j - 1);
        let prev = run(ops, caps, v0, dt, j - 1);
        let cur = run(ops, caps, v0, dt, j);
        assert(cur == step(ops[j - 1], caps, prev.0, prev.1, dt));
        match ops[j - 1] {
            Op::Inflow(_) => {
                assert(!(ops[j - 1] is Inflow));
            },
            Op::Take(p, r) => {
                assert(op_target(ops[j - 1]) < v0.len() as int);
                let c = sat(prev.1 + prev.0[p as int]);
                let f2 = min2(c, sat(r as int * dt));
                lemma_sum_update(prev.0, p as int, c - f2);
                assert(sum_seq(cur.0) == sum_seq(prev.0) + (c - f2) - prev.0[p as int]);
                assert(cur.1 == f2);
                assert(c <= prev.1 + prev.0[p as int]);
            },
            Op::Deposit(k) => {
                assert(op_target(ops[j - 1]) < v0.len() as int);
                let c = sat(prev.1 + prev.0[k as int]);
                let d = min2(caps[k as int], c);
                lemma_sum_update(prev.0, k as int, d);
                assert(sum_seq(cur.0) == sum_seq(prev.0) + d - prev.0[k as int]);
                assert(cur.1 == c - d);
                assert(c <= prev.1 + prev.0[k as int]);
            },
        }
    }
}

/// Law: over one tick the aggregate gain across every bucket is at
/// most the root rate times the elapsed time: no edge manufactures
/// tokens.
pub proof fn lemma_advance_conservation(ops: Seq<Op>, caps: Seq<int>, v0: Seq<int>, dt: int)
    requires
        ops.len() >= 1,
        ops_in_bounds(ops, v0.len() as int),
        dt >= 0,
        forall|w: int| 0 <= w < v0.len() ==> 0 <= #[trigger] v0[w] <= usize::MAX as int,
        forall|w: int| 0 <= w < caps.len() ==> 0 <= #[trigger] caps[w] <= usize::MAX as int,
        caps.len() == v0.len(),
        inflow_first(ops),
    ensures
        sum_seq(advance_vals(ops, caps, v0, dt)) <= sum_seq(v0) + inflow_rate(ops) * dt,
{
    lemma_run_conserve_aux(ops, caps, v0, dt, ops.len() as int);
    lemma_run_basic(ops, caps, v0, dt, ops.len() as int);
}

/// Law: advancement saturates at the refill bound: any two deltas at
/// or beyond the bound move the state identically.
pub proof fn lemma_advance_saturates(
    ops: Seq<Op>,
    caps: Seq<int>,
    v0: Seq<int>,
    limit: int,
    a: int,
    b: int,
)
    requires
        a >= limit,
        b >= limit,
        limit >= 0,
    ensures
        advance_vals(ops, caps, v0, min2(a, limit)) == advance_vals(ops, caps, v0, min2(b, limit)),
{
}


/// Law (restricted): a single bucket converges to its steady state,
/// the full bucket, under any tick whose budget covers the capacity;
/// successive such ticks and one combined tick land on the same state.
/// With a tree, a tick bounded by the refill clamp need not reach the
/// steady state when an edge budget is smaller than the capacity
/// behind it.
pub proof fn lemma_single_bucket_fills(r: usize, cap: int, v0: Seq<int>, dt: int)
    requires
        v0.len() == 1,
        0 <= v0[0] <= usize::MAX as int,
        0 <= cap <= usize::MAX as int,
        dt >= 0,
        r as int * dt >= cap,
    ensures
        advance_vals(seq![Op::Inflow(r), Op::Deposit(0)], seq![cap], v0, dt) == seq![cap],
{
    let ops = seq![Op::Inflow(r), Op::Deposit(0)];
    let caps = seq![cap];
    assert(run(ops, caps, v0, dt, 0) == (v0, 0int));
    assert(run(ops, caps, v0, dt, 1) == step(ops[0], caps, v0, 0int, dt));
    assert(run(ops, caps, v0, dt, 1) == (v0, sat(r as int * dt)));
    let fl = sat(r as int * dt);
    assert(fl >= cap);
    let c = sat(fl + v0[0]);
    assert(c >= cap);
    assert(run(ops, caps, v0, dt, 2) == step(ops[1], caps, v0, fl, dt));
    assert(run(ops, caps, v0, dt, 2).0 == v0.update(0, min2(cap, c)));
    assert(v0.update(0, cap) =~= seq![cap]);
}


} // verus!
