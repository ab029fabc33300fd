//! The engine itself: configuration, the bucket tree, and the token
//! operations on it.
use vstd::prelude::*;
use core::marker::PhantomData;
use crate::model::{
    advance_vals, caps_of, deposits_close, inflow_first, min2, op_target, ops_in_bounds, vals_of,
    Bucket, Error, Op,
};
use crate::model::{
    inflow_rate, lemma_advance_conservation, lemma_advance_in_caps, lemma_advance_monotone_leaf,
    lemma_advance_saturates, lemma_run_basic, lemma_run_zero, no_take_of, sum_seq,
};
use crate::model::{
    all_periods_positive, fold_lcm, lemma_fold_mono, lemma_new_spec_wf, lemma_walk_err, new_spec,
    pops, rate_at, rates_ok, stack_top, sum_rates, unit_of, walk, walk_step, CfgV,
};
use crate::numeric::lcm_step;

verus! {

/// A span of time in nanoseconds; rate denominators and advancement
/// deltas are given in it.
#[derive(Debug, Clone, Copy, PartialEq, Eq)]
pub struct TimeSpan {
    /// Total length of the span in nanoseconds.
    pub nanos: u128,
}

impl TimeSpan {
    /// A span of `ns` nanoseconds.
    pub fn from_nanos(ns: u64) -> (r: TimeSpan)
        ensures
            r.nanos == ns,
    {
        TimeSpan { nanos: ns as u128 }
    }

    /// A span of `us` microseconds.
    pub fn from_micros(us: u64) -> (r: TimeSpan)
        ensures
            r.nanos == us * 1_000,
    {
        TimeSpan { nanos: us as u128 * 1_000 }
    }

    /// A span of `ms` milliseconds.
    pub fn from_millis(ms: u64) -> (r: TimeSpan)
        ensures
            r.nanos == ms * 1_000_000,
    {
        TimeSpan { nanos: ms as u128 * 1_000_000 }
    }

    /// A span of `s` seconds.
    pub fn from_secs(s: u64) -> (r: TimeSpan)
        ensures
            r.nanos == s * 1_000_000_000,
    {
        TimeSpan { nanos: s as u128 * 1_000_000_000 }
    }
}

/// Bucket configuration
#[derive(Copy, Debug)]
pub struct BucketCfg<T> {
    /// Current bucket name
    pub this: T,
    /// Parent name
    pub parent: Option<T>,
    /// Allowed flow rate in number of tokens per time span
    pub rate: (usize, TimeSpan),
    /// Burst capacity in tokens; can be 0 if burst is not required at
    /// this step.
    pub capacity: usize,
}

impl<T: Copy> Clone for BucketCfg<T> {
    fn clone(&self) -> (r: Self)
        ensures
            r == *self,
    {
        *self
    }
}

/// The index a label stands for, under the caller's injection into the
/// machine words.
pub open spec fn label_index<T>(label: T) -> int where usize: From<T> {
    <usize as vstd::std_specs::convert::FromSpec<T>>::from_spec(label) as int
}

/// The caller's label conversion behaves as a function; labels are
/// required to be usable as array indices.
pub open spec fn labels_obey<T>() -> bool where usize: From<T> {
    <usize as vstd::std_specs::convert::FromSpec<T>>::obeys_from_spec()
}


/// The view of one configuration entry, labels resolved to indices.
pub open spec fn cfg_view<T>(c: BucketCfg<T>) -> CfgV where usize: From<T> {
    CfgV {
        this: <usize as vstd::std_specs::convert::FromSpec<T>>::from_spec(c.this),
        parent: match c.parent {
            Option::Some(p) => Option::Some(
                <usize as vstd::std_specs::convert::FromSpec<T>>::from_spec(p),
            ),
            Option::None => Option::None,
        },
        tokens: c.rate.0,
        period: c.rate.1.nanos,
        capacity: c.capacity,
    }
}

/// The view of a whole configuration list.
pub open spec fn cfgs_view<T>(s: Seq<BucketCfg<T>>) -> Seq<CfgV> where usize: From<T> {
    s.map_values(|c: BucketCfg<T>| cfg_view(c))
}

/// Equality of two optional indices.
fn opt_eq(a: Option<usize>, b: Option<usize>) -> (r: bool)
    ensures
        r == (a == b),
{
    match (a, b) {
        (Option::Some(x), Option::Some(y)) => x == y,
        (Option::None, Option::None) => true,
        _ => false,
    }
}

/// Hierarchical token bucket.
///
/// Time is advanced with [`advance`][Self::advance] or
/// [`advance_ns`][Self::advance_ns]; tokens are examined and consumed
/// with [`peek`][Self::peek] and [`take`][Self::take]. When several
/// buckets feed from a single parent, the earlier one gets priority.
#[derive(Debug, PartialEq)]
pub struct HTB<T> {
    state: Vec<Bucket>,
    ops: Vec<Op>,
    /// Normalized unit cost: one raw token equals this many units.
    pub unit_cost: usize,
    time_limit: usize,
    marker: PhantomData<T>,
}

impl<T> HTB<T> {
    /// Number of buckets.
    pub closed spec fn n(self) -> int {
        self.state@.len() as int
    }

    /// Capacities, in units.
    pub closed spec fn caps(self) -> Seq<int> {
        caps_of(self.state@)
    }

    /// Current fills, in units.
    pub closed spec fn vals(self) -> Seq<int> {
        vals_of(self.state@)
    }

    /// The compiled instruction list.
    pub closed spec fn opsv(self) -> Seq<Op> {
        self.ops@
    }

    /// The largest advancement the engine will apply in one step.
    pub closed spec fn limit(self) -> int {
        self.time_limit as int
    }

    /// The unit cost, as a mathematical integer.
    pub closed spec fn unit(self) -> int {
        self.unit_cost as int
    }

    /// Structural soundness: instructions stay in bounds, every take is
    /// closed by a later deposit, the walk opens with the single
    /// inflow, and no bucket holds more than its capacity.
    pub closed spec fn wf(self) -> bool {
        &&& ops_in_bounds(self.ops@, self.n())
        &&& deposits_close(self.ops@)
        &&& inflow_first(self.ops@)
        &&& forall|i: int| 0 <= i < self.n() ==> #[trigger] self.vals()[i] <= self.caps()[i]
    }

    /// Law: after any sequence of calls, every bucket holds between
    /// nothing and its capacity.
    pub proof fn lemma_in_caps(self)
        requires
            self.wf(),
        ensures
            self.vals().len() == self.n(),
            self.caps().len() == self.n(),
            forall|i: int| 0 <= i < self.n() ==> 0 <= #[trigger] self.vals()[i] <= self.caps()[i],
    {
        assert forall|i: int| 0 <= i < self.n() implies 0 <= #[trigger] self.vals()[i]
            <= self.caps()[i] by {
            assert(self.vals()[i] == self.state@[i].value as int);
        }
    }

    /// Law: a tick never drains a leaf. A bucket no take instruction
    /// draws from only gains from advancement; an interior bucket can
    /// be drawn down by its children.
    pub proof fn lemma_tick_monotone_leaf(self, dt: int, i: int)
        requires
            self.wf(),
            dt >= 0,
            0 <= i < self.n(),
            no_take_of(self.opsv(), i),
        ensures
            self.vals()[i] <= advance_vals(self.opsv(), self.caps(), self.vals(), dt)[i]
                <= self.caps()[i],
    {
        self.lemma_bounds_for_model();
        lemma_advance_monotone_leaf(
            self.opsv(),
            self.caps(),
            self.vals(),
            dt,
            i,
            self.opsv().len() as int,
        );
    }

    /// Law: over one tick the total gain across all buckets is at most
    /// the root rate times the elapsed time: the tree conserves flow.
    pub proof fn lemma_tick_conservation(self, dt: int)
        requires
            self.wf(),
            dt >= 0,
            self.opsv().len() >= 1,
        ensures
            sum_seq(advance_vals(self.opsv(), self.caps(), self.vals(), dt)) <= sum_seq(
                self.vals(),
            ) + inflow_rate(self.opsv()) * dt,
    {
        self.lemma_bounds_for_model();
        lemma_advance_conservation(self.opsv(), self.caps(), self.vals(), dt);
    }

    /// Law: advancement saturates at the refill bound: any two deltas
    /// at or beyond it move the state identically.
    pub proof fn lemma_tick_saturates(self, a: int, b: int)
        requires
            a >= self.limit(),
            b >= self.limit(),
            self.limit() >= 0,
        ensures
            advance_vals(self.opsv(), self.caps(), self.vals(), min2(a, self.limit()))
                == advance_vals(self.opsv(), self.caps(), self.vals(), min2(b, self.limit())),
    {
        lemma_advance_saturates(self.opsv(), self.caps(), self.vals(), self.limit(), a, b);
    }

    /// The word bounds every model lemma asks of the state vector.
    proof fn lemma_bounds_for_model(self)
        requires
            self.wf(),
        ensures
            forall|i: int| 0 <= i < self.vals().len() ==> 0 <= #[trigger] self.vals()[i] <= self.caps()[i],
            forall|i: int| 0 <= i < self.caps().len() ==> 0 <= #[trigger] self.caps()[i] <= usize::MAX as int,
            self.caps().len() == self.vals().len(),
            self.vals().len() == self.n(),
    {
        assert forall|i: int| 0 <= i < self.vals().len() implies 0 <= #[trigger] self.vals()[i]
            <= self.caps()[i] by {
            assert(self.vals()[i] == self.state@[i].value as int);
            assert(self.vals()[i] <= self.caps()[i]);
        }
        assert forall|i: int| 0 <= i < self.caps().len() implies 0 <= #[trigger] self.caps()[i]
            <= usize::MAX as int by {
            assert(self.caps()[i] == self.state@[i].cap as int);
        }
    }
}

impl<T: Copy + Eq> HTB<T> where usize: From<T> {

    /// Build an engine from a configuration given in depth-first
    /// order: the root first, then each child subtree in priority
    /// order. Rejects malformed trees and rates that cannot be
    /// normalized onto the machine word.
    ///
    /// Every rate period must be a positive span: a rate per nothing
    /// has no meaning. Labels must convert to indices as a function,
    /// which is what makes them usable as array positions.
    pub fn new(tokens: &[BucketCfg<T>]) -> (res: Result<Self, Error>)
        requires
            labels_obey::<T>(),
            all_periods_positive(cfgs_view(tokens@)),
        ensures
            match (res, new_spec(cfgs_view(tokens@))) {
                (Result::Ok(h), Result::Ok(m)) => h.wf() && h.n() == m.caps.len() && h.caps()
                    == m.caps && h.vals() == m.caps && h.opsv() == m.ops && h.unit() == m.unit
                    && h.limit() == m.limit,
                (Result::Err(e1), Result::Err(e2)) => e1 == e2,
                _ => false,
            },
    {
        let ghost cs = cfgs_view(tokens@);
        let n = tokens.len();
        if n == 0 {
            return Result::Err(Error::NoRoot);
        }
        proof {
            assert(cs[0] == cfg_view(tokens@[0]));
        }
        if tokens[0].parent.is_some() {
            return Result::Err(Error::NoRoot);
        }
        // normalize: fold the least common multiple of all periods
        let mut acc: u128 = tokens[0].rate.1.nanos;
        proof {
            assert(cs[0].period > 0);
        }
        let mut i: usize = 1;
        while i < n
            invariant
                1 <= i <= n,
                n == tokens@.len(),
                cs == cfgs_view(tokens@),
                cs.len() == n,
                all_periods_positive(cs),
                cs[0].parent is None,
                acc as int == fold_lcm(cs, i as int),
                acc >= 1,
            decreases n - i,
        {
            proof {
                assert(cs[i as int] == cfg_view(tokens@[i as int]));
                assert(cs[i as int].period > 0);
            }
            let d = tokens[i].rate.1.nanos;
            match lcm_step(acc, d) {
                Option::Some(l) => {
                    acc = l;
                },
                Option::None => {
                    proof {
                        lemma_fold_mono(cs, i as int + 1, cs.len() as int);
                        assert(unit_of(cs) > usize::MAX as int);
                    }
                    return Result::Err(Error::InvalidRate);
                },
            }
            i += 1;
        }
        proof {
            assert(acc as int == unit_of(cs));
        }
        if acc > usize::MAX as u128 {
            return Result::Err(Error::InvalidRate);
        }
        let u: usize = acc as usize;
        // scale each rate into units per nanosecond
        let mut rs: Vec<usize> = Vec::new();
        let mut i: usize = 0;
        while i < n
            invariant
                0 <= i <= n,
                n == tokens@.len(),
                cs == cfgs_view(tokens@),
                cs.len() == n,
                all_periods_positive(cs),
                cs[0].parent is None,
                u >= 1,
                u as int == unit_of(cs),
                rs@.len() == i,
                forall|q: int|
                    0 <= q < i ==> (#[trigger] rs@[q]) as int == rate_at(cs, u as int, q),
            decreases n - i,
        {
            proof {
                assert(cs[i as int] == cfg_view(tokens@[i as int]));
                assert(cs[i as int].period > 0);
                assert((tokens@[i as int].rate.0 as int) * (u as int) <= (u64::MAX as int) * (
                u64::MAX as int)) by (nonlinear_arith)
                    requires
                        tokens@[i as int].rate.0 as int <= u64::MAX as int,
                        u as int <= u64::MAX as int,
                        tokens@[i as int].rate.0 as int >= 0,
                        u as int >= 1;
                assert((u64::MAX as int) * (u64::MAX as int) < (u128::MAX as int));
            }
            let num = tokens[i].rate.0 as u128 * u as u128;
            let den = tokens[i].rate.1.nanos;
            let r128 = num / den;
            if r128 > usize::MAX as u128 {
                proof {
                    assert(rate_at(cs, u as int, i as int) > usize::MAX as int);
                    assert(!rates_ok(cs, u as int));
                }
                return Result::Err(Error::InvalidRate);
            }
            rs.push(r128 as usize);
            i += 1;
        }
        proof {
            assert forall|q2: int| 0 <= q2 < cs.len() implies #[trigger] rate_at(
                cs,
                u as int,
                q2,
            ) <= usize::MAX as int by {
                assert(rs@[q2] as int == rate_at(cs, u as int, q2));
            }
            assert(rates_ok(cs, u as int));
        }
        // the depth-first walk: buckets, stack of open ancestors, ops
        let mut state: Vec<Bucket> = Vec::new();
        let mut ops: Vec<Op> = Vec::new();
        let mut stack: Vec<usize> = Vec::new();
        let mut i: usize = 0;
        while i < n
            invariant
                0 <= i <= n,
                n == tokens@.len(),
                cs == cfgs_view(tokens@),
                cs.len() == n,
                labels_obey::<T>(),
                all_periods_positive(cs),
                cs[0].parent is None,
                u >= 1,
                u as int == unit_of(cs),
                unit_of(cs) <= usize::MAX as int,
                rates_ok(cs, u as int),
                rs@.len() == n,
                forall|q: int|
                    0 <= q < n ==> (#[trigger] rs@[q]) as int == rate_at(cs, u as int, q),
                walk(cs, u as int, i as int) == Result::<(Seq<usize>, Seq<Op>), Error>::Ok(
                    (stack@, ops@),
                ),
                state@.len() == i,
                forall|q: int|
                    0 <= q < i ==> (#[trigger] state@[q]).cap as int == cs[q].capacity as int * (
                    u as int) && state@[q].value == state@[q].cap,
            decreases n - i,
        {
            proof {
                assert(cs[i as int] == cfg_view(tokens@[i as int]));
            }
            let ti = usize::from(tokens[i].this);
            if ti != i {
                proof {
                    assert(walk(cs, u as int, i as int + 1) == Result::<(Seq<usize>, Seq<Op>),
                        Error>::Err(Error::InvalidStructure));
                    lemma_walk_err(cs, u as int, i as int + 1, cs.len() as int);
                }
                return Result::Err(Error::InvalidStructure);
            }
            proof {
                assert((tokens@[i as int].capacity as int) * (u as int) <= (u64::MAX as int) * (
                u64::MAX as int)) by (nonlinear_arith)
                    requires
                        tokens@[i as int].capacity as int <= u64::MAX as int,
                        u as int <= u64::MAX as int,
                        tokens@[i as int].capacity as int >= 0,
                        u as int >= 1;
                assert((u64::MAX as int) * (u64::MAX as int) < (u128::MAX as int));
            }
            let capu = tokens[i].capacity as u128 * u as u128;
            if capu > usize::MAX as u128 {
                proof {
                    assert(walk(cs, u as int, i as int + 1) == Result::<(Seq<usize>, Seq<Op>),
                        Error>::Err(Error::InvalidRate));
                    lemma_walk_err(cs, u as int, i as int + 1, cs.len() as int);
                }
                return Result::Err(Error::InvalidRate);
            }
            let capv = capu as usize;
            state.push(Bucket { cap: capv, value: capv });
            let pix: Option<usize> = match tokens[i].parent {
                Option::Some(pl) => Option::Some(usize::from(pl)),
                Option::None => Option::None,
            };
            proof {
                assert(pix == cs[i as int].parent);
            }
            let top: Option<usize> = if stack.len() == 0 {
                Option::None
            } else {
                Option::Some(stack[stack.len() - 1])
            };
            proof {
                assert(top == stack_top(stack@));
            }
            let ghost stack0 = stack@;
            let ghost ops0v = ops@;
            if !opt_eq(pix, top) {
                loop
                    invariant_except_break
                        pops(stack0, pix, ops0v) == pops(stack@, pix, ops@),
                        cs == cfgs_view(tokens@),
                        n == tokens@.len(),
                        cs.len() == n,
                        u as int == unit_of(cs),
                        unit_of(cs) <= usize::MAX as int,
                        rates_ok(cs, u as int),
                        cs[0].parent is None,
                        0 <= i < n,
                        walk(cs, u as int, i as int) == Result::<(Seq<usize>, Seq<Op>),
                            Error>::Ok((stack0, ops0v)),
                        cs[i as int].this as int == i,
                        cs[i as int].capacity as int * (u as int) <= usize::MAX as int,
                        pix == cs[i as int].parent,
                        pix != stack_top(stack0),
                    ensures
                        pops(stack0, pix, ops0v) == Option::Some((stack@, ops@)),
                    decreases stack@.len(),
                {
                    if stack.len() == 0 {
                        proof {
                            assert(pops(stack@, pix, ops@) is None);
                            assert(walk(cs, u as int, i as int + 1) == Result::<(Seq<usize>,
                                Seq<Op>), Error>::Err(Error::InvalidStructure));
                            lemma_walk_err(cs, u as int, i as int + 1, cs.len() as int);
                        }
                        return Result::Err(Error::InvalidStructure);
                    }
                    let pp = stack[stack.len() - 1];
                    let pm = match pix {
                        Option::Some(px) => px == pp,
                        Option::None => false,
                    };
                    let ghost oldstack = stack@;
                    let ghost oldops = ops@;
                    ops.push(Op::Deposit(pp));
                    if pm {
                        proof {
                            assert(pix == Option::Some(oldstack.last()));
                            assert(pops(oldstack, pix, oldops) == Option::Some((stack@, ops@)));
                        }
                        break;
                    }
                    stack.pop();
                    proof {
                        assert(stack@ == oldstack.drop_last());
                        assert(pops(oldstack, pix, oldops) == pops(stack@, pix, ops@));
                    }
                }
            }
            // the parent is now the top of the stack: open this bucket
            stack.push(ti);
            let r = rs[i];
            match pix {
                Option::Some(p) => ops.push(Op::Take(p, r)),
                Option::None => ops.push(Op::Inflow(r)),
            }
            proof {
                assert(rs@[i as int] as int == rate_at(cs, u as int, i as int));
                assert(rs@[i as int] == rate_at(cs, u as int, i as int) as usize);
                assert(walk(cs, u as int, i as int + 1) == walk_step(
                    cs,
                    u as int,
                    i as int,
                    stack0,
                    ops0v,
                ));
                assert(walk(cs, u as int, i as int + 1) == Result::<(Seq<usize>, Seq<Op>),
                    Error>::Ok((stack@, ops@)));
            }
            i += 1;
        }
        // close every subtree still open, deepest first
        let ghost stack_f = stack@;
        let ghost ops_f = ops@;
        proof {
            assert(stack_f.take(stack_f.len() as int) =~= stack_f);
        }
        let mut k = stack.len();
        while k > 0
            invariant
                k <= stack_f.len(),
                stack@ == stack_f,
                crate::model::drain(stack_f, ops_f) == crate::model::drain(
                    stack_f.take(k as int),
                    ops@,
                ),
            decreases k,
        {
            k -= 1;
            let pp = stack[k];
            let ghost oldops = ops@;
            ops.push(Op::Deposit(pp));
            proof {
                assert(stack_f.take(k as int + 1).drop_last() =~= stack_f.take(k as int));
                assert(stack_f.take(k as int + 1).last() == stack_f[k as int]);
                assert(crate::model::drain(stack_f.take(k as int + 1), oldops)
                    == crate::model::drain(stack_f.take(k as int), ops@));
            }
        }
        proof {
            assert(stack_f.take(0) =~= Seq::<usize>::empty());
            assert(ops@ == crate::model::drain(stack_f, ops_f));
        }
        // the advancement clamp: unit cost times the total rate
        let mut s: u128 = 0;
        let mut q: usize = 0;
        while q < n
            invariant
                0 <= q <= n,
                rs@.len() == n,
                forall|w: int|
                    0 <= w < n ==> (#[trigger] rs@[w]) as int == rate_at(cs, u as int, w),
                s as int == sum_rates(cs, u as int, q as int),
                s as int <= (q as int) * (u64::MAX as int),
            decreases n - q,
        {
            proof {
                assert((q as int) * (u64::MAX as int) + (u64::MAX as int) == ((q as int) + 1) * (
                u64::MAX as int)) by (nonlinear_arith);
                assert(((q as int) + 1) * (u64::MAX as int) <= (u64::MAX as int) * (
                u64::MAX as int)) by (nonlinear_arith)
                    requires (q as int) + 1 <= u64::MAX as int;
                assert((u64::MAX as int) * (u64::MAX as int) < (u128::MAX as int));
            }
            s = s + rs[q] as u128;
            q += 1;
        }
        match (u as u128).checked_mul(s) {
            Option::None => {
                proof {
                    assert((u as int) * (s as int) > u128::MAX as int);
                    assert(usize::MAX as int / 2 < u128::MAX as int);
                }
                Result::Err(Error::InvalidRate)
            },
            Option::Some(l) => {
                if l > (usize::MAX / 2) as u128 {
                    return Result::Err(Error::InvalidRate);
                }
                let tl = l as usize;
                let h = HTB {
                    state,
                    ops,
                    unit_cost: u,
                    time_limit: tl,
                    marker: PhantomData,
                };
                proof {
                    lemma_new_spec_wf(cs);
                    match new_spec(cs) {
                        Result::Err(_) => {
                            assert(false);
                        },
                        Result::Ok(m) => {
                            assert(caps_of(h.state@) =~= m.caps);
                            assert(vals_of(h.state@) =~= m.caps);
                            assert forall|w: int| 0 <= w < h.n() implies #[trigger] h.vals()[w]
                                <= h.caps()[w] by {
                                assert(h.vals()[w] == m.caps[w]);
                            }
                        },
                    }
                }
                Result::Ok(h)
            },
        }
    }

    /// Advance time by a number of nanoseconds, clamped to the refill
    /// bound; update cost is linear in the number of buckets.
    pub fn advance_ns(&mut self, time_diff: usize)
        requires
            old(self).wf(),
        ensures
            final(self).wf(),
            final(self).caps() == old(self).caps(),
            final(self).opsv() == old(self).opsv(),
            final(self).unit() == old(self).unit(),
            final(self).limit() == old(self).limit(),
            final(self).n() == old(self).n(),
            final(self).vals() == advance_vals(
                old(self).opsv(),
                old(self).caps(),
                old(self).vals(),
                min2(time_diff as int, old(self).limit()),
            ),
            time_diff == 0 ==> final(self).vals() == old(self).vals(),
            time_diff as int >= old(self).limit() ==> final(self).vals() == advance_vals(
                old(self).opsv(),
                old(self).caps(),
                old(self).vals(),
                old(self).limit(),
            ),
    {
        let dt = if time_diff < self.time_limit {
            time_diff
        } else {
            self.time_limit
        };
        let ghost ops0 = self.ops@;
        let ghost caps0 = caps_of(self.state@);
        let ghost v0 = vals_of(self.state@);
        proof {
            assert forall|i: int| 0 <= i < v0.len() implies 0 <= #[trigger] v0[i]
                <= caps0[i] by {
                assert(v0[i] == self.state@[i].value as int);
                assert(caps0[i] == self.state@[i].cap as int);
                assert(self.vals()[i] <= self.caps()[i]);
            }
            assert forall|i: int| 0 <= i < caps0.len() implies 0 <= #[trigger] caps0[i]
                <= usize::MAX as int by {
                assert(caps0[i] == self.state@[i].cap as int);
            }
        }
        let mut flow: usize = 0;
        let mut j: usize = 0;
        let n_ops = self.ops.len();
        while j < n_ops
            invariant
                j <= n_ops,
                n_ops == ops0.len(),
                self.ops@ == ops0,
                self.unit_cost == old(self).unit_cost,
                self.time_limit == old(self).time_limit,
                self.state@.len() == v0.len(),
                caps_of(self.state@) == caps0,
                caps0.len() == v0.len(),
                ops_in_bounds(ops0, v0.len() as int),
                deposits_close(ops0),
                inflow_first(ops0),
                forall|i: int| 0 <= i < v0.len() ==> 0 <= #[trigger] v0[i] <= caps0[i],
                forall|i: int|
                    0 <= i < caps0.len() ==> 0 <= #[trigger] caps0[i] <= usize::MAX as int,
                dt as int == min2(time_diff as int, old(self).time_limit as int),
                vals_of(self.state@) == crate::model::run(ops0, caps0, v0, dt as int, j as int).0,
                flow as int == crate::model::run(ops0, caps0, v0, dt as int, j as int).1,
            decreases n_ops - j,
        {
            proof {
                lemma_run_basic(ops0, caps0, v0, dt as int, j as int);
                assert(op_target(ops0[j as int]) < v0.len() as int);
            }
            let ghost pre = self.state@;
            let op = self.ops[j];
            match op {
                Op::Inflow(r) => {
                    flow = match r.checked_mul(dt) {
                        Some(x) => x,
                        None => usize::MAX,
                    };
                },
                Op::Take(p, r) => {
                    let budget = match r.checked_mul(dt) {
                        Some(x) => x,
                        None => usize::MAX,
                    };
                    let combined = flow.saturating_add(self.state[p].value);
                    let f2 = if combined < budget {
                        combined
                    } else {
                        budget
                    };
                    let newv = combined - f2;
                    let cap = self.state[p].cap;
                    self.state[p] = Bucket { cap, value: newv };
                    flow = f2;
                    proof {
                        assert(vals_of(self.state@) =~= vals_of(pre).update(
                            p as int,
                            newv as int,
                        ));
                        assert(caps_of(self.state@) =~= caps_of(pre));
                    }
                },
                Op::Deposit(k) => {
                    let combined = flow.saturating_add(self.state[k].value);
                    let cap = self.state[k].cap;
                    let d = if cap < combined {
                        cap
                    } else {
                        combined
                    };
                    self.state[k] = Bucket { cap, value: d };
                    flow = combined - d;
                    proof {
                        assert(vals_of(self.state@) =~= vals_of(pre).update(k as int, d as int));
                        assert(caps_of(self.state@) =~= caps_of(pre));
                    }
                },
            }
            j += 1;
        }
        proof {
            lemma_advance_in_caps(ops0, caps0, v0, dt as int);
            if time_diff == 0 {
                lemma_run_zero(ops0, caps0, v0, ops0.len() as int);
            }
        }
    }

    /// Advance time by a [`TimeSpan`]; spans beyond the machine word
    /// saturate, as does the refill bound.
    pub fn advance(&mut self, time_diff: TimeSpan)
        requires
            old(self).wf(),
        ensures
            final(self).wf(),
            final(self).caps() == old(self).caps(),
            final(self).opsv() == old(self).opsv(),
            final(self).unit() == old(self).unit(),
            final(self).limit() == old(self).limit(),
            final(self).n() == old(self).n(),
            final(self).vals() == advance_vals(
                old(self).opsv(),
                old(self).caps(),
                old(self).vals(),
                min2(min2(time_diff.nanos as int, usize::MAX as int), old(self).limit()),
            ),
    {
        let ns: usize = if time_diff.nanos > usize::MAX as u128 {
            usize::MAX
        } else {
            time_diff.nanos as usize
        };
        self.advance_ns(ns);
    }

    /// True when at least one whole token is available at the label.
    pub fn peek(&self, label: T) -> (r: bool)
        requires
            labels_obey::<T>(),
            0 <= label_index(label) < self.n(),
        ensures
            r == (self.vals()[label_index(label)] >= self.unit()),
    {
        let ix = usize::from(label);
        self.state[ix].value >= self.unit_cost
    }

    /// True when at least `cnt` whole tokens are available at the
    /// label; a token demand beyond the machine word is never
    /// satisfiable.
    pub fn peek_n(&self, label: T, cnt: usize) -> (r: bool)
        requires
            labels_obey::<T>(),
            0 <= label_index(label) < self.n(),
        ensures
            r == (self.unit() * cnt as int <= usize::MAX as int
                && self.vals()[label_index(label)] >= self.unit() * cnt as int),
    {
        let ix = usize::from(label);
        match self.unit_cost.checked_mul(cnt) {
            Some(need) => self.state[ix].value >= need,
            None => false,
        }
    }

    /// Consume a single token from the label: all or nothing.
    pub fn take(&mut self, label: T) -> (r: bool)
        requires
            labels_obey::<T>(),
            0 <= label_index(label) < old(self).n(),
            old(self).wf(),
        ensures
            final(self).wf(),
            final(self).caps() == old(self).caps(),
            final(self).opsv() == old(self).opsv(),
            final(self).unit() == old(self).unit(),
            final(self).limit() == old(self).limit(),
            final(self).n() == old(self).n(),
            r == (old(self).vals()[label_index(label)] >= old(self).unit()),
            r ==> final(self).vals() == old(self).vals().update(
                label_index(label),
                old(self).vals()[label_index(label)] - old(self).unit(),
            ),
            !r ==> *final(self) == *old(self),
    {
        let ix = usize::from(label);
        let ghost pre = self.state@;
        match self.state[ix].value.checked_sub(self.unit_cost) {
            Some(nv) => {
                let cap = self.state[ix].cap;
                self.state[ix] = Bucket { cap, value: nv };
                proof {
                    assert(vals_of(self.state@) =~= vals_of(pre).update(ix as int, nv as int));
                    assert(caps_of(self.state@) =~= caps_of(pre));
                    assert forall|i: int| 0 <= i < self.n() implies #[trigger] self.vals()[i]
                        <= self.caps()[i] by {
                        assert(old(self).vals()[i] <= old(self).caps()[i]);
                    }
                }
                true
            },
            None => false,
        }
    }

    /// Consume `cnt` tokens from the label: all or nothing. A demand
    /// whose unit total exceeds the machine word is refused.
    pub fn take_n(&mut self, label: T, cnt: usize) -> (r: bool)
        requires
            labels_obey::<T>(),
            0 <= label_index(label) < old(self).n(),
            old(self).wf(),
        ensures
            final(self).wf(),
            final(self).caps() == old(self).caps(),
            final(self).opsv() == old(self).opsv(),
            final(self).unit() == old(self).unit(),
            final(self).limit() == old(self).limit(),
            final(self).n() == old(self).n(),
            r == (old(self).unit() * cnt as int <= usize::MAX as int
                && old(self).vals()[label_index(label)] >= old(self).unit()
                * cnt as int),
            r ==> final(self).vals() == old(self).vals().update(
                label_index(label),
                old(self).vals()[label_index(label)] - old(self).unit() * cnt as int,
            ),
            !r ==> *final(self) == *old(self),
    {
        let ix = usize::from(label);
        match self.unit_cost.checked_mul(cnt) {
            Some(need) => {
                let ghost pre = self.state@;
                match self.state[ix].value.checked_sub(need) {
                    Some(nv) => {
                        let cap = self.state[ix].cap;
                        self.state[ix] = Bucket { cap, value: nv };
                        proof {
                            assert(vals_of(self.state@) =~= vals_of(pre).update(
                                ix as int,
                                nv as int,
                            ));
                            assert(caps_of(self.state@) =~= caps_of(pre));
                            assert forall|i: int| 0 <= i < self.n() implies #[trigger] self.vals()[i]
                                <= self.caps()[i] by {
                                assert(old(self).vals()[i] <= old(self).caps()[i]);
                            }
                        }
                        true
                    },
                    None => false,
                }
            },
            None => false,
        }
    }

    /// The raw fill of the label's bucket, in units; divide by
    /// [`unit_cost`][Self::unit_cost] for whole tokens.
    pub fn index(&self, label: T) -> (r: usize)
        requires
            labels_obey::<T>(),
            0 <= label_index(label) < self.n(),
        ensures
            r as int == self.vals()[label_index(label)],
    {
        let ix = usize::from(label);
        self.state[ix].value
    }
}

} // verus!
