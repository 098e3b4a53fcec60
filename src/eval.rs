//! Evaluating an expression to one value.
//!
//! Integer draws come from the thread-local generator of `rand`. Work on
//! floating-point values is left to the caller through `FloatHost`: this
//! library holds floats as bit patterns and does no arithmetic on them.
use vstd::prelude::*;

use crate::ast::{Expr, ExprV, FloatBound, Range, Return, ReturnV, SetsV, Value, ValueSet, sets_view};
use crate::error::{EvalError, EvalErrorV};
use crate::parser::{chances_view, find_set, find_set_index};

verus! {

/// What the caller supplies for floating-point values, all of which are
/// passed as IEEE-754 bit patterns.
pub trait FloatHost {
    /// A value drawn uniformly from `[lo, hi)`; `lo`, `hi` and the result are `f64`s.
    fn float_in(&mut self, lo: u64, hi: u64) -> u64;

    /// An integer converted to `f64`.
    fn widen(&self, v: i64) -> u64;

    /// An integer converted to `f32`.
    fn narrow_int(&self, v: i64) -> u32;

    /// An `f64` converted to `f32`.
    fn narrow(&self, v: u64) -> u32;
}

/// Draws of a weighted choice are taken from `[0, CHANCE_SPAN)`: one
/// hundred percent in millionths of a percent.
pub const CHANCE_SPAN: i64 = 100_000_000;

/// Relies on `rand::Rng::gen_range` on `rand::thread_rng()`: a value in
/// `lo..hi`, which must not be empty.
#[verifier::external_body]
fn random_in(lo: i64, hi: i64) -> (r: i64)
    requires
        lo < hi,
    ensures
        lo <= r < hi,
{
    rand::Rng::gen_range(&mut rand::thread_rng(), lo..hi)
}

/// The sum of the first `k` weights.
pub open spec fn prefix_sum(ps: Seq<i64>, k: int) -> int
    decreases k,
{
    if k <= 0 || k > ps.len() {
        0
    } else {
        prefix_sum(ps, k - 1) + ps[k - 1]
    }
}

/// The branch that the draw `u` selects, looking from branch `i` on: the
/// first whose running total exceeds `u`, and the last branch if none does.
pub open spec fn chosen_from(ps: Seq<i64>, u: int, i: int) -> int
    decreases ps.len() - i,
{
    if i >= ps.len() - 1 {
        ps.len() - 1
    } else if u < prefix_sum(ps, i + 1) {
        i
    } else {
        chosen_from(ps, u, i + 1)
    }
}

/// The branch of a weighted choice that the draw `u` selects.
pub open spec fn chosen(ps: Seq<i64>, u: int) -> int {
    chosen_from(ps, u, 0)
}

/// The branch of a weighted choice that a draw selects: the draw is reduced
/// by each weight in turn, and the first branch that takes it below zero is
/// chosen; the last branch is chosen when none does.
pub fn select_branch(percents: &Vec<i64>, draw: i64) -> (r: usize)
    requires
        percents@.len() > 0,
    ensures
        r < percents@.len(),
        r == chosen(percents@, draw as int),
{
    let n = percents.len();
    let mut running: i128 = draw as i128;
    let mut i: usize = 0;
    while i + 1 < n
        invariant
            n == percents@.len(),
            n > 0,
            i < n,
            running == draw - prefix_sum(percents@, i as int),
            -(i as int) * 0x8000_0000_0000_0000 - 0x8000_0000_0000_0000 <= running <= (i as int)
                * 0x8000_0000_0000_0000 + 0x8000_0000_0000_0000,
            chosen(percents@, draw as int) == chosen_from(percents@, draw as int, i as int),
        decreases n - i,
    {
        running = running - percents[i] as i128;
        if running < 0 {
            return i;
        }
        i = i + 1;
    }
    i
}

/// Whether evaluating `e` may give `v`.
pub open spec fn may_yield(e: ExprV, sets: SetsV, v: Value) -> bool
    decreases e,
{
    match e {
        ExprV::Random(cs) => if cs.len() == 0 {
            v == Value::Original
        } else {
            exists|i: int| 0 <= i < cs.len() && may_yield(cs[i].1, sets, v)
        },
        ExprV::Return(r) => match r {
            ReturnV::Constant(c) => v == c,
            ReturnV::Range(Range::Int(lo, hi)) => v matches Value::Int(x) && if lo < hi {
                lo <= x < hi
            } else {
                x == lo
            },
            ReturnV::Range(Range::Float(_, _)) => v is Float,
            ReturnV::SetRef(name) => match find_set(sets, name@) {
                Some(k) => sets[k].1.contains(v),
                None => false,
            },
            ReturnV::AnonymousSet(s) => s.contains(v),
        },
        ExprV::Original => v == Value::Original,
    }
}

/// Whether every set that `e` may draw from is defined and holds a value.
pub open spec fn evaluable(e: ExprV, sets: SetsV) -> bool
    decreases e,
{
    match e {
        ExprV::Random(cs) => forall|i: int| 0 <= i < cs.len() ==> evaluable(cs[i].1, sets),
        ExprV::Return(ReturnV::SetRef(name)) => match find_set(sets, name@) {
            Some(k) => sets[k].1.len() > 0,
            None => false,
        },
        ExprV::Return(ReturnV::AnonymousSet(s)) => s.len() > 0,
        _ => true,
    }
}

/// Whether evaluating `e` may fail with `err`: a set that it draws from is
/// missing or empty, and the error names it (a set written in place has no
/// name).
pub open spec fn may_fail_eval(e: ExprV, sets: SetsV, err: EvalErrorV) -> bool
    decreases e,
{
    match e {
        ExprV::Random(cs) => exists|i: int| 0 <= i < cs.len() && may_fail_eval(cs[i].1, sets, err),
        ExprV::Return(ReturnV::SetRef(name)) => err == EvalErrorV::InvalidSet(name@) && match find_set(
            sets,
            name@,
        ) {
            Some(k) => sets[k].1.len() == 0,
            None => true,
        },
        ExprV::Return(ReturnV::AnonymousSet(s)) => s.len() == 0 && err == EvalErrorV::InvalidSet(
            Seq::empty(),
        ),
        _ => false,
    }
}

/// The value of a float bound, as an `f64` bit pattern.
fn float_bound<H: FloatHost>(b: FloatBound, host: &H) -> u64 {
    match b {
        FloatBound::Int(i) => host.widen(i),
        FloatBound::Float(f) => f,
    }
}

impl ValueSet {
    /// A value drawn uniformly from the set; `None` when it is empty.
    pub fn eval(&self) -> (r: Option<Value>)
        ensures
            self.0@.len() == 0 <==> r is None,
            r matches Some(v) ==> self.0@.contains(v),
    {
        let len = self.0.len();
        if len == 0 {
            return None;
        }
        // A vector never holds more than `isize::MAX` elements, so the bound is `len`.
        let bound: i64 = if len as u64 <= i64::MAX as u64 {
            len as i64
        } else {
            i64::MAX
        };
        assert(0 < bound <= len);
        let i = random_in(0, bound) as usize;
        Some(self.pick(i))
    }

    /// The value at position `i`.
    pub fn pick(&self, i: usize) -> (r: Value)
        requires
            i < self.0@.len(),
        ensures
            r == self.0@[i as int],
            self.0@.contains(r),
    {
        self.0[i].cloned()
    }
}

impl Expr {
    /// Evaluates the expression: a weighted choice evaluates one branch, a
    /// range or a set gives one draw, and `original` gives `Value::Original`.
    pub fn eval<H: FloatHost>(&self, sets: &Vec<(String, ValueSet)>, host: &mut H) -> (r: Result<
        Value,
        EvalError,
    >)
        ensures
            r matches Ok(v) ==> may_yield(self.view(), sets_view(sets@), v),
            evaluable(self.view(), sets_view(sets@)) ==> r is Ok,
            r matches Err(e) ==> may_fail_eval(self.view(), sets_view(sets@), e@),
        decreases self,
    {
        match self {
            Expr::Random(chances) => {
                let ghost cs = chances_view(chances@);
                assert(self.view() == ExprV::Random(cs)) by {
                    assert(cs =~= match self.view() {
                        ExprV::Random(s) => s,
                        _ => Seq::empty(),
                    });
                }
                if chances.len() == 0 {
                    return Ok(Value::Original);
                }
                let k = if chances.len() == 1 {
                    0
                } else {
                    let mut percents: Vec<i64> = Vec::new();
                    let mut i: usize = 0;
                    while i < chances.len()
                        invariant
                            i <= chances@.len(),
                            percents@.len() == i,
                        decreases chances@.len() - i,
                    {
                        percents.push(chances[i].percent);
                        i = i + 1;
                    }
                    let draw = random_in(0, CHANCE_SPAN);
                    select_branch(&percents, draw)
                };
                let r = chances[k].expr.eval(sets, host);
                proof {
                    assert(cs[k as int].1 == chances@[k as int].expr.view());
                    assert(0 <= k < cs.len());
                    if evaluable(self.view(), sets_view(sets@)) {
                        assert(forall|i: int| 0 <= i < cs.len() ==> evaluable(cs[i].1, sets_view(sets@)));
                        assert(evaluable(cs[k as int].1, sets_view(sets@)));
                    }
                    if r is Ok {
                        assert(may_yield(cs[k as int].1, sets_view(sets@), r->Ok_0));
                    } else {
                        assert(may_fail_eval(cs[k as int].1, sets_view(sets@), r->Err_0@));
                    }
                }
                r
            },
            Expr::Return(ret) => match ret {
                Return::Constant(c) => Ok(c.cloned()),
                Return::Range(Range::Int(from, to)) => {
                    if *from < *to {
                        Ok(Value::Int(random_in(*from, *to)))
                    } else {
                        Ok(Value::Int(*from))
                    }
                },
                Return::Range(Range::Float(from, to)) => {
                    let lo = float_bound(*from, host);
                    let hi = float_bound(*to, host);
                    Ok(Value::Float(host.float_in(lo, hi)))
                },
                Return::SetRef(name) => match find_set_index(sets, name.as_str()) {
                    Some(k) => {
                        assert(sets_view(sets@)[k as int].1 == sets@[k as int].1.0@);
                        match sets[k].1.eval() {
                            Some(v) => Ok(v),
                            None => Err(EvalError::InvalidSet(name.clone())),
                        }
                    },
                    None => Err(EvalError::InvalidSet(name.clone())),
                },
                Return::AnonymousSet(set) => match set.eval() {
                    Some(v) => Ok(v),
                    None => {
                        let e = String::new();
                        assert(e@ =~= Seq::<char>::empty());
                        Err(EvalError::InvalidSet(e))
                    },
                },
            },
            Expr::Original => Ok(Value::Original),
        }
    }
}

} // verus!
