//! Properties that hold across the library's operations.
use vstd::prelude::*;

use crate::apply::{assign_spec, assigned, only_original};
use crate::ast::{ComponentV, ExprV, Range, RandlFile, ReturnV, SetsV, Value};
use crate::error::ParseError;
use crate::eval::{chosen, chosen_from, evaluable, may_yield, prefix_sum};
use crate::node::Node;
use crate::param::{ParamKind, ParamStruct};
use crate::parser::loaded;
use crate::resolve::{resolve_kind, resolve_struct};

verus! {

/// Loading is a function of the document: two loads of the same nodes give
/// the same sets and entries, or the same error.
pub proof fn load_is_deterministic(
    a: Seq<Node>,
    b: Seq<Node>,
    ra: Result<RandlFile, ParseError>,
    rb: Result<RandlFile, ParseError>,
)
    requires
        a == b,
        loaded(a, ra),
        loaded(b, rb),
    ensures
        ra is Ok <==> rb is Ok,
        ra matches Ok(x) ==> rb matches Ok(y) && x.view() == y.view(),
        ra matches Err(x) ==> rb matches Err(y) && x == y,
{
}

proof fn lemma_prefix_monotone(ps: Seq<i64>, i: int, j: int)
    requires
        0 <= i <= j <= ps.len(),
        forall|k: int| 0 <= k < ps.len() ==> ps[k] >= 0,
    ensures
        prefix_sum(ps, i) <= prefix_sum(ps, j),
    decreases j - i,
{
    if i < j {
        lemma_prefix_monotone(ps, i, j - 1);
    }
}

proof fn lemma_chosen_at_least(ps: Seq<i64>, u: int, j: int)
    requires
        0 <= j,
        ps.len() > 0,
    ensures
        chosen_from(ps, u, j) >= j || chosen_from(ps, u, j) == ps.len() - 1,
        chosen_from(ps, u, j) < ps.len(),
    decreases ps.len() - j,
{
    if j < ps.len() - 1 && u >= prefix_sum(ps, j + 1) {
        lemma_chosen_at_least(ps, u, j + 1);
    }
}

proof fn lemma_chosen_interval(ps: Seq<i64>, u: int, j: int, i: int)
    requires
        0 <= j <= i < ps.len() - 1,
        u >= prefix_sum(ps, j),
        forall|k: int| 0 <= k < ps.len() ==> ps[k] >= 0,
    ensures
        chosen_from(ps, u, j) == i <==> prefix_sum(ps, i) <= u < prefix_sum(ps, i + 1),
    decreases i - j,
{
    if u < prefix_sum(ps, j + 1) {
        if j < i {
            lemma_prefix_monotone(ps, j + 1, i);
        }
    } else if j == i {
        lemma_chosen_at_least(ps, u, j + 1);
    } else {
        lemma_chosen_interval(ps, u, j + 1, i);
    }
}

/// A weighted choice with weights that are not negative takes branch `i`
/// (other than the last) for exactly the draws `u` in
/// `[w0 + ... + w(i-1), w0 + ... + wi)`: with `u` uniform, branch `i` is
/// taken with probability `wi` over the span of draws.
pub proof fn branch_taken_on_its_interval(ps: Seq<i64>, u: int, i: int)
    requires
        0 <= i < ps.len() - 1,
        0 <= u,
        forall|k: int| 0 <= k < ps.len() ==> ps[k] >= 0,
    ensures
        chosen(ps, u) == i <==> prefix_sum(ps, i) <= u < prefix_sum(ps, i + 1),
{
    lemma_chosen_interval(ps, u, 0, i);
}

/// Every draw takes exactly one branch of a weighted choice.
pub proof fn one_branch_taken(ps: Seq<i64>, u: int)
    requires
        ps.len() > 0,
    ensures
        0 <= chosen(ps, u) < ps.len(),
{
    lemma_chosen_at_least(ps, u, 0);
}

/// Every value of an integer range `[lo, hi)` with `lo < hi` lies in it.
pub proof fn range_values_within(lo: i64, hi: i64, sets: SetsV, v: Value)
    requires
        lo < hi,
        may_yield(ExprV::Return(ReturnV::Range(Range::Int(lo, hi))), sets, v),
    ensures
        v matches Value::Int(x) && lo <= x < hi,
{
}

/// Whether a path is made of field steps alone.
pub open spec fn fields_only(path: Seq<ComponentV>) -> bool {
    forall|i: int| 0 <= i < path.len() ==> path[i] is Field
}

proof fn lemma_fields_single_kind(node: ParamKind, path: Seq<ComponentV>)
    requires
        fields_only(path),
    ensures
        resolve_kind(node, path) matches Ok(locs) ==> locs.len() == 1,
        resolve_kind(node, path) is Err ==> resolve_kind(node, path)->Err_0 is MissingField,
    decreases path.len(), 1int,
{
    if path.len() > 0 {
        if let ParamKind::Struct(s) = node {
            lemma_fields_single_struct(s, path);
        }
    }
}

proof fn lemma_fields_single_struct(s: ParamStruct, path: Seq<ComponentV>)
    requires
        fields_only(path),
        path.len() > 0,
    ensures
        resolve_struct(s, path) matches Ok(locs) ==> locs.len() == 1,
        resolve_struct(s, path) is Err ==> resolve_struct(s, path)->Err_0 is MissingField,
    decreases path.len(), 0int,
{
    let rest = path.drop_first();
    assert(fields_only(rest));
    if let ComponentV::Field(name) = path[0] {
        if let Some(j) = crate::resolve::find_field(s.0@, crate::hashing::hash40_of(name)) {
            lemma_fields_single_kind(s.0@[j].1, rest);
        }
    }
}

/// A non-empty path of field steps alone, followed from a struct, names
/// exactly one target or fails with a missing field: it never fans out.
pub proof fn field_path_has_one_target(s: ParamStruct, path: Seq<ComponentV>)
    requires
        fields_only(path),
        path.len() > 0,
    ensures
        resolve_struct(s, path) matches Ok(locs) ==> locs.len() == 1,
        resolve_struct(s, path) is Err ==> resolve_struct(s, path)->Err_0 is MissingField,
{
    lemma_fields_single_struct(s, path);
}

/// A weighted choice all of whose branches are `original` can only yield
/// `original`, so an entry of such edits leaves the tree as it is (see
/// `RandlEntry::apply`).
pub proof fn choice_of_originals_yields_original(cs: Seq<(i64, ExprV)>, sets: SetsV)
    requires
        forall|i: int| 0 <= i < cs.len() ==> (#[trigger] cs[i]).1 == ExprV::Original,
    ensures
        only_original(ExprV::Random(cs), sets),
        evaluable(ExprV::Random(cs), sets),
{
    assert forall|v: Value| may_yield(ExprV::Random(cs), sets, v) implies v == Value::Original by {
        if cs.len() > 0 {
            let i = choose|i: int| 0 <= i < cs.len() && may_yield(cs[i].1, sets, v);
            assert(cs[i].1 == ExprV::Original);
        }
    }
    assert forall|i: int| 0 <= i < cs.len() implies evaluable(cs[i].1, sets) by {
        assert(cs[i].1 == ExprV::Original);
    }
}

/// Storing `original` leaves every node as it is.
pub proof fn original_keeps_node(p: ParamKind, n: ParamKind)
    requires
        assigned(p, Value::Original, n),
    ensures
        n == p,
        assign_spec(p, Value::Original) is Ok,
{
}

} // verus!
