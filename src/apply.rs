//! Writing evaluated values into a parameter tree.
use vstd::prelude::*;

use crate::ast::{
    edits_view, sets_view, ComponentV, EditV, ExprV, PrcEntry, RandlEntry, SetsV, Value, ValueSet,
};
use crate::error::{EvalError, EvalErrorV};
use crate::eval::{evaluable, may_fail_eval, may_yield, FloatHost};
use crate::hashing::{hash40_of, hash_str};
use crate::param::{ParamKind, ParamStruct};
use crate::resolve::{
    fan, find_field, fits, get_path_struct, lemma_find_field_bound, lemma_resolve_struct_ok,
    locs_ok, locs_view, prefix_all, resolve_kind, resolve_struct, struct_children, tree_fits_struct,
};

verus! {

/// The name of a value's kind, as assignment errors give it.
pub open spec fn source_name(v: Value) -> &'static str {
    match v {
        Value::Int(_) => "int",
        Value::Float(_) => "float",
        Value::String(_) => "string",
        Value::Bool(_) => "bool",
        Value::Hash40(_) | Value::Original => "hash40",
    }
}

/// The name of a leaf's kind, as assignment errors give it.
pub open spec fn dest_name(p: ParamKind) -> &'static str {
    match p {
        ParamKind::Bool(_) => "bool",
        ParamKind::Float(_) => "float",
        ParamKind::Hash(_) => "hash40",
        ParamKind::Str(_) => "string",
        ParamKind::List(_) => "lists",
        ParamKind::Struct(_) => "structs",
        _ => "int",
    }
}

/// What storing `v` in the node `p` gives: the new node, `None` for a float
/// that the caller's `FloatHost` converts, or the error.
///
/// A bool takes a bool; an integer leaf takes an integer that fits it; a
/// float takes an integer or a float; a hash takes an integer, a string
/// (hashed) or a hash; a string takes a string. `Original` leaves any node
/// as it is. Lists and structs take nothing.
pub open spec fn assign_spec(p: ParamKind, v: Value) -> Result<Option<ParamKind>, EvalErrorV> {
    if v is Original {
        Ok(Some(p))
    } else {
        match (p, v) {
            (ParamKind::List(_), _) => Err(EvalErrorV::InvalidAssignment("values", "lists")),
            (ParamKind::Struct(_), _) => Err(EvalErrorV::InvalidAssignment("values", "structs")),
            (ParamKind::Bool(_), Value::Bool(b)) => Ok(Some(ParamKind::Bool(b))),
            (ParamKind::I8(_), Value::Int(n)) => if i8::MIN <= n <= i8::MAX {
                Ok(Some(ParamKind::I8(n as i8)))
            } else {
                Err(EvalErrorV::IntTooBig)
            },
            (ParamKind::U8(_), Value::Int(n)) => if 0 <= n <= u8::MAX {
                Ok(Some(ParamKind::U8(n as u8)))
            } else {
                Err(EvalErrorV::IntTooBig)
            },
            (ParamKind::I16(_), Value::Int(n)) => if i16::MIN <= n <= i16::MAX {
                Ok(Some(ParamKind::I16(n as i16)))
            } else {
                Err(EvalErrorV::IntTooBig)
            },
            (ParamKind::U16(_), Value::Int(n)) => if 0 <= n <= u16::MAX {
                Ok(Some(ParamKind::U16(n as u16)))
            } else {
                Err(EvalErrorV::IntTooBig)
            },
            (ParamKind::I32(_), Value::Int(n)) => if i32::MIN <= n <= i32::MAX {
                Ok(Some(ParamKind::I32(n as i32)))
            } else {
                Err(EvalErrorV::IntTooBig)
            },
            (ParamKind::U32(_), Value::Int(n)) => if 0 <= n <= u32::MAX {
                Ok(Some(ParamKind::U32(n as u32)))
            } else {
                Err(EvalErrorV::IntTooBig)
            },
            (ParamKind::Float(_), Value::Int(_)) | (ParamKind::Float(_), Value::Float(_)) => Ok(
                None,
            ),
            (ParamKind::Hash(_), Value::Int(n)) => Ok(Some(ParamKind::Hash(n as u64))),
            (ParamKind::Hash(_), Value::String(s)) => Ok(Some(ParamKind::Hash(hash40_of(s@)))),
            (ParamKind::Hash(_), Value::Hash40(h)) => Ok(Some(ParamKind::Hash(h))),
            (ParamKind::Str(_), Value::String(s)) => Ok(Some(ParamKind::Str(s))),
            _ => Err(EvalErrorV::InvalidAssignment(source_name(v), dest_name(p))),
        }
    }
}

/// Whether `n` is what storing `v` in `p` gives.
pub open spec fn assigned(p: ParamKind, v: Value, n: ParamKind) -> bool {
    match assign_spec(p, v) {
        Ok(Some(x)) => n == x,
        Ok(None) => n is Float,
        Err(_) => n == p,
    }
}

fn source_kind(v: &Value) -> (r: &'static str)
    ensures
        r == source_name(*v),
{
    match v {
        Value::Int(_) => "int",
        Value::Float(_) => "float",
        Value::String(_) => "string",
        Value::Bool(_) => "bool",
        Value::Hash40(_) | Value::Original => "hash40",
    }
}

fn dest_kind(p: &ParamKind) -> (r: &'static str)
    ensures
        r == dest_name(*p),
{
    match p {
        ParamKind::Bool(_) => "bool",
        ParamKind::Float(_) => "float",
        ParamKind::Hash(_) => "hash40",
        ParamKind::Str(_) => "string",
        ParamKind::List(_) => "lists",
        ParamKind::Struct(_) => "structs",
        _ => "int",
    }
}

/// Whether two leaves are of the same kind.
pub open spec fn same_kind(a: ParamKind, b: ParamKind) -> bool {
    match (a, b) {
        (ParamKind::Bool(_), ParamKind::Bool(_)) => true,
        (ParamKind::I8(_), ParamKind::I8(_)) => true,
        (ParamKind::U8(_), ParamKind::U8(_)) => true,
        (ParamKind::I16(_), ParamKind::I16(_)) => true,
        (ParamKind::U16(_), ParamKind::U16(_)) => true,
        (ParamKind::I32(_), ParamKind::I32(_)) => true,
        (ParamKind::U32(_), ParamKind::U32(_)) => true,
        (ParamKind::Float(_), ParamKind::Float(_)) => true,
        (ParamKind::Hash(_), ParamKind::Hash(_)) => true,
        (ParamKind::Str(_), ParamKind::Str(_)) => true,
        _ => false,
    }
}

/// Whether two trees have the same shape: the same kind at every node, the
/// same length for every list and struct, and the same field keys in the
/// same order. Only leaf values may differ.
pub open spec fn same_shape(a: ParamKind, b: ParamKind) -> bool
    decreases a,
{
    match (a, b) {
        (ParamKind::Struct(s), ParamKind::Struct(t)) => s.0@.len() == t.0@.len() && forall|i: int|
            0 <= i < s.0@.len() ==> (#[trigger] s.0@[i]).0 == t.0@[i].0 && same_shape(
                s.0@[i].1,
                t.0@[i].1,
            ),
        (ParamKind::List(l), ParamKind::List(m)) => l.0@.len() == m.0@.len() && forall|i: int|
            0 <= i < l.0@.len() ==> same_shape(#[trigger] l.0@[i], m.0@[i]),
        _ => same_kind(a, b),
    }
}

/// Whether two root structs have the same shape.
pub open spec fn same_root_shape(a: ParamStruct, b: ParamStruct) -> bool {
    same_shape(ParamKind::Struct(a), ParamKind::Struct(b))
}

pub proof fn lemma_shape_refl(a: ParamKind)
    ensures
        same_shape(a, a),
    decreases a,
{
    match a {
        ParamKind::Struct(s) => {
            assert forall|i: int| 0 <= i < s.0@.len() implies same_shape(s.0@[i].1, s.0@[i].1) by {
                assert(decreases_to!(a => s.0@[i].1));
                lemma_shape_refl(s.0@[i].1);
            }
        },
        ParamKind::List(l) => {
            assert forall|i: int| 0 <= i < l.0@.len() implies same_shape(l.0@[i], l.0@[i]) by {
                assert(decreases_to!(a => l.0@[i]));
                lemma_shape_refl(l.0@[i]);
            }
        },
        _ => {},
    }
}

pub proof fn lemma_shape_trans(a: ParamKind, b: ParamKind, c: ParamKind)
    requires
        same_shape(a, b),
        same_shape(b, c),
    ensures
        same_shape(a, c),
    decreases a,
{
    match (a, b, c) {
        (ParamKind::Struct(s), ParamKind::Struct(t), ParamKind::Struct(u)) => {
            assert forall|i: int| 0 <= i < s.0@.len() implies (#[trigger] s.0@[i]).0 == u.0@[i].0
                && same_shape(s.0@[i].1, u.0@[i].1) by {
                assert(t.0@[i].0 == u.0@[i].0);
                assert(decreases_to!(a => s.0@[i].1));
                lemma_shape_trans(s.0@[i].1, t.0@[i].1, u.0@[i].1);
            }
        },
        (ParamKind::List(l), ParamKind::List(m), ParamKind::List(n)) => {
            assert forall|i: int| 0 <= i < l.0@.len() implies same_shape(#[trigger] l.0@[i], n.0@[i]) by {
                assert(same_shape(m.0@[i], n.0@[i]));
                assert(decreases_to!(a => l.0@[i]));
                lemma_shape_trans(l.0@[i], m.0@[i], n.0@[i]);
            }
        },
        _ => {},
    }
}

proof fn lemma_assigned_shape(p: ParamKind, v: Value, n: ParamKind)
    requires
        assigned(p, v, n),
    ensures
        same_shape(p, n),
{
    lemma_shape_refl(p);
}

/// Whether storing `val` in `param` succeeds, without storing it.
fn assign_check(param: &ParamKind, val: &Value) -> (r: Result<(), EvalError>)
    ensures
        match assign_spec(*param, *val) {
            Ok(_) => r is Ok,
            Err(e) => r matches Err(x) && x@ == e,
        },
{
    if let Value::Original = val {
        return Ok(());
    }
    let src = source_kind(val);
    let dst = dest_kind(param);
    match (param, val) {
        (ParamKind::List(_), _) => Err(EvalError::InvalidAssignment("values", "lists")),
        (ParamKind::Struct(_), _) => Err(EvalError::InvalidAssignment("values", "structs")),
        (ParamKind::Bool(_), Value::Bool(_)) => Ok(()),
        (ParamKind::I8(_), Value::Int(n)) => if i8::MIN as i64 <= *n && *n <= i8::MAX as i64 {
            Ok(())
        } else {
            Err(EvalError::IntTooBig)
        },
        (ParamKind::U8(_), Value::Int(n)) => if 0 <= *n && *n <= u8::MAX as i64 {
            Ok(())
        } else {
            Err(EvalError::IntTooBig)
        },
        (ParamKind::I16(_), Value::Int(n)) => if i16::MIN as i64 <= *n && *n <= i16::MAX as i64 {
            Ok(())
        } else {
            Err(EvalError::IntTooBig)
        },
        (ParamKind::U16(_), Value::Int(n)) => if 0 <= *n && *n <= u16::MAX as i64 {
            Ok(())
        } else {
            Err(EvalError::IntTooBig)
        },
        (ParamKind::I32(_), Value::Int(n)) => if i32::MIN as i64 <= *n && *n <= i32::MAX as i64 {
            Ok(())
        } else {
            Err(EvalError::IntTooBig)
        },
        (ParamKind::U32(_), Value::Int(n)) => if 0 <= *n && *n <= u32::MAX as i64 {
            Ok(())
        } else {
            Err(EvalError::IntTooBig)
        },
        (ParamKind::Float(_), Value::Int(_)) | (ParamKind::Float(_), Value::Float(_)) => Ok(()),
        (ParamKind::Hash(_), Value::Int(_))
        | (ParamKind::Hash(_), Value::String(_))
        | (ParamKind::Hash(_), Value::Hash40(_)) => Ok(()),
        (ParamKind::Str(_), Value::String(_)) => Ok(()),
        _ => Err(EvalError::InvalidAssignment(src, dst)),
    }
}

/// Stores a value in a node, checking the kinds against each other and an
/// integer against the range of its leaf.
pub fn assign<H: FloatHost>(param: &mut ParamKind, val: Value, host: &H) -> (r: Result<
    (),
    EvalError,
>)
    ensures
        assigned(*old(param), val, *final(param)),
        match assign_spec(*old(param), val) {
            Ok(_) => r is Ok,
            Err(e) => r matches Err(x) && x@ == e,
        },
{
    if let Value::Original = val {
        return Ok(());
    }
    let src = source_kind(&val);
    let dst = dest_kind(param);
    match param {
        ParamKind::List(_) => Err(EvalError::InvalidAssignment("values", "lists")),
        ParamKind::Struct(_) => Err(EvalError::InvalidAssignment("values", "structs")),
        ParamKind::Bool(b) => match val {
            Value::Bool(x) => {
                *b = x;
                Ok(())
            },
            _ => Err(EvalError::InvalidAssignment(src, dst)),
        },
        ParamKind::I8(i) => match val {
            Value::Int(n) => if i8::MIN as i64 <= n && n <= i8::MAX as i64 {
                *i = n as i8;
                Ok(())
            } else {
                Err(EvalError::IntTooBig)
            },
            _ => Err(EvalError::InvalidAssignment(src, dst)),
        },
        ParamKind::U8(i) => match val {
            Value::Int(n) => if 0 <= n && n <= u8::MAX as i64 {
                *i = n as u8;
                Ok(())
            } else {
                Err(EvalError::IntTooBig)
            },
            _ => Err(EvalError::InvalidAssignment(src, dst)),
        },
        ParamKind::I16(i) => match val {
            Value::Int(n) => if i16::MIN as i64 <= n && n <= i16::MAX as i64 {
                *i = n as i16;
                Ok(())
            } else {
                Err(EvalError::IntTooBig)
            },
            _ => Err(EvalError::InvalidAssignment(src, dst)),
        },
        ParamKind::U16(i) => match val {
            Value::Int(n) => if 0 <= n && n <= u16::MAX as i64 {
                *i = n as u16;
                Ok(())
            } else {
                Err(EvalError::IntTooBig)
            },
            _ => Err(EvalError::InvalidAssignment(src, dst)),
        },
        ParamKind::I32(i) => match val {
            Value::Int(n) => if i32::MIN as i64 <= n && n <= i32::MAX as i64 {
                *i = n as i32;
                Ok(())
            } else {
                Err(EvalError::IntTooBig)
            },
            _ => Err(EvalError::InvalidAssignment(src, dst)),
        },
        ParamKind::U32(i) => match val {
            Value::Int(n) => if 0 <= n && n <= u32::MAX as i64 {
                *i = n as u32;
                Ok(())
            } else {
                Err(EvalError::IntTooBig)
            },
            _ => Err(EvalError::InvalidAssignment(src, dst)),
        },
        ParamKind::Float(f) => match val {
            Value::Int(n) => {
                *f = host.narrow_int(n);
                Ok(())
            },
            Value::Float(x) => {
                *f = host.narrow(x);
                Ok(())
            },
            _ => Err(EvalError::InvalidAssignment(src, dst)),
        },
        ParamKind::Hash(h) => match val {
            Value::Int(n) => {
                *h = n as u64;
                Ok(())
            },
            Value::String(s) => {
                *h = hash_str(s.as_str());
                Ok(())
            },
            Value::Hash40(x) => {
                *h = x;
                Ok(())
            },
            _ => Err(EvalError::InvalidAssignment(src, dst)),
        },
        ParamKind::Str(s) => match val {
            Value::String(x) => {
                *s = x;
                Ok(())
            },
            _ => Err(EvalError::InvalidAssignment(src, dst)),
        },
    }
}

/// The node that a locator names below `n`.
pub open spec fn node_at(n: ParamKind, loc: Seq<usize>) -> Option<ParamKind>
    decreases loc.len(),
{
    if loc.len() == 0 {
        Some(n)
    } else {
        match n {
            ParamKind::Struct(s) => if loc[0] < s.0@.len() {
                node_at(s.0@[loc[0] as int].1, loc.drop_first())
            } else {
                None
            },
            ParamKind::List(l) => if loc[0] < l.0@.len() {
                node_at(l.0@[loc[0] as int], loc.drop_first())
            } else {
                None
            },
            _ => None,
        }
    }
}

/// The node that a locator names below the root struct.
pub open spec fn node_at_root(s: ParamStruct, loc: Seq<usize>) -> Option<ParamKind> {
    if loc.len() == 0 || loc[0] >= s.0@.len() {
        None
    } else {
        node_at(s.0@[loc[0] as int].1, loc.drop_first())
    }
}

/// Whether two locators part somewhere: neither names a node on the way to
/// the other.
pub open spec fn diverges(a: Seq<usize>, b: Seq<usize>) -> bool {
    exists|k: int| 0 <= k < a.len() && k < b.len() && a[k] != b[k]
}

/// Whether the node that `loc[depth..]` names below `node` is there.
fn locate(node: &ParamKind, loc: &Vec<usize>, depth: usize) -> (r: bool)
    requires
        depth <= loc@.len(),
    ensures
        r == node_at(*node, loc@.skip(depth as int)) is Some,
    decreases loc@.len() - depth,
{
    let ghost rest = loc@.skip(depth as int);
    if depth == loc.len() {
        assert(rest =~= Seq::<usize>::empty());
        return true;
    }
    assert(rest.drop_first() =~= loc@.skip(depth + 1));
    let k = loc[depth];
    match node {
        ParamKind::Struct(s) => k < s.0.len() && locate(&s.0[k].1, loc, depth + 1),
        ParamKind::List(l) => k < l.0.len() && locate(&l.0[k], loc, depth + 1),
        _ => false,
    }
}

/// Stores `val` in the node named by `loc[depth..]` below `node`.
fn assign_in<H: FloatHost>(
    node: &mut ParamKind,
    loc: &Vec<usize>,
    depth: usize,
    val: Value,
    host: &H,
) -> (r: Result<(), EvalError>)
    requires
        depth <= loc@.len(),
        node_at(*old(node), loc@.skip(depth as int)) is Some,
    ensures
        node_at(*final(node), loc@.skip(depth as int)) matches Some(n) && assigned(
            node_at(*old(node), loc@.skip(depth as int))->Some_0,
            val,
            n,
        ),
        match assign_spec(node_at(*old(node), loc@.skip(depth as int))->Some_0, val) {
            Ok(_) => r is Ok,
            Err(e) => r matches Err(x) && x@ == e,
        },
        forall|l: Seq<usize>|
            diverges(loc@.skip(depth as int), l) ==> #[trigger] node_at(*final(node), l) == node_at(
                *old(node),
                l,
            ),
        same_shape(*old(node), *final(node)),
    decreases loc@.len() - depth,
{
    let ghost rest = loc@.skip(depth as int);
    if depth == loc.len() {
        assert(rest =~= Seq::<usize>::empty());
        let ghost before = *node;
        let r = assign(node, val, host);
        proof {
            lemma_assigned_shape(before, val, *node);
        }
        return r;
    }
    assert(rest.drop_first() =~= loc@.skip(depth + 1));
    let k = loc[depth];
    let ghost before = *node;
    match node {
        ParamKind::Struct(s) => {
            let ghost old_fields = s.0@;
            let r = assign_in(&mut s.0[k].1, loc, depth + 1, val, host);
            assert forall|l: Seq<usize>| diverges(rest, l) implies #[trigger] node_at(
                ParamKind::Struct(*s),
                l,
            ) == node_at(before, l) by {
                let w = choose|w: int| 0 <= w < rest.len() && w < l.len() && rest[w] != l[w];
                assert(rest[0] == k);
                assert(s.0@.len() == old_fields.len());
                if l[0] == k {
                    assert(rest.drop_first()[w - 1] != l.drop_first()[w - 1]);
                    assert(diverges(loc@.skip(depth + 1), l.drop_first()));
                    assert(node_at(s.0@[k as int].1, l.drop_first()) == node_at(
                        old_fields[k as int].1,
                        l.drop_first(),
                    ));
                } else if l[0] < s.0@.len() {
                    assert(s.0@[l[0] as int] == old_fields[l[0] as int]);
                }
            }
            assert forall|i: int| 0 <= i < old_fields.len() implies (#[trigger] old_fields[i]).0
                == s.0@[i].0 && same_shape(old_fields[i].1, s.0@[i].1) by {
                if i != k {
                    assert(s.0@[i] == old_fields[i]);
                    lemma_shape_refl(old_fields[i].1);
                }
            }
            assert(same_shape(before, ParamKind::Struct(*s)));
            r
        },
        ParamKind::List(li) => {
            let ghost old_items = li.0@;
            let r = assign_in(&mut li.0[k], loc, depth + 1, val, host);
            assert forall|l: Seq<usize>| diverges(rest, l) implies #[trigger] node_at(
                ParamKind::List(*li),
                l,
            ) == node_at(before, l) by {
                let w = choose|w: int| 0 <= w < rest.len() && w < l.len() && rest[w] != l[w];
                assert(rest[0] == k);
                assert(li.0@.len() == old_items.len());
                if l[0] == k {
                    assert(rest.drop_first()[w - 1] != l.drop_first()[w - 1]);
                    assert(diverges(loc@.skip(depth + 1), l.drop_first()));
                    assert(node_at(li.0@[k as int], l.drop_first()) == node_at(
                        old_items[k as int],
                        l.drop_first(),
                    ));
                } else if l[0] < li.0@.len() {
                    assert(li.0@[l[0] as int] == old_items[l[0] as int]);
                }
            }
            assert forall|i: int| 0 <= i < old_items.len() implies same_shape(
                #[trigger] old_items[i],
                li.0@[i],
            ) by {
                if i != k {
                    assert(li.0@[i] == old_items[i]);
                    lemma_shape_refl(old_items[i]);
                }
            }
            assert(same_shape(before, ParamKind::List(*li)));
            r
        },
        _ => {
            assert(false);
            Err(EvalError::InvalidField("Path pointed to a node that is not there"))
        },
    }
}

/// The node that `loc[depth..]` names below `node`.
fn node_ref<'a>(node: &'a ParamKind, loc: &Vec<usize>, depth: usize) -> (r: &'a ParamKind)
    requires
        depth <= loc@.len(),
        node_at(*node, loc@.skip(depth as int)) is Some,
    ensures
        node_at(*node, loc@.skip(depth as int)) == Some(*r),
    decreases loc@.len() - depth,
{
    let ghost rest = loc@.skip(depth as int);
    if depth == loc.len() {
        assert(rest =~= Seq::<usize>::empty());
        return node;
    }
    assert(rest.drop_first() =~= loc@.skip(depth + 1));
    let k = loc[depth];
    match node {
        ParamKind::Struct(s) => node_ref(&s.0[k].1, loc, depth + 1),
        ParamKind::List(l) => node_ref(&l.0[k], loc, depth + 1),
        _ => node,
    }
}

/// Whether the node that a locator names below the root struct is there.
fn locate_root(tree: &ParamStruct, loc: &Vec<usize>) -> (r: bool)
    ensures
        r == node_at_root(*tree, loc@) is Some,
{
    if loc.len() == 0 || loc[0] >= tree.0.len() {
        return false;
    }
    assert(loc@.skip(1) =~= loc@.drop_first());
    locate(&tree.0[loc[0]].1, loc, 1)
}

/// Stores `val` in the node that a locator names below the root struct.
pub fn assign_at<H: FloatHost>(tree: &mut ParamStruct, loc: &Vec<usize>, val: Value, host: &H) -> (r:
    Result<(), EvalError>)
    ensures
        match node_at_root(*old(tree), loc@) {
            None => r == Err::<(), EvalError>(
                EvalError::InvalidField("Path pointed to a node that is not there"),
            ) && *final(tree) == *old(tree),
            Some(leaf) => {
                &&& node_at_root(*final(tree), loc@) matches Some(n) && assigned(leaf, val, n)
                &&& match assign_spec(leaf, val) {
                    Ok(_) => r is Ok,
                    Err(e) => r matches Err(x) && x@ == e,
                }
            },
        },
        forall|l: Seq<usize>|
            diverges(loc@, l) ==> #[trigger] node_at_root(*final(tree), l) == node_at_root(
                *old(tree),
                l,
            ),
        same_root_shape(*old(tree), *final(tree)),
        r is Err ==> *final(tree) == *old(tree),
{
    proof {
        lemma_shape_refl(ParamKind::Struct(*tree));
    }
    if loc.len() == 0 || loc[0] >= tree.0.len() {
        return Err(EvalError::InvalidField("Path pointed to a node that is not there"));
    }
    assert(loc@.skip(1) =~= loc@.drop_first());
    let k = loc[0];
    if !locate(&tree.0[k].1, loc, 1) {
        return Err(EvalError::InvalidField("Path pointed to a node that is not there"));
    }
    if let Err(e) = assign_check(node_ref(&tree.0[k].1, loc, 1), &val) {
        return Err(e);
    }
    let ghost old_fields = tree.0@;
    let r = assign_in(&mut tree.0[k].1, loc, 1, val, host);
    assert forall|i: int| 0 <= i < old_fields.len() implies (#[trigger] old_fields[i]).0
        == tree.0@[i].0 && same_shape(old_fields[i].1, tree.0@[i].1) by {
        if i != k {
            assert(tree.0@[i] == old_fields[i]);
            lemma_shape_refl(old_fields[i].1);
        }
    }
    assert forall|l: Seq<usize>| diverges(loc@, l) implies #[trigger] node_at_root(*tree, l)
        == node_at_root(*old(tree), l) by {
        let w = choose|w: int| 0 <= w < loc@.len() && w < l.len() && loc@[w] != l[w];
        assert(tree.0@.len() == old_fields.len());
        if l.len() > 0 && l[0] == k {
            assert(loc@.skip(1)[w - 1] != l.drop_first()[w - 1]);
            assert(diverges(loc@.skip(1), l.drop_first()));
            assert(node_at(tree.0@[k as int].1, l.drop_first()) == node_at(
                old_fields[k as int].1,
                l.drop_first(),
            ));
        } else if l.len() > 0 && l[0] < tree.0@.len() {
            assert(tree.0@[l[0] as int] == old_fields[l[0] as int]);
        }
    }
    r
}


proof fn lemma_distinct_diverges(a: Seq<usize>, b: Seq<usize>)
    requires
        a.len() == b.len(),
        a != b,
    ensures
        diverges(a, b),
{
    if !diverges(a, b) {
        assert(a =~= b);
    }
}

/// Whether the node at `loc` in `after` is what storing some value that `e`
/// may yield in the node at `loc` in `before` gives.
pub open spec fn target_done(
    before: ParamStruct,
    after: ParamStruct,
    loc: Seq<usize>,
    e: ExprV,
    sets: SetsV,
) -> bool {
    &&& node_at_root(before, loc) matches Some(leaf)
    &&& node_at_root(after, loc) matches Some(n)
    &&& exists|v: Value| may_yield(e, sets, v) && assign_spec(leaf, v) is Ok && assigned(leaf, v, n)
}

/// Whether the edit of `locs` with `e` may fail with `err`: evaluating `e`
/// may fail so, or a value that `e` may yield is refused so by a target.
pub open spec fn target_may_fail(
    before: ParamStruct,
    locs: Seq<Seq<usize>>,
    e: ExprV,
    sets: SetsV,
    err: EvalErrorV,
) -> bool {
    ||| may_fail_eval(e, sets, err)
    ||| exists|j: int, v: Value|
        #![trigger locs[j], may_yield(e, sets, v)]
        0 <= j < locs.len() && may_yield(e, sets, v) && assign_spec(
            node_at_root(before, locs[j])->Some_0,
            v,
        ) == Err::<Option<ParamKind>, EvalErrorV>(err)
}

/// Whether the edit of `locs` with `e` cannot fail: every set it draws from
/// holds a value, and every target takes every value that `e` may yield.
pub open spec fn cannot_fail(before: ParamStruct, locs: Seq<Seq<usize>>, e: ExprV, sets: SetsV) -> bool {
    &&& evaluable(e, sets)
    &&& forall|j: int, v: Value|
        #![trigger locs[j], may_yield(e, sets, v)]
        0 <= j < locs.len() && may_yield(e, sets, v) ==> assign_spec(
            node_at_root(before, locs[j])->Some_0,
            v,
        ) is Ok
}

proof fn lemma_kind_targets_exist(node: ParamKind, path: Seq<ComponentV>)
    requires
        fits(node),
    ensures
        resolve_kind(node, path) matches Ok(locs) ==> forall|i: int|
            0 <= i < locs.len() ==> node_at(node, #[trigger] locs[i]) is Some,
    decreases path.len(), 0int, 1int,
{
    if path.len() == 0 {
        assert(node_at(node, Seq::<usize>::empty()) is Some);
    } else {
        match path[0] {
            ComponentV::Field(_) => {
                if let ParamKind::Struct(s) = node {
                    lemma_struct_targets_exist(s, path);
                }
            },
            ComponentV::Index(i) => {
                if let ParamKind::List(l) = node {
                    if i < l.0@.len() {
                        assert(fits(l.0@[i as int]));
                        lemma_kind_targets_exist(l.0@[i as int], path.drop_first());
                        if let Ok(b) = resolve_kind(l.0@[i as int], path.drop_first()) {
                            let p = prefix_all(i, b);
                            assert forall|x: int| 0 <= x < p.len() implies node_at(node, #[trigger] p[x]) is Some by {
                                assert(p[x].drop_first() =~= b[x]);
                            }
                        }
                    }
                }
            },
            ComponentV::Wildcard => {
                match node {
                    ParamKind::Struct(s) => {
                        assert forall|i: int| 0 <= i < s.0@.len() implies fits(
                            #[trigger] struct_children(s)[i],
                        ) by {
                            assert(fits(s.0@[i].1));
                        }
                        lemma_fan_targets_exist(struct_children(s), path.drop_first(), s.0@.len() as int);
                    },
                    ParamKind::List(l) => {
                        assert forall|i: int| 0 <= i < l.0@.len() implies fits(#[trigger] l.0@[i]) by {}
                        lemma_fan_targets_exist(l.0@, path.drop_first(), l.0@.len() as int);
                    },
                    _ => {},
                }
            },
        }
    }
}

proof fn lemma_struct_targets_exist(s: ParamStruct, path: Seq<ComponentV>)
    requires
        fits(ParamKind::Struct(s)),
    ensures
        resolve_struct(s, path) matches Ok(locs) ==> forall|i: int|
            0 <= i < locs.len() ==> node_at_root(s, #[trigger] locs[i]) is Some,
    decreases path.len(), 0int, 0int,
{
    if path.len() > 0 {
        match path[0] {
            ComponentV::Field(name) => {
                if let Some(j) = find_field(s.0@, hash40_of(name)) {
                    lemma_find_field_bound(s.0@, hash40_of(name));
                    assert(fits(s.0@[j].1));
                    lemma_kind_targets_exist(s.0@[j].1, path.drop_first());
                    if let Ok(b) = resolve_kind(s.0@[j].1, path.drop_first()) {
                        let p = prefix_all(j as usize, b);
                        assert forall|x: int| 0 <= x < p.len() implies node_at_root(s, #[trigger] p[x]) is Some by {
                            assert(p[x].drop_first() =~= b[x]);
                        }
                    }
                }
            },
            ComponentV::Index(_) => {},
            ComponentV::Wildcard => {
                assert forall|i: int| 0 <= i < s.0@.len() implies fits(
                    #[trigger] struct_children(s)[i],
                ) by {
                    assert(fits(s.0@[i].1));
                }
                lemma_fan_targets_exist(struct_children(s), path.drop_first(), s.0@.len() as int);
            },
        }
    }
}

proof fn lemma_fan_targets_exist(children: Seq<ParamKind>, path: Seq<ComponentV>, j: int)
    requires
        children.len() <= usize::MAX,
        forall|i: int| 0 <= i < children.len() ==> fits(#[trigger] children[i]),
    ensures
        fan(children, path, j) matches Ok(locs) ==> forall|i: int|
            0 <= i < locs.len() ==> {
                &&& (#[trigger] locs[i]).len() > 0
                &&& locs[i][0] < j
                &&& locs[i][0] < children.len()
                &&& node_at(children[locs[i][0] as int], locs[i].drop_first()) is Some
            },
    decreases path.len(), 1int, j,
{
    if 0 < j <= children.len() {
        lemma_fan_targets_exist(children, path, j - 1);
        lemma_kind_targets_exist(children[j - 1], path);
        if let Ok(a) = fan(children, path, j - 1) {
            if let Ok(b) = resolve_kind(children[j - 1], path) {
                let p = prefix_all((j - 1) as usize, b);
                let all = a + p;
                assert forall|i: int| 0 <= i < all.len() implies {
                    &&& (#[trigger] all[i]).len() > 0
                    &&& all[i][0] < j
                    &&& all[i][0] < children.len()
                    &&& node_at(children[all[i][0] as int], all[i].drop_first()) is Some
                } by {
                    if i >= a.len() {
                        assert(all[i] == p[i - a.len()]);
                        assert(p[i - a.len()].drop_first() =~= b[i - a.len()]);
                    } else {
                        assert(all[i] == a[i]);
                    }
                }
            }
        }
    }
}

/// Whether every target got what storing a possible value of `e` gives.
pub open spec fn targets_done(
    before: ParamStruct,
    after: ParamStruct,
    locs: Seq<Seq<usize>>,
    e: ExprV,
    sets: SetsV,
) -> bool {
    forall|j: int| 0 <= j < locs.len() ==> target_done(before, after, #[trigger] locs[j], e, sets)
}

/// Whether every node apart from the targets and what lies below them is
/// as it was.
pub open spec fn only_targets_change(
    before: ParamStruct,
    after: ParamStruct,
    locs: Seq<Seq<usize>>,
) -> bool {
    forall|l: Seq<usize>|
        (forall|j: int| 0 <= j < locs.len() ==> diverges(#[trigger] locs[j], l))
            ==> #[trigger] node_at_root(after, l) == node_at_root(before, l)
}

/// Whether each target either got what storing a possible value of `e`
/// gives or is as it was.
pub open spec fn targets_done_or_kept(
    before: ParamStruct,
    after: ParamStruct,
    locs: Seq<Seq<usize>>,
    e: ExprV,
    sets: SetsV,
) -> bool {
    forall|j: int|
        0 <= j < locs.len() ==> target_done(before, after, #[trigger] locs[j], e, sets)
            || node_at_root(after, locs[j]) == node_at_root(before, locs[j])
}

/// Whether every value that `e` may yield is `original`.
pub open spec fn only_original(e: ExprV, sets: SetsV) -> bool {
    forall|v: Value| may_yield(e, sets, v) ==> v == Value::Original
}

impl PrcEntry {
    /// Makes one edit: resolves the path, then for each target evaluates the
    /// expression anew and stores the value. Only the targets change. It
    /// succeeds when no value that the expression may yield can fail, and
    /// an error is one that the expression or a target may give; the target
    /// that fails keeps its value.
    pub fn apply<H: FloatHost>(
        &self,
        file: &mut ParamStruct,
        sets: &Vec<(String, ValueSet)>,
        host: &mut H,
    ) -> (r: Result<(), EvalError>)
        ensures
            match resolve_struct(*old(file), self.path.view()) {
                Err(e) => r matches Err(x) && x@ == e && *final(file) == *old(file),
                Ok(locs) => {
                    &&& r is Ok ==> targets_done(
                        *old(file),
                        *final(file),
                        locs,
                        self.expr.view(),
                        sets_view(sets@),
                    )
                    &&& r matches Err(x) ==> target_may_fail(
                        *old(file),
                        locs,
                        self.expr.view(),
                        sets_view(sets@),
                        x@,
                    )
                    &&& cannot_fail(*old(file), locs, self.expr.view(), sets_view(sets@)) ==> r is Ok
                    &&& targets_done_or_kept(
                        *old(file),
                        *final(file),
                        locs,
                        self.expr.view(),
                        sets_view(sets@),
                    )
                    &&& only_targets_change(*old(file), *final(file), locs)
                    &&& r is Err ==> *final(file) == *old(file) || exists|j: int|
                        0 <= j < locs.len() && target_done(
                            *old(file),
                            *final(file),
                            #[trigger] locs[j],
                            self.expr.view(),
                            sets_view(sets@),
                        )
                },
            },
            same_root_shape(*old(file), *final(file)),
            only_original(self.expr.view(), sets_view(sets@)) ==> *final(file) == *old(file),
    {
        proof {
            lemma_shape_refl(ParamKind::Struct(*file));
        }
        tree_fits_struct(file);
        let to_edit = match get_path_struct(file, self.path.as_ref()) {
            Ok(t) => t,
            Err(e) => return Err(e),
        };
        let ghost locs = locs_view(to_edit@);
        proof {
            lemma_resolve_struct_ok(*file, self.path.view());
            lemma_struct_targets_exist(*file, self.path.view());
        }
        let ghost start = *file;
        let ghost e = self.expr.view();
        let ghost sv = sets_view(sets@);
        let mut j: usize = 0;
        while j < to_edit.len()
            invariant
                locs == locs_view(to_edit@),
                resolve_struct(start, self.path.view()) == Ok::<Seq<Seq<usize>>, EvalErrorV>(locs),
                locs_ok(locs, self.path.view().len()),
                forall|i: int| 0 <= i < locs.len() ==> node_at_root(start, #[trigger] locs[i]) is Some,
                start == *old(file),
                e == self.expr.view(),
                sv == sets_view(sets@),
                j <= locs.len(),
                forall|i: int| 0 <= i < j ==> target_done(start, *file, #[trigger] locs[i], e, sv),
                forall|i: int|
                    j <= i < locs.len() ==> node_at_root(*file, #[trigger] locs[i]) == node_at_root(
                        start,
                        locs[i],
                    ),
                only_targets_change(start, *file, locs),
                same_root_shape(start, *file),
                j == 0 ==> *file == start,
                only_original(e, sv) ==> *file == start,
            decreases locs.len() - j,
        {
            let ghost lj = locs[j as int];
            assert(node_at_root(*file, lj) == node_at_root(start, lj));
            let val = match self.expr.eval(sets, host) {
                Ok(v) => v,
                Err(x) => {
                    proof {
                        assert(targets_done_or_kept(start, *file, locs, e, sv));
                        if j > 0 {
                            assert(target_done(start, *file, locs[0], e, sv));
                        }
                    }
                    return Err(x);
                },
            };
            let ghost before = *file;
            let ghost leaf = node_at_root(start, lj)->Some_0;
            let res = if let Value::Original = val {
                if !locate_root(file, &to_edit[j]) {
                    return Err(EvalError::InvalidField("Path pointed to a node that is not there"));
                }
                Ok(())
            } else {
                assign_at(file, &to_edit[j], val, host)
            };
            proof {
                lemma_shape_refl(ParamKind::Struct(before));
                lemma_shape_trans(
                    ParamKind::Struct(start),
                    ParamKind::Struct(before),
                    ParamKind::Struct(*file),
                );
                assert(node_at_root(*file, lj) matches Some(n) && assigned(leaf, val, n));
                assert forall|i: int| j < i < locs.len() implies node_at_root(*file, #[trigger] locs[i])
                    == node_at_root(start, locs[i]) by {
                    lemma_distinct_diverges(lj, locs[i]);
                }
                assert forall|i: int| 0 <= i < j implies target_done(start, *file, #[trigger] locs[i], e, sv) by {
                    lemma_distinct_diverges(lj, locs[i]);
                    assert(node_at_root(*file, locs[i]) == node_at_root(before, locs[i]));
                }
                assert forall|l: Seq<usize>|
                    (forall|i: int| 0 <= i < locs.len() ==> diverges(#[trigger] locs[i], l))
                        implies #[trigger] node_at_root(*file, l) == node_at_root(start, l) by {
                    assert(diverges(locs[j as int], l));
                }
            }
            match res {
                Ok(()) => {},
                Err(x) => {
                    proof {
                        assert(assign_spec(leaf, val) == Err::<Option<ParamKind>, EvalErrorV>(x@));
                        assert(node_at_root(*file, lj) == node_at_root(start, lj));
                        assert(targets_done_or_kept(start, *file, locs, e, sv));
                        assert(target_may_fail(start, locs, e, sv, x@));
                        assert(*file == before);
                        if j > 0 {
                            assert(target_done(start, *file, locs[0], e, sv));
                        }
                    }
                    return Err(x);
                },
            }
            assert(may_yield(e, sv, val) && assign_spec(leaf, val) is Ok && assigned(
                leaf,
                val,
                node_at_root(*file, lj)->Some_0,
            ));
            assert(target_done(start, *file, lj, e, sv));
            j = j + 1;
        }
        proof {
            assert(targets_done_or_kept(start, *file, locs, e, sv));
        }
        Ok(())
    }
}

/// Whether every edit of an entry can only write `original` (a plain
/// `original`, or a choice all of whose branches are), and draws from no
/// missing or empty set.
pub open spec fn all_original(e: RandlEntry, sets: SetsV) -> bool {
    forall|i: int|
        0 <= i < e.prc_fields@.len() ==> only_original(#[trigger] e.prc_fields@[i].expr.view(), sets)
            && evaluable(e.prc_fields@[i].expr.view(), sets)
}

/// An expression that may fail to evaluate draws from a missing or empty set.
proof fn lemma_fail_not_evaluable(e: ExprV, sets: SetsV, err: EvalErrorV)
    requires
        may_fail_eval(e, sets, err),
    ensures
        !evaluable(e, sets),
    decreases e,
{
    if let ExprV::Random(cs) = e {
        let i = choose|i: int| 0 <= i < cs.len() && may_fail_eval(cs[i].1, sets, err);
        assert(decreases_to!(e => cs[i].1));
        lemma_fail_not_evaluable(cs[i].1, sets, err);
    }
}

/// Whether one edit took `before` to `after`: its path resolved, every
/// target got a possible value, and nothing else changed.
pub open spec fn edit_step(before: ParamStruct, edit: EditV, sets: SetsV, after: ParamStruct) -> bool {
    &&& resolve_struct(before, edit.0) matches Ok(locs)
    &&& targets_done(before, after, locs, edit.1, sets)
    &&& only_targets_change(before, after, locs)
    &&& same_root_shape(before, after)
}

/// Whether the edits, made one after the other, took `before` to `after`.
pub open spec fn edits_applied(
    before: ParamStruct,
    edits: Seq<EditV>,
    sets: SetsV,
    after: ParamStruct,
) -> bool {
    exists|ts: Seq<ParamStruct>|
        {
            &&& ts.len() == edits.len() + 1
            &&& ts[0] == before
            &&& ts[edits.len() as int] == after
            &&& forall|k: int|
                0 <= k < edits.len() ==> edit_step(ts[k], edits[k], sets, #[trigger] ts[k + 1])
        }
}

/// Whether a failed edit took `before` to `after`: a path that did not
/// resolve changed nothing, and otherwise only its targets may have changed.
pub open spec fn edit_failed(before: ParamStruct, edit: EditV, sets: SetsV, after: ParamStruct) -> bool {
    match resolve_struct(before, edit.0) {
        Err(_) => after == before,
        Ok(locs) => {
            &&& only_targets_change(before, after, locs)
            &&& targets_done_or_kept(before, after, locs, edit.1, sets)
            &&& same_root_shape(before, after)
            &&& (after == before || exists|j: int|
                0 <= j < locs.len() && target_done(before, after, #[trigger] locs[j], edit.1, sets))
        },
    }
}

/// Whether an edit, made on `before`, may fail with `err`: its path does not
/// resolve, with that error, or its expression or a target may give it.
pub open spec fn edit_error(before: ParamStruct, edit: EditV, sets: SetsV, err: EvalErrorV) -> bool {
    match resolve_struct(before, edit.0) {
        Err(x) => x == err,
        Ok(locs) => target_may_fail(before, locs, edit.1, sets, err),
    }
}

impl RandlEntry {
    /// Applies the entry's edits in order to a parameter tree. The first
    /// error stops the edits; those already made stay.
    pub fn apply<H: FloatHost>(
        &self,
        file: &mut ParamStruct,
        sets: &Vec<(String, ValueSet)>,
        host: &mut H,
    ) -> (r: Result<(), EvalError>)
        ensures
            r is Ok ==> edits_applied(
                *old(file),
                edits_view(self.prc_fields@),
                sets_view(sets@),
                *final(file),
            ),
            r matches Err(x) ==> exists|k: int, mid: ParamStruct|
                0 <= k < self.prc_fields@.len() && edits_applied(
                    *old(file),
                    edits_view(self.prc_fields@).take(k),
                    sets_view(sets@),
                    mid,
                ) && edit_error(mid, edits_view(self.prc_fields@)[k], sets_view(sets@), x@)
                    && edit_failed(
                    mid,
                    edits_view(self.prc_fields@)[k],
                    sets_view(sets@),
                    *final(file),
                ),
            all_original(*self, sets_view(sets@)) ==> (r matches Err(x) ==> exists|k: int|
                0 <= k < self.prc_fields@.len() && resolve_struct(
                    *old(file),
                    #[trigger] self.prc_fields@[k].path.view(),
                ) == Err::<Seq<Seq<usize>>, EvalErrorV>(x@)),
            all_original(*self, sets_view(sets@)) ==> *final(file) == *old(file),
            same_root_shape(*old(file), *final(file)),
    {
        proof {
            lemma_shape_refl(ParamKind::Struct(*file));
        }
        let ghost edits = edits_view(self.prc_fields@);
        let ghost sv = sets_view(sets@);
        let ghost mut ts: Seq<ParamStruct> = seq![*file];
        let mut i: usize = 0;
        while i < self.prc_fields.len()
            invariant
                edits == edits_view(self.prc_fields@),
                sv == sets_view(sets@),
                i <= self.prc_fields@.len(),
                ts.len() == i + 1,
                ts[0] == *old(file),
                ts[i as int] == *file,
                forall|k: int| 0 <= k < i ==> edit_step(ts[k], edits[k], sv, #[trigger] ts[k + 1]),
                all_original(*self, sv) ==> *file == *old(file),
                same_root_shape(*old(file), *file),
            decreases self.prc_fields@.len() - i,
        {
            let ghost before = *file;
            let edit = &self.prc_fields[i];
            match edit.apply(file, sets, host) {
                Ok(()) => {},
                Err(e) => {
                    proof {
                        assert(edits[i as int] == edit.view());
                        let done = edits.take(i as int);
                        assert forall|k: int| 0 <= k < done.len() implies edit_step(
                            ts[k],
                            done[k],
                            sv,
                            #[trigger] ts[k + 1],
                        ) by {
                            assert(done[k] == edits[k]);
                        }
                        assert(edits_applied(*old(file), done, sv, before));
                        assert(edit_failed(before, edits[i as int], sv, *file));
                        assert(edit_error(before, edits[i as int], sv, e@));
                        lemma_shape_trans(
                            ParamKind::Struct(*old(file)),
                            ParamKind::Struct(before),
                            ParamKind::Struct(*file),
                        );
                        if all_original(*self, sv) {
                            let x = edit.expr.view();
                            assert(only_original(x, sv) && evaluable(x, sv));
                            if let Ok(locs) = resolve_struct(before, edit.path.view()) {
                                if may_fail_eval(x, sv, e@) {
                                    lemma_fail_not_evaluable(x, sv, e@);
                                }
                                assert forall|j: int, v: Value|
                                    #![trigger locs[j], may_yield(x, sv, v)]
                                    0 <= j < locs.len() && may_yield(x, sv, v)
                                        implies assign_spec(node_at_root(before, locs[j])->Some_0, v) is Ok by {
                                    assert(v == Value::Original);
                                }
                            }
                            assert(resolve_struct(*old(file), self.prc_fields@[i as int].path.view()) is Err);
                        }
                    }
                    return Err(e);
                },
            }
            proof {
                assert(edits[i as int] == edit.view());
                lemma_shape_trans(
                    ParamKind::Struct(*old(file)),
                    ParamKind::Struct(before),
                    ParamKind::Struct(*file),
                );
                if all_original(*self, sv) {
                    assert(only_original(edit.expr.view(), sv));
                }
                ts = ts.push(*file);
                assert(edit_step(ts[i as int], edits[i as int], sv, ts[i + 1]));
            }
            i = i + 1;
        }
        assert(ts.len() == edits.len() + 1);
        Ok(())
    }
}

} // verus!
