//! Reading a node document into the typed form of `ast`.
use vstd::prelude::*;

use crate::ast::{
    components_view, ChanceStmt, ComponentV, Expr, ExprV, FloatBound, PrcPath, PrcPathComponent, Range,
    Return, ReturnV, Value, ValueSet, PrcEntry, RandlEntry, RandlFile, EditV, EntryV, FileV, SetsV,
    edits_view, sets_view,
};
use crate::error::ParseError;
use crate::hashing::{hash40_of, hash_str};
use crate::node::{prop_of, str_eq, Node, NodeValue};
use crate::template::names_spec;

verus! {

/// The value that a single positional literal stands for.
pub open spec fn scalar_of(v: NodeValue) -> Result<Value, ParseError> {
    match v {
        NodeValue::Int(i) => Ok(Value::Int(i)),
        NodeValue::Float(f) => Ok(Value::Float(f.bits)),
        NodeValue::String(s) => Ok(Value::String(s)),
        NodeValue::Boolean(b) => Ok(Value::Bool(b)),
        NodeValue::Null => Err(ParseError::InvalidType),
    }
}

/// The hash that a `hash40` property stands for: an integer as it is, a
/// string hashed.
pub open spec fn hash_prop_of(v: NodeValue) -> Option<u64> {
    match v {
        NodeValue::Int(h) => Some(h as u64),
        NodeValue::String(s) => Some(hash40_of(s@)),
        _ => None,
    }
}

/// What a `value` node (a member of a set) stands for.
pub open spec fn value_spec(n: Node) -> Result<Value, ParseError> {
    if n.name@ != "value"@ {
        Err(ParseError::NonValueInSet(n.name))
    } else if n.values@.len() == 0 {
        match prop_of(n.properties@, "hash40"@) {
            Some(h) => match hash_prop_of(h) {
                Some(x) => Ok(Value::Hash40(x)),
                None => Err(
                    ParseError::InvalidValueStmt("`hash40` property must be a string or an integer"),
                ),
            },
            None => Err(
                ParseError::InvalidValueStmt(
                    "set `value` missing value. Syntax is `value [int/float/string/bool]` or `value hash40=[string/int]`",
                ),
            ),
        }
    } else if n.values@.len() == 1 {
        scalar_of(n.values@[0])
    } else {
        Err(
            ParseError::InvalidReturn(
                "Set value declerations may not represent more than one return value",
            ),
        )
    }
}

/// The values of a list of `value` nodes, or the first error among them.
pub open spec fn values_spec(nodes: Seq<Node>) -> Result<Seq<Value>, ParseError>
    decreases nodes.len(),
{
    if nodes.len() == 0 {
        Ok(Seq::empty())
    } else {
        match values_spec(nodes.drop_last()) {
            Err(e) => Err(e),
            Ok(s) => match value_spec(nodes.last()) {
                Err(e) => Err(e),
                Ok(v) => Ok(s.push(v)),
            },
        }
    }
}

/// The range that a `from` and a `to` property stand for.
pub open spec fn range_spec(from: NodeValue, to: NodeValue) -> Result<Range, ParseError> {
    match (from, to) {
        (NodeValue::Int(a), NodeValue::Int(b)) => Ok(Range::Int(a, b)),
        (NodeValue::Int(a), NodeValue::Float(b)) => Ok(
            Range::Float(FloatBound::Int(a), FloatBound::Float(b.bits)),
        ),
        (NodeValue::Float(a), NodeValue::Int(b)) => Ok(
            Range::Float(FloatBound::Float(a.bits), FloatBound::Int(b)),
        ),
        (NodeValue::Float(a), NodeValue::Float(b)) => Ok(
            Range::Float(FloatBound::Float(a.bits), FloatBound::Float(b.bits)),
        ),
        _ => Err(ParseError::InvalidReturn("Ranges must be for only integers or floats")),
    }
}

/// Whether every property is named `a` or `b`.
pub open spec fn keys_within(props: Seq<(String, NodeValue)>, a: Seq<char>, b: Seq<char>) -> bool {
    forall|i: int| 0 <= i < props.len() ==> props[i].0@ == a || props[i].0@ == b
}

/// What a `return` node with properties and nothing else stands for: the
/// properties are exactly `from` and `to`, or `hash40`, or `set`.
pub open spec fn return_props_spec(n: Node) -> Result<ReturnV, ParseError> {
    let p = n.properties@;
    match (prop_of(p, "from"@), prop_of(p, "to"@)) {
        (Some(_), None) => Err(ParseError::InvalidReturn("Return range missing `to` property")),
        (None, Some(_)) => Err(ParseError::InvalidReturn("Return range missing `from` property")),
        (Some(f), Some(t)) => if !keys_within(p, "from"@, "to"@) {
            Err(
                ParseError::InvalidReturn(
                    "Invalid property in return. Only `set`, `to`, `from`, and `hash40` are supported",
                ),
            )
        } else {
            match range_spec(f, t) {
                Ok(r) => Ok(ReturnV::Range(r)),
                Err(e) => Err(e),
            }
        },
        (None, None) => match prop_of(p, "hash40"@) {
            Some(_) if !keys_within(p, "hash40"@, "hash40"@) => Err(
                ParseError::InvalidReturn(
                    "Invalid property in return. Only `set`, `to`, `from`, and `hash40` are supported",
                ),
            ),
            Some(h) => match hash_prop_of(h) {
                Some(x) => Ok(ReturnV::Constant(Value::Hash40(x))),
                None => Err(
                    ParseError::InvalidReturn("`hash40` property must be a string or an integer"),
                ),
            },
            None => match prop_of(p, "set"@) {
                Some(_) if !keys_within(p, "set"@, "set"@) => Err(
                    ParseError::InvalidReturn(
                        "Invalid property in return. Only `set`, `to`, `from`, and `hash40` are supported",
                    ),
                ),
                Some(NodeValue::String(s)) => Ok(ReturnV::SetRef(s)),
                Some(_) => Err(ParseError::InvalidReturn("Return set must be a string")),
                None => Err(
                    ParseError::InvalidReturn(
                        "Invalid property in return. Only `set`, `to`, `from`, and `hash40` are supported",
                    ),
                ),
            },
        },
    }
}

/// What a `return` node stands for.
pub open spec fn return_spec(n: Node) -> Result<ReturnV, ParseError> {
    if n.children@.len() == 0 {
        if n.properties@.len() == 0 {
            if n.values@.len() == 0 {
                Err(
                    ParseError::InvalidReturn(
                        "Returns must have either children, properties, or values",
                    ),
                )
            } else if n.values@.len() == 1 {
                match scalar_of(n.values@[0]) {
                    Ok(v) => Ok(ReturnV::Constant(v)),
                    Err(e) => Err(e),
                }
            } else {
                Err(ParseError::InvalidReturn("Returns may not have more than one return value"))
            }
        } else if n.values@.len() != 0 {
            Err(ParseError::InvalidReturn("Returns may not have both properties and values"))
        } else {
            return_props_spec(n)
        }
    } else if n.properties@.len() != 0 {
        Err(ParseError::InvalidReturn("Return nodes with children cannot have properties"))
    } else if n.values@.len() != 0 {
        Err(ParseError::InvalidReturn("Return nodes with children cannot have values"))
    } else {
        match values_spec(n.children@) {
            Ok(s) => Ok(ReturnV::AnonymousSet(s)),
            Err(e) => Err(e),
        }
    }
}

pub open spec fn return_result_view(r: Result<Return, ParseError>) -> Result<ReturnV, ParseError> {
    match r {
        Ok(x) => Ok(x.view()),
        Err(e) => Err(e),
    }
}

fn scalar(v: &NodeValue) -> (r: Result<Value, ParseError>)
    ensures
        r == scalar_of(*v),
{
    match v {
        NodeValue::Int(i) => Ok(Value::Int(*i)),
        NodeValue::Float(f) => Ok(Value::Float(f.bits)),
        NodeValue::String(s) => Ok(Value::String(s.clone())),
        NodeValue::Boolean(b) => Ok(Value::Bool(*b)),
        NodeValue::Null => Err(ParseError::InvalidType),
    }
}

fn hash_prop(v: &NodeValue) -> (r: Option<u64>)
    ensures
        r == hash_prop_of(*v),
{
    match v {
        NodeValue::Int(h) => Some(*h as u64),
        NodeValue::String(s) => Some(hash_str(s.as_str())),
        _ => None,
    }
}

impl Value {
    /// Reads a `value` node: one positional literal, or a `hash40` property.
    pub fn from_node(node: &Node) -> (r: Result<Value, ParseError>)
        ensures
            r == value_spec(*node),
    {
        if !node.is_named("value") {
            return Err(ParseError::NonValueInSet(node.name.clone()));
        }
        let n = node.values.len();
        if n == 0 {
            match node.property("hash40") {
                Some(h) => match hash_prop(h) {
                    Some(x) => Ok(Value::Hash40(x)),
                    None => Err(
                        ParseError::InvalidValueStmt(
                            "`hash40` property must be a string or an integer",
                        ),
                    ),
                },
                None => Err(
                    ParseError::InvalidValueStmt(
                        "set `value` missing value. Syntax is `value [int/float/string/bool]` or `value hash40=[string/int]`",
                    ),
                ),
            }
        } else if n == 1 {
            scalar(&node.values[0])
        } else {
            Err(
                ParseError::InvalidReturn(
                    "Set value declerations may not represent more than one return value",
                ),
            )
        }
    }
}

/// Reads a list of `value` nodes, stopping at the first that is not valid.
pub fn values_from_nodes(nodes: &Vec<Node>) -> (r: Result<Vec<Value>, ParseError>)
    ensures
        match r {
            Ok(v) => values_spec(nodes@) == Ok::<Seq<Value>, ParseError>(v@),
            Err(e) => values_spec(nodes@) == Err::<Seq<Value>, ParseError>(e),
        },
{
    let mut out: Vec<Value> = Vec::new();
    let mut i: usize = 0;
    while i < nodes.len()
        invariant
            i <= nodes@.len(),
            values_spec(nodes@.take(i as int)) == Ok::<Seq<Value>, ParseError>(out@),
        decreases nodes@.len() - i,
    {
        assert(nodes@.take(i + 1).drop_last() =~= nodes@.take(i as int));
        match Value::from_node(&nodes[i]) {
            Ok(v) => out.push(v),
            Err(e) => {
                proof {
                    lemma_values_prefix_err(nodes@, i as int + 1);
                }
                return Err(e);
            },
        }
        i = i + 1;
    }
    assert(nodes@.take(i as int) =~= nodes@);
    Ok(out)
}

/// An error in a prefix of a list of `value` nodes is the error of the list.
proof fn lemma_values_prefix_err(nodes: Seq<Node>, k: int)
    requires
        0 <= k <= nodes.len(),
        values_spec(nodes.take(k)) is Err,
    ensures
        values_spec(nodes) == values_spec(nodes.take(k)),
    decreases nodes.len() - k,
{
    if k < nodes.len() {
        assert(nodes.take(k + 1).drop_last() =~= nodes.take(k));
        lemma_values_prefix_err(nodes, k + 1);
    } else {
        assert(nodes.take(k) =~= nodes);
    }
}


fn range_from(from: &NodeValue, to: &NodeValue) -> (r: Result<Range, ParseError>)
    ensures
        r == range_spec(*from, *to),
{
    match (from, to) {
        (NodeValue::Int(a), NodeValue::Int(b)) => Ok(Range::Int(*a, *b)),
        (NodeValue::Int(a), NodeValue::Float(b)) => Ok(
            Range::Float(FloatBound::Int(*a), FloatBound::Float(b.bits)),
        ),
        (NodeValue::Float(a), NodeValue::Int(b)) => Ok(
            Range::Float(FloatBound::Float(a.bits), FloatBound::Int(*b)),
        ),
        (NodeValue::Float(a), NodeValue::Float(b)) => Ok(
            Range::Float(FloatBound::Float(a.bits), FloatBound::Float(b.bits)),
        ),
        _ => Err(ParseError::InvalidReturn("Ranges must be for only integers or floats")),
    }
}

impl Node {
    /// Whether every property is named `a` or `b`.
    pub fn keys_within(&self, a: &str, b: &str) -> (r: bool)
        ensures
            r == keys_within(self.properties@, a@, b@),
    {
        let mut i: usize = 0;
        while i < self.properties.len()
            invariant
                i <= self.properties@.len(),
                forall|j: int|
                    0 <= j < i ==> self.properties@[j].0@ == a@ || self.properties@[j].0@ == b@,
            decreases self.properties@.len() - i,
        {
            let k = self.properties[i].0.as_str();
            if !str_eq(k, a) && !str_eq(k, b) {
                return false;
            }
            i = i + 1;
        }
        true
    }
}

impl Return {
    fn from_props(node: &Node) -> (r: Result<Return, ParseError>)
        ensures
            return_result_view(r) == return_props_spec(*node),
    {
        match (node.property("from"), node.property("to")) {
            (Some(_), None) => Err(ParseError::InvalidReturn("Return range missing `to` property")),
            (None, Some(_)) => Err(
                ParseError::InvalidReturn("Return range missing `from` property"),
            ),
            (Some(f), Some(t)) => if !node.keys_within("from", "to") {
                Err(
                    ParseError::InvalidReturn(
                        "Invalid property in return. Only `set`, `to`, `from`, and `hash40` are supported",
                    ),
                )
            } else {
                match range_from(f, t) {
                    Ok(r) => Ok(Return::Range(r)),
                    Err(e) => Err(e),
                }
            },
            (None, None) => match node.property("hash40") {
                Some(_) if !node.keys_within("hash40", "hash40") => Err(
                    ParseError::InvalidReturn(
                        "Invalid property in return. Only `set`, `to`, `from`, and `hash40` are supported",
                    ),
                ),
                Some(h) => match hash_prop(h) {
                    Some(x) => Ok(Return::Constant(Value::Hash40(x))),
                    None => Err(
                        ParseError::InvalidReturn(
                            "`hash40` property must be a string or an integer",
                        ),
                    ),
                },
                None => match node.property("set") {
                    Some(_) if !node.keys_within("set", "set") => Err(
                        ParseError::InvalidReturn(
                            "Invalid property in return. Only `set`, `to`, `from`, and `hash40` are supported",
                        ),
                    ),
                    Some(NodeValue::String(s)) => Ok(Return::SetRef(s.clone())),
                    Some(_) => Err(ParseError::InvalidReturn("Return set must be a string")),
                    None => Err(
                        ParseError::InvalidReturn(
                            "Invalid property in return. Only `set`, `to`, `from`, and `hash40` are supported",
                        ),
                    ),
                },
            },
        }
    }

    /// Reads a `return` node: a literal, a range, a hash, a named set or a
    /// set written as children.
    pub fn from_node(node: &Node) -> (r: Result<Return, ParseError>)
        ensures
            return_result_view(r) == return_spec(*node),
    {
        if node.children.len() == 0 {
            if node.properties.len() == 0 {
                if node.values.len() == 0 {
                    Err(
                        ParseError::InvalidReturn(
                            "Returns must have either children, properties, or values",
                        ),
                    )
                } else if node.values.len() == 1 {
                    match scalar(&node.values[0]) {
                        Ok(v) => Ok(Return::Constant(v)),
                        Err(e) => Err(e),
                    }
                } else {
                    Err(
                        ParseError::InvalidReturn(
                            "Returns may not have more than one return value",
                        ),
                    )
                }
            } else if node.values.len() != 0 {
                Err(ParseError::InvalidReturn("Returns may not have both properties and values"))
            } else {
                Return::from_props(node)
            }
        } else if node.properties.len() != 0 {
            Err(ParseError::InvalidReturn("Return nodes with children cannot have properties"))
        } else if node.values.len() != 0 {
            Err(ParseError::InvalidReturn("Return nodes with children cannot have values"))
        } else {
            match values_from_nodes(&node.children) {
                Ok(v) => Ok(Return::AnonymousSet(ValueSet(v))),
                Err(e) => Err(e),
            }
        }
    }
}

/// The largest integer percentage whose millionths fit in an `i64`.
pub const MAX_INT_PERCENT: i64 = 9_223_372_036_854;

/// The least total weight of a weighted choice, in millionths of a percent
/// (99.9%: totals a little under 100% are taken as rounding).
pub const MIN_CHANCE_TOTAL: i64 = 99_900_000;

/// The weight that a `percent` property stands for, in millionths of a percent.
pub open spec fn percent_spec(v: NodeValue) -> Result<i64, ParseError> {
    match v {
        NodeValue::Int(p) => if -MAX_INT_PERCENT <= p <= MAX_INT_PERCENT {
            Ok((p * 1_000_000) as i64)
        } else {
            Err(ParseError::InvalidChance("percent is out of range"))
        },
        NodeValue::Float(f) => Ok(f.millionths),
        _ => Err(ParseError::InvalidChance("percent must be an integer or a float")),
    }
}

/// The sum of the weights of a weighted choice.
pub open spec fn sum_percents(cs: Seq<(i64, ExprV)>) -> int
    decreases cs.len(),
{
    if cs.len() == 0 {
        0
    } else {
        sum_percents(cs.drop_last()) + cs.last().0
    }
}

/// Whether every node is named `chance`.
pub open spec fn all_chance(nodes: Seq<Node>) -> bool {
    forall|i: int| 0 <= i < nodes.len() ==> nodes[i].name@ == "chance"@
}

/// What a list of sibling expression nodes stands for.
pub open spec fn expr_spec(nodes: Seq<Node>) -> Result<ExprV, ParseError>
    decreases nodes, 2int, 0int,
{
    if nodes.len() == 0 {
        Err(ParseError::ExprRequired)
    } else if nodes[0].name@ == "chance"@ {
        match chances_spec(nodes) {
            Ok(c) => Ok(ExprV::Random(c)),
            Err(e) => Err(e),
        }
    } else if nodes.len() == 1 {
        if nodes[0].name@ == "original"@ {
            Ok(ExprV::Original)
        } else if nodes[0].name@ == "return"@ {
            match return_spec(nodes[0]) {
                Ok(r) => Ok(ExprV::Return(r)),
                Err(e) => Err(e),
            }
        } else {
            Err(ParseError::InvalidExpr(nodes[0].name))
        }
    } else {
        Err(ParseError::TooManyExprs)
    }
}

/// What a list of `chance` nodes stands for: every node must be a `chance`,
/// each valid, and the weights must sum to at least 99.9%.
pub open spec fn chances_spec(nodes: Seq<Node>) -> Result<Seq<(i64, ExprV)>, ParseError>
    decreases nodes, 1int, 0int,
{
    if !all_chance(nodes) {
        Err(ParseError::MixedExprs)
    } else {
        match chance_items(nodes, nodes.len() as int) {
            Err(e) => Err(e),
            Ok(cs) => if sum_percents(cs) >= MIN_CHANCE_TOTAL {
                Ok(cs)
            } else {
                Err(ParseError::InvalidChance("Chance statements must add up to >99.9%"))
            },
        }
    }
}

/// The first `k` branches of a list of `chance` nodes, or the first error among them.
pub open spec fn chance_items(nodes: Seq<Node>, k: int) -> Result<Seq<(i64, ExprV)>, ParseError>
    decreases nodes, 0int, k,
{
    if k <= 0 || k > nodes.len() {
        Ok(Seq::empty())
    } else {
        match chance_items(nodes, k - 1) {
            Err(e) => Err(e),
            Ok(s) => match prop_of(nodes[k - 1].properties@, "percent"@) {
                None => Err(ParseError::NoPercent),
                Some(v) => match percent_spec(v) {
                    Err(e) => Err(e),
                    Ok(p) => match expr_spec(nodes[k - 1].children@) {
                        Err(e) => Err(e),
                        Ok(x) => Ok(s.push((p, x))),
                    },
                },
            },
        }
    }
}

pub open spec fn chances_view(cs: Seq<ChanceStmt>) -> Seq<(i64, ExprV)> {
    Seq::new(cs.len(), |i: int| (cs[i].percent, cs[i].expr.view()))
}

pub open spec fn expr_result_view(r: Result<Expr, ParseError>) -> Result<ExprV, ParseError> {
    match r {
        Ok(x) => Ok(x.view()),
        Err(e) => Err(e),
    }
}

pub open spec fn chances_result_view(r: Result<Vec<ChanceStmt>, ParseError>) -> Result<
    Seq<(i64, ExprV)>,
    ParseError,
> {
    match r {
        Ok(x) => Ok(chances_view(x@)),
        Err(e) => Err(e),
    }
}

/// An error among the first `k` branches is the error of the first `j >= k`.
proof fn lemma_chance_prefix_err(nodes: Seq<Node>, k: int, j: int)
    requires
        0 <= k <= j <= nodes.len(),
        chance_items(nodes, k) is Err,
    ensures
        chance_items(nodes, j) == chance_items(nodes, k),
    decreases j - k,
{
    if k < j {
        lemma_chance_prefix_err(nodes, k, j - 1);
    }
}

fn percent_from(v: &NodeValue) -> (r: Result<i64, ParseError>)
    ensures
        r == percent_spec(*v),
{
    match v {
        NodeValue::Int(p) => if -MAX_INT_PERCENT <= *p && *p <= MAX_INT_PERCENT {
            Ok(*p * 1_000_000)
        } else {
            Err(ParseError::InvalidChance("percent is out of range"))
        },
        NodeValue::Float(f) => Ok(f.millionths),
        _ => Err(ParseError::InvalidChance("percent must be an integer or a float")),
    }
}

impl ChanceStmt {
    /// Reads a list of `chance` nodes into the branches of a weighted choice.
    pub fn from_nodes(nodes: &Vec<Node>) -> (r: Result<Vec<ChanceStmt>, ParseError>)
        ensures
            chances_result_view(r) == chances_spec(nodes@),
        decreases nodes@, 1int, 0int,
    {
        let mut i: usize = 0;
        while i < nodes.len()
            invariant
                i <= nodes@.len(),
                forall|j: int| 0 <= j < i ==> nodes@[j].name@ == "chance"@,
            decreases nodes@.len() - i,
        {
            if !nodes[i].is_named("chance") {
                return Err(ParseError::MixedExprs);
            }
            i = i + 1;
        }
        let mut out: Vec<ChanceStmt> = Vec::new();
        let mut total: i128 = 0;
        let mut i: usize = 0;
        assert(chances_view(out@) =~= Seq::<(i64, ExprV)>::empty());
        while i < nodes.len()
            invariant
                i <= nodes@.len(),
                all_chance(nodes@),
                chance_items(nodes@, i as int) == Ok::<Seq<(i64, ExprV)>, ParseError>(
                    chances_view(out@),
                ),
                total == sum_percents(chances_view(out@)),
                -(i as int) * 0x8000_0000_0000_0000 <= total <= (i as int) * 0x8000_0000_0000_0000,
            decreases nodes@.len() - i,
        {
            let node = &nodes[i];
            let percent = match node.property("percent") {
                None => {
                    proof {
                        lemma_chance_prefix_err(nodes@, i + 1, nodes@.len() as int);
                    }
                    return Err(ParseError::NoPercent);
                },
                Some(v) => match percent_from(v) {
                    Ok(p) => p,
                    Err(e) => {
                        proof {
                            lemma_chance_prefix_err(nodes@, i + 1, nodes@.len() as int);
                        }
                        return Err(e);
                    },
                },
            };
            assert(decreases_to!(nodes@ => nodes@[i as int].children@));
            let expr = match Expr::from_nodes(&node.children) {
                Ok(x) => x,
                Err(e) => {
                    proof {
                        lemma_chance_prefix_err(nodes@, i + 1, nodes@.len() as int);
                    }
                    return Err(e);
                },
            };
            let ghost before = out@;
            out.push(ChanceStmt { percent, expr: Box::new(expr) });
            assert(chances_view(out@) =~= chances_view(before).push((percent, expr.view())));
            assert(chances_view(out@).drop_last() =~= chances_view(before));
            total = total + percent as i128;
            i = i + 1;
        }
        if total >= MIN_CHANCE_TOTAL as i128 {
            Ok(out)
        } else {
            Err(ParseError::InvalidChance("Chance statements must add up to >99.9%"))
        }
    }
}

impl Expr {
    /// Reads the expression that a list of sibling nodes stands for.
    pub fn from_nodes(nodes: &Vec<Node>) -> (r: Result<Expr, ParseError>)
        ensures
            expr_result_view(r) == expr_spec(nodes@),
        decreases nodes@, 2int, 0int,
    {
        if nodes.len() == 0 {
            Err(ParseError::ExprRequired)
        } else if nodes[0].is_named("chance") {
            match ChanceStmt::from_nodes(nodes) {
                Ok(c) => {
                    let r = Expr::Random(c);
                    assert(r.view() == ExprV::Random(chances_view(c@))) by {
                        assert(chances_view(c@) =~= match r.view() {
                            ExprV::Random(s) => s,
                            _ => Seq::empty(),
                        });
                    }
                    Ok(r)
                },
                Err(e) => Err(e),
            }
        } else if nodes.len() == 1 {
            if nodes[0].is_named("original") {
                Ok(Expr::Original)
            } else if nodes[0].is_named("return") {
                match Return::from_node(&nodes[0]) {
                    Ok(r) => Ok(Expr::Return(r)),
                    Err(e) => Err(e),
                }
            } else {
                Err(ParseError::InvalidExpr(nodes[0].name.clone()))
            }
        } else {
            Err(ParseError::TooManyExprs)
        }
    }
}

pub open spec fn is_digit(c: char) -> bool {
    '0' <= c && c <= '9'
}

/// Whether a path step is written with decimal digits alone.
pub open spec fn is_digits(s: Seq<char>) -> bool {
    s.len() > 0 && forall|i: int| 0 <= i < s.len() ==> is_digit(s[i])
}

/// The number that a string of decimal digits stands for.
pub open spec fn digits_value(s: Seq<char>) -> nat
    decreases s.len(),
{
    if s.len() == 0 {
        0
    } else {
        digits_value(s.drop_last()) * 10 + ((s.last() as u32) - ('0' as u32)) as nat
    }
}

/// What one dot-separated step of a path stands for.
pub open spec fn component_spec(s: Seq<char>) -> Result<ComponentV, ParseError> {
    if is_digits(s) {
        if digits_value(s) <= usize::MAX {
            Ok(ComponentV::Index(digits_value(s) as usize))
        } else {
            Err(ParseError::InvalidRandlEntry("path index is too large"))
        }
    } else if s == "*"@ {
        Ok(ComponentV::Wildcard)
    } else {
        Ok(ComponentV::Field(s))
    }
}

proof fn lemma_digits_grow(s: Seq<char>, k: int)
    requires
        0 <= k <= s.len(),
        forall|i: int| 0 <= i < s.len() ==> is_digit(s[i]),
    ensures
        digits_value(s) >= digits_value(s.take(k)),
    decreases s.len() - k,
{
    if k < s.len() {
        lemma_digits_grow(s, k + 1);
        assert(s.take(k + 1).drop_last() =~= s.take(k));
    } else {
        assert(s.take(k) =~= s);
    }
}

impl PrcPathComponent {
    /// Reads one step of a path: digits are an index, `*` is a wildcard, and
    /// anything else names a field.
    pub fn from_str(s: &str) -> (r: Result<PrcPathComponent, ParseError>)
        ensures
            match r {
                Ok(c) => component_spec(s@) == Ok::<ComponentV, ParseError>(c.view()),
                Err(e) => component_spec(s@) == Err::<ComponentV, ParseError>(e),
            },
    {
        let n = s.unicode_len();
        let mut all_digits = n > 0;
        let mut i: usize = 0;
        while i < n
            invariant
                n == s@.len(),
                i <= n,
                all_digits == (n > 0 && forall|j: int| 0 <= j < i ==> is_digit(s@[j])),
            decreases n - i,
        {
            let c = s.get_char(i);
            if !('0' <= c && c <= '9') {
                all_digits = false;
            }
            i = i + 1;
        }
        if all_digits {
            let mut value: u128 = 0;
            let mut i: usize = 0;
            while i < n
                invariant
                    n == s@.len(),
                    i <= n,
                    is_digits(s@),
                    value == digits_value(s@.take(i as int)),
                    value <= usize::MAX,
                decreases n - i,
            {
                let c = s.get_char(i);
                assert(s@.take(i + 1).drop_last() =~= s@.take(i as int));
                value = value * 10 + ((c as u32) - ('0' as u32)) as u128;
                i = i + 1;
                if value > usize::MAX as u128 {
                    proof {
                        lemma_digits_grow(s@, i as int);
                    }
                    return Err(ParseError::InvalidRandlEntry("path index is too large"));
                }
            }
            assert(s@.take(n as int) =~= s@);
            Ok(PrcPathComponent::Index(value as usize))
        } else if str_eq(s, "*") {
            Ok(PrcPathComponent::Wildcard)
        } else {
            Ok(PrcPathComponent::Field(s.to_owned()))
        }
    }
}

/// The steps read so far, and the step being read, after the first `i`
/// characters of a dotted path.
pub open spec fn split_state(s: Seq<char>, i: int) -> (Seq<Seq<char>>, Seq<char>)
    decreases i,
{
    if i <= 0 {
        (Seq::empty(), Seq::empty())
    } else {
        let st = split_state(s, i - 1);
        if s[i - 1] == '.' {
            (st.0.push(st.1), Seq::empty())
        } else {
            (st.0, st.1.push(s[i - 1]))
        }
    }
}

/// The dot-separated parts of a string.
pub open spec fn split_dots(s: Seq<char>) -> Seq<Seq<char>> {
    split_state(s, s.len() as int).0.push(split_state(s, s.len() as int).1)
}

/// The steps of a list of parts, or the first error among them.
pub open spec fn components_spec(parts: Seq<Seq<char>>) -> Result<Seq<ComponentV>, ParseError>
    decreases parts.len(),
{
    if parts.len() == 0 {
        Ok(Seq::empty())
    } else {
        match components_spec(parts.drop_last()) {
            Err(e) => Err(e),
            Ok(c) => match component_spec(parts.last()) {
                Err(e) => Err(e),
                Ok(x) => Ok(c.push(x)),
            },
        }
    }
}

/// What a dotted path stands for.
pub open spec fn path_spec(s: Seq<char>) -> Result<Seq<ComponentV>, ParseError> {
    components_spec(split_dots(s))
}

proof fn lemma_split_prefix(s: Seq<char>, i: int, j: int)
    requires
        0 <= i <= j <= s.len(),
    ensures
        split_state(s, i).0.len() <= split_state(s, j).0.len(),
        split_state(s, j).0.take(split_state(s, i).0.len() as int) == split_state(s, i).0,
    decreases j - i,
{
    if i < j {
        lemma_split_prefix(s, i, j - 1);
        let a = split_state(s, i).0;
        let b = split_state(s, j - 1).0;
        let c = split_state(s, j).0;
        if s[j - 1] == '.' {
            assert(c.take(a.len() as int) =~= b.take(a.len() as int));
        }
    } else {
        assert(split_state(s, j).0.take(split_state(s, i).0.len() as int) =~= split_state(s, j).0);
    }
}

proof fn lemma_components_prefix_err(parts: Seq<Seq<char>>, k: int)
    requires
        0 <= k <= parts.len(),
        components_spec(parts.take(k)) is Err,
    ensures
        components_spec(parts) == components_spec(parts.take(k)),
    decreases parts.len() - k,
{
    if k < parts.len() {
        assert(parts.take(k + 1).drop_last() =~= parts.take(k));
        lemma_components_prefix_err(parts, k + 1);
    } else {
        assert(parts.take(k) =~= parts);
    }
}

proof fn lemma_path_err(s: Seq<char>, i: int)
    requires
        0 <= i <= s.len(),
        components_spec(split_state(s, i).0) is Err,
    ensures
        path_spec(s) == components_spec(split_state(s, i).0),
{
    lemma_split_prefix(s, i, s.len() as int);
    let all = split_dots(s);
    let k = split_state(s, i).0.len() as int;
    assert(all.take(k) =~= split_state(s, i).0);
    lemma_components_prefix_err(all, k);
}

impl PrcPath {
    /// Reads a dotted path, such as `items.*.flag`.
    pub fn from_str(s: &str) -> (r: Result<PrcPath, ParseError>)
        ensures
            match r {
                Ok(p) => path_spec(s@) == Ok::<Seq<ComponentV>, ParseError>(p.view()),
                Err(e) => path_spec(s@) == Err::<Seq<ComponentV>, ParseError>(e),
            },
    {
        let n = s.unicode_len();
        let mut out: Vec<PrcPathComponent> = Vec::new();
        let mut start: usize = 0;
        let mut i: usize = 0;
        assert(components_view(out@) =~= Seq::<ComponentV>::empty());
        while i < n
            invariant
                n == s@.len(),
                start <= i <= n,
                split_state(s@, i as int).1 == s@.subrange(start as int, i as int),
                components_spec(split_state(s@, i as int).0) == Ok::<Seq<ComponentV>, ParseError>(
                    components_view(out@),
                ),
            decreases n - i,
        {
            let c = s.get_char(i);
            if c == '.' {
                let part = s.substring_char(start, i);
                let ghost before = out@;
                match PrcPathComponent::from_str(part) {
                    Ok(x) => {
                        out.push(x);
                        assert(components_view(out@) =~= components_view(before).push(x.view()));
                        assert(split_state(s@, i + 1).0.drop_last() == split_state(s@, i as int).0);
                    },
                    Err(e) => {
                        assert(split_state(s@, i + 1).0.drop_last() == split_state(s@, i as int).0);
                        proof {
                            lemma_path_err(s@, i + 1);
                        }
                        return Err(e);
                    },
                }
                start = i + 1;
                assert(split_state(s@, i + 1).1 =~= s@.subrange(start as int, i + 1));
            } else {
                assert(split_state(s@, i + 1).1 =~= s@.subrange(start as int, i + 1));
            }
            i = i + 1;
        }
        let part = s.substring_char(start, n);
        let ghost before = out@;
        let ghost parts = split_dots(s@);
        assert(parts.drop_last() == split_state(s@, n as int).0);
        match PrcPathComponent::from_str(part) {
            Ok(x) => {
                out.push(x);
                assert(components_view(out@) =~= components_view(before).push(x.view()));
                Ok(PrcPath(out))
            },
            Err(e) => Err(e),
        }
    }
}

/// How many times `c` occurs in `s`.
pub open spec fn count_char(s: Seq<char>, c: char) -> nat
    decreases s.len(),
{
    if s.len() == 0 {
        0
    } else {
        count_char(s.drop_last(), c) + if s.last() == c {
            1nat
        } else {
            0nat
        }
    }
}

/// Whether a `}` follows a `{` somewhere in `s`.
pub open spec fn closes(s: Seq<char>) -> bool {
    exists|i: int, j: int| 0 <= i < j < s.len() && s[i] == '{' && s[j] == '}'
}

/// A file name pattern holds at most one `{set}` placeholder, and a
/// placeholder is closed.
pub open spec fn pattern_spec(s: Seq<char>) -> Result<(), ParseError> {
    if count_char(s, '{') == 0 {
        Ok(())
    } else if count_char(s, '{') > 1 {
        Err(ParseError::InvalidRandlEntry("only one `{set}` placeholder per file name"))
    } else if closes(s) {
        Ok(())
    } else {
        Err(ParseError::InvalidRandlEntry("file name placeholder is missing its `}`"))
    }
}

/// Checks a file name pattern against `pattern_spec`.
pub fn check_pattern(s: &str) -> (r: Result<(), ParseError>)
    ensures
        r == pattern_spec(s@),
{
    let n = s.unicode_len();
    let mut opens: usize = 0;
    let mut closed = false;
    let mut i: usize = 0;
    while i < n
        invariant
            n == s@.len(),
            i <= n,
            opens == count_char(s@.take(i as int), '{'),
            opens <= i,
            closed == closes(s@.take(i as int)),
        decreases n - i,
    {
        let c = s.get_char(i);
        let ghost t = s@.take(i + 1);
        let ghost u = s@.take(i as int);
        assert(t.drop_last() =~= u);
        assert(t.last() == c);
        if c == '}' && opens > 0 && !closed {
            proof {
                lemma_count_pos(u);
                let a = choose|a: int| 0 <= a < u.len() && u[a] == '{';
                assert(t[a] == '{' && t[i as int] == '}');
            }
            closed = true;
        } else if !closed {
            assert forall|a: int, b: int| 0 <= a < b < t.len() && t[a] == '{' implies t[b] != '}' by {
                if b < i {
                    assert(u[a] == '{' && u[b] == t[b]);
                } else {
                    lemma_count_zero(u, a);
                }
            }
        } else {
            let ghost w = choose|a: int, b: int|
                0 <= a < b < u.len() && u[a] == '{' && u[b] == '}';
            assert(t[w.0] == '{' && t[w.1] == '}');
        }
        if c == '{' {
            opens = opens + 1;
        }
        i = i + 1;
    }
    assert(s@.take(n as int) =~= s@);
    if opens == 0 {
        Ok(())
    } else if opens > 1 {
        Err(ParseError::InvalidRandlEntry("only one `{set}` placeholder per file name"))
    } else if closed {
        Ok(())
    } else {
        Err(ParseError::InvalidRandlEntry("file name placeholder is missing its `}`"))
    }
}

/// A string that counts a `{` holds one.
proof fn lemma_count_pos(s: Seq<char>)
    requires
        count_char(s, '{') > 0,
    ensures
        exists|a: int| 0 <= a < s.len() && s[a] == '{',
    decreases s.len(),
{
    if s.last() != '{' {
        lemma_count_pos(s.drop_last());
        let a = choose|a: int| 0 <= a < s.drop_last().len() && s.drop_last()[a] == '{';
        assert(s[a] == '{');
    } else {
        assert(s[s.len() - 1] == '{');
    }
}

/// A string that holds a `{` counts one.
proof fn lemma_count_zero(s: Seq<char>, a: int)
    requires
        0 <= a < s.len(),
        s[a] == '{',
    ensures
        count_char(s, '{') > 0,
    decreases s.len(),
{
    if a < s.len() - 1 {
        lemma_count_zero(s.drop_last(), a);
    }
}

/// What an edit node stands for: its name is the path, its children the expression.
pub open spec fn edit_spec(n: Node) -> Result<EditV, ParseError> {
    match path_spec(n.name@) {
        Err(e) => Err(e),
        Ok(p) => match expr_spec(n.children@) {
            Err(e) => Err(e),
            Ok(x) => Ok((p, x)),
        },
    }
}

/// The edits of a list of edit nodes, or the first error among them.
pub open spec fn edits_spec(nodes: Seq<Node>) -> Result<Seq<EditV>, ParseError>
    decreases nodes.len(),
{
    if nodes.len() == 0 {
        Ok(Seq::empty())
    } else {
        match edits_spec(nodes.drop_last()) {
            Err(e) => Err(e),
            Ok(s) => match edit_spec(nodes.last()) {
                Err(e) => Err(e),
                Ok(x) => Ok(s.push(x)),
            },
        }
    }
}

/// What a `file` node stands for.
pub open spec fn entry_spec(n: Node) -> Result<EntryV, ParseError> {
    if n.values@.len() == 0 {
        Err(ParseError::InvalidRandlEntry("entries must contain a filename pattern"))
    } else if n.values@.len() == 1 {
        match n.values@[0] {
            NodeValue::String(name) => match pattern_spec(name@) {
                Err(e) => Err(e),
                Ok(_) => match edits_spec(n.children@) {
                    Err(e) => Err(e),
                    Ok(es) => Ok((name@, es)),
                },
            },
            _ => Err(ParseError::InvalidRandlEntry("filename must be string")),
        }
    } else {
        Err(ParseError::InvalidRandlEntry("only one file name per entry"))
    }
}

/// What a `set` node stands for: its name and its values.
pub open spec fn set_spec(n: Node) -> Result<(Seq<char>, Seq<Value>), ParseError> {
    if n.values@.len() == 0 {
        Err(ParseError::InvalidRandlEntry("sets must contain a name"))
    } else if n.values@.len() == 1 {
        match n.values@[0] {
            NodeValue::String(name) => match values_spec(n.children@) {
                Err(e) => Err(e),
                Ok(vs) => Ok((name@, vs)),
            },
            _ => Err(ParseError::InvalidRandlEntry("set name must be string")),
        }
    } else {
        Err(ParseError::InvalidRandlEntry("only one name per set"))
    }
}

/// The position of the set named `name`, if there is one.
pub open spec fn find_set(sets: SetsV, name: Seq<char>) -> Option<int>
    decreases sets.len(),
{
    if sets.len() == 0 {
        None
    } else {
        match find_set(sets.drop_last(), name) {
            Some(i) => Some(i),
            None => if sets.last().0 == name {
                Some(sets.len() - 1)
            } else {
                None
            },
        }
    }
}

/// The sets after defining `name`: a set of the same name is replaced.
pub open spec fn insert_set(sets: SetsV, name: Seq<char>, vals: Seq<Value>) -> SetsV {
    match find_set(sets, name) {
        Some(i) => sets.update(i, (name, vals)),
        None => sets.push((name, vals)),
    }
}

/// What a whole document stands for: its `set` and `file` nodes in order.
pub open spec fn file_spec(nodes: Seq<Node>) -> Result<FileV, ParseError>
    decreases nodes.len(),
{
    if nodes.len() == 0 {
        Ok(FileV { entries: Seq::empty(), sets: Seq::empty() })
    } else {
        match file_spec(nodes.drop_last()) {
            Err(e) => Err(e),
            Ok(f) => {
                let n = nodes.last();
                if n.name@ == "set"@ {
                    match set_spec(n) {
                        Ok(s) => Ok(FileV { entries: f.entries, sets: insert_set(f.sets, s.0, s.1) }),
                        Err(e) => Err(e),
                    }
                } else if n.name@ == "file"@ {
                    match entry_spec(n) {
                        Ok(e) => Ok(FileV { entries: f.entries.push(e), sets: f.sets }),
                        Err(e) => Err(e),
                    }
                } else {
                    Err(ParseError::InvalidRandlEntry("entries must be of type `file` or `set`"))
                }
            },
        }
    }
}

proof fn lemma_edits_prefix_err(nodes: Seq<Node>, k: int)
    requires
        0 <= k <= nodes.len(),
        edits_spec(nodes.take(k)) is Err,
    ensures
        edits_spec(nodes) == edits_spec(nodes.take(k)),
    decreases nodes.len() - k,
{
    if k < nodes.len() {
        assert(nodes.take(k + 1).drop_last() =~= nodes.take(k));
        lemma_edits_prefix_err(nodes, k + 1);
    } else {
        assert(nodes.take(k) =~= nodes);
    }
}

proof fn lemma_file_prefix_err(nodes: Seq<Node>, k: int)
    requires
        0 <= k <= nodes.len(),
        file_spec(nodes.take(k)) is Err,
    ensures
        file_spec(nodes) == file_spec(nodes.take(k)),
    decreases nodes.len() - k,
{
    if k < nodes.len() {
        assert(nodes.take(k + 1).drop_last() =~= nodes.take(k));
        lemma_file_prefix_err(nodes, k + 1);
    } else {
        assert(nodes.take(k) =~= nodes);
    }
}

impl PrcEntry {
    /// Reads an edit node.
    pub fn from_node(node: &Node) -> (r: Result<PrcEntry, ParseError>)
        ensures
            match r {
                Ok(x) => edit_spec(*node) == Ok::<EditV, ParseError>(x.view()),
                Err(e) => edit_spec(*node) == Err::<EditV, ParseError>(e),
            },
    {
        let path = match PrcPath::from_str(node.name.as_str()) {
            Ok(p) => p,
            Err(e) => return Err(e),
        };
        match Expr::from_nodes(&node.children) {
            Ok(expr) => Ok(PrcEntry { path, expr }),
            Err(e) => Err(e),
        }
    }
}

impl RandlEntry {
    /// Reads a `file` node: a name pattern and a list of edits.
    pub fn from_node(node: &Node) -> (r: Result<RandlEntry, ParseError>)
        ensures
            match r {
                Ok(x) => entry_spec(*node) == Ok::<EntryV, ParseError>(x.view()),
                Err(e) => entry_spec(*node) == Err::<EntryV, ParseError>(e),
            },
    {
        if node.values.len() == 0 {
            return Err(ParseError::InvalidRandlEntry("entries must contain a filename pattern"));
        }
        if node.values.len() > 1 {
            return Err(ParseError::InvalidRandlEntry("only one file name per entry"));
        }
        let name = match &node.values[0] {
            NodeValue::String(name) => name,
            _ => return Err(ParseError::InvalidRandlEntry("filename must be string")),
        };
        if let Err(e) = check_pattern(name.as_str()) {
            return Err(e);
        }
        let mut fields: Vec<PrcEntry> = Vec::new();
        let mut i: usize = 0;
        assert(edits_view(fields@) =~= Seq::<EditV>::empty());
        while i < node.children.len()
            invariant
                i <= node.children@.len(),
                node.values@.len() == 1,
                node.values@[0] == NodeValue::String(*name),
                pattern_spec(name@) is Ok,
                edits_spec(node.children@.take(i as int)) == Ok::<Seq<EditV>, ParseError>(
                    edits_view(fields@),
                ),
            decreases node.children@.len() - i,
        {
            assert(node.children@.take(i + 1).drop_last() =~= node.children@.take(i as int));
            let ghost before = fields@;
            match PrcEntry::from_node(&node.children[i]) {
                Ok(x) => {
                    fields.push(x);
                    assert(edits_view(fields@) =~= edits_view(before).push(x.view()));
                },
                Err(e) => {
                    assert(node.children@.take(i + 1).last() == node.children@[i as int]);
                    assert(edits_spec(node.children@.take(i + 1)) == Err::<Seq<EditV>, ParseError>(e));
                    proof {
                        lemma_edits_prefix_err(node.children@, i + 1);
                    }
                    return Err(e);
                },
            }
            i = i + 1;
        }
        assert(node.children@.take(i as int) =~= node.children@);
        Ok(RandlEntry { prc_name: name.clone(), prc_fields: fields })
    }
}

impl ValueSet {
    /// Reads a `set` node into its name and its values.
    pub fn from_node(node: &Node) -> (r: Result<(String, ValueSet), ParseError>)
        ensures
            match r {
                Ok(x) => set_spec(*node) == Ok::<(Seq<char>, Seq<Value>), ParseError>(
                    (x.0@, x.1.0@),
                ),
                Err(e) => set_spec(*node) == Err::<(Seq<char>, Seq<Value>), ParseError>(e),
            },
    {
        if node.values.len() == 0 {
            return Err(ParseError::InvalidRandlEntry("sets must contain a name"));
        }
        if node.values.len() > 1 {
            return Err(ParseError::InvalidRandlEntry("only one name per set"));
        }
        let name = match &node.values[0] {
            NodeValue::String(name) => name,
            _ => return Err(ParseError::InvalidRandlEntry("set name must be string")),
        };
        match values_from_nodes(&node.children) {
            Ok(vs) => Ok((name.clone(), ValueSet(vs))),
            Err(e) => Err(e),
        }
    }
}

/// The position of the set named `name`.
pub fn find_set_index(sets: &Vec<(String, ValueSet)>, name: &str) -> (r: Option<usize>)
    ensures
        r matches Some(i) ==> i < sets@.len(),
        match r {
            Some(i) => find_set(sets_view(sets@), name@) == Some(i as int),
            None => find_set(sets_view(sets@), name@) is None,
        },
{
    let mut i: usize = 0;
    while i < sets.len()
        invariant
            i <= sets@.len(),
            find_set(sets_view(sets@).take(i as int), name@) is None,
        decreases sets@.len() - i,
    {
        let ghost v = sets_view(sets@);
        assert(v.take(i + 1).drop_last() =~= v.take(i as int));
        if str_eq(sets[i].0.as_str(), name) {
            proof {
                lemma_find_set_prefix(v, name@, i + 1);
            }
            return Some(i);
        }
        i = i + 1;
    }
    assert(sets_view(sets@).take(i as int) =~= sets_view(sets@));
    None
}

/// A set found among the first `k` is found at the same place among all.
proof fn lemma_find_set_prefix(sets: SetsV, name: Seq<char>, k: int)
    requires
        0 <= k <= sets.len(),
        find_set(sets.take(k), name) is Some,
    ensures
        find_set(sets, name) == find_set(sets.take(k), name),
    decreases sets.len() - k,
{
    if k < sets.len() {
        assert(sets.take(k + 1).drop_last() =~= sets.take(k));
        lemma_find_set_prefix(sets, name, k + 1);
    } else {
        assert(sets.take(k) =~= sets);
    }
}

/// Whether no two sets have the same name.
pub open spec fn names_unique(sets: SetsV) -> bool {
    forall|i: int, j: int| 0 <= i < j < sets.len() ==> sets[i].0 != sets[j].0
}

proof fn lemma_find_set_facts(sets: SetsV, name: Seq<char>)
    ensures
        find_set(sets, name) matches Some(i) ==> 0 <= i < sets.len() && sets[i].0 == name,
        find_set(sets, name) is None ==> forall|i: int| 0 <= i < sets.len() ==> sets[i].0 != name,
    decreases sets.len(),
{
    if sets.len() > 0 {
        lemma_find_set_facts(sets.drop_last(), name);
        if find_set(sets.drop_last(), name) is None {
            assert forall|i: int| 0 <= i < sets.len() - 1 implies sets[i].0 != name by {
                assert(sets.drop_last()[i] == sets[i]);
            }
        } else {
            let i = find_set(sets.drop_last(), name)->Some_0;
            assert(sets.drop_last()[i] == sets[i]);
        }
    }
}

/// The sets of a document that reads without error have distinct names.
pub proof fn lemma_loaded_names_unique(nodes: Seq<Node>)
    ensures
        file_spec(nodes) matches Ok(f) ==> names_unique(f.sets),
    decreases nodes.len(),
{
    if nodes.len() > 0 {
        lemma_loaded_names_unique(nodes.drop_last());
        if let Ok(f) = file_spec(nodes.drop_last()) {
            if let Ok(s) = set_spec(nodes.last()) {
                lemma_find_set_facts(f.sets, s.0);
            }
        }
    }
}

/// Whether `r` is what reading the document `nodes` gives.
pub open spec fn loaded(nodes: Seq<Node>, r: Result<RandlFile, ParseError>) -> bool {
    match r {
        Ok(f) => document_spec(nodes) == Ok::<FileV, ParseError>(f.view()),
        Err(e) => document_spec(nodes) == Err::<FileV, ParseError>(e),
    }
}

/// The error of the first of the first `k` entries whose file name pattern
/// does not expand with the sets: a placeholder that names no set, or a set
/// value that is neither an integer nor a string.
pub open spec fn templates_spec(entries: Seq<EntryV>, sets: SetsV, k: int) -> Result<(), ParseError>
    decreases k,
{
    if k <= 0 || k > entries.len() {
        Ok(())
    } else {
        match templates_spec(entries, sets, k - 1) {
            Err(e) => Err(e),
            Ok(_) => match names_spec(entries[k - 1].0, sets) {
                Err(e) => Err(e),
                Ok(_) => Ok(()),
            },
        }
    }
}

/// What a whole document stands for, once its file name patterns are
/// checked against its sets.
pub open spec fn document_spec(nodes: Seq<Node>) -> Result<FileV, ParseError> {
    match file_spec(nodes) {
        Err(e) => Err(e),
        Ok(f) => match templates_spec(f.entries, f.sets, f.entries.len() as int) {
            Err(e) => Err(e),
            Ok(_) => Ok(f),
        },
    }
}

/// Whether every entry's file name pattern expands with the document's sets.
pub open spec fn templates_ok(f: RandlFile) -> bool {
    forall|k: int|
        0 <= k < f.entries@.len() ==> names_spec(
            (#[trigger] f.entries@[k]).prc_name@,
            sets_view(f.sets@),
        ) is Ok
}

proof fn lemma_templates_err(entries: Seq<EntryV>, sets: SetsV, k: int, j: int)
    requires
        0 <= k <= j <= entries.len(),
        templates_spec(entries, sets, k) is Err,
    ensures
        templates_spec(entries, sets, j) == templates_spec(entries, sets, k),
    decreases j - k,
{
    if k < j {
        lemma_templates_err(entries, sets, k, j - 1);
    }
}

impl RandlFile {
    /// Reads a document: `set` nodes define value sets (a later set replaces
    /// an earlier one of the same name), `file` nodes are entries, and any
    /// other node rejects the whole document.
    pub fn from_nodes(nodes: &Vec<Node>) -> (r: Result<RandlFile, ParseError>)
        ensures
            loaded(nodes@, r),
            r matches Ok(f) ==> names_unique(f.view().sets) && templates_ok(f),
    {
        let mut file = RandlFile { entries: Vec::new(), sets: Vec::new() };
        let mut i: usize = 0;
        assert(file.view().entries =~= Seq::<EntryV>::empty());
        assert(file.view().sets =~= Seq::<(Seq<char>, Seq<Value>)>::empty());
        while i < nodes.len()
            invariant
                i <= nodes@.len(),
                file_spec(nodes@.take(i as int)) == Ok::<FileV, ParseError>(file.view()),
            decreases nodes@.len() - i,
        {
            assert(nodes@.take(i + 1).drop_last() =~= nodes@.take(i as int));
            let node = &nodes[i];
            let ghost before = file.view();
            if node.is_named("set") {
                match ValueSet::from_node(node) {
                    Ok((name, set)) => {
                        match find_set_index(&file.sets, name.as_str()) {
                            Some(j) => {
                                file.sets.set(j, (name, set));
                            },
                            None => {
                                file.sets.push((name, set));
                            },
                        }
                        assert(file.view().sets =~= insert_set(before.sets, name@, set.0@));
                        assert(file.view().entries =~= before.entries);
                    },
                    Err(e) => {
                        proof {
                            lemma_file_prefix_err(nodes@, i + 1);
                        }
                        return Err(e);
                    },
                }
            } else if node.is_named("file") {
                match RandlEntry::from_node(node) {
                    Ok(entry) => {
                        file.entries.push(entry);
                        assert(file.view().entries =~= before.entries.push(entry.view()));
                        assert(file.view().sets =~= before.sets);
                    },
                    Err(e) => {
                        proof {
                            lemma_file_prefix_err(nodes@, i + 1);
                        }
                        return Err(e);
                    },
                }
            } else {
                proof {
                    lemma_file_prefix_err(nodes@, i + 1);
                }
                return Err(ParseError::InvalidRandlEntry("entries must be of type `file` or `set`"));
            }
            i = i + 1;
        }
        assert(nodes@.take(i as int) =~= nodes@);
        proof {
            lemma_loaded_names_unique(nodes@);
        }
        let ghost fv = file.view();
        let mut k: usize = 0;
        while k < file.entries.len()
            invariant
                fv == file.view(),
                file_spec(nodes@) == Ok::<FileV, ParseError>(fv),
                k <= fv.entries.len(),
                templates_spec(fv.entries, fv.sets, k as int) is Ok,
                forall|m: int| 0 <= m < k ==> names_spec(
                    (#[trigger] file.entries@[m]).prc_name@,
                    sets_view(file.sets@),
                ) is Ok,
            decreases fv.entries.len() - k,
        {
            assert(fv.entries[k as int] == file.entries@[k as int].view());
            if let Err(e) = file.entries[k].expand_names(&file.sets) {
                proof {
                    lemma_templates_err(fv.entries, fv.sets, k + 1, fv.entries.len() as int);
                }
                return Err(e);
            }
            k = k + 1;
        }
        Ok(file)
    }
}

} // verus!
