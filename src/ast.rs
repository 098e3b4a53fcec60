//! The typed form of a loaded document.
use vstd::prelude::*;

verus! {

/// A literal value, or the result of evaluating an expression.
#[derive(Debug)]
pub enum Value {
    Int(i64),
    /// The bit pattern of an `f64`.
    Float(u64),
    String(String),
    Bool(bool),
    Hash40(u64),
    /// Leave the target as it is.
    Original,
}

impl Value {
    /// A copy of this value.
    pub fn cloned(&self) -> (r: Value)
        ensures
            r == *self,
    {
        match self {
            Value::Int(i) => Value::Int(*i),
            Value::Float(f) => Value::Float(*f),
            Value::String(s) => Value::String(s.clone()),
            Value::Bool(b) => Value::Bool(*b),
            Value::Hash40(h) => Value::Hash40(*h),
            Value::Original => Value::Original,
        }
    }
}

/// A bound of a floating-point range: an integer bound is widened when the
/// range is drawn from.
#[derive(Debug, Clone, Copy, PartialEq, Eq, Structural)]
pub enum FloatBound {
    Int(i64),
    /// The bit pattern of an `f64`.
    Float(u64),
}

/// A half-open range `[from, to)`.
#[derive(Debug, Clone, Copy, PartialEq, Eq, Structural)]
pub enum Range {
    Int(i64, i64),
    Float(FloatBound, FloatBound),
}

/// An ordered pool of values to draw from.
#[derive(Debug)]
pub struct ValueSet(pub Vec<Value>);

/// What a `return` node yields.
#[derive(Debug)]
pub enum Return {
    Constant(Value),
    Range(Range),
    /// A draw from the named set of the document.
    SetRef(String),
    /// A draw from a set written in place.
    AnonymousSet(ValueSet),
}

/// One branch of a weighted choice.
#[derive(Debug)]
pub struct ChanceStmt {
    /// The branch's weight, in millionths of a percent.
    pub percent: i64,
    pub expr: Box<Expr>,
}

/// An expression that yields one value when evaluated.
#[derive(Debug)]
pub enum Expr {
    Random(Vec<ChanceStmt>),
    Return(Return),
    Original,
}

/// The mathematical form of a `Return`.
pub enum ReturnV {
    Constant(Value),
    Range(Range),
    SetRef(String),
    AnonymousSet(Seq<Value>),
}

/// The mathematical form of an `Expr`: a weighted choice is a sequence of
/// (weight, branch) pairs.
pub enum ExprV {
    Random(Seq<(i64, ExprV)>),
    Return(ReturnV),
    Original,
}

impl Return {
    pub open spec fn view(&self) -> ReturnV {
        match self {
            Return::Constant(v) => ReturnV::Constant(*v),
            Return::Range(r) => ReturnV::Range(*r),
            Return::SetRef(s) => ReturnV::SetRef(*s),
            Return::AnonymousSet(s) => ReturnV::AnonymousSet(s.0@),
        }
    }
}

impl Expr {
    pub open spec fn view(&self) -> ExprV
        decreases self,
    {
        match self {
            Expr::Random(cs) => ExprV::Random(
                Seq::new(
                    cs@.len(),
                    |i: int|
                        if 0 <= i < cs@.len() {
                            (cs@[i].percent, cs@[i].expr.view())
                        } else {
                            (0, ExprV::Original)
                        },
                ),
            ),
            Expr::Return(r) => ExprV::Return(r.view()),
            Expr::Original => ExprV::Original,
        }
    }
}

/// One step of a path into a parameter tree.
#[derive(Debug)]
pub enum PrcPathComponent {
    /// The struct field whose name hashes like this one.
    Field(String),
    /// The list element at this position.
    Index(usize),
    /// Every child of a struct or list.
    Wildcard,
}

/// The mathematical form of a path step.
pub enum ComponentV {
    Field(Seq<char>),
    Index(usize),
    Wildcard,
}

impl PrcPathComponent {
    pub open spec fn view(&self) -> ComponentV {
        match self {
            PrcPathComponent::Field(s) => ComponentV::Field(s@),
            PrcPathComponent::Index(i) => ComponentV::Index(*i),
            PrcPathComponent::Wildcard => ComponentV::Wildcard,
        }
    }
}

pub open spec fn components_view(cs: Seq<PrcPathComponent>) -> Seq<ComponentV> {
    Seq::new(cs.len(), |i: int| cs[i].view())
}

/// A path into a parameter tree, as written with dots in a document.
#[derive(Debug)]
pub struct PrcPath(pub Vec<PrcPathComponent>);

impl PrcPath {
    pub open spec fn view(&self) -> Seq<ComponentV> {
        components_view(self.0@)
    }

    /// The whole path as a slice whose front can be taken off step by step.
    pub fn as_ref(&self) -> (r: PrcPathSlice<'_>)
        ensures
            r.0@ == self.0@,
    {
        PrcPathSlice(self.0.as_slice())
    }
}

/// The part of a path that is still to be followed.
#[derive(Debug, Clone, Copy)]
pub struct PrcPathSlice<'a>(pub &'a [PrcPathComponent]);

impl<'a> PrcPathSlice<'a> {
    /// Takes the first step off the path, if there is one.
    pub fn pop_front(&mut self) -> (r: Option<&'a PrcPathComponent>)
        ensures
            old(self).0@.len() == 0 ==> r is None && final(self).0@ == old(self).0@,
            old(self).0@.len() > 0 ==> r == Some(&old(self).0@[0]) && final(self).0@
                == old(self).0@.drop_first(),
    {
        if self.0.len() == 0 {
            None
        } else {
            let ret = &self.0[0];
            self.0 = vstd::slice::slice_subrange(self.0, 1, self.0.len());
            assert(self.0@ =~= old(self).0@.drop_first());
            Some(ret)
        }
    }
}

/// One edit: the path it addresses and the expression it writes there.
#[derive(Debug)]
pub struct PrcEntry {
    pub path: PrcPath,
    pub expr: Expr,
}

/// The mathematical form of an edit.
pub type EditV = (Seq<ComponentV>, ExprV);

impl PrcEntry {
    pub open spec fn view(&self) -> EditV {
        (self.path.view(), self.expr.view())
    }
}

/// The edits to make to the files whose names match a pattern.
#[derive(Debug)]
pub struct RandlEntry {
    /// The file name, or a pattern with one `{set}` placeholder.
    pub prc_name: String,
    pub prc_fields: Vec<PrcEntry>,
}

pub open spec fn edits_view(es: Seq<PrcEntry>) -> Seq<EditV> {
    Seq::new(es.len(), |i: int| es[i].view())
}

/// The mathematical form of an entry: its name pattern and its edits.
pub type EntryV = (Seq<char>, Seq<EditV>);

impl RandlEntry {
    pub open spec fn view(&self) -> EntryV {
        (self.prc_name@, edits_view(self.prc_fields@))
    }
}

/// A loaded document: its named value sets and its entries.
#[derive(Debug)]
pub struct RandlFile {
    pub entries: Vec<RandlEntry>,
    /// Each name at most once.
    pub sets: Vec<(String, ValueSet)>,
}

/// The mathematical form of the named sets of a document.
pub type SetsV = Seq<(Seq<char>, Seq<Value>)>;

pub open spec fn sets_view(sets: Seq<(String, ValueSet)>) -> SetsV {
    Seq::new(sets.len(), |i: int| (sets[i].0@, sets[i].1.0@))
}

/// The mathematical form of a document.
pub struct FileV {
    pub entries: Seq<EntryV>,
    pub sets: SetsV,
}

impl RandlFile {
    pub open spec fn view(&self) -> FileV {
        FileV {
            entries: Seq::new(self.entries@.len(), |i: int| self.entries@[i].view()),
            sets: sets_view(self.sets@),
        }
    }
}

} // verus!
