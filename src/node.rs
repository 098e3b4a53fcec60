//! The generic node document that the parser reads: each node has a name,
//! positional values, named properties and child nodes.
use vstd::prelude::*;

verus! {

/// A floating-point literal of a document.
///
/// `bits` is the IEEE-754 bit pattern of the `f64`, kept so the value can be
/// stored unchanged; `millionths` is the value times one million, rounded,
/// which is what the library's own arithmetic (chance percentages) uses.
#[derive(Debug, Clone, Copy, PartialEq, Eq, Structural)]
pub struct FloatLit {
    pub bits: u64,
    pub millionths: i64,
}

/// A positional value or a property value of a node.
#[derive(Debug, Clone)]
pub enum NodeValue {
    Int(i64),
    Float(FloatLit),
    String(String),
    Boolean(bool),
    Null,
}

/// A node of a document.
#[derive(Debug)]
pub struct Node {
    pub name: String,
    pub values: Vec<NodeValue>,
    /// Named properties; a key that occurs twice is read at its first place.
    pub properties: Vec<(String, NodeValue)>,
    pub children: Vec<Node>,
}

/// The value of the first property named `key`, if there is one.
pub open spec fn prop_of(props: Seq<(String, NodeValue)>, key: Seq<char>) -> Option<NodeValue>
    decreases props.len(),
{
    if props.len() == 0 {
        None
    } else if props[0].0@ == key {
        Some(props[0].1)
    } else {
        prop_of(props.drop_first(), key)
    }
}

/// Whether two strings hold the same characters.
pub fn str_eq(a: &str, b: &str) -> (r: bool)
    ensures
        r == (a@ == b@),
{
    let n = a.unicode_len();
    if n != b.unicode_len() {
        return false;
    }
    let mut i: usize = 0;
    while i < n
        invariant
            n == a@.len(),
            n == b@.len(),
            i <= n,
            forall|j: int| 0 <= j < i ==> a@[j] == b@[j],
        decreases n - i,
    {
        if a.get_char(i) != b.get_char(i) {
            return false;
        }
        i = i + 1;
    }
    assert(a@ =~= b@);
    true
}

impl Node {
    /// Whether the node is named `s`.
    pub fn is_named(&self, s: &str) -> (r: bool)
        ensures
            r == (self.name@ == s@),
    {
        str_eq(self.name.as_str(), s)
    }

    /// The value of the property named `key`.
    pub fn property(&self, key: &str) -> (r: Option<&NodeValue>)
        ensures
            r matches Some(v) ==> prop_of(self.properties@, key@) == Some(*v),
            r is None ==> prop_of(self.properties@, key@) is None,
    {
        let mut i: usize = 0;
        assert(self.properties@.skip(0) =~= self.properties@);
        while i < self.properties.len()
            invariant
                i <= self.properties@.len(),
                prop_of(self.properties@, key@) == prop_of(self.properties@.skip(i as int), key@),
            decreases self.properties@.len() - i,
        {
            assert(self.properties@.skip(i as int).drop_first() =~= self.properties@.skip(i + 1));
            if str_eq(self.properties[i].0.as_str(), key) {
                return Some(&self.properties[i].1);
            }
            i = i + 1;
        }
        None
    }
}

} // verus!
