//! The file names that an entry applies to.
//!
//! A name pattern with a `{set}` placeholder stands for one name per value
//! of that set, the value written in the placeholder's place.
use vstd::prelude::*;

use crate::ast::{RandlEntry, SetsV, Value, ValueSet, sets_view};
use crate::error::ParseError;
use crate::hashing::{hash40_of, hash_str};
use crate::parser::{check_pattern, find_set, find_set_index, pattern_spec};

verus! {

pub open spec fn digit_char(d: nat) -> char {
    if d == 0 {
        '0'
    } else if d == 1 {
        '1'
    } else if d == 2 {
        '2'
    } else if d == 3 {
        '3'
    } else if d == 4 {
        '4'
    } else if d == 5 {
        '5'
    } else if d == 6 {
        '6'
    } else if d == 7 {
        '7'
    } else if d == 8 {
        '8'
    } else {
        '9'
    }
}

/// The decimal digits of `n`.
pub open spec fn nat_text(n: nat) -> Seq<char>
    decreases n,
{
    if n < 10 {
        seq![digit_char(n)]
    } else {
        nat_text(n / 10).push(digit_char(n % 10))
    }
}

/// The decimal form of `i`, with a leading `-` when it is negative.
pub open spec fn int_text(i: int) -> Seq<char> {
    if i < 0 {
        seq!['-'] + nat_text((-i) as nat)
    } else {
        nat_text(i as nat)
    }
}

/// The position of the first `c` in `s`.
pub open spec fn first_index(s: Seq<char>, c: char) -> Option<int>
    decreases s.len(),
{
    if s.len() == 0 {
        None
    } else {
        match first_index(s.drop_last(), c) {
            Some(i) => Some(i),
            None => if s.last() == c {
                Some(s.len() - 1)
            } else {
                None
            },
        }
    }
}

/// The names that `prefix`, each value and `suffix` make.
pub open spec fn expand_spec(prefix: Seq<char>, vals: Seq<Value>, suffix: Seq<char>) -> Result<
    Seq<Seq<char>>,
    ParseError,
>
    decreases vals.len(),
{
    if vals.len() == 0 {
        Ok(Seq::empty())
    } else {
        match expand_spec(prefix, vals.drop_last(), suffix) {
            Err(e) => Err(e),
            Ok(names) => match vals.last() {
                Value::Int(i) => Ok(names.push(prefix + int_text(i as int) + suffix)),
                Value::String(s) => Ok(names.push(prefix + s@ + suffix)),
                _ => Err(
                    ParseError::InvalidRandlEntry("only integers and strings may fill a file name"),
                ),
            },
        }
    }
}

/// The file names that a pattern stands for, given the document's sets: a
/// pattern that is not valid (see `pattern_spec`) gives its error.
pub open spec fn names_spec(pattern: Seq<char>, sets: SetsV) -> Result<Seq<Seq<char>>, ParseError> {
    match pattern_spec(pattern) {
        Err(e) => Err(e),
        Ok(_) => match first_index(pattern, '{') {
            None => Ok(seq![pattern]),
            Some(a) => match first_index(pattern.skip(a + 1), '}') {
                None => Err(
                    ParseError::InvalidRandlEntry("file name placeholder is missing its `}`"),
                ),
                Some(b) => match find_set(sets, pattern.subrange(a + 1, a + 1 + b)) {
                    None => Err(
                        ParseError::InvalidRandlEntry("file name placeholder names no set"),
                    ),
                    Some(k) => expand_spec(pattern.take(a), sets[k].1, pattern.skip(a + 2 + b)),
                },
            },
        },
    }
}

fn digit_str(d: u64) -> (r: &'static str)
    requires
        d < 10,
    ensures
        r@ == seq![digit_char(d as nat)],
{
    proof {
        reveal_strlit("0");
        reveal_strlit("1");
        reveal_strlit("2");
        reveal_strlit("3");
        reveal_strlit("4");
        reveal_strlit("5");
        reveal_strlit("6");
        reveal_strlit("7");
        reveal_strlit("8");
        reveal_strlit("9");
    }
    let r = if d == 0 {
        "0"
    } else if d == 1 {
        "1"
    } else if d == 2 {
        "2"
    } else if d == 3 {
        "3"
    } else if d == 4 {
        "4"
    } else if d == 5 {
        "5"
    } else if d == 6 {
        "6"
    } else if d == 7 {
        "7"
    } else if d == 8 {
        "8"
    } else {
        "9"
    };
    assert(r@ =~= seq![digit_char(d as nat)]);
    r
}

fn nat_string(n: u64) -> (r: String)
    ensures
        r@ == nat_text(n as nat),
    decreases n,
{
    if n < 10 {
        let r = String::new().concat(digit_str(n));
        assert(r@ =~= nat_text(n as nat));
        r
    } else {
        let r = nat_string(n / 10).concat(digit_str(n % 10));
        assert(r@ =~= nat_text(n as nat));
        r
    }
}

/// The decimal form of an integer.
pub fn int_string(i: i64) -> (r: String)
    ensures
        r@ == int_text(i as int),
{
    if i < 0 {
        let m: u64 = if i == i64::MIN {
            0x8000_0000_0000_0000
        } else {
            (-i) as u64
        };
        proof {
            reveal_strlit("-");
        }
        let r = String::new().concat("-").concat(nat_string(m).as_str());
        assert(r@ =~= int_text(i as int));
        r
    } else {
        nat_string(i as u64)
    }
}

fn find_char(s: &str, c: char, from: usize) -> (r: Option<usize>)
    requires
        from <= s@.len(),
    ensures
        r matches Some(i) ==> from <= i < s@.len(),
        match first_index(s@.skip(from as int), c) {
            Some(i) => r matches Some(j) && j == from + i,
            None => r is None,
        },
{
    let n = s.unicode_len();
    let ghost t = s@.skip(from as int);
    let mut i: usize = from;
    while i < n
        invariant
            n == s@.len(),
            from <= i <= n,
            t == s@.skip(from as int),
            first_index(t.take(i - from), c) is None,
        decreases n - i,
    {
        assert(t.take(i - from + 1).drop_last() =~= t.take(i - from));
        if s.get_char(i) == c {
            proof {
                lemma_first_prefix(t, c, i - from + 1);
            }
            return Some(i);
        }
        i = i + 1;
    }
    assert(t.take(i - from) =~= t);
    None
}

proof fn lemma_first_prefix(s: Seq<char>, c: char, k: int)
    requires
        0 <= k <= s.len(),
        first_index(s.take(k), c) is Some,
    ensures
        first_index(s, c) == first_index(s.take(k), c),
    decreases s.len() - k,
{
    if k < s.len() {
        assert(s.take(k + 1).drop_last() =~= s.take(k));
        lemma_first_prefix(s, c, k + 1);
    } else {
        assert(s.take(k) =~= s);
    }
}

proof fn lemma_expand_prefix_err(p: Seq<char>, vals: Seq<Value>, q: Seq<char>, k: int)
    requires
        0 <= k <= vals.len(),
        expand_spec(p, vals.take(k), q) is Err,
    ensures
        expand_spec(p, vals, q) == expand_spec(p, vals.take(k), q),
    decreases vals.len() - k,
{
    if k < vals.len() {
        assert(vals.take(k + 1).drop_last() =~= vals.take(k));
        lemma_expand_prefix_err(p, vals, q, k + 1);
    } else {
        assert(vals.take(k) =~= vals);
    }
}

pub open spec fn names_view(v: Seq<String>) -> Seq<Seq<char>> {
    Seq::new(v.len(), |i: int| v[i]@)
}

impl RandlEntry {
    /// The file names that the entry applies to: its pattern itself, or one
    /// name per value of the set that its placeholder names.
    pub fn target_names(&self, sets: &Vec<(String, ValueSet)>) -> (r: Vec<String>)
        requires
            names_spec(self.prc_name@, sets_view(sets@)) is Ok,
        ensures
            names_spec(self.prc_name@, sets_view(sets@)) == Ok::<Seq<Seq<char>>, ParseError>(
                names_view(r@),
            ),
    {
        match self.expand_names(sets) {
            Ok(v) => v,
            Err(_) => Vec::new(),
        }
    }

    /// The file names that the entry applies to, or the error that its
    /// pattern gives with these sets.
    pub fn expand_names(&self, sets: &Vec<(String, ValueSet)>) -> (r: Result<Vec<String>, ParseError>)
        ensures
            match r {
                Ok(v) => names_spec(self.prc_name@, sets_view(sets@)) == Ok::<
                    Seq<Seq<char>>,
                    ParseError,
                >(names_view(v@)),
                Err(e) => names_spec(self.prc_name@, sets_view(sets@)) == Err::<
                    Seq<Seq<char>>,
                    ParseError,
                >(e),
            },
    {
        let pattern = self.prc_name.as_str();
        if let Err(e) = check_pattern(pattern) {
            return Err(e);
        }
        let n = pattern.unicode_len();
        assert(pattern@.skip(0) =~= pattern@);
        let a = match find_char(pattern, '{', 0) {
            None => {
                let mut out: Vec<String> = Vec::new();
                out.push(self.prc_name.clone());
                assert(pattern@.skip(0) =~= pattern@);
                assert(names_view(out@) =~= seq![self.prc_name@]);
                return Ok(out);
            },
            Some(a) => a,
        };
        assert(first_index(pattern@, '{') == Some(a as int));
        let close = match find_char(pattern, '}', a + 1) {
            None => {
                return Err(
                    ParseError::InvalidRandlEntry("file name placeholder is missing its `}`"),
                )
            },
            Some(b) => b,
        };
        assert(first_index(pattern@.skip(a + 1), '}') == Some(close - (a + 1)));
        let prefix = pattern.substring_char(0, a);
        let name = pattern.substring_char(a + 1, close);
        let suffix = pattern.substring_char(close + 1, n);
        let ghost b = close - (a + 1);
        assert(prefix@ =~= pattern@.take(a as int));
        assert(name@ =~= pattern@.subrange(a + 1, a + 1 + b));
        assert(suffix@ =~= pattern@.skip(a + 2 + b));
        let k = match find_set_index(sets, name) {
            None => {
                return Err(ParseError::InvalidRandlEntry("file name placeholder names no set"))
            },
            Some(k) => k,
        };
        let vals = &sets[k].1.0;
        assert(sets_view(sets@)[k as int].1 == vals@);
        assert(names_spec(self.prc_name@, sets_view(sets@)) == expand_spec(prefix@, vals@, suffix@));
        let mut out: Vec<String> = Vec::new();
        let mut i: usize = 0;
        assert(names_view(out@) =~= Seq::<Seq<char>>::empty());
        while i < vals.len()
            invariant
                i <= vals@.len(),
                names_spec(self.prc_name@, sets_view(sets@)) == expand_spec(prefix@, vals@, suffix@),
                expand_spec(prefix@, vals@.take(i as int), suffix@) == Ok::<
                    Seq<Seq<char>>,
                    ParseError,
                >(names_view(out@)),
            decreases vals@.len() - i,
        {
            assert(vals@.take(i + 1).drop_last() =~= vals@.take(i as int));
            let middle = match &vals[i] {
                Value::Int(x) => int_string(*x),
                Value::String(s) => s.clone(),
                _ => {
                    proof {
                        lemma_expand_prefix_err(prefix@, vals@, suffix@, i + 1);
                    }
                    return Err(
                        ParseError::InvalidRandlEntry(
                            "only integers and strings may fill a file name",
                        ),
                    );
                },
            };
            let empty = String::new();
            let ghost e = empty@;
            let full = empty.concat(prefix).concat(middle.as_str()).concat(suffix);
            let ghost before = out@;
            out.push(full);
            assert(names_view(out@) =~= names_view(before).push(prefix@ + middle@ + suffix@));
            assert(e + prefix@ + middle@ + suffix@ =~= prefix@ + middle@ + suffix@);
            i = i + 1;
        }
        assert(vals@.take(i as int) =~= vals@);
        Ok(out)
    }

    /// The hashes of the file names that the entry applies to, which a host
    /// matches against the files it loads.
    pub fn target_hashes(&self, sets: &Vec<(String, ValueSet)>) -> (r: Vec<u64>)
        requires
            names_spec(self.prc_name@, sets_view(sets@)) is Ok,
        ensures
            r@ == names_spec(self.prc_name@, sets_view(sets@))->Ok_0.map_values(
                |s: Seq<char>| hash40_of(s),
            ),
    {
        let names = self.target_names(sets);
        let mut out: Vec<u64> = Vec::new();
        let mut i: usize = 0;
        while i < names.len()
            invariant
                i <= names@.len(),
                out@ == names_view(names@).take(i as int).map_values(|s: Seq<char>| hash40_of(s)),
            decreases names@.len() - i,
        {
            out.push(hash_str(names[i].as_str()));
            assert(out@ =~= names_view(names@).take(i + 1).map_values(|s: Seq<char>| hash40_of(s)));
            i = i + 1;
        }
        assert(names_view(names@).take(i as int) =~= names_view(names@));
        out
    }
}

} // verus!
