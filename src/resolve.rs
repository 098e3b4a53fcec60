//! Following a path into a parameter tree.
//!
//! A target is named by a locator: the positions of the children taken on
//! the way down from the root struct. Resolution only reads the tree; the
//! edits are made afterwards through the locators.
use vstd::prelude::*;

use crate::ast::{components_view, ComponentV, PrcPathComponent, PrcPathSlice};
use crate::error::{EvalError, EvalErrorV};
use crate::hashing::{hash40_of, hash_str};
use crate::param::{ParamKind, ParamStruct};

verus! {

/// The child nodes of a struct, in field order.
pub open spec fn struct_children(s: ParamStruct) -> Seq<ParamKind> {
    Seq::new(s.0@.len(), |i: int| s.0@[i].1)
}

/// The position of the first field whose key is `h`.
pub open spec fn find_field(fields: Seq<(u64, ParamKind)>, h: u64) -> Option<int>
    decreases fields.len(),
{
    if fields.len() == 0 {
        None
    } else {
        match find_field(fields.drop_last(), h) {
            Some(i) => Some(i),
            None => if fields.last().0 == h {
                Some(fields.len() - 1)
            } else {
                None
            },
        }
    }
}

/// Each locator with the child position `k` put in front.
pub open spec fn prefix_all(k: usize, locs: Seq<Seq<usize>>) -> Seq<Seq<usize>> {
    Seq::new(locs.len(), |i: int| seq![k] + locs[i])
}

/// The targets of `path` below a node.
pub open spec fn resolve_kind(node: ParamKind, path: Seq<ComponentV>) -> Result<
    Seq<Seq<usize>>,
    EvalErrorV,
>
    decreases path.len(), 0int, 1int,
{
    if path.len() == 0 {
        Ok(seq![Seq::empty()])
    } else {
        match path[0] {
            ComponentV::Field(name) => match node {
                ParamKind::Struct(s) => resolve_struct(s, path),
                _ => Err(EvalErrorV::MissingField(name)),
            },
            ComponentV::Index(i) => match node {
                ParamKind::List(l) => if i < l.0@.len() {
                    match resolve_kind(l.0@[i as int], path.drop_first()) {
                        Ok(locs) => Ok(prefix_all(i, locs)),
                        Err(e) => Err(e),
                    }
                } else {
                    Err(EvalErrorV::IndexOutOfBounds(i))
                },
                _ => Err(EvalErrorV::InvalidField("Cannot index into a non-list param")),
            },
            ComponentV::Wildcard => match node {
                ParamKind::Struct(s) => fan(
                    struct_children(s),
                    path.drop_first(),
                    s.0@.len() as int,
                ),
                ParamKind::List(l) => fan(l.0@, path.drop_first(), l.0@.len() as int),
                _ => Err(
                    EvalErrorV::InvalidField("A wildcard can only be applied to a struct or list"),
                ),
            },
        }
    }
}

/// The targets of `path` below a struct; a path may not end on the struct.
pub open spec fn resolve_struct(s: ParamStruct, path: Seq<ComponentV>) -> Result<
    Seq<Seq<usize>>,
    EvalErrorV,
>
    decreases path.len(), 0int, 0int,
{
    if path.len() == 0 {
        Err(EvalErrorV::InvalidField("Path pointed to a struct, edit one field at a time."))
    } else {
        match path[0] {
            ComponentV::Field(name) => match find_field(s.0@, hash40_of(name)) {
                Some(j) => match resolve_kind(s.0@[j].1, path.drop_first()) {
                    Ok(locs) => Ok(prefix_all(j as usize, locs)),
                    Err(e) => Err(e),
                },
                None => Err(EvalErrorV::MissingField(name)),
            },
            ComponentV::Index(_) => Err(
                EvalErrorV::MissingField("Cannot index into a `ParamStruct`"@),
            ),
            ComponentV::Wildcard => fan(struct_children(s), path.drop_first(), s.0@.len() as int),
        }
    }
}

/// The targets of `path` below each of the first `j` children, in child
/// order, or the first error among them.
pub open spec fn fan(children: Seq<ParamKind>, path: Seq<ComponentV>, j: int) -> Result<
    Seq<Seq<usize>>,
    EvalErrorV,
>
    decreases path.len(), 1int, j,
{
    if j <= 0 || j > children.len() {
        Ok(Seq::empty())
    } else {
        match fan(children, path, j - 1) {
            Err(e) => Err(e),
            Ok(a) => match resolve_kind(children[j - 1], path) {
                Err(e) => Err(e),
                Ok(b) => Ok(a + prefix_all((j - 1) as usize, b)),
            },
        }
    }
}

pub open spec fn locs_view(v: Seq<Vec<usize>>) -> Seq<Seq<usize>> {
    Seq::new(v.len(), |i: int| v[i]@)
}

pub open spec fn locs_result_view(r: Result<Vec<Vec<usize>>, EvalError>) -> Result<
    Seq<Seq<usize>>,
    EvalErrorV,
> {
    match r {
        Ok(v) => Ok(locs_view(v@)),
        Err(e) => Err(e@),
    }
}

proof fn lemma_fan_prefix_err(children: Seq<ParamKind>, path: Seq<ComponentV>, k: int, j: int)
    requires
        0 <= k <= j <= children.len(),
        fan(children, path, k) is Err,
    ensures
        fan(children, path, j) == fan(children, path, k),
    decreases j - k,
{
    if k < j {
        lemma_fan_prefix_err(children, path, k, j - 1);
    }
}

/// Appends each of `locs` with `k` put in front to `out`.
fn push_prefixed(out: &mut Vec<Vec<usize>>, k: usize, locs: Vec<Vec<usize>>)
    ensures
        locs_view(final(out)@) == locs_view(old(out)@) + prefix_all(k, locs_view(locs@)),
{
    let ghost start = locs_view(out@);
    let mut i: usize = 0;
    while i < locs.len()
        invariant
            i <= locs@.len(),
            locs_view(out@) == start + prefix_all(k, locs_view(locs@)).take(i as int),
        decreases locs@.len() - i,
    {
        let mut l: Vec<usize> = Vec::new();
        l.push(k);
        let mut m: usize = 0;
        while m < locs[i].len()
            invariant
                i < locs@.len(),
                m <= locs@[i as int]@.len(),
                l@ == seq![k] + locs@[i as int]@.take(m as int),
            decreases locs@[i as int]@.len() - m,
        {
            l.push(locs[i][m]);
            assert(locs@[i as int]@.take(m + 1) =~= locs@[i as int]@.take(m as int).push(
                locs@[i as int]@[m as int],
            ));
            assert(l@ =~= seq![k] + locs@[i as int]@.take(m + 1));
            m = m + 1;
        }
        assert(locs@[i as int]@.take(m as int) =~= locs@[i as int]@);
        let ghost before = out@;
        out.push(l);
        assert(locs_view(out@) =~= locs_view(before).push(l@));
        assert(prefix_all(k, locs_view(locs@)).take(i + 1) =~= prefix_all(
            k,
            locs_view(locs@),
        ).take(i as int).push(seq![k] + locs@[i as int]@));
        i = i + 1;
    }
    assert(prefix_all(k, locs_view(locs@)).take(i as int) =~= prefix_all(k, locs_view(locs@)));
}

/// The position of the field whose name hashes like `field`.
fn struct_lookup(param: &ParamStruct, field: &str) -> (r: Option<usize>)
    ensures
        match r {
            Some(j) => find_field(param.0@, hash40_of(field@)) == Some(j as int) && j
                < param.0@.len(),
            None => find_field(param.0@, hash40_of(field@)) is None,
        },
{
    let hash = hash_str(field);
    let mut i: usize = 0;
    while i < param.0.len()
        invariant
            i <= param.0@.len(),
            hash == hash40_of(field@),
            find_field(param.0@.take(i as int), hash) is None,
        decreases param.0@.len() - i,
    {
        assert(param.0@.take(i + 1).drop_last() =~= param.0@.take(i as int));
        if param.0[i].0 == hash {
            proof {
                lemma_find_field_prefix(param.0@, hash, i + 1);
            }
            return Some(i);
        }
        i = i + 1;
    }
    assert(param.0@.take(i as int) =~= param.0@);
    None
}

proof fn lemma_find_field_prefix(fields: Seq<(u64, ParamKind)>, h: u64, k: int)
    requires
        0 <= k <= fields.len(),
        find_field(fields.take(k), h) is Some,
    ensures
        find_field(fields, h) == find_field(fields.take(k), h),
    decreases fields.len() - k,
{
    if k < fields.len() {
        assert(fields.take(k + 1).drop_last() =~= fields.take(k));
        lemma_find_field_prefix(fields, h, k + 1);
    } else {
        assert(fields.take(k) =~= fields);
    }
}

/// The targets of a path below a node: a field continues into a struct's
/// field, an index into a list's element, and a wildcard into every child of
/// a struct or list; the node itself is the target of the empty path.
pub fn get_path_param_kind(param: &ParamKind, path: PrcPathSlice) -> (r: Result<
    Vec<Vec<usize>>,
    EvalError,
>)
    ensures
        locs_result_view(r) == resolve_kind(*param, components_view(path.0@)),
    decreases path.0@.len(), 0int, 1int,
{
    let ghost cv = components_view(path.0@);
    let old_path = path;
    let mut rest = path;
    match rest.pop_front() {
        None => {
            let mut out: Vec<Vec<usize>> = Vec::new();
            out.push(Vec::new());
            assert(locs_view(out@) =~= seq![Seq::<usize>::empty()]);
            Ok(out)
        },
        Some(PrcPathComponent::Field(field)) => match param {
            ParamKind::Struct(s) => get_path_struct(s, old_path),
            _ => Err(EvalError::MissingField(field.clone())),
        },
        Some(PrcPathComponent::Index(index)) => match param {
            ParamKind::List(l) => {
                let index = *index;
                if index < l.0.len() {
                    assert(components_view(rest.0@) =~= cv.drop_first());
                    match get_path_param_kind(&l.0[index], rest) {
                        Ok(locs) => {
                            let mut out: Vec<Vec<usize>> = Vec::new();
                            push_prefixed(&mut out, index, locs);
                            assert(locs_view(out@) =~= prefix_all(index, locs_view(locs@)));
                            Ok(out)
                        },
                        Err(e) => Err(e),
                    }
                } else {
                    Err(EvalError::IndexOutOfBounds(index))
                }
            },
            _ => Err(EvalError::InvalidField("Cannot index into a non-list param")),
        },
        Some(PrcPathComponent::Wildcard) => {
            assert(components_view(rest.0@) =~= cv.drop_first());
            match param {
                ParamKind::Struct(s) => {
                    let ghost ch = struct_children(*s);
                    let mut out: Vec<Vec<usize>> = Vec::new();
                    let mut j: usize = 0;
                    assert(locs_view(out@) =~= Seq::<Seq<usize>>::empty());
                    while j < s.0.len()
                        invariant
                            j <= s.0@.len(),
                            ch == struct_children(*s),
                            cv == components_view(path.0@),
                            cv.len() > 0,
                            cv[0] == ComponentV::Wildcard,
                            *param == ParamKind::Struct(*s),
                            components_view(rest.0@) == cv.drop_first(),
                            rest.0@.len() < path.0@.len(),
                            fan(ch, cv.drop_first(), j as int) == Ok::<
                                Seq<Seq<usize>>,
                                EvalErrorV,
                            >(locs_view(out@)),
                        decreases s.0@.len() - j,
                    {
                        match get_path_param_kind(&s.0[j].1, rest) {
                            Ok(locs) => push_prefixed(&mut out, j, locs),
                            Err(e) => {
                                proof {
                                    lemma_fan_prefix_err(
                                        ch,
                                        cv.drop_first(),
                                        j + 1,
                                        s.0@.len() as int,
                                    );
                                }
                                return Err(e);
                            },
                        }
                        j = j + 1;
                    }
                    Ok(out)
                },
                ParamKind::List(l) => {
                    let mut out: Vec<Vec<usize>> = Vec::new();
                    let mut j: usize = 0;
                    assert(locs_view(out@) =~= Seq::<Seq<usize>>::empty());
                    while j < l.0.len()
                        invariant
                            j <= l.0@.len(),
                            cv == components_view(path.0@),
                            cv.len() > 0,
                            cv[0] == ComponentV::Wildcard,
                            *param == ParamKind::List(*l),
                            components_view(rest.0@) == cv.drop_first(),
                            rest.0@.len() < path.0@.len(),
                            fan(l.0@, cv.drop_first(), j as int) == Ok::<
                                Seq<Seq<usize>>,
                                EvalErrorV,
                            >(locs_view(out@)),
                        decreases l.0@.len() - j,
                    {
                        match get_path_param_kind(&l.0[j], rest) {
                            Ok(locs) => push_prefixed(&mut out, j, locs),
                            Err(e) => {
                                proof {
                                    lemma_fan_prefix_err(
                                        l.0@,
                                        cv.drop_first(),
                                        j + 1,
                                        l.0@.len() as int,
                                    );
                                }
                                return Err(e);
                            },
                        }
                        j = j + 1;
                    }
                    Ok(out)
                },
                _ => Err(
                    EvalError::InvalidField("A wildcard can only be applied to a struct or list"),
                ),
            }
        },
    }
}

/// The targets of a path below a struct. The path must go into the struct:
/// the struct itself is no target.
pub fn get_path_struct(param: &ParamStruct, path: PrcPathSlice) -> (r: Result<
    Vec<Vec<usize>>,
    EvalError,
>)
    ensures
        locs_result_view(r) == resolve_struct(*param, components_view(path.0@)),
    decreases path.0@.len(), 0int, 0int,
{
    let ghost cv = components_view(path.0@);
    let mut rest = path;
    match rest.pop_front() {
        None => Err(EvalError::InvalidField("Path pointed to a struct, edit one field at a time.")),
        Some(PrcPathComponent::Field(field)) => {
            assert(components_view(rest.0@) =~= cv.drop_first());
            match struct_lookup(param, field.as_str()) {
                Some(j) => match get_path_param_kind(&param.0[j].1, rest) {
                    Ok(locs) => {
                        let mut out: Vec<Vec<usize>> = Vec::new();
                        push_prefixed(&mut out, j, locs);
                        assert(locs_view(out@) =~= prefix_all(j, locs_view(locs@)));
                        Ok(out)
                    },
                    Err(e) => Err(e),
                },
                None => Err(EvalError::MissingField(field.clone())),
            }
        },
        Some(PrcPathComponent::Index(_)) => Err(
            EvalError::MissingField("Cannot index into a `ParamStruct`".to_owned()),
        ),
        Some(PrcPathComponent::Wildcard) => {
            assert(components_view(rest.0@) =~= cv.drop_first());
            let ghost ch = struct_children(*param);
            let mut out: Vec<Vec<usize>> = Vec::new();
            let mut j: usize = 0;
            assert(locs_view(out@) =~= Seq::<Seq<usize>>::empty());
            while j < param.0.len()
                invariant
                    j <= param.0@.len(),
                    ch == struct_children(*param),
                    cv == components_view(path.0@),
                    cv.len() > 0,
                    cv[0] == ComponentV::Wildcard,
                    components_view(rest.0@) == cv.drop_first(),
                    rest.0@.len() < path.0@.len(),
                    fan(ch, cv.drop_first(), j as int) == Ok::<Seq<Seq<usize>>, EvalErrorV>(
                        locs_view(out@),
                    ),
                decreases param.0@.len() - j,
            {
                match get_path_param_kind(&param.0[j].1, rest) {
                    Ok(locs) => push_prefixed(&mut out, j, locs),
                    Err(e) => {
                        proof {
                            lemma_fan_prefix_err(ch, cv.drop_first(), j + 1, param.0@.len() as int);
                        }
                        return Err(e);
                    },
                }
                j = j + 1;
            }
            Ok(out)
        },
    }
}

/// Whether every list and struct of a tree is no longer than a `usize` can
/// count, as any tree held in memory is.
pub open spec fn fits(n: ParamKind) -> bool
    decreases n,
{
    match n {
        ParamKind::Struct(s) => s.0@.len() <= usize::MAX && forall|i: int|
            0 <= i < s.0@.len() ==> fits(#[trigger] s.0@[i].1),
        ParamKind::List(l) => l.0@.len() <= usize::MAX && forall|i: int|
            0 <= i < l.0@.len() ==> fits(#[trigger] l.0@[i]),
        _ => true,
    }
}

pub proof fn lemma_find_field_bound(fields: Seq<(u64, ParamKind)>, h: u64)
    ensures
        find_field(fields, h) matches Some(i) ==> 0 <= i < fields.len(),
    decreases fields.len(),
{
    if fields.len() > 0 {
        lemma_find_field_bound(fields.drop_last(), h);
    }
}

/// Establishes `fits` for a tree held in memory, by walking it.
pub fn tree_fits(node: &ParamKind)
    ensures
        fits(*node),
    decreases *node,
{
    match node {
        ParamKind::Struct(s) => {
            let mut i: usize = 0;
            while i < s.0.len()
                invariant
                    *node == ParamKind::Struct(*s),
                    i <= s.0@.len(),
                    forall|j: int| 0 <= j < i ==> fits(#[trigger] s.0@[j].1),
                decreases s.0@.len() - i,
            {
                proof {
                    let t = (*node)->Struct_0;
                    assert(decreases_to!(*node => t));
                    assert(decreases_to!(t => t.0));
                    assert(decreases_to!(t.0 => t.0@));
                    assert(decreases_to!(t.0@ => t.0@[i as int]));
                    assert(decreases_to!(t.0@[i as int] => t.0@[i as int].1));
                }
                tree_fits(&s.0[i].1);
                i = i + 1;
            }
        },
        ParamKind::List(l) => {
            let mut i: usize = 0;
            while i < l.0.len()
                invariant
                    *node == ParamKind::List(*l),
                    i <= l.0@.len(),
                    forall|j: int| 0 <= j < i ==> fits(#[trigger] l.0@[j]),
                decreases l.0@.len() - i,
            {
                proof {
                    let t = (*node)->List_0;
                    assert(decreases_to!(*node => t));
                    assert(decreases_to!(t => t.0));
                    assert(decreases_to!(t.0 => t.0@));
                    assert(decreases_to!(t.0@ => t.0@[i as int]));
                }
                tree_fits(&l.0[i]);
                i = i + 1;
            }
        },
        _ => {},
    }
}

/// Establishes `fits` for a struct held in memory.
pub fn tree_fits_struct(s: &ParamStruct)
    ensures
        fits(ParamKind::Struct(*s)),
{
    let mut i: usize = 0;
    while i < s.0.len()
        invariant
            i <= s.0@.len(),
            forall|j: int| 0 <= j < i ==> fits(#[trigger] s.0@[j].1),
        decreases s.0@.len() - i,
    {
        tree_fits(&s.0[i].1);
        i = i + 1;
    }
}

/// Whether the locators all have length `n` and are pairwise different.
pub open spec fn locs_ok(locs: Seq<Seq<usize>>, n: nat) -> bool {
    &&& forall|i: int| 0 <= i < locs.len() ==> (#[trigger] locs[i]).len() == n
    &&& forall|i: int, j: int| 0 <= i < j < locs.len() ==> locs[i] != locs[j]
}

proof fn lemma_prefix_all_ok(k: usize, locs: Seq<Seq<usize>>, n: nat)
    requires
        locs_ok(locs, n),
    ensures
        locs_ok(prefix_all(k, locs), n + 1),
        forall|i: int| 0 <= i < locs.len() ==> (#[trigger] prefix_all(k, locs)[i])[0] == k,
{
    let p = prefix_all(k, locs);
    assert forall|i: int, j: int| 0 <= i < j < p.len() implies p[i] != p[j] by {
        if p[i] == p[j] {
            assert(p[i].drop_first() =~= locs[i]);
            assert(p[j].drop_first() =~= locs[j]);
        }
    }
}

pub proof fn lemma_resolve_kind_ok(node: ParamKind, path: Seq<ComponentV>)
    requires
        fits(node),
    ensures
        resolve_kind(node, path) matches Ok(locs) ==> locs_ok(locs, path.len()),
    decreases path.len(), 0int, 1int,
{
    if path.len() > 0 {
        match path[0] {
            ComponentV::Field(_) => {
                if let ParamKind::Struct(s) = node {
                    lemma_resolve_struct_ok(s, path);
                }
            },
            ComponentV::Index(i) => {
                if let ParamKind::List(l) = node {
                    if i < l.0@.len() {
                        assert(fits(l.0@[i as int]));
                        lemma_resolve_kind_ok(l.0@[i as int], path.drop_first());
                        if let Ok(locs) = resolve_kind(l.0@[i as int], path.drop_first()) {
                            lemma_prefix_all_ok(i, locs, path.drop_first().len());
                        }
                    }
                }
            },
            ComponentV::Wildcard => {
                match node {
                    ParamKind::Struct(s) => {
                        assert forall|i: int| 0 <= i < s.0@.len() implies fits(
                            #[trigger] struct_children(s)[i],
                        ) by {
                            assert(fits(s.0@[i].1));
                        }
                        lemma_fan_ok(struct_children(s), path.drop_first(), s.0@.len() as int)
                    },
                    ParamKind::List(l) => lemma_fan_ok(l.0@, path.drop_first(), l.0@.len() as int),
                    _ => {},
                }
            },
        }
    } else {
        let locs = seq![Seq::<usize>::empty()];
        assert(locs_ok(locs, 0));
    }
}

pub proof fn lemma_resolve_struct_ok(s: ParamStruct, path: Seq<ComponentV>)
    requires
        fits(ParamKind::Struct(s)),
    ensures
        resolve_struct(s, path) matches Ok(locs) ==> locs_ok(locs, path.len()),
    decreases path.len(), 0int, 0int,
{
    if path.len() > 0 {
        match path[0] {
            ComponentV::Field(name) => {
                if let Some(j) = find_field(s.0@, hash40_of(name)) {
                    lemma_find_field_bound(s.0@, hash40_of(name));
                    assert(fits(s.0@[j].1));
                    lemma_resolve_kind_ok(s.0@[j].1, path.drop_first());
                    if let Ok(locs) = resolve_kind(s.0@[j].1, path.drop_first()) {
                        lemma_prefix_all_ok(j as usize, locs, path.drop_first().len());
                    }
                }
            },
            ComponentV::Index(_) => {},
            ComponentV::Wildcard => {
                assert forall|i: int| 0 <= i < s.0@.len() implies fits(
                    #[trigger] struct_children(s)[i],
                ) by {
                    assert(fits(s.0@[i].1));
                }
                lemma_fan_ok(struct_children(s), path.drop_first(), s.0@.len() as int)
            },
        }
    }
}

proof fn lemma_fan_ok(children: Seq<ParamKind>, path: Seq<ComponentV>, j: int)
    requires
        children.len() <= usize::MAX,
        forall|i: int| 0 <= i < children.len() ==> fits(#[trigger] children[i]),
    ensures
        fan(children, path, j) matches Ok(locs) ==> locs_ok(locs, path.len() + 1) && forall|i: int|
            0 <= i < locs.len() ==> (#[trigger] locs[i])[0] < j,
    decreases path.len(), 1int, j,
{
    if 0 < j <= children.len() {
        lemma_fan_ok(children, path, j - 1);
        lemma_resolve_kind_ok(children[j - 1], path);
        if let Ok(a) = fan(children, path, j - 1) {
            if let Ok(b) = resolve_kind(children[j - 1], path) {
                lemma_prefix_all_ok((j - 1) as usize, b, path.len());
                let p = prefix_all((j - 1) as usize, b);
                let all = a + p;
                assert forall|i: int| 0 <= i < all.len() implies (#[trigger] all[i])[0] < j by {
                    if i >= a.len() {
                        assert(all[i] == p[i - a.len()]);
                    }
                }
                assert forall|i: int, k: int| 0 <= i < k < all.len() implies all[i] != all[k] by {
                    if i < a.len() && k >= a.len() {
                        assert(all[k] == p[k - a.len()]);
                        assert(all[k][0] == j - 1);
                        assert(all[i][0] < j - 1);
                    } else if i >= a.len() {
                        assert(all[k] == p[k - a.len()]);
                        assert(all[i] == p[i - a.len()]);
                    }
                }
                assert forall|i: int| 0 <= i < all.len() implies (#[trigger] all[i]).len()
                    == path.len() + 1 by {
                    if i >= a.len() {
                        assert(all[i] == p[i - a.len()]);
                    }
                }
            }
        }
    }
}

} // verus!
