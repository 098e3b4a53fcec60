//! The routes from file-name hashes to the entries that apply to them,
//! built once from all loaded documents for a host to dispatch on.
use vstd::prelude::*;

use crate::ast::{sets_view, RandlFile};
use crate::error::ParseError;
use crate::hashing::hash40_of;
use crate::parser::templates_ok;
use crate::template::names_spec;

verus! {

broadcast use vstd::std_specs::hash::group_hash_axioms;

/// A route: the hash of a file name, the document, and the entry within it.
pub type Route = (u64, usize, usize);

/// The routes of entry `e` of document `f`: one per file name it applies to.
pub open spec fn entry_routes(file: RandlFile, f: usize, e: int) -> Result<Seq<Route>, ParseError> {
    match names_spec(file.entries@[e].prc_name@, sets_view(file.sets@)) {
        Ok(names) => Ok(names.map_values(|n: Seq<char>| (hash40_of(n), f, e as usize))),
        Err(x) => Err(x),
    }
}

/// The routes of the first `k` entries of document `f`, or the first error.
pub open spec fn file_routes(file: RandlFile, f: usize, k: int) -> Result<Seq<Route>, ParseError>
    decreases k,
{
    if k <= 0 || k > file.entries@.len() {
        Ok(Seq::empty())
    } else {
        match file_routes(file, f, k - 1) {
            Err(x) => Err(x),
            Ok(a) => match entry_routes(file, f, k - 1) {
                Err(x) => Err(x),
                Ok(b) => Ok(a + b),
            },
        }
    }
}

/// The routes of the first `k` documents, or the first error.
pub open spec fn all_routes(files: Seq<RandlFile>, k: int) -> Result<Seq<Route>, ParseError>
    decreases k,
{
    if k <= 0 || k > files.len() {
        Ok(Seq::empty())
    } else {
        match all_routes(files, k - 1) {
            Err(x) => Err(x),
            Ok(a) => match file_routes(files[k - 1], (k - 1) as usize, files[k - 1].entries@.len() as int) {
                Err(x) => Err(x),
                Ok(b) => Ok(a + b),
            },
        }
    }
}

/// The routes as a map from hash to document and entry: a later route for
/// a hash takes over from an earlier one.
pub open spec fn routes_map(routes: Seq<Route>) -> Map<u64, (usize, usize)>
    decreases routes.len(),
{
    if routes.len() == 0 {
        Map::empty()
    } else {
        routes_map(routes.drop_last()).insert(routes.last().0, (routes.last().1, routes.last().2))
    }
}

/// Which entry of which document applies to each file-name hash.
#[derive(Debug)]
pub struct Registry {
    pub routes: std::collections::HashMap<u64, (usize, usize)>,
}

impl Registry {
    /// Builds the routes of every entry of every document, in order; a later
    /// route for the same hash takes over from an earlier one.
    pub fn build(files: &Vec<RandlFile>) -> (r: Registry)
        requires
            forall|f: int| 0 <= f < files@.len() ==> templates_ok(#[trigger] files@[f]),
        ensures
            all_routes(files@, files@.len() as int) matches Ok(routes) && r.routes@ == routes_map(
                routes,
            ),
    {
        let mut routes: Vec<Route> = Vec::new();
        let mut f: usize = 0;
        while f < files.len()
            invariant
                f <= files@.len(),
                forall|g: int| 0 <= g < files@.len() ==> templates_ok(#[trigger] files@[g]),
                all_routes(files@, f as int) == Ok::<Seq<Route>, ParseError>(routes@),
            decreases files@.len() - f,
        {
            let file = &files[f];
            let ghost before = routes@;
            assert(templates_ok(files@[f as int]));
            let mut e: usize = 0;
            while e < file.entries.len()
                invariant
                    f < files@.len(),
                    *file == files@[f as int],
                    templates_ok(*file),
                    e <= file.entries@.len(),
                    all_routes(files@, f as int) == Ok::<Seq<Route>, ParseError>(before),
                    file_routes(*file, f, e as int) matches Ok(a) && routes@ == before + a,
                decreases file.entries@.len() - e,
            {
                let ghost mid = routes@;
                assert(names_spec(file.entries@[e as int].prc_name@, sets_view(file.sets@)) is Ok);
                let hashes = file.entries[e].target_hashes(&file.sets);
                let ghost names = names_spec(file.entries@[e as int].prc_name@, sets_view(file.sets@))->Ok_0;
                let mut k: usize = 0;
                while k < hashes.len()
                    invariant
                        e < file.entries@.len(),
                        hashes@ == names.map_values(|n: Seq<char>| hash40_of(n)),
                        k <= hashes@.len(),
                        routes@ == mid + names.map_values(
                            |n: Seq<char>| (hash40_of(n), f, e),
                        ).take(k as int),
                    decreases hashes@.len() - k,
                {
                    routes.push((hashes[k], f, e));
                    assert(names.map_values(|n: Seq<char>| (hash40_of(n), f, e)).take(k + 1)
                        =~= names.map_values(|n: Seq<char>| (hash40_of(n), f, e)).take(
                        k as int,
                    ).push((hashes@[k as int], f, e)));
                    assert(routes@ =~= mid + names.map_values(
                        |n: Seq<char>| (hash40_of(n), f, e),
                    ).take(k + 1));
                    k = k + 1;
                }
                assert(names.map_values(|n: Seq<char>| (hash40_of(n), f, e)).take(k as int)
                    =~= names.map_values(|n: Seq<char>| (hash40_of(n), f, e)));
                assert(entry_routes(*file, f, e as int) == Ok::<Seq<Route>, ParseError>(
                    names.map_values(|n: Seq<char>| (hash40_of(n), f, e)),
                ));
                assert(routes@ =~= before + file_routes(*file, f, e + 1)->Ok_0);
                e = e + 1;
            }
            assert(routes@ =~= before + file_routes(*file, f, file.entries@.len() as int)->Ok_0);
            f = f + 1;
        }
        assert(routes@ =~= all_routes(files@, files@.len() as int)->Ok_0);
        let mut map: std::collections::HashMap<u64, (usize, usize)> = std::collections::HashMap::new();
        let mut i: usize = 0;
        while i < routes.len()
            invariant
                i <= routes@.len(),
                map@ == routes_map(routes@.take(i as int)),
            decreases routes@.len() - i,
        {
            assert(routes@.take(i + 1).drop_last() =~= routes@.take(i as int));
            let route = routes[i];
            map.insert(route.0, (route.1, route.2));
            i = i + 1;
        }
        assert(routes@.take(i as int) =~= routes@);
        Registry { routes: map }
    }

    /// The document and entry that apply to a file-name hash, if any.
    pub fn find(&self, hash: u64) -> (r: Option<(usize, usize)>)
        ensures
            self.routes@.contains_key(hash) ==> r == Some(self.routes@[hash]),
            !self.routes@.contains_key(hash) ==> r is None,
    {
        match self.routes.get(&hash) {
            Some(v) => Some(*v),
            None => None,
        }
    }
}

} // verus!
