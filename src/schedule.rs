//! Scheduling: which recipes a build applies, in which order, with which
//! parameter values.

use vstd::prelude::*;

use crate::layers::Architecture;
use crate::library::Library;
use crate::recipes::{ParameterDef, RecipeIdx};
use crate::table::{table_get, table_position};

verus! {

/// The part of a project's configuration that decides what a build applies.
pub struct BakeryConfig {
    pub architecture: Architecture,
    /// Default recipes that are not applied.
    pub exclude: Vec<String>,
    /// Recipes that are applied in any case.
    pub recipes: Vec<String>,
    /// Parameter values by recipe name; a later entry for a recipe replaces
    /// an earlier one.
    pub parameters: Vec<(String, Vec<(String, String)>)>,
}

/// A recipe to apply, with a value for each of its parameters, in the order
/// the recipe declares them.
pub struct RecipeJob {
    pub recipe: RecipeIdx,
    pub parameters: Vec<(String, String)>,
}

/// Why no schedule could be made.
#[derive(Debug)]
pub enum ScheduleError {
    /// A recipe name that does not resolve.
    RecipeNotFound(String),
    /// A configured parameter that the recipe does not declare.
    UnknownParameter { parameter: String, recipe: String },
    /// A declared parameter with neither a configured value nor a default.
    MissingParameter { parameter: String, recipe: String },
}

/// Recipe `i` names recipe `j` among its dependencies.
pub open spec fn depends_on(lib: Library, i: RecipeIdx, j: RecipeIdx) -> bool {
    let r = lib.recipes@[i.0 as int];
    exists|k: int|
        0 <= k < r.info.dependencies@.len() && lib.spec_lookup(r.repository, #[trigger] r.info.dependencies@[k]@) == Some(j)
}

/// Every dependency of a member of `s` is in `s`.
pub open spec fn closed(lib: Library, s: Set<RecipeIdx>) -> bool {
    forall|i: RecipeIdx, j: RecipeIdx| #[trigger] s.contains(i) && #[trigger] depends_on(lib, i, j) ==> s.contains(j)
}

/// `name` resolves against the root repository to `i`.
pub open spec fn names(lib: Library, name: String, i: RecipeIdx) -> bool {
    lib.spec_lookup(lib.repositories.root_repository, name@) == Some(i)
}

/// Recipe `i` is named in `exclude`.
pub open spec fn excluded(lib: Library, config: BakeryConfig, i: RecipeIdx) -> bool {
    exists|k: int| 0 <= k < config.exclude@.len() && names(lib, #[trigger] config.exclude@[k], i)
}

/// Recipe `i` is applied by itself: it is a default recipe that is not
/// excluded, or it is named in `recipes`.
pub open spec fn seed(lib: Library, config: BakeryConfig, i: RecipeIdx) -> bool {
    ||| (i.0 < lib.recipes@.len() && lib.recipes@[i.0 as int].info.default && !excluded(lib, config, i))
    ||| exists|k: int| 0 <= k < config.recipes@.len() && names(lib, #[trigger] config.recipes@[k], i)
}

/// Recipe `i` is reachable from `seeds` through dependencies: every set
/// that holds the seeds and is closed under dependencies holds `i`.
pub open spec fn in_closure_of(lib: Library, seeds: Set<RecipeIdx>, i: RecipeIdx) -> bool {
    forall|s: Set<RecipeIdx>| seeds.subset_of(s) && closed(lib, s) ==> #[trigger] s.contains(i)
}

pub open spec fn seed_set(lib: Library, config: BakeryConfig) -> Set<RecipeIdx> {
    Set::new(|j: RecipeIdx| seed(lib, config, j))
}

/// Recipe `i` is applied by itself or needed by a recipe that is applied.
pub open spec fn in_closure(lib: Library, config: BakeryConfig, i: RecipeIdx) -> bool {
    in_closure_of(lib, seed_set(lib, config), i)
}

/// Every dependency name of recipe `i` resolves, to a recipe in `vis`.
pub open spec fn deps_within(lib: Library, vis: Seq<RecipeIdx>, i: RecipeIdx) -> bool {
    let r = lib.recipes@[i.0 as int];
    forall|k: int|
        0 <= k < r.info.dependencies@.len() ==> (lib.spec_lookup(r.repository, #[trigger] r.info.dependencies@[k]@) matches Some(j) && vis.contains(j))
}

/// Recipe `i` names `n` among its dependencies, and `n` does not resolve.
pub open spec fn dependency_unresolved(lib: Library, i: RecipeIdx, n: Seq<char>) -> bool {
    let r = lib.recipes@[i.0 as int];
    &&& i.0 < lib.recipes@.len()
    &&& exists|k: int| 0 <= k < r.info.dependencies@.len() && #[trigger] r.info.dependencies@[k]@ == n
    &&& lib.spec_lookup(r.repository, n) is None
}

/// A recipe reachable from `seeds` names `n` as a dependency, and `n` does
/// not resolve.
pub open spec fn unresolved_in_closure(lib: Library, seeds: Set<RecipeIdx>, n: Seq<char>) -> bool {
    exists|i: RecipeIdx| in_closure_of(lib, seeds, i) && #[trigger] dependency_unresolved(lib, i, n)
}

/// The recipes that `s` holds.
pub open spec fn seq_set(s: Seq<RecipeIdx>) -> Set<RecipeIdx> {
    Set::new(|x: RecipeIdx| s.contains(x))
}

/// Distinct recipe indices below `n` are at most `n`.
proof fn lemma_distinct_bounded(s: Seq<RecipeIdx>, n: nat)
    requires
        s.no_duplicates(),
        forall|a: int| 0 <= a < s.len() ==> (#[trigger] s[a]).0 < n,
    ensures
        s.len() <= n,
{
    let t = s.map_values(|r: RecipeIdx| r.0 as int);
    assert(t.no_duplicates()) by {
        assert forall|a: int, b: int| 0 <= a < t.len() && 0 <= b < t.len() && a != b implies t[a] != t[b] by {
            assert(s[a] != s[b]);
        }
    }
    t.unique_seq_to_set();
    vstd::set_lib::lemma_int_range(0, n as int);
    assert(t.to_set().subset_of(vstd::set_lib::set_int_range(0, n as int))) by {
        assert forall|x: int| t.to_set().contains(x) implies vstd::set_lib::set_int_range(0, n as int).contains(x) by {
            let a = choose|a: int| 0 <= a < t.len() && t[a] == x;
            assert(s[a].0 < n);
        }
    }
    vstd::set_lib::lemma_len_subset(t.to_set(), vstd::set_lib::set_int_range(0, n as int));
}

/// The parameter values configured for recipe `i` among `ps`: the latest
/// entry whose name resolves to `i`.
pub open spec fn configured_in(lib: Library, ps: Seq<(String, Vec<(String, String)>)>, i: RecipeIdx) -> Option<Seq<(String, String)>>
    decreases ps.len(),
{
    if ps.len() == 0 {
        None
    } else if names(lib, ps.last().0, i) {
        Some(ps.last().1@)
    } else {
        configured_in(lib, ps.drop_last(), i)
    }
}

pub open spec fn configured(lib: Library, config: BakeryConfig, i: RecipeIdx) -> Option<Seq<(String, String)>> {
    configured_in(lib, config.parameters@, i)
}

/// The value of the declared parameter `name`: the configured one, else the
/// declared default.
pub open spec fn param_value(conf: Option<Seq<(String, String)>>, name: Seq<char>, def: ParameterDef) -> Option<Seq<char>> {
    match conf {
        Some(c) if table_get(c, name) is Some => Some(table_get(c, name)->Some_0@),
        _ => match def.default {
            Some(d) => Some(d@),
            None => None,
        },
    }
}

/// Recipe `i` declares a parameter named `name`.
pub open spec fn declares(lib: Library, i: RecipeIdx, name: Seq<char>) -> bool {
    table_get(lib.recipes@[i.0 as int].info.parameters@, name) is Some
}

/// Parameter `p` is configured for recipe `i`, which does not declare it.
pub open spec fn unknown_param(lib: Library, config: BakeryConfig, i: RecipeIdx, p: Seq<char>) -> bool {
    &&& configured(lib, config, i) is Some
    &&& exists|k: int|
        0 <= k < configured(lib, config, i)->Some_0.len() && #[trigger] configured(lib, config, i)->Some_0[k].0@ == p
    &&& !declares(lib, i, p)
}

/// Recipe `i` declares parameter `p` and `p` has no value.
pub open spec fn missing_param(lib: Library, config: BakeryConfig, i: RecipeIdx, p: Seq<char>) -> bool {
    let decl = lib.recipes@[i.0 as int].info.parameters@;
    exists|k: int|
        0 <= k < decl.len() && #[trigger] decl[k].0@ == p && param_value(configured(lib, config, i), p, decl[k].1) is None
}

/// `job` holds, for each parameter that its recipe declares, its value, and
/// every parameter configured for the recipe is declared.
pub open spec fn job_resolved(lib: Library, config: BakeryConfig, job: RecipeJob) -> bool {
    let decl = lib.recipes@[job.recipe.0 as int].info.parameters@;
    let conf = configured(lib, config, job.recipe);
    &&& conf matches Some(c) ==> forall|k: int| 0 <= k < c.len() ==> declares(lib, job.recipe, (#[trigger] c[k]).0@)
    &&& job.parameters@.len() == decl.len()
    &&& forall|k: int| 0 <= k < decl.len() ==> {
        &&& (#[trigger] job.parameters@[k]).0@ == decl[k].0@
        &&& param_value(conf, decl[k].0@, decl[k].1) == Some(job.parameters@[k].1@)
    }
}

/// Resolves each name against the root repository.
fn resolve_names(lib: &Library, names_in: &Vec<String>) -> (r: Result<Vec<RecipeIdx>, ScheduleError>)
    requires
        lib.wf(),
    ensures
        match r {
            Ok(v) => {
                &&& v@.len() == names_in@.len()
                &&& forall|k: int| 0 <= k < v@.len() ==> names(*lib, names_in@[k], #[trigger] v@[k]) && v@[k].0 < lib.recipes@.len()
            },
            Err(ScheduleError::RecipeNotFound(n)) => exists|k: int|
                0 <= k < names_in@.len() && #[trigger] names_in@[k]@ == n@ && lib.spec_lookup(
                    lib.repositories.root_repository,
                    n@,
                ) is None,
            Err(_) => false,
        },
{
    let mut v: Vec<RecipeIdx> = Vec::new();
    let mut k: usize = 0;
    while k < names_in.len()
        invariant
            lib.wf(),
            k <= names_in@.len(),
            v@.len() == k,
            forall|j: int| 0 <= j < v@.len() ==> names(*lib, names_in@[j], #[trigger] v@[j]) && v@[j].0 < lib.recipes@.len(),
        decreases names_in@.len() - k,
    {
        match lib.lookup(lib.repositories.root_repository, names_in[k].as_str()) {
            Some(i) => {
                v.push(i);
            },
            None => {
                let n = names_in[k].clone();
                assert(names_in@[k as int]@ == n@);
                return Err(ScheduleError::RecipeNotFound(n));
            },
        }
        k = k + 1;
    }
    Ok(v)
}

/// Whether `v` holds `x`.
fn contains_idx(v: &Vec<RecipeIdx>, x: RecipeIdx) -> (r: bool)
    ensures
        r == v@.contains(x),
{
    let mut k: usize = 0;
    while k < v.len()
        invariant
            k <= v@.len(),
            forall|j: int| 0 <= j < k ==> v@[j] != x,
        decreases v@.len() - k,
    {
        if v[k] == x {
            return true;
        }
        k = k + 1;
    }
    false
}

/// The recipes that a build applies by themselves: the default recipes that
/// are not excluded, and the ones named in `recipes`.
fn seed_recipes(lib: &Library, config: &BakeryConfig) -> (r: Result<Vec<RecipeIdx>, ScheduleError>)
    requires
        lib.wf(),
    ensures
        match r {
            Ok(v) => {
                &&& forall|i: RecipeIdx| seed(*lib, *config, i) <==> v@.contains(i)
                &&& forall|k: int| 0 <= k < v@.len() ==> (#[trigger] v@[k]).0 < lib.recipes@.len()
                &&& forall|k: int| 0 <= k < config.exclude@.len() ==> lib.spec_lookup(lib.repositories.root_repository, (#[trigger] config.exclude@[k])@) is Some
                &&& forall|k: int| 0 <= k < config.recipes@.len() ==> lib.spec_lookup(lib.repositories.root_repository, (#[trigger] config.recipes@[k])@) is Some
            },
            Err(ScheduleError::RecipeNotFound(n)) => lib.spec_lookup(lib.repositories.root_repository, n@) is None && (
                (exists|k: int| 0 <= k < config.exclude@.len() && #[trigger] config.exclude@[k]@ == n@)
                || (exists|k: int| 0 <= k < config.recipes@.len() && #[trigger] config.recipes@[k]@ == n@)),
            Err(_) => false,
        },
{
    let excluded_idx = match resolve_names(lib, &config.exclude) {
        Ok(v) => v,
        Err(e) => {
            return Err(e);
        },
    };
    let explicit = match resolve_names(lib, &config.recipes) {
        Ok(v) => v,
        Err(e) => {
            return Err(e);
        },
    };
    proof {
        assert forall|i: RecipeIdx| excluded(*lib, *config, i) <==> excluded_idx@.contains(i) by {
            if excluded(*lib, *config, i) {
                let k = choose|k: int| 0 <= k < config.exclude@.len() && names(*lib, #[trigger] config.exclude@[k], i);
                assert(names(*lib, config.exclude@[k], excluded_idx@[k]));
                assert(excluded_idx@[k] == i);
            }
            if excluded_idx@.contains(i) {
                let k = choose|k: int| 0 <= k < excluded_idx@.len() && excluded_idx@[k] == i;
                assert(names(*lib, config.exclude@[k], excluded_idx@[k]));
            }
        }
    }
    let mut v: Vec<RecipeIdx> = Vec::new();
    let mut i: usize = 0;
    while i < lib.recipes.len()
        invariant
            lib.wf(),
            i <= lib.recipes@.len(),
            forall|j: RecipeIdx| v@.contains(j) <==> (j.0 < i && lib.recipes@[j.0 as int].info.default && !excluded(*lib, *config, j)),
            forall|k: int| 0 <= k < v@.len() ==> (#[trigger] v@[k]).0 < lib.recipes@.len(),
            forall|j: RecipeIdx| excluded(*lib, *config, j) <==> excluded_idx@.contains(j),
        decreases lib.recipes@.len() - i,
    {
        let idx = RecipeIdx(i);
        let ghost before = v@;
        let pick = lib.recipes[i].info.default && !contains_idx(&excluded_idx, idx);
        if pick {
            v.push(idx);
        }
        proof {
            assert forall|j: RecipeIdx| v@.contains(j) <==> (j.0 < i + 1 && lib.recipes@[j.0 as int].info.default && !excluded(*lib, *config, j)) by {
                if pick {
                    assert(v@ == before.push(idx));
                    if before.contains(j) {
                        let m = choose|m: int| 0 <= m < before.len() && before[m] == j;
                        assert(v@[m] == j);
                    }
                    if j == idx {
                        assert(v@[before.len() as int] == j);
                    }
                    if v@.contains(j) && j != idx {
                        let m = choose|m: int| 0 <= m < v@.len() && v@[m] == j;
                        assert(before[m] == j);
                    }
                } else {
                    assert(v@ == before);
                }
            }
        }
        i = i + 1;
    }
    let ghost defaults = v@;
    let mut k: usize = 0;
    while k < explicit.len()
        invariant
            k <= explicit@.len(),
            explicit@.len() == config.recipes@.len(),
            v@ == defaults + explicit@.subrange(0, k as int),
        decreases explicit@.len() - k,
    {
        v.push(explicit[k]);
        assert(v@ =~= defaults + explicit@.subrange(0, k + 1));
        k = k + 1;
    }
    proof {
        assert(explicit@.subrange(0, k as int) =~= explicit@);
        assert forall|i: RecipeIdx| seed(*lib, *config, i) <==> v@.contains(i) by {
            if exists|k: int| 0 <= k < config.recipes@.len() && names(*lib, #[trigger] config.recipes@[k], i) {
                let k = choose|k: int| 0 <= k < config.recipes@.len() && names(*lib, #[trigger] config.recipes@[k], i);
                assert(names(*lib, config.recipes@[k], explicit@[k]));
                assert(v@[defaults.len() + k] == i);
            }
            if v@.contains(i) {
                let m = choose|m: int| 0 <= m < v@.len() && v@[m] == i;
                if m >= defaults.len() {
                    assert(names(*lib, config.recipes@[m - defaults.len()], explicit@[m - defaults.len()]));
                } else {
                    assert(defaults.contains(i));
                }
            }
            if i.0 < lib.recipes@.len() && lib.recipes@[i.0 as int].info.default && !excluded(*lib, *config, i) {
                assert(defaults.contains(i));
                let m = choose|m: int| 0 <= m < defaults.len() && defaults[m] == i;
                assert(v@[m] == i);
            }
        }
        assert forall|k: int| 0 <= k < config.exclude@.len() implies lib.spec_lookup(lib.repositories.root_repository, (#[trigger] config.exclude@[k])@) is Some by {
            assert(names(*lib, config.exclude@[k], excluded_idx@[k]));
        }
        assert forall|k: int| 0 <= k < config.recipes@.len() implies lib.spec_lookup(lib.repositories.root_repository, (#[trigger] config.recipes@[k])@) is Some by {
            assert(names(*lib, config.recipes@[k], explicit@[k]));
        }
    }
    Ok(v)
}

/// The recipes reachable from `seeds` through dependencies, each once.
fn dependency_closure(lib: &Library, seeds: &Vec<RecipeIdx>) -> (r: Result<Vec<RecipeIdx>, ScheduleError>)
    requires
        lib.wf(),
        forall|k: int| 0 <= k < seeds@.len() ==> (#[trigger] seeds@[k]).0 < lib.recipes@.len(),
    ensures
        match r {
            Ok(v) => {
                &&& v@.no_duplicates()
                &&& forall|a: int| 0 <= a < v@.len() ==> (#[trigger] v@[a]).0 < lib.recipes@.len()
                &&& forall|a: int| 0 <= a < v@.len() ==> in_closure_of(*lib, seq_set(seeds@), #[trigger] v@[a])
                &&& forall|k: int| 0 <= k < seeds@.len() ==> v@.contains(#[trigger] seeds@[k])
                &&& forall|a: int| 0 <= a < v@.len() ==> deps_within(*lib, v@, #[trigger] v@[a])
            },
            Err(ScheduleError::RecipeNotFound(n)) => unresolved_in_closure(*lib, seq_set(seeds@), n@),
            Err(_) => false,
        },
{
    let n = lib.recipes.len();
    let mut marked: Vec<bool> = Vec::new();
    while marked.len() < n
        invariant
            marked@.len() <= n,
            forall|i: int| 0 <= i < marked@.len() ==> !#[trigger] marked@[i],
        decreases n - marked@.len(),
    {
        marked.push(false);
    }
    let mut visited: Vec<RecipeIdx> = Vec::new();
    let mut stack: Vec<RecipeIdx> = Vec::new();
    let mut k: usize = 0;
    while k < seeds.len()
        invariant
            lib.wf(),
            n == lib.recipes@.len(),
            k <= seeds@.len(),
            forall|q: int| 0 <= q < seeds@.len() ==> (#[trigger] seeds@[q]).0 < n,
            marked@.len() == n,
            forall|i: int| 0 <= i < n ==> (#[trigger] marked@[i] <==> visited@.contains(RecipeIdx(i as usize))),
            forall|a: int| 0 <= a < visited@.len() ==> (#[trigger] visited@[a]).0 < n,
            visited@.no_duplicates(),
            stack@ == visited@,
            forall|a: int| 0 <= a < visited@.len() ==> in_closure_of(*lib, seq_set(seeds@), #[trigger] visited@[a]),
            forall|q: int| 0 <= q < k ==> visited@.contains(#[trigger] seeds@[q]),
        decreases seeds@.len() - k,
    {
        let sd = seeds[k];
        assert(seeds@[k as int] == sd);
        assert(seq_set(seeds@).contains(sd));
        if !marked[sd.0] {
            let ghost before = visited@;
            marked.set(sd.0, true);
            visited.push(sd);
            stack.push(sd);
            proof {
                assert(visited@ == before.push(sd));
                assert forall|x: RecipeIdx| before.contains(x) implies visited@.contains(x) by {
                    let m = choose|m: int| 0 <= m < before.len() && before[m] == x;
                    assert(visited@[m] == x);
                }
                assert(visited@[before.len() as int] == sd);
                assert forall|i: int| 0 <= i < n implies (#[trigger] marked@[i] <==> visited@.contains(RecipeIdx(i as usize))) by {
                    if visited@.contains(RecipeIdx(i as usize)) && RecipeIdx(i as usize) != sd {
                        let m = choose|m: int| 0 <= m < visited@.len() && visited@[m] == RecipeIdx(i as usize);
                        assert(before[m] == RecipeIdx(i as usize));
                    }
                }
            }
        } else {
            assert(visited@.contains(RecipeIdx(sd.0)));
        }
        k = k + 1;
    }
    while stack.len() > 0
        invariant
            lib.wf(),
            n == lib.recipes@.len(),
            marked@.len() == n,
            forall|i: int| 0 <= i < n ==> (#[trigger] marked@[i] <==> visited@.contains(RecipeIdx(i as usize))),
            forall|a: int| 0 <= a < visited@.len() ==> (#[trigger] visited@[a]).0 < n,
            visited@.no_duplicates(),
            stack@.no_duplicates(),
            forall|a: int| 0 <= a < stack@.len() ==> visited@.contains(#[trigger] stack@[a]),
            forall|a: int| 0 <= a < visited@.len() ==> in_closure_of(*lib, seq_set(seeds@), #[trigger] visited@[a]),
            forall|q: int| 0 <= q < seeds@.len() ==> visited@.contains(#[trigger] seeds@[q]),
            forall|a: int| 0 <= a < visited@.len() && !stack@.contains(visited@[a]) ==> deps_within(*lib, visited@, #[trigger] visited@[a]),
        decreases n - visited@.len(), stack@.len(),
    {
        proof {
            lemma_distinct_bounded(visited@, n as nat);
        }
        let ghost v0 = visited@;
        let ghost s0 = stack@;
        let idx = stack.pop().unwrap();
        assert(stack@ == s0.drop_last());
        assert(!stack@.contains(idx)) by {
            if stack@.contains(idx) {
                let m = choose|m: int| 0 <= m < stack@.len() && stack@[m] == idx;
                assert(s0[m] == s0[s0.len() - 1]);
            }
        }
        assert(visited@.contains(s0[s0.len() - 1]));
        let ghost ia = choose|a: int| 0 <= a < visited@.len() && visited@[a] == idx;
        assert(in_closure_of(*lib, seq_set(seeds@), visited@[ia]));
        assert forall|a: int| 0 <= a < visited@.len() && !stack@.contains(visited@[a]) && visited@[a] != idx implies deps_within(*lib, visited@, #[trigger] visited@[a]) by {
            if s0.contains(visited@[a]) {
                let m = choose|m: int| 0 <= m < s0.len() && s0[m] == visited@[a];
                if m < s0.len() - 1 {
                    assert(stack@[m] == visited@[a]);
                }
            }
        }
        let recipe = &lib.recipes[idx.0];
        let mut k: usize = 0;
        while k < recipe.info.dependencies.len()
            invariant
                lib.wf(),
                n == lib.recipes@.len(),
                *recipe == lib.recipes@[idx.0 as int],
                k <= recipe.info.dependencies@.len(),
                marked@.len() == n,
                forall|i: int| 0 <= i < n ==> (#[trigger] marked@[i] <==> visited@.contains(RecipeIdx(i as usize))),
                forall|a: int| 0 <= a < visited@.len() ==> (#[trigger] visited@[a]).0 < n,
                visited@.no_duplicates(),
                stack@.no_duplicates(),
                forall|a: int| 0 <= a < stack@.len() ==> visited@.contains(#[trigger] stack@[a]),
                forall|a: int| 0 <= a < visited@.len() ==> in_closure_of(*lib, seq_set(seeds@), #[trigger] visited@[a]),
                forall|q: int| 0 <= q < seeds@.len() ==> visited@.contains(#[trigger] seeds@[q]),
                forall|a: int| 0 <= a < visited@.len() && !stack@.contains(visited@[a]) && visited@[a] != idx ==> deps_within(*lib, visited@, #[trigger] visited@[a]),
                visited@.contains(idx),
                !stack@.contains(idx),
                in_closure_of(*lib, seq_set(seeds@), idx),
                idx.0 < n,
                forall|q: int| 0 <= q < k ==> (lib.spec_lookup(recipe.repository, #[trigger] recipe.info.dependencies@[q]@) matches Some(j) && visited@.contains(j)),
                visited@.len() > v0.len() || stack@ == s0.drop_last(),
                visited@.len() >= v0.len(),
            decreases recipe.info.dependencies@.len() - k,
        {
            match lib.lookup(recipe.repository, recipe.info.dependencies[k].as_str()) {
                None => {
                    let name = recipe.info.dependencies[k].clone();
                    assert(dependency_unresolved(*lib, idx, name@));
                    assert(in_closure_of(*lib, seq_set(seeds@), idx));
                    assert(unresolved_in_closure(*lib, seq_set(seeds@), name@));
                    return Err(ScheduleError::RecipeNotFound(name));
                },
                Some(j) => {
                    assert(depends_on(*lib, idx, j));
                    if !marked[j.0] {
                        let ghost before = visited@;
                        let ghost sbefore = stack@;
                        marked.set(j.0, true);
                        visited.push(j);
                        stack.push(j);
                        proof {
                            assert(visited@ == before.push(j));
                            assert(!before.contains(j));
                            assert forall|x: RecipeIdx| before.contains(x) implies visited@.contains(x) by {
                                let m = choose|m: int| 0 <= m < before.len() && before[m] == x;
                                assert(visited@[m] == x);
                            }
                            assert(visited@[before.len() as int] == j);
                            assert forall|i: int| 0 <= i < n implies (#[trigger] marked@[i] <==> visited@.contains(RecipeIdx(i as usize))) by {
                                if visited@.contains(RecipeIdx(i as usize)) && RecipeIdx(i as usize) != j {
                                    let m = choose|m: int| 0 <= m < visited@.len() && visited@[m] == RecipeIdx(i as usize);
                                    assert(before[m] == RecipeIdx(i as usize));
                                }
                            }
                            assert(in_closure_of(*lib, seq_set(seeds@), j)) by {
                                assert forall|s: Set<RecipeIdx>| seq_set(seeds@).subset_of(s) && closed(*lib, s) implies #[trigger] s.contains(j) by {
                                    assert(s.contains(idx));
                                }
                            }
                            assert(stack@ == sbefore.push(j));
                            assert forall|x: RecipeIdx| sbefore.contains(x) implies stack@.contains(x) by {
                                let m = choose|m: int| 0 <= m < sbefore.len() && sbefore[m] == x;
                                assert(stack@[m] == x);
                            }
                            assert(!sbefore.contains(j));
                            assert forall|a: int| 0 <= a < visited@.len() && !stack@.contains(visited@[a]) && visited@[a] != idx implies deps_within(*lib, visited@, #[trigger] visited@[a]) by {
                                if a < before.len() {
                                    assert(visited@[a] == before[a]);
                                    assert(!sbefore.contains(before[a]));
                                    assert(deps_within(*lib, before, before[a]));
                                } else {
                                    assert(stack@[sbefore.len() as int] == j);
                                }
                            }
                            assert(!stack@.contains(idx)) by {
                                if stack@.contains(idx) {
                                    let m = choose|m: int| 0 <= m < stack@.len() && stack@[m] == idx;
                                    if m < sbefore.len() {
                                        assert(sbefore[m] == idx);
                                    }
                                }
                            }
                        }
                    } else {
                        assert(visited@.contains(RecipeIdx(j.0)));
                    }
                },
            }
            k = k + 1;
        }
        proof {
            assert(deps_within(*lib, visited@, idx));
            lemma_distinct_bounded(visited@, n as nat);
        }
    }
    proof {
        assert forall|a: int| 0 <= a < visited@.len() implies deps_within(*lib, visited@, #[trigger] visited@[a]) by {
            assert(!stack@.contains(visited@[a]));
        }
    }
    Ok(visited)
}

/// Resolves the recipe names that parameter values are configured for.
fn resolve_parameter_recipes(lib: &Library, config: &BakeryConfig) -> (r: Result<Vec<RecipeIdx>, ScheduleError>)
    requires
        lib.wf(),
    ensures
        match r {
            Ok(v) => {
                &&& v@.len() == config.parameters@.len()
                &&& forall|k: int| 0 <= k < v@.len() ==> names(*lib, config.parameters@[k].0, #[trigger] v@[k])
            },
            Err(ScheduleError::RecipeNotFound(n)) => lib.spec_lookup(lib.repositories.root_repository, n@) is None
                && exists|k: int| 0 <= k < config.parameters@.len() && #[trigger] config.parameters@[k].0@ == n@,
            Err(_) => false,
        },
{
    let mut v: Vec<RecipeIdx> = Vec::new();
    let mut k: usize = 0;
    while k < config.parameters.len()
        invariant
            lib.wf(),
            k <= config.parameters@.len(),
            v@.len() == k,
            forall|j: int| 0 <= j < v@.len() ==> names(*lib, config.parameters@[j].0, #[trigger] v@[j]),
        decreases config.parameters@.len() - k,
    {
        match lib.lookup(lib.repositories.root_repository, config.parameters[k].0.as_str()) {
            Some(i) => {
                v.push(i);
            },
            None => {
                let n = config.parameters[k].0.clone();
                assert(config.parameters@[k as int].0@ == n@);
                return Err(ScheduleError::RecipeNotFound(n));
            },
        }
        k = k + 1;
    }
    Ok(v)
}

/// The position in `config.parameters` of the values configured for `idx`.
fn configured_index(lib: &Library, config: &BakeryConfig, param_recipes: &Vec<RecipeIdx>, idx: RecipeIdx) -> (r: Option<usize>)
    requires
        param_recipes@.len() == config.parameters@.len(),
        forall|k: int| 0 <= k < param_recipes@.len() ==> names(*lib, config.parameters@[k].0, #[trigger] param_recipes@[k]),
    ensures
        match r {
            Some(k) => k < config.parameters@.len() && configured(*lib, *config, idx) == Some(config.parameters@[k as int].1@),
            None => configured(*lib, *config, idx) is None,
        },
{
    let ghost ps = config.parameters@;
    let mut i: usize = param_recipes.len();
    assert(ps.subrange(0, i as int) =~= ps);
    while i > 0
        invariant
            i <= ps.len(),
            ps == config.parameters@,
            param_recipes@.len() == ps.len(),
            forall|k: int| 0 <= k < param_recipes@.len() ==> names(*lib, config.parameters@[k].0, #[trigger] param_recipes@[k]),
            configured(*lib, *config, idx) == configured_in(*lib, ps.subrange(0, i as int), idx),
        decreases i,
    {
        let ghost prefix = ps.subrange(0, i as int);
        assert(prefix.drop_last() =~= ps.subrange(0, i - 1));
        assert(names(*lib, ps[i - 1].0, param_recipes@[i - 1]));
        if param_recipes[i - 1] == idx {
            return Some(i - 1);
        }
        i = i - 1;
    }
    assert(ps.subrange(0, 0) =~= Seq::<(String, Vec<(String, String)>)>::empty());
    None
}

/// The job for recipe `idx`, with `conf` the values configured for it.
fn resolve_job(lib: &Library, config: &BakeryConfig, conf: Option<&Vec<(String, String)>>, idx: RecipeIdx) -> (r: Result<RecipeJob, ScheduleError>)
    requires
        lib.wf(),
        idx.0 < lib.recipes@.len(),
        match conf {
            Some(c) => configured(*lib, *config, idx) == Some(c@),
            None => configured(*lib, *config, idx) is None,
        },
    ensures
        match r {
            Ok(job) => job.recipe == idx && job_resolved(*lib, *config, job),
            Err(ScheduleError::UnknownParameter { parameter, recipe }) => unknown_param(*lib, *config, idx, parameter@)
                && recipe@ == lib.recipes@[idx.0 as int].name@,
            Err(ScheduleError::MissingParameter { parameter, recipe }) => missing_param(*lib, *config, idx, parameter@)
                && recipe@ == lib.recipes@[idx.0 as int].name@,
            Err(_) => false,
        },
{
    let recipe = &lib.recipes[idx.0];
    let decl = &recipe.info.parameters;
    match conf {
        Some(c) => {
            let mut k: usize = 0;
            while k < c.len()
                invariant
                    k <= c@.len(),
                    idx.0 < lib.recipes@.len(),
                    configured(*lib, *config, idx) == Some(c@),
                    *decl == lib.recipes@[idx.0 as int].info.parameters,
                    *recipe == lib.recipes@[idx.0 as int],
                    forall|q: int| 0 <= q < k ==> declares(*lib, idx, (#[trigger] c@[q]).0@),
                decreases c@.len() - k,
            {
                let pos = table_position(decl, &c[k].0);
                if pos.is_none() {
                    let parameter = c[k].0.clone();
                    let recipe_name = recipe.name.clone();
                    assert(configured(*lib, *config, idx)->Some_0[k as int].0@ == parameter@);
                    assert(!declares(*lib, idx, parameter@));
                    assert(unknown_param(*lib, *config, idx, parameter@));
                    let e = ScheduleError::UnknownParameter { parameter, recipe: recipe_name };
                    return Err(e);
                }
                k = k + 1;
            }
        },
        None => {},
    }
    let ghost cv = configured(*lib, *config, idx);
    let mut parameters: Vec<(String, String)> = Vec::new();
    let mut k: usize = 0;
    while k < decl.len()
        invariant
            k <= decl@.len(),
            idx.0 < lib.recipes@.len(),
            *decl == lib.recipes@[idx.0 as int].info.parameters,
            *recipe == lib.recipes@[idx.0 as int],
            conf matches Some(c) ==> forall|q: int| 0 <= q < c@.len() ==> declares(*lib, idx, (#[trigger] c@[q]).0@),
            cv == configured(*lib, *config, idx),
            match conf {
                Some(c) => cv == Some(c@),
                None => cv is None,
            },
            parameters@.len() == k,
            forall|q: int| 0 <= q < k ==> {
                &&& (#[trigger] parameters@[q]).0@ == decl@[q].0@
                &&& param_value(cv, decl@[q].0@, decl@[q].1) == Some(parameters@[q].1@)
            },
        decreases decl@.len() - k,
    {
        let name = &decl[k].0;
        let configured_value: Option<String> = match conf {
            Some(c) => match table_position(c, name) {
                Some(p) => Some(c[p].1.clone()),
                None => None,
            },
            None => None,
        };
        let value = match configured_value {
            Some(v) => v,
            None => match &decl[k].1.default {
                Some(d) => d.clone(),
                None => {
                    let parameter = name.clone();
                    assert(missing_param(*lib, *config, idx, parameter@)) by {
                        assert(decl@[k as int].0@ == parameter@);
                    }
                    let recipe_name = recipe.name.clone();
                    assert(recipe_name@ == lib.recipes@[idx.0 as int].name@);
                    let e = ScheduleError::MissingParameter { parameter, recipe: recipe_name };
                    return Err(e);
                },
            },
        };
        parameters.push((name.clone(), value));
        k = k + 1;
    }
    Ok(RecipeJob { recipe: idx, parameters })
}


/// Recipe `i` has a job in `jobs`.
pub open spec fn scheduled(jobs: Seq<RecipeJob>, i: RecipeIdx) -> bool {
    exists|a: int| 0 <= a < jobs.len() && (#[trigger] jobs[a]).recipe == i
}

/// Every dependency name of recipe `i` resolves.
pub open spec fn deps_resolve(lib: Library, i: RecipeIdx) -> bool {
    let r = lib.recipes@[i.0 as int];
    forall|k: int| 0 <= k < r.info.dependencies@.len() ==> lib.spec_lookup(r.repository, (#[trigger] r.info.dependencies@[k])@) is Some
}

/// The priority of the recipe of `job`.
pub open spec fn job_priority(lib: Library, job: RecipeJob) -> i64 {
    lib.recipes@[job.recipe.0 as int].info.priority
}

/// Job `x` comes before job `y`: a larger priority, or an equal priority
/// and a recipe that was loaded earlier.
pub open spec fn job_before(lib: Library, x: RecipeJob, y: RecipeJob) -> bool {
    job_priority(lib, x) > job_priority(lib, y) || (job_priority(lib, x) == job_priority(lib, y) && x.recipe.0 < y.recipe.0)
}

/// `jobs` is the schedule for `config`: one job for each recipe that is
/// applied by itself or needed by an applied recipe, and for no other, each
/// with its parameter values, by descending priority.
pub open spec fn schedule_ok(lib: Library, config: BakeryConfig, jobs: Seq<RecipeJob>) -> bool {
    &&& forall|a: int, b: int| 0 <= a < b < jobs.len() ==> (#[trigger] jobs[a]).recipe != (#[trigger] jobs[b]).recipe
    &&& forall|a: int| 0 <= a < jobs.len() ==> {
        &&& (#[trigger] jobs[a]).recipe.0 < lib.recipes@.len()
        &&& in_closure(lib, config, jobs[a].recipe)
        &&& deps_resolve(lib, jobs[a].recipe)
        &&& job_resolved(lib, config, jobs[a])
    }
    &&& forall|i: RecipeIdx| seed(lib, config, i) ==> #[trigger] scheduled(jobs, i)
    &&& forall|a: int, j: RecipeIdx| 0 <= a < jobs.len() && #[trigger] depends_on(lib, (#[trigger] jobs[a]).recipe, j) ==> scheduled(jobs, j)
    &&& forall|a: int, b: int| 0 <= a < b < jobs.len() ==> job_before(lib, #[trigger] jobs[a], #[trigger] jobs[b])
    &&& forall|k: int| 0 <= k < config.exclude@.len() ==> lib.spec_lookup(lib.repositories.root_repository, (#[trigger] config.exclude@[k])@) is Some
    &&& forall|k: int| 0 <= k < config.recipes@.len() ==> lib.spec_lookup(lib.repositories.root_repository, (#[trigger] config.recipes@[k])@) is Some
    &&& forall|k: int| 0 <= k < config.parameters@.len() ==> lib.spec_lookup(lib.repositories.root_repository, (#[trigger] config.parameters@[k]).0@) is Some
}

/// `n` is a recipe name that the schedule needs and that does not resolve.
pub open spec fn name_unresolved(lib: Library, config: BakeryConfig, n: Seq<char>) -> bool {
    ||| lib.spec_lookup(lib.repositories.root_repository, n) is None && (
        (exists|k: int| 0 <= k < config.exclude@.len() && #[trigger] config.exclude@[k]@ == n)
        || (exists|k: int| 0 <= k < config.recipes@.len() && #[trigger] config.recipes@[k]@ == n)
        || (exists|k: int| 0 <= k < config.parameters@.len() && #[trigger] config.parameters@[k].0@ == n))
    ||| unresolved_in_closure(lib, seed_set(lib, config), n)
}

/// What each error says of the configuration.
pub open spec fn schedule_error(lib: Library, config: BakeryConfig, e: ScheduleError) -> bool {
    match e {
        ScheduleError::RecipeNotFound(n) => name_unresolved(lib, config, n@),
        ScheduleError::UnknownParameter { parameter, recipe } => exists|i: RecipeIdx|
            in_closure(lib, config, i) && i.0 < lib.recipes@.len() && lib.recipes@[i.0 as int].name@ == recipe@
                && #[trigger] unknown_param(lib, config, i, parameter@),
        ScheduleError::MissingParameter { parameter, recipe } => exists|i: RecipeIdx|
            in_closure(lib, config, i) && i.0 < lib.recipes@.len() && lib.recipes@[i.0 as int].name@ == recipe@
                && #[trigger] missing_param(lib, config, i, parameter@),
    }
}

/// Computes the recipes a build applies: the default recipes that are not
/// excluded, the recipes named in the configuration, and everything they
/// depend on, each once, with resolved parameters, by descending priority.
pub fn recipe_schedule(config: &BakeryConfig, library: &Library) -> (r: Result<Vec<RecipeJob>, ScheduleError>)
    requires
        library.wf(),
    ensures
        match r {
            Ok(jobs) => schedule_ok(*library, *config, jobs@),
            Err(e) => schedule_error(*library, *config, e),
        },
{
    let lib = library;
    let seeds = match seed_recipes(lib, config) {
        Ok(v) => v,
        Err(e) => {
            return Err(e);
        },
    };
    assert(seq_set(seeds@) =~= seed_set(*lib, *config));
    let reached = match dependency_closure(lib, &seeds) {
        Ok(v) => v,
        Err(e) => {
            return Err(e);
        },
    };
    let visited = by_index(&reached, lib.recipes.len());
    proof {
        assert(visited@.no_duplicates()) by {
            assert forall|a: int, b: int| 0 <= a < visited@.len() && 0 <= b < visited@.len() && a != b implies visited@[a] != visited@[b] by {
                if a < b {
                    assert(visited@[a].0 < visited@[b].0);
                } else {
                    assert(visited@[b].0 < visited@[a].0);
                }
            }
        }
        assert forall|a: int| 0 <= a < visited@.len() implies (#[trigger] visited@[a]).0 < lib.recipes@.len()
            && in_closure_of(*lib, seq_set(seeds@), visited@[a]) && deps_within(*lib, visited@, visited@[a]) by {
            let x = visited@[a];
            assert(visited@.contains(x));
            assert(reached@.contains(x));
            let m = choose|m: int| 0 <= m < reached@.len() && reached@[m] == x;
            assert(deps_within(*lib, reached@, reached@[m]));
            let r = lib.recipes@[x.0 as int];
            assert forall|k: int| 0 <= k < r.info.dependencies@.len() implies (lib.spec_lookup(r.repository, #[trigger] r.info.dependencies@[k]@) matches Some(j) && visited@.contains(j)) by {
                let j = lib.spec_lookup(r.repository, r.info.dependencies@[k]@)->Some_0;
                assert(reached@.contains(j));
            }
        }
        assert forall|q: int| 0 <= q < seeds@.len() implies visited@.contains(#[trigger] seeds@[q]) by {
            assert(reached@.contains(seeds@[q]));
        }
    }
    let param_recipes = match resolve_parameter_recipes(lib, config) {
        Ok(v) => v,
        Err(e) => {
            return Err(e);
        },
    };
    let mut keys: Vec<i64> = Vec::new();
    let mut i: usize = 0;
    while i < visited.len()
        invariant
            i <= visited@.len(),
            keys@.len() == i,
            forall|a: int| 0 <= a < visited@.len() ==> (#[trigger] visited@[a]).0 < lib.recipes@.len(),
            forall|a: int| 0 <= a < i ==> #[trigger] keys@[a] == lib.recipes@[visited@[a].0 as int].info.priority,
        decreases visited@.len() - i,
    {
        keys.push(lib.recipes[visited[i].0].info.priority);
        i = i + 1;
    }
    let order = priority_order(&keys);
    let mut jobs: Vec<RecipeJob> = Vec::new();
    let mut a: usize = 0;
    while a < order.len()
        invariant
            lib.wf(),
            *lib == *library,
            a <= order@.len(),
            is_priority_order(keys@, order@),
            keys@.len() == visited@.len(),
            forall|q: int| 0 <= q < visited@.len() ==> (#[trigger] visited@[q]).0 < lib.recipes@.len(),
            forall|q: int| 0 <= q < visited@.len() ==> in_closure_of(*lib, seq_set(seeds@), #[trigger] visited@[q]),
            seq_set(seeds@) == seed_set(*lib, *config),
            param_recipes@.len() == config.parameters@.len(),
            forall|k: int| 0 <= k < param_recipes@.len() ==> names(*lib, config.parameters@[k].0, #[trigger] param_recipes@[k]),
            jobs@.len() == a,
            forall|q: int| 0 <= q < a ==> (#[trigger] jobs@[q]).recipe == visited@[order@[q] as int] && job_resolved(*lib, *config, jobs@[q]),
        decreases order@.len() - a,
    {
        let idx = visited[order[a]];
        assert(in_closure_of(*lib, seq_set(seeds@), visited@[order@[a as int] as int]));
        let conf = match configured_index(lib, config, &param_recipes, idx) {
            Some(k) => Some(&config.parameters[k].1),
            None => None,
        };
        match resolve_job(lib, config, conf, idx) {
            Ok(job) => {
                jobs.push(job);
            },
            Err(e) => {
                assert(in_closure(*lib, *config, idx));
                proof {
                    if e is UnknownParameter {
                        assert(unknown_param(*lib, *config, idx, e->UnknownParameter_parameter@));
                    } else if e is MissingParameter {
                        assert(missing_param(*lib, *config, idx, e->MissingParameter_parameter@));
                    }
                }
                return Err(e);
            },
        }
        a = a + 1;
    }
    proof {
        let js = jobs@;
        assert forall|a: int, b: int| 0 <= a < b < js.len() implies (#[trigger] js[a]).recipe != (#[trigger] js[b]).recipe by {
            assert(order@[a] != order@[b]);
        }
        assert forall|a: int| 0 <= a < js.len() implies {
            &&& (#[trigger] js[a]).recipe.0 < lib.recipes@.len()
            &&& in_closure(*lib, *config, js[a].recipe)
            &&& deps_resolve(*lib, js[a].recipe)
            &&& job_resolved(*lib, *config, js[a])
        } by {
            let x = visited@[order@[a] as int];
            assert(js[a].recipe == x);
            assert(deps_within(*lib, visited@, x));
        }
        assert forall|x: RecipeIdx| visited@.contains(x) implies #[trigger] scheduled(js, x) by {
            let m = choose|m: int| 0 <= m < visited@.len() && visited@[m] == x;
            assert(order@.contains(m as usize));
            let q = choose|q: int| 0 <= q < order@.len() && order@[q] == m as usize;
            assert(js[q].recipe == x);
        }
        assert forall|i: RecipeIdx| seed(*lib, *config, i) implies #[trigger] scheduled(js, i) by {
            assert(seed_set(*lib, *config).contains(i));
            assert(visited@.contains(i));
        }
        assert forall|a: int, j: RecipeIdx| 0 <= a < js.len() && #[trigger] depends_on(*lib, (#[trigger] js[a]).recipe, j) implies scheduled(js, j) by {
            let x = visited@[order@[a] as int];
            assert(deps_within(*lib, visited@, x));
            let r = lib.recipes@[x.0 as int];
            let k = choose|k: int| 0 <= k < r.info.dependencies@.len() && lib.spec_lookup(r.repository, #[trigger] r.info.dependencies@[k]@) == Some(j);
            assert(visited@.contains(j));
        }
        assert forall|a: int, b: int| 0 <= a < b < js.len() implies job_before(*lib, #[trigger] js[a], #[trigger] js[b]) by {
            assert(precedes(keys@, order@[a] as int, order@[b] as int));
            if order@[a] < order@[b] {
                assert(visited@[order@[a] as int].0 < visited@[order@[b] as int].0);
            }
        }
        assert forall|k: int| 0 <= k < config.parameters@.len() implies lib.spec_lookup(lib.repositories.root_repository, (#[trigger] config.parameters@[k]).0@) is Some by {
            assert(names(*lib, config.parameters@[k].0, param_recipes@[k]));
        }
    }
    Ok(jobs)
}

/// The recipes of `v`, by ascending index.
fn by_index(v: &Vec<RecipeIdx>, n: usize) -> (r: Vec<RecipeIdx>)
    requires
        forall|a: int| 0 <= a < v@.len() ==> (#[trigger] v@[a]).0 < n,
    ensures
        forall|x: RecipeIdx| r@.contains(x) <==> v@.contains(x),
        forall|a: int, b: int| 0 <= a < b < r@.len() ==> (#[trigger] r@[a]).0 < (#[trigger] r@[b]).0,
{
    let mut r: Vec<RecipeIdx> = Vec::new();
    let mut i: usize = 0;
    while i < n
        invariant
            i <= n,
            forall|a: int| 0 <= a < v@.len() ==> (#[trigger] v@[a]).0 < n,
            forall|x: RecipeIdx| r@.contains(x) <==> (v@.contains(x) && x.0 < i),
            forall|a: int| 0 <= a < r@.len() ==> (#[trigger] r@[a]).0 < i,
            forall|a: int, b: int| 0 <= a < b < r@.len() ==> (#[trigger] r@[a]).0 < (#[trigger] r@[b]).0,
        decreases n - i,
    {
        let ghost before = r@;
        if contains_idx(v, RecipeIdx(i)) {
            r.push(RecipeIdx(i));
            proof {
                assert(r@ == before.push(RecipeIdx(i)));
                assert forall|x: RecipeIdx| r@.contains(x) <==> (v@.contains(x) && x.0 < i + 1) by {
                    if before.contains(x) {
                        let m = choose|m: int| 0 <= m < before.len() && before[m] == x;
                        assert(r@[m] == x);
                    }
                    if x == RecipeIdx(i) {
                        assert(r@[before.len() as int] == x);
                    }
                    if r@.contains(x) && x != RecipeIdx(i) {
                        let m = choose|m: int| 0 <= m < r@.len() && r@[m] == x;
                        assert(before[m] == x);
                    }
                }
            }
        } else {
            proof {
                assert forall|x: RecipeIdx| r@.contains(x) <==> (v@.contains(x) && x.0 < i + 1) by {
                    if v@.contains(x) && x.0 == i {
                        assert(x == RecipeIdx(i));
                    }
                }
            }
        }
        i = i + 1;
    }
    proof {
        assert forall|x: RecipeIdx| v@.contains(x) implies r@.contains(x) by {
            let m = choose|m: int| 0 <= m < v@.len() && v@[m] == x;
            assert(v@[m].0 < n);
        }
    }
    r
}

/// `order` lists `0..keys.len()` by descending key, and equal keys by
/// ascending position.
pub open spec fn is_priority_order(keys: Seq<i64>, order: Seq<usize>) -> bool {
    &&& order.len() == keys.len()
    &&& forall|a: int| 0 <= a < order.len() ==> #[trigger] order[a] < keys.len()
    &&& forall|p: usize| p < keys.len() ==> #[trigger] order.contains(p)
    &&& forall|a: int, b: int| 0 <= a < b < order.len() ==> #[trigger] order[a] != #[trigger] order[b]
    &&& forall|a: int, b: int|
        0 <= a < b < order.len() ==> precedes(keys, #[trigger] order[a] as int, #[trigger] order[b] as int)
}

/// Position `x` comes before position `y`: a larger key, or an equal key
/// and an earlier position.
pub open spec fn precedes(keys: Seq<i64>, x: int, y: int) -> bool {
    keys[x] > keys[y] || (keys[x] == keys[y] && x < y)
}

/// The positions of `keys` sorted by descending key; the sort is stable.
pub fn priority_order(keys: &Vec<i64>) -> (order: Vec<usize>)
    ensures
        is_priority_order(keys@, order@),
{
    let n = keys.len();
    let mut order: Vec<usize> = Vec::new();
    let mut i: usize = 0;
    while i < n
        invariant
            i <= n,
            n == keys@.len(),
            order@.len() == i,
            forall|a: int| 0 <= a < order@.len() ==> #[trigger] order@[a] < i,
            forall|q: usize| q < i ==> #[trigger] order@.contains(q),
            forall|a: int, b: int| 0 <= a < b < order@.len() ==> #[trigger] order@[a] != #[trigger] order@[b],
            forall|a: int, b: int|
                0 <= a < b < order@.len() ==> precedes(keys@, #[trigger] order@[a] as int, #[trigger] order@[b] as int),
        decreases n - i,
    {
        let mut p: usize = 0;
        while p < order.len() && keys[order[p]] >= keys[i]
            invariant
                p <= order@.len(),
                i < n,
                n == keys@.len(),
                forall|a: int| 0 <= a < order@.len() ==> #[trigger] order@[a] < i,
                forall|q: usize| q < i ==> #[trigger] order@.contains(q),
                forall|a: int| 0 <= a < p ==> keys@[#[trigger] order@[a] as int] >= keys@[i as int],
            decreases order@.len() - p,
        {
            p = p + 1;
        }
        let ghost before = order@;
        order.insert(p, i);
        proof {
            let after = order@;
            assert(after == before.insert(p as int, i));
            assert forall|q: usize| q < i + 1 implies #[trigger] after.contains(q) by {
                if q == i {
                    assert(after[p as int] == i);
                } else {
                    assert(before.contains(q));
                    let m = choose|m: int| 0 <= m < before.len() && before[m] == q;
                    if m < p {
                        assert(after[m] == q);
                    } else {
                        assert(after[m + 1] == q);
                    }
                }
            }
            assert forall|a: int| 0 <= a < after.len() implies #[trigger] after[a] < i + 1 by {
                if a < p {
                    assert(after[a] == before[a]);
                } else if a > p {
                    assert(after[a] == before[a - 1]);
                }
            }
            assert forall|a: int, b: int| 0 <= a < b < after.len() implies #[trigger] after[a] != #[trigger] after[b] && precedes(keys@, after[a] as int, after[b] as int) by {
                if b < p {
                    assert(after[a] == before[a] && after[b] == before[b]);
                } else if b == p {
                    assert(after[a] == before[a]);
                } else if a < p {
                    assert(after[a] == before[a] && after[b] == before[b - 1]);
                    if p < before.len() {
                        assert(keys@[before[p as int] as int] < keys@[i as int]);
                        if b - 1 > p {
                            assert(precedes(keys@, before[p as int] as int, before[b - 1] as int));
                        }
                    }
                } else if a == p {
                    assert(after[b] == before[b - 1]);
                    assert(keys@[before[p as int] as int] < keys@[i as int]);
                    if b - 1 > p {
                        assert(precedes(keys@, before[p as int] as int, before[b - 1] as int));
                    }
                } else {
                    assert(after[a] == before[a - 1] && after[b] == before[b - 1]);
                }
            }
        }
        i = i + 1;
    }
    order
}

} // verus!

verus! {

/// Recipe `i` is named in the configuration's `recipes`.
pub open spec fn explicitly_named(lib: Library, config: BakeryConfig, i: RecipeIdx) -> bool {
    exists|k: int| 0 <= k < config.recipes@.len() && names(lib, #[trigger] config.recipes@[k], i)
}

/// Excluding a recipe only keeps it from being applied as a default: an
/// excluded recipe is in the schedule exactly when it is named in `recipes`
/// or another scheduled recipe depends on it.
pub proof fn lemma_exclusion_only_suppresses_defaults(
    lib: Library,
    config: BakeryConfig,
    jobs: Seq<RecipeJob>,
    i: RecipeIdx,
)
    requires
        lib.wf(),
        schedule_ok(lib, config, jobs),
        excluded(lib, config, i),
    ensures
        scheduled(jobs, i) <==> (explicitly_named(lib, config, i) || exists|a: int|
            0 <= a < jobs.len() && (#[trigger] jobs[a]).recipe != i && depends_on(lib, jobs[a].recipe, i)),
{
    if explicitly_named(lib, config, i) {
        assert(seed(lib, config, i));
    }
    if exists|a: int| 0 <= a < jobs.len() && (#[trigger] jobs[a]).recipe != i && depends_on(lib, jobs[a].recipe, i) {
        let a = choose|a: int| 0 <= a < jobs.len() && (#[trigger] jobs[a]).recipe != i && depends_on(lib, jobs[a].recipe, i);
        assert(depends_on(lib, jobs[a].recipe, i));
    }
    if scheduled(jobs, i) && !explicitly_named(lib, config, i) && !exists|a: int|
        0 <= a < jobs.len() && (#[trigger] jobs[a]).recipe != i && depends_on(lib, jobs[a].recipe, i) {
        let a = choose|a: int| 0 <= a < jobs.len() && (#[trigger] jobs[a]).recipe == i;
        assert(in_closure(lib, config, jobs[a].recipe));
        let s = Set::new(|x: RecipeIdx| scheduled(jobs, x) && x != i);
        assert(seed_set(lib, config).subset_of(s)) by {
            assert forall|x: RecipeIdx| seed_set(lib, config).contains(x) implies s.contains(x) by {
                assert(seed(lib, config, x));
                assert(scheduled(jobs, x));
            }
        }
        assert(closed(lib, s)) by {
            assert forall|x: RecipeIdx, y: RecipeIdx| #[trigger] s.contains(x) && #[trigger] depends_on(lib, x, y) implies s.contains(y) by {
                let b = choose|b: int| 0 <= b < jobs.len() && (#[trigger] jobs[b]).recipe == x;
                assert(depends_on(lib, jobs[b].recipe, y));
                assert(scheduled(jobs, y));
            }
        }
        assert(s.contains(i));
    }
}

} // verus!
