use rugpi_bakery::layers::Architecture;
use rugpi_bakery::library::Library;
use rugpi_bakery::recipes::{ParameterDef, Recipe, RecipeIdx, RecipeInfo};
use rugpi_bakery::repositories::{ProjectRepositories, Repository, RepositoryIdx};
use rugpi_bakery::schedule::{priority_order, recipe_schedule, BakeryConfig, RecipeJob, ScheduleError};

struct R {
    name: &'static str,
    repository: usize,
    default: bool,
    priority: i64,
    deps: Vec<&'static str>,
    params: Vec<(&'static str, Option<&'static str>)>,
}

fn r(name: &'static str, default: bool, priority: i64, deps: Vec<&'static str>) -> R {
    R { name, repository: 0, default, priority, deps, params: Vec::new() }
}

fn build(recipes: Vec<R>) -> Library {
    let repos = ProjectRepositories {
        repositories: vec![
            Repository { name: "root".to_owned(), dir: "/root".to_owned(), repositories: vec![("lib".to_owned(), RepositoryIdx(2))] },
            Repository { name: "core".to_owned(), dir: "/core".to_owned(), repositories: Vec::new() },
            Repository { name: "lib".to_owned(), dir: "/lib".to_owned(), repositories: Vec::new() },
        ],
        root_repository: RepositoryIdx(0),
        core_repository: RepositoryIdx(1),
    };
    let recipes = recipes
        .into_iter()
        .map(|x| Recipe {
            name: x.name.to_owned(),
            repository: RepositoryIdx(x.repository),
            path: format!("/recipes/{}", x.name),
            info: RecipeInfo {
                default: x.default,
                priority: x.priority,
                dependencies: x.deps.iter().map(|d| d.to_string()).collect(),
                parameters: x
                    .params
                    .iter()
                    .map(|(n, d)| (n.to_string(), ParameterDef { default: d.map(|v| v.to_owned()) }))
                    .collect(),
                description: None,
            },
            steps: Vec::new(),
        })
        .collect();
    Library::load(repos, recipes, Vec::new()).ok().unwrap()
}

fn config(exclude: Vec<&str>, recipes: Vec<&str>, parameters: Vec<(&str, Vec<(&str, &str)>)>) -> BakeryConfig {
    BakeryConfig {
        architecture: Architecture::Arm64,
        exclude: exclude.iter().map(|s| s.to_string()).collect(),
        recipes: recipes.iter().map(|s| s.to_string()).collect(),
        parameters: parameters
            .into_iter()
            .map(|(n, ps)| (n.to_owned(), ps.into_iter().map(|(k, v)| (k.to_owned(), v.to_owned())).collect()))
            .collect(),
    }
}

fn names(lib: &Library, jobs: &[RecipeJob]) -> Vec<String> {
    jobs.iter().map(|j| lib.recipes[j.recipe.0].name.clone()).collect()
}

fn sorted(mut v: Vec<String>) -> Vec<String> {
    v.sort();
    v
}

#[test]
fn priority_order_is_stable_descending() {
    assert_eq!(priority_order(&vec![5, 1, 5, 3]), vec![0, 2, 3, 1]);
    assert_eq!(priority_order(&vec![]), Vec::<usize>::new());
    assert_eq!(priority_order(&vec![-1, -1, 0]), vec![2, 0, 1]);
    assert_eq!(priority_order(&vec![i64::MIN, i64::MAX]), vec![1, 0]);
}

#[test]
fn schedule_orders_by_priority() {
    let lib = build(vec![r("a", true, 5, vec![]), r("b", true, 1, vec![]), r("c", true, 5, vec![]), r("d", true, 3, vec![])]);
    let jobs = recipe_schedule(&config(vec![], vec![], vec![]), &lib).ok().unwrap();
    let prios: Vec<i64> = jobs.iter().map(|j| lib.recipes[j.recipe.0].info.priority).collect();
    assert_eq!(prios, vec![5, 5, 3, 1]);
    assert_eq!(names(&lib, &jobs)[3], "b");
    assert_eq!(names(&lib, &jobs)[2], "d");
}

#[test]
fn closure_is_complete_and_deduplicated() {
    // a -> b, a -> c, b -> d, c -> d, d -> d (self cycle), d -> a (cycle); e unrelated.
    let lib = build(vec![
        r("a", true, 0, vec!["b", "c"]),
        r("b", false, 0, vec!["d"]),
        r("c", false, 0, vec!["d"]),
        r("d", false, 0, vec!["d", "a"]),
        r("e", false, 0, vec![]),
    ]);
    let jobs = recipe_schedule(&config(vec![], vec![], vec![]), &lib).ok().unwrap();
    assert_eq!(sorted(names(&lib, &jobs)), vec!["a", "b", "c", "d"]);
}

#[test]
fn dependencies_resolve_relative_to_owning_repository() {
    let mut x = r("x", false, 0, vec!["y", "core/z"]);
    x.repository = 2;
    let mut y = r("y", false, 0, vec![]);
    y.repository = 2;
    let mut z = r("z", false, 0, vec![]);
    z.repository = 1;
    let lib = build(vec![r("top", true, 0, vec!["lib/x"]), x, y, z, r("y", false, 0, vec![])]);
    let jobs = recipe_schedule(&config(vec![], vec![], vec![]), &lib).ok().unwrap();
    let mut idx: Vec<usize> = jobs.iter().map(|j| j.recipe.0).collect();
    idx.sort();
    assert_eq!(idx, vec![0, 1, 2, 3]);
}

#[test]
fn empty_configuration_without_defaults_schedules_nothing() {
    let lib = build(vec![r("a", false, 0, vec![])]);
    let jobs = recipe_schedule(&config(vec![], vec![], vec![]), &lib).ok().unwrap();
    assert!(jobs.is_empty());
}

#[test]
fn exclusion_suppresses_default_only() {
    let lib = build(vec![r("a", true, 0, vec![]), r("b", true, 0, vec![])]);
    let jobs = recipe_schedule(&config(vec!["a"], vec![], vec![]), &lib).ok().unwrap();
    assert_eq!(names(&lib, &jobs), vec!["b"]);
}

#[test]
fn excluded_but_explicit_recipe_is_applied() {
    let lib = build(vec![r("a", true, 0, vec![])]);
    let jobs = recipe_schedule(&config(vec!["a"], vec!["a"], vec![]), &lib).ok().unwrap();
    assert_eq!(names(&lib, &jobs), vec!["a"]);
}

#[test]
fn excluded_but_required_recipe_is_applied() {
    let lib = build(vec![r("a", true, 0, vec![]), r("b", true, 0, vec!["a"])]);
    let jobs = recipe_schedule(&config(vec!["a"], vec![], vec![]), &lib).ok().unwrap();
    assert_eq!(sorted(names(&lib, &jobs)), vec!["a", "b"]);
}

#[test]
fn unknown_excluded_recipe_is_an_error() {
    let lib = build(vec![r("a", true, 0, vec![])]);
    match recipe_schedule(&config(vec!["zzz"], vec![], vec![]), &lib) {
        Err(ScheduleError::RecipeNotFound(n)) => assert_eq!(n, "zzz"),
        _ => panic!("expected RecipeNotFound"),
    }
}

#[test]
fn unknown_explicit_recipe_is_an_error() {
    let lib = build(vec![r("a", true, 0, vec![])]);
    match recipe_schedule(&config(vec![], vec!["lib/nothing"], vec![]), &lib) {
        Err(ScheduleError::RecipeNotFound(n)) => assert_eq!(n, "lib/nothing"),
        _ => panic!("expected RecipeNotFound"),
    }
}

#[test]
fn unknown_dependency_is_an_error() {
    let lib = build(vec![r("a", true, 0, vec!["missing"])]);
    match recipe_schedule(&config(vec![], vec![], vec![]), &lib) {
        Err(ScheduleError::RecipeNotFound(n)) => assert_eq!(n, "missing"),
        _ => panic!("expected RecipeNotFound"),
    }
}

#[test]
fn unknown_dependency_of_unused_recipe_is_fine() {
    let lib = build(vec![r("a", true, 0, vec![]), r("b", false, 0, vec!["missing"])]);
    let jobs = recipe_schedule(&config(vec![], vec![], vec![]), &lib).ok().unwrap();
    assert_eq!(names(&lib, &jobs), vec!["a"]);
}

fn param_recipe() -> Vec<R> {
    let mut a = r("a", true, 0, vec![]);
    a.params = vec![("hostname", Some("rugpi")), ("user", None)];
    vec![a]
}

#[test]
fn configured_parameter_wins_over_default() {
    let lib = build(param_recipe());
    let jobs = recipe_schedule(
        &config(vec![], vec![], vec![("a", vec![("hostname", "box"), ("user", "pi")])]),
        &lib,
    )
    .ok()
    .unwrap();
    assert_eq!(
        jobs[0].parameters,
        vec![("hostname".to_owned(), "box".to_owned()), ("user".to_owned(), "pi".to_owned())]
    );
}

#[test]
fn default_parameter_used_when_not_configured() {
    let lib = build(param_recipe());
    let jobs = recipe_schedule(&config(vec![], vec![], vec![("a", vec![("user", "pi")])]), &lib)
        .ok()
        .unwrap();
    assert_eq!(
        jobs[0].parameters,
        vec![("hostname".to_owned(), "rugpi".to_owned()), ("user".to_owned(), "pi".to_owned())]
    );
}

#[test]
fn missing_parameter_value_is_an_error() {
    let lib = build(param_recipe());
    match recipe_schedule(&config(vec![], vec![], vec![]), &lib) {
        Err(ScheduleError::MissingParameter { parameter, recipe }) => {
            assert_eq!(parameter, "user");
            assert_eq!(recipe, "a");
        }
        _ => panic!("expected MissingParameter"),
    }
}

#[test]
fn unknown_parameter_is_an_error_even_with_valid_ones() {
    let lib = build(param_recipe());
    match recipe_schedule(
        &config(vec![], vec![], vec![("a", vec![("user", "pi"), ("colour", "red")])]),
        &lib,
    ) {
        Err(ScheduleError::UnknownParameter { parameter, recipe }) => {
            assert_eq!(parameter, "colour");
            assert_eq!(recipe, "a");
        }
        _ => panic!("expected UnknownParameter"),
    }
}

#[test]
fn parameters_for_unknown_recipe_are_an_error() {
    let lib = build(param_recipe());
    match recipe_schedule(&config(vec![], vec![], vec![("nope", vec![])]), &lib) {
        Err(ScheduleError::RecipeNotFound(n)) => assert_eq!(n, "nope"),
        _ => panic!("expected RecipeNotFound"),
    }
}

#[test]
fn parameters_of_unscheduled_recipe_are_not_checked() {
    let mut recipes = param_recipe();
    recipes.push(r("b", false, 0, vec![]));
    let lib = build(recipes);
    let jobs = recipe_schedule(
        &config(vec![], vec![], vec![("a", vec![("user", "pi")]), ("b", vec![("x", "y")])]),
        &lib,
    )
    .ok()
    .unwrap();
    assert_eq!(jobs.len(), 1);
}

#[test]
fn equal_priorities_follow_recipe_order() {
    let lib = build(vec![r("a", true, 5, vec![]), r("b", true, 1, vec![]), r("c", true, 5, vec![]), r("d", true, 3, vec![])]);
    let jobs = recipe_schedule(&config(vec![], vec![], vec![]), &lib).ok().unwrap();
    assert_eq!(names(&lib, &jobs), vec!["a", "c", "d", "b"]);
}
