use rugpi_bakery::layers::{Architecture, LayerConfig, LayerIdx};
use rugpi_bakery::library::{LayerFile, Library, LibraryError};
use rugpi_bakery::recipes::{Recipe, RecipeIdx, RecipeInfo};
use rugpi_bakery::repositories::{ProjectRepositories, Repository, RepositoryIdx};

fn repo(name: &str, deps: Vec<(&str, usize)>) -> Repository {
    Repository {
        name: name.to_owned(),
        dir: format!("/repos/{name}"),
        repositories: deps
            .into_iter()
            .map(|(n, i)| (n.to_owned(), RepositoryIdx(i)))
            .collect(),
    }
}

fn recipe(name: &str, repository: usize, default: bool) -> Recipe {
    Recipe {
        name: name.to_owned(),
        repository: RepositoryIdx(repository),
        path: format!("/recipes/{repository}/{name}"),
        info: RecipeInfo {
            default,
            priority: 0,
            dependencies: Vec::new(),
            parameters: Vec::new(),
            description: None,
        },
        steps: Vec::new(),
    }
}

/// Root (0) declares `extra` (2); core is 1; `extra` declares `base` (0).
fn repositories() -> ProjectRepositories {
    ProjectRepositories {
        repositories: vec![
            repo("root", vec![("extra", 2)]),
            repo("core", vec![]),
            repo("extra", vec![("base", 0)]),
        ],
        root_repository: RepositoryIdx(0),
        core_repository: RepositoryIdx(1),
    }
}

fn sample_library() -> Library {
    let recipes = vec![
        recipe("hostname", 0, true),
        recipe("ssh", 1, true),
        recipe("hostname", 1, false),
        recipe("docker", 2, true),
        recipe("ssh", 2, false),
    ];
    Library::load(repositories(), recipes, Vec::new()).ok().unwrap()
}

fn layer_file(repository: usize, stem: &str, modified: u64) -> LayerFile {
    LayerFile {
        repository: RepositoryIdx(repository),
        stem: stem.to_owned(),
        modified,
        config: LayerConfig { source: format!("{stem}@{modified}") },
    }
}

#[test]
fn unqualified_lookup_is_local() {
    let lib = sample_library();
    assert_eq!(lib.lookup(RepositoryIdx(0), "hostname"), Some(RecipeIdx(0)));
    assert_eq!(lib.lookup(RepositoryIdx(1), "hostname"), Some(RecipeIdx(2)));
    assert_eq!(lib.lookup(RepositoryIdx(0), "ssh"), None);
    assert_eq!(lib.lookup(RepositoryIdx(2), "ssh"), Some(RecipeIdx(4)));
    assert_eq!(lib.lookup(RepositoryIdx(0), "docker"), None);
}

#[test]
fn qualified_lookup_through_declared_dependency() {
    let lib = sample_library();
    assert_eq!(lib.lookup(RepositoryIdx(0), "extra/docker"), Some(RecipeIdx(3)));
    assert_eq!(lib.lookup(RepositoryIdx(0), "extra/ssh"), Some(RecipeIdx(4)));
    assert_eq!(lib.lookup(RepositoryIdx(2), "base/hostname"), Some(RecipeIdx(0)));
    assert_eq!(lib.lookup(RepositoryIdx(0), "extra/hostname"), None);
}

#[test]
fn qualified_lookup_of_undeclared_dependency_fails() {
    let lib = sample_library();
    assert_eq!(lib.lookup(RepositoryIdx(1), "extra/docker"), None);
    assert_eq!(lib.lookup(RepositoryIdx(0), "base/hostname"), None);
}

#[test]
fn core_prefix_always_names_core_repository() {
    let lib = sample_library();
    assert_eq!(lib.lookup(RepositoryIdx(0), "core/ssh"), Some(RecipeIdx(1)));
    assert_eq!(lib.lookup(RepositoryIdx(2), "core/ssh"), Some(RecipeIdx(1)));
    assert_eq!(lib.lookup(RepositoryIdx(1), "core/hostname"), Some(RecipeIdx(2)));
}

#[test]
fn core_prefix_wins_over_dependency_named_core() {
    let mut repos = repositories();
    repos.repositories[0].repositories.push(("core".to_owned(), RepositoryIdx(2)));
    let lib = Library::load(repos, vec![recipe("ssh", 1, false), recipe("ssh", 2, false)], Vec::new())
        .ok()
        .unwrap();
    assert_eq!(lib.lookup(RepositoryIdx(0), "core/ssh"), Some(RecipeIdx(0)));
}

#[test]
fn qualified_name_splits_at_first_slash() {
    let lib = sample_library();
    assert_eq!(lib.lookup(RepositoryIdx(0), "extra/base/hostname"), None);
    assert_eq!(lib.lookup(RepositoryIdx(0), "/hostname"), None);
}

#[test]
fn later_recipe_of_same_name_shadows_earlier() {
    let lib = Library::load(
        repositories(),
        vec![recipe("a", 0, false), recipe("a", 0, false)],
        Vec::new(),
    )
    .ok()
    .unwrap();
    assert_eq!(lib.lookup(RepositoryIdx(0), "a"), Some(RecipeIdx(1)));
}

#[test]
fn only_root_recipes_keep_default_flag() {
    let lib = sample_library();
    assert!(lib.recipes[0].info.default);
    assert!(!lib.recipes[1].info.default);
    assert!(!lib.recipes[3].info.default);
    assert_eq!(lib.recipes.len(), 5);
}

#[test]
fn layer_timestamp_is_max_of_files() {
    let lib = Library::load(
        repositories(),
        Vec::new(),
        vec![layer_file(0, "base", 10), layer_file(0, "base.arm64", 20)],
    )
    .ok()
    .unwrap();
    assert_eq!(lib.layers.len(), 1);
    assert_eq!(lib.layers[0].modified, 20);
    assert_eq!(lib.layers[0].default_config.as_ref().unwrap().source, "base@10");
    assert_eq!(lib.layers[0].arch_configs.len(), 1);
    assert_eq!(lib.layers[0].arch_configs[0].0, Architecture::Arm64);
    assert_eq!(lib.layers[0].arch_configs[0].1.source, "base.arm64@20");
}

#[test]
fn layer_timestamp_keeps_later_of_reverse_order() {
    let lib = Library::load(
        repositories(),
        Vec::new(),
        vec![layer_file(0, "base.armhf", 30), layer_file(0, "base", 5)],
    )
    .ok()
    .unwrap();
    assert_eq!(lib.layers[0].modified, 30);
}

#[test]
fn layers_are_kept_per_repository() {
    let lib = Library::load(
        repositories(),
        Vec::new(),
        vec![layer_file(0, "base", 1), layer_file(1, "base", 2), layer_file(0, "tiny", 3)],
    )
    .ok()
    .unwrap();
    assert_eq!(lib.layers.len(), 3);
    assert_eq!(lib.lookup_layer(RepositoryIdx(0), "base"), Some(LayerIdx(0)));
    assert_eq!(lib.lookup_layer(RepositoryIdx(0), "core/base"), Some(LayerIdx(1)));
    assert_eq!(lib.lookup_layer(RepositoryIdx(0), "tiny"), Some(LayerIdx(2)));
    assert_eq!(lib.lookup_layer(RepositoryIdx(1), "tiny"), None);
    assert_eq!(lib.lookup_layer(RepositoryIdx(2), "base/tiny"), Some(LayerIdx(2)));
}

#[test]
fn unknown_layer_architecture_is_an_error() {
    let r = Library::load(
        repositories(),
        Vec::new(),
        vec![layer_file(0, "base", 1), layer_file(0, "base.sparc", 2)],
    );
    match r {
        Err(LibraryError::UnknownArchitecture(a)) => assert_eq!(a, "sparc"),
        Ok(_) => panic!("expected an error"),
    }
}

#[test]
fn architecture_names_round_trip() {
    for arch in [
        Architecture::Amd64,
        Architecture::Arm64,
        Architecture::Armv7,
        Architecture::Armhf,
        Architecture::Arm,
    ] {
        assert_eq!(Architecture::parse(arch.as_str()), Some(arch));
    }
    assert_eq!(Architecture::parse("x86"), None);
}

#[test]
fn later_override_for_same_architecture_replaces_earlier() {
    let lib = Library::load(
        repositories(),
        Vec::new(),
        vec![layer_file(0, "base.arm64", 1), layer_file(0, "base.armhf", 2), layer_file(0, "base.arm64", 3)],
    )
    .ok()
    .unwrap();
    assert_eq!(lib.layers[0].modified, 3);
    assert!(lib.layers[0].default_config.is_none());
    assert_eq!(lib.layers[0].arch_configs.len(), 2);
    assert_eq!(lib.layers[0].arch_configs[0].0, Architecture::Arm64);
    assert_eq!(lib.layers[0].arch_configs[0].1.source, "base.arm64@3");
}

#[test]
fn repository_without_layer_files_has_empty_table() {
    let lib = Library::load(repositories(), Vec::new(), vec![layer_file(0, "base", 1)]).ok().unwrap();
    assert_eq!(lib.layer_tables[0].len(), 1);
    assert!(lib.layer_tables[1].is_empty());
    assert!(lib.layer_tables[2].is_empty());
}

#[test]
fn recipe_tables_hold_one_entry_per_recipe() {
    let lib = sample_library();
    assert_eq!(lib.recipe_tables[0].len(), 1);
    assert_eq!(lib.recipe_tables[1].len(), 2);
    assert_eq!(lib.recipe_tables[2].len(), 2);
    assert!(lib.is_wf());
}

#[test]
fn malformed_library_is_detected() {
    let mut lib = sample_library();
    lib.recipe_tables[0][0].0 = "other".to_owned();
    assert!(!lib.is_wf());
}
