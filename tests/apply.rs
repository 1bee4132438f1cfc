use rugpi_bakery::apply::{application_plan, step_command_for, Action, Applier, PlanItem};
use rugpi_bakery::layers::Architecture;
use rugpi_bakery::library::Library;
use rugpi_bakery::recipes::{Recipe, RecipeIdx, RecipeInfo, Step, StepKind};
use rugpi_bakery::repositories::{ProjectRepositories, Repository, RepositoryIdx};
use rugpi_bakery::schedule::RecipeJob;

fn recipe(steps: Vec<Step>) -> Recipe {
    Recipe {
        name: "hello".to_owned(),
        repository: RepositoryIdx(0),
        path: "/p/hello".to_owned(),
        info: RecipeInfo { default: true, priority: 0, dependencies: Vec::new(), parameters: Vec::new(), description: None },
        steps,
    }
}

fn step(filename: &str, kind: StepKind) -> Step {
    Step { filename: filename.to_owned(), kind }
}

fn library(recipes: Vec<Recipe>) -> Library {
    let repos = ProjectRepositories {
        repositories: vec![Repository { name: "root".to_owned(), dir: "/p".to_owned(), repositories: Vec::new() }],
        root_repository: RepositoryIdx(0),
        core_repository: RepositoryIdx(0),
    };
    Library::load(repos, recipes, Vec::new()).ok().unwrap()
}

fn var<'a>(vars: &'a [(String, String)], name: &str) -> Option<&'a str> {
    vars.iter().find(|(n, _)| n == name).map(|(_, v)| v.as_str())
}

/// Runs the walk, failing the action with number `fail_at` (counting from 0).
fn simulate(plan: &Vec<PlanItem>, fail_at: Option<usize>) -> Vec<Action> {
    let mut applier = Applier::new();
    let mut actions = Vec::new();
    let mut ok = true;
    loop {
        let a = applier.step(plan, ok);
        actions.push(a);
        if a == Action::Finish || a == Action::Fail {
            return actions;
        }
        ok = fail_at != Some(actions.len() - 1);
    }
}

fn two_recipe_plan() -> Vec<PlanItem> {
    let lib = library(vec![
        recipe(vec![step("00-run", StepKind::Run), step("01-install", StepKind::Install)]),
        recipe(vec![step("00-pkgs", StepKind::Packages { packages: vec!["vim".to_owned()] })]),
    ]);
    let jobs = vec![
        RecipeJob { recipe: RecipeIdx(0), parameters: Vec::new() },
        RecipeJob { recipe: RecipeIdx(1), parameters: Vec::new() },
    ];
    application_plan(&lib, Architecture::Arm64, &jobs, "/tmp/root")
}

#[test]
fn plan_layout() {
    let plan = two_recipe_plan();
    assert_eq!(plan.len(), 7 + 4 + 3);
    match &plan[0] {
        PlanItem::Mount(m) => {
            assert_eq!(m.source, "/dev");
            assert_eq!(m.target, "/tmp/root/dev");
            assert!(m.fstype.is_none());
        }
        _ => panic!("expected a mount"),
    }
    match &plan[3] {
        PlanItem::Mount(m) => {
            assert_eq!(m.target, "/tmp/root/proc");
            assert_eq!(m.fstype.as_deref(), Some("proc"));
        }
        _ => panic!("expected a mount"),
    }
    match &plan[6] {
        PlanItem::CreateDirAll(d) => assert_eq!(d, "/tmp/root/run/rugpi/bakery/recipe"),
        _ => panic!("expected a directory"),
    }
    match &plan[7] {
        PlanItem::Mount(m) => {
            assert_eq!(m.source, "/p/hello");
            assert_eq!(m.target, "/tmp/root/run/rugpi/bakery/recipe");
        }
        _ => panic!("expected the recipe mount"),
    }
    assert!(matches!(plan[10], PlanItem::EndMount));
    assert!(matches!(plan[13], PlanItem::EndMount));
}

#[test]
fn successful_walk_unmounts_everything_in_reverse() {
    let plan = two_recipe_plan();
    let actions = simulate(&plan, None);
    let expected = vec![
        Action::Perform(0),
        Action::Perform(1),
        Action::Perform(2),
        Action::Perform(3),
        Action::Perform(4),
        Action::Perform(5),
        Action::Perform(6),
        Action::Perform(7),
        Action::Perform(8),
        Action::Perform(9),
        Action::Unmount(7),
        Action::Perform(11),
        Action::Perform(12),
        Action::Unmount(11),
        Action::Unmount(5),
        Action::Unmount(4),
        Action::Unmount(3),
        Action::Unmount(2),
        Action::Unmount(1),
        Action::Unmount(0),
        Action::Finish,
    ];
    assert_eq!(actions, expected);
}

#[test]
fn failed_step_unwinds_active_mounts_in_reverse() {
    let plan = two_recipe_plan();
    // Action 8 is the first step of the first recipe: 7 mounts are active.
    let actions = simulate(&plan, Some(8));
    assert_eq!(
        actions[9..].to_vec(),
        vec![
            Action::Unmount(7),
            Action::Unmount(5),
            Action::Unmount(4),
            Action::Unmount(3),
            Action::Unmount(2),
            Action::Unmount(1),
            Action::Unmount(0),
            Action::Fail,
        ]
    );
}

#[test]
fn failed_mount_is_not_unmounted() {
    let plan = two_recipe_plan();
    // Action 2 mounts /sys; it fails, so only /dev/pts and /dev are undone.
    let actions = simulate(&plan, Some(2));
    assert_eq!(actions[3..].to_vec(), vec![Action::Unmount(1), Action::Unmount(0), Action::Fail]);
}

#[test]
fn failure_during_unwinding_still_unmounts_the_rest() {
    let plan = two_recipe_plan();
    let actions = simulate(&plan, Some(8));
    let mut applier = Applier::new();
    let mut seen = Vec::new();
    let mut ok = true;
    for i in 0..actions.len() {
        let a = applier.step(&plan, ok);
        seen.push(a);
        // Fail the step at 8 and the first unmount at 9 as well.
        ok = !(i == 8 || i == 9);
    }
    assert_eq!(seen, actions);
}

#[test]
fn empty_plan_finishes() {
    let plan: Vec<PlanItem> = Vec::new();
    assert_eq!(simulate(&plan, None), vec![Action::Finish]);
}

#[test]
fn install_step_command() {
    let r = recipe(Vec::new());
    let s = step("10-setup", StepKind::Install);
    let params = vec![("host_name".to_owned(), "box".to_owned())];
    let cmd = step_command_for("/tmp/root", Architecture::Armhf, &r, &s, &params);
    assert_eq!(cmd.program, "chroot");
    assert_eq!(cmd.args, vec!["/tmp/root".to_owned(), "/run/rugpi/bakery/recipe/steps/10-setup".to_owned()]);
    assert_eq!(var(&cmd.vars, "DEBIAN_FRONTEND"), Some("noninteractive"));
    assert_eq!(var(&cmd.vars, "RUGPI_ROOT_DIR"), Some("/"));
    assert_eq!(var(&cmd.vars, "RUGPI_ARCH"), Some("armhf"));
    assert_eq!(var(&cmd.vars, "RECIPE_DIR"), Some("/run/rugpi/bakery/recipe/"));
    assert_eq!(var(&cmd.vars, "RECIPE_STEP_PATH"), Some("/run/rugpi/bakery/recipe/steps/10-setup"));
    assert_eq!(var(&cmd.vars, "RECIPE_PARAM_HOST_NAME"), Some("box"));
    assert_eq!(cmd.vars.len(), 6);
}

#[test]
fn run_step_command() {
    let r = recipe(Vec::new());
    let s = step("20-host", StepKind::Run);
    let params = vec![("size".to_owned(), "4G".to_owned())];
    let cmd = step_command_for("/tmp/root", Architecture::Amd64, &r, &s, &params);
    assert_eq!(cmd.program, "/p/hello/steps/20-host");
    assert!(cmd.args.is_empty());
    assert_eq!(var(&cmd.vars, "RUGPI_ROOT_DIR"), Some("/tmp/root"));
    assert_eq!(var(&cmd.vars, "RUGPI_ARCH"), Some("amd64"));
    assert_eq!(var(&cmd.vars, "RECIPE_DIR"), Some("/p/hello"));
    assert_eq!(var(&cmd.vars, "RECIPE_STEP_PATH"), Some("/p/hello/steps/20-host"));
    assert_eq!(var(&cmd.vars, "RECIPE_PARAM_SIZE"), Some("4G"));
}

#[test]
fn packages_step_command() {
    let r = recipe(Vec::new());
    let s = step("00-pkgs", StepKind::Packages { packages: vec!["vim".to_owned(), "git".to_owned()] });
    let params = vec![("mirror".to_owned(), "local".to_owned())];
    let cmd = step_command_for("/tmp/root", Architecture::Arm64, &r, &s, &params);
    assert_eq!(cmd.program, "chroot");
    assert_eq!(cmd.args, vec!["/tmp/root", "apt-get", "install", "-y", "vim", "git"]);
    assert_eq!(var(&cmd.vars, "DEBIAN_FRONTEND"), Some("noninteractive"));
    assert_eq!(var(&cmd.vars, "RUGPI_ROOT_DIR"), Some("/"));
    assert_eq!(var(&cmd.vars, "RUGPI_ARCH"), Some("arm64"));
    assert_eq!(var(&cmd.vars, "RECIPE_DIR"), Some("/run/rugpi/bakery/recipe/"));
    assert_eq!(var(&cmd.vars, "RECIPE_STEP_PATH"), Some("/run/rugpi/bakery/recipe/steps/00-pkgs"));
    assert_eq!(var(&cmd.vars, "RECIPE_PARAM_MIRROR"), Some("local"));
    assert_eq!(cmd.vars.len(), 6);
}

#[test]
fn plan_paths_with_trailing_separator() {
    let lib = library(vec![recipe(Vec::new())]);
    let jobs = vec![RecipeJob { recipe: RecipeIdx(0), parameters: Vec::new() }];
    let plan = application_plan(&lib, Architecture::Arm64, &jobs, "/tmp/root/");
    match &plan[0] {
        PlanItem::Mount(m) => assert_eq!(m.target, "/tmp/root/dev"),
        _ => panic!("expected a mount"),
    }
}
