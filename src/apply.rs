//! Applying scheduled recipes: a plan of mounts and commands, and a state
//! machine that walks it and keeps the mount stack, so that every mount made
//! is unmounted once, in reverse order, whether the plan succeeds or fails.

use vstd::prelude::*;

use crate::layers::Architecture;
use crate::library::Library;
use crate::schedule::RecipeJob;
use crate::recipes::{Recipe, Step, StepKind};
use crate::text::{ends_with_char, push_str, starts_with_char, to_uppercase, upper_of};

verus! {

/// A mount: a bind mount of `source` when `fstype` is `None`, else a fresh
/// file system of that type.
pub struct MountSpec {
    pub source: String,
    pub target: String,
    pub fstype: Option<String>,
}

/// A command with its environment variables.
pub struct Command {
    pub program: String,
    pub args: Vec<String>,
    pub vars: Vec<(String, String)>,
}

/// One item of an application plan.
pub enum PlanItem {
    /// Mount, and keep mounted until the matching `EndMount` or the end.
    Mount(MountSpec),
    /// Unmount the latest mount that is still mounted.
    EndMount,
    /// Create a directory and its parents.
    CreateDirAll(String),
    /// Run a command; a failure aborts the plan.
    Run(Command),
}

/// What the caller does next.
#[derive(Clone, Copy, Debug, PartialEq, Eq, Structural)]
pub enum Action {
    /// Carry out plan item `i` (for an `EndMount` with nothing mounted:
    /// nothing).
    Perform(usize),
    /// Unmount the mount made by plan item `i`.
    Unmount(usize),
    /// The plan succeeded and nothing is mounted.
    Finish,
    /// The plan failed and nothing is mounted.
    Fail,
}

/// The state of a walk over a plan.
pub struct Applier {
    /// The next plan item to carry out.
    pub next: usize,
    /// Plan positions of the mounts that are in place, oldest first.
    pub mounted: Vec<usize>,
    /// The mount item just handed out, while its outcome is not known.
    pub pending: Option<usize>,
    /// Whether the walk is unmounting everything before it ends.
    pub unwinding: bool,
    /// Whether some action failed.
    pub failed: bool,
}

pub struct ApplierView {
    pub next: nat,
    pub mounted: Seq<usize>,
    pub pending: Option<usize>,
    pub unwinding: bool,
    pub failed: bool,
}

impl View for Applier {
    type V = ApplierView;

    open spec fn view(&self) -> ApplierView {
        ApplierView {
            next: self.next as nat,
            mounted: self.mounted@,
            pending: self.pending,
            unwinding: self.unwinding,
            failed: self.failed,
        }
    }
}

/// The state after taking in the outcome of the previous action.
pub open spec fn absorb(s: ApplierView, succeeded: bool) -> ApplierView {
    if !succeeded {
        ApplierView { pending: None, unwinding: true, failed: true, ..s }
    } else {
        match s.pending {
            Some(i) => ApplierView { mounted: s.mounted.push(i), pending: None, ..s },
            None => s,
        }
    }
}

/// One move of the walk: `succeeded` tells how the previous action went.
pub open spec fn spec_step(plan: Seq<PlanItem>, s0: ApplierView, succeeded: bool) -> (ApplierView, Action) {
    let s = absorb(s0, succeeded);
    if s.unwinding || s.next >= plan.len() {
        if s.mounted.len() > 0 {
            (
                ApplierView { mounted: s.mounted.drop_last(), unwinding: true, ..s },
                Action::Unmount(s.mounted.last()),
            )
        } else {
            (ApplierView { unwinding: true, ..s }, if s.failed { Action::Fail } else { Action::Finish })
        }
    } else {
        let i = s.next as int;
        let s1 = ApplierView { next: s.next + 1, ..s };
        match plan[i] {
            PlanItem::Mount(_) => (ApplierView { pending: Some(i as usize), ..s1 }, Action::Perform(i as usize)),
            PlanItem::EndMount => if s.mounted.len() > 0 {
                (ApplierView { mounted: s.mounted.drop_last(), ..s1 }, Action::Unmount(s.mounted.last()))
            } else {
                (s1, Action::Perform(i as usize))
            },
            _ => (s1, Action::Perform(i as usize)),
        }
    }
}

/// The actions of a walk from `s` given the outcomes, and the state it ends in.
pub open spec fn run(plan: Seq<PlanItem>, s: ApplierView, outcomes: Seq<bool>) -> (ApplierView, Seq<Action>)
    decreases outcomes.len(),
{
    if outcomes.len() == 0 {
        (s, Seq::empty())
    } else {
        let (s1, a) = spec_step(plan, s, outcomes[0]);
        let (s2, rest) = run(plan, s1, outcomes.drop_first());
        (s2, seq![a] + rest)
    }
}

/// Unmount actions for `m`, latest first.
pub open spec fn unmounts_reversed(m: Seq<usize>) -> Seq<Action>
    decreases m.len(),
{
    if m.len() == 0 {
        Seq::empty()
    } else {
        seq![Action::Unmount(m.last())] + unmounts_reversed(m.drop_last())
    }
}

impl Applier {
    /// A walk that has not started; its first step is told `true`.
    pub fn new() -> (r: Applier)
        ensures
            r@ == (ApplierView { next: 0, mounted: Seq::empty(), pending: None, unwinding: false, failed: false }),
    {
        Applier { next: 0, mounted: Vec::new(), pending: None, unwinding: false, failed: false }
    }

    /// Takes in how the previous action went and says what to do next.
    pub fn step(&mut self, plan: &Vec<PlanItem>, succeeded: bool) -> (a: Action)
        requires
            old(self).next <= plan@.len(),
            old(self).mounted@.len() < usize::MAX,
        ensures
            (final(self)@, a) == spec_step(plan@, old(self)@, succeeded),
            final(self).next <= plan@.len(),
    {
        if !succeeded {
            self.pending = None;
            self.unwinding = true;
            self.failed = true;
        } else {
            match self.pending {
                Some(i) => {
                    self.mounted.push(i);
                    self.pending = None;
                },
                None => {},
            }
        }
        if self.unwinding || self.next >= plan.len() {
            self.unwinding = true;
            match self.mounted.pop() {
                Some(m) => Action::Unmount(m),
                None => if self.failed {
                    Action::Fail
                } else {
                    Action::Finish
                },
            }
        } else {
            let i = self.next;
            self.next = i + 1;
            match &plan[i] {
                PlanItem::Mount(_) => {
                    self.pending = Some(i);
                    Action::Perform(i)
                },
                PlanItem::EndMount => match self.mounted.pop() {
                    Some(m) => Action::Unmount(m),
                    None => Action::Perform(i),
                },
                _ => Action::Perform(i),
            }
        }
    }
}

/// Once an action fails while `m` is mounted, the next steps unmount each
/// of `m` exactly once, latest first, whatever those unmounts report, and
/// then the walk fails with nothing mounted.
pub proof fn lemma_failure_unwinds_mounts(plan: Seq<PlanItem>, s: ApplierView, outcomes: Seq<bool>)
    requires
        outcomes.len() == s.mounted.len() + 1,
        outcomes[0] == false,
    ensures
        run(plan, s, outcomes).1 == unmounts_reversed(s.mounted) + seq![Action::Fail],
        run(plan, s, outcomes).0.mounted.len() == 0,
        run(plan, s, outcomes).0.unwinding,
    decreases s.mounted.len(),
{
    let (s1, a) = spec_step(plan, s, outcomes[0]);
    let rest = outcomes.drop_first();
    if s.mounted.len() == 0 {
        assert(rest.len() == 0);
        assert(unmounts_reversed(s.mounted) =~= Seq::empty());
        assert(run(plan, s1, rest).1 =~= Seq::empty());
        assert(run(plan, s, outcomes).1 =~= seq![Action::Fail]);
    } else {
        assert(s1.mounted == s.mounted.drop_last());
        assert(a == Action::Unmount(s.mounted.last()));
        lemma_unwinding_continues(plan, s1, rest);
        assert(run(plan, s, outcomes).1 =~= seq![a] + run(plan, s1, rest).1);
        assert(unmounts_reversed(s.mounted) + seq![Action::Fail] =~= seq![a] + (unmounts_reversed(s1.mounted) + seq![Action::Fail]));
    }
}

/// While unwinding after a failure, each step unmounts the latest mount
/// until none is left, and then the walk fails.
pub proof fn lemma_unwinding_continues(plan: Seq<PlanItem>, s: ApplierView, outcomes: Seq<bool>)
    requires
        s.unwinding,
        s.failed,
        s.pending is None,
        outcomes.len() == s.mounted.len() + 1,
    ensures
        run(plan, s, outcomes).1 == unmounts_reversed(s.mounted) + seq![Action::Fail],
        run(plan, s, outcomes).0.mounted.len() == 0,
        run(plan, s, outcomes).0.unwinding,
    decreases s.mounted.len(),
{
    let (s1, a) = spec_step(plan, s, outcomes[0]);
    let rest = outcomes.drop_first();
    if s.mounted.len() == 0 {
        assert(rest.len() == 0);
        assert(unmounts_reversed(s.mounted) =~= Seq::empty());
        assert(run(plan, s1, rest).1 =~= Seq::empty());
        assert(run(plan, s, outcomes).1 =~= seq![Action::Fail]);
    } else {
        assert(s1.mounted == s.mounted.drop_last());
        lemma_unwinding_continues(plan, s1, rest);
        assert(run(plan, s, outcomes).1 =~= seq![a] + run(plan, s1, rest).1);
        assert(unmounts_reversed(s.mounted) + seq![Action::Fail] =~= seq![a] + (unmounts_reversed(s1.mounted) + seq![Action::Fail]));
    }
}

} // verus!

verus! {

/// `a` followed by `b`.
pub fn concat(a: &str, b: &str) -> (r: String)
    ensures
        r@ == a@ + b@,
{
    let mut r = a.to_owned();
    push_str(&mut r, b);
    r
}

/// Path `b` taken relative to `a`: an absolute `b` replaces `a`, an empty
/// `a` gives `b`, and otherwise a separator goes between them unless `a`
/// already ends with one.
pub open spec fn join(a: Seq<char>, b: Seq<char>) -> Seq<char> {
    if b.len() > 0 && b[0] == '/' {
        b
    } else if a.len() == 0 {
        b
    } else if a.last() == '/' {
        a + b
    } else {
        a + "/"@ + b
    }
}

pub fn path_join(a: &str, b: &str) -> (r: String)
    ensures
        r@ == join(a@, b@),
{
    if starts_with_char(b, '/') || a.unicode_len() == 0 {
        b.to_owned()
    } else if ends_with_char(a, '/') {
        concat(a, b)
    } else {
        let mut r = a.to_owned();
        push_str(&mut r, "/");
        push_str(&mut r, b);
        r
    }
}

/// Where the directory of the recipe being applied is mounted, inside the
/// system tree.
pub open spec fn recipe_mount_dir() -> Seq<char> {
    "/run/rugpi/bakery/recipe"@
}

/// The entry `v` is the variable `name` with value `value`.
pub open spec fn var_is(v: (String, String), name: Seq<char>, value: Seq<char>) -> bool {
    v.0@ == name && v.1@ == value
}

/// The variables of a script step: the fixed ones, then one per parameter.
pub open spec fn script_vars(
    vars: Seq<(String, String)>,
    root: Seq<char>,
    arch: Architecture,
    recipe_dir: Seq<char>,
    script: Seq<char>,
    params: Seq<(String, String)>,
) -> bool {
    &&& vars.len() == 5 + params.len()
    &&& var_is(vars[0], "DEBIAN_FRONTEND"@, "noninteractive"@)
    &&& var_is(vars[1], "RUGPI_ROOT_DIR"@, root)
    &&& var_is(vars[2], "RUGPI_ARCH"@, arch.spec_name())
    &&& var_is(vars[3], "RECIPE_DIR"@, recipe_dir)
    &&& var_is(vars[4], "RECIPE_STEP_PATH"@, script)
    &&& forall|k: int|
        0 <= k < params.len() ==> var_is(
            #[trigger] vars[5 + k],
            "RECIPE_PARAM_"@ + upper_of(params[k].0@),
            params[k].1@,
        )
}

/// `cmd` carries out `step` of `recipe`, with parameter values `params`, on
/// the system tree at `root`.
pub open spec fn step_command(
    cmd: Command,
    root: Seq<char>,
    arch: Architecture,
    recipe: Recipe,
    step: Step,
    params: Seq<(String, String)>,
) -> bool {
    match step.kind {
        StepKind::Packages { packages } => {
            &&& cmd.program@ == "chroot"@
            &&& cmd.args@.len() == 4 + packages@.len()
            &&& cmd.args@[0]@ == root
            &&& cmd.args@[1]@ == "apt-get"@
            &&& cmd.args@[2]@ == "install"@
            &&& cmd.args@[3]@ == "-y"@
            &&& forall|k: int| 0 <= k < packages@.len() ==> (#[trigger] cmd.args@[4 + k])@ == packages@[k]@
            &&& script_vars(
                cmd.vars@,
                "/"@,
                arch,
                recipe_mount_dir() + "/"@,
                recipe_mount_dir() + "/steps/"@ + step.filename@,
                params,
            )
        },
        StepKind::Install => {
            let script = recipe_mount_dir() + "/steps/"@ + step.filename@;
            &&& cmd.program@ == "chroot"@
            &&& cmd.args@.len() == 2
            &&& cmd.args@[0]@ == root
            &&& cmd.args@[1]@ == script
            &&& script_vars(cmd.vars@, "/"@, arch, recipe_mount_dir() + "/"@, script, params)
        },
        StepKind::Run => {
            let script = join(join(recipe.path@, "steps"@), step.filename@);
            &&& cmd.program@ == script
            &&& cmd.args@.len() == 0
            &&& script_vars(cmd.vars@, root, arch, recipe.path@, script, params)
        },
    }
}

/// Appends the parameter variables.
fn push_param_vars(vars: &mut Vec<(String, String)>, params: &Vec<(String, String)>)
    requires
        old(vars)@.len() + params@.len() <= usize::MAX,
    ensures
        final(vars)@.len() == old(vars)@.len() + params@.len(),
        forall|k: int| 0 <= k < old(vars)@.len() ==> #[trigger] final(vars)@[k] == old(vars)@[k],
        forall|k: int|
            0 <= k < params@.len() ==> var_is(
                #[trigger] final(vars)@[old(vars)@.len() + k],
                "RECIPE_PARAM_"@ + upper_of(params@[k].0@),
                params@[k].1@,
            ),
{
    let ghost start = vars@;
    let mut k: usize = 0;
    while k < params.len()
        invariant
            k <= params@.len(),
            vars@.len() == start.len() + k,
            forall|q: int| 0 <= q < start.len() ==> #[trigger] vars@[q] == start[q],
            forall|q: int|
                0 <= q < k ==> var_is(
                    #[trigger] vars@[start.len() + q],
                    "RECIPE_PARAM_"@ + upper_of(params@[q].0@),
                    params@[q].1@,
                ),
        decreases params@.len() - k,
    {
        let upper = to_uppercase(params[k].0.as_str());
        let name = concat("RECIPE_PARAM_", upper.as_str());
        vars.push((name, params[k].1.clone()));
        k = k + 1;
    }
}

/// The command for one step of a recipe.
pub fn step_command_for(
    root: &str,
    arch: Architecture,
    recipe: &Recipe,
    step: &Step,
    params: &Vec<(String, String)>,
) -> (cmd: Command)
    requires
        params@.len() < usize::MAX - 5,
    ensures
        step_command(cmd, root@, arch, *recipe, *step, params@),
{
    match &step.kind {
        StepKind::Packages { packages } => {
            let mut args: Vec<String> = Vec::new();
            args.push(root.to_owned());
            args.push("apt-get".to_owned());
            args.push("install".to_owned());
            args.push("-y".to_owned());
            let mut k: usize = 0;
            while k < packages.len()
                invariant
                    k <= packages@.len(),
                    args@.len() == 4 + k,
                    args@[0]@ == root@,
                    args@[1]@ == "apt-get"@,
                    args@[2]@ == "install"@,
                    args@[3]@ == "-y"@,
                    forall|q: int| 0 <= q < k ==> (#[trigger] args@[4 + q])@ == packages@[q]@,
                decreases packages@.len() - k,
            {
                args.push(packages[k].clone());
                k = k + 1;
            }
            let script = concat("/run/rugpi/bakery/recipe/steps/", step.filename.as_str());
            let mut vars: Vec<(String, String)> = Vec::new();
            vars.push(("DEBIAN_FRONTEND".to_owned(), "noninteractive".to_owned()));
            vars.push(("RUGPI_ROOT_DIR".to_owned(), "/".to_owned()));
            vars.push(("RUGPI_ARCH".to_owned(), arch.as_str().to_owned()));
            vars.push(("RECIPE_DIR".to_owned(), "/run/rugpi/bakery/recipe/".to_owned()));
            vars.push(("RECIPE_STEP_PATH".to_owned(), script));
            push_param_vars(&mut vars, params);
            proof {
                reveal_strlit("/run/rugpi/bakery/recipe/steps/");
                reveal_strlit("/run/rugpi/bakery/recipe");
                reveal_strlit("/steps/");
                reveal_strlit("/run/rugpi/bakery/recipe/");
                reveal_strlit("/");
                assert(recipe_mount_dir() + "/steps/"@ =~= "/run/rugpi/bakery/recipe/steps/"@);
                assert(recipe_mount_dir() + "/"@ =~= "/run/rugpi/bakery/recipe/"@);
            }
            Command { program: "chroot".to_owned(), args, vars }
        },
        StepKind::Install => {
            let script = concat("/run/rugpi/bakery/recipe/steps/", step.filename.as_str());
            let mut vars: Vec<(String, String)> = Vec::new();
            vars.push(("DEBIAN_FRONTEND".to_owned(), "noninteractive".to_owned()));
            vars.push(("RUGPI_ROOT_DIR".to_owned(), "/".to_owned()));
            vars.push(("RUGPI_ARCH".to_owned(), arch.as_str().to_owned()));
            vars.push(("RECIPE_DIR".to_owned(), "/run/rugpi/bakery/recipe/".to_owned()));
            vars.push(("RECIPE_STEP_PATH".to_owned(), script.clone()));
            push_param_vars(&mut vars, params);
            let mut args: Vec<String> = Vec::new();
            args.push(root.to_owned());
            args.push(script);
            proof {
                reveal_strlit("/run/rugpi/bakery/recipe/steps/");
                reveal_strlit("/run/rugpi/bakery/recipe");
                reveal_strlit("/steps/");
                reveal_strlit("/run/rugpi/bakery/recipe/");
                reveal_strlit("/");
                assert(recipe_mount_dir() + "/steps/"@ =~= "/run/rugpi/bakery/recipe/steps/"@);
                assert(recipe_mount_dir() + "/"@ =~= "/run/rugpi/bakery/recipe/"@);
            }
            Command { program: "chroot".to_owned(), args, vars }
        },
        StepKind::Run => {
            let steps_dir = path_join(recipe.path.as_str(), "steps");
            let script = path_join(steps_dir.as_str(), step.filename.as_str());
            let mut vars: Vec<(String, String)> = Vec::new();
            vars.push(("DEBIAN_FRONTEND".to_owned(), "noninteractive".to_owned()));
            vars.push(("RUGPI_ROOT_DIR".to_owned(), root.to_owned()));
            vars.push(("RUGPI_ARCH".to_owned(), arch.as_str().to_owned()));
            vars.push(("RECIPE_DIR".to_owned(), recipe.path.clone()));
            vars.push(("RECIPE_STEP_PATH".to_owned(), script.clone()));
            push_param_vars(&mut vars, params);
            Command { program: script, args: Vec::new(), vars }
        },
    }
}

} // verus!

verus! {

/// `item` mounts `source` on `target`: a bind mount for `fstype == None`.
pub open spec fn mount_is(item: PlanItem, source: Seq<char>, target: Seq<char>, fstype: Option<Seq<char>>) -> bool {
    match item {
        PlanItem::Mount(m) => {
            &&& m.source@ == source
            &&& m.target@ == target
            &&& match (m.fstype, fstype) {
                (None, None) => true,
                (Some(a), Some(b)) => a@ == b,
                _ => false,
            }
        },
        _ => false,
    }
}

/// Where the items of job `j` start in the plan.
pub open spec fn job_start(lib: Library, jobs: Seq<RecipeJob>, j: int) -> int
    decreases j,
{
    if j <= 0 {
        7
    } else {
        job_start(lib, jobs, j - 1) + 2 + lib.recipes@[jobs[j - 1].recipe.0 as int].steps@.len()
    }
}

/// The items of job `j`: mount the recipe's directory, run each step, unmount.
pub open spec fn job_planned(lib: Library, arch: Architecture, jobs: Seq<RecipeJob>, root: Seq<char>, plan: Seq<PlanItem>, j: int) -> bool {
    let recipe = lib.recipes@[jobs[j].recipe.0 as int];
    let start = job_start(lib, jobs, j);
    let n = recipe.steps@.len();
    &&& mount_is(plan[start], recipe.path@, join(root, "run/rugpi/bakery/recipe"@), None)
    &&& forall|k: int|
        0 <= k < n ==> step_planned(#[trigger] plan[start + 1 + k], root, arch, recipe, k, jobs[j])
    &&& plan[start + 1 + n] is EndMount
}

/// `item` runs step `k` of `recipe` for `job`.
pub open spec fn step_planned(item: PlanItem, root: Seq<char>, arch: Architecture, recipe: Recipe, k: int, job: RecipeJob) -> bool {
    item matches PlanItem::Run(cmd) && step_command(cmd, root, arch, recipe, recipe.steps@[k], job.parameters@)
}

/// The mounts that every recipe runs under, made in this order.
pub open spec fn environment_planned(root: Seq<char>, plan: Seq<PlanItem>) -> bool {
    &&& mount_is(plan[0], "/dev"@, join(root, "dev"@), None)
    &&& mount_is(plan[1], "/dev/pts"@, join(root, "dev/pts"@), None)
    &&& mount_is(plan[2], "/sys"@, join(root, "sys"@), None)
    &&& mount_is(plan[3], "proc"@, join(root, "proc"@), Some("proc"@))
    &&& mount_is(plan[4], "tmpfs"@, join(root, "run"@), Some("tmpfs"@))
    &&& mount_is(plan[5], "tmpfs"@, join(root, "tmp"@), Some("tmpfs"@))
    &&& plan[6] matches PlanItem::CreateDirAll(d) && d@ == join(root, "run/rugpi/bakery/recipe"@)
}

fn mount_item(source: &str, target: String, fstype: Option<&str>) -> (item: PlanItem)
    ensures
        mount_is(item, source@, target@, match fstype { Some(f) => Some(f@), None => None }),
{
    let fstype = match fstype {
        Some(f) => Some(f.to_owned()),
        None => None,
    };
    PlanItem::Mount(MountSpec { source: source.to_owned(), target, fstype })
}

/// The plan for applying `jobs`, in order, to the system tree at `root`:
/// the environment mounts, then for each job the mount of its recipe's
/// directory, one command per step and the unmount.
pub fn application_plan(library: &Library, architecture: Architecture, jobs: &Vec<RecipeJob>, root: &str) -> (plan: Vec<PlanItem>)
    requires
        library.wf(),
        forall|j: int| 0 <= j < jobs@.len() ==> (#[trigger] jobs@[j]).recipe.0 < library.recipes@.len()
            && jobs@[j].parameters@.len() < usize::MAX - 5,
    ensures
        plan@.len() == job_start(*library, jobs@, jobs@.len() as int),
        environment_planned(root@, plan@),
        forall|j: int| 0 <= j < jobs@.len() ==> #[trigger] job_planned(*library, architecture, jobs@, root@, plan@, j),
{
    let lib = library;
    let mut plan: Vec<PlanItem> = Vec::new();
    plan.push(mount_item("/dev", path_join(root, "dev"), None));
    plan.push(mount_item("/dev/pts", path_join(root, "dev/pts"), None));
    plan.push(mount_item("/sys", path_join(root, "sys"), None));
    plan.push(mount_item("proc", path_join(root, "proc"), Some("proc")));
    plan.push(mount_item("tmpfs", path_join(root, "run"), Some("tmpfs")));
    plan.push(mount_item("tmpfs", path_join(root, "tmp"), Some("tmpfs")));
    plan.push(PlanItem::CreateDirAll(path_join(root, "run/rugpi/bakery/recipe")));
    assert(environment_planned(root@, plan@));
    let mut j: usize = 0;
    while j < jobs.len()
        invariant
            lib.wf(),
            *lib == *library,
            j <= jobs@.len(),
            forall|q: int| 0 <= q < jobs@.len() ==> (#[trigger] jobs@[q]).recipe.0 < lib.recipes@.len()
                && jobs@[q].parameters@.len() < usize::MAX - 5,
            plan@.len() == job_start(*lib, jobs@, j as int),
            plan@.len() >= 7,
            environment_planned(root@, plan@),
            forall|q: int| 0 <= q < j ==> #[trigger] job_planned(*lib, architecture, jobs@, root@, plan@, q),
        decreases jobs@.len() - j,
    {
        let job = &jobs[j];
        let recipe = &lib.recipes[job.recipe.0];
        let ghost start = plan@.len() as int;
        let ghost before = plan@;
        plan.push(mount_item(recipe.path.as_str(), path_join(root, "run/rugpi/bakery/recipe"), None));
        let mut k: usize = 0;
        while k < recipe.steps.len()
            invariant
                k <= recipe.steps@.len(),
                plan@.len() == start + 1 + k,
                j < jobs@.len(),
                jobs@[j as int].recipe.0 < lib.recipes@.len(),
                start >= 7,
                before.len() == start,
                jobs@[j as int].parameters@.len() < usize::MAX - 5,
                *job == jobs@[j as int],
                *recipe == lib.recipes@[jobs@[j as int].recipe.0 as int],
                plan@.subrange(0, start) == before,
                mount_is(plan@[start], recipe.path@, join(root@, "run/rugpi/bakery/recipe"@), None),
                forall|q: int|
                    0 <= q < k ==> (#[trigger] plan@[start + 1 + q] matches PlanItem::Run(cmd) && step_command(
                        cmd,
                        root@,
                        architecture,
                        *recipe,
                        recipe.steps@[q],
                        job.parameters@,
                    )),
            decreases recipe.steps@.len() - k,
        {
            let ghost prev = plan@;
            let cmd = step_command_for(root, architecture, recipe, &recipe.steps[k], &job.parameters);
            plan.push(PlanItem::Run(cmd));
            assert(plan@.subrange(0, start) =~= prev.subrange(0, start));
            assert forall|q: int| 0 <= q < k + 1 implies (#[trigger] plan@[start + 1 + q] matches PlanItem::Run(cmd) && step_command(
                        cmd,
                        root@,
                        architecture,
                        *recipe,
                        recipe.steps@[q],
                        job.parameters@,
                    )) by {
                if q < k {
                    assert(plan@[start + 1 + q] == prev[start + 1 + q]);
                }
            }
            k = k + 1;
        }
        let ghost prev = plan@;
        plan.push(PlanItem::EndMount);
        proof {
            assert(plan@.subrange(0, start) =~= prev.subrange(0, start));
            assert(job_start(*lib, jobs@, j + 1) == start + 2 + recipe.steps@.len());
            assert forall|q: int| 0 <= q < j + 1 implies #[trigger] job_planned(*lib, architecture, jobs@, root@, plan@, q) by {
                if q < j {
                    assert(job_planned(*lib, architecture, jobs@, root@, before, q));
                    lemma_job_start_bounds(*lib, jobs@, q);
                    let s = job_start(*lib, jobs@, q);
                    let n = lib.recipes@[jobs@[q].recipe.0 as int].steps@.len();
                    assert(s + 1 + n < start) by {
                        lemma_job_start_mono(*lib, jobs@, q + 1, j as int);
                    }
                    assert forall|i: int| 0 <= i < start implies plan@[i] == before[i] by {
                        assert(plan@.subrange(0, start)[i] == before[i]);
                    }
                    assert(plan@[s] == before[s]);
                    assert(plan@[s + 1 + n] == before[s + 1 + n]);
                    let rq = lib.recipes@[jobs@[q].recipe.0 as int];
                    assert forall|k: int| 0 <= k < n implies step_planned(#[trigger] plan@[s + 1 + k], root@, architecture, rq, k, jobs@[q]) by {
                        assert(plan@[s + 1 + k] == before[s + 1 + k]);
                        assert(step_planned(before[s + 1 + k], root@, architecture, rq, k, jobs@[q]));
                    }
                    assert(job_planned(*lib, architecture, jobs@, root@, plan@, q));
                } else {
                    assert(job_start(*lib, jobs@, q) == start);
                    assert(plan@[start + 1 + recipe.steps@.len()] is EndMount);
                    assert(plan@[start] == prev[start]);
                    assert forall|i: int| 0 <= i < recipe.steps@.len() implies #[trigger] plan@[start + 1 + i] == prev[start + 1 + i] by {}
                    assert(mount_is(plan@[start], recipe.path@, join(root@, "run/rugpi/bakery/recipe"@), None));
                    assert(*recipe == lib.recipes@[jobs@[q].recipe.0 as int]);
                    assert(forall|k: int|
                        0 <= k < recipe.steps@.len() ==> (#[trigger] plan@[start + 1 + k] matches PlanItem::Run(cmd) && step_command(
                            cmd,
                            root@,
                            architecture,
                            *recipe,
                            recipe.steps@[k],
                            jobs@[q].parameters@,
                        )));
                    assert(job_planned(*lib, architecture, jobs@, root@, plan@, q));
                }
            }
            assert forall|i: int| 0 <= i < 7 implies plan@[i] == before[i] by {
                assert(plan@.subrange(0, start)[i] == before[i]);
            }
        }
        j = j + 1;
    }
    plan
}

proof fn lemma_job_start_bounds(lib: Library, jobs: Seq<RecipeJob>, j: int)
    ensures
        job_start(lib, jobs, j) >= 7,
    decreases j,
{
    if j > 0 {
        lemma_job_start_bounds(lib, jobs, j - 1);
    }
}

proof fn lemma_job_start_mono(lib: Library, jobs: Seq<RecipeJob>, a: int, b: int)
    requires
        a <= b,
    ensures
        job_start(lib, jobs, a) <= job_start(lib, jobs, b),
    decreases b - a,
{
    if a < b {
        lemma_job_start_mono(lib, jobs, a, b - 1);
    }
}

} // verus!
