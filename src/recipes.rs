//! Recipes: named, parameterised units of system customisation.

use vstd::prelude::*;

use crate::repositories::RepositoryIdx;

verus! {

/// Identifies a recipe in a library.
#[derive(Clone, Copy, Debug, PartialEq, Eq, Hash, Structural)]
pub struct RecipeIdx(pub usize);

/// A parameter that a recipe declares.
pub struct ParameterDef {
    pub default: Option<String>,
}

/// What a step does and where it runs.
pub enum StepKind {
    /// Installs packages with the package manager of the target, in a chroot.
    Packages { packages: Vec<String> },
    /// Runs the step's script from the mounted recipe directory, in a chroot.
    Install,
    /// Runs the step's script on the host.
    Run,
}

/// One step of a recipe.
pub struct Step {
    pub filename: String,
    pub kind: StepKind,
}

/// What a recipe declares about itself.
pub struct RecipeInfo {
    /// Whether the recipe is applied unless excluded.
    pub default: bool,
    /// Recipes with a larger priority are applied first.
    pub priority: i64,
    /// Names of the recipes this one needs, relative to its repository.
    pub dependencies: Vec<String>,
    pub parameters: Vec<(String, ParameterDef)>,
    pub description: Option<String>,
}

/// A recipe of some repository.
pub struct Recipe {
    pub name: String,
    pub repository: RepositoryIdx,
    pub path: String,
    pub info: RecipeInfo,
    pub steps: Vec<Step>,
}

} // verus!
