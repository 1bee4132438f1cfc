//! Projects: where a project lives and which configuration file it reads,
//! and the arguments of the bakery's tasks.

use vstd::prelude::*;

use crate::apply::{join, path_join};
use crate::schedule::BakeryConfig;

verus! {

/// The configuration file of a project when none is given.
pub open spec fn default_config_file() -> Seq<char> {
    "rugpi-bakery.toml"@
}

/// A loaded project.
pub struct Project {
    pub config: BakeryConfig,
    /// The project directory.
    pub dir: String,
}

/// Finds a project's directory and configuration file.
pub struct ProjectLoader {
    project_dir: String,
    config_file: Option<String>,
}

impl ProjectLoader {
    pub closed spec fn spec_project_dir(&self) -> Seq<char> {
        self.project_dir@
    }

    pub closed spec fn spec_config_file(&self) -> Option<Seq<char>> {
        match self.config_file {
            Some(f) => Some(f@),
            None => None,
        }
    }

    /// A loader for the project in `project_dir`, with the default
    /// configuration file.
    pub fn new(project_dir: &str) -> (r: ProjectLoader)
        ensures
            r.spec_project_dir() == project_dir@,
            r.spec_config_file() is None,
    {
        ProjectLoader { project_dir: project_dir.to_owned(), config_file: None }
    }

    /// Sets the configuration file, relative to the project directory.
    pub fn with_config_file(self, config_file: Option<&str>) -> (r: ProjectLoader)
        ensures
            r.spec_project_dir() == self.spec_project_dir(),
            r.spec_config_file() == match config_file {
                Some(f) => Some(f@),
                None => None::<Seq<char>>,
            },
    {
        let mut s = self;
        s.config_file = match config_file {
            Some(f) => Some(f.to_owned()),
            None => None,
        };
        s
    }

    /// The full path of the configuration file.
    pub fn config_path(&self) -> (r: String)
        ensures
            r@ == join(
                self.spec_project_dir(),
                match self.spec_config_file() {
                    Some(f) => f,
                    None => default_config_file(),
                },
            ),
    {
        let file: &str = match &self.config_file {
            Some(f) => f.as_str(),
            None => "rugpi-bakery.toml",
        };
        path_join(self.project_dir.as_str(), file)
    }

    /// The project directory.
    pub fn project_dir(&self) -> (r: &str)
        ensures
            r@ == self.spec_project_dir(),
    {
        self.project_dir.as_str()
    }

    /// The project with the given configuration, read from
    /// [`Self::config_path`].
    pub fn load(self, config: BakeryConfig) -> (r: Project)
        ensures
            r.dir@ == self.spec_project_dir(),
            r.config == config,
    {
        Project { config, dir: self.project_dir }
    }
}

/// The arguments of the task that writes an image.
pub struct BakeTask {
    /// The archive with the system files.
    pub archive: String,
    /// The image to write.
    pub image: String,
}

/// The arguments of the task that applies recipes to a system.
pub struct CustomizeTask {
    /// The archive with the system to change.
    pub src: String,
    /// The archive to write the changed system to.
    pub dest: String,
}

} // verus!
