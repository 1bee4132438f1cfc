//! Repositories of a project and how a repository names its dependencies.

use vstd::prelude::*;

use crate::table::{table_find, table_get};

verus! {

/// Identifies a repository of a project.
#[derive(Clone, Copy, Debug, PartialEq, Eq, Hash, Structural)]
pub struct RepositoryIdx(pub usize);

/// A repository: its source directory and the names under which it refers to
/// the repositories it depends on.
#[derive(Clone)]
pub struct Repository {
    pub name: String,
    pub dir: String,
    pub repositories: Vec<(String, RepositoryIdx)>,
}

/// All repositories of a project, with the root (the project itself) and the
/// core repository singled out.
#[derive(Clone)]
pub struct ProjectRepositories {
    pub repositories: Vec<Repository>,
    pub root_repository: RepositoryIdx,
    pub core_repository: RepositoryIdx,
}

impl ProjectRepositories {
    /// Every index that the collection holds is in range.
    pub open spec fn wf(&self) -> bool {
        &&& self.root_repository.0 < self.repositories@.len()
        &&& self.core_repository.0 < self.repositories@.len()
        &&& forall|r: int, k: int|
            0 <= r < self.repositories@.len() && 0 <= k
                < self.repositories@[r].repositories@.len() ==> (
            #[trigger] self.repositories@[r].repositories@[k]).1.0 < self.repositories@.len()
    }

    /// The repository that `repo` calls `dep`: `core` always names the core
    /// repository, any other name must be a declared dependency of `repo`.
    pub open spec fn spec_resolve(&self, repo: RepositoryIdx, dep: Seq<char>) -> Option<
        RepositoryIdx,
    > {
        if dep == "core"@ {
            Some(self.core_repository)
        } else {
            table_get(self.repositories@[repo.0 as int].repositories@, dep)
        }
    }

    /// Resolves the repository that `repo` calls `dep`.
    pub fn resolve(&self, repo: RepositoryIdx, dep: &str) -> (r: Option<RepositoryIdx>)
        requires
            self.wf(),
            repo.0 < self.repositories@.len(),
        ensures
            r == self.spec_resolve(repo, dep@),
            r matches Some(t) ==> t.0 < self.repositories@.len(),
    {
        let dep_name = dep.to_owned();
        let core = "core".to_owned();
        if dep_name == core {
            Some(self.core_repository)
        } else {
            let r = table_find(&self.repositories[repo.0].repositories, &dep_name);
            proof {
                crate::table::lemma_table_get_entry(
                    self.repositories@[repo.0 as int].repositories@,
                    dep@,
                );
            }
            r
        }
    }
}

} // verus!

verus! {

impl ProjectRepositories {
    /// Whether every index that the collection holds is in range.
    pub fn is_wf(&self) -> (r: bool)
        ensures
            r == self.wf(),
    {
        let n = self.repositories.len();
        if self.root_repository.0 >= n || self.core_repository.0 >= n {
            return false;
        }
        let mut r: usize = 0;
        while r < n
            invariant
                n == self.repositories@.len(),
                r <= n,
                forall|a: int, k: int|
                    0 <= a < r && 0 <= k < self.repositories@[a].repositories@.len() ==> (
                    #[trigger] self.repositories@[a].repositories@[k]).1.0 < n,
            decreases n - r,
        {
            let deps = &self.repositories[r].repositories;
            let mut k: usize = 0;
            while k < deps.len()
                invariant
                    n == self.repositories@.len(),
                    r < n,
                    *deps == self.repositories@[r as int].repositories,
                    k <= deps@.len(),
                    forall|a: int, q: int|
                        0 <= a < r && 0 <= q < self.repositories@[a].repositories@.len() ==> (
                        #[trigger] self.repositories@[a].repositories@[q]).1.0 < n,
                    forall|q: int| 0 <= q < k ==> (#[trigger] deps@[q]).1.0 < n,
                decreases deps@.len() - k,
            {
                if deps[k].1.0 >= n {
                    assert(self.repositories@[r as int].repositories@[k as int].1.0 >= n);
                    return false;
                }
                k = k + 1;
            }
            r = r + 1;
        }
        true
    }
}

} // verus!
