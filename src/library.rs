//! The library: every recipe and layer of a project's repositories, with one
//! name table per repository.

use vstd::prelude::*;

use crate::layers::{Architecture, Layer, LayerConfig, LayerIdx};
use crate::recipes::{Recipe, RecipeIdx};
use crate::repositories::{ProjectRepositories, RepositoryIdx};
use crate::table::{lemma_table_get_entry, lemma_table_get_none, lemma_table_get_push, table_find, table_get};
use crate::text::{split_at_first, split_once};

verus! {

/// Why a library could not be built.
#[derive(Debug)]
pub enum LibraryError {
    /// A layer file named `<name>.<arch>` with an unknown architecture.
    UnknownArchitecture(String),
}

/// One file of a layer: `stem` is its file name without extension, either
/// `<name>` or `<name>.<arch>`.
pub struct LayerFile {
    pub repository: RepositoryIdx,
    pub stem: String,
    pub modified: u64,
    pub config: LayerConfig,
}

/// The layer name and architecture that a layer file stem stands for, or
/// `None` for an unknown architecture.
pub open spec fn layer_key(stem: Seq<char>) -> Option<(Seq<char>, Option<Architecture>)> {
    match split_at_first(stem, '.') {
        None => Some((stem, None)),
        Some(p) => match Architecture::spec_parse(p.1) {
            Some(a) => Some((p.0, Some(a))),
            None => None,
        },
    }
}

/// The name of the layer that a layer file stem stands for.
pub open spec fn layer_name_of(stem: Seq<char>) -> Seq<char> {
    match layer_key(stem) {
        Some(k) => k.0,
        None => stem,
    }
}

pub open spec fn max_u64(a: u64, b: u64) -> u64 {
    if a >= b {
        a
    } else {
        b
    }
}

/// The layer `new` holds the configuration `c` of a file for `arch`, and
/// otherwise what `old` held.
pub open spec fn config_placed(
    old: Layer,
    new: Layer,
    arch: Option<Architecture>,
    c: LayerConfig,
) -> bool {
    match arch {
        None => new.default_config == Some(c) && new.arch_configs == old.arch_configs,
        Some(a) => new.default_config == old.default_config && new.arch_configs@
            == arch_put(old.arch_configs@, a, c),
    }
}

/// The position of the first override for `a`, or the length if none.
pub open spec fn first_arch(s: Seq<(Architecture, LayerConfig)>, a: Architecture) -> int
    decreases s.len(),
{
    if s.len() == 0 || s[0].0 == a {
        0
    } else {
        1 + first_arch(s.drop_first(), a)
    }
}

/// The overrides `s` with the one for `a` set to `c`: an existing override
/// for `a` is replaced, else one is added.
pub open spec fn arch_put(s: Seq<(Architecture, LayerConfig)>, a: Architecture, c: LayerConfig) -> Seq<(Architecture, LayerConfig)> {
    let i = first_arch(s, a);
    if i < s.len() {
        s.update(i, (a, c))
    } else {
        s.push((a, c))
    }
}

proof fn lemma_first_arch(s: Seq<(Architecture, LayerConfig)>, a: Architecture, i: int)
    requires
        0 <= i <= s.len(),
        forall|k: int| 0 <= k < i ==> s[k].0 != a,
        i == s.len() || s[i].0 == a,
    ensures
        first_arch(s, a) == i,
    decreases i,
{
    if i > 0 {
        lemma_first_arch(s.drop_first(), a, i - 1);
    }
}

/// An index table that gained one entry.
pub open spec fn table_pushed<I>(
    old: Seq<(String, I)>,
    new: Seq<(String, I)>,
    name: Seq<char>,
    v: I,
) -> bool {
    new.len() == old.len() + 1 && new.drop_last() == old && new.last().0@ == name && new.last().1
        == v
}

/// The layer `new`, made for a file, holds exactly that file's configuration.
pub open spec fn config_fresh(new: Layer, arch: Option<Architecture>, c: LayerConfig) -> bool {
    match arch {
        None => new.default_config == Some(c) && new.arch_configs@.len() == 0,
        Some(a) => new.default_config is None && new.arch_configs@ == seq![(a, c)],
    }
}

/// `new` is `old` with the layer file `file` added, and `r` is the result of
/// adding it.
pub open spec fn layer_file_added(
    old: Library,
    new: Library,
    file: LayerFile,
    r: Result<LayerIdx, LibraryError>,
) -> bool {
    match layer_key(file.stem@) {
        None => {
            &&& new == old
            &&& r is Err
            &&& split_at_first(file.stem@, '.') matches Some(p)
            &&& r->Err_0->UnknownArchitecture_0@ == p.1
        },
        Some(key) => {
            &&& r is Ok
            &&& new.repositories == old.repositories
            &&& new.recipes == old.recipes
            &&& new.recipe_tables == old.recipe_tables
            &&& new.layer_tables@.len() == old.layer_tables@.len()
            &&& layer_entry_added(old, new, file, key, r->Ok_0)
        },
    }
}

/// The layer named `key.0` in the file's repository got the file `file`, at `idx`.
pub open spec fn layer_entry_added(
    old: Library,
    new: Library,
    file: LayerFile,
    key: (Seq<char>, Option<Architecture>),
    idx: LayerIdx,
) -> bool {
    let repo = file.repository.0 as int;
    match table_get(old.layer_tables@[repo]@, key.0) {
            Some(j) => {
                &&& idx == j
                &&& new.layer_tables == old.layer_tables
                &&& new.layers@.len() == old.layers@.len()
                &&& forall|k: int|
                    0 <= k < new.layers@.len() && k != j.0 ==> #[trigger] new.layers@[k]
                        == old.layers@[k]
                &&& new.layers@[j.0 as int].modified == max_u64(
                    old.layers@[j.0 as int].modified,
                    file.modified,
                )
                &&& config_placed(old.layers@[j.0 as int], new.layers@[j.0 as int], key.1, file.config)
            },
            None => {
                &&& idx.0 == old.layers@.len()
                &&& new.layers@.len() == old.layers@.len() + 1
                &&& new.layers@.drop_last() == old.layers@
                &&& new.layers@.last().modified == file.modified
                &&& config_fresh(new.layers@.last(), key.1, file.config)
                &&& forall|k: int|
                    0 <= k < new.layer_tables@.len() && k != repo ==> #[trigger] new.layer_tables@[k]
                        == old.layer_tables@[k]
                &&& table_pushed(old.layer_tables@[repo]@, new.layer_tables@[repo]@, key.0, idx)
            },
    }
}

/// The table of `recipe`'s repository finds, under its name, a recipe of that
/// name that was added at position `i` or later.
pub open spec fn recipe_entered(lib: Library, recipe: Recipe, i: int) -> bool {
    table_get(lib.recipe_tables@[recipe.repository.0 as int]@, recipe.name@) matches Some(j) && i <= j.0
        && j.0 < lib.recipes@.len() && lib.recipes@[j.0 as int].name@ == recipe.name@
}

/// Layer file `f` belongs to the layer named `n` of repository `r`.
pub open spec fn file_of(f: LayerFile, r: RepositoryIdx, n: Seq<char>) -> bool {
    f.repository == r && layer_name_of(f.stem@) == n
}

/// The architecture a layer file stem is written for, if any.
pub open spec fn layer_arch_of(stem: Seq<char>) -> Option<Architecture> {
    match layer_key(stem) {
        Some(k) => k.1,
        None => None,
    }
}

/// The latest modification time among the files of layer `n` of `r`.
pub open spec fn fold_modified(fs: Seq<LayerFile>, r: RepositoryIdx, n: Seq<char>) -> u64
    decreases fs.len(),
{
    if fs.len() == 0 {
        0
    } else if file_of(fs.last(), r, n) {
        max_u64(fold_modified(fs.drop_last(), r, n), fs.last().modified)
    } else {
        fold_modified(fs.drop_last(), r, n)
    }
}

/// The configuration of the last default file of layer `n` of `r`.
pub open spec fn fold_default(fs: Seq<LayerFile>, r: RepositoryIdx, n: Seq<char>) -> Option<LayerConfig>
    decreases fs.len(),
{
    if fs.len() == 0 {
        None
    } else if file_of(fs.last(), r, n) && layer_arch_of(fs.last().stem@) is None {
        Some(fs.last().config)
    } else {
        fold_default(fs.drop_last(), r, n)
    }
}

/// The overrides of layer `n` of `r`: one per architecture, from the last
/// file for it.
pub open spec fn fold_arch(fs: Seq<LayerFile>, r: RepositoryIdx, n: Seq<char>) -> Seq<(Architecture, LayerConfig)>
    decreases fs.len(),
{
    if fs.len() == 0 {
        Seq::empty()
    } else if file_of(fs.last(), r, n) && layer_arch_of(fs.last().stem@) is Some {
        arch_put(fold_arch(fs.drop_last(), r, n), layer_arch_of(fs.last().stem@)->Some_0, fs.last().config)
    } else {
        fold_arch(fs.drop_last(), r, n)
    }
}

/// `l` is what the files `fs` make of layer `n` of `r`.
pub open spec fn layer_folded(l: Layer, fs: Seq<LayerFile>, r: RepositoryIdx, n: Seq<char>) -> bool {
    &&& l.modified == fold_modified(fs, r, n)
    &&& l.default_config == fold_default(fs, r, n)
    &&& l.arch_configs@ == fold_arch(fs, r, n)
}

/// The table of `r` finds layer `n`, and it is what the files `fs` make of it.
pub open spec fn layer_matches(lib: Library, fs: Seq<LayerFile>, r: RepositoryIdx, n: Seq<char>) -> bool {
    table_get(lib.layer_tables@[r.0 as int]@, n) matches Some(x) && x.0 < lib.layers@.len() && layer_folded(
        lib.layers@[x.0 as int],
        fs,
        r,
        n,
    )
}

/// Every entry of a layer table names a layer that some file of `fs`
/// belongs to.
pub open spec fn layers_from(lib: Library, fs: Seq<LayerFile>) -> bool {
    forall|r: int, k: int|
        0 <= r < lib.layer_tables@.len() && 0 <= k < lib.layer_tables@[r]@.len() ==> exists|i: int|
            0 <= i < fs.len() && file_of(
                #[trigger] fs[i],
                RepositoryIdx(r as usize),
                (#[trigger] lib.layer_tables@[r]@[k]).0@,
            )
}

/// Two table entries share a layer only when they are in the same table
/// under the same name.
pub open spec fn layers_distinct(lib: Library) -> bool {
    forall|r1: int, k1: int, r2: int, k2: int|
        0 <= r1 < lib.layer_tables@.len() && 0 <= k1 < lib.layer_tables@[r1]@.len() && 0 <= r2
            < lib.layer_tables@.len() && 0 <= k2 < lib.layer_tables@[r2]@.len() && (
        #[trigger] lib.layer_tables@[r1]@[k1]).1 == (#[trigger] lib.layer_tables@[r2]@[k2]).1 ==> r1 == r2
            && lib.layer_tables@[r1]@[k1].0@ == lib.layer_tables@[r2]@[k2].0@
}

/// No table holds a name twice, and every layer is in some table.
pub open spec fn layers_named(lib: Library) -> bool {
    &&& forall|r: int, k1: int, k2: int|
        0 <= r < lib.layer_tables@.len() && 0 <= k1 < k2 < lib.layer_tables@[r]@.len() ==> (
        #[trigger] lib.layer_tables@[r]@[k1]).0@ != (#[trigger] lib.layer_tables@[r]@[k2]).0@
    &&& forall|x: int| 0 <= x < lib.layers@.len() ==> #[trigger] layer_listed(lib, x)
}

/// Layer `x` is in some table.
pub open spec fn layer_listed(lib: Library, x: int) -> bool {
    exists|r: int, k: int|
        0 <= r < lib.layer_tables@.len() && 0 <= k < lib.layer_tables@[r]@.len() && (
        #[trigger] lib.layer_tables@[r]@[k]).1.0 == x
}

/// How many of `s` belong to repository `r`.
pub open spec fn count_repo(s: Seq<Recipe>, r: int) -> nat
    decreases s.len(),
{
    if s.len() == 0 {
        0
    } else {
        count_repo(s.drop_last(), r) + if s.last().repository.0 == r {
            1nat
        } else {
            0nat
        }
    }
}

proof fn lemma_fold_base(fs: Seq<LayerFile>, r: RepositoryIdx, n: Seq<char>)
    requires
        forall|i: int| 0 <= i < fs.len() ==> !file_of(#[trigger] fs[i], r, n),
    ensures
        fold_modified(fs, r, n) == 0,
        fold_default(fs, r, n) is None,
        fold_arch(fs, r, n) == Seq::<(Architecture, LayerConfig)>::empty(),
    decreases fs.len(),
{
    if fs.len() > 0 {
        assert(!file_of(fs[fs.len() - 1], r, n));
        assert forall|i: int| 0 <= i < fs.drop_last().len() implies !file_of(#[trigger] fs.drop_last()[i], r, n) by {
            assert(fs.drop_last()[i] == fs[i]);
        }
        lemma_fold_base(fs.drop_last(), r, n);
    }
}

pub struct Library {
    pub repositories: ProjectRepositories,
    pub recipes: Vec<Recipe>,
    pub layers: Vec<Layer>,
    pub recipe_tables: Vec<Vec<(String, RecipeIdx)>>,
    pub layer_tables: Vec<Vec<(String, LayerIdx)>>,
}

impl Library {
    /// Every table entry points into its arena, and the recipe tables of a
    /// repository only name recipes of that repository.
    pub open spec fn wf(&self) -> bool {
        let n = self.repositories.repositories@.len();
        &&& self.repositories.wf()
        &&& self.recipe_tables@.len() == n
        &&& self.layer_tables@.len() == n
        &&& forall|i: int|
            0 <= i < self.recipes@.len() ==> (#[trigger] self.recipes@[i]).repository.0 < n
        &&& forall|r: int, k: int|
            0 <= r < n && 0 <= k < self.recipe_tables@[r]@.len() ==> {
                let e = #[trigger] self.recipe_tables@[r]@[k];
                &&& e.1.0 < self.recipes@.len()
                &&& self.recipes@[e.1.0 as int].repository.0 == r
                &&& self.recipes@[e.1.0 as int].name@ == e.0@
            }
        &&& forall|r: int, k: int|
            0 <= r < n && 0 <= k < self.layer_tables@[r]@.len() ==> (
            #[trigger] self.layer_tables@[r]@[k]).1.0 < self.layers@.len()
    }

    /// The repository and local name that `name`, used in `repo`, refers to.
    pub open spec fn spec_target(&self, repo: RepositoryIdx, name: Seq<char>) -> Option<
        (RepositoryIdx, Seq<char>),
    > {
        match split_at_first(name, '/') {
            None => Some((repo, name)),
            Some(p) => match self.repositories.spec_resolve(repo, p.0) {
                Some(t) => Some((t, p.1)),
                None => None,
            },
        }
    }

    pub open spec fn spec_lookup(&self, repo: RepositoryIdx, name: Seq<char>) -> Option<RecipeIdx> {
        match self.spec_target(repo, name) {
            Some(t) => table_get(self.recipe_tables@[t.0.0 as int]@, t.1),
            None => None,
        }
    }

    /// Recipe `i` is the recipe that `name`, used in `repo`, refers to by
    /// repository and local name.
    pub open spec fn names_recipe(&self, repo: RepositoryIdx, name: Seq<char>, i: RecipeIdx) -> bool {
        match self.spec_target(repo, name) {
            Some(t) => self.recipes@[i.0 as int].name@ == t.1 && self.recipes@[i.0 as int].repository == t.0,
            None => false,
        }
    }

    pub open spec fn spec_lookup_layer(&self, repo: RepositoryIdx, name: Seq<char>) -> Option<
        LayerIdx,
    > {
        match self.spec_target(repo, name) {
            Some(t) => table_get(self.layer_tables@[t.0.0 as int]@, t.1),
            None => None,
        }
    }

    /// `recipe` as the library stores it: only recipes of the root repository
    /// keep their default flag.
    pub open spec fn tagged(&self, recipe: Recipe) -> Recipe {
        Recipe {
            info: crate::recipes::RecipeInfo {
                default: recipe.info.default && recipe.repository == self.repositories.root_repository,
                ..recipe.info
            },
            ..recipe
        }
    }

    /// An empty library over the given repositories.
    pub fn new(repositories: ProjectRepositories) -> (r: Library)
        requires
            repositories.wf(),
        ensures
            r.wf(),
            r.repositories == repositories,
            r.recipes@.len() == 0,
            r.layers@.len() == 0,
            forall|i: int| 0 <= i < r.recipe_tables@.len() ==> (#[trigger] r.recipe_tables@[i])@.len() == 0,
            forall|i: int| 0 <= i < r.layer_tables@.len() ==> (#[trigger] r.layer_tables@[i])@.len() == 0,
    {
        let n = repositories.repositories.len();
        let mut recipe_tables: Vec<Vec<(String, RecipeIdx)>> = Vec::new();
        let mut layer_tables: Vec<Vec<(String, LayerIdx)>> = Vec::new();
        let mut i: usize = 0;
        while i < n
            invariant
                i <= n,
                recipe_tables@.len() == i,
                layer_tables@.len() == i,
                forall|j: int| 0 <= j < i ==> (#[trigger] recipe_tables@[j])@.len() == 0,
                forall|j: int| 0 <= j < i ==> (#[trigger] layer_tables@[j])@.len() == 0,
            decreases n - i,
        {
            recipe_tables.push(Vec::new());
            layer_tables.push(Vec::new());
            i = i + 1;
        }
        Library { repositories, recipes: Vec::new(), layers: Vec::new(), recipe_tables, layer_tables }
    }

    /// Adds a recipe of an existing repository and enters it in that
    /// repository's table, shadowing an earlier recipe of the same name.
    pub fn add_recipe(&mut self, recipe: Recipe) -> (idx: RecipeIdx)
        requires
            old(self).wf(),
            recipe.repository.0 < old(self).repositories.repositories@.len(),
            old(self).recipes@.len() < usize::MAX,
        ensures
            final(self).wf(),
            idx.0 == old(self).recipes@.len(),
            final(self).recipes@ == old(self).recipes@.push(old(self).tagged(recipe)),
            final(self).repositories == old(self).repositories,
            final(self).layers == old(self).layers,
            final(self).layer_tables == old(self).layer_tables,
            final(self).recipe_tables@.len() == old(self).recipe_tables@.len(),
            forall|r: int|
                0 <= r < final(self).recipe_tables@.len() && r != recipe.repository.0 ==> (
                #[trigger] final(self).recipe_tables@[r]) == old(self).recipe_tables@[r],
            table_pushed(
                old(self).recipe_tables@[recipe.repository.0 as int]@,
                final(self).recipe_tables@[recipe.repository.0 as int]@,
                recipe.name@,
                idx,
            ),
    {
        let ghost tagged = self.tagged(recipe);
        let repo = recipe.repository;
        let name = recipe.name.clone();
        let mut recipe = recipe;
        recipe.info.default = recipe.info.default && repo == self.repositories.root_repository;
        assert(recipe == tagged);
        let idx = RecipeIdx(self.recipes.len());
        self.recipes.push(recipe);
        let mut table = self.recipe_tables.remove(repo.0);
        let ghost old_table = table@;
        table.push((name, idx));
        self.recipe_tables.insert(repo.0, table);
        assert(self.recipe_tables@ =~= old(self).recipe_tables@.update(repo.0 as int, table));
        proof {
            assert(table@.drop_last() =~= old_table);
            let lib = *self;
            assert forall|r: int, k: int|
                0 <= r < lib.repositories.repositories@.len() && 0 <= k
                    < lib.recipe_tables@[r]@.len() implies {
                let e = #[trigger] lib.recipe_tables@[r]@[k];
                &&& e.1.0 < lib.recipes@.len()
                &&& lib.recipes@[e.1.0 as int].repository.0 == r
                &&& lib.recipes@[e.1.0 as int].name@ == e.0@
            } by {
                if r == repo.0 && k == old_table.len() {
                } else {
                    let e = old(self).recipe_tables@[r]@[k];
                    assert(lib.recipe_tables@[r]@[k] == e);
                    assert(lib.recipes@[e.1.0 as int] == old(self).recipes@[e.1.0 as int]);
                }
            }
            assert forall|i: int| 0 <= i < lib.recipes@.len() implies (
            #[trigger] lib.recipes@[i]).repository.0 < lib.repositories.repositories@.len() by {
                if i < old(self).recipes@.len() {
                    assert(lib.recipes@[i] == old(self).recipes@[i]);
                }
            }
        }
        idx
    }

    /// Adds one layer file. The first file of a name in a repository makes a
    /// new layer; later ones update it: the modification time becomes the
    /// latest one, and the file's configuration becomes the default one or the
    /// override for its architecture.
    pub fn add_layer_file(&mut self, file: LayerFile) -> (r: Result<LayerIdx, LibraryError>)
        requires
            old(self).wf(),
            file.repository.0 < old(self).repositories.repositories@.len(),
            old(self).layers@.len() < usize::MAX,
        ensures
            final(self).wf(),
            layer_file_added(*old(self), *final(self), file, r),
    {
        let ghost file_view = file;
        let LayerFile { repository, stem, modified, config } = file;
        let (name, arch): (&str, Option<Architecture>) = match split_once(stem.as_str(), '.') {
            Some((n, a)) => match Architecture::parse(a) {
                Some(x) => (n, Some(x)),
                None => {
                    return Err(LibraryError::UnknownArchitecture(a.to_owned()));
                },
            },
            None => (stem.as_str(), None),
        };
        let key = name.to_owned();
        match table_find(&self.layer_tables[repository.0], &key) {
            Some(j) => {
                proof {
                    lemma_table_get_entry(self.layer_tables@[repository.0 as int]@, key@);
                }
                let mut layer = self.layers.remove(j.0);
                let ghost old_layer = layer;
                if modified > layer.modified {
                    layer.modified = modified;
                }
                match arch {
                    None => {
                        layer.default_config = Some(config);
                    },
                    Some(a) => {
                        let mut p: usize = 0;
                        while p < layer.arch_configs.len() && layer.arch_configs[p].0 != a
                            invariant
                                p <= layer.arch_configs@.len(),
                                forall|k: int| 0 <= k < p ==> layer.arch_configs@[k].0 != a,
                            decreases layer.arch_configs@.len() - p,
                        {
                            p = p + 1;
                        }
                        proof {
                            lemma_first_arch(layer.arch_configs@, a, p as int);
                        }
                        if p < layer.arch_configs.len() {
                            layer.arch_configs.set(p, (a, config));
                        } else {
                            layer.arch_configs.push((a, config));
                        }
                    },
                }
                assert(config_placed(old_layer, layer, arch, file_view.config));
                self.layers.insert(j.0, layer);
                assert(self.layers@ =~= old(self).layers@.update(j.0 as int, layer));
                Ok(j)
            },
            None => {
                let idx = LayerIdx(self.layers.len());
                let mut layer = Layer::new(modified);
                match arch {
                    None => {
                        layer.default_config = Some(config);
                    },
                    Some(a) => {
                        layer.arch_configs.push((a, config));
                        assert(layer.arch_configs@ =~= seq![(a, file_view.config)]);
                    },
                }
                self.layers.push(layer);
                let mut table = self.layer_tables.remove(repository.0);
                let ghost old_table = table@;
                table.push((key, idx));
                self.layer_tables.insert(repository.0, table);
                assert(self.layer_tables@ =~= old(self).layer_tables@.update(
                    repository.0 as int,
                    table,
                ));
                assert(table@.drop_last() =~= old_table);
                assert(self.layers@.drop_last() =~= old(self).layers@);
                proof {
                    let lib = *self;
                    assert forall|r: int, k: int|
                        0 <= r < lib.repositories.repositories@.len() && 0 <= k
                            < lib.layer_tables@[r]@.len() implies (
                    #[trigger] lib.layer_tables@[r]@[k]).1.0 < lib.layers@.len() by {
                        if r == repository.0 && k == old_table.len() {
                        } else {
                            assert(lib.layer_tables@[r]@[k] == old(self).layer_tables@[r]@[k]);
                        }
                    }
                }
                Ok(idx)
            },
        }
    }

    /// Builds the library of the given repositories from their recipes and
    /// layer files, in the order given. Fails on the first layer file whose
    /// architecture is unknown.
    pub fn load(repositories: ProjectRepositories, recipes: Vec<Recipe>, layer_files: Vec<LayerFile>) -> (r: Result<Library, LibraryError>)
        requires
            repositories.wf(),
            forall|i: int| 0 <= i < recipes@.len() ==> (#[trigger] recipes@[i]).repository.0 < repositories.repositories@.len(),
            forall|i: int| 0 <= i < layer_files@.len() ==> (#[trigger] layer_files@[i]).repository.0 < repositories.repositories@.len(),
        ensures
            r is Ok <==> forall|i: int| 0 <= i < layer_files@.len() ==> layer_key((#[trigger] layer_files@[i]).stem@) is Some,
            r matches Ok(lib) ==> {
                &&& lib.wf()
                &&& lib.repositories == repositories
                &&& lib.recipes@.len() == recipes@.len()
                &&& forall|i: int| 0 <= i < recipes@.len() ==> #[trigger] lib.recipes@[i] == lib.tagged(recipes@[i])
                &&& forall|i: int| 0 <= i < recipes@.len() ==> recipe_entered(lib, #[trigger] recipes@[i], i)
                &&& forall|r: int| 0 <= r < lib.recipe_tables@.len() ==> (#[trigger] lib.recipe_tables@[r])@.len() == count_repo(recipes@, r)
                &&& forall|i: int| 0 <= i < layer_files@.len() ==> layer_matches(lib, layer_files@, (#[trigger] layer_files@[i]).repository, layer_name_of(layer_files@[i].stem@))
                &&& layers_from(lib, layer_files@)
                &&& layers_distinct(lib)
                &&& layers_named(lib)
            },
    {
        let mut lib = Library::new(repositories);
        let ghost repos = lib.repositories;
        let ghost input = recipes@;
        let mut recipes = recipes;
        let mut i: usize = 0;
        let n = recipes.len();
        while i < n
            invariant
                lib.wf(),
                lib.repositories == repos,
                i <= n,
                n == input.len(),
                recipes@ == input.skip(i as int),
                lib.recipes@.len() == i,
                lib.layers@.len() == 0,
                forall|k: int| 0 <= k < i ==> #[trigger] lib.recipes@[k] == lib.tagged(input[k]),
                forall|k: int| 0 <= k < input.len() ==> (#[trigger] input[k]).repository.0 < repos.repositories@.len(),
                forall|k: int| 0 <= k < i ==> recipe_entered(lib, #[trigger] input[k], k),
                forall|r: int| 0 <= r < lib.layer_tables@.len() ==> (#[trigger] lib.layer_tables@[r])@.len() == 0,
                forall|r: int| 0 <= r < lib.recipe_tables@.len() ==> (#[trigger] lib.recipe_tables@[r])@.len() == count_repo(input.take(i as int), r),
            decreases n - i,
        {
            let recipe = recipes.remove(0);
            assert(recipe == input[i as int]);
            assert(recipes@ =~= input.skip(i + 1));
            let ghost before = lib;
            lib.add_recipe(recipe);
            proof {
                lemma_recipes_entered_kept(before, lib, input, i);
                assert(input.take(i + 1).drop_last() =~= input.take(i as int));
                assert forall|r: int| 0 <= r < lib.recipe_tables@.len() implies (#[trigger] lib.recipe_tables@[r])@.len() == count_repo(input.take(i + 1), r) by {
                    if r != input[i as int].repository.0 {
                        assert(lib.recipe_tables@[r] == before.recipe_tables@[r]);
                    }
                }
            }
            i = i + 1;
        }
        assert(input.take(n as int) =~= input);
        let ghost files = layer_files@;
        let mut pending = layer_files;
        let nf = pending.len();
        let mut j: usize = 0;
        while j < nf
            invariant
                lib.wf(),
                lib.repositories == repos,
                lib.recipes@.len() == n,
                n == input.len(),
                forall|k: int| 0 <= k < n ==> #[trigger] lib.recipes@[k] == lib.tagged(input[k]),
                pending@ == files.skip(j as int),
                j <= files.len(),
                nf == files.len(),
                files == layer_files@,
                lib.layers@.len() <= j,
                forall|k: int| 0 <= k < j ==> layer_key((#[trigger] files[k]).stem@) is Some,
                forall|k: int| 0 <= k < files.len() ==> (#[trigger] files[k]).repository.0 < repos.repositories@.len(),
                forall|k: int| 0 <= k < n ==> recipe_entered(lib, #[trigger] input[k], k),
                forall|k: int| 0 <= k < j ==> layer_matches(lib, files.take(j as int), (#[trigger] files[k]).repository, layer_name_of(files[k].stem@)),
                layers_from(lib, files.take(j as int)),
                layers_distinct(lib),
                layers_named(lib),
                forall|r: int| 0 <= r < lib.recipe_tables@.len() ==> (#[trigger] lib.recipe_tables@[r])@.len() == count_repo(input, r),
            decreases files.len() - j,
        {
            let file = pending.remove(0);
            assert(file == files[j as int]);
            assert(pending@ =~= files.skip(j + 1));
            let ghost before = lib;
            let added = lib.add_layer_file(file);
            match added {
                Ok(x) => {
                    proof {
                        lemma_layer_step(before, lib, files, j as int, x);
                        assert(lib.recipe_tables == before.recipe_tables);
                        assert forall|k: int| 0 <= k < n implies recipe_entered(lib, #[trigger] input[k], k) by {
                            assert(recipe_entered(before, input[k], k));
                        }
                    }
                },
                Err(e) => {
                    assert(layer_key(files[j as int].stem@) is None);
                    return Err(e);
                },
            }
            j = j + 1;
        }
        assert(files.take(nf as int) =~= files);
        Ok(lib)
    }

    /// Resolves the repository and local name that `name` refers to in `repo`.
    fn target<'a>(&self, repo: RepositoryIdx, name: &'a str) -> (r: Option<(RepositoryIdx, &'a str)>)
        requires
            self.wf(),
            repo.0 < self.repositories.repositories@.len(),
        ensures
            match r {
                Some(t) => self.spec_target(repo, name@) == Some((t.0, t.1@)) && t.0.0
                    < self.repositories.repositories@.len(),
                None => self.spec_target(repo, name@) is None,
            },
    {
        match split_once(name, '/') {
            Some((dependency_name, item_name)) => {
                match self.repositories.resolve(repo, dependency_name) {
                    Some(t) => Some((t, item_name)),
                    None => None,
                }
            },
            None => Some((repo, name)),
        }
    }

    /// Looks up a recipe by a local (`name`) or qualified (`dependency/name`)
    /// name, as used in repository `repository`.
    pub fn lookup(&self, repository: RepositoryIdx, name: &str) -> (r: Option<RecipeIdx>)
        requires
            self.wf(),
            repository.0 < self.repositories.repositories@.len(),
        ensures
            r == self.spec_lookup(repository, name@),
            r matches Some(i) ==> i.0 < self.recipes@.len() && self.names_recipe(repository, name@, i),
    {
        match self.target(repository, name) {
            Some((t, local)) => {
                let key = local.to_owned();
                let r = table_find(&self.recipe_tables[t.0], &key);
                proof {
                    lemma_table_get_entry(self.recipe_tables@[t.0 as int]@, local@);
                }
                r
            },
            None => None,
        }
    }

    /// Looks up a layer by a local or qualified name, as used in `repo`.
    pub fn lookup_layer(&self, repo: RepositoryIdx, name: &str) -> (r: Option<LayerIdx>)
        requires
            self.wf(),
            repo.0 < self.repositories.repositories@.len(),
        ensures
            r == self.spec_lookup_layer(repo, name@),
            r matches Some(i) ==> i.0 < self.layers@.len(),
    {
        match self.target(repo, name) {
            Some((t, local)) => {
                let key = local.to_owned();
                let r = table_find(&self.layer_tables[t.0], &key);
                proof {
                    lemma_table_get_entry(self.layer_tables@[t.0 as int]@, local@);
                }
                r
            },
            None => None,
        }
    }
}

} // verus!

verus! {

/// Adding recipe `i` keeps what the earlier recipes entered and enters it.
proof fn lemma_recipes_entered_kept(before: Library, lib: Library, input: Seq<Recipe>, i: usize)
    requires
        0 <= i < input.len(),
        before.wf(),
        forall|k: int| 0 <= k < input.len() ==> (#[trigger] input[k]).repository.0 < before.repositories.repositories@.len(),
        before.recipes@.len() == i,
        lib.recipes@ == before.recipes@.push(before.tagged(input[i as int])),
        lib.recipe_tables@.len() == before.recipe_tables@.len(),
        forall|r: int|
            0 <= r < lib.recipe_tables@.len() && r != input[i as int].repository.0 ==> (
            #[trigger] lib.recipe_tables@[r]) == before.recipe_tables@[r],
        table_pushed(
            before.recipe_tables@[input[i as int].repository.0 as int]@,
            lib.recipe_tables@[input[i as int].repository.0 as int]@,
            input[i as int].name@,
            RecipeIdx(i),
        ),
        forall|k: int| 0 <= k < i ==> recipe_entered(before, #[trigger] input[k], k),
    ensures
        forall|k: int| 0 <= k < i + 1 ==> recipe_entered(lib, #[trigger] input[k], k),
{
    let repo = input[i as int].repository.0 as int;
    let name = input[i as int].name@;
    assert forall|k: int| 0 <= k < i + 1 implies recipe_entered(lib, #[trigger] input[k], k) by {
        let rk = input[k].repository.0 as int;
        lemma_table_get_push(
            before.recipe_tables@[repo]@,
            lib.recipe_tables@[repo]@,
            name,
            RecipeIdx(i),
            input[k].name@,
        );
        if k < i {
            assert(recipe_entered(before, input[k], k));
            if rk != repo {
                assert(lib.recipe_tables@[rk] == before.recipe_tables@[rk]);
            }
            let j = table_get(before.recipe_tables@[rk]@, input[k].name@)->Some_0;
            assert(j.0 < i);
            assert(lib.recipes@[j.0 as int] == before.recipes@[j.0 as int]);
            if rk == repo && input[k].name@ == name {
                assert(table_get(lib.recipe_tables@[repo]@, name) == Some(RecipeIdx(i)));
                assert(lib.recipes@[i as int] == before.tagged(input[i as int]));
            } else {
                assert(table_get(lib.recipe_tables@[rk]@, input[k].name@) == Some(j));
            }
        } else {
            assert(lib.recipes@[i as int] == before.tagged(input[i as int]));
            assert(table_get(lib.recipe_tables@[repo]@, name) == Some(RecipeIdx(i)));
        }
    }
}

/// Adding layer file `j` turns what the first `j` files made into what the
/// first `j + 1` make.
proof fn lemma_layer_step(before: Library, lib: Library, files: Seq<LayerFile>, j: int, x: LayerIdx)
    requires
        0 <= j < files.len(),
        before.wf(),
        forall|k: int| 0 <= k < files.len() ==> (#[trigger] files[k]).repository.0 < before.repositories.repositories@.len(),
        layer_file_added(before, lib, files[j], Ok(x)),
        forall|k: int| 0 <= k < j ==> layer_matches(before, files.take(j), (#[trigger] files[k]).repository, layer_name_of(files[k].stem@)),
        layers_from(before, files.take(j)),
        layers_distinct(before),
        layers_named(before),
    ensures
        layers_named(lib),
        forall|k: int| 0 <= k < j + 1 ==> layer_matches(lib, files.take(j + 1), (#[trigger] files[k]).repository, layer_name_of(files[k].stem@)),
        layers_from(lib, files.take(j + 1)),
        layers_distinct(lib),
{
    let f = files[j];
    let fr = f.repository;
    let repo = fr.0 as int;
    let name = layer_name_of(f.stem@);
    let fs = files.take(j);
    let fs1 = files.take(j + 1);
    assert(fs1.drop_last() =~= fs);
    assert(fs1.last() == f);
    assert(layer_key(f.stem@) is Some);
    let key = layer_key(f.stem@)->Some_0;
    assert(key.1 == layer_arch_of(f.stem@));
    assert forall|i: int| 0 <= i < j implies #[trigger] fs1[i] == fs[i] by {}
    match table_get(before.layer_tables@[repo]@, name) {
        Some(y) => {
            assert(layer_entry_added(before, lib, f, key, x));
            assert(x == y);
            assert(lib.layer_tables == before.layer_tables);
            lemma_table_get_entry(before.layer_tables@[repo]@, name);
            let e = choose|e: int|
                0 <= e < before.layer_tables@[repo]@.len() && #[trigger] before.layer_tables@[repo]@[e] == (
                before.layer_tables@[repo]@[e].0,
                y,
            ) && before.layer_tables@[repo]@[e].0@ == name;
            assert(before.layer_tables@[repo]@[e].1 == y);
            let i0 = choose|i: int| 0 <= i < fs.len() && file_of(#[trigger] fs[i], RepositoryIdx(repo as usize), before.layer_tables@[repo]@[e].0@);
            assert(files[i0] == fs[i0]);
            assert(layer_matches(before, fs, files[i0].repository, layer_name_of(files[i0].stem@)));
            assert(layer_folded(before.layers@[y.0 as int], fs, fr, name));
            assert(layer_folded(lib.layers@[y.0 as int], fs1, fr, name)) by {
                if key.1 is Some {
                    assert(fold_arch(fs1, fr, name) == arch_put(fold_arch(fs, fr, name), key.1->Some_0, f.config));
                }
            }
            assert forall|k: int| 0 <= k < j + 1 implies layer_matches(lib, fs1, (#[trigger] files[k]).repository, layer_name_of(files[k].stem@)) by {
                let rk = files[k].repository;
                let nk = layer_name_of(files[k].stem@);
                if file_of(f, rk, nk) {
                } else {
                    assert(k < j);
                    assert(layer_matches(before, fs, rk, nk));
                    let xk = table_get(before.layer_tables@[rk.0 as int]@, nk)->Some_0;
                    lemma_table_get_entry(before.layer_tables@[rk.0 as int]@, nk);
                    let ek = choose|ek: int|
                        0 <= ek < before.layer_tables@[rk.0 as int]@.len() && #[trigger] before.layer_tables@[rk.0 as int]@[ek] == (
                        before.layer_tables@[rk.0 as int]@[ek].0,
                        xk,
                    ) && before.layer_tables@[rk.0 as int]@[ek].0@ == nk;
                    if xk == y {
                        assert(before.layer_tables@[rk.0 as int]@[ek].1 == before.layer_tables@[repo]@[e].1);
                    }
                    assert(lib.layers@[xk.0 as int] == before.layers@[xk.0 as int]);
                }
            }
            assert forall|r: int, k: int|
                0 <= r < lib.layer_tables@.len() && 0 <= k < lib.layer_tables@[r]@.len() implies exists|i: int|
                    0 <= i < fs1.len() && file_of(#[trigger] fs1[i], RepositoryIdx(r as usize), (#[trigger] lib.layer_tables@[r]@[k]).0@) by {
                let i = choose|i: int| 0 <= i < fs.len() && file_of(#[trigger] fs[i], RepositoryIdx(r as usize), before.layer_tables@[r]@[k].0@);
                assert(fs1[i] == fs[i]);
            }
            assert forall|q: int| 0 <= q < lib.layers@.len() implies layer_listed(lib, q) by {
                assert(q < before.layers@.len() ==> layer_listed(before, q));
                let (r, k) = choose|r: int, k: int|
                    0 <= r < before.layer_tables@.len() && 0 <= k < before.layer_tables@[r]@.len() && (
                    #[trigger] before.layer_tables@[r]@[k]).1.0 == q;
                assert(lib.layer_tables@[r]@[k].1.0 == q);
            }
        },
        None => {
            assert(layer_entry_added(before, lib, f, key, x));
            assert forall|i: int| 0 <= i < fs.len() implies !file_of(#[trigger] fs[i], fr, name) by {
                if file_of(fs[i], fr, name) {
                    assert(files[i] == fs[i]);
                    assert(layer_matches(before, fs, files[i].repository, layer_name_of(files[i].stem@)));
                }
            }
            lemma_fold_base(fs, fr, name);
            let t0 = before.layer_tables@[repo]@;
            let t1 = lib.layer_tables@[repo]@;
            assert(lib.layers@.drop_last() == before.layers@);
            assert forall|k: int| 0 <= k < j + 1 implies layer_matches(lib, fs1, (#[trigger] files[k]).repository, layer_name_of(files[k].stem@)) by {
                let rk = files[k].repository;
                let nk = layer_name_of(files[k].stem@);
                lemma_table_get_push(t0, t1, name, x, nk);
                if k < j {
                    assert(files[k] == fs[k]);
                    assert(!file_of(f, rk, nk));
                    assert(layer_matches(before, fs, rk, nk));
                    if rk.0 != repo {
                        assert(lib.layer_tables@[rk.0 as int] == before.layer_tables@[rk.0 as int]);
                    }
                    let xk = table_get(before.layer_tables@[rk.0 as int]@, nk)->Some_0;
                    assert(lib.layers@[xk.0 as int] == lib.layers@.drop_last()[xk.0 as int]);
                } else {
                    assert(files[k] == f);
                    let l = lib.layers@[x.0 as int];
                    assert(l == lib.layers@.last());
                    assert(config_fresh(l, key.1, f.config));
                    assert(table_get(t1, name) == Some(x));
                    assert(l.modified == fold_modified(fs1, fr, name));
                    assert(l.default_config == fold_default(fs1, fr, name));
                    if key.1 is Some {
                        assert(arch_put(Seq::<(Architecture, LayerConfig)>::empty(), key.1->Some_0, f.config) =~= seq![(key.1->Some_0, f.config)]);
                    } else {
                        assert(l.arch_configs@ =~= Seq::<(Architecture, LayerConfig)>::empty());
                    }
                    assert(l.arch_configs@ == fold_arch(fs1, fr, name));
                }
            }
            assert forall|r: int, k: int|
                0 <= r < lib.layer_tables@.len() && 0 <= k < lib.layer_tables@[r]@.len() implies exists|i: int|
                    0 <= i < fs1.len() && file_of(#[trigger] fs1[i], RepositoryIdx(r as usize), (#[trigger] lib.layer_tables@[r]@[k]).0@) by {
                if r == repo && k == t0.len() {
                    assert(t1[k] == t1.last());
                    assert(file_of(fs1[j], RepositoryIdx(r as usize), lib.layer_tables@[r]@[k].0@));
                } else {
                    if r == repo {
                        assert(lib.layer_tables@[r]@[k] == t0[k]);
                    } else {
                        assert(lib.layer_tables@[r] == before.layer_tables@[r]);
                    }
                    let i = choose|i: int| 0 <= i < fs.len() && file_of(#[trigger] fs[i], RepositoryIdx(r as usize), before.layer_tables@[r]@[k].0@);
                    assert(fs1[i] == fs[i]);
                }
            }
            lemma_table_get_none(t0, name);
            assert forall|r: int, k1: int, k2: int|
                0 <= r < lib.layer_tables@.len() && 0 <= k1 < k2 < lib.layer_tables@[r]@.len() implies (
                #[trigger] lib.layer_tables@[r]@[k1]).0@ != (#[trigger] lib.layer_tables@[r]@[k2]).0@ by {
                if r == repo {
                    assert(lib.layer_tables@[r]@[k1] == t0[k1]);
                    if k2 < t0.len() {
                        assert(lib.layer_tables@[r]@[k2] == t0[k2]);
                    } else {
                        assert(t1[k2] == t1.last());
                    }
                } else {
                    assert(lib.layer_tables@[r] == before.layer_tables@[r]);
                }
            }
            assert forall|q: int| 0 <= q < lib.layers@.len() implies layer_listed(lib, q) by {
                assert(q < before.layers@.len() ==> layer_listed(before, q));
                if q == before.layers@.len() {
                    assert(t1[t0.len() as int] == t1.last());
                    assert(lib.layer_tables@[repo]@[t0.len() as int].1.0 == q);
                } else {
                    let (r, k) = choose|r: int, k: int|
                        0 <= r < before.layer_tables@.len() && 0 <= k < before.layer_tables@[r]@.len() && (
                        #[trigger] before.layer_tables@[r]@[k]).1.0 == q;
                    if r == repo {
                        assert(lib.layer_tables@[r]@[k] == t0[k]);
                    } else {
                        assert(lib.layer_tables@[r] == before.layer_tables@[r]);
                    }
                }
            }
            assert forall|r1: int, k1: int, r2: int, k2: int|
                0 <= r1 < lib.layer_tables@.len() && 0 <= k1 < lib.layer_tables@[r1]@.len() && 0 <= r2
                    < lib.layer_tables@.len() && 0 <= k2 < lib.layer_tables@[r2]@.len() && (
                #[trigger] lib.layer_tables@[r1]@[k1]).1 == (#[trigger] lib.layer_tables@[r2]@[k2]).1 implies r1 == r2
                    && lib.layer_tables@[r1]@[k1].0@ == lib.layer_tables@[r2]@[k2].0@ by {
                let new1 = r1 == repo && k1 == t0.len();
                let new2 = r2 == repo && k2 == t0.len();
                if !new1 {
                    if r1 == repo {
                        assert(lib.layer_tables@[r1]@[k1] == t0[k1]);
                    } else {
                        assert(lib.layer_tables@[r1] == before.layer_tables@[r1]);
                    }
                }
                if !new2 {
                    if r2 == repo {
                        assert(lib.layer_tables@[r2]@[k2] == t0[k2]);
                    } else {
                        assert(lib.layer_tables@[r2] == before.layer_tables@[r2]);
                    }
                }
                if new1 && !new2 {
                    assert(before.layer_tables@[r2]@[k2].1.0 < before.layers@.len());
                }
                if new2 && !new1 {
                    assert(before.layer_tables@[r1]@[k1].1.0 < before.layers@.len());
                }
                if !new1 && !new2 {
                    assert(before.layer_tables@[r1]@[k1].1 == before.layer_tables@[r2]@[k2].1);
                }
            }
        },
    }
}

/// Qualified names resolve across repositories: `d/x`, used in `repo`, finds
/// the recipe `x` of the repository that `repo` declares as `d`, and `core/x`
/// finds the recipe `x` of the core repository, whatever `repo` declares.
pub proof fn lemma_qualified_lookup(lib: Library, repo: RepositoryIdx, d: Seq<char>, x: Seq<char>)
    requires
        lib.wf(),
        repo.0 < lib.repositories.repositories@.len(),
        !d.contains('/'),
    ensures
        d != "core"@ ==> lib.spec_lookup(repo, d + seq!['/'] + x) == match table_get(
            lib.repositories.repositories@[repo.0 as int].repositories@,
            d,
        ) {
            Some(t) => table_get(lib.recipe_tables@[t.0 as int]@, x),
            None => None,
        },
        lib.spec_lookup(repo, "core"@ + seq!['/'] + x) == table_get(
            lib.recipe_tables@[lib.repositories.core_repository.0 as int]@,
            x,
        ),
{
    crate::text::lemma_split_at_first_concat(d, '/', x);
    reveal_strlit("core");
    crate::text::lemma_split_at_first_concat("core"@, '/', x);
}

/// An unqualified name only ever finds a recipe of the repository it is used in.
pub proof fn lemma_unqualified_lookup_is_local(lib: Library, repo: RepositoryIdx, x: Seq<char>)
    requires
        lib.wf(),
        repo.0 < lib.repositories.repositories@.len(),
        !x.contains('/'),
    ensures
        lib.spec_lookup(repo, x) matches Some(i) ==> lib.recipes@[i.0 as int].repository == repo,
{
    crate::text::lemma_split_at_first_none(x, '/');
    lemma_table_get_entry(lib.recipe_tables@[repo.0 as int]@, x);
}

/// After two files of one layer are added to a library that did not have the
/// layer, the layer's modification time is the later of the two.
pub proof fn lemma_layer_modified_is_max(
    l0: Library,
    l1: Library,
    l2: Library,
    f1: LayerFile,
    f2: LayerFile,
    i1: LayerIdx,
    i2: LayerIdx,
)
    requires
        l0.wf(),
        f1.repository.0 < l0.repositories.repositories@.len(),
        layer_file_added(l0, l1, f1, Ok(i1)),
        layer_file_added(l1, l2, f2, Ok(i2)),
        f1.repository == f2.repository,
        layer_key(f1.stem@) is Some,
        layer_key(f2.stem@) is Some,
        layer_name_of(f1.stem@) == layer_name_of(f2.stem@),
        table_get(l0.layer_tables@[f1.repository.0 as int]@, layer_name_of(f1.stem@)) is None,
    ensures
        i1 == i2,
        l2.layers@[i2.0 as int].modified == max_u64(f1.modified, f2.modified),
{
    let t1 = l1.layer_tables@[f1.repository.0 as int]@;
    assert(t1.last().0@ == layer_name_of(f1.stem@));
    assert(table_get(t1, layer_name_of(f1.stem@)) == Some(i1));
    assert(l1.layers@[i1.0 as int] == l1.layers@.last());
}

} // verus!

verus! {

impl Library {
    /// Whether the library is well formed.
    pub fn is_wf(&self) -> (r: bool)
        ensures
            r == self.wf(),
    {
        if !self.repositories.is_wf() {
            return false;
        }
        let n = self.repositories.repositories.len();
        if self.recipe_tables.len() != n || self.layer_tables.len() != n {
            return false;
        }
        let mut i: usize = 0;
        while i < self.recipes.len()
            invariant
                n == self.repositories.repositories@.len(),
                i <= self.recipes@.len(),
                forall|q: int| 0 <= q < i ==> (#[trigger] self.recipes@[q]).repository.0 < n,
            decreases self.recipes@.len() - i,
        {
            if self.recipes[i].repository.0 >= n {
                assert(self.recipes@[i as int].repository.0 >= n);
                return false;
            }
            i = i + 1;
        }
        let mut r: usize = 0;
        while r < n
            invariant
                n == self.repositories.repositories@.len(),
                self.recipe_tables@.len() == n,
                self.layer_tables@.len() == n,
                r <= n,
                forall|a: int, k: int|
                    0 <= a < r && 0 <= k < self.recipe_tables@[a]@.len() ==> {
                        let e = #[trigger] self.recipe_tables@[a]@[k];
                        &&& e.1.0 < self.recipes@.len()
                        &&& self.recipes@[e.1.0 as int].repository.0 == a
                        &&& self.recipes@[e.1.0 as int].name@ == e.0@
                    },
                forall|a: int, k: int|
                    0 <= a < r && 0 <= k < self.layer_tables@[a]@.len() ==> (#[trigger] self.layer_tables@[a]@[k]).1.0 < self.layers@.len(),
            decreases n - r,
        {
            let table = &self.recipe_tables[r];
            let mut k: usize = 0;
            while k < table.len()
                invariant
                    r < n,
                    self.recipe_tables@.len() == n,
                    *table == self.recipe_tables@[r as int],
                    k <= table@.len(),
                    forall|q: int| 0 <= q < k ==> {
                        let e = #[trigger] table@[q];
                        &&& e.1.0 < self.recipes@.len()
                        &&& self.recipes@[e.1.0 as int].repository.0 == r
                        &&& self.recipes@[e.1.0 as int].name@ == e.0@
                    },
                decreases table@.len() - k,
            {
                let idx = table[k].1.0;
                if idx >= self.recipes.len() || self.recipes[idx].repository.0 != r || self.recipes[idx].name != table[k].0 {
                    assert(!({
                        let e = self.recipe_tables@[r as int]@[k as int];
                        &&& e.1.0 < self.recipes@.len()
                        &&& self.recipes@[e.1.0 as int].repository.0 == r
                        &&& self.recipes@[e.1.0 as int].name@ == e.0@
                    }));
                    return false;
                }
                k = k + 1;
            }
            let layers = &self.layer_tables[r];
            let mut k: usize = 0;
            while k < layers.len()
                invariant
                    r < n,
                    self.layer_tables@.len() == n,
                    *layers == self.layer_tables@[r as int],
                    k <= layers@.len(),
                    forall|q: int| 0 <= q < k ==> (#[trigger] layers@[q]).1.0 < self.layers@.len(),
                decreases layers@.len() - k,
            {
                if layers[k].1.0 >= self.layers.len() {
                    assert(self.layer_tables@[r as int]@[k as int].1.0 >= self.layers@.len());
                    return false;
                }
                k = k + 1;
            }
            r = r + 1;
        }
        true
    }
}

} // verus!
