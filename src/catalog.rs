use vstd::prelude::*;

use crate::errors::FsDatabaseError;
use crate::utils::{build_json_file_path, join_path, path_join};

verus! {

/// What the manifest records of one collection.
#[derive(Debug, Clone, PartialEq, Eq)]
pub struct CollectionMetadata {
    pub name: String,
}

/// The catalog of a database: its name, its root directory, the collections that its
/// manifest lists, and for each collection registered in this process the type of its
/// repository (a tag naming its key and model types). The repositories themselves are
/// held by the caller, under the same names.
pub struct FsDatabase {
    name: String,
    file_path: String,
    collections: Vec<CollectionMetadata>,
    repos: Vec<(String, String)>,
    manifest: Ghost<Set<Seq<char>>>,
    registry: Ghost<Map<Seq<char>, Seq<char>>>,
}

/// The names that a list of collection metadata holds.
pub open spec fn names_of(collections: Seq<CollectionMetadata>) -> Set<Seq<char>> {
    Set::new(|k: Seq<char>| exists|i: int| 0 <= i < collections.len() && #[trigger] collections[i].name@ == k)
}

impl FsDatabase {
    pub closed spec fn wf(&self) -> bool {
        &&& forall|i: int, j: int|
            0 <= i < j < self.collections@.len() ==> #[trigger] self.collections@[i].name@
                != #[trigger] self.collections@[j].name@
        &&& forall|i: int|
            0 <= i < self.collections@.len() ==> #[trigger] self.manifest@.contains(
                self.collections@[i].name@,
            )
        &&& forall|k: Seq<char>|
            #[trigger] self.manifest@.contains(k) ==> exists|i: int|
                0 <= i < self.collections@.len() && #[trigger] self.collections@[i].name@ == k
        &&& forall|i: int, j: int|
            0 <= i < j < self.repos@.len() ==> #[trigger] self.repos@[i].0@
                != #[trigger] self.repos@[j].0@
        &&& forall|i: int|
            0 <= i < self.repos@.len() ==> #[trigger] self.registry@.contains_key(
                self.repos@[i].0@,
            ) && self.registry@[self.repos@[i].0@] == self.repos@[i].1@
        &&& forall|k: Seq<char>|
            #[trigger] self.registry@.contains_key(k) ==> exists|i: int|
                0 <= i < self.repos@.len() && #[trigger] self.repos@[i].0@ == k
    }

    /// The database's name.
    pub closed spec fn spec_name(&self) -> Seq<char> {
        self.name@
    }

    /// The database's root directory.
    pub closed spec fn spec_file_path(&self) -> Seq<char> {
        self.file_path@
    }

    /// The names of the collections that the manifest lists.
    pub closed spec fn manifest(&self) -> Set<Seq<char>> {
        self.manifest@
    }

    /// For each collection registered in this process, the type tag of its repository.
    pub closed spec fn registry(&self) -> Map<Seq<char>, Seq<char>> {
        self.registry@
    }

    /// A database whose manifest lists no collection yet.
    pub fn new(name: String, file_path: String) -> (r: Self)
        ensures
            r.wf(),
            r.spec_name() == name@,
            r.spec_file_path() == file_path@,
            r.manifest() == Set::<Seq<char>>::empty(),
            r.registry() == Map::<Seq<char>, Seq<char>>::empty(),
    {
        FsDatabase {
            name,
            file_path,
            collections: Vec::new(),
            repos: Vec::new(),
            manifest: Ghost(Set::empty()),
            registry: Ghost(Map::empty()),
        }
    }

    /// A database as its manifest describes it: its collections are listed, none is
    /// registered yet. A name listed twice is kept once.
    pub fn from_manifest(
        name: String,
        file_path: String,
        collections: Vec<CollectionMetadata>,
    ) -> (r: Self)
        ensures
            r.wf(),
            r.spec_name() == name@,
            r.spec_file_path() == file_path@,
            r.manifest() == names_of(collections@),
            r.registry() == Map::<Seq<char>, Seq<char>>::empty(),
    {
        let mut db = FsDatabase::new(name, file_path);
        let mut i: usize = 0;
        while i < collections.len()
            invariant
                db.wf(),
                i <= collections@.len(),
                db.spec_name() == name@,
                db.spec_file_path() == file_path@,
                db.registry() == Map::<Seq<char>, Seq<char>>::empty(),
                db.manifest() == names_of(collections@.take(i as int)),
            decreases collections@.len() - i,
        {
            db.register_collection(&collections[i].name);
            proof {
                assert(names_of(collections@.take(i + 1)) =~= names_of(
                    collections@.take(i as int),
                ).insert(collections@[i as int].name@)) by {
                    let a = collections@.take(i + 1);
                    let b = collections@.take(i as int);
                    assert forall|k: Seq<char>|
                        names_of(a).contains(k) implies names_of(b).insert(
                        collections@[i as int].name@,
                    ).contains(k) by {
                        let j = choose|j: int| 0 <= j < a.len() && #[trigger] a[j].name@ == k;
                        if j < i {
                            assert(b[j].name@ == k);
                        }
                    }
                    assert forall|k: Seq<char>|
                        names_of(b).insert(collections@[i as int].name@).contains(
                            k,
                        ) implies names_of(a).contains(k) by {
                        if k == collections@[i as int].name@ {
                            assert(a[i as int].name@ == k);
                        } else {
                            let j = choose|j: int| 0 <= j < b.len() && #[trigger] b[j].name@ == k;
                            assert(a[j].name@ == k);
                        }
                    }
                }
            }
            i = i + 1;
        }
        assert(collections@.take(collections@.len() as int) =~= collections@);
        db
    }

    fn collection_position(&self, name: &String) -> (r: Option<usize>)
        requires
            self.wf(),
        ensures
            r matches Some(i) ==> i < self.collections@.len() && self.collections@[i as int].name@
                == name@,
            r is None ==> !self.manifest().contains(name@),
    {
        let mut i: usize = 0;
        while i < self.collections.len()
            invariant
                self.wf(),
                i <= self.collections@.len(),
                forall|j: int| 0 <= j < i ==> #[trigger] self.collections@[j].name@ != name@,
            decreases self.collections@.len() - i,
        {
            if self.collections[i].name == *name {
                return Some(i);
            }
            i = i + 1;
        }
        None
    }

    fn repo_position(&self, name: &String) -> (r: Option<usize>)
        requires
            self.wf(),
        ensures
            r matches Some(i) ==> i < self.repos@.len() && self.repos@[i as int].0@ == name@,
            r is None ==> !self.registry().contains_key(name@),
    {
        let mut i: usize = 0;
        while i < self.repos.len()
            invariant
                self.wf(),
                i <= self.repos@.len(),
                forall|j: int| 0 <= j < i ==> #[trigger] self.repos@[j].0@ != name@,
            decreases self.repos@.len() - i,
        {
            if self.repos[i].0 == *name {
                return Some(i);
            }
            i = i + 1;
        }
        None
    }

    /// Adds the collection `name` to the manifest, if it is not listed yet. Returns
    /// whether the manifest changed, and so must be written again.
    pub fn register_collection(&mut self, name: &String) -> (changed: bool)
        requires
            old(self).wf(),
        ensures
            final(self).wf(),
            changed == !old(self).manifest().contains(name@),
            final(self).manifest() == old(self).manifest().insert(name@),
            final(self).registry() == old(self).registry(),
            final(self).spec_name() == old(self).spec_name(),
            final(self).spec_file_path() == old(self).spec_file_path(),
    {
        match self.collection_position(name) {
            Some(i) => {
                assert(self.manifest@.insert(name@) =~= self.manifest@);
                false
            },
            None => {
                let ghost old_collections = self.collections@;
                self.collections.push(CollectionMetadata { name: name.clone() });
                self.manifest = Ghost(self.manifest@.insert(name@));
                assert forall|k: Seq<char>| #[trigger] self.manifest@.contains(k) implies exists|
                    i: int,
                |
                    0 <= i < self.collections@.len() && #[trigger] self.collections@[i].name@
                        == k by {
                    if k == name@ {
                        assert(self.collections@[self.collections@.len() - 1].name@ == k);
                    } else {
                        let i = choose|i: int|
                            0 <= i < old_collections.len() && #[trigger] old_collections[i].name@
                                == k;
                        assert(self.collections@[i].name@ == k);
                    }
                }
                true
            },
        }
    }

    /// Records that the repository of the collection `name` is held, with the type
    /// tag `type_tag`. A repository registered before under that name is replaced.
    pub fn bind_repository(&mut self, name: &String, type_tag: &String)
        requires
            old(self).wf(),
        ensures
            final(self).wf(),
            final(self).registry() == old(self).registry().insert(name@, type_tag@),
            final(self).manifest() == old(self).manifest(),
            final(self).spec_name() == old(self).spec_name(),
            final(self).spec_file_path() == old(self).spec_file_path(),
    {
        let ghost old_repos = self.repos@;
        match self.repo_position(name) {
            Some(i) => {
                self.repos.set(i, (name.clone(), type_tag.clone()));
                self.registry = Ghost(self.registry@.insert(name@, type_tag@));
                assert forall|k: Seq<char>| #[trigger] self.registry@.contains_key(k) implies exists|
                    j: int,
                |
                    0 <= j < self.repos@.len() && #[trigger] self.repos@[j].0@ == k by {
                    if k != name@ {
                        let j = choose|j: int|
                            0 <= j < old_repos.len() && #[trigger] old_repos[j].0@ == k;
                        assert(self.repos@[j].0@ == k);
                    } else {
                        assert(self.repos@[i as int].0@ == k);
                    }
                }
            },
            None => {
                self.repos.push((name.clone(), type_tag.clone()));
                self.registry = Ghost(self.registry@.insert(name@, type_tag@));
                assert forall|k: Seq<char>| #[trigger] self.registry@.contains_key(k) implies exists|
                    j: int,
                |
                    0 <= j < self.repos@.len() && #[trigger] self.repos@[j].0@ == k by {
                    if k != name@ {
                        let j = choose|j: int|
                            0 <= j < old_repos.len() && #[trigger] old_repos[j].0@ == k;
                        assert(self.repos@[j].0@ == k);
                    } else {
                        assert(self.repos@[self.repos@.len() - 1].0@ == k);
                    }
                }
            },
        }
    }

    /// Checks that the repository of the collection `name` is held with the type tag
    /// `type_tag`: it fails when no repository was registered under that name, and when
    /// the one registered has another type.
    pub fn collection(&self, name: &String, type_tag: &String) -> (r: Result<(), FsDatabaseError>)
        requires
            self.wf(),
        ensures
            !self.registry().contains_key(name@) ==> (r matches Err(
                FsDatabaseError::CollectionRepoisitoryMissingError { path },
            ) && path@ == name@),
            self.registry().contains_key(name@) && self.registry()[name@] != type_tag@ ==> (r matches Err(
                FsDatabaseError::CollectionRepoisitoryDowncastError { path },
            ) && path@ == name@),
            r is Ok <==> self.registry().contains_key(name@) && self.registry()[name@]
                == type_tag@,
    {
        match self.repo_position(name) {
            None => Err(FsDatabaseError::CollectionRepoisitoryMissingError { path: name.clone() }),
            Some(i) => {
                if self.repos[i].1 == *type_tag {
                    Ok(())
                } else {
                    Err(
                        FsDatabaseError::CollectionRepoisitoryDowncastError { path: name.clone() },
                    )
                }
            },
        }
    }

    /// The collections that the manifest lists, each once.
    pub fn collection_names(&self) -> (r: Vec<String>)
        requires
            self.wf(),
        ensures
            r@.len() == self.manifest().len(),
            forall|i: int| 0 <= i < r@.len() ==> self.manifest().contains(#[trigger] r@[i]@),
            forall|k: Seq<char>|
                #[trigger] self.manifest().contains(k) ==> exists|i: int|
                    0 <= i < r@.len() && r@[i]@ == k,
    {
        let mut out: Vec<String> = Vec::new();
        let mut i: usize = 0;
        while i < self.collections.len()
            invariant
                self.wf(),
                i <= self.collections@.len(),
                out@.len() == i,
                forall|j: int| 0 <= j < i ==> (#[trigger] out@[j])@ == self.collections@[j].name@,
            decreases self.collections@.len() - i,
        {
            out.push(self.collections[i].name.clone());
            i = i + 1;
        }
        proof {
            let names = self.collections@.map_values(|c: CollectionMetadata| c.name@);
            assert(names.no_duplicates()) by {
                assert forall|a: int, b: int|
                    0 <= a < names.len() && 0 <= b < names.len() && a != b implies names[a]
                    != names[b] by {
                    if a < b {
                        assert(self.collections@[a].name@ != self.collections@[b].name@);
                    } else {
                        assert(self.collections@[b].name@ != self.collections@[a].name@);
                    }
                }
            }
            assert(names.to_set() =~= self.manifest@) by {
                assert forall|k: Seq<char>| names.to_set().contains(k) <==> self.manifest@.contains(
                    k,
                ) by {
                    if self.manifest@.contains(k) {
                        let j = choose|j: int|
                            0 <= j < self.collections@.len() && #[trigger] self.collections@[j].name@
                                == k;
                        assert(names[j] == k);
                    }
                    if names.to_set().contains(k) {
                        let j = choose|j: int| 0 <= j < names.len() && names[j] == k;
                        assert(self.collections@[j].name@ == k);
                    }
                }
            }
            names.unique_seq_to_set();
            assert forall|k: Seq<char>| #[trigger] self.manifest().contains(k) implies exists|
                j: int,
            | 0 <= j < out@.len() && out@[j]@ == k by {
                let j = choose|j: int|
                    0 <= j < self.collections@.len() && #[trigger] self.collections@[j].name@ == k;
                assert(out@[j]@ == k);
            }
        }
        out
    }

    /// The database's name.
    pub fn name(&self) -> (r: &String)
        ensures
            r@ == self.spec_name(),
    {
        &self.name
    }

    /// The database's root directory.
    pub fn file_path(&self) -> (r: &String)
        ensures
            r@ == self.spec_file_path(),
    {
        &self.file_path
    }

    /// The path of the manifest: `<name>.json` in the root directory.
    pub fn manifest_path(&self) -> (r: String)
        ensures
            r@ == path_join(self.spec_file_path(), self.spec_name() + ".json"@),
    {
        build_json_file_path(self.file_path.as_str(), self.name.as_str())
    }

    /// The directory of the collection `name`: `<name>` in the root directory.
    pub fn collection_path(&self, name: &str) -> (r: String)
        ensures
            r@ == path_join(self.spec_file_path(), name@),
    {
        join_path(self.file_path.as_str(), name)
    }
}

/// Registering a collection twice is registering it once: the second registration finds
/// the name listed, so it neither changes nor rewrites the manifest, and binding the same
/// repository type again leaves the registry as the first binding left it.
pub proof fn lemma_idempotent_registration(
    manifest: Set<Seq<char>>,
    registry: Map<Seq<char>, Seq<char>>,
    name: Seq<char>,
    type_tag: Seq<char>,
)
    ensures
        manifest.insert(name).contains(name),
        manifest.insert(name).insert(name) == manifest.insert(name),
        registry.insert(name, type_tag).insert(name, type_tag) == registry.insert(name, type_tag),
{
    assert(manifest.insert(name).insert(name) =~= manifest.insert(name));
    assert(registry.insert(name, type_tag).insert(name, type_tag) =~= registry.insert(
        name,
        type_tag,
    ));
}

} // verus!
