use vstd::prelude::*;

verus! {

/// A model stored in a collection: it has a primary key, unique in its collection and
/// stable for its lifetime, and names the collection it belongs to.
pub trait RepoModel<K> {
    /// The model's primary key.
    fn id(&self) -> K;

    /// The name of the model's collection.
    fn collection(&self) -> &'static str;
}

} // verus!
