//! The registry of callable names, which a hash map holds.

use vstd::prelude::*;

verus! {

/// The callable names that the tree builder knows, each with its signature.
/// A `hashbrown::HashMap` holds them; what is stated of it is taken on
/// trust from that crate.
#[verifier::external_body]
pub struct Registry {
    map: hashbrown::HashMap<String, String>,
}

/// What a registry holds: the signature registered under each name.
pub uninterp spec fn entries(registry: Registry) -> Map<Seq<char>, Seq<char>>;

impl Registry {
    /// `hashbrown::HashMap::new` gives a map that holds nothing.
    #[verifier::external_body]
    pub(crate) fn new() -> (registry: Self)
        ensures
            entries(registry) =~= Map::empty(),
    {
        Registry { map: hashbrown::HashMap::new() }
    }

    /// `hashbrown::HashMap::get` finds the value stored under a key that
    /// equals the given one, and nothing where the map holds no such key. The
    /// signature found is handed out as a copy.
    #[verifier::external_body]
    pub(crate) fn get(&self, name: &String) -> (signature: Option<String>)
        ensures
            signature is Some <==> entries(*self).contains_key(name@),
            signature matches Some(text) ==> text@ == entries(*self)[name@],
    {
        match self.map.get(name) {
            Some(signature) => Some(signature.clone()),
            None => None,
        }
    }

    /// `hashbrown::HashMap::insert` stores the value under the key, in place
    /// of a value stored under it before, which it returns.
    #[verifier::external_body]
    pub(crate) fn insert(&mut self, name: String, signature: String) -> (previous: Option<String>)
        ensures
            entries(*final(self)) == entries(*old(self)).insert(name@, signature@),
            previous is Some <==> entries(*old(self)).contains_key(name@),
            previous matches Some(text) ==> text@ == entries(*old(self))[name@],
    {
        self.map.insert(name, signature)
    }
}

} // verus!
