//! The loose shape of an import map, as a configuration decoder produces it.
use vstd::prelude::*;
use crate::entries::{as_map, nested_as_map};

verus! {

/// Views a list of string pairs as a list of character sequences.
pub open spec fn pairs_view(s: Seq<(String, String)>) -> Seq<(Seq<char>, Seq<char>)> {
    s.map_values(|p: (String, String)| (p.0@, p.1@))
}

/// Views a list of scopes as scope prefixes with their entry lists.
pub open spec fn scopes_view(s: Seq<(String, Vec<(String, String)>)>) -> Seq<
    (Seq<char>, Seq<(Seq<char>, Seq<char>)>),
> {
    s.map_values(|p: (String, Vec<(String, String)>)| (p.0@, pairs_view(p.1@)))
}

/// The decoded, unordered form of an import map.
///
/// Each mapping is held as the list of entries the decoder produced. A
/// mapping means what `as_map` says of its list: a key that occurs more than
/// once takes the value of its last entry.
#[derive(Clone, Debug)]
pub struct ImportHashMap {
    /// Specifier to target.
    pub imports: Vec<(String, String)>,
    /// Scope prefix to its own specifier-to-target entries.
    pub scopes: Vec<(String, Vec<(String, String)>)>,
}

impl ImportHashMap {
    /// The `imports` entries, in the order they are held.
    pub open spec fn import_entries(&self) -> Seq<(Seq<char>, Seq<char>)> {
        pairs_view(self.imports@)
    }

    /// The `scopes` entries, in the order they are held.
    pub open spec fn scope_entries(&self) -> Seq<(Seq<char>, Seq<(Seq<char>, Seq<char>)>)> {
        scopes_view(self.scopes@)
    }

    /// The specifier-to-target mapping of `imports`.
    pub open spec fn imports_map(&self) -> Map<Seq<char>, Seq<char>> {
        as_map(self.import_entries())
    }

    /// The mapping from scope prefix to that scope's specifier-to-target mapping.
    pub open spec fn scopes_map(&self) -> Map<Seq<char>, Map<Seq<char>, Seq<char>>> {
        nested_as_map(self.scope_entries())
    }
}

impl Default for ImportHashMap {
    /// No imports and no scopes.
    fn default() -> (r: Self)
        ensures
            r.imports@.len() == 0,
            r.scopes@.len() == 0,
    {
        ImportHashMap { imports: Vec::new(), scopes: Vec::new() }
    }
}

} // verus!
