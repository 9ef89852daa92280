//! The canonical, insertion-ordered import map, and its construction from the
//! decoded form.
use vstd::prelude::*;
use indexmap::IndexMap;
use crate::entries::{
    as_map, inserted, inserted_all, key_pos, keys_unique, map_entry_values, nested_as_map,
    lemma_as_map, lemma_as_map_len, lemma_as_map_map_values, lemma_inserted, lemma_inserted_all,
    lemma_unique_pos,
};
use crate::entries::{first_occurrences, keys_of, lemma_inserted_all_distinct, lemma_key_pos};
use crate::ordered::{
    entries_of, new_scope_map, new_string_map, scope_entries_of, scope_map_get, scope_map_insert,
    string_map_get, string_map_get_index, string_map_insert, string_map_len,
};
use crate::raw::ImportHashMap;

verus! {

/// Entries inserted into an empty map one after the other.
pub open spec fn ordered<K, V>(s: Seq<(K, V)>) -> Seq<(K, V)> {
    inserted_all(Seq::empty(), s)
}

/// The scope entries an ingest produces from decoded scope entries: each
/// scope's own entries are ordered first, then the scopes themselves.
pub open spec fn ordered_scopes(s: Seq<(Seq<char>, Seq<(Seq<char>, Seq<char>)>)>) -> Seq<
    (Seq<char>, Seq<(Seq<char>, Seq<char>)>),
> {
    ordered(map_entry_values(s, |e: Seq<(Seq<char>, Seq<char>)>| ordered(e)))
}

/// An import map in canonical form: every mapping keeps its entries in the
/// order they were inserted.
#[derive(Debug)]
pub struct ImportMap {
    /// Specifier to target.
    pub imports: IndexMap<String, String>,
    /// Scope prefix to its own specifier-to-target mapping.
    pub scopes: IndexMap<String, IndexMap<String, String>>,
}

impl ImportMap {
    /// The `imports` entries, in order.
    pub open spec fn import_entries(&self) -> Seq<(Seq<char>, Seq<char>)> {
        entries_of(self.imports)
    }

    /// The `scopes` entries, in order, each with its own entries in order.
    pub open spec fn scope_entries(&self) -> Seq<(Seq<char>, Seq<(Seq<char>, Seq<char>)>)> {
        scope_entries_of(self.scopes)
    }

    /// The specifier-to-target mapping of `imports`.
    pub open spec fn imports_map(&self) -> Map<Seq<char>, Seq<char>> {
        as_map(self.import_entries())
    }

    /// The mapping from scope prefix to that scope's specifier-to-target mapping.
    pub open spec fn scopes_map(&self) -> Map<Seq<char>, Map<Seq<char>, Seq<char>>> {
        nested_as_map(self.scope_entries())
    }

    /// No mapping holds a key twice.
    pub open spec fn wf(&self) -> bool {
        &&& keys_unique(self.import_entries())
        &&& keys_unique(self.scope_entries())
        &&& forall|i: int|
            0 <= i < self.scope_entries().len() ==> keys_unique(
                #[trigger] self.scope_entries()[i].1,
            )
    }

    /// `self` holds what ingesting `raw` yields: each mapping's entries
    /// inserted, in the order `raw` holds them, into an empty map.
    pub open spec fn is_ingest_of(&self, raw: ImportHashMap) -> bool {
        &&& self.import_entries() == ordered(raw.import_entries())
        &&& self.scope_entries() == ordered_scopes(raw.scope_entries())
    }

    /// Builds the canonical form of a decoded import map.
    ///
    /// Entries are inserted in the order the decoded map holds them, so the
    /// result holds each key once, in the order of its first occurrence,
    /// with the value of its last. It holds exactly the decoded mappings, one
    /// entry per key.
    pub fn from_hashmap(map: ImportHashMap) -> (r: Self)
        ensures
            r.wf(),
            r.is_ingest_of(map),
            r.imports_map() == map.imports_map(),
            r.scopes_map() == map.scopes_map(),
            r.import_entries().len() == map.imports_map().dom().len(),
            r.scope_entries().len() == map.scopes_map().dom().len(),
            forall|i: int|
                0 <= i < r.scope_entries().len() ==> (#[trigger] r.scope_entries()[i]).1.len()
                    == map.scopes_map()[r.scope_entries()[i].0].dom().len(),
    {
        let ghost raw_imports = map.import_entries();
        let ghost raw_scopes = map.scope_entries();
        let ghost inner_ordered = |e: Seq<(Seq<char>, Seq<char>)>| ordered(e);
        let ghost scopes_in = map_entry_values(raw_scopes, inner_ordered);

        let mut imports = new_string_map();
        let n = map.imports.len();
        let mut i: usize = 0;
        while i < n
            invariant
                n == map.imports@.len(),
                raw_imports == map.import_entries(),
                0 <= i <= n,
                entries_of(imports) == ordered(raw_imports.take(i as int)),
            decreases n - i,
        {
            let k = map.imports[i].0.clone();
            let v = map.imports[i].1.clone();
            string_map_insert(&mut imports, k, v);
            assert(raw_imports.take(i + 1).drop_last() =~= raw_imports.take(i as int));
            i += 1;
        }
        assert(raw_imports.take(n as int) =~= raw_imports);

        let mut scopes = new_scope_map();
        let sn = map.scopes.len();
        let mut si: usize = 0;
        while si < sn
            invariant
                sn == map.scopes@.len(),
                raw_scopes == map.scope_entries(),
                scopes_in == map_entry_values(raw_scopes, inner_ordered),
                inner_ordered == (|e: Seq<(Seq<char>, Seq<char>)>| ordered(e)),
                0 <= si <= sn,
                scope_entries_of(scopes) == ordered(scopes_in.take(si as int)),
                keys_unique(scope_entries_of(scopes)),
                forall|j: int|
                    0 <= j < scope_entries_of(scopes).len() ==> keys_unique(
                        #[trigger] scope_entries_of(scopes)[j].1,
                    ),
            decreases sn - si,
        {
            let inner_raw = &map.scopes[si as usize].1;
            let ghost raw_inner = raw_scopes[si as int].1;
            let mut inner = new_string_map();
            let m = inner_raw.len();
            let mut j: usize = 0;
            while j < m
                invariant
                    m == inner_raw@.len(),
                    raw_inner == crate::raw::pairs_view(inner_raw@),
                    0 <= j <= m,
                    entries_of(inner) == ordered(raw_inner.take(j as int)),
                decreases m - j,
            {
                let k = inner_raw[j].0.clone();
                let v = inner_raw[j].1.clone();
                string_map_insert(&mut inner, k, v);
                assert(raw_inner.take(j + 1).drop_last() =~= raw_inner.take(j as int));
                j += 1;
            }
            assert(raw_inner.take(m as int) =~= raw_inner);
            proof {
                lemma_inserted_all(raw_inner);
                lemma_inserted(scope_entries_of(scopes), raw_scopes[si as int].0, entries_of(inner));
            }
            let ghost before = scope_entries_of(scopes);
            let key = map.scopes[si].0.clone();
            assert(key@ == raw_scopes[si as int].0);
            scope_map_insert(&mut scopes, key, inner);
            proof {
                assert(scopes_in.take(si + 1).drop_last() =~= scopes_in.take(si as int));
                assert(scopes_in[si as int] == (raw_scopes[si as int].0, inner_ordered(raw_inner)));
                assert(inner_ordered(raw_inner) == ordered(raw_inner));
                assert(scopes_in.take(si + 1).last() == scopes_in[si as int]);
                let after = scope_entries_of(scopes);
                let p = key_pos(before, raw_scopes[si as int].0);
                crate::entries::lemma_key_pos(before, raw_scopes[si as int].0);
                assert forall|j: int| 0 <= j < after.len() implies keys_unique(#[trigger] after[j].1) by {
                    if j != p && j != before.len() {
                        assert(after[j] == before[j]);
                    }
                }
            }
            si += 1;
        }
        assert(scopes_in.take(sn as int) =~= scopes_in);
        let r = ImportMap { imports, scopes };
        proof {
            lemma_inserted_all(raw_imports);
            lemma_inserted_all(scopes_in);
            lemma_as_map_len(r.import_entries());
            lemma_as_map_len(r.scope_entries());
            lemma_as_map_map_values(raw_scopes, inner_ordered);
            assert forall|s: Seq<char>| #[trigger] as_map(raw_scopes).contains_key(s) implies
                as_map(inner_ordered(as_map(raw_scopes)[s])) == as_map(as_map(raw_scopes)[s]) by {
                lemma_inserted_all(as_map(raw_scopes)[s]);
            }
            assert(r.scopes_map() =~= map.scopes_map());
            assert forall|i: int| 0 <= i < r.scope_entries().len() implies (#[trigger] r.scope_entries()[i]).1.len()
                == map.scopes_map()[r.scope_entries()[i].0].dom().len() by {
                let e = r.scope_entries();
                lemma_unique_pos(e, i);
                lemma_as_map(e, e[i].0);
                assert(crate::entries::keys_of(e)[i] == e[i].0);
                lemma_as_map_len(e[i].1);
            }
        }
        r
    }
    /// An import map with no imports and no scopes.
    pub fn new() -> (r: Self)
        ensures
            r.wf(),
            r.import_entries().len() == 0,
            r.scope_entries().len() == 0,
    {
        ImportMap { imports: new_string_map(), scopes: new_scope_map() }
    }

    /// Maps specifier `k` to target `v` in `imports`. An existing specifier
    /// keeps its place and takes the new target; a new one goes last.
    pub fn insert_import(&mut self, k: String, v: String)
        requires
            old(self).wf(),
        ensures
            final(self).wf(),
            final(self).import_entries() == inserted(old(self).import_entries(), k@, v@),
            final(self).imports_map() == old(self).imports_map().insert(k@, v@),
            final(self).scope_entries() == old(self).scope_entries(),
    {
        proof {
            lemma_inserted(self.import_entries(), k@, v@);
        }
        string_map_insert(&mut self.imports, k, v);
    }

    /// The target of specifier `k` in `imports`, if it has one.
    pub fn import(&self, k: &str) -> (r: Option<&String>)
        requires
            self.wf(),
        ensures
            match r {
                Some(v) => self.imports_map().contains_key(k@) && v@ == self.imports_map()[k@],
                None => !self.imports_map().contains_key(k@),
            },
    {
        proof {
            lemma_key_pos(self.import_entries(), k@);
            lemma_as_map(self.import_entries(), k@);
        }
        string_map_get(&self.imports, k)
    }

    /// The target of specifier `k` in the scope with prefix `scope`, if that
    /// scope exists and maps `k`.
    pub fn scope_import(&self, scope: &str, k: &str) -> (r: Option<&String>)
        requires
            self.wf(),
        ensures
            match r {
                Some(v) => {
                    &&& self.scopes_map().contains_key(scope@)
                    &&& self.scopes_map()[scope@].contains_key(k@)
                    &&& v@ == self.scopes_map()[scope@][k@]
                },
                None => !self.scopes_map().contains_key(scope@) || !self.scopes_map()[scope@].contains_key(k@),
            },
    {
        proof {
            lemma_key_pos(self.scope_entries(), scope@);
            lemma_as_map(self.scope_entries(), scope@);
        }
        match scope_map_get(&self.scopes, scope) {
            None => None,
            Some(inner) => {
                proof {
                    let e = self.scope_entries()[key_pos(self.scope_entries(), scope@)].1;
                    assert(keys_unique(e));
                    lemma_key_pos(e, k@);
                    lemma_as_map(e, k@);
                }
                string_map_get(inner, k)
            },
        }
    }

    /// The number of entries in `imports`.
    pub fn imports_len(&self) -> (r: usize)
        ensures
            r == self.import_entries().len(),
    {
        string_map_len(&self.imports)
    }

    /// The entry at position `i` of `imports`, in insertion order, if `i` is
    /// below the number of entries.
    pub fn import_at(&self, i: usize) -> (r: Option<(&String, &String)>)
        ensures
            match r {
                Some(kv) => i < self.import_entries().len() && (kv.0@, kv.1@) == self.import_entries()[i as int],
                None => i >= self.import_entries().len(),
            },
    {
        string_map_get_index(&self.imports, i)
    }
}

/// Ingesting a decoded map that has no entries gives an import map that has
/// none either.
pub proof fn lemma_ingest_empty(raw: ImportHashMap, m: ImportMap)
    requires
        raw.imports@.len() == 0,
        raw.scopes@.len() == 0,
        m.is_ingest_of(raw),
    ensures
        m.import_entries().len() == 0,
        m.scope_entries().len() == 0,
        m.imports_map().is_empty(),
        m.scopes_map().is_empty(),
{
    assert(m.imports_map() =~= Map::empty());
    assert(m.scopes_map() =~= Map::empty());
}

/// Inserting entries one after another into an empty map lists the keys in
/// the order of their first insertion; entries with distinct keys come out
/// exactly as they went in.
pub proof fn lemma_insertion_order(s: Seq<(Seq<char>, Seq<char>)>)
    ensures
        keys_of(ordered(s)) == first_occurrences(keys_of(s)),
        keys_unique(s) ==> ordered(s) == s,
{
    lemma_inserted_all(s);
    if keys_unique(s) {
        lemma_inserted_all_distinct(s);
    }
}

} // verus!
