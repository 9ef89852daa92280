use importmap::canonical::ImportMap;
use importmap::raw::ImportHashMap;

fn pairs(items: &[(&str, &str)]) -> Vec<(String, String)> {
    items.iter().map(|(k, v)| (k.to_string(), v.to_string())).collect()
}

#[test]
fn empty_default_gives_empty_map() {
    let m = ImportMap::from_hashmap(ImportHashMap::default());
    assert_eq!(m.imports.len(), 0);
    assert_eq!(m.scopes.len(), 0);
    assert_eq!(m.imports_len(), 0);
}

#[test]
fn imports_only() {
    let raw = ImportHashMap {
        imports: pairs(&[("react", "https://esm.sh/react")]),
        scopes: Vec::new(),
    };
    let m = ImportMap::from_hashmap(raw);
    assert_eq!(m.imports.len(), 1);
    assert_eq!(m.import("react").map(|s| s.as_str()), Some("https://esm.sh/react"));
    assert_eq!(m.scopes.len(), 0);
}

#[test]
fn scopes_only() {
    let raw = ImportHashMap {
        imports: Vec::new(),
        scopes: vec![("/a/".to_string(), pairs(&[("x", "/a/x.js")]))],
    };
    let m = ImportMap::from_hashmap(raw);
    assert_eq!(m.imports.len(), 0);
    assert_eq!(m.scopes.len(), 1);
    assert_eq!(m.scopes["/a/"].len(), 1);
    assert_eq!(m.scope_import("/a/", "x").map(|s| s.as_str()), Some("/a/x.js"));
    assert_eq!(m.scope_import("/a/", "y"), None);
    assert_eq!(m.scope_import("/b/", "x"), None);
}

#[test]
fn imports_and_scopes() {
    let raw = ImportHashMap {
        imports: pairs(&[("a", "/a.js")]),
        scopes: vec![("/s/".to_string(), pairs(&[("b", "/s/b.js")]))],
    };
    let m = ImportMap::from_hashmap(raw);
    assert_eq!(m.imports.len(), 1);
    assert_eq!(m.import("a").map(|s| s.as_str()), Some("/a.js"));
    assert_eq!(m.scopes.len(), 1);
    assert_eq!(m.scopes["/s/"].len(), 1);
    assert_eq!(m.scope_import("/s/", "b").map(|s| s.as_str()), Some("/s/b.js"));
    assert_eq!(m.import("b"), None);
}

#[test]
fn multiple_entries_retrievable() {
    let raw = ImportHashMap {
        imports: pairs(&[("a", "/a.js"), ("b", "/b.js"), ("c", "/c.js")]),
        scopes: Vec::new(),
    };
    let m = ImportMap::from_hashmap(raw);
    assert_eq!(m.import("a").map(|s| s.as_str()), Some("/a.js"));
    assert_eq!(m.import("b").map(|s| s.as_str()), Some("/b.js"));
    assert_eq!(m.import("c").map(|s| s.as_str()), Some("/c.js"));
    assert_eq!(m.imports.iter().count(), 3);
    assert_eq!(m.imports_len(), 3);
}

#[test]
fn entries_keep_the_decoded_order() {
    let raw = ImportHashMap {
        imports: pairs(&[("z", "1"), ("a", "2"), ("m", "3")]),
        scopes: Vec::new(),
    };
    let m = ImportMap::from_hashmap(raw);
    let keys: Vec<&str> = m.imports.keys().map(|k| k.as_str()).collect();
    assert_eq!(keys, vec!["z", "a", "m"]);
    let (k, v) = m.import_at(1).unwrap();
    assert_eq!((k.as_str(), v.as_str()), ("a", "2"));
    assert!(m.import_at(3).is_none());
}

#[test]
fn repeated_key_keeps_first_place_and_last_value() {
    let raw = ImportHashMap {
        imports: pairs(&[("a", "/1.js"), ("b", "/2.js"), ("a", "/3.js")]),
        scopes: vec![
            ("/s/".to_string(), pairs(&[("x", "/old.js")])),
            ("/t/".to_string(), pairs(&[("y", "/y.js")])),
            ("/s/".to_string(), pairs(&[("x", "/new.js"), ("x", "/newer.js")])),
        ],
    };
    let m = ImportMap::from_hashmap(raw);
    assert_eq!(m.imports_len(), 2);
    let keys: Vec<&str> = m.imports.keys().map(|k| k.as_str()).collect();
    assert_eq!(keys, vec!["a", "b"]);
    assert_eq!(m.import("a").map(|s| s.as_str()), Some("/3.js"));
    assert_eq!(m.scopes.len(), 2);
    assert_eq!(m.scopes["/s/"].len(), 1);
    assert_eq!(m.scope_import("/s/", "x").map(|s| s.as_str()), Some("/newer.js"));
    let scope_keys: Vec<&str> = m.scopes.keys().map(|k| k.as_str()).collect();
    assert_eq!(scope_keys, vec!["/s/", "/t/"]);
}

#[test]
fn counts_match_the_decoded_map() {
    let raw = ImportHashMap {
        imports: pairs(&[("a", "1"), ("b", "2")]),
        scopes: vec![
            ("/p/".to_string(), pairs(&[("x", "1"), ("y", "2"), ("z", "3")])),
            ("/q/".to_string(), Vec::new()),
        ],
    };
    let m = ImportMap::from_hashmap(raw);
    assert_eq!(m.imports.len(), 2);
    assert_eq!(m.scopes.len(), 2);
    assert_eq!(m.scopes["/p/"].len(), 3);
    assert_eq!(m.scopes["/q/"].len(), 0);
}

#[test]
fn result_is_independent_of_input_storage() {
    let mut raw = ImportHashMap {
        imports: pairs(&[("a", "/a.js")]),
        scopes: vec![("/s/".to_string(), pairs(&[("b", "/s/b.js")]))],
    };
    let m = ImportMap::from_hashmap(raw.clone());
    raw.imports[0].1.push_str("?changed");
    raw.imports.push(("c".to_string(), "/c.js".to_string()));
    raw.scopes[0].1.clear();
    assert_eq!(m.imports_len(), 1);
    assert_eq!(m.import("a").map(|s| s.as_str()), Some("/a.js"));
    assert_eq!(m.scope_import("/s/", "b").map(|s| s.as_str()), Some("/s/b.js"));
}

#[test]
fn direct_insertions_keep_insertion_order() {
    let mut m = ImportMap::new();
    assert_eq!(m.imports_len(), 0);
    m.insert_import("zeta".to_string(), "/z.js".to_string());
    m.insert_import("alpha".to_string(), "/a.js".to_string());
    m.insert_import("mid".to_string(), "/m.js".to_string());
    m.insert_import("alpha".to_string(), "/a2.js".to_string());
    let keys: Vec<&str> = m.imports.keys().map(|k| k.as_str()).collect();
    assert_eq!(keys, vec!["zeta", "alpha", "mid"]);
    assert_eq!(m.import("alpha").map(|s| s.as_str()), Some("/a2.js"));
    let (k, v) = m.import_at(0).unwrap();
    assert_eq!((k.as_str(), v.as_str()), ("zeta", "/z.js"));
    assert_eq!(m.scopes.len(), 0);
}

#[test]
fn lookup_of_missing_specifier_is_none() {
    let m = ImportMap::new();
    assert_eq!(m.import("react"), None);
    assert_eq!(m.scope_import("/a/", "react"), None);
    assert!(m.import_at(0).is_none());
}
