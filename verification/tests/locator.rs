use evolve_unpack::locate::{find_lua_files, find_non_pak_files, find_pak_files};

fn b(s: &str) -> Vec<u8> {
    s.as_bytes().to_vec()
}

fn mixed_tree() -> Vec<Vec<u8>> {
    vec![
        b("game/a/x.pak"),
        b("game/a/y.lua"),
        b("game/a/z.txt"),
        b("game/noext"),
        b("game/b/w.pak"),
        b("game/b/.hidden"),
    ]
}

#[test]
fn pak_filter_is_exactly_the_pak_files() {
    let files = mixed_tree();
    let paks = find_pak_files(&files);
    assert_eq!(paks, vec![b("game/a/x.pak"), b("game/b/w.pak")]);
}

#[test]
fn non_pak_filter_is_exactly_the_complement() {
    let files = mixed_tree();
    let rest = find_non_pak_files(&files);
    assert_eq!(
        rest,
        vec![b("game/a/y.lua"), b("game/a/z.txt"), b("game/noext"), b("game/b/.hidden")]
    );
}

#[test]
fn filters_partition_the_enumeration() {
    let files = mixed_tree();
    let paks = find_pak_files(&files);
    let rest = find_non_pak_files(&files);
    assert_eq!(paks.len() + rest.len(), files.len());
    for f in &files {
        let in_paks = paks.contains(f);
        let in_rest = rest.contains(f);
        assert!(in_paks != in_rest);
    }
    for p in &paks {
        assert!(!rest.contains(p));
    }
    let mut seen: Vec<Vec<u8>> = Vec::new();
    for f in paks.iter().chain(rest.iter()) {
        assert!(!seen.contains(f));
        seen.push(f.clone());
    }
}

#[test]
fn case_sensitive_filtering() {
    let files = vec![b("game/a.PAK"), b("game/b.pak")];
    let paks = find_pak_files(&files);
    assert_eq!(paks, vec![b("game/b.pak")]);
    let rest = find_non_pak_files(&files);
    assert_eq!(rest, vec![b("game/a.PAK")]);
}

#[test]
fn lua_filter_finds_scripts() {
    let files = mixed_tree();
    let luas = find_lua_files(&files);
    assert_eq!(luas, vec![b("game/a/y.lua")]);
}

#[test]
fn empty_enumeration_gives_empty_filters() {
    let files: Vec<Vec<u8>> = Vec::new();
    assert!(find_pak_files(&files).is_empty());
    assert!(find_non_pak_files(&files).is_empty());
    assert!(find_lua_files(&files).is_empty());
}
