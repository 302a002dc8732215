use std::collections::HashMap;
use std::io::Write;

use evolve_unpack::automation::{archive_ui_plan, UiOp};
use evolve_unpack::locate::{find_lua_files, find_pak_files};
use evolve_unpack::paths::zip_name;
use evolve_unpack::plan::{pipeline_cleanup, pipeline_prepare, rebuild_plan, result_write_op, FsOp};
use evolve_unpack::unpack::{extract_ops, unpack_container, UnpackError, ZipEntry};

fn b(s: &str) -> Vec<u8> {
    s.as_bytes().to_vec()
}

fn make_container(entries: &[(&str, &[u8])]) -> Vec<u8> {
    let mut w = zip::ZipWriter::new(std::io::Cursor::new(Vec::new()));
    let options = zip::write::SimpleFileOptions::default();
    for (name, data) in entries {
        if name.ends_with('/') {
            w.add_directory(name.trim_end_matches('/'), options).unwrap();
        } else {
            w.start_file(*name, options).unwrap();
            w.write_all(data).unwrap();
        }
    }
    w.finish().unwrap().into_inner()
}

/// The regular files by full path; the decryptor writes `canned` beside
/// its input.
struct Files {
    map: HashMap<Vec<u8>, Vec<u8>>,
    canned_container: Vec<u8>,
}

impl Files {
    fn apply(&mut self, op: &FsOp) {
        match op {
            FsOp::CreateDir { .. } | FsOp::CreateDirAll { .. } => {}
            FsOp::CopyFile { from, to } => {
                let data = self.map.get(from).expect("copy of a missing file").clone();
                self.map.insert(to.clone(), data);
            }
            FsOp::WriteFile { path, data } => {
                self.map.insert(path.clone(), data.clone());
            }
            FsOp::RemoveFile { path } => {
                self.map.remove(path).expect("removal of a missing file");
            }
            FsOp::RunDecryptor { path } => {
                assert!(self.map.contains_key(path), "decryptor needs its input");
                self.map.insert(zip_name(path), self.canned_container.clone());
            }
            _ => panic!("unexpected step in a pipeline plan"),
        }
    }
}

#[test]
fn unpack_reads_back_written_entries() {
    let bytes = make_container(&[("c.lua", b"print(1)"), ("sub/", b""), ("sub/d.lua", b"print(2)")]);
    let entries = unpack_container(&bytes).unwrap();
    let pairs: Vec<(Vec<u8>, Vec<u8>)> =
        entries.iter().map(|e| (e.name.clone(), e.data.clone())).collect();
    assert!(pairs.contains(&(b("c.lua"), b("print(1)"))));
    assert!(pairs.contains(&(b("sub/d.lua"), b("print(2)"))));
    assert_eq!(pairs.len(), 3);
}

#[test]
fn unpack_rejects_garbage() {
    assert_eq!(unpack_container(&b("not a container")), Err(UnpackError::BadContainer));
}

#[test]
fn extract_ops_recreate_directories_and_files() {
    let entries = vec![
        ZipEntry { name: b("sub/"), data: b("") },
        ZipEntry { name: b("sub/d.lua"), data: b("x") },
    ];
    let ops = extract_ops(&entries, &b("out/a/b.pak")).unwrap();
    assert_eq!(
        ops,
        vec![
            FsOp::CreateDirAll { path: b("out/a/b.pak/sub") },
            FsOp::WriteFile { path: b("out/a/b.pak/sub/d.lua"), data: b("x") },
        ]
    );
}

#[test]
fn extract_rejects_parent_components() {
    let entries = vec![ZipEntry { name: b("../evil.lua"), data: b("x") }];
    assert_eq!(extract_ops(&entries, &b("out")), Err(UnpackError::UnsafeEntryName));
    let nested = vec![ZipEntry { name: b("a/../../evil.lua"), data: b("x") }];
    assert_eq!(extract_ops(&nested, &b("out")), Err(UnpackError::UnsafeEntryName));
}

#[test]
fn extract_rejects_absolute_names() {
    let entries = vec![ZipEntry { name: b("/etc/evil"), data: b("x") }];
    assert_eq!(extract_ops(&entries, &b("out")), Err(UnpackError::UnsafeEntryName));
}

#[test]
fn extract_accepts_inner_dots() {
    // Dots that are not a `..` component are ordinary name bytes.
    let entries = vec![ZipEntry { name: b("a..b/c..lua"), data: b("x") }];
    let ops = extract_ops(&entries, &b("out")).unwrap();
    assert_eq!(ops, vec![FsOp::WriteFile { path: b("out/a..b/c..lua"), data: b("x") }]);
}

#[test]
fn pipeline_leaves_exactly_the_entries_and_no_transients() {
    let container = make_container(&[("c.lua", b"print(1)"), ("sub/", b""), ("sub/d.lua", b"print(2)")]);
    let mut fs = Files {
        map: HashMap::new(),
        canned_container: container,
    };
    fs.map.insert(b("game/a/b.pak"), b("encrypted"));

    let (prep, copy_to) = pipeline_prepare(&b("game/a/b.pak"), &b("work"));
    assert_eq!(copy_to, b("work/b.pak"));
    for op in &prep {
        fs.apply(op);
    }

    let container_bytes = fs.map.get(&zip_name(&copy_to)).expect("container was written").clone();
    let entries = unpack_container(&container_bytes).unwrap();
    let ops = extract_ops(&entries, &b("out/a/b.pak")).unwrap();
    for op in &ops {
        fs.apply(op);
    }
    for op in &pipeline_cleanup(&copy_to) {
        fs.apply(op);
    }

    assert_eq!(fs.map.get(&b("out/a/b.pak/c.lua")).unwrap(), &b("print(1)"));
    assert_eq!(fs.map.get(&b("out/a/b.pak/sub/d.lua")).unwrap(), &b("print(2)"));
    assert!(!fs.map.contains_key(&b("work/b.pak")));
    assert!(!fs.map.contains_key(&b("work/b.pak.zip")));
    assert_eq!(fs.map.get(&b("game/a/b.pak")).unwrap(), &b("encrypted"));
    assert_eq!(fs.map.len(), 3);
}

#[test]
fn end_to_end_rebuild_run_writes_script_and_result() {
    // Source tree: one archive whose container yields one script.
    let container = make_container(&[("c.lua", b"script body")]);
    let mut fs = Files {
        map: HashMap::new(),
        canned_container: container,
    };
    fs.map.insert(b("game/a/b.pak"), b("encrypted"));

    let mut dirs: Vec<Vec<u8>> = vec![b("game")];
    for op in &rebuild_plan(&b("out"), &b("out_backup"), false, false) {
        match op {
            FsOp::CreateDir { path } => dirs.push(path.clone()),
            _ => panic!("unexpected step"),
        }
    }
    assert!(dirs.contains(&b("out")));

    let all_source_files = vec![b("game/a/b.pak")];
    let paks = find_pak_files(&all_source_files);
    assert_eq!(paks, vec![b("game/a/b.pak")]);

    let (prep, copy_to) = pipeline_prepare(&paks[0], &b("work"));
    for op in &prep {
        fs.apply(op);
    }
    let container_bytes = fs.map.get(&zip_name(&copy_to)).unwrap().clone();
    let entries = unpack_container(&container_bytes).unwrap();
    let ops = extract_ops(&entries, &b("out/a/b.pak")).unwrap();
    let written: Vec<Vec<u8>> = ops
        .iter()
        .map(|op| match op {
            FsOp::WriteFile { path, .. } => path.clone(),
            _ => panic!("unexpected step"),
        })
        .collect();
    for op in &ops {
        fs.apply(op);
    }

    let luas = find_lua_files(&written);
    assert_eq!(luas, vec![b("out/a/b.pak/c.lua")]);

    // The stubbed remote service always hands back the same text.
    let (ui, warm_still_pending) = archive_ui_plan(&luas, true);
    assert!(!warm_still_pending);
    let mut results: Vec<Vec<u8>> = Vec::new();
    for (i, op) in ui.iter().enumerate() {
        if *op == UiOp::ReadClipboard {
            results.push(b("canned decompiled output"));
            assert!(i + 1 == ui.len() || !matches!(ui[i + 1], UiOp::ReadClipboard));
        }
    }
    assert_eq!(results.len(), luas.len());
    for (script, text) in luas.iter().zip(results.iter()) {
        fs.apply(&result_write_op(script, text));
    }

    for op in &pipeline_cleanup(&copy_to) {
        fs.apply(op);
    }

    // The script, its result beside it, and the untouched source archive.
    assert_eq!(fs.map.get(&b("out/a/b.pak/c.lua")).unwrap(), &b("script body"));
    assert_eq!(
        fs.map.get(&b("out/a/b.pak/c.decomp.lua")).unwrap(),
        &b("canned decompiled output")
    );
    assert_eq!(fs.map.get(&b("game/a/b.pak")).unwrap(), &b("encrypted"));
    assert!(!fs.map.contains_key(&b("work/b.pak")));
    assert!(!fs.map.contains_key(&b("work/b.pak.zip")));
}
