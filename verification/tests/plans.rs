use std::collections::HashMap;

use evolve_unpack::plan::{copy_extras_plan, rebuild_plan, result_write_op, FsOp, PlanError};

fn b(s: &str) -> Vec<u8> {
    s.as_bytes().to_vec()
}

/// A little stand-in for the sibling directory slots: each occupied slot
/// holds a generation number, bumped at every creation.
struct DirSlots {
    slots: HashMap<Vec<u8>, u64>,
    next_gen: u64,
}

impl DirSlots {
    fn new() -> Self {
        DirSlots { slots: HashMap::new(), next_gen: 1 }
    }

    fn apply(&mut self, op: &FsOp) {
        match op {
            FsOp::CreateDir { path } => {
                assert!(!self.slots.contains_key(path), "create over an existing directory");
                self.slots.insert(path.clone(), self.next_gen);
                self.next_gen += 1;
            }
            FsOp::RemoveDirAll { path } => {
                self.slots.remove(path);
            }
            FsOp::RenameDir { from, to } => {
                assert!(!self.slots.contains_key(to), "rename over an existing directory");
                let v = self.slots.remove(from).expect("rename of a missing directory");
                self.slots.insert(to.clone(), v);
            }
            _ => panic!("unexpected step in a rebuild plan"),
        }
    }
}

#[test]
fn rebuild_creates_missing_output() {
    let plan = rebuild_plan(&b("out"), &b("out_backup"), false, false);
    assert_eq!(plan, vec![FsOp::CreateDir { path: b("out") }]);
}

#[test]
fn rebuild_rotates_existing_output() {
    let plan = rebuild_plan(&b("out"), &b("out_backup"), true, false);
    assert_eq!(
        plan,
        vec![
            FsOp::RenameDir { from: b("out"), to: b("out_backup") },
            FsOp::CreateDir { path: b("out") },
        ]
    );
}

#[test]
fn rebuild_drops_old_backup_first() {
    let plan = rebuild_plan(&b("out"), &b("out_backup"), true, true);
    assert_eq!(
        plan,
        vec![
            FsOp::RemoveDirAll { path: b("out_backup") },
            FsOp::RenameDir { from: b("out"), to: b("out_backup") },
            FsOp::CreateDir { path: b("out") },
        ]
    );
}

#[test]
fn rebuild_twice_keeps_one_backup() {
    let out = b("out");
    let bak = b("out_backup");
    let mut fs = DirSlots::new();
    fs.slots.insert(out.clone(), 100);
    fs.slots.insert(b("unrelated"), 7);

    let first = rebuild_plan(&out, &bak, fs.slots.contains_key(&out), fs.slots.contains_key(&bak));
    for op in &first {
        fs.apply(op);
    }
    let out_after_first = *fs.slots.get(&out).unwrap();
    assert_eq!(*fs.slots.get(&bak).unwrap(), 100);

    let second = rebuild_plan(&out, &bak, fs.slots.contains_key(&out), fs.slots.contains_key(&bak));
    for op in &second {
        fs.apply(op);
    }

    // The second run's backup replaced the first one's; nothing piled up.
    assert_eq!(fs.slots.len(), 3);
    assert_eq!(*fs.slots.get(&bak).unwrap(), out_after_first);
    assert!(fs.slots.contains_key(&out));
    assert_eq!(*fs.slots.get(&b("unrelated")).unwrap(), 7);
}

/// The regular files by full path.
struct Files {
    map: HashMap<Vec<u8>, Vec<u8>>,
}

impl Files {
    fn new() -> Self {
        Files { map: HashMap::new() }
    }

    fn apply(&mut self, op: &FsOp) {
        match op {
            FsOp::CreateDir { .. } | FsOp::CreateDirAll { .. } => {}
            FsOp::CopyFile { from, to } => {
                let data = self.map.get(from).expect("copy of a missing file").clone();
                self.map.insert(to.clone(), data);
            }
            FsOp::WriteFile { path, data } => {
                self.map.insert(path.clone(), data.clone());
            }
            FsOp::RemoveFile { path } => {
                self.map.remove(path).expect("removal of a missing file");
            }
            _ => panic!("unexpected step in a file-level plan"),
        }
    }
}

#[test]
fn copy_extras_mirrors_every_file() {
    let src = b("game");
    let out = b("out");
    let mut fs = Files::new();
    fs.map.insert(b("game/a/z.txt"), b("zzz"));
    fs.map.insert(b("game/readme"), b("hello"));
    let files = vec![b("game/a/z.txt"), b("game/readme")];

    let plan = copy_extras_plan(&src, &out, true, &files).expect("output root exists");
    for op in &plan {
        fs.apply(op);
    }
    assert_eq!(fs.map.get(&b("out/a/z.txt")).unwrap(), &b("zzz"));
    assert_eq!(fs.map.get(&b("out/readme")).unwrap(), &b("hello"));
    // The sources are still in place.
    assert_eq!(fs.map.get(&b("game/a/z.txt")).unwrap(), &b("zzz"));
    assert_eq!(fs.map.get(&b("game/readme")).unwrap(), &b("hello"));
    assert_eq!(fs.map.len(), 4);
}

#[test]
fn copy_extras_without_output_root_fails_and_plans_nothing() {
    let files = vec![b("game/a/z.txt")];
    let r = copy_extras_plan(&b("game"), &b("out"), false, &files);
    assert_eq!(r, Err(PlanError::OutputMissing));
}

#[test]
fn result_written_twice_keeps_only_second_text() {
    let script = b("out/a/c.lua");
    let mut fs = Files::new();
    fs.map.insert(script.clone(), b("compiled"));

    let first = result_write_op(&script, &b("first text"));
    let second = result_write_op(&script, &b("second text"));
    fs.apply(&first);
    fs.apply(&second);

    assert_eq!(fs.map.get(&b("out/a/c.decomp.lua")).unwrap(), &b("second text"));
    // Overwritten, not appended, and nothing else was created.
    assert_eq!(fs.map.len(), 2);
}

#[test]
fn result_op_targets_the_result_name() {
    let op = result_write_op(&b("out/a/c.lua"), &b("t"));
    assert_eq!(op, FsOp::WriteFile { path: b("out/a/c.decomp.lua"), data: b("t") });
}
