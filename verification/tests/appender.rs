use bytes::{Bytes, BytesMut};
use dbprimkit::appender::{
    DefaultRotNameProvider, DefaultRotator, RotAppender, RotNameProvider, Rotator,
};
use dbprimkit::io::{OpenFlags, OpenOptions};
use dbprimkit::Error;
use rand::RngExt;
use std::collections::BTreeMap;

/// A directory in memory.
struct Dir {
    files: BTreeMap<String, Vec<u8>>,
}

impl Dir {
    fn new() -> Self {
        Dir { files: BTreeMap::new() }
    }

    fn list(&self) -> Vec<String> {
        // in an order that the rotators do not rely on
        self.files.keys().rev().cloned().collect()
    }

    fn open(&mut self, name: &str) {
        self.files.entry(name.to_string()).or_default();
    }

    fn write(&mut self, name: &str, data: &[u8]) {
        self.files.get_mut(name).unwrap().extend_from_slice(data);
    }

    fn size(&self, name: &str) -> u64 {
        self.files[name].len() as u64
    }
}

type Rot = DefaultRotator<DefaultRotNameProvider>;

fn new_rot(dir: &mut Dir, dr: &mut Rot) -> String {
    let names = dr.rnp.list_rot_names(dir.list());
    let n = dr.new_rot(&names);
    for oldest in &names[..n.remove] {
        dir.files.remove(oldest).unwrap();
    }
    dir.open(&n.name);
    dr.switched(n.rot_no);
    n.name
}

fn rot_names(dir: &Dir, dr: &Rot) -> Vec<String> {
    dr.rnp.list_rot_names(dir.list())
}

fn random_buf(capa: usize) -> Bytes {
    let mut buf_mut = BytesMut::zeroed(capa);
    let mut rng = rand::rng();
    rng.fill(&mut buf_mut);
    buf_mut.freeze()
}

#[test]
fn sync_test_default_rot_name_provider() {
    let mut dir = Dir::new();
    let rnp = DefaultRotNameProvider::new("drnp_test_sync.");
    let name1 = rnp.gen_rot_name(3);
    let name2 = rnp.gen_rot_name(5);
    assert_eq!(name1, String::from("drnp_test_sync.0000000003"));
    assert_eq!(name2, String::from("drnp_test_sync.0000000005"));
    let res = rnp.restore_latest_rot_info(dir.list()).unwrap();
    assert!(res.is_none());
    let exp_names = vec![name1, name2];
    dir.open(&exp_names[0]);
    dir.open(&exp_names[1]);
    let names = rnp.list_rot_names(dir.list());
    assert_eq!(names, exp_names);
    let res = rnp.restore_latest_rot_info(dir.list()).unwrap().unwrap();
    assert_eq!(res.0, 5);
    assert_eq!(res.1, exp_names[1]);
}

#[test]
fn sync_test_default_rotator() {
    let capa = 2560usize;
    let mut dir = Dir::new();
    let mut dr = Rot::new("dr_test_sync.", 3, 4096, dir.list()).unwrap();
    assert!(!dr.needs_new_rot(1095));
    assert!(dr.needs_new_rot(4096));
    assert!(dr.needs_new_rot(4097));
    let buf = random_buf(capa);
    let first = dr.init_appending();
    assert!(!first.existing);
    dir.open(&first.name);
    dir.write(&first.name, &buf);
    let name = new_rot(&mut dir, &mut dr);
    dir.write(&name, &buf);
    assert_eq!(rot_names(&dir, &dr).len(), 2);
    let name = new_rot(&mut dir, &mut dr);
    dir.write(&name, &buf);
    assert_eq!(rot_names(&dir, &dr).len(), 3);
    let name = new_rot(&mut dir, &mut dr);
    dir.write(&name, &buf);
    assert_eq!(rot_names(&dir, &dr).len(), 3);
    let name = new_rot(&mut dir, &mut dr);
    dir.write(&name, &buf);
    dir.write(&name, &buf);
    let exp_names = vec![
        String::from("dr_test_sync.0000000002"),
        String::from("dr_test_sync.0000000003"),
        String::from("dr_test_sync.0000000004"),
    ];
    assert_eq!(rot_names(&dir, &dr), exp_names);
    assert_eq!(dir.size("dr_test_sync.0000000004"), (capa * 2) as u64);
    assert_eq!(dir.files["dr_test_sync.0000000004"][..capa], buf[..]);
    let mut dr = Rot::new("dr_test_sync.", 3, 4096, dir.list()).unwrap();
    let first = dr.init_appending();
    assert!(first.existing);
    assert_eq!(first.name, "dr_test_sync.0000000004");
    dir.write(&first.name, &buf);
    assert_eq!(dir.size("dr_test_sync.0000000004"), (capa * 3) as u64);
    for name in &exp_names {
        dir.files.remove(name).unwrap();
    }
    let name = new_rot(&mut dir, &mut dr);
    dir.write(&name, b"dummy");
    dir.write(&name, b"dummy");
    dir.write(&name, &buf);
    assert_eq!(dir.size("dr_test_sync.0000000005"), (capa + 10) as u64);
}

/// An appender on a directory in memory.
struct Appender {
    app: RotAppender<Rot>,
    cur: String,
}

impl Appender {
    fn open(dir: &mut Dir, mut rot: Rot) -> Self {
        let first = rot.init_appending();
        dir.open(&first.name);
        let esize = if first.existing { dir.size(&first.name) } else { 0 };
        Appender { app: RotAppender::new(rot, false, esize), cur: first.name }
    }

    fn append(&mut self, dir: &mut Dir, data: &[u8]) {
        dir.write(&self.cur, data);
        if self.app.append(data.len() as u64, true) {
            self.cur = new_rot(dir, &mut self.app.rot);
            self.app.switched();
        }
    }
}

#[test]
fn sync_test_rot_appender() {
    let capa = 3072usize;
    let mut dir = Dir::new();
    let rotator = Rot::new("ra_test_sync.", 3, 8096, dir.list()).unwrap();
    let mut appender = Appender::open(&mut dir, rotator);
    let buf = random_buf(capa);
    let mut idx = 0usize;
    while idx < 16 {
        appender.append(&mut dir, &buf);
        idx += 1;
        let rots = rot_names(&dir, appender.app.get_rotator());
        let rot_cnt = (((idx + 3) / 3) as usize).min(3);
        let buf_cnt = idx % 3;
        assert_eq!(appender.app.esize, (buf_cnt * capa) as u64);
        assert_eq!(rots.len(), rot_cnt, "idx={}", idx);
    }
    let exp_rots = vec![
        String::from("ra_test_sync.0000000003"),
        String::from("ra_test_sync.0000000004"),
        String::from("ra_test_sync.0000000005"),
    ];
    let rots = rot_names(&dir, appender.app.get_rotator());
    assert_eq!(rots, exp_rots);
    let exp_sizes = [capa * 3, capa * 3, capa];
    for (idx, name) in rots.iter().enumerate() {
        assert_eq!(dir.size(name), exp_sizes[idx] as u64);
        assert_eq!(dir.files[name][..capa], buf[..]);
    }
    let rotator = Rot::new("ra_test_sync.", 3, 8096, dir.list()).unwrap();
    let mut appender = Appender::open(&mut dir, rotator);
    while idx < 32 {
        appender.append(&mut dir, &buf);
        idx += 1;
        let rots = rot_names(&dir, appender.app.get_rotator());
        let buf_cnt = idx % 3;
        assert_eq!(appender.app.esize, (buf_cnt * capa) as u64);
        assert_eq!(rots.len(), 3);
    }
    let exp_rots = vec![
        String::from("ra_test_sync.0000000008"),
        String::from("ra_test_sync.0000000009"),
        String::from("ra_test_sync.0000000010"),
    ];
    let rots = rot_names(&dir, appender.app.get_rotator());
    assert_eq!(rots, exp_rots);
    let exp_sizes = [capa * 3, capa * 3, capa * 2];
    for (idx, name) in rots.iter().enumerate() {
        assert_eq!(dir.size(name), exp_sizes[idx] as u64);
        assert_eq!(dir.files[name][..capa], buf[..]);
    }
}

#[test]
fn rotations_without_limit_all_stay() {
    let mut dir = Dir::new();
    let mut dr = Rot::new("r.", 0, 1, dir.list()).unwrap();
    let first = dr.init_appending();
    dir.open(&first.name);
    for _ in 0..20 {
        new_rot(&mut dir, &mut dr);
    }
    let names = rot_names(&dir, &dr);
    assert_eq!(names.len(), 21);
    assert_eq!(names[0], "r.0000000000");
    assert_eq!(names[20], "r.0000000020");
}

#[test]
fn latest_rotation_without_a_number() {
    for bad in ["p.x", "p.", "p.-1", "p.4294967296", "p.1a"] {
        let files = vec!["p.".to_string(), bad.to_string(), "other".to_string()];
        let rnp = DefaultRotNameProvider::new("p.");
        match rnp.restore_latest_rot_info(files.clone()) {
            Err(Error::MiscError(s)) => {
                assert_eq!(s, format!("Failed to restore rotation number from `{}`", bad))
            }
            _ => panic!("a number was found"),
        }
        assert!(Rot::new("p.", 0, 1, files).is_err());
    }
    let rnp = DefaultRotNameProvider::new("p.");
    let res = rnp.restore_latest_rot_info(vec!["p.+7".to_string()]).unwrap().unwrap();
    assert_eq!(res, (7, "p.+7".to_string()));
    let res = rnp.restore_latest_rot_info(vec!["p.4294967295".to_string()]).unwrap().unwrap();
    assert_eq!(res.0, u32::MAX);
    let res = rnp.restore_latest_rot_info(vec!["q.1".to_string()]).unwrap();
    assert!(res.is_none());
}

#[test]
fn latest_rotation_is_looked_up_again() {
    let dr = Rot::new("p.", 2, 10, Vec::new()).unwrap();
    assert_eq!(dr.restore_latest_rot(Vec::new()).unwrap(), None);
    let files = vec!["p.0000000002".to_string(), "p.0000000001".to_string()];
    assert_eq!(dr.restore_latest_rot(files).unwrap(), Some("p.0000000002".to_string()));
    assert!(dr.restore_latest_rot(vec!["p.x".to_string()]).is_err());
}

#[test]
fn names_with_other_characters_are_ordered() {
    let rnp = DefaultRotNameProvider::new("z\u{e9}.");
    let files = vec![
        "z\u{e9}.0000000010".to_string(),
        "z\u{e9}.0000000009".to_string(),
        "ze.0000000011".to_string(),
    ];
    let names = rnp.list_rot_names(files);
    assert_eq!(names, vec!["z\u{e9}.0000000009".to_string(), "z\u{e9}.0000000010".to_string()]);
}

#[test]
fn rotation_is_not_switched_when_it_may_not_be() {
    let dr = Rot::new("p.", 2, 10, Vec::new()).unwrap();
    let mut app = RotAppender::new(dr, true, 5);
    assert!(app.direct_io);
    assert!(!app.append(4, true));
    assert!(!app.needs_new_rot());
    assert!(!app.append(1, false));
    assert!(app.needs_new_rot());
    assert!(app.append(0, true));
    app.switched();
    assert_eq!(app.esize, 0);
    assert!(!app.needs_new_rot());
}

#[test]
fn open_options_and_flags() {
    let o = OpenOptions::new()
        .with_read(true)
        .with_write(true)
        .with_create(true)
        .with_append(true)
        .with_direct(true);
    assert!(o.read && o.write && o.create && o.append && o.direct);
    assert_eq!(
        o.flags(true, false),
        OpenFlags { read: true, write: false, create: false, append: false, direct: true }
    );
    assert_eq!(
        o.flags(false, true),
        OpenFlags { read: false, write: true, create: true, append: true, direct: true }
    );
    let n = OpenOptions::default().with_create(true);
    assert_eq!(
        n.flags(true, true),
        OpenFlags { read: true, write: true, create: true, append: false, direct: false }
    );
    let w = Rot::write_options(true);
    assert!(w.append && w.create && w.direct && !w.read && !w.write);
    let r = Rot::read_options(false);
    assert!(r.append && r.create && !r.direct);
}

#[test]
fn rotations_over_the_limit_are_removed() {
    let mut dir = Dir::new();
    for no in 0..5 {
        dir.open(&format!("p.{:010}", no));
    }
    let mut dr = Rot::new("p.", 2, 4096, dir.list()).unwrap();
    assert_eq!(dr.new_rot(&rot_names(&dir, &dr)).remove, 4);
    assert_eq!(new_rot(&mut dir, &mut dr), "p.0000000005");
    assert_eq!(rot_names(&dir, &dr), ["p.0000000004", "p.0000000005"]);
    new_rot(&mut dir, &mut dr);
    assert_eq!(rot_names(&dir, &dr), ["p.0000000005", "p.0000000006"]);

    // without a limit nothing is removed
    let mut dr = Rot::new("p.", 0, 4096, dir.list()).unwrap();
    new_rot(&mut dir, &mut dr);
    assert_eq!(rot_names(&dir, &dr).len(), 3);
}
