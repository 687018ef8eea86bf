use fsvfs::components::DvdbndConfig;
use fsvfs::filesystem::object::RofsObject;
use fsvfs::filesystem::tree::name_fits;
use fsvfs::filesystem::{inode_of_entry_number, DefaultConfig, EntryKind, Rofs, RofsError};

const PATHS: [&str; 11] = [
    "model/map/t50_38_00_00.tpfbhd",
    "model/map/t50_38_00_00_low.tpfbdt",
    "model/obj/o00_0001.bnd",
    "model_hq/map/g50_38_00_00.gibdt",
    "model_hq/map/g50_38_00_00.gibhd",
    "model_hq/map/t10_02_00_00.tpfbdt",
    "model_hq/map/t10_02_00_00.tpfbhd",
    "model_hq/obj/o00_2000.bnd",
    "model_hq/chr/c5000.texbnd",
    "model_hq/parts/shield/sd_1000_m.bnd",
    "model_hq/parts/shield/sd_1000_m_l.bnd",
];

fn value_of(path: &str) -> u32 {
    path.bytes().fold(17u32, |h, b| h.wrapping_mul(31).wrapping_add(b as u32))
}

fn entries(paths: &[&str]) -> Vec<(String, u32)> {
    paths.iter().map(|p| (p.to_string(), value_of(p))).collect()
}

/// The paths split over several objects, merged, as archives are.
fn bnd_fs() -> Rofs<u32, DvdbndConfig> {
    let groups: [&[&str]; 3] = [&PATHS[..3], &PATHS[3..8], &PATHS[8..]];
    let mut fs = RofsObject::<u32, DvdbndConfig>::default();
    for group in groups {
        fs = fs.merge(RofsObject::new(entries(group)));
    }
    fs.into_rofs()
}

fn file_of(fs: &Rofs<u32, DvdbndConfig>, inode: u64) -> u32 {
    match fs.entry(inode).unwrap().kind {
        EntryKind::File(&v) => v,
        EntryKind::Dir(_) => panic!("not a file"),
    }
}

#[test]
fn filesystem_lookup() {
    let f = bnd_fs();
    assert_eq!(f.lookup(".").unwrap(), 1);
    assert_eq!(f.lookup("").unwrap(), 1);
    assert_eq!(f.name(1).unwrap(), "");

    for path in PATHS {
        let inode = f.lookup(path).unwrap();
        let name = match path.rsplit_once('/') {
            Some((_, name)) => name,
            None => path,
        };
        let name2 = f.name(inode).unwrap();
        assert!(name.eq_ignore_ascii_case(name2), "{name} != {name2}");
    }
}

#[test]
fn filesystem_get_data() {
    let f = bnd_fs();
    for path in PATHS {
        let inode = f.lookup(path).unwrap();
        assert_eq!(file_of(&f, inode), value_of(path), "{path}");
    }
}

#[test]
fn lookup_ignores_case_and_separators() {
    let f = bnd_fs();
    let a = f.lookup("model_hq/chr/c5000.texbnd").unwrap();
    assert_eq!(f.lookup("MODEL_HQ\\Chr\\C5000.TEXBND").unwrap(), a);
    assert_eq!(f.lookup("/model_hq//./chr/c5000.texbnd").unwrap(), a);
    assert_eq!(f.lookup("model_hq/map/../chr/c5000.texbnd").unwrap(), a);
    assert_eq!(f.lookup("model_hq/chr/c5000.texbnd/.."), f.lookup("model_hq/chr"));
    assert_eq!(f.lookup("model_hq/chr/missing"), Err(RofsError::NotFound));
    assert_eq!(f.lookup("model_hq/chr/c5000.texbnd/below"), Err(RofsError::NotFound));
}

#[test]
fn lookup_in_directory() {
    let f = bnd_fs();
    let dir = f.lookup("model_hq/parts").unwrap();
    let file = f.lookup("model_hq/parts/shield/sd_1000_m.bnd").unwrap();
    assert_eq!(f.lookup_in_dir(dir, "shield/sd_1000_m.bnd").unwrap(), file);
    assert_eq!(f.lookup_in_dir(dir, "").unwrap(), dir);
    assert_eq!(f.lookup_in_dir(file, "x"), Err(RofsError::NotFound));
    // An empty path names the directory it starts from, whether or not it exists.
    assert_eq!(f.lookup_in_dir(1000, "").unwrap(), 1000);
    assert_eq!(f.lookup_in_dir(1000, "x"), Err(RofsError::NotFound));
}

#[test]
fn entries_of_directories() {
    let f = bnd_fs();
    let root = f.entry(1).unwrap();
    assert_eq!(root.name, "");
    // Entries number their node as the node's index less the root inode.
    assert_eq!(root.inode, u64::MAX);
    match root.kind {
        EntryKind::Dir(children) => {
            let names: Vec<&str> = children
                .iter()
                .map(|&c| f.name(c.wrapping_add(2)).unwrap())
                .collect();
            // Two names in eytzinger layout: the larger at the top.
            assert_eq!(names, vec!["model_hq", "model"]);
        }
        EntryKind::File(_) => panic!("root is a directory"),
    }
    let shield = f.lookup("model_hq/parts/shield").unwrap();
    match f.entry(shield).unwrap().kind {
        EntryKind::Dir(children) => {
            let names: Vec<&str> = children
                .iter()
                .map(|&c| f.name(c.wrapping_add(2)).unwrap())
                .collect();
            assert_eq!(names, vec!["sd_1000_m_l.bnd", "sd_1000_m.bnd"]);
        }
        EntryKind::File(_) => panic!("not a directory"),
    }
    assert!(f.entry(10_000).is_err());
    assert!(f.name(10_000).is_err());
    assert_eq!(f.name(0), Err(RofsError::NotFound));
    assert_eq!(f.file_count(), 11);
}

#[test]
fn first_file_at_a_path_wins() {
    let obj = RofsObject::<u32, DefaultConfig>::new(vec![
        ("a/b".to_string(), 1),
        ("A/B".to_string(), 2),
        ("a".to_string(), 3),
        ("a/b/c".to_string(), 4),
        ("".to_string(), 5),
        ("d".to_string(), 6),
        ("d/e".to_string(), 7),
    ]);
    let f = obj.into_rofs();
    assert_eq!(f.file_count(), 7);
    assert_eq!(file_data(&f, "a/b"), Some(1));
    assert_eq!(file_data(&f, "d"), Some(6));
    assert!(f.lookup("d/e").is_err());
    assert!(f.lookup("a/b/c").is_err());
    assert!(matches!(f.entry(f.lookup("a").unwrap()).unwrap().kind, EntryKind::Dir(_)));
}

#[test]
fn merge_keeps_the_first_object() {
    // A directory of the first object hides a file of the second at the same
    // path, and a file of the first hides the second's directory there.
    let a = RofsObject::<u32, DefaultConfig>::new(vec![
        ("x/y".to_string(), 10),
        ("f".to_string(), 11),
    ]);
    let b = RofsObject::<u32, DefaultConfig>::new(vec![
        ("x".to_string(), 20),
        ("f/g".to_string(), 21),
        ("x/z".to_string(), 22),
        ("h".to_string(), 23),
    ]);
    let f = a.merge(b).into_rofs();
    assert_eq!(f.file_count(), 6);
    assert_eq!(file_data(&f, "x/y"), Some(10));
    assert_eq!(file_data(&f, "f"), Some(11));
    assert!(f.lookup("f/g").is_err());
    // "x/z" came after the file "x" inside its own object, so it was never there.
    assert!(f.lookup("x/z").is_err());
    assert_eq!(file_data(&f, "h"), Some(23));
}

#[test]
fn merge_with_empty_objects() {
    let a = RofsObject::<u32, DefaultConfig>::new(vec![("p/q".to_string(), 1)]);
    let f = RofsObject::default()
        .merge(a)
        .merge(RofsObject::default())
        .into_rofs();
    assert_eq!(f.file_count(), 1);
    assert_eq!(file_data(&f, "p/q"), Some(1));
}

fn file_data<C: fsvfs::filesystem::Config>(f: &Rofs<u32, C>, path: &str) -> Option<u32> {
    let inode = f.lookup(path).ok()?;
    match f.entry(inode).ok()?.kind {
        EntryKind::File(&v) => Some(v),
        EntryKind::Dir(_) => None,
    }
}

#[test]
fn long_names_are_found() {
    let ascii: Vec<char> = "a".repeat(255).chars().collect();
    assert!(name_fits(&ascii));
    let longer: Vec<char> = "a".repeat(256).chars().collect();
    assert!(!name_fits(&longer));
    // 128 two-byte characters make 256 bytes.
    let wide: Vec<char> = "é".repeat(128).chars().collect();
    assert!(!name_fits(&wide));
    let wide: Vec<char> = "é".repeat(127).chars().collect();
    assert!(name_fits(&wide));

    let long = "b".repeat(300);
    let fits = entries(&["a/b.txt", "c/d"]);
    assert!(RofsObject::<u32, DefaultConfig>::check_names(&fits));
    let too_long = vec![("x".to_string(), 1u32), (format!("dir/{long}"), 2)];
    assert!(!RofsObject::<u32, DefaultConfig>::check_names(&too_long));
    // A name below a file is never reached, so its length does not matter.
    let below_file = vec![("x".to_string(), 1u32), (format!("x/{long}"), 2)];
    assert!(RofsObject::<u32, DefaultConfig>::check_names(&below_file));
}

#[test]
fn directories_list_children_in_eytzinger_layout() {
    let fs = RofsObject::<u32, DefaultConfig>::new(entries(&["g", "c", "a", "e", "b", "f", "d"]))
        .into_rofs();
    let names: Vec<&str> = match fs.entry(1).unwrap().kind {
        EntryKind::Dir(children) => children
            .iter()
            .map(|&c| fs.name(c.wrapping_add(2)).unwrap())
            .collect(),
        EntryKind::File(_) => panic!("root is a directory"),
    };
    assert_eq!(names, vec!["d", "b", "f", "a", "c", "e", "g"]);
    for name in ["a", "b", "c", "d", "e", "f", "g"] {
        let inode = fs.lookup(name).unwrap();
        assert_eq!(fs.name(inode).unwrap(), name);
    }
    assert_eq!(fs.lookup("h"), Err(RofsError::NotFound));
}

#[test]
fn nodes_are_numbered_breadth_first() {
    let r = RofsObject::<u32, DefaultConfig>::new(vec![("a/b".to_string(), 1u32)]).into_rofs();
    assert_eq!(r.lookup("."), Ok(1));
    assert_eq!(r.lookup(""), Ok(1));
    assert_eq!(r.name(1), Ok(""));
    assert_eq!(r.lookup("a"), Ok(2));
    assert_eq!(r.lookup("a/b"), Ok(3));
    assert_eq!(r.lookup("A/B"), Ok(3));
    assert_eq!(r.name(3), Ok("b"));
    assert_eq!(r.lookup("a/c"), Err(RofsError::NotFound));
}

#[test]
fn entry_numbers_give_inodes() {
    let r = RofsObject::<u32, DefaultConfig>::new(vec![("a/b".to_string(), 1u32)]).into_rofs();
    let root = r.entry(1).unwrap();
    match root.kind {
        EntryKind::Dir(children) => {
            assert_eq!(children.len(), 1);
            let inode = inode_of_entry_number::<DefaultConfig>(children[0]);
            assert_eq!(inode, r.lookup("a").unwrap());
            assert_eq!(r.entry(inode).unwrap().inode, children[0]);
        }
        EntryKind::File(_) => panic!("root is a directory"),
    }
    assert_eq!(inode_of_entry_number::<DefaultConfig>(root.inode), 1);
}
