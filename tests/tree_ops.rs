use redox_installer::config::FileConfig;
use redox_installer::tree::{
    path_components, TreeError, TreeSession, MODE_DIR, MODE_FILE, MODE_SYMLINK, MODE_TYPE, ROOT_ID,
};

fn session() -> TreeSession {
    TreeSession::create(vec![0u8; 64 * 1024 * 1024], None, 1_700_000_000, 0).unwrap()
}

fn bytes(s: &str) -> Vec<u8> {
    s.as_bytes().to_vec()
}

#[test]
fn components_drop_empty_and_dot() {
    let parts = path_components(&bytes("//a/./b//c/"));
    assert_eq!(parts, vec![bytes("a"), bytes("b"), bytes("c")]);
    let parts = path_components(&bytes("x/../y"));
    assert_eq!(parts, vec![bytes("x"), bytes(".."), bytes("y")]);
    assert!(path_components(&bytes("/")).is_empty());
}

#[test]
fn create_at_path_twice_gives_same_node() {
    let mut fs = session();
    let first = fs.create_at_path(&bytes("/usr/share"), true, false, &Vec::new(), 0o755, 0, 0).unwrap();
    let second = fs.create_at_path(&bytes("/usr/share"), true, false, &Vec::new(), 0o700, 7, 7).unwrap();
    assert_eq!(first, second);
    let usr = fs.find(ROOT_ID, &bytes("usr")).unwrap().unwrap();
    let children = fs.find_node_by_path(&bytes("/usr/share")).unwrap().unwrap();
    assert_eq!(children.id, first);
    assert_eq!(children.mode & 0o7777, 0o755);
    assert!(fs.find(usr.id, &bytes("share")).unwrap().is_some());
}

#[test]
fn ensure_parent_dirs_creates_missing_as_root_owned() {
    let mut fs = session();
    fs.create_at_path(&bytes("/a"), true, false, &Vec::new(), 0o700, 5, 5).unwrap();
    let parents = vec![bytes("a"), bytes("b"), bytes("c")];
    let c = fs.ensure_parent_dirs(&parents).unwrap();
    let a = fs.find(ROOT_ID, &bytes("a")).unwrap().unwrap();
    assert_eq!((a.mode & 0o7777, a.uid, a.gid), (0o700, 5, 5));
    let b = fs.find(a.id, &bytes("b")).unwrap().unwrap();
    assert_eq!((b.mode, b.uid, b.gid), (MODE_DIR | 0o755, 0, 0));
    let cn = fs.find(b.id, &bytes("c")).unwrap().unwrap();
    assert_eq!(cn.id, c);
    assert_eq!((cn.mode, cn.uid, cn.gid), (MODE_DIR | 0o755, 0, 0));
}

#[test]
fn symlink_declaration_stores_target() {
    let mut fs = session();
    let mut decl = FileConfig::new_file("/bin".to_string(), "user/bin".to_string());
    decl.symlink = true;
    let id = decl.create(&mut fs).unwrap();
    let node = fs.find(ROOT_ID, &bytes("bin")).unwrap().unwrap();
    assert_eq!(node.id, id);
    assert_eq!(node.mode & MODE_TYPE, MODE_SYMLINK);
    assert_eq!(fs.read_node(id, 0, 64).unwrap(), bytes("user/bin"));
}

#[test]
fn parents_follow_relative_symlink() {
    let mut fs = session();
    fs.create_at_path(&bytes("/usr/bin"), true, false, &Vec::new(), 0o755, 0, 0).unwrap();
    fs.create_at_path(&bytes("/bin"), false, true, &bytes("usr/bin"), 0, 0, 0).unwrap();
    let id = fs.create_at_path(&bytes("/bin/ls"), false, false, &bytes("elf"), 0o755, 0, 0).unwrap();
    let usr_bin = fs.find_node_by_path(&bytes("/usr/bin")).unwrap().unwrap();
    let ls = fs.find(usr_bin.id, &bytes("ls")).unwrap().unwrap();
    assert_eq!(ls.id, id);
    assert_eq!(ls.mode, MODE_FILE | 0o755);
    assert_eq!(fs.read_node(id, 0, 16).unwrap(), bytes("elf"));
}

#[test]
fn parents_follow_absolute_symlink() {
    let mut fs = session();
    fs.create_at_path(&bytes("/lib"), false, true, &bytes("/usr/lib"), 0, 0, 0).unwrap();
    fs.create_at_path(&bytes("/lib/x.so"), false, false, &bytes("so"), 0o644, 0, 0).unwrap();
    let made = fs.find_node_by_path(&bytes("/usr/lib/x.so")).unwrap().unwrap();
    assert_eq!(made.mode, MODE_FILE | 0o644);
}

#[test]
fn symlink_with_parent_component_is_refused() {
    let mut fs = session();
    fs.create_at_path(&bytes("/up"), false, true, &bytes("../x"), 0, 0, 0).unwrap();
    let r = fs.create_at_path(&bytes("/up/f"), false, false, &Vec::new(), 0o644, 0, 0);
    assert_eq!(r, Err(TreeError::UnsupportedParentLink));
}

#[test]
fn path_without_name_is_refused() {
    let mut fs = session();
    assert_eq!(fs.create_at_path(&bytes("/"), true, false, &Vec::new(), 0o755, 0, 0), Err(TreeError::NoFileName));
    assert_eq!(fs.create_at_path(&bytes("/a/.."), true, false, &Vec::new(), 0o755, 0, 0), Err(TreeError::NoFileName));
}

#[test]
fn find_node_by_path_missing() {
    let mut fs = session();
    assert!(fs.find_node_by_path(&bytes("/nope/x")).unwrap().is_none());
    let root = fs.find_node_by_path(&bytes("/")).unwrap().unwrap();
    assert_eq!(root.id, ROOT_ID);
    assert_eq!(root.mode, MODE_DIR | 0o755);
}

#[test]
fn chunked_write_spans_chunks() {
    let mut fs = session();
    let id = fs.create_at_path(&bytes("/big"), false, false, &Vec::new(), 0o644, 0, 0).unwrap();
    let content: Vec<u8> = (0..150_000u32).map(|i| (i % 251) as u8).collect();
    fs.write_file_chunked(id, &content).unwrap();
    let back = fs.read_node(id, 0, 200_000).unwrap();
    assert_eq!(back, content);
}

#[test]
fn create_in_tx_defaults_owner_to_unset() {
    let mut fs = session();
    let id = FileConfig::new_file("/etc/motd".to_string(), "hi".to_string()).create_in_tx(&mut fs).unwrap();
    let node = fs.find_node_by_path(&bytes("/etc/motd")).unwrap().unwrap();
    assert_eq!(node.id, id);
    assert_eq!((node.mode, node.uid, node.gid), (MODE_FILE | 0o644, !0, !0));
    assert_eq!(fs.read_node(id, 0, 8).unwrap(), bytes("hi"));
}

#[test]
fn create_in_tx_applies_recursive_owners() {
    let mut fs = session();
    FileConfig::new_file("/foo/bar/b.txt".to_string(), "x".to_string()).create_in_tx(&mut fs).unwrap();
    FileConfig::new_file("/other.txt".to_string(), String::new()).create_in_tx(&mut fs).unwrap();
    let mut decl = FileConfig::new_directory("/foo".to_string());
    decl.with_recursive_mod(0o123, 1234, 5678);
    decl.create_in_tx(&mut fs).unwrap();
    for path in ["/foo", "/foo/bar", "/foo/bar/b.txt"] {
        let node = fs.find_node_by_path(&bytes(path)).unwrap().unwrap();
        assert_eq!((node.mode & 0o7777, node.uid, node.gid), (0o123, 1234, 5678));
    }
    let file = fs.find_node_by_path(&bytes("/foo/bar/b.txt")).unwrap().unwrap();
    assert_eq!(file.mode & MODE_TYPE, MODE_FILE);
    assert_eq!(fs.read_node(file.id, 0, 8).unwrap(), bytes("x"));
    let other = fs.find_node_by_path(&bytes("/other.txt")).unwrap().unwrap();
    assert_eq!((other.mode, other.uid, other.gid), (MODE_FILE | 0o644, !0, !0));
}

#[test]
fn new_symlink_takes_given_owners() {
    let mut fs = session();
    let id = fs.create_at_path(&bytes("/lnk"), false, true, &bytes("target"), 0o600, 42, 43).unwrap();
    let node = fs.find_node_by_path(&bytes("/lnk")).unwrap().unwrap();
    assert_eq!(node.id, id);
    assert_eq!((node.mode, node.uid, node.gid), (MODE_SYMLINK | 0o777, 42, 43));
}

#[test]
fn empty_parent_list_is_root() {
    let mut fs = session();
    assert_eq!(fs.ensure_parent_dirs(&Vec::new()), Ok(ROOT_ID));
}

#[test]
fn image_round_trips_bytes() {
    let fs = session();
    let image = fs.into_image();
    assert_eq!(image.len(), 64 * 1024 * 1024);
}

#[test]
fn path_through_regular_file_is_refused() {
    let mut fs = session();
    fs.create_at_path(&bytes("/etc"), false, false, &bytes("data"), 0o644, 0, 0).unwrap();
    let r = fs.create_at_path(&bytes("/etc/motd"), false, false, &bytes("hi"), 0o644, 0, 0);
    assert_eq!(r, Err(TreeError::NotADirectory));
    let etc = fs.find_node_by_path(&bytes("/etc")).unwrap().unwrap();
    assert_eq!(fs.read_node(etc.id, 0, 16).unwrap(), bytes("data"));
}

#[test]
fn name_with_nul_is_refused() {
    let mut fs = session();
    let r = fs.create_at_path(&b"/a\0b".to_vec(), false, false, &bytes("x"), 0o644, 0, 0);
    assert_eq!(r, Err(TreeError::InvalidName));
    assert!(fs.find_node_by_path(&bytes("/a")).unwrap().is_none());
    let r = fs.create_at_path(&b"/d\0/f".to_vec(), false, false, &bytes("x"), 0o644, 0, 0);
    assert_eq!(r, Err(TreeError::InvalidName));
}

#[test]
fn walk_through_symlinked_parent_reaches_target() {
    let mut fs = session();
    fs.create_at_path(&bytes("/opt/real"), true, false, &Vec::new(), 0o755, 0, 0).unwrap();
    fs.create_at_path(&bytes("/link"), false, true, &bytes("/opt/real"), 0, 0, 0).unwrap();
    let first = fs.create_at_path(&bytes("/link/f"), false, false, &bytes("1"), 0o600, 5, 6).unwrap();
    let second = fs.create_at_path(&bytes("/link/f"), false, false, &bytes("2"), 0o644, 7, 8).unwrap();
    assert_eq!(first, second);
    let node = fs.find_node_by_path(&bytes("/opt/real/f")).unwrap().unwrap();
    assert_eq!((node.id, node.mode, node.uid, node.gid), (first, MODE_FILE | 0o600, 5, 6));
    assert_eq!(fs.read_node(first, 0, 8).unwrap(), bytes("1"));
}
