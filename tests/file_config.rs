use redox_installer::config::FileConfig;
use redox_installer::tree::{NodeInfo, TreeSession, MODE_DIR, MODE_FILE, MODE_PERM, MODE_SYMLINK, MODE_TYPE, ROOT_ID};

const MOCK_DISK_SIZE: usize = 64 * 1024 * 1024;

fn create_mock_filesystem() -> TreeSession {
    TreeSession::create(vec![0u8; MOCK_DISK_SIZE], None, 1_700_000_000, 0).unwrap()
}

fn find(fs: &mut TreeSession, parent: u32, name: &str) -> NodeInfo {
    fs.find(parent, &name.as_bytes().to_vec()).unwrap().unwrap()
}

fn is_file(node: &NodeInfo) -> bool {
    node.mode & MODE_TYPE == MODE_FILE
}

fn is_dir(node: &NodeInfo) -> bool {
    node.mode & MODE_TYPE == MODE_DIR
}

#[test]
fn write_file_node_in_existent_dir() {
    let mut filesystem = create_mock_filesystem();
    let filename = "foo.txt";
    let dirname = "root";
    let parent_dirpath = format!("/{dirname}");
    let filepath = format!("{parent_dirpath}/{filename}");
    let data = "Hello, world!";
    FileConfig::new_directory(parent_dirpath).create(&mut filesystem).unwrap();
    FileConfig::new_file(filepath, data.to_string()).create(&mut filesystem).unwrap();
    let dir_node = find(&mut filesystem, ROOT_ID, dirname);
    let file_node = find(&mut filesystem, dir_node.id, filename);
    assert!(is_file(&file_node));
    let buf = filesystem.read_node(file_node.id, 0, 13).unwrap();
    assert_eq!(&buf[..], data.as_bytes());
}

#[test]
fn write_file_node_parents_if_non_existent() {
    let mut filesystem = create_mock_filesystem();
    let filename = "foo.txt";
    let dirname = "dir";
    let subdirname = "subdir";
    let filepath = format!("/{dirname}/{subdirname}/{filename}");
    let data = "Hello, world!";
    FileConfig::new_file(filepath, data.to_string()).create(&mut filesystem).unwrap();
    let dir_node = find(&mut filesystem, ROOT_ID, dirname);
    assert!(is_dir(&dir_node));
    let subdir_node = find(&mut filesystem, dir_node.id, subdirname);
    assert!(is_dir(&subdir_node));
    let file_node = find(&mut filesystem, subdir_node.id, filename);
    let buf = filesystem.read_node(file_node.id, 0, 13).unwrap();
    assert_eq!(&buf[..], data.as_bytes());
}

#[test]
fn write_symlink_file_node() {
    let mut filesystem = create_mock_filesystem();
    let filename = "bin";
    let filepath = format!("/{filename}");
    let data = "user/bin";
    let mut file_config = FileConfig::new_file(filepath, data.to_string());
    file_config.symlink = true;
    file_config.create(&mut filesystem).unwrap();
    let node = find(&mut filesystem, ROOT_ID, filename);
    assert_eq!(node.mode, MODE_SYMLINK | 0o0777);
}

#[test]
fn default_file_node_perms() {
    let mut filesystem = create_mock_filesystem();
    let filename = "foo.txt";
    let filepath = format!("/{filename}");
    FileConfig::new_file(filepath, String::new()).create(&mut filesystem).unwrap();
    let node = find(&mut filesystem, ROOT_ID, filename);
    assert_eq!(node.mode & MODE_PERM, 0o0644 & MODE_PERM);
}

#[test]
fn default_file_node_owners() {
    let mut filesystem = create_mock_filesystem();
    let filename = "foo.txt";
    let filepath = format!("/{filename}");
    FileConfig::new_file(filepath, String::new()).create(&mut filesystem).unwrap();
    let node = find(&mut filesystem, ROOT_ID, filename);
    assert_eq!(node.uid, !0);
    assert_eq!(node.gid, !0);
}

fn assert_all_dirs(filesystem: &mut TreeSession, path: &str) {
    let mut parent_id = ROOT_ID;
    for part in path.split('/').filter(|p| !p.is_empty()) {
        let node = find(filesystem, parent_id, part);
        assert!(is_dir(&node));
        parent_id = node.id;
    }
}

#[test]
fn create_all_parents_of_dir_node() {
    let mut filesystem = create_mock_filesystem();
    let dirpath = "/dir/subdir/subsubdir";
    FileConfig::new_directory(dirpath.to_string()).create(&mut filesystem).unwrap();
    assert_all_dirs(&mut filesystem, dirpath);
}

#[test]
fn create_subdir_within_existing_dir_doesnt_fail() {
    let mut filesystem = create_mock_filesystem();
    let dirpath = "/dir";
    let subdirpath = "/dir/subdir";
    FileConfig::new_directory(dirpath.to_string()).create(&mut filesystem).unwrap();
    FileConfig::new_directory(subdirpath.to_string()).create(&mut filesystem).unwrap();
    assert_all_dirs(&mut filesystem, subdirpath);
}

#[test]
fn default_dir_node_perms() {
    let mut filesystem = create_mock_filesystem();
    let dirname = "root";
    let dirpath = format!("/{dirname}");
    FileConfig::new_directory(dirpath).create(&mut filesystem).unwrap();
    let node = find(&mut filesystem, ROOT_ID, dirname);
    assert_eq!(node.mode & MODE_PERM, 0o0755 & MODE_PERM);
}

#[test]
fn default_dir_node_owners() {
    let mut filesystem = create_mock_filesystem();
    let dirname = "root";
    let dirpath = format!("/{dirname}");
    FileConfig::new_directory(dirpath).create(&mut filesystem).unwrap();
    let node = find(&mut filesystem, ROOT_ID, dirname);
    assert_eq!(node.uid, !0);
    assert_eq!(node.gid, !0);
}

#[test]
fn specify_file_node_mode_and_owners() {
    let mut filesystem = create_mock_filesystem();
    let filename = "foo.txt";
    let filepath = format!("/{filename}");
    let mode = 0o0123;
    let uid = 1234;
    let gid = 5678;
    let mut file_config = FileConfig::new_file(filepath, String::new());
    file_config.with_mod(mode, uid, gid);
    file_config.create(&mut filesystem).unwrap();
    let node = find(&mut filesystem, ROOT_ID, filename);
    assert_eq!(node.mode & MODE_PERM, mode as u16 & MODE_PERM);
    assert_eq!(node.uid, uid);
    assert_eq!(node.gid, gid);
}

#[test]
fn specify_dir_node_mode_and_owners() {
    let mut filesystem = create_mock_filesystem();
    let dirname = "root";
    let subdirname = "subdir";
    let subdirpath = format!("/{dirname}/{subdirname}");
    let mode = 0o0123;
    let uid = 1234;
    let gid = 5678;
    let mut file_config = FileConfig::new_directory(subdirpath);
    file_config.with_mod(mode, uid, gid);
    file_config.create(&mut filesystem).unwrap();
    let dir_node = find(&mut filesystem, ROOT_ID, dirname);
    assert_eq!(dir_node.mode & MODE_PERM, 0o0755 & MODE_PERM);
    let subdir_node = find(&mut filesystem, dir_node.id, subdirname);
    assert_eq!(subdir_node.mode & MODE_PERM, mode as u16 & MODE_PERM);
    assert_eq!(subdir_node.uid, uid);
    assert_eq!(subdir_node.gid, gid);
}

#[test]
fn recursive_chown() {
    let mut filesystem = create_mock_filesystem();
    let recursive_chown_dirname = "foo";
    let recursive_chown_subdirname = "bar";
    let recursive_chown_dir_filename = "a.txt";
    let recursive_chown_subdir_filename = "b.txt";
    let recursive_chown_dirpath = format!("/{recursive_chown_dirname}");
    let recursive_chown_subdirpath =
        format!("/{recursive_chown_dirname}/{recursive_chown_subdirname}");
    let recursive_chown_dir_filepath =
        format!("/{recursive_chown_dirpath}/{recursive_chown_dir_filename}");
    let recursive_chown_subdir_filepath =
        format!("/{recursive_chown_subdirpath}/{recursive_chown_subdir_filename}");
    let adjacent_dirname = "root";
    let adjacent_dir_filename = "c.txt";
    let adjacent_subdirname = "stuff";
    let adjacent_dirpath = format!("/{adjacent_dirname}");
    let adjacent_dir_filepath = format!("/{adjacent_dirpath}/{adjacent_dir_filename}");
    let adjacent_subdirpath = format!("/{adjacent_dirpath}/{adjacent_subdirname}");

    FileConfig::new_directory(recursive_chown_subdirpath).create(&mut filesystem).unwrap();
    FileConfig::new_file(recursive_chown_dir_filepath, String::new()).create(&mut filesystem).unwrap();
    FileConfig::new_file(recursive_chown_subdir_filepath, String::new()).create(&mut filesystem).unwrap();
    FileConfig::new_directory(adjacent_subdirpath).create(&mut filesystem).unwrap();
    FileConfig::new_file(adjacent_dir_filepath, String::new()).create(&mut filesystem).unwrap();

    let recursive_mode = 0o0123;
    let recursive_uid = 1234;
    let recursive_gid = 5678;
    let mut file_config = FileConfig::new_directory(recursive_chown_dirpath);
    file_config.with_recursive_mod(recursive_mode, recursive_uid, recursive_gid);
    file_config.create(&mut filesystem).unwrap();

    let recursive_chown_dir_node = find(&mut filesystem, ROOT_ID, recursive_chown_dirname);
    assert_eq!(recursive_chown_dir_node.mode & MODE_PERM, recursive_mode as u16 & MODE_PERM);
    assert!(is_dir(&recursive_chown_dir_node));
    assert_eq!(recursive_chown_dir_node.uid, recursive_uid);
    assert_eq!(recursive_chown_dir_node.gid, recursive_gid);

    let recursive_chown_dir_file_node =
        find(&mut filesystem, recursive_chown_dir_node.id, recursive_chown_dir_filename);
    assert_eq!(recursive_chown_dir_file_node.mode & MODE_PERM, recursive_mode as u16 & MODE_PERM);
    assert_eq!(recursive_chown_dir_file_node.uid, recursive_uid);
    assert_eq!(recursive_chown_dir_file_node.gid, recursive_gid);

    let recursive_chown_subdir_node =
        find(&mut filesystem, recursive_chown_dir_node.id, recursive_chown_subdirname);
    assert_eq!(recursive_chown_subdir_node.mode & MODE_PERM, recursive_mode as u16 & MODE_PERM);
    assert_eq!(recursive_chown_subdir_node.uid, recursive_uid);
    assert_eq!(recursive_chown_subdir_node.gid, recursive_gid);

    let recursive_chown_subdir_file_node =
        find(&mut filesystem, recursive_chown_subdir_node.id, recursive_chown_subdir_filename);
    assert_eq!(recursive_chown_subdir_file_node.mode & MODE_PERM, recursive_mode as u16 & MODE_PERM);
    assert_eq!(recursive_chown_subdir_file_node.uid, recursive_uid);
    assert_eq!(recursive_chown_subdir_file_node.gid, recursive_gid);

    let adjacent_dir_node = find(&mut filesystem, ROOT_ID, adjacent_dirname);
    assert_eq!(adjacent_dir_node.mode & MODE_PERM, 0o0755 & MODE_PERM);
    assert_eq!(adjacent_dir_node.uid, 0);
    assert_eq!(adjacent_dir_node.gid, 0);

    let adjacent_dir_file_node = find(&mut filesystem, adjacent_dir_node.id, adjacent_dir_filename);
    assert_eq!(adjacent_dir_file_node.mode & MODE_PERM, 0o0644 & MODE_PERM);
    assert_eq!(adjacent_dir_file_node.uid, !0);
    assert_eq!(adjacent_dir_file_node.gid, !0);

    let adjacent_subdir_node = find(&mut filesystem, adjacent_dir_node.id, adjacent_subdirname);
    assert_eq!(adjacent_subdir_node.mode & MODE_PERM, 0o0755 & MODE_PERM);
    assert_eq!(adjacent_subdir_node.uid, !0);
    assert_eq!(adjacent_subdir_node.gid, !0);
}
