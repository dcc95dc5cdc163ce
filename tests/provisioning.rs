use redox_installer::config::{FileConfig, GroupConfig, UserConfig};
use redox_installer::install::{
    create_accounts, create_files, extract_entries, extract_entry, head_path, is_package_installed,
    EntryKind, InstallError, PackageEntry,
};
use redox_installer::tree::{TreeError, TreeSession, MODE_DIR, MODE_FILE, MODE_SYMLINK};
use redox_installer::users::AccountError;

fn session() -> TreeSession {
    TreeSession::create(vec![0u8; 64 * 1024 * 1024], None, 1_700_000_000, 0).unwrap()
}

fn read_path(fs: &mut TreeSession, path: &str) -> Vec<u8> {
    let node = fs.find_node_by_path(&path.as_bytes().to_vec()).unwrap().unwrap();
    fs.read_node(node.id, 0, 1 << 20).unwrap()
}

#[test]
fn motd_file_created_with_default_mode() {
    let mut fs = session();
    let files = vec![FileConfig::new_file("/etc/motd".to_string(), "hi".to_string())];
    create_files(&mut fs, &files, false).unwrap();
    let node = fs.find_node_by_path(&b"/etc/motd".to_vec()).unwrap().unwrap();
    assert_eq!(node.mode, MODE_FILE | 0o644);
    assert_eq!(read_path(&mut fs, "/etc/motd"), b"hi".to_vec());
}

#[test]
fn postinstall_files_wait_for_their_phase() {
    let mut fs = session();
    let mut late = FileConfig::new_file("/late".to_string(), "x".to_string());
    late.postinstall = true;
    let files = vec![late, FileConfig::new_file("/early".to_string(), "y".to_string())];
    create_files(&mut fs, &files, false).unwrap();
    assert!(fs.find_node_by_path(&b"/late".to_vec()).unwrap().is_none());
    assert!(fs.find_node_by_path(&b"/early".to_vec()).unwrap().is_some());
    create_files(&mut fs, &files, true).unwrap();
    assert!(fs.find_node_by_path(&b"/late".to_vec()).unwrap().is_some());
}

#[test]
fn package_entries_extracted() {
    let mut fs = session();
    let entries = vec![
        PackageEntry { path: b"usr/bin/ion".to_vec(), kind: EntryKind::File, perm: 0o755, data: b"ELF".to_vec() },
        PackageEntry { path: b"bin".to_vec(), kind: EntryKind::Symlink, perm: 0o777, data: b"usr/bin".to_vec() },
        PackageEntry { path: b"dev/x".to_vec(), kind: EntryKind::Other, perm: 0, data: Vec::new() },
    ];
    extract_entries(&mut fs, &entries).unwrap();
    let ion = fs.find_node_by_path(&b"/usr/bin/ion".to_vec()).unwrap().unwrap();
    assert_eq!((ion.mode, ion.uid, ion.gid), (MODE_FILE | 0o755, 0, 0));
    assert_eq!(read_path(&mut fs, "/usr/bin/ion"), b"ELF".to_vec());
    let bin = fs.find_node_by_path(&b"/bin".to_vec()).unwrap().unwrap();
    assert_eq!(bin.mode, MODE_SYMLINK | 0o777);
    assert!(fs.find_node_by_path(&b"/dev".to_vec()).unwrap().is_none());
    extract_entry(&mut fs, &entries[0]).unwrap();
}

#[test]
fn package_head_marks_installed() {
    let mut fs = session();
    assert_eq!(head_path(&"ion".to_string()), b"/pkg/ion.pkgar_head".to_vec());
    assert!(!is_package_installed(&mut fs, &"ion".to_string()).unwrap());
    let head = PackageEntry { path: b"pkg/ion.pkgar_head".to_vec(), kind: EntryKind::File, perm: 0o644, data: vec![1, 2] };
    extract_entry(&mut fs, &head).unwrap();
    assert!(is_package_installed(&mut fs, &"ion".to_string()).unwrap());
}

#[test]
fn accounts_written() {
    let mut fs = session();
    let users = vec![
        ("root".to_string(), UserConfig { password: None, uid: Some(0), gid: Some(0), name: None, home: Some("/root".to_string()), shell: None }),
        ("user".to_string(), UserConfig { password: None, uid: None, gid: None, name: Some("User".to_string()), home: None, shell: None }),
    ];
    let groups = vec![("sudo".to_string(), GroupConfig { gid: Some(1), members: vec!["user".to_string()] })];
    let hashes = vec!["h0".to_string(), String::new()];
    create_accounts(&mut fs, &users, &groups, &hashes).unwrap();
    assert_eq!(
        String::from_utf8(read_path(&mut fs, "/etc/passwd")).unwrap(),
        "root;0;0;root;/root;/bin/ion\nuser;1000;1000;User;/home/user;/bin/ion\n"
    );
    assert_eq!(String::from_utf8(read_path(&mut fs, "/etc/shadow")).unwrap(), "root;h0\nuser;\n");
    let shadow = fs.find_node_by_path(&b"/etc/shadow".to_vec()).unwrap().unwrap();
    assert_eq!((shadow.mode, shadow.uid, shadow.gid), (MODE_FILE | 0o600, 0, 0));
    assert_eq!(String::from_utf8(read_path(&mut fs, "/etc/group")).unwrap(), "sudo;x;1;user\n");
    let home = fs.find_node_by_path(&b"/home/user".to_vec()).unwrap().unwrap();
    assert_eq!((home.mode, home.uid, home.gid), (MODE_DIR | 0o700, 1000, 1000));
    let docs = fs.find_node_by_path(&b"/home/user/Documents".to_vec()).unwrap().unwrap();
    assert_eq!((docs.uid, docs.gid), (1000, 1000));
    assert!(fs.find_node_by_path(&b"/home/user/.config/user-dirs.dirs".to_vec()).unwrap().is_some());
    assert!(fs.find_node_by_path(&b"/root/Documents".to_vec()).unwrap().is_none());
}

#[test]
fn accounts_fail_when_ids_run_out() {
    let mut fs = session();
    let users = vec![
        ("a".to_string(), UserConfig { password: None, uid: Some(u32::MAX), gid: None, name: None, home: None, shell: None }),
        ("b".to_string(), UserConfig { password: None, uid: None, gid: None, name: None, home: None, shell: None }),
    ];
    let r = create_accounts(&mut fs, &users, &Vec::new(), &vec![String::new(), String::new()]);
    assert_eq!(r, Err(InstallError::Accounts(AccountError::IdsExhausted)));
}

#[test]
fn existing_record_file_is_rewritten() {
    let mut fs = session();
    let mut stale = FileConfig::new_file("/etc/passwd".to_string(), "old contents".to_string());
    stale.with_mod(0o666, 5, 5);
    create_files(&mut fs, &vec![stale], false).unwrap();
    let users = vec![("root".to_string(), UserConfig { password: None, uid: Some(0), gid: Some(0), name: None, home: Some("/root".to_string()), shell: None })];
    create_accounts(&mut fs, &users, &Vec::new(), &vec![String::new()]).unwrap();
    assert_eq!(String::from_utf8(read_path(&mut fs, "/etc/passwd")).unwrap(), "root;0;0;root;/root;/bin/ion\n");
    let node = fs.find_node_by_path(&b"/etc/passwd".to_vec()).unwrap().unwrap();
    assert_eq!((node.mode, node.uid, node.gid), (MODE_FILE | 0o644, 0, 0));

    let mut fs = session();
    create_files(&mut fs, &vec![FileConfig::new_directory("/etc/group".to_string())], false).unwrap();
    let r = create_accounts(&mut fs, &users, &Vec::new(), &vec![String::new()]);
    assert_eq!(r, Err(InstallError::Tree(TreeError::NotAFile)));
}
