use redox_installer::config::{Config, FileConfig, GeneralConfig, PackageConfig, UserConfig, insert_entry, key_lt, merge_entries};

#[test]
fn general_merge_prefers_other() {
    let mut a = GeneralConfig::empty();
    a.prompt = Some(true);
    a.cookbook = Some("cb".to_string());
    a.efi_partition_size = Some(4);
    let mut b = GeneralConfig::empty();
    b.prompt = Some(false);
    b.repo_binary = Some(true);
    a.merge(b);
    assert_eq!(a.prompt, Some(false));
    assert_eq!(a.repo_binary, Some(true));
    assert_eq!(a.cookbook, Some("cb".to_string()));
    assert_eq!(a.efi_partition_size, Some(4));
}

#[test]
fn entries_replace_same_key() {
    let mut v: Vec<(String, u32)> = vec![("a".to_string(), 1), ("b".to_string(), 2)];
    insert_entry(&mut v, "b".to_string(), 3);
    insert_entry(&mut v, "c".to_string(), 4);
    assert_eq!(v, vec![("a".to_string(), 1), ("b".to_string(), 3), ("c".to_string(), 4)]);
    merge_entries(&mut v, vec![("a".to_string(), 9), ("d".to_string(), 5)]);
    assert_eq!(v, vec![("a".to_string(), 9), ("b".to_string(), 3), ("c".to_string(), 4), ("d".to_string(), 5)]);
}

#[test]
fn config_merge_combines_tables() {
    let mut a = Config::empty();
    a.packages.push(("ion".to_string(), PackageConfig::Empty));
    a.files.push(FileConfig::new_file("/a".to_string(), "1".to_string()));
    let mut b = Config::empty();
    b.packages.push(("ion".to_string(), PackageConfig::Build("binary".to_string())));
    b.packages.push(("kernel".to_string(), PackageConfig::Empty));
    b.files.push(FileConfig::new_directory("/b".to_string()));
    a.merge(b);
    assert_eq!(a.packages.len(), 2);
    assert!(matches!(&a.packages[0].1, PackageConfig::Build(r) if r == "binary"));
    assert_eq!(a.packages[1].0, "kernel");
    assert_eq!(a.files.len(), 2);
    assert_eq!(a.files[0].path, "/a");
    assert_eq!(a.files[1].path, "/b");
    assert!(a.files[1].directory);
}

#[test]
fn file_config_builders() {
    let mut f = FileConfig::new_file("/x".to_string(), "d".to_string());
    assert_eq!(f.effective_mode(), 0o644);
    f.with_mod(0o600, 1, 2);
    assert_eq!((f.mode, f.uid, f.gid, f.recursive_chown), (Some(0o600), Some(1), Some(2), false));
    let mut d = FileConfig::new_directory("/d".to_string());
    assert_eq!(d.effective_mode(), 0o755);
    d.with_recursive_mod(0o700, 3, 4);
    assert_eq!((d.mode, d.uid, d.gid, d.recursive_chown), (Some(0o700), Some(3), Some(4), true));
    let mut s = FileConfig::new_file("/s".to_string(), "t".to_string());
    s.symlink = true;
    assert_eq!(s.effective_mode(), 0o777);
    let dflt = FileConfig::default();
    assert!(dflt.path.is_empty() && !dflt.directory && dflt.mode.is_none());
}

#[test]
fn merged_tables_stay_in_key_order() {
    let user = || UserConfig { password: None, uid: None, gid: None, name: None, home: None, shell: None };
    let mut a = Config::empty();
    a.users.push(("bob".to_string(), user()));
    a.users.push(("zed".to_string(), user()));
    let mut b = Config::empty();
    b.users.push(("alice".to_string(), user()));
    b.users.push(("carol".to_string(), user()));
    a.merge(b);
    let names: Vec<&str> = a.users.iter().map(|(n, _)| n.as_str()).collect();
    assert_eq!(names, vec!["alice", "bob", "carol", "zed"]);
    assert!(key_lt(&"a".to_string(), &"ab".to_string()));
    assert!(!key_lt(&"b".to_string(), &"ab".to_string()));
    assert!(!key_lt(&"x".to_string(), &"x".to_string()));
}
