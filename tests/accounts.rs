use redox_installer::config::{GroupConfig, UserConfig};
use redox_installer::users::{group_contents, group_ids, passwd_contents, shadow_contents, user_ids, AccountError};

fn user(uid: Option<u32>, gid: Option<u32>) -> UserConfig {
    UserConfig { password: None, uid, gid, name: None, home: None, shell: None }
}

#[test]
fn ids_counter_moves_past_explicit() {
    let users = vec![
        ("root".to_string(), user(Some(0), Some(0))),
        ("alice".to_string(), user(None, None)),
        ("bob".to_string(), user(Some(1500), Some(20))),
        ("carol".to_string(), user(None, None)),
    ];
    assert_eq!(user_ids(&users), Ok(vec![(0, 0), (1000, 1000), (1500, 20), (1501, 1501)]));
}

#[test]
fn ids_exhausted() {
    let users = vec![("a".to_string(), user(Some(u32::MAX), None)), ("b".to_string(), user(None, None))];
    assert_eq!(user_ids(&users), Err(AccountError::IdsExhausted));
}

#[test]
fn passwd_lines() {
    let mut u = user(None, None);
    u.shell = Some("/usr/bin/ion".to_string());
    let users = vec![("root".to_string(), user(Some(0), Some(0))), ("user".to_string(), u)];
    let ids = user_ids(&users).unwrap();
    let text = passwd_contents(&users, &ids);
    assert_eq!(
        String::from_utf8(text).unwrap(),
        "root;0;0;root;/home/root;/bin/ion\nuser;1000;1000;user;/home/user;/usr/bin/ion\n"
    );
}

#[test]
fn shadow_lines() {
    let users = vec![("root".to_string(), user(Some(0), None)), ("u".to_string(), user(None, None))];
    let hashes = vec!["$argon2$x".to_string(), String::new()];
    assert_eq!(String::from_utf8(shadow_contents(&users, &hashes)).unwrap(), "root;$argon2$x\nu;\n");
}

#[test]
fn group_lines() {
    let groups = vec![
        ("sudo".to_string(), GroupConfig { gid: Some(1), members: vec!["user".to_string(), "bob".to_string()] }),
        ("users".to_string(), GroupConfig { gid: None, members: vec![] }),
    ];
    let gids = group_ids(&groups).unwrap();
    assert_eq!(gids, vec![1, 1000]);
    assert_eq!(String::from_utf8(group_contents(&groups, &gids)).unwrap(), "sudo;x;1;user,bob\nusers;x;1000;\n");
}
