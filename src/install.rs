//! Filling the target filesystem: declared files, package contents and
//! accounts.
use vstd::prelude::*;

use crate::config::{FileConfig, GroupConfig, UserConfig};
use crate::tree::{
    components, is_dir_mode, lemma_keeps_shape_trans, lemma_keeps_trans, lemma_keeps_tree_trans,
    lemma_lookup_kept, lemma_no_symlink_back, lemma_resolve_kept, lemma_walk_kept, made_as, path_parents,
    TreeError, TreeModel, TreeSession, MODE_FILE, MODE_PERM, MODE_TYPE, ROOT_ID,
};
use crate::users::{
    group_contents, group_ids, passwd_contents, push_str, shadow_contents, spec_group_ids_from,
    user_ids, AccountError, FIRST_AUTO_ID,
};
use vstd::utf8::encode_utf8;

verus! {

/// Why provisioning stopped.
#[derive(PartialEq, Eq, Structural, Clone, Copy, Debug)]
pub enum InstallError {
    Tree(TreeError),
    Accounts(AccountError),
}

/// What kind of node a package entry is.
#[derive(PartialEq, Eq, Structural, Clone, Copy, Debug)]
pub enum EntryKind {
    File,
    Symlink,
    /// Anything else; it is not extracted.
    Other,
}

/// One entry of a verified package archive.
pub struct PackageEntry {
    /// Path relative to the target root.
    pub path: Vec<u8>,
    pub kind: EntryKind,
    /// Permission bits.
    pub perm: u16,
    /// File content, or symlink target.
    pub data: Vec<u8>,
}

/// The node `f`'s path names in `m` carries `f`'s permission bits and
/// owners.
pub open spec fn declared_attrs_hold(m: TreeModel, f: FileConfig) -> bool {
    &&& m.resolve(f.spec_path_bytes()) is Some
    &&& m.attrs[m.resolve(f.spec_path_bytes())->Some_0].0 & MODE_PERM == f.spec_perm()
    &&& m.attrs[m.resolve(f.spec_path_bytes())->Some_0].1 == f.spec_owner_uid()
    &&& m.attrs[m.resolve(f.spec_path_bytes())->Some_0].2 == f.spec_owner_gid()
}

/// Creates every declared entry whose `postinstall` flag is `postinstall`,
/// in order. On success each of them names a node. When none asks for a
/// recursive change, each node carries the permission bits and owners of
/// the last of them that names it.
pub fn create_files(session: &mut TreeSession, files: &Vec<FileConfig>, postinstall: bool) -> (r: Result<(), TreeError>)
    requires
        old(session).model().wf(),
    ensures
        final(session).model().wf(),
        old(session).model().keeps_shape(final(session).model()),
        files@.len() == 0 ==> r is Ok && final(session).model() == old(session).model(),
        r is Ok ==> forall|i: int| 0 <= i < files@.len() && files@[i].postinstall == postinstall
            ==> final(session).model().resolve(#[trigger] files@[i].spec_path_bytes()) is Some,
        r is Ok ==> forall|i: int| 0 <= i < files@.len() && files@[i].postinstall == postinstall
            && final(session).model().no_symlink_on(ROOT_ID, path_parents(#[trigger] files@[i].spec_path_bytes()))
            ==> final(session).model().lookup(ROOT_ID, components(files@[i].spec_path_bytes())) is Some,
        r is Ok && (forall|j: int| 0 <= j < files@.len() && files@[j].postinstall == postinstall
            ==> !(#[trigger] files@[j]).recursive_chown) ==> forall|i: int| 0 <= i < files@.len()
            && files@[i].postinstall == postinstall && (forall|k: int| i < k < files@.len()
            && files@[k].postinstall == postinstall ==> final(session).model().resolve(
            (#[trigger] files@[k]).spec_path_bytes()) != final(session).model().resolve(files@[i].spec_path_bytes()))
            ==> declared_attrs_hold(final(session).model(), #[trigger] files@[i]),
{
    let ghost norec = forall|j: int| 0 <= j < files@.len() && files@[j].postinstall == postinstall
        ==> !(#[trigger] files@[j]).recursive_chown;
    let mut i: usize = 0;
    while i < files.len()
        invariant
            i <= files@.len(),
            session.model().wf(),
            old(session).model().keeps_shape(session.model()),
            files@.len() == 0 ==> session.model() == old(session).model(),
            norec == forall|j: int| 0 <= j < files@.len() && files@[j].postinstall == postinstall
                ==> !(#[trigger] files@[j]).recursive_chown,
            forall|j: int| 0 <= j < i && files@[j].postinstall == postinstall
                ==> session.model().resolve(#[trigger] files@[j].spec_path_bytes()) is Some,
            forall|j: int| 0 <= j < i && files@[j].postinstall == postinstall
                && session.model().no_symlink_on(ROOT_ID, path_parents(#[trigger] files@[j].spec_path_bytes()))
                ==> session.model().lookup(ROOT_ID, components(files@[j].spec_path_bytes())) is Some,
            norec ==> forall|j: int| 0 <= j < i && files@[j].postinstall == postinstall && (forall|k: int| j < k < i
                && files@[k].postinstall == postinstall ==> session.model().resolve(
                (#[trigger] files@[k]).spec_path_bytes()) != session.model().resolve(files@[j].spec_path_bytes()))
                ==> declared_attrs_hold(session.model(), #[trigger] files@[j]),
        decreases files@.len() - i,
    {
        if files[i].postinstall == postinstall {
            let ghost before = session.model();
            let made = files[i].create(session);
            proof {
                lemma_keeps_shape_trans(old(session).model(), before, session.model());
            }
            let id = match made {
                Ok(id) => id,
                Err(e) => return Err(e),
            };
            proof {
                let after = session.model();
                assert forall|j: int| 0 <= j < i + 1 && files@[j].postinstall == postinstall
                    implies after.resolve(#[trigger] files@[j].spec_path_bytes()) is Some by {
                    if j < i {
                        lemma_resolve_kept(before, after, files@[j].spec_path_bytes());
                    }
                }
                assert forall|j: int| 0 <= j < i + 1 && files@[j].postinstall == postinstall
                    && after.no_symlink_on(ROOT_ID, path_parents(#[trigger] files@[j].spec_path_bytes()))
                    implies after.lookup(ROOT_ID, components(files@[j].spec_path_bytes())) is Some by {
                    lemma_no_symlink_back(before, after, ROOT_ID, path_parents(files@[j].spec_path_bytes()));
                    if j < i {
                        lemma_lookup_kept(before, after, ROOT_ID, components(files@[j].spec_path_bytes()));
                    }
                }
                if norec {
                    assert(!files@[i as int].recursive_chown);
                    assert forall|j: int| 0 <= j < i + 1 && files@[j].postinstall == postinstall && (forall|k: int| j < k < i + 1
                        && files@[k].postinstall == postinstall ==> after.resolve(
                        (#[trigger] files@[k]).spec_path_bytes()) != after.resolve(files@[j].spec_path_bytes()))
                        implies declared_attrs_hold(after, #[trigger] files@[j]) by {
                        if j < i {
                            lemma_resolve_kept(before, after, files@[j].spec_path_bytes());
                            assert(after.resolve(files@[i as int].spec_path_bytes()) != after.resolve(files@[j].spec_path_bytes()));
                            assert forall|k: int| j < k < i && files@[k].postinstall == postinstall implies before.resolve(
                                (#[trigger] files@[k]).spec_path_bytes()) != before.resolve(files@[j].spec_path_bytes()) by {
                                lemma_resolve_kept(before, after, files@[k].spec_path_bytes());
                            }
                            let n = before.resolve(files@[j].spec_path_bytes())->Some_0;
                            assert(declared_attrs_hold(before, files@[j]));
                            assert(before.attrs.contains_key(n));
                            assert(n != id);
                        }
                    }
                }
            }
        }
        i = i + 1;
    }
    Ok(())
}

/// Extracts one package entry: a file or symlink at its path, owned by
/// root, made with the directories above it; an entry of another kind, or
/// one whose path is taken, is left alone.
pub fn extract_entry(session: &mut TreeSession, entry: &PackageEntry) -> (r: Result<(), TreeError>)
    requires
        old(session).model().wf(),
    ensures
        final(session).model().wf(),
        old(session).model().keeps(final(session).model()),
        entry.kind is Other ==> r is Ok && final(session).model() == old(session).model(),
        r is Ok && !(entry.kind is Other) && old(session).model().no_symlink_on(ROOT_ID, path_parents(entry.path@))
            ==> final(session).model().lookup(ROOT_ID, components(entry.path@)) is Some,
        r is Ok && !(entry.kind is Other) ==> final(session).model().resolve(entry.path@) is Some,
        r is Ok ==> forall|x: u32| #[trigger] final(session).model().attrs.contains_key(x)
            && !old(session).model().attrs.contains_key(x) && !is_dir_mode(final(session).model().attrs[x].0)
            ==> !(entry.kind is Other) && final(session).model().resolve(entry.path@) == Some(x) && made_as(
            final(session).model(),
            x,
            false,
            entry.kind is Symlink,
            entry.data@,
            entry.perm,
            0,
            0,
        ),
        r is Ok && !(entry.kind is Other) && old(session).model().resolve(entry.path@) is None ==> made_as(
            final(session).model(),
            final(session).model().resolve(entry.path@)->Some_0,
            false,
            entry.kind is Symlink,
            entry.data@,
            entry.perm,
            0,
            0,
        ),
        r is Ok && !(entry.kind is Other) && old(session).model().no_symlink_on(ROOT_ID, path_parents(entry.path@))
            && old(session).model().lookup(ROOT_ID, components(entry.path@)) is None ==> exists|id: u32|
            final(session).model().lookup(ROOT_ID, components(entry.path@)) == Some(id) && made_as(
                final(session).model(),
                id,
                false,
                entry.kind is Symlink,
                entry.data@,
                entry.perm,
                0,
                0,
            ),
{
    match entry.kind {
        EntryKind::Other => Ok(()),
        EntryKind::File | EntryKind::Symlink => {
            let is_symlink = entry.kind == EntryKind::Symlink;
            match session.create_at_path(&entry.path, false, is_symlink, &entry.data, entry.perm, 0, 0) {
                Ok(id) => {
                    proof {
                        assert(is_dir_mode(crate::tree::DEFAULT_DIR_MODE)) by (bit_vector);
                    }
                    Ok(())
                },
                Err(e) => Err(e),
            }
        },
    }
}

/// Entry `e` made node `x` of `m`: its path names `x`, which has the
/// entry's kind, permission bits, content and root as owner.
pub open spec fn entry_made(m: TreeModel, x: u32, e: PackageEntry) -> bool {
    &&& !(e.kind is Other)
    &&& m.resolve(e.path@) == Some(x)
    &&& made_as(m, x, false, e.kind is Symlink, e.data@, e.perm, 0, 0)
}

/// Extracts the entries of a package, in order, stopping at the first that
/// fails. On success each file or symlink entry names a node; a node that
/// was not there before and is not a directory was made by an entry that
/// names it, and so holds that entry's kind, permission bits, content and
/// root as owner.
pub fn extract_entries(session: &mut TreeSession, entries: &Vec<PackageEntry>) -> (r: Result<(), TreeError>)
    requires
        old(session).model().wf(),
    ensures
        final(session).model().wf(),
        old(session).model().keeps(final(session).model()),
        (forall|i: int| 0 <= i < entries@.len() ==> (#[trigger] entries@[i]).kind is Other) ==> r is Ok
            && final(session).model() == old(session).model(),
        r is Ok ==> forall|i: int| 0 <= i < entries@.len() && !(entries@[i].kind is Other)
            ==> final(session).model().resolve(#[trigger] entries@[i].path@) is Some,
        r is Ok ==> forall|x: u32| #[trigger] final(session).model().attrs.contains_key(x)
            && !old(session).model().attrs.contains_key(x) && !is_dir_mode(final(session).model().attrs[x].0)
            ==> exists|i: int| 0 <= i < entries@.len() && entry_made(final(session).model(), x, #[trigger] entries@[i]),
        r is Ok ==> forall|i: int| 0 <= i < entries@.len() && !(entries@[i].kind is Other)
            && final(session).model().no_symlink_on(ROOT_ID, path_parents(#[trigger] entries@[i].path@))
            ==> final(session).model().lookup(ROOT_ID, components(entries@[i].path@)) is Some,
{
    let mut i: usize = 0;
    while i < entries.len()
        invariant
            i <= entries@.len(),
            session.model().wf(),
            old(session).model().keeps(session.model()),
            (forall|j: int| 0 <= j < entries@.len() ==> (#[trigger] entries@[j]).kind is Other) ==> session.model()
                == old(session).model(),
            forall|j: int| 0 <= j < i && !(entries@[j].kind is Other)
                && session.model().no_symlink_on(ROOT_ID, path_parents(#[trigger] entries@[j].path@))
                ==> session.model().lookup(ROOT_ID, components(entries@[j].path@)) is Some,
            forall|j: int| 0 <= j < i && !(entries@[j].kind is Other)
                ==> session.model().resolve(#[trigger] entries@[j].path@) is Some,
            forall|x: u32| #[trigger] session.model().attrs.contains_key(x)
                && !old(session).model().attrs.contains_key(x) && !is_dir_mode(session.model().attrs[x].0)
                ==> exists|j: int| 0 <= j < i && entry_made(session.model(), x, #[trigger] entries@[j]),
        decreases entries@.len() - i,
    {
        let ghost before = session.model();
        let done = extract_entry(session, &entries[i]);
        proof {
            lemma_keeps_trans(old(session).model(), before, session.model());
        }
        if let Err(e) = done {
            return Err(e);
        }
        proof {
            let after = session.model();
            assert forall|j: int| 0 <= j < i + 1 && !(entries@[j].kind is Other)
                implies after.resolve(#[trigger] entries@[j].path@) is Some by {
                if j < i {
                    lemma_resolve_kept(before, after, entries@[j].path@);
                }
            }
            assert forall|x: u32| #[trigger] after.attrs.contains_key(x)
                && !old(session).model().attrs.contains_key(x) && !is_dir_mode(after.attrs[x].0)
                implies exists|j: int| 0 <= j < i + 1 && entry_made(after, x, #[trigger] entries@[j]) by {
                if before.attrs.contains_key(x) {
                    let j = choose|j: int| 0 <= j < i && entry_made(before, x, #[trigger] entries@[j]);
                    lemma_resolve_kept(before, after, entries@[j].path@);
                    assert(entry_made(after, x, entries@[j]));
                } else {
                    assert(entry_made(after, x, entries@[i as int]));
                }
            }
            assert forall|j: int| 0 <= j < i + 1 && !(entries@[j].kind is Other)
                && after.no_symlink_on(ROOT_ID, path_parents(#[trigger] entries@[j].path@))
                implies after.lookup(ROOT_ID, components(entries@[j].path@)) is Some by {
                lemma_no_symlink_back(before, after, ROOT_ID, path_parents(entries@[j].path@));
                if j < i {
                    lemma_lookup_kept(before, after, ROOT_ID, components(entries@[j].path@));
                }
            }
        }
        i = i + 1;
    }
    Ok(())
}

/// Where the retained head of an installed package lies:
/// `/pkg/<name>.pkgar_head`.
pub open spec fn spec_head_path(name: Seq<char>) -> Seq<u8> {
    encode_utf8("/pkg/"@) + encode_utf8(name) + encode_utf8(".pkgar_head"@)
}

/// The path of the retained head of package `name`.
pub fn head_path(name: &String) -> (r: Vec<u8>)
    ensures
        r@ == spec_head_path(name@),
{
    let mut out: Vec<u8> = Vec::new();
    push_str(&mut out, "/pkg/");
    push_str(&mut out, name.as_str());
    push_str(&mut out, ".pkgar_head");
    proof {
        assert(out@ =~= spec_head_path(name@));
    }
    out
}

/// Whether package `name` is already installed on the target: its retained
/// head is there.
pub fn is_package_installed(session: &mut TreeSession, name: &String) -> (r: Result<bool, TreeError>)
    requires
        old(session).model().wf(),
    ensures
        final(session).model() == old(session).model(),
        r is Ok ==> r->Ok_0 == old(session).model().lookup(ROOT_ID, components(spec_head_path(name@))) is Some,
{
    let path = head_path(name);
    let found = session.find_node_by_path(&path)?;
    Ok(found.is_some())
}

/// Number of standard user directories.
pub const XDG_DIR_COUNT: usize = 8;

/// The `k`th standard directory made in the home of every user with a uid
/// of 1000 or more.
pub fn xdg_dir(k: usize) -> &'static str
    requires
        k < XDG_DIR_COUNT,
{
    match k {
        0 => "Desktop",
        1 => "Documents",
        2 => "Downloads",
        3 => "Music",
        4 => "Pictures",
        5 => "Public",
        6 => "Templates",
        _ => "Videos",
    }
}

fn join_path(base: &Vec<u8>, name: &str) -> (r: Vec<u8>)
    ensures
        r@ == base@ + seq![47u8] + encode_utf8(name@),
{
    let mut out: Vec<u8> = Vec::new();
    let mut i: usize = 0;
    while i < base.len()
        invariant
            i <= base@.len(),
            out@ == base@.take(i as int),
        decreases base@.len() - i,
    {
        out.push(base[i]);
        i = i + 1;
        proof {
            assert(out@ =~= base@.take(i as int));
        }
    }
    proof {
        assert(base@.take(i as int) =~= base@);
    }
    out.push(47u8);
    push_str(&mut out, name);
    out
}

/// Home directory path of a user, as bytes.
fn home_of(username: &String, user: &UserConfig) -> (r: Vec<u8>)
    ensures
        r@ == crate::users::spec_home(username@, *user),
{
    let mut out: Vec<u8> = Vec::new();
    match &user.home {
        Some(h) => push_str(&mut out, h.as_str()),
        None => {
            push_str(&mut out, "/home/");
            push_str(&mut out, username.as_str());
        },
    }
    proof {
        assert(out@ =~= crate::users::spec_home(username@, *user));
    }
    out
}

/// The name `etc`.
pub open spec fn etc_name() -> Seq<u8> {
    seq![101u8, 116u8, 99u8]
}

/// The name `passwd`.
pub open spec fn passwd_name() -> Seq<u8> {
    seq![112u8, 97u8, 115u8, 115u8, 119u8, 100u8]
}

/// The name `shadow`.
pub open spec fn shadow_name() -> Seq<u8> {
    seq![115u8, 104u8, 97u8, 100u8, 111u8, 119u8]
}

/// The name `group`.
pub open spec fn group_name() -> Seq<u8> {
    seq![103u8, 114u8, 111u8, 117u8, 112u8]
}

/// Record file `name` in directory `dir` of `m` holds `content` with `mode`
/// and is owned by root.
pub open spec fn record_at(m: TreeModel, dir: u32, name: Seq<u8>, content: Seq<u8>, mode: u16) -> bool {
    &&& m.entries.contains_key((dir, name))
    &&& m.data.contains_key(m.entries[(dir, name)])
    &&& m.data[m.entries[(dir, name)]] == content
    &&& m.attrs[m.entries[(dir, name)]] == (MODE_FILE | (mode & MODE_PERM), 0u32, 0u32)
}

proof fn lemma_record_kept(m: TreeModel, n: TreeModel, dir: u32, name: Seq<u8>, content: Seq<u8>, mode: u16)
    requires
        m.wf(),
        m.keeps(n),
        record_at(m, dir, name, content, mode),
    ensures
        record_at(n, dir, name, content, mode),
{
    let id = m.entries[(dir, name)];
    assert(m.attrs.contains_key(id));
    assert(n.entries[(dir, name)] == id);
}

proof fn lemma_record_through_put(m: TreeModel, n: TreeModel, dir: u32, name: Seq<u8>, content: Seq<u8>, mode: u16, other: Seq<u8>)
    requires
        m.wf(),
        m.keeps_tree(n),
        record_at(m, dir, name, content, mode),
        forall|x: u32| #[trigger] m.attrs.contains_key(x) && !(m.entries.contains_key((dir, other))
            && m.entries[(dir, other)] == x) ==> n.attrs[x] == m.attrs[x] && (m.data.contains_key(x) ==> n.data[x] == m.data[x]),
        n.entries.contains_key((dir, other)),
        n.entries[(dir, other)] != n.entries[(dir, name)],
    ensures
        record_at(n, dir, name, content, mode),
{
    let x = m.entries[(dir, name)];
    assert(m.attrs.contains_key(x));
    assert(n.entries[(dir, name)] == x);
    if m.entries.contains_key((dir, other)) {
        assert(n.entries[(dir, other)] == m.entries[(dir, other)]);
    }
    assert(n.attrs[x] == m.attrs[x]);
    assert(n.data[x] == m.data[x]);
}

/// Writes the record file `name` into the directory `dir`, owned by root:
/// a new file, or the regular file already there rewritten.
fn put_record(session: &mut TreeSession, dir: u32, name: &Vec<u8>, content: &Vec<u8>, mode: u16) -> (r: Result<u32, TreeError>)
    requires
        old(session).model().wf(),
        old(session).model().attrs.contains_key(dir),
        is_dir_mode(old(session).model().attrs[dir].0),
    ensures
        final(session).model().wf(),
        old(session).model().keeps_tree(final(session).model()),
        forall|k: (u32, Seq<u8>)| #[trigger] final(session).model().entries.contains_key(k)
            ==> old(session).model().entries.contains_key(k) || k == (dir, name@),
        forall|x: u32| #[trigger] old(session).model().attrs.contains_key(x) && !(old(session).model().entries.contains_key(
            (dir, name@)) && old(session).model().entries[(dir, name@)] == x) ==> final(session).model().attrs[x]
            == old(session).model().attrs[x] && (old(session).model().data.contains_key(x) ==> final(session).model().data[x]
            == old(session).model().data[x]),
        final(session).model().attrs.contains_key(dir),
        r is Ok ==> record_at(final(session).model(), dir, name@, content@, mode),
{
    let ghost m0 = session.model();
    match session.find(dir, name) {
        Err(e) => Err(e),
        Ok(Some(info)) => {
            if info.mode & MODE_TYPE != MODE_FILE {
                return Err(TreeError::NotAFile);
            }
            proof {
                assert(!is_dir_mode(info.mode)) by {
                    let t = info.mode;
                    assert(t & 0xF000u16 == 0x8000u16 ==> t & 0xF000u16 != 0x4000u16) by (bit_vector);
                }
                assert((MODE_FILE | (mode & MODE_PERM)) & MODE_TYPE == MODE_FILE) by (bit_vector);
            }
            let rw = session.rewrite_file(info.id, content);
            proof {
                assert(m0.keeps_tree(session.model()));
            }
            if let Err(e) = rw {
                return Err(e);
            }
            let ghost m1 = session.model();
            let set = session.set_attrs(info.id, MODE_FILE | (mode & MODE_PERM), 0, 0);
            proof {
                assert(m1.keeps_tree(session.model()));
                lemma_keeps_tree_trans(m0, m1, session.model());
            }
            if let Err(e) = set {
                return Err(e);
            }
            Ok(info.id)
        },
        Ok(None) => {
            assert(!is_dir_mode(MODE_FILE | (mode & MODE_PERM))) by (bit_vector);
            let made = session.create_file(dir, name, content, mode, 0, 0);
            proof {
                if made is Ok {
                    let m = session.model();
                    let id = made->Ok_0;
                    assert(m.entries[(dir, name@)] == id);
                    assert(m.data[id] == content@);
                    assert(m.attrs[id] == (MODE_FILE | (mode & MODE_PERM), 0u32, 0u32));
                }
            }
            made
        },
    }
}

/// The three record files in directory `etc` of `m` are different nodes.
pub open spec fn records_distinct(m: TreeModel, etc: u32) -> bool {
    &&& m.entries[(etc, passwd_name())] != m.entries[(etc, shadow_name())]
    &&& m.entries[(etc, passwd_name())] != m.entries[(etc, group_name())]
    &&& m.entries[(etc, shadow_name())] != m.entries[(etc, group_name())]
}

/// Writes the account records: `/etc/passwd` (0644), `/etc/shadow` (0600)
/// and `/etc/group` (0600), all owned by root, then each user's home
/// directory, owned by the user, with the standard user directories and
/// their descriptor for every user with a uid of 1000 or more. `hashes`
/// holds the hashed password of each user, in order. A record file that is
/// already there is kept.
pub fn create_accounts(session: &mut TreeSession, users: &Vec<(String, UserConfig)>, groups: &Vec<(String, GroupConfig)>, hashes: &Vec<String>) -> (r: Result<(), InstallError>)
    requires
        old(session).model().wf(),
        hashes@.len() == users@.len(),
    ensures
        final(session).model().wf(),
        old(session).model().keeps_tree(final(session).model()),
        crate::users::spec_user_ids(users@) is None ==> r == Err::<(), InstallError>(
            InstallError::Accounts(AccountError::IdsExhausted),
        ),
        crate::users::spec_user_ids(users@) is Some && spec_group_ids_from(groups@, FIRST_AUTO_ID as int) is None
            ==> r == Err::<(), InstallError>(InstallError::Accounts(AccountError::IdsExhausted)),
        r == Err::<(), InstallError>(InstallError::Accounts(AccountError::IdsExhausted)) ==> crate::users::spec_user_ids(users@) is None
            || spec_group_ids_from(groups@, FIRST_AUTO_ID as int) is None,
        r is Ok ==> forall|i: int| 0 <= i < users@.len() ==> final(session).model().resolve(
            #[trigger] crate::users::spec_home(users@[i].0@, users@[i].1),
        ) is Some,
        r is Ok ==> final(session).model().walk(ROOT_ID, seq![etc_name()]) is Some,
        r is Ok && records_distinct(final(session).model(), final(session).model().walk(ROOT_ID, seq![etc_name()])->Some_0)
            ==> record_at(
            final(session).model(), final(session).model().walk(ROOT_ID, seq![etc_name()])->Some_0, passwd_name(),
            crate::users::spec_passwd(users@, crate::users::spec_user_ids(users@)->Some_0), 0o644u16),
        r is Ok && records_distinct(final(session).model(), final(session).model().walk(ROOT_ID, seq![etc_name()])->Some_0)
            ==> record_at(
            final(session).model(), final(session).model().walk(ROOT_ID, seq![etc_name()])->Some_0, shadow_name(),
            crate::users::spec_shadow(users@, hashes@), 0o600u16),
        r is Ok ==> record_at(
            final(session).model(), final(session).model().walk(ROOT_ID, seq![etc_name()])->Some_0, group_name(),
            crate::users::spec_group_file(groups@, spec_group_ids_from(groups@, FIRST_AUTO_ID as int)->Some_0), 0o600u16),
{
    let ghost m0 = session.model();
    let assigned = user_ids(users);
    let ids = match assigned {
        Ok(ids) => ids,
        Err(e) => return Err(InstallError::Accounts(e)),
    };
    let gids = match group_ids(groups) {
        Ok(g) => g,
        Err(e) => return Err(InstallError::Accounts(e)),
    };
    let passwd = passwd_contents(users, &ids);
    let shadow = shadow_contents(users, hashes);
    let group = group_contents(groups, &gids);
    let etc_path: Vec<Vec<u8>> = vec![vec![101u8, 116u8, 99u8]];
    proof {
        assert(etc_path@.map_values(|v: Vec<u8>| v@) =~= seq![etc_name()]);
    }
    let etc = match session.ensure_parent_dirs(&etc_path) {
        Ok(d) => d,
        Err(e) => return Err(InstallError::Tree(e)),
    };
    let ghost mp = session.model();
    let pw_name: Vec<u8> = vec![112u8, 97u8, 115u8, 115u8, 119u8, 100u8];
    let sh_name: Vec<u8> = vec![115u8, 104u8, 97u8, 100u8, 111u8, 119u8];
    let gr_name: Vec<u8> = vec![103u8, 114u8, 111u8, 117u8, 112u8];
    proof {
        assert(pw_name@ =~= passwd_name());
        assert(sh_name@ =~= shadow_name());
        assert(gr_name@ =~= group_name());
        assert(passwd_name()[0] != shadow_name()[0] && passwd_name()[0] != group_name()[0]
            && shadow_name()[0] != group_name()[0]);
    }
    let r1 = put_record(session, etc, &pw_name, &passwd, 0o644);
    let ghost m1 = session.model();
    proof {
        lemma_keeps_tree_trans(m0, mp, m1);
    }
    if let Err(e) = r1 {
        return Err(InstallError::Tree(e));
    }
    let r2 = put_record(session, etc, &sh_name, &shadow, 0o600);
    let ghost m2 = session.model();
    proof {
        lemma_keeps_tree_trans(m0, m1, m2);
    }
    if let Err(e) = r2 {
        return Err(InstallError::Tree(e));
    }
    let r3 = put_record(session, etc, &gr_name, &group, 0o600);
    let ghost m3 = session.model();
    proof {
        lemma_keeps_tree_trans(m0, m2, m3);
    }
    if let Err(e) = r3 {
        return Err(InstallError::Tree(e));
    }
    let mut i: usize = 0;
    while i < users.len()
        invariant
            i <= users@.len(),
            ids@.len() == users@.len(),
            session.model().wf(),
            crate::users::spec_user_ids(users@) is Some,
            spec_group_ids_from(groups@, FIRST_AUTO_ID as int) is Some,
            m0 == old(session).model(),
            m0.wf(),
            m0.keeps_tree(session.model()),
            m3.keeps(session.model()),
            forall|j: int| 0 <= j < i ==> session.model().resolve(
                #[trigger] crate::users::spec_home(users@[j].0@, users@[j].1),
            ) is Some,
        decreases users@.len() - i,
    {
        let (uid, gid) = ids[i];
        let home = home_of(&users[i].0, &users[i].1);
        let empty: Vec<u8> = Vec::new();
        let ghost before_home = session.model();
        let made_home = session.create_at_path(&home, true, false, &empty, 0o700, uid, gid);
        proof {
            lemma_keeps_tree_trans(m0, before_home, session.model());
            lemma_keeps_trans(m3, before_home, session.model());
        }
        if let Err(e) = made_home {
            return Err(InstallError::Tree(e));
        }
        let ghost after_home = session.model();
        proof {
            assert forall|j: int| 0 <= j < i + 1 implies after_home.resolve(
                #[trigger] crate::users::spec_home(users@[j].0@, users@[j].1),
            ) is Some by {
                if j < i {
                    lemma_resolve_kept(before_home, after_home, crate::users::spec_home(users@[j].0@, users@[j].1));
                }
            }
        }
        if uid >= 1000 {
            let mut k: usize = 0;
            while k < XDG_DIR_COUNT
                invariant
                    k <= XDG_DIR_COUNT,
                    session.model().wf(),
                    crate::users::spec_user_ids(users@) is Some,
                    spec_group_ids_from(groups@, FIRST_AUTO_ID as int) is Some,
                    m0 == old(session).model(),
                    m0.wf(),
                    m0.keeps_tree(session.model()),
                    m3.keeps(session.model()),
                    after_home.keeps(session.model()),
                    session.model().wf(),
                decreases XDG_DIR_COUNT - k,
            {
                let dir = join_path(&home, xdg_dir(k));
                let ghost before_dir = session.model();
                let made_dir = session.create_at_path(&dir, true, false, &empty, 0o755, uid, gid);
                proof {
                    lemma_keeps_tree_trans(m0, before_dir, session.model());
                    lemma_keeps_trans(m3, before_dir, session.model());
                    lemma_keeps_trans(after_home, before_dir, session.model());
                }
                if let Err(e) = made_dir {
                    return Err(InstallError::Tree(e));
                }
                k = k + 1;
            }
            let dirs_file = join_path(&home, ".config/user-dirs.dirs");
            let mut text: Vec<u8> = Vec::new();
            push_str(&mut text, "XDG_DESKTOP_DIR=\"$HOME/Desktop\"\nXDG_DOCUMENTS_DIR=\"$HOME/Documents\"\nXDG_DOWNLOAD_DIR=\"$HOME/Downloads\"\nXDG_MUSIC_DIR=\"$HOME/Music\"\nXDG_PICTURES_DIR=\"$HOME/Pictures\"\nXDG_PUBLICSHARE_DIR=\"$HOME/Public\"\nXDG_TEMPLATES_DIR=\"$HOME/Templates\"\nXDG_VIDEOS_DIR=\"$HOME/Videos\"\n");
            let ghost before_file = session.model();
            let made_file = session.create_at_path(&dirs_file, false, false, &text, 0o644, uid, gid);
            proof {
                lemma_keeps_tree_trans(m0, before_file, session.model());
                lemma_keeps_trans(m3, before_file, session.model());
                lemma_keeps_trans(after_home, before_file, session.model());
            }
            if let Err(e) = made_file {
                return Err(InstallError::Tree(e));
            }
        }
        proof {
            let now = session.model();
            assert forall|j: int| 0 <= j < i + 1 implies now.resolve(
                #[trigger] crate::users::spec_home(users@[j].0@, users@[j].1),
            ) is Some by {
                lemma_resolve_kept(after_home, now, crate::users::spec_home(users@[j].0@, users@[j].1));
            }
        }
        i = i + 1;
    }
    proof {
        let fm = session.model();
        assert(mp.walk(ROOT_ID, seq![etc_name()]) == Some(etc));
        lemma_walk_kept(mp, m3, ROOT_ID, seq![etc_name()]);
        lemma_walk_kept(m3, fm, ROOT_ID, seq![etc_name()]);
        let pn = m1.entries[(etc, passwd_name())];
        let sn = m2.entries[(etc, shadow_name())];
        assert(fm.entries[(etc, passwd_name())] == pn);
        assert(fm.entries[(etc, shadow_name())] == sn);
        assert(fm.entries[(etc, group_name())] == m3.entries[(etc, group_name())]);
        assert(ids@ == crate::users::spec_user_ids(users@)->Some_0);
        assert(gids@ == spec_group_ids_from(groups@, FIRST_AUTO_ID as int)->Some_0);
        if records_distinct(fm, etc) {
            lemma_record_through_put(m1, m2, etc, passwd_name(), passwd@, 0o644u16, shadow_name());
            lemma_record_through_put(m2, m3, etc, passwd_name(), passwd@, 0o644u16, group_name());
            lemma_record_kept(m3, fm, etc, passwd_name(), passwd@, 0o644u16);
            lemma_record_through_put(m2, m3, etc, shadow_name(), shadow@, 0o600u16, group_name());
            lemma_record_kept(m3, fm, etc, shadow_name(), shadow@, 0o600u16);
        }
        lemma_record_kept(m3, fm, etc, group_name(), group@, 0o600u16);
    }
    Ok(())
}

} // verus!
