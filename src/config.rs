//! Declarative installation configuration: files, packages, users, groups.
use vstd::prelude::*;

use crate::tree::{
    chowned, components, create_outcome, dotdot, in_subtree, lemma_subtree_same, made_as, path_parents,
    TreeError, TreeSession,
    MODE_DIR, MODE_FILE, MODE_PERM, MODE_SYMLINK, MODE_TYPE, ROOT_ID,
};
use vstd::utf8::encode_utf8;

verus! {

/// Permission bits given to a regular file that declares no mode.
pub const DEFAULT_FILE_MODE: u32 = 0o644;

/// Permission bits given to a directory that declares no mode.
pub const DEFAULT_DIR_MODE: u32 = 0o755;

/// Permission bits of a symlink.
pub const SYMLINK_MODE: u32 = 0o777;

/// One file, directory or symlink to create on the target.
pub struct FileConfig {
    pub path: String,
    /// File content, or the target of a symlink.
    pub data: String,
    pub symlink: bool,
    pub directory: bool,
    pub mode: Option<u32>,
    pub uid: Option<u32>,
    pub gid: Option<u32>,
    pub recursive_chown: bool,
    pub postinstall: bool,
}

/// The type bits of the mode `create_at_path` gives a new node are those of
/// the declared kind.
pub open spec fn node_mode_type_fact(directory: bool, symlink: bool, perm: u16, kind: u16) -> bool {
    (kind == if directory { MODE_DIR } else if symlink { MODE_SYMLINK } else { MODE_FILE })
        ==> crate::tree::node_mode(directory, symlink, perm) & MODE_TYPE == kind
}

/// The permission bits of a mode.
pub fn perm_bits(mode: u32) -> (r: u16)
    ensures
        r == (mode & 0xFFF) as u16,
        r <= 0xFFF,
{
    assert(mode & 0xFFF <= 0xFFF) by (bit_vector);
    (mode & 0xFFF) as u16
}

impl Clone for FileConfig {
    fn clone(&self) -> (r: Self)
        ensures
            r == *self,
    {
        FileConfig {
            path: self.path.clone(),
            data: self.data.clone(),
            symlink: self.symlink,
            directory: self.directory,
            mode: self.mode,
            uid: self.uid,
            gid: self.gid,
            recursive_chown: self.recursive_chown,
            postinstall: self.postinstall,
        }
    }
}

impl Default for FileConfig {
    fn default() -> (r: Self)
        ensures
            r@.path.len() == 0,
            r@.data.len() == 0,
            !r.symlink,
            !r.directory,
            r.mode is None,
            r.uid is None,
            r.gid is None,
            !r.recursive_chown,
            !r.postinstall,
    {
        FileConfig {
            path: String::new(),
            data: String::new(),
            symlink: false,
            directory: false,
            mode: None,
            uid: None,
            gid: None,
            recursive_chown: false,
            postinstall: false,
        }
    }
}

/// The text fields of a [`FileConfig`], as character sequences.
pub struct FileConfigView {
    pub path: Seq<char>,
    pub data: Seq<char>,
}

impl View for FileConfig {
    type V = FileConfigView;

    open spec fn view(&self) -> FileConfigView {
        FileConfigView { path: self.path@, data: self.data@ }
    }
}

impl FileConfig {
    /// Permission bits the entry gets on creation: the declared mode, else
    /// the default of its kind.
    pub open spec fn spec_effective_mode(&self) -> u32 {
        match self.mode {
            Some(m) => m,
            None => if self.directory {
                DEFAULT_DIR_MODE
            } else if self.symlink {
                SYMLINK_MODE
            } else {
                DEFAULT_FILE_MODE
            },
        }
    }

    /// The path as bytes.
    pub open spec fn spec_path_bytes(&self) -> Seq<u8> {
        encode_utf8(self.path@)
    }

    /// The content, or symlink target, as bytes.
    pub open spec fn spec_data_bytes(&self) -> Seq<u8> {
        encode_utf8(self.data@)
    }

    /// The type bits of the node the entry declares.
    pub open spec fn spec_kind_type(&self) -> u16 {
        if self.directory {
            MODE_DIR
        } else if self.symlink {
            MODE_SYMLINK
        } else {
            MODE_FILE
        }
    }

    /// The permission bits the node gets.
    pub open spec fn spec_perm(&self) -> u16 {
        (self.spec_effective_mode() & 0xFFF) as u16
    }

    /// The owner the node gets: the declared one, else all ones ("unset").
    pub open spec fn spec_owner_uid(&self) -> u32 {
        match self.uid {
            Some(u) => u,
            None => u32::MAX,
        }
    }

    /// The group the node gets: the declared one, else all ones ("unset").
    pub open spec fn spec_owner_gid(&self) -> u32 {
        match self.gid {
            Some(g) => g,
            None => u32::MAX,
        }
    }

    /// The permission bits a recursive change applies, if a mode is declared.
    pub open spec fn spec_recursive_mode(&self) -> Option<u16> {
        match self.mode {
            Some(m) => Some((m & 0xFFF) as u16),
            None => None,
        }
    }

    /// Creates the declared entry in the target filesystem, with the
    /// directories above it. An entry already at the path is kept, and gets
    /// the declared type bits, permission bits and owners; with
    /// `recursive_chown`, every node below it gets the declared permission
    /// bits and owners too.
    pub fn create(&self, session: &mut TreeSession) -> (r: Result<u32, TreeError>)
        requires
            old(session).model().wf(),
        ensures
            final(session).model().wf(),
            old(session).model().keeps_shape(final(session).model()),
            old(session).model().resolve(self.spec_path_bytes()) is None ==> forall|x: u32| #[trigger]
                old(session).model().attrs.contains_key(x) ==> final(session).model().attrs[x]
                == old(session).model().attrs[x],
            old(session).model().resolve(self.spec_path_bytes()) is Some ==> forall|x: u32| #[trigger]
                old(session).model().attrs.contains_key(x) && Some(x) != old(session).model().resolve(self.spec_path_bytes())
                && !in_subtree(old(session).model(), old(session).model().resolve(self.spec_path_bytes())->Some_0, x)
                ==> final(session).model().attrs[x] == old(session).model().attrs[x],
            r == Err::<u32, TreeError>(TreeError::NoFileName) <==> (components(self.spec_path_bytes()).len() == 0
                || components(self.spec_path_bytes()).last() == dotdot()),
            r is Ok && old(session).model().no_symlink_on(ROOT_ID, path_parents(self.spec_path_bytes()))
                ==> final(session).model().lookup(ROOT_ID, components(self.spec_path_bytes())) == Some(r->Ok_0),
            r is Ok ==> final(session).model().resolve(self.spec_path_bytes()) == Some(r->Ok_0),
            r is Ok && !self.recursive_chown ==> forall|x: u32| #[trigger] old(session).model().attrs.contains_key(x)
                && x != r->Ok_0 ==> final(session).model().attrs[x] == old(session).model().attrs[x],
            r is Ok ==> forall|x: u32| #[trigger] final(session).model().attrs.contains_key(x)
                && !old(session).model().attrs.contains_key(x) && x != r->Ok_0 ==> final(session).model().attrs[x] == (
                crate::tree::DEFAULT_DIR_MODE,
                0u32,
                0u32,
            ),
            r is Ok && old(session).model().resolve(self.spec_path_bytes()) is None ==> final(session).model().attrs[r->Ok_0]
                == if self.recursive_chown {
                chowned(
                    (self.spec_kind_type() | self.spec_perm(), self.spec_owner_uid(), self.spec_owner_gid()),
                    self.spec_recursive_mode(),
                    self.uid,
                    self.gid,
                )
            } else {
                (self.spec_kind_type() | self.spec_perm(), self.spec_owner_uid(), self.spec_owner_gid())
            },
            r is Ok && old(session).model().resolve(self.spec_path_bytes()) is None && !self.directory
                ==> final(session).model().data[r->Ok_0] == self.spec_data_bytes(),
            r is Ok && !self.recursive_chown ==> final(session).model().attrs[r->Ok_0].0 & MODE_PERM == self.spec_perm()
                && final(session).model().attrs[r->Ok_0].1 == self.spec_owner_uid()
                && final(session).model().attrs[r->Ok_0].2 == self.spec_owner_gid(),
            r is Ok && old(session).model().no_symlink_on(ROOT_ID, path_parents(self.spec_path_bytes()))
                && old(session).model().lookup(ROOT_ID, components(self.spec_path_bytes())) is None
                ==> final(session).model().attrs[r->Ok_0].0 & MODE_TYPE == self.spec_kind_type(),
            r is Ok && !self.directory && old(session).model().no_symlink_on(ROOT_ID, path_parents(self.spec_path_bytes()))
                && old(session).model().lookup(ROOT_ID, components(self.spec_path_bytes())) is None
                ==> final(session).model().data[r->Ok_0] == self.spec_data_bytes(),
            r is Ok && self.recursive_chown && old(session).model().resolve(self.spec_path_bytes()) == Some(r->Ok_0)
                && old(session).model().attrs[r->Ok_0].0 & MODE_TYPE == self.spec_kind_type()
                ==> final(session).model().attrs[r->Ok_0] == chowned(
                    (self.spec_kind_type() | self.spec_perm(), self.spec_owner_uid(), self.spec_owner_gid()),
                    self.spec_recursive_mode(),
                    self.uid,
                    self.gid,
                ) && forall|x: u32| #[trigger] old(session).model().attrs.contains_key(x) && x != r->Ok_0
                    ==> final(session).model().attrs[x] == if in_subtree(old(session).model(), r->Ok_0, x) {
                    chowned(old(session).model().attrs[x], self.spec_recursive_mode(), self.uid, self.gid)
                } else {
                    old(session).model().attrs[x]
                },
    {
        let ghost m0 = session.model();
        let path = vstd::slice::slice_to_vec(self.path.as_str().as_bytes());
        let data = vstd::slice::slice_to_vec(self.data.as_str().as_bytes());
        let perm = perm_bits(self.effective_mode());
        let kind = if self.directory {
            MODE_DIR
        } else if self.symlink {
            MODE_SYMLINK
        } else {
            MODE_FILE
        };
        let uid = match self.uid {
            Some(u) => u,
            None => u32::MAX,
        };
        let gid = match self.gid {
            Some(g) => g,
            None => u32::MAX,
        };
        let id = match session.create_at_path(&path, self.directory, self.symlink, &data, perm, uid, gid) {
            Ok(id) => id,
            Err(e) => return Err(e),
        };
        let ghost m1 = session.model();
        proof {
            assert(path@ == self.spec_path_bytes());
            if m0.resolve(path@) is Some {
                assert(m1 == m0);
            }
        }
        let info = match session.node_info(id) {
            Ok(info) => info,
            Err(e) => return Err(e),
        };
        let node_type = info.mode & MODE_TYPE;
        let new_mode = node_type | perm;
        proof {
            let t = info.mode;
            assert(((t & 0xF000u16) | perm) & 0xF000u16 == t & 0xF000u16) by (bit_vector)
                requires
                    perm <= 0xFFF,
            ;
            assert(((t & 0xF000u16) | perm) & 0x0FFFu16 == perm) by (bit_vector)
                requires
                    perm <= 0xFFF,
            ;
            assert(node_mode_type_fact(self.directory, self.symlink, perm, kind)) by {
                let d = self.directory;
                let sy = self.symlink;
                assert((MODE_DIR | (perm & MODE_PERM)) & MODE_TYPE == MODE_DIR) by (bit_vector);
                assert((MODE_SYMLINK | 0o777u16) & MODE_TYPE == MODE_SYMLINK) by (bit_vector);
                assert((MODE_FILE | (perm & MODE_PERM)) & MODE_TYPE == MODE_FILE) by (bit_vector);
            }
        }
        let set = session.set_attrs(id, new_mode, uid, gid);
        let ghost m2 = session.model();
        proof {
            assert(m1.keeps_shape(m2));
            crate::tree::lemma_keeps_shape_trans(m0, m1, m2);
        }
        proof {
            if m0.resolve(path@) is None {
                assert(!m0.attrs.contains_key(id));
            }
        }
        if let Err(e) = set {
            return Err(e);
        }
        proof {
            assert(path@ == self.spec_path_bytes());
            if m0.no_symlink_on(ROOT_ID, path_parents(path@)) && m0.lookup(ROOT_ID, components(path@)) is None {
                assert(m1.attrs[id].0 == crate::tree::node_mode(self.directory, self.symlink, perm));
                assert(m2.attrs[id].0 & MODE_TYPE == kind);
            }
            if m0.resolve(path@) is None {
                assert(m1.attrs[id].0 == crate::tree::node_mode(self.directory, self.symlink, perm));
                assert(new_mode == kind | perm);
                assert(m2.attrs[id] == (kind | perm, uid, gid));
            }
            crate::tree::lemma_resolve_kept(m1, m2, path@);
        }
        proof {
            assert((kind | perm) & MODE_TYPE == kind) by (bit_vector)
                requires
                    kind == MODE_DIR || kind == MODE_SYMLINK || kind == MODE_FILE,
                    perm <= 0xFFF,
            ;
            if m0.no_symlink_on(ROOT_ID, path_parents(path@)) {
                crate::tree::lemma_lookup_attrs_kept(m1, m2, components(path@));
            }
        }
        if self.recursive_chown {
            let rec_mode: Option<u16> = match self.mode {
                Some(m) => Some(perm_bits(m)),
                None => None,
            };
            let applied = session.apply_owners_recursive(id, rec_mode, self.uid, self.gid);
            proof {
                let m3 = session.model();
                crate::tree::lemma_keeps_shape_trans(m0, m2, m3);
                if m0.resolve(path@) is None {
                    assert forall|x: u32| #[trigger] m0.attrs.contains_key(x) implies m3.attrs[x] == m0.attrs[x] by {
                        assert(m2.attrs.contains_key(x));
                        if in_subtree(m2, id, x) {
                            crate::tree::lemma_subtree_of_leaf(m2, id, x);
                        }
                    }
                } else {
                    assert forall|x: u32| #[trigger] m0.attrs.contains_key(x) && Some(x) != m0.resolve(path@)
                        && !in_subtree(m0, m0.resolve(path@)->Some_0, x) implies m3.attrs[x] == m0.attrs[x] by {
                        assert(m2.attrs.dom() =~= m0.attrs.dom());
                        assert forall|y: u32| #[trigger] m0.attrs.contains_key(y) implies crate::tree::is_dir_mode(m0.attrs[y].0)
                            == crate::tree::is_dir_mode(m2.attrs[y].0) by {
                        }
                        lemma_subtree_same(m0, m2, id, x);
                        assert(m2.attrs.contains_key(x));
                    }
                }
            }
            if let Err(e) = applied {
                return Err(e);
            }
            proof {
                let m3 = session.model();
                crate::tree::lemma_subtree_root(m2, id);
                crate::tree::lemma_chowned_keeps_type(m2.attrs[id], rec_mode, self.uid, self.gid);
                assert(m2.attrs.contains_key(id));
                assert(m3.attrs[id].0 & MODE_TYPE == m2.attrs[id].0 & MODE_TYPE);
                crate::tree::lemma_lookup_attrs_kept(m2, m3, components(path@));
                crate::tree::lemma_resolve_kept(m2, m3, path@);
                if m0.resolve(path@) is None {
                    assert forall|x: u32| #[trigger] m2.attrs.contains_key(x) && in_subtree(m2, id, x) implies x == id by {
                        crate::tree::lemma_subtree_of_leaf(m2, id, x);
                    }
                    assert(m3.attrs[id] == chowned(m2.attrs[id], rec_mode, self.uid, self.gid));
                    assert(rec_mode == self.spec_recursive_mode());
                }
                if m0.resolve(path@) == Some(id) && m0.attrs[id].0 & MODE_TYPE == kind {
                    assert(m1 == m0);
                    assert(new_mode == kind | perm);
                    assert forall|x: u32| #[trigger] m0.attrs.contains_key(x) && x != id implies m3.attrs[x]
                        == if in_subtree(m0, id, x) {
                        chowned(m0.attrs[x], rec_mode, self.uid, self.gid)
                    } else {
                        m0.attrs[x]
                    } by {
                        assert forall|y: u32| #[trigger] m0.attrs.contains_key(y) implies crate::tree::is_dir_mode(m0.attrs[y].0)
                            == crate::tree::is_dir_mode(m2.attrs[y].0) by {
                        }
                        assert(m2.attrs.dom() =~= m0.attrs.dom());
                        lemma_subtree_same(m0, m2, id, x);
                    }
                    crate::tree::lemma_subtree_root(m2, id);
                    assert(m2.attrs.contains_key(id));
                    assert(m2.attrs[id] == (kind | perm, uid, gid));
                    assert(m3.attrs[id] == chowned(m2.attrs[id], rec_mode, self.uid, self.gid));
                    assert(rec_mode == self.spec_recursive_mode());
                    assert(path@ == self.spec_path_bytes());
                }
            }
        }
        Ok(id)
    }

    /// Creates the declared entry in one pass: the directories above it, then
    /// the node itself unless something already has its name; owners not
    /// declared are all ones ("unset"), as for `create`. With
    /// `recursive_chown`, the node and everything below it then get the
    /// declared permission bits and owners.
    pub fn create_in_tx(&self, session: &mut TreeSession) -> (r: Result<u32, TreeError>)
        requires
            old(session).model().wf(),
        ensures
            final(session).model().wf(),
            old(session).model().keeps_shape(final(session).model()),
            !self.recursive_chown ==> old(session).model().keeps(final(session).model()),
            r == Err::<u32, TreeError>(TreeError::NoFileName) <==> (components(self.spec_path_bytes()).len() == 0
                || components(self.spec_path_bytes()).last() == dotdot()),
            r is Ok && old(session).model().no_symlink_on(ROOT_ID, path_parents(self.spec_path_bytes()))
                ==> final(session).model().lookup(ROOT_ID, components(self.spec_path_bytes())) == Some(r->Ok_0),
            r is Ok && !self.recursive_chown ==> create_outcome(old(session).model(), final(session).model(), self.spec_path_bytes(), r->Ok_0),
            r is Ok && !self.recursive_chown && old(session).model().no_symlink_on(ROOT_ID, path_parents(self.spec_path_bytes()))
                && old(session).model().lookup(ROOT_ID, components(self.spec_path_bytes())) is None
                ==> made_as(final(session).model(), r->Ok_0, self.directory, self.symlink, self.spec_data_bytes(),
                    self.spec_perm(), self.spec_owner_uid(), self.spec_owner_gid())
                && final(session).model().attrs.dom().len() == old(session).model().attrs.dom().len()
                + old(session).model().missing_count(ROOT_ID, path_parents(self.spec_path_bytes())) + 1,
            r is Ok ==> final(session).model().resolve(self.spec_path_bytes()) == Some(r->Ok_0),
            r is Ok ==> forall|x: u32| #[trigger] final(session).model().attrs.contains_key(x)
                && !old(session).model().attrs.contains_key(x) && x != r->Ok_0 ==> final(session).model().attrs[x] == (
                crate::tree::DEFAULT_DIR_MODE,
                0u32,
                0u32,
            ),
            r is Ok && old(session).model().resolve(self.spec_path_bytes()) is None ==> final(session).model().attrs[r->Ok_0]
                == if self.recursive_chown {
                chowned(
                    (crate::tree::node_mode(self.directory, self.symlink, self.spec_perm()), self.spec_owner_uid(), self.spec_owner_gid()),
                    self.spec_recursive_mode(),
                    self.uid,
                    self.gid,
                )
            } else {
                (crate::tree::node_mode(self.directory, self.symlink, self.spec_perm()), self.spec_owner_uid(), self.spec_owner_gid())
            },
            r is Ok && old(session).model().resolve(self.spec_path_bytes()) is None && !self.directory
                ==> final(session).model().data[r->Ok_0] == self.spec_data_bytes(),
            r is Ok && self.recursive_chown && old(session).model().resolve(self.spec_path_bytes()) is Some
                ==> forall|x: u32| #[trigger] old(session).model().attrs.contains_key(x)
                    ==> final(session).model().attrs[x] == if in_subtree(old(session).model(), r->Ok_0, x) {
                    chowned(old(session).model().attrs[x], self.spec_recursive_mode(), self.uid, self.gid)
                } else {
                    old(session).model().attrs[x]
                },
    {
        let ghost m0 = session.model();
        let path = vstd::slice::slice_to_vec(self.path.as_str().as_bytes());
        let data = vstd::slice::slice_to_vec(self.data.as_str().as_bytes());
        let perm = perm_bits(self.effective_mode());
        let uid = match self.uid {
            Some(u) => u,
            None => u32::MAX,
        };
        let gid = match self.gid {
            Some(g) => g,
            None => u32::MAX,
        };
        let id = match session.create_at_path(&path, self.directory, self.symlink, &data, perm, uid, gid) {
            Ok(id) => id,
            Err(e) => return Err(e),
        };
        let ghost m1 = session.model();
        if self.recursive_chown {
            let rec_mode: Option<u16> = match self.mode {
                Some(m) => Some(perm_bits(m)),
                None => None,
            };
            let applied = session.apply_owners_recursive(id, rec_mode, self.uid, self.gid);
            proof {
                crate::tree::lemma_keeps_shape_trans(m0, m1, session.model());
                crate::tree::lemma_lookup_attrs_kept(m1, session.model(), components(path@));
            }
            if let Err(e) = applied {
                return Err(e);
            }
            proof {
                let m2 = session.model();
                assert(rec_mode == self.spec_recursive_mode());
                assert(path@ == self.spec_path_bytes());
                crate::tree::lemma_resolve_kept(m1, m2, path@);
                crate::tree::lemma_subtree_root(m1, id);
                assert(m1.attrs.contains_key(id));
                if m0.resolve(path@) is None {
                    assert forall|x: u32| #[trigger] m1.attrs.contains_key(x) && in_subtree(m1, id, x) implies x == id by {
                        crate::tree::lemma_subtree_of_leaf(m1, id, x);
                    }
                }
            }
        }
        Ok(id)
    }

    /// A regular file at `path` holding `data`, with default mode and owners.
    pub fn new_file(path: String, data: String) -> (r: FileConfig)
        ensures
            r.path == path,
            r.data == data,
            !r.symlink,
            !r.directory,
            r.mode is None,
            r.uid is None,
            r.gid is None,
            !r.recursive_chown,
            !r.postinstall,
    {
        FileConfig {
            path,
            data,
            symlink: false,
            directory: false,
            mode: None,
            uid: None,
            gid: None,
            recursive_chown: false,
            postinstall: false,
        }
    }

    /// A directory at `path`, with default mode and owners.
    pub fn new_directory(path: String) -> (r: FileConfig)
        ensures
            r.path == path,
            r@.data.len() == 0,
            !r.symlink,
            r.directory,
            r.mode is None,
            r.uid is None,
            r.gid is None,
            !r.recursive_chown,
            !r.postinstall,
    {
        FileConfig {
            path,
            data: String::new(),
            symlink: false,
            directory: true,
            mode: None,
            uid: None,
            gid: None,
            recursive_chown: false,
            postinstall: false,
        }
    }

    /// Sets the mode and owners the entry is created with.
    pub fn with_mod(&mut self, mode: u32, uid: u32, gid: u32)
        ensures
            final(self).mode == Some(mode),
            final(self).uid == Some(uid),
            final(self).gid == Some(gid),
            final(self).path == old(self).path,
            final(self).data == old(self).data,
            final(self).symlink == old(self).symlink,
            final(self).directory == old(self).directory,
            final(self).recursive_chown == old(self).recursive_chown,
            final(self).postinstall == old(self).postinstall,
    {
        self.mode = Some(mode);
        self.uid = Some(uid);
        self.gid = Some(gid);
    }

    /// Sets the mode and owners, and asks for them to be applied to every
    /// entry below this one as well.
    pub fn with_recursive_mod(&mut self, mode: u32, uid: u32, gid: u32)
        ensures
            final(self).mode == Some(mode),
            final(self).uid == Some(uid),
            final(self).gid == Some(gid),
            final(self).recursive_chown,
            final(self).path == old(self).path,
            final(self).data == old(self).data,
            final(self).symlink == old(self).symlink,
            final(self).directory == old(self).directory,
            final(self).postinstall == old(self).postinstall,
    {
        self.with_mod(mode, uid, gid);
        self.recursive_chown = true;
    }

    /// The permission bits the entry gets on creation.
    pub fn effective_mode(&self) -> (r: u32)
        ensures
            r == self.spec_effective_mode(),
    {
        match self.mode {
            Some(m) => m,
            None => if self.directory {
                DEFAULT_DIR_MODE
            } else if self.symlink {
                SYMLINK_MODE
            } else {
                DEFAULT_FILE_MODE
            },
        }
    }
}


/// Installer-wide settings.
pub struct GeneralConfig {
    /// Directory of a local package build tree.
    pub cookbook: Option<String>,
    /// Whether missing information may be asked for interactively.
    pub prompt: Option<bool>,
    /// Whether packages default to prebuilt remote archives.
    pub repo_binary: Option<bool>,
    /// Total filesystem size in MiB.
    pub filesystem_size: Option<u32>,
    /// EFI partition size in MiB.
    pub efi_partition_size: Option<u32>,
    /// Treat the whole disk as the data region.
    pub skip_partitions: Option<bool>,
    /// Passphrase for disk encryption, empty to prompt.
    pub encrypt_disk: Option<String>,
    pub live_disk: Option<bool>,
    /// Path to write the boot loader disk to.
    pub write_bootloader: Option<String>,
    pub no_mount: Option<bool>,
}

/// The value a merge keeps: the dominant side's when it has one.
pub open spec fn prefer<T>(base: Option<T>, dominant: Option<T>) -> Option<T> {
    match dominant {
        Some(v) => Some(v),
        None => base,
    }
}

fn prefer_copy<T: Copy>(base: Option<T>, dominant: Option<T>) -> (r: Option<T>)
    ensures
        r == prefer(base, dominant),
{
    match dominant {
        Some(v) => Some(v),
        None => base,
    }
}

impl GeneralConfig {
    /// What `merge` makes of `self` and `other`.
    pub open spec fn spec_merged(self, other: GeneralConfig) -> GeneralConfig {
        GeneralConfig {
            cookbook: prefer(self.cookbook, other.cookbook),
            prompt: prefer(self.prompt, other.prompt),
            repo_binary: prefer(self.repo_binary, other.repo_binary),
            filesystem_size: prefer(self.filesystem_size, other.filesystem_size),
            efi_partition_size: prefer(self.efi_partition_size, other.efi_partition_size),
            skip_partitions: prefer(self.skip_partitions, other.skip_partitions),
            encrypt_disk: prefer(self.encrypt_disk, other.encrypt_disk),
            live_disk: prefer(self.live_disk, other.live_disk),
            write_bootloader: prefer(self.write_bootloader, other.write_bootloader),
            no_mount: prefer(self.no_mount, other.no_mount),
        }
    }

    /// Settings with nothing set.
    pub fn empty() -> (r: GeneralConfig)
        ensures
            r.cookbook is None,
            r.prompt is None,
            r.repo_binary is None,
            r.filesystem_size is None,
            r.efi_partition_size is None,
            r.skip_partitions is None,
            r.encrypt_disk is None,
            r.live_disk is None,
            r.write_bootloader is None,
            r.no_mount is None,
    {
        GeneralConfig {
            cookbook: None,
            prompt: None,
            repo_binary: None,
            filesystem_size: None,
            efi_partition_size: None,
            skip_partitions: None,
            encrypt_disk: None,
            live_disk: None,
            write_bootloader: None,
            no_mount: None,
        }
    }

    /// Merges `other` into `self`; each setting of `other` that is present wins.
    pub fn merge(&mut self, other: GeneralConfig)
        ensures
            *final(self) == old(self).spec_merged(other),
    {
        if let Some(cookbook) = other.cookbook {
            self.cookbook = Some(cookbook);
        }
        self.prompt = prefer_copy(self.prompt, other.prompt);
        self.repo_binary = prefer_copy(self.repo_binary, other.repo_binary);
        self.filesystem_size = prefer_copy(self.filesystem_size, other.filesystem_size);
        self.efi_partition_size = prefer_copy(self.efi_partition_size, other.efi_partition_size);
        self.skip_partitions = prefer_copy(self.skip_partitions, other.skip_partitions);
        if let Some(encrypt_disk) = other.encrypt_disk {
            self.encrypt_disk = Some(encrypt_disk);
        }
        self.live_disk = prefer_copy(self.live_disk, other.live_disk);
        if let Some(write_bootloader) = other.write_bootloader {
            self.write_bootloader = Some(write_bootloader);
        }
        self.no_mount = prefer_copy(self.no_mount, other.no_mount);
    }
}

/// How one declared package is to be obtained.
pub enum PackageConfig {
    /// No constraint.
    Empty,
    /// An explicit build rule: "binary", "recipe", "source" or "ignore".
    Build(String),
    /// A version or source location.
    Spec {
        version: Option<String>,
        git: Option<String>,
        path: Option<String>,
        pkg_path: Option<String>,
    },
}

impl Default for PackageConfig {
    fn default() -> (r: Self)
        ensures
            r is Empty,
    {
        PackageConfig::Empty
    }
}

/// One declared user account.
pub struct UserConfig {
    pub password: Option<String>,
    pub uid: Option<u32>,
    pub gid: Option<u32>,
    pub name: Option<String>,
    pub home: Option<String>,
    pub shell: Option<String>,
}

/// One declared group.
pub struct GroupConfig {
    pub gid: Option<u32>,
    pub members: Vec<String>,
}

/// No two entries share a key.
pub open spec fn keys_unique<V>(s: Seq<(String, V)>) -> bool {
    forall|i: int, j: int| 0 <= i < j < s.len() ==> s[i].0@ != s[j].0@
}

/// The map from key to value that a list of keyed entries stands for; a
/// later entry shadows an earlier one with the same key.
pub open spec fn entry_map<V>(s: Seq<(String, V)>) -> Map<Seq<char>, V>
    decreases s.len(),
{
    if s.len() == 0 {
        Map::empty()
    } else {
        entry_map(s.drop_last()).insert(s.last().0@, s.last().1)
    }
}

proof fn lemma_entry_map_keys<V>(s: Seq<(String, V)>)
    requires
        keys_unique(s),
    ensures
        forall|i: int| 0 <= i < s.len() ==> #[trigger] entry_map(s).contains_key(s[i].0@)
            && entry_map(s)[s[i].0@] == s[i].1,
        forall|k: Seq<char>| #[trigger] entry_map(s).contains_key(k) ==> exists|i: int|
            0 <= i < s.len() && s[i].0@ == k,
    decreases s.len(),
{
    if s.len() > 0 {
        let t = s.drop_last();
        assert(keys_unique(t));
        lemma_entry_map_keys(t);
        assert(entry_map(s) == entry_map(t).insert(s.last().0@, s.last().1));
        assert forall|i: int| 0 <= i < s.len() implies #[trigger] entry_map(s).contains_key(s[i].0@)
            && entry_map(s)[s[i].0@] == s[i].1 by {
            if i < t.len() {
                assert(s[i] == t[i]);
                assert(s[i].0@ != s[s.len() - 1].0@);
            }
        }
        assert forall|k: Seq<char>| #[trigger] entry_map(s).contains_key(k) implies exists|i: int|
            0 <= i < s.len() && s[i].0@ == k by {
            assert(entry_map(s) == entry_map(t).insert(s.last().0@, s.last().1));
            if k != s.last().0@ {
                assert(entry_map(t).contains_key(k));
                let i = choose|i: int| 0 <= i < t.len() && t[i].0@ == k;
                assert(s[i] == t[i]);
            }
        }
    }
}

/// The bytes a key is ordered by: its UTF-8 encoding, which `String`'s own
/// order compares.
pub open spec fn key_bytes(s: String) -> Seq<u8> {
    encode_utf8(s@)
}

/// `a` comes before `b` in bytewise lexicographic order.
pub open spec fn bytes_lt(a: Seq<u8>, b: Seq<u8>) -> bool
    decreases a.len(),
{
    if a.len() == 0 {
        b.len() > 0
    } else if b.len() == 0 {
        false
    } else if a[0] < b[0] {
        true
    } else if a[0] > b[0] {
        false
    } else {
        bytes_lt(a.skip(1), b.skip(1))
    }
}

/// The entries are in strictly increasing key order.
pub open spec fn keys_sorted<V>(s: Seq<(String, V)>) -> bool {
    forall|i: int, j: int| 0 <= i < j < s.len() ==> bytes_lt(key_bytes(#[trigger] s[i].0), key_bytes(#[trigger] s[j].0))
}

proof fn lemma_bytes_lt_irreflexive(a: Seq<u8>)
    ensures
        !bytes_lt(a, a),
    decreases a.len(),
{
    if a.len() > 0 {
        lemma_bytes_lt_irreflexive(a.skip(1));
    }
}

proof fn lemma_bytes_lt_transitive(a: Seq<u8>, b: Seq<u8>, c: Seq<u8>)
    requires
        bytes_lt(a, b),
        bytes_lt(b, c),
    ensures
        bytes_lt(a, c),
    decreases a.len(),
{
    if a.len() > 0 && b.len() > 0 && c.len() > 0 && a[0] == b[0] && b[0] == c[0] {
        lemma_bytes_lt_transitive(a.skip(1), b.skip(1), c.skip(1));
    }
}

proof fn lemma_bytes_lt_total(a: Seq<u8>, b: Seq<u8>)
    requires
        a != b,
    ensures
        bytes_lt(a, b) || bytes_lt(b, a),
    decreases a.len(),
{
    if a.len() == 0 && b.len() == 0 {
        assert(a =~= b);
    } else if a.len() > 0 && b.len() > 0 && a[0] == b[0] {
        if a.skip(1) == b.skip(1) {
            assert(a.skip(1).len() == b.skip(1).len());
            assert(a.len() == b.len());
            assert forall|k: int| 0 <= k < a.len() implies a[k] == b[k] by {
                if k > 0 {
                    assert(a[k] == a.skip(1)[k - 1]);
                    assert(b[k] == b.skip(1)[k - 1]);
                }
            }
            assert(a =~= b);
        }
        lemma_bytes_lt_total(a.skip(1), b.skip(1));
    }
}

/// Keys with the same bytes are the same key.
proof fn lemma_key_bytes_injective(a: String, b: String)
    requires
        key_bytes(a) == key_bytes(b),
    ensures
        a@ == b@,
{
    vstd::utf8::encode_utf8_decode_utf8(a@);
    vstd::utf8::encode_utf8_decode_utf8(b@);
}

proof fn lemma_sorted_unique<V>(s: Seq<(String, V)>)
    requires
        keys_sorted(s),
    ensures
        keys_unique(s),
{
    assert forall|i: int, j: int| 0 <= i < j < s.len() implies s[i].0@ != s[j].0@ by {
        assert(bytes_lt(key_bytes(s[i].0), key_bytes(s[j].0)));
        if s[i].0@ == s[j].0@ {
            lemma_bytes_lt_irreflexive(key_bytes(s[i].0));
        }
    }
}

proof fn lemma_entry_at<V>(s: Seq<(String, V)>, j: int)
    requires
        keys_unique(s),
        0 <= j < s.len(),
    ensures
        entry_map(s).contains_key(s[j].0@),
        entry_map(s)[s[j].0@] == s[j].1,
{
    lemma_entry_map_keys(s);
    assert(entry_map(s).contains_key(s[j].0@));
}

proof fn lemma_map_after_set<V>(before: Seq<(String, V)>, after: Seq<(String, V)>, i: int, k0: Seq<char>, v: V)
    requires
        keys_unique(before),
        keys_unique(after),
        0 <= i < before.len(),
        after.len() == before.len(),
        forall|j: int| 0 <= j < before.len() && j != i ==> after[j] == before[j],
        after[i].0@ == k0,
        after[i].1 == v,
        before[i].0@ == k0,
    ensures
        entry_map(after) == entry_map(before).insert(k0, v),
{
    lemma_entry_map_keys(before);
    lemma_entry_map_keys(after);
    assert forall|k: Seq<char>| entry_map(after).contains_key(k) == entry_map(before).insert(k0, v).contains_key(k) by {
        if entry_map(after).contains_key(k) {
            let j = choose|j: int| 0 <= j < after.len() && after[j].0@ == k;
            if j != i {
                lemma_entry_at(before, j);
            }
        }
        if k != k0 && entry_map(before).contains_key(k) {
            let j = choose|j: int| 0 <= j < before.len() && before[j].0@ == k;
            lemma_entry_at(after, j);
        }
    }
    assert forall|k: Seq<char>| #[trigger] entry_map(after).contains_key(k) implies entry_map(after)[k]
        == entry_map(before).insert(k0, v)[k] by {
        let j = choose|j: int| 0 <= j < after.len() && after[j].0@ == k;
        lemma_entry_at(after, j);
        if j != i {
            lemma_entry_at(before, j);
        }
    }
    assert(entry_map(after) =~= entry_map(before).insert(k0, v));
}

proof fn lemma_map_after_insert<V>(before: Seq<(String, V)>, after: Seq<(String, V)>, i: int, k0: Seq<char>, v: V)
    requires
        keys_unique(before),
        keys_unique(after),
        0 <= i <= before.len(),
        after.len() == before.len() + 1,
        forall|j: int| 0 <= j < i ==> after[j] == before[j],
        forall|j: int| i <= j < before.len() ==> after[j + 1] == before[j],
        after[i].0@ == k0,
        after[i].1 == v,
        forall|j: int| 0 <= j < before.len() ==> before[j].0@ != k0,
    ensures
        entry_map(after) == entry_map(before).insert(k0, v),
{
    lemma_entry_map_keys(before);
    lemma_entry_map_keys(after);
    assert forall|k: Seq<char>| entry_map(after).contains_key(k) == entry_map(before).insert(k0, v).contains_key(k) by {
        if entry_map(after).contains_key(k) {
            let j = choose|j: int| 0 <= j < after.len() && after[j].0@ == k;
            if j < i {
                lemma_entry_at(before, j);
            } else if j > i {
                lemma_entry_at(before, j - 1);
            }
        }
        if k != k0 && entry_map(before).contains_key(k) {
            let j = choose|j: int| 0 <= j < before.len() && before[j].0@ == k;
            if j < i {
                lemma_entry_at(after, j);
            } else {
                lemma_entry_at(after, j + 1);
            }
        }
        if k == k0 {
            lemma_entry_at(after, i);
        }
    }
    assert forall|k: Seq<char>| #[trigger] entry_map(after).contains_key(k) implies entry_map(after)[k]
        == entry_map(before).insert(k0, v)[k] by {
        let j = choose|j: int| 0 <= j < after.len() && after[j].0@ == k;
        lemma_entry_at(after, j);
        if j < i {
            lemma_entry_at(before, j);
        } else if j > i {
            lemma_entry_at(before, j - 1);
        }
    }
    assert(entry_map(after) =~= entry_map(before).insert(k0, v));
}

/// Whether key `a` comes before key `b`.
pub fn key_lt(a: &String, b: &String) -> (r: bool)
    ensures
        r == bytes_lt(key_bytes(*a), key_bytes(*b)),
{
    let x = a.as_str().as_bytes();
    let y = b.as_str().as_bytes();
    let mut i: usize = 0;
    proof {
        assert(x@.skip(0) =~= x@);
        assert(y@.skip(0) =~= y@);
    }
    while i < x.len() && i < y.len()
        invariant
            i <= x@.len(),
            i <= y@.len(),
            x@ == key_bytes(*a),
            y@ == key_bytes(*b),
            bytes_lt(x@, y@) == bytes_lt(x@.skip(i as int), y@.skip(i as int)),
        decreases x@.len() - i,
    {
        proof {
            assert(x@.skip(i as int)[0] == x@[i as int]);
            assert(y@.skip(i as int)[0] == y@[i as int]);
            assert(x@.skip(i as int).skip(1) =~= x@.skip(i + 1));
            assert(y@.skip(i as int).skip(1) =~= y@.skip(i + 1));
        }
        if x[i] < y[i] {
            return true;
        }
        if x[i] > y[i] {
            return false;
        }
        i = i + 1;
    }
    i == x.len() && i < y.len()
}

/// Inserts `value` under `key` in key order, replacing the value of an
/// entry with that key.
pub fn insert_entry<V>(entries: &mut Vec<(String, V)>, key: String, value: V)
    requires
        keys_sorted(old(entries)@),
    ensures
        keys_sorted(final(entries)@),
        keys_unique(final(entries)@),
        entry_map(final(entries)@) == entry_map(old(entries)@).insert(key@, value),
{
    proof {
        lemma_sorted_unique(entries@);
        lemma_entry_map_keys(entries@);
    }
    let mut i: usize = 0;
    let mut go = true;
    while go && i < entries.len()
        invariant
            i <= entries@.len(),
            entries@ == old(entries)@,
            forall|j: int| 0 <= j < i ==> bytes_lt(key_bytes(#[trigger] entries@[j].0), key_bytes(key)),
            !go ==> i < entries@.len() && !bytes_lt(key_bytes(entries@[i as int].0), key_bytes(key)),
        decreases entries@.len() - i + if go { 1int } else { 0int },
    {
        if key_lt(&entries[i].0, &key) {
            i = i + 1;
        } else {
            go = false;
        }
    }
    let ghost before = entries@;
    if i < entries.len() && entries[i].0 == key {
        entries.set(i, (key, value));
        proof {
            let after = entries@;
            assert(key_bytes(before[i as int].0) == key_bytes(key));
            assert(keys_sorted(after)) by {
                assert forall|a: int, b: int| 0 <= a < b < after.len() implies bytes_lt(key_bytes(#[trigger] after[a].0),
                    key_bytes(#[trigger] after[b].0)) by {
                    assert(bytes_lt(key_bytes(before[a].0), key_bytes(before[b].0)));
                }
            }
            lemma_sorted_unique(after);
            lemma_map_after_set(before, after, i as int, key@, value);
        }
    } else {
        proof {
            if i < before.len() {
                if key_bytes(before[i as int].0) == key_bytes(key) {
                    lemma_key_bytes_injective(before[i as int].0, key);
                }
                lemma_bytes_lt_total(key_bytes(before[i as int].0), key_bytes(key));
            }
            // No entry has the key: those before `i` are smaller, those from `i` on larger.
            assert forall|j: int| 0 <= j < before.len() implies before[j].0@ != key@ by {
                if j < i {
                    assert(bytes_lt(key_bytes(before[j].0), key_bytes(key)));
                    if before[j].0@ == key@ {
                        lemma_bytes_lt_irreflexive(key_bytes(key));
                    }
                } else {
                    if j > i {
                        assert(bytes_lt(key_bytes(before[i as int].0), key_bytes(before[j].0)));
                        lemma_bytes_lt_transitive(key_bytes(key), key_bytes(before[i as int].0), key_bytes(before[j].0));
                    }
                    if before[j].0@ == key@ {
                        lemma_bytes_lt_irreflexive(key_bytes(key));
                    }
                }
            }
        }
        entries.insert(i, (key, value));
        proof {
            let after = entries@;
            assert(after =~= before.take(i as int).push((key, value)) + before.skip(i as int));
            assert(keys_sorted(after)) by {
                assert forall|a: int, b: int| 0 <= a < b < after.len() implies bytes_lt(key_bytes(#[trigger] after[a].0),
                    key_bytes(#[trigger] after[b].0)) by {
                    if b < i {
                        assert(after[a] == before[a] && after[b] == before[b]);
                    } else if b == i {
                        assert(after[a] == before[a]);
                    } else if a < i {
                        assert(after[a] == before[a] && after[b] == before[b - 1]);
                        assert(bytes_lt(key_bytes(before[a].0), key_bytes(before[b - 1].0)));
                    } else if a == i {
                        assert(after[b] == before[b - 1]);
                        if b - 1 > i {
                            assert(bytes_lt(key_bytes(before[i as int].0), key_bytes(before[b - 1].0)));
                            lemma_bytes_lt_transitive(key_bytes(key), key_bytes(before[i as int].0), key_bytes(before[b - 1].0));
                        }
                    } else {
                        assert(after[a] == before[a - 1] && after[b] == before[b - 1]);
                    }
                }
            }
            lemma_sorted_unique(after);
            lemma_map_after_insert(before, after, i as int, key@, value);
        }
    }
}

/// The full installation configuration.
pub struct Config {
    /// Further configuration files this one includes.
    pub includes: Vec<String>,
    pub general: GeneralConfig,
    pub packages: Vec<(String, PackageConfig)>,
    pub files: Vec<FileConfig>,
    pub users: Vec<(String, UserConfig)>,
    pub groups: Vec<(String, GroupConfig)>,
}

impl Config {
    /// Every keyed table is in strictly increasing key order (so no key
    /// repeats).
    pub open spec fn wf(&self) -> bool {
        &&& keys_sorted(self.packages@)
        &&& keys_sorted(self.users@)
        &&& keys_sorted(self.groups@)
    }

    /// A configuration that declares nothing.
    pub fn empty() -> (r: Config)
        ensures
            r.wf(),
            r.includes@.len() == 0,
            r.general.cookbook is None && r.general.prompt is None && r.general.repo_binary is None,
            r.general.filesystem_size is None && r.general.efi_partition_size is None,
            r.general.skip_partitions is None && r.general.encrypt_disk is None,
            r.general.live_disk is None && r.general.write_bootloader is None,
            r.general.no_mount is None,
            r.packages@.len() == 0,
            r.files@.len() == 0,
            r.users@.len() == 0,
            r.groups@.len() == 0,
    {
        Config {
            includes: Vec::new(),
            general: GeneralConfig::empty(),
            packages: Vec::new(),
            files: Vec::new(),
            users: Vec::new(),
            groups: Vec::new(),
        }
    }

    /// Merges `other` into `self`. `other` dominates: its settings and its
    /// package, user and group entries replace those of `self` with the same
    /// key; its files come after those of `self`. Tables stay in key order,
    /// which is the order accounts take their ids in. Includes must already be
    /// resolved on both sides.
    pub fn merge(&mut self, other: Config)
        requires
            old(self).wf(),
            other.wf(),
            old(self).includes@.len() == 0,
            other.includes@.len() == 0,
        ensures
            final(self).wf(),
            final(self).includes@.len() == 0,
            final(self).general == old(self).general.spec_merged(other.general),
            entry_map(final(self).packages@) == entry_map(old(self).packages@).union_prefer_right(
                entry_map(other.packages@),
            ),
            final(self).files@ == old(self).files@ + other.files@,
            entry_map(final(self).users@) == entry_map(old(self).users@).union_prefer_right(
                entry_map(other.users@),
            ),
            entry_map(final(self).groups@) == entry_map(old(self).groups@).union_prefer_right(
                entry_map(other.groups@),
            ),
    {
        proof {
            lemma_sorted_unique(other.packages@);
            lemma_sorted_unique(other.users@);
            lemma_sorted_unique(other.groups@);
        }
        let Config {
            includes: _,
            general: other_general,
            packages: other_packages,
            files: mut other_files,
            users: other_users,
            groups: other_groups,
        } = other;
        self.general.merge(other_general);
        merge_entries(&mut self.packages, other_packages);
        self.files.append(&mut other_files);
        merge_entries(&mut self.users, other_users);
        merge_entries(&mut self.groups, other_groups);
    }
}

/// Inserts every entry of `other` into `entries`, in key order, the later
/// winning.
pub fn merge_entries<V>(entries: &mut Vec<(String, V)>, other: Vec<(String, V)>)
    requires
        keys_sorted(old(entries)@),
        keys_unique(other@),
    ensures
        keys_sorted(final(entries)@),
        keys_unique(final(entries)@),
        entry_map(final(entries)@) == entry_map(old(entries)@).union_prefer_right(
            entry_map(other@),
        ),
{
    let ghost all = other@;
    let mut rest = other;
    let total = rest.len();
    let ghost start = entries@;
    let mut n: usize = 0;
    proof {
        lemma_sorted_unique(entries@);
    }
    while rest.len() > 0
        invariant
            keys_unique(entries@),
            n + rest@.len() == all.len(),
            rest@ == all.skip(n as int),
            all.len() == total,
            entry_map(entries@) == entry_map(start).union_prefer_right(
                entry_map(all.take(n as int)),
            ),
            keys_sorted(entries@),
        decreases rest@.len(),
    {
        let (key, value) = rest.remove(0);
        proof {
            assert(all.take(n + 1).drop_last() =~= all.take(n as int));
            assert(all[n as int] == (key, value));
        }
        insert_entry(entries, key, value);
        n = n + 1;
        proof {
            assert(entry_map(entries@) =~= entry_map(start).union_prefer_right(
                entry_map(all.take(n as int))));
        }
    }
    proof {
        assert(all.take(n as int) =~= all);
    }
}

} // verus!
