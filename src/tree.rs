//! The target filesystem: a redoxfs image held in memory, and the nodes,
//! entries and contents it holds.
use vstd::prelude::*;

use redoxfs::{DiskIo, FileSystem, TreePtr};
use std::io::Cursor;

verus! {

/// A redoxfs filesystem over an image in memory. redoxfs's `FileSystem`
/// bounds its disk type by a trait of its own, which its declaration cannot
/// carry, so the filesystem is held here whole.
#[verifier::external_body]
pub struct TargetFs {
    fs: FileSystem<DiskIo<Cursor<Vec<u8>>>>,
}

/// Directory entries of the filesystem: (directory node, name) to child node.
pub uninterp spec fn fs_entries(fs: TargetFs) -> Map<(u32, Seq<u8>), u32>;

/// Mode, uid and gid of each node.
pub uninterp spec fn fs_attrs(fs: TargetFs) -> Map<u32, (u16, u32, u32)>;

/// Content of each node that is not a directory.
pub uninterp spec fn fs_data(fs: TargetFs) -> Map<u32, Seq<u8>>;

/// Node id of the root directory.
pub const ROOT_ID: u32 = 1;

/// Type bits of a mode.
pub const MODE_TYPE: u16 = 0xF000;

/// Type bits of a regular file.
pub const MODE_FILE: u16 = 0x8000;

/// Type bits of a directory.
pub const MODE_DIR: u16 = 0x4000;

/// Type bits of a symlink.
pub const MODE_SYMLINK: u16 = 0xA000;

/// Permission bits of a mode.
pub const MODE_PERM: u16 = 0x0FFF;

/// Why a filesystem operation failed.
#[derive(PartialEq, Eq, Structural, Clone, Copy, Debug)]
pub enum FsError {
    /// The filesystem reported this error number.
    Io(i32),
    /// A name is not valid UTF-8.
    InvalidName,
}

/// What a lookup finds about a node.
#[derive(PartialEq, Eq, Structural, Clone, Copy, Debug)]
pub struct NodeInfo {
    pub id: u32,
    pub mode: u16,
    pub uid: u32,
    pub gid: u32,
    pub size: u64,
}

/// Whether a mode is that of a directory.
pub open spec fn is_dir_mode(mode: u16) -> bool {
    mode & MODE_TYPE == MODE_DIR
}

/// Whether a mode is that of a symlink.
pub open spec fn is_symlink_mode(mode: u16) -> bool {
    mode & MODE_TYPE == MODE_SYMLINK
}

/// A name redoxfs stores as it is: not empty, and without a NUL byte (a
/// stored name ends at its first NUL, and an empty one cannot be read back).
pub open spec fn good_name(name: Seq<u8>) -> bool {
    name.len() > 0 && !name.contains(0u8)
}

/// Every name stored in the directories of `entries` is a good one.
pub open spec fn names_good(entries: Map<(u32, Seq<u8>), u32>) -> bool {
    forall|k: (u32, Seq<u8>)| #[trigger] entries.contains_key(k) ==> good_name(k.1)
}

/// Mode of the root directory of a fresh filesystem.
pub const ROOT_MODE: u16 = 0x41ED;

/// A filesystem that holds only its root directory, mode 0755 and owned by
/// root.
pub open spec fn fresh_tree(
    entries: Map<(u32, Seq<u8>), u32>,
    attrs: Map<u32, (u16, u32, u32)>,
    data: Map<u32, Seq<u8>>,
) -> bool {
    &&& entries.dom() == Set::<(u32, Seq<u8>)>::empty()
    &&& attrs.dom() == set![ROOT_ID]
    &&& attrs[ROOT_ID] == (ROOT_MODE, 0u32, 0u32)
    &&& data.dom() == Set::<u32>::empty()
}

/// `s` with `data` written at `offset`, growing it where needed.
pub open spec fn overwrite(s: Seq<u8>, offset: int, data: Seq<u8>) -> Seq<u8> {
    if offset + data.len() >= s.len() {
        s.subrange(0, offset) + data
    } else {
        s.subrange(0, offset) + data + s.subrange(offset + data.len(), s.len() as int)
    }
}

/// Relies on redoxfs::FileSystem::create: a fresh filesystem over `image`
/// holds only its root directory, mode 0755 and owned by root.
#[verifier::external_body]
fn fs_create(image: Vec<u8>, password: Option<Vec<u8>>, ctime: u64, ctime_nsec: u32) -> (r: Result<TargetFs, FsError>)
    ensures
        r is Ok ==> fresh_tree(fs_entries(r->Ok_0), fs_attrs(r->Ok_0), fs_data(r->Ok_0)),
{
    FileSystem::create(DiskIo(Cursor::new(image)), password.as_deref(), ctime, ctime_nsec).map(
        |fs| TargetFs { fs },
    ).map_err(|e| FsError::Io(e.errno))
}

/// Relies on the public `disk` field of redoxfs::FileSystem: the bytes of the
/// image.
#[verifier::external_body]
fn fs_into_image(fs: TargetFs) -> (r: Vec<u8>) {
    fs.fs.disk.0.into_inner()
}

/// Relies on redoxfs::Transaction::find_node, in a transaction of its own:
/// the child of `parent` named `name`, or `None` where there is none
/// (ENOENT). Nothing changes. Every stored name must be readable back
/// (DirList::find_entry unwraps what it reads).
#[verifier::external_body]
fn fs_find(fs: &mut TargetFs, parent: u32, name: &Vec<u8>) -> (r: Result<Option<NodeInfo>, FsError>)
    requires
        names_good(fs_entries(*old(fs))),
    ensures
        fs_entries(*final(fs)) == fs_entries(*old(fs)),
        fs_attrs(*final(fs)) == fs_attrs(*old(fs)),
        fs_data(*final(fs)) == fs_data(*old(fs)),
        r matches Ok(Some(info)) ==> fs_entries(*old(fs)).contains_key((parent, name@))
            && fs_entries(*old(fs))[(parent, name@)] == info.id && fs_attrs(*old(fs)).contains_key(
            info.id,
        ) && fs_attrs(*old(fs))[info.id] == (info.mode, info.uid, info.gid) && (!is_dir_mode(
            info.mode,
        ) ==> fs_data(*old(fs)).contains_key(info.id) && fs_data(*old(fs))[info.id].len()
            == info.size),
        r matches Ok(None) ==> !fs_entries(*old(fs)).contains_key((parent, name@)),
{
    let name = std::str::from_utf8(name).map_err(|_| FsError::InvalidName)?;
    match fs.fs.tx(|tx| tx.find_node(TreePtr::new(parent), name)) {
        Ok(n) => Ok(Some(NodeInfo { id: n.id(), mode: n.data().mode(), uid: n.data().uid(), gid: n.data().gid(), size: n.data().size() })),
        Err(e) if e.errno == syscall::ENOENT => Ok(None),
        Err(e) => Err(FsError::Io(e.errno)),
    }
}

/// Relies on redoxfs::Transaction::create_node, then the owner setters of
/// redoxfs::Node and Transaction::sync_tree, all in one transaction: a new
/// node under the directory `parent` named `name`, with `mode`, `uid` and
/// `gid`, and empty. (Under a node that is not a directory, linking would
/// rewrite that node's records, so it is not allowed here; a name with a NUL
/// byte would be stored cut short, and an empty one could not be read back,
/// so neither is allowed either.) A transaction
/// that fails is not committed (FileSystem::tx drops it, and the filesystem
/// keeps its header and allocator), so nothing changes then.
#[verifier::external_body]
fn fs_create_node(fs: &mut TargetFs, parent: u32, name: &Vec<u8>, attrs: (u16, u32, u32), ctime: u64, ctime_nsec: u32) -> (r: Result<u32, FsError>)
    requires
        good_name(name@),
        fs_attrs(*old(fs)).contains_key(parent),
        is_dir_mode(fs_attrs(*old(fs))[parent].0),
    ensures
        r is Err ==> fs_entries(*final(fs)) == fs_entries(*old(fs)) && fs_attrs(*final(fs)) == fs_attrs(*old(fs))
            && fs_data(*final(fs)) == fs_data(*old(fs)),
        r matches Ok(id) ==> {
            &&& !fs_attrs(*old(fs)).contains_key(id)
            &&& !fs_entries(*old(fs)).contains_key((parent, name@))
            &&& fs_entries(*final(fs)) == fs_entries(*old(fs)).insert((parent, name@), id)
            &&& fs_attrs(*final(fs)) == fs_attrs(*old(fs)).insert(id, attrs)
            &&& fs_data(*final(fs)) == if is_dir_mode(attrs.0) {
                fs_data(*old(fs))
            } else {
                fs_data(*old(fs)).insert(id, Seq::<u8>::empty())
            }
        },
{
    let name = std::str::from_utf8(name).map_err(|_| FsError::InvalidName)?;
    fs.fs.tx(|tx| {
        let mut node = tx.create_node(TreePtr::new(parent), name, attrs.0, ctime, ctime_nsec)?;
        let id = node.id();
        node.data_mut().set_uid(attrs.1);
        node.data_mut().set_gid(attrs.2);
        tx.sync_tree(node)?;
        Ok(id)
    }).map_err(|e| FsError::Io(e.errno))
}

/// Relies on redoxfs::Transaction::read_tree and sync_tree with the
/// setters of redoxfs::Node, in a transaction of their own: node `id` gets
/// `mode`, `uid` and `gid`. The type bits of its mode must stay, since
/// Node::set_mode replaces them too. A failed transaction changes nothing.
#[verifier::external_body]
fn fs_set_attrs(fs: &mut TargetFs, id: u32, mode: u16, uid: u32, gid: u32) -> (r: Result<(), FsError>)
    requires
        fs_attrs(*old(fs)).contains_key(id),
        mode & MODE_TYPE == fs_attrs(*old(fs))[id].0 & MODE_TYPE,
    ensures
        r is Err ==> fs_entries(*final(fs)) == fs_entries(*old(fs)) && fs_attrs(*final(fs)) == fs_attrs(*old(fs))
            && fs_data(*final(fs)) == fs_data(*old(fs)),
        r is Ok ==> fs_entries(*final(fs)) == fs_entries(*old(fs)) && fs_attrs(*final(fs))
            == fs_attrs(*old(fs)).insert(id, (mode, uid, gid)) && fs_data(*final(fs)) == fs_data(
            *old(fs),
        ),
{
    fs.fs.tx(|tx| {
        let mut node = tx.read_tree(TreePtr::<redoxfs::Node>::new(id))?;
        node.data_mut().set_mode(mode);
        node.data_mut().set_uid(uid);
        node.data_mut().set_gid(gid);
        tx.sync_tree(node)
    }).map_err(|e| FsError::Io(e.errno))
}

/// Relies on redoxfs::Transaction::write_node, in a transaction of its own:
/// `bytes` written into node `id` at `offset`. A failed transaction changes
/// nothing.
#[verifier::external_body]
fn fs_write(fs: &mut TargetFs, id: u32, offset: u64, bytes: &Vec<u8>, mtime: u64, mtime_nsec: u32) -> (r: Result<(), FsError>)
    requires
        fs_data(*old(fs)).contains_key(id),
        offset <= fs_data(*old(fs))[id].len(),
    ensures
        r is Err ==> fs_entries(*final(fs)) == fs_entries(*old(fs)) && fs_attrs(*final(fs)) == fs_attrs(*old(fs))
            && fs_data(*final(fs)) == fs_data(*old(fs)),
        r is Ok ==> fs_entries(*final(fs)) == fs_entries(*old(fs)) && fs_attrs(*final(fs))
            == fs_attrs(*old(fs)) && fs_data(*final(fs)) == fs_data(*old(fs)).insert(
            id,
            overwrite(fs_data(*old(fs))[id], offset as int, bytes@),
        ),
{
    fs.fs.tx(|tx| tx.write_node(TreePtr::new(id), offset, bytes, mtime, mtime_nsec)).map(|_| ()).map_err(
        |e| FsError::Io(e.errno),
    )
}

/// Relies on redoxfs::Transaction::truncate_node, in a transaction of its
/// own: node `id` is cut to no content. A failed transaction changes
/// nothing.
#[verifier::external_body]
fn fs_truncate(fs: &mut TargetFs, id: u32, mtime: u64, mtime_nsec: u32) -> (r: Result<(), FsError>)
    requires
        fs_data(*old(fs)).contains_key(id),
    ensures
        r is Err ==> fs_entries(*final(fs)) == fs_entries(*old(fs)) && fs_attrs(*final(fs)) == fs_attrs(*old(fs))
            && fs_data(*final(fs)) == fs_data(*old(fs)),
        r is Ok ==> fs_entries(*final(fs)) == fs_entries(*old(fs)) && fs_attrs(*final(fs)) == fs_attrs(*old(fs))
            && fs_data(*final(fs)) == fs_data(*old(fs)).insert(id, Seq::<u8>::empty()),
{
    fs.fs.tx(|tx| tx.truncate_node(TreePtr::new(id), 0, mtime, mtime_nsec)).map_err(|e| FsError::Io(e.errno))
}

/// Relies on redoxfs::Transaction::read_node, in a transaction of its own
/// and with no access time given: up to `len` bytes of node `id` from
/// `offset`. Nothing changes.
#[verifier::external_body]
fn fs_read(fs: &mut TargetFs, id: u32, offset: u64, len: usize) -> (r: Result<Vec<u8>, FsError>)
    requires
        fs_data(*old(fs)).contains_key(id),
        offset <= fs_data(*old(fs))[id].len(),
    ensures
        fs_entries(*final(fs)) == fs_entries(*old(fs)),
        fs_attrs(*final(fs)) == fs_attrs(*old(fs)),
        fs_data(*final(fs)) == fs_data(*old(fs)),
        r is Ok ==> r->Ok_0@ == fs_data(*old(fs))[id].subrange(
            offset as int,
            if offset + len <= fs_data(*old(fs))[id].len() {
                offset + len
            } else {
                fs_data(*old(fs))[id].len() as int
            },
        ),
{
    let mut buf = vec![0u8; len];
    let n = fs.fs.tx(|tx| tx.read_node(TreePtr::new(id), offset, &mut buf, 0, 0)).map_err(
        |e| FsError::Io(e.errno),
    )?;
    buf.truncate(n);
    Ok(buf)
}

/// Relies on redoxfs::Transaction::child_nodes, in a transaction of its own:
/// the nodes that the entries of directory `id` name. Nothing changes. Every
/// stored name must be readable back (DirEntryIterator unwraps what it
/// reads).
#[verifier::external_body]
fn fs_children(fs: &mut TargetFs, id: u32) -> (r: Result<Vec<u32>, FsError>)
    requires
        names_good(fs_entries(*old(fs))),
    ensures
        fs_entries(*final(fs)) == fs_entries(*old(fs)),
        fs_attrs(*final(fs)) == fs_attrs(*old(fs)),
        fs_data(*final(fs)) == fs_data(*old(fs)),
        r is Ok ==> (forall|name: Seq<u8>| #[trigger]
            fs_entries(*old(fs)).contains_key((id, name)) ==> r->Ok_0@.contains(
                fs_entries(*old(fs))[(id, name)],
            )) && (forall|i: int|
            0 <= i < r->Ok_0@.len() ==> exists|name: Seq<u8>|
                fs_entries(*old(fs)).contains_key((id, name)) && #[trigger] r->Ok_0@[i]
                    == fs_entries(*old(fs))[(id, name)]),
{
    let mut children = Vec::new();
    fs.fs.tx(|tx| tx.child_nodes(TreePtr::new(id), &mut children)).map_err(|e| FsError::Io(e.errno))?;
    Ok(children.iter().map(|c| c.node_ptr().id()).collect())
}


/// Relies on redoxfs::Transaction::read_tree, in a transaction of its own:
/// the mode, owners and size of node `id`. Nothing changes.
#[verifier::external_body]
fn fs_stat(fs: &mut TargetFs, id: u32) -> (r: Result<NodeInfo, FsError>)
    requires
        fs_attrs(*old(fs)).contains_key(id),
    ensures
        fs_entries(*final(fs)) == fs_entries(*old(fs)),
        fs_attrs(*final(fs)) == fs_attrs(*old(fs)),
        fs_data(*final(fs)) == fs_data(*old(fs)),
        r matches Ok(info) ==> info.id == id && fs_attrs(*old(fs))[id] == (info.mode, info.uid, info.gid)
            && (!is_dir_mode(info.mode) ==> fs_data(*old(fs)).contains_key(id) && fs_data(*old(fs))[id].len() == info.size),
{
    let node = fs.fs.tx(|tx| tx.read_tree(TreePtr::<redoxfs::Node>::new(id))).map_err(|e| FsError::Io(e.errno))?;
    Ok(NodeInfo { id, mode: node.data().mode(), uid: node.data().uid(), gid: node.data().gid(), size: node.data().size() })
}

/// Mode of a directory made on the way to a path: 0755.
pub const DEFAULT_DIR_MODE: u16 = 0x41ED;

/// Bytes written to a node in one transaction by `write_file_chunked`.
pub const CHUNK_SIZE: usize = 65536;

/// The byte `/`.
pub const SLASH: u8 = 47;

/// The byte `.`.
pub const DOT: u8 = 46;

/// Why a tree operation failed.
#[derive(PartialEq, Eq, Structural, Clone, Copy, Debug)]
pub enum TreeError {
    /// The filesystem reported this error number.
    Io(i32),
    /// A name is not valid UTF-8.
    InvalidName,
    /// A symlink on the way to a path has a `..` component.
    UnsupportedParentLink,
    /// The path has no final name.
    NoFileName,
    /// A name on the way to a path is neither a directory nor a symlink.
    NotADirectory,
    /// A file to be rewritten is not a regular file.
    NotAFile,
}

fn tree_error(e: FsError) -> (r: TreeError)
    ensures
        e matches FsError::Io(n) ==> r == TreeError::Io(n),
        e is InvalidName ==> r is InvalidName,
{
    match e {
        FsError::Io(n) => TreeError::Io(n),
        FsError::InvalidName => TreeError::InvalidName,
    }
}

/// What a filesystem holds: its directory entries, the mode and owners of
/// each node, and the content of each node that is not a directory.
pub struct TreeModel {
    pub entries: Map<(u32, Seq<u8>), u32>,
    pub attrs: Map<u32, (u16, u32, u32)>,
    pub data: Map<u32, Seq<u8>>,
}

impl TreeModel {
    /// The root exists and is a directory, there are finitely many nodes,
    /// every entry links two existing nodes, every node that is not a
    /// directory has content, and every stored name is good.
    pub open spec fn wf(self) -> bool {
        &&& self.attrs.contains_key(ROOT_ID)
        &&& is_dir_mode(self.attrs[ROOT_ID].0)
        &&& self.attrs.dom().finite()
        &&& forall|k: (u32, Seq<u8>)| #[trigger]
            self.entries.contains_key(k) ==> self.attrs.contains_key(k.0) && self.attrs.contains_key(
                self.entries[k],
            )
        &&& forall|id: u32| #[trigger] self.data.contains_key(id) ==> self.attrs.contains_key(id)
        &&& forall|id: u32| #[trigger] self.attrs.contains_key(id) && !is_dir_mode(self.attrs[id].0)
            ==> self.data.contains_key(id)
        &&& names_good(self.entries)
    }

    /// `next` keeps every entry, node and content of `self`, every node it
    /// adds is a directory with mode 0755 owned by root, and every entry it
    /// adds names a node it adds.
    pub open spec fn grows_by_dirs(self, next: TreeModel) -> bool {
        &&& forall|k: (u32, Seq<u8>)| #[trigger]
            self.entries.contains_key(k) ==> next.entries.contains_key(k) && next.entries[k]
                == self.entries[k]
        &&& forall|id: u32| #[trigger]
            self.attrs.contains_key(id) ==> next.attrs.contains_key(id) && next.attrs[id]
                == self.attrs[id]
        &&& forall|id: u32| #[trigger]
            next.attrs.contains_key(id) && !self.attrs.contains_key(id) ==> next.attrs[id] == (
                DEFAULT_DIR_MODE,
                0u32,
                0u32,
            )
        &&& forall|k: (u32, Seq<u8>)| #[trigger]
            next.entries.contains_key(k) && !self.entries.contains_key(k) ==> !self.attrs.contains_key(
                next.entries[k],
            )
        &&& next.data == self.data
    }

    /// `next` keeps every entry of `self`, and the attributes and content
    /// of every node of `self`.
    pub open spec fn keeps(self, next: TreeModel) -> bool {
        &&& forall|k: (u32, Seq<u8>)| #[trigger]
            self.entries.contains_key(k) ==> next.entries.contains_key(k) && next.entries[k]
                == self.entries[k]
        &&& forall|id: u32| #[trigger]
            self.attrs.contains_key(id) ==> next.attrs.contains_key(id) && next.attrs[id]
                == self.attrs[id]
        &&& forall|id: u32| #[trigger]
            self.data.contains_key(id) ==> next.data.contains_key(id) && next.data[id]
                == self.data[id]
    }

    /// `next` keeps every entry and content of `self`, and every node of
    /// `self` with its type bits; owners and permission bits may change.
    pub open spec fn keeps_shape(self, next: TreeModel) -> bool {
        &&& forall|k: (u32, Seq<u8>)| #[trigger]
            self.entries.contains_key(k) ==> next.entries.contains_key(k) && next.entries[k]
                == self.entries[k]
        &&& forall|id: u32| #[trigger]
            self.attrs.contains_key(id) ==> next.attrs.contains_key(id) && next.attrs[id].0 & MODE_TYPE
                == self.attrs[id].0 & MODE_TYPE
        &&& forall|id: u32| #[trigger]
            self.data.contains_key(id) ==> next.data.contains_key(id) && next.data[id]
                == self.data[id]
    }

    /// `next` keeps every entry of `self`, every node with its type bits,
    /// and the content of every node that is not a regular file.
    pub open spec fn keeps_tree(self, next: TreeModel) -> bool {
        &&& forall|k: (u32, Seq<u8>)| #[trigger]
            self.entries.contains_key(k) ==> next.entries.contains_key(k) && next.entries[k]
                == self.entries[k]
        &&& forall|id: u32| #[trigger]
            self.attrs.contains_key(id) ==> next.attrs.contains_key(id) && next.attrs[id].0 & MODE_TYPE
                == self.attrs[id].0 & MODE_TYPE
        &&& forall|id: u32| #[trigger]
            self.data.contains_key(id) ==> next.data.contains_key(id) && (self.attrs[id].0 & MODE_TYPE
                != MODE_FILE ==> next.data[id] == self.data[id])
    }

    /// The directory a symlink target's names lead to from `at`, each name
    /// naming a directory; a `..` leads nowhere.
    pub open spec fn target_walk(self, at: u32, parts: Seq<Seq<u8>>) -> Option<u32>
        decreases parts.len(),
    {
        if parts.len() == 0 {
            Some(at)
        } else if parts[0] == dotdot() {
            None
        } else if self.entries.contains_key((at, parts[0])) && is_dir_mode(
            self.attrs[self.entries[(at, parts[0])]].0,
        ) {
            self.target_walk(self.entries[(at, parts[0])], parts.skip(1))
        } else {
            None
        }
    }

    /// The directory `path` leads to from the directory `cur`: a `..` is
    /// passed over, a directory is entered, and a symlink is replaced by the
    /// directory its stored target leads to (from the root when the target
    /// starts with `/`, else from the directory holding the link).
    pub open spec fn walk(self, cur: u32, path: Seq<Seq<u8>>) -> Option<u32>
        decreases path.len(),
    {
        if path.len() == 0 {
            Some(cur)
        } else if path[0] == dotdot() {
            self.walk(cur, path.skip(1))
        } else if self.entries.contains_key((cur, path[0])) {
            let c = self.entries[(cur, path[0])];
            if is_symlink_mode(self.attrs[c].0) {
                match self.target_walk(link_start(self.data[c], cur), components(self.data[c])) {
                    Some(d) => self.walk(d, path.skip(1)),
                    None => None,
                }
            } else if is_dir_mode(self.attrs[c].0) {
                self.walk(c, path.skip(1))
            } else {
                None
            }
        } else {
            None
        }
    }

    /// The node `path` names: its final name in the directory its other
    /// names lead to.
    pub open spec fn resolve(self, path: Seq<u8>) -> Option<u32> {
        match self.walk(ROOT_ID, path_parents(path)) {
            Some(p) => if components(path).len() > 0 && self.entries.contains_key(
                (p, components(path).last()),
            ) {
                Some(self.entries[(p, components(path).last())])
            } else {
                None
            },
            None => None,
        }
    }

    /// The node reached from `cur` by following `path`'s names through the
    /// entries, a `..` being passed over.
    pub open spec fn lookup(self, cur: u32, path: Seq<Seq<u8>>) -> Option<u32>
        decreases path.len(),
    {
        if path.len() == 0 {
            Some(cur)
        } else if path[0] == dotdot() {
            self.lookup(cur, path.skip(1))
        } else if self.entries.contains_key((cur, path[0])) {
            self.lookup(self.entries[(cur, path[0])], path.skip(1))
        } else {
            None
        }
    }

    /// No node met on the way along `path` from `cur` is a symlink.
    pub open spec fn no_symlink_on(self, cur: u32, path: Seq<Seq<u8>>) -> bool
        decreases path.len(),
    {
        if path.len() == 0 {
            true
        } else if path[0] == dotdot() {
            self.no_symlink_on(cur, path.skip(1))
        } else if self.entries.contains_key((cur, path[0])) {
            let c = self.entries[(cur, path[0])];
            !is_symlink_mode(self.attrs[c].0) && self.no_symlink_on(c, path.skip(1))
        } else {
            true
        }
    }

    /// How many names of `path`, followed from `cur`, name no existing node.
    pub open spec fn missing_count(self, cur: u32, path: Seq<Seq<u8>>) -> nat
        decreases path.len(),
    {
        if path.len() == 0 {
            0
        } else if path[0] == dotdot() {
            self.missing_count(cur, path.skip(1))
        } else if self.entries.contains_key((cur, path[0])) {
            self.missing_count(self.entries[(cur, path[0])], path.skip(1))
        } else {
            1 + name_count(path.skip(1))
        }
    }
}

/// How many names of `path` are not `..`.
pub open spec fn name_count(path: Seq<Seq<u8>>) -> nat
    decreases path.len(),
{
    if path.len() == 0 {
        0
    } else if path[0] == dotdot() {
        name_count(path.skip(1))
    } else {
        1 + name_count(path.skip(1))
    }
}

/// Where a symlink target is followed from: the root for an absolute
/// target, else the directory holding the link.
pub open spec fn link_start(target: Seq<u8>, cur: u32) -> u32 {
    if target.len() > 0 && target[0] == SLASH {
        ROOT_ID
    } else {
        cur
    }
}

/// The directories above the final name of `path`.
pub open spec fn path_parents(path: Seq<u8>) -> Seq<Seq<u8>> {
    components(path).drop_last()
}

/// The mode a created node gets: a directory or file takes the permission
/// bits of `mode`, a symlink always has 0777.
pub open spec fn node_mode(is_directory: bool, is_symlink: bool, mode: u16) -> u16 {
    if is_directory {
        MODE_DIR | (mode & MODE_PERM)
    } else if is_symlink {
        MODE_SYMLINK | 0o777u16
    } else {
        MODE_FILE | (mode & MODE_PERM)
    }
}

/// Node `id` of `m` is what `create_at_path` makes from these arguments: its
/// mode, its owners, and its content (the target, for a symlink).
pub open spec fn made_as(
    m: TreeModel,
    id: u32,
    is_directory: bool,
    is_symlink: bool,
    content: Seq<u8>,
    mode: u16,
    uid: u32,
    gid: u32,
) -> bool {
    &&& m.attrs.contains_key(id)
    &&& m.attrs[id].0 == node_mode(is_directory, is_symlink, mode)
    &&& m.attrs[id].1 == uid
    &&& m.attrs[id].2 == gid
    &&& !is_directory ==> m.data.contains_key(id) && m.data[id] == content
}

/// What holds after `create_at_path(path)` takes `before` to `after` and
/// gives `id`, when no symlink lies above the final name: the path then
/// leads to `id` and still has no symlink above it; and where the path led
/// somewhere before, nothing changed and `id` is that node.
pub open spec fn create_outcome(before: TreeModel, after: TreeModel, path: Seq<u8>, id: u32) -> bool {
    &&& before.no_symlink_on(ROOT_ID, path_parents(path)) ==> after.no_symlink_on(
        ROOT_ID,
        path_parents(path),
    ) && after.lookup(ROOT_ID, components(path)) == Some(id)
    &&& before.no_symlink_on(ROOT_ID, path_parents(path)) && before.lookup(
        ROOT_ID,
        components(path),
    ) is Some ==> after == before && before.lookup(ROOT_ID, components(path)) == Some(id)
}

/// Creating the same path twice gives the same node both times, and the
/// second time changes nothing.
pub proof fn lemma_create_at_path_idempotent(
    m0: TreeModel,
    m1: TreeModel,
    m2: TreeModel,
    path: Seq<u8>,
    first: u32,
    second: u32,
)
    requires
        m0.no_symlink_on(ROOT_ID, path_parents(path)),
        create_outcome(m0, m1, path, first),
        create_outcome(m1, m2, path, second),
    ensures
        second == first,
        m2 == m1,
{
}

proof fn lemma_no_symlink_parents_kept(m: TreeModel, n: TreeModel, r: u32, a: Seq<Seq<u8>>)
    requires
        m.wf(),
        m.lookup(r, a) is Some,
        m.no_symlink_on(r, a),
        forall|k: (u32, Seq<u8>)| #[trigger] m.entries.contains_key(k) ==> n.entries.contains_key(k)
            && n.entries[k] == m.entries[k],
        forall|id: u32| #[trigger] m.attrs.contains_key(id) ==> n.attrs.contains_key(id) && n.attrs[id] == m.attrs[id],
    ensures
        n.no_symlink_on(r, a),
        n.lookup(r, a) == m.lookup(r, a),
    decreases a.len(),
{
    if a.len() > 0 {
        if a[0] == dotdot() {
            lemma_no_symlink_parents_kept(m, n, r, a.skip(1));
        } else {
            let c = m.entries[(r, a[0])];
            assert(m.attrs.contains_key(c));
            lemma_no_symlink_parents_kept(m, n, c, a.skip(1));
        }
    }
}

proof fn lemma_nothing_missing_lookup_some(m: TreeModel, r: u32, a: Seq<Seq<u8>>)
    requires
        m.missing_count(r, a) == 0,
    ensures
        m.lookup(r, a) is Some,
    decreases a.len(),
{
    if a.len() > 0 {
        if a[0] == dotdot() {
            lemma_nothing_missing_lookup_some(m, r, a.skip(1));
        } else {
            lemma_nothing_missing_lookup_some(m, m.entries[(r, a[0])], a.skip(1));
        }
    }
}

proof fn lemma_lookup_some_nothing_missing(m: TreeModel, r: u32, a: Seq<Seq<u8>>)
    requires
        m.lookup(r, a) is Some,
    ensures
        m.missing_count(r, a) == 0,
    decreases a.len(),
{
    if a.len() > 0 {
        if a[0] == dotdot() {
            lemma_lookup_some_nothing_missing(m, r, a.skip(1));
        } else {
            lemma_lookup_some_nothing_missing(m, m.entries[(r, a[0])], a.skip(1));
        }
    }
}

/// `x` is named by an entry of directory `y`.
pub open spec fn child_of(m: TreeModel, y: u32, x: u32) -> bool {
    &&& m.attrs.contains_key(y)
    &&& is_dir_mode(m.attrs[y].0)
    &&& exists|name: Seq<u8>| #[trigger] m.entries.contains_key((y, name)) && m.entries[(y, name)] == x
}

/// `p` is a chain of nodes from `d`, each named by an entry of the one
/// before it.
pub open spec fn is_chain(m: TreeModel, d: u32, p: Seq<u32>) -> bool {
    &&& p.len() >= 1
    &&& p[0] == d
    &&& forall|i: int| 0 <= i < p.len() - 1 ==> #[trigger] child_of(m, p[i], p[i + 1])
}

/// `x` is `d` or lies anywhere below it.
pub open spec fn in_subtree(m: TreeModel, d: u32, x: u32) -> bool {
    exists|p: Seq<u32>| #[trigger] is_chain(m, d, p) && p.last() == x
}

/// The attributes `a` after a change of owners and permissions: each given
/// value replaces its own, and the type bits of the mode stay.
pub open spec fn chowned(a: (u16, u32, u32), mode: Option<u16>, uid: Option<u32>, gid: Option<u32>) -> (u16, u32, u32) {
    (
        match mode {
            Some(m) => (a.0 & MODE_TYPE) | (m & MODE_PERM),
            None => a.0,
        },
        match uid {
            Some(u) => u,
            None => a.1,
        },
        match gid {
            Some(g) => g,
            None => a.2,
        },
    )
}

proof fn lemma_closed_chain(m: TreeModel, d: u32, v: Set<u32>, p: Seq<u32>)
    requires
        v.contains(d),
        forall|y: u32, z: u32| #[trigger] v.contains(y) && #[trigger] child_of(m, y, z) ==> v.contains(z),
        is_chain(m, d, p),
    ensures
        forall|i: int| 0 <= i < p.len() ==> v.contains(#[trigger] p[i]),
{
    assert forall|i: int| 0 <= i < p.len() implies v.contains(#[trigger] p[i]) by {
        lemma_closed_chain_at(m, d, v, p, i);
    }
}

proof fn lemma_closed_chain_at(m: TreeModel, d: u32, v: Set<u32>, p: Seq<u32>, i: int)
    requires
        v.contains(d),
        forall|y: u32, z: u32| #[trigger] v.contains(y) && #[trigger] child_of(m, y, z) ==> v.contains(z),
        is_chain(m, d, p),
        0 <= i < p.len(),
    ensures
        v.contains(p[i]),
    decreases i,
{
    if i > 0 {
        lemma_closed_chain_at(m, d, v, p, i - 1);
        assert(child_of(m, p[i - 1], p[(i - 1) + 1]));
    }
}

proof fn lemma_lookup_concat(m: TreeModel, r: u32, a: Seq<Seq<u8>>, b: Seq<Seq<u8>>)
    ensures
        m.lookup(r, a + b) == match m.lookup(r, a) {
            Some(c) => m.lookup(c, b),
            None => None,
        },
    decreases a.len(),
{
    if a.len() > 0 {
        assert((a + b).skip(1) =~= a.skip(1) + b);
        assert((a + b)[0] == a[0]);
        if a[0] == dotdot() {
            lemma_lookup_concat(m, r, a.skip(1), b);
        } else if m.entries.contains_key((r, a[0])) {
            lemma_lookup_concat(m, m.entries[(r, a[0])], a.skip(1), b);
        }
    } else {
        assert(a + b =~= b);
    }
}

/// Two models with the same entries, the same nodes and the same
/// directories have the same subtrees.
pub proof fn lemma_subtree_same(m: TreeModel, n: TreeModel, d: u32, x: u32)
    requires
        m.entries == n.entries,
        m.attrs.dom() == n.attrs.dom(),
        forall|y: u32| #[trigger] m.attrs.contains_key(y) ==> is_dir_mode(m.attrs[y].0) == is_dir_mode(n.attrs[y].0),
    ensures
        in_subtree(m, d, x) == in_subtree(n, d, x),
{
    assert forall|y: u32, z: u32| child_of(m, y, z) == child_of(n, y, z) by {
        if m.attrs.contains_key(y) {
            assert(is_dir_mode(m.attrs[y].0) == is_dir_mode(n.attrs[y].0));
        }
    }
    if in_subtree(m, d, x) {
        let p = choose|p: Seq<u32>| #[trigger] is_chain(m, d, p) && p.last() == x;
        assert(is_chain(n, d, p));
    }
    if in_subtree(n, d, x) {
        let p = choose|p: Seq<u32>| #[trigger] is_chain(n, d, p) && p.last() == x;
        assert(is_chain(m, d, p));
    }
}

/// A lookup depends on the entries alone.
pub proof fn lemma_lookup_attrs_kept(m: TreeModel, n: TreeModel, path: Seq<Seq<u8>>)
    requires
        m.entries == n.entries,
    ensures
        forall|r: u32| #[trigger] m.lookup(r, path) == n.lookup(r, path),
    decreases path.len(),
{
    if path.len() > 0 {
        lemma_lookup_attrs_kept(m, n, path.skip(1));
        assert forall|r: u32| #[trigger] m.lookup(r, path) == n.lookup(r, path) by {
            if path[0] != dotdot() && m.entries.contains_key((r, path[0])) {
                assert(m.lookup(m.entries[(r, path[0])], path.skip(1)) == n.lookup(
                    n.entries[(r, path[0])],
                    path.skip(1),
                ));
            } else if path[0] == dotdot() {
                assert(m.lookup(r, path.skip(1)) == n.lookup(r, path.skip(1)));
            }
        }
    }
}

/// An empty directory, or a node that is not one, is all of its own
/// subtree.
pub proof fn lemma_subtree_of_leaf(m: TreeModel, d: u32, x: u32)
    requires
        no_children(m, d),
        in_subtree(m, d, x),
    ensures
        x == d,
{
    let p = choose|p: Seq<u32>| #[trigger] is_chain(m, d, p) && p.last() == x;
    if p.len() > 1 {
        assert(child_of(m, p[0int], p[0int + 1]));
        let name = choose|name: Seq<u8>| #[trigger] m.entries.contains_key((p[0], name)) && m.entries[(p[0], name)] == p[1];
        assert(m.entries.contains_key((d, name)));
    }
}

/// What a path names stays named by it in a model that keeps the entries,
/// the nodes' types and the contents.
pub proof fn lemma_resolve_kept(m: TreeModel, n: TreeModel, path: Seq<u8>)
    requires
        m.wf(),
        m.keeps(n) || m.keeps_shape(n) || m.keeps_tree(n),
        m.resolve(path) is Some,
    ensures
        n.resolve(path) == m.resolve(path),
{
    lemma_walk_kept(m, n, ROOT_ID, path_parents(path));
}

/// A node lies in its own subtree.
pub proof fn lemma_subtree_root(m: TreeModel, d: u32)
    ensures
        in_subtree(m, d, d),
{
    assert(is_chain(m, d, seq![d]));
}

/// `next` is `m` with one new node `id`, named `name` in directory `parent`,
/// with `attrs`, holding `content` unless it is a directory.
pub open spec fn adds_node(
    m: TreeModel,
    next: TreeModel,
    parent: u32,
    name: Seq<u8>,
    id: u32,
    attrs: (u16, u32, u32),
    content: Seq<u8>,
) -> bool {
    &&& !m.attrs.contains_key(id)
    &&& !m.entries.contains_key((parent, name))
    &&& next.entries == m.entries.insert((parent, name), id)
    &&& next.attrs == m.attrs.insert(id, attrs)
    &&& next.data == if is_dir_mode(attrs.0) {
        m.data
    } else {
        m.data.insert(id, content)
    }
}

/// Keeping the shape is transitive, and keeping everything keeps it.
pub proof fn lemma_keeps_shape_trans(a: TreeModel, b: TreeModel, c: TreeModel)
    requires
        a.keeps_shape(b) || a.keeps(b),
        b.keeps_shape(c) || b.keeps(c),
    ensures
        a.keeps_shape(c),
{
}

/// A path with no symlink on its way in a later model had none in an
/// earlier one whose shape it keeps.
pub proof fn lemma_no_symlink_back(m: TreeModel, n: TreeModel, r: u32, a: Seq<Seq<u8>>)
    requires
        m.wf(),
        m.keeps(n) || m.keeps_shape(n),
        n.no_symlink_on(r, a),
    ensures
        m.no_symlink_on(r, a),
    decreases a.len(),
{
    if a.len() > 0 {
        if a[0] == dotdot() {
            lemma_no_symlink_back(m, n, r, a.skip(1));
        } else if m.entries.contains_key((r, a[0])) {
            let c = m.entries[(r, a[0])];
            assert(m.attrs.contains_key(c));
            assert(n.attrs[c].0 & MODE_TYPE == m.attrs[c].0 & MODE_TYPE);
            lemma_no_symlink_back(m, n, c, a.skip(1));
        }
    }
}

/// Keeping the tree is transitive, and keeping everything keeps it.
pub proof fn lemma_keeps_tree_trans(a: TreeModel, b: TreeModel, c: TreeModel)
    requires
        a.wf(),
        a.keeps_tree(b) || a.keeps(b),
        b.keeps_tree(c) || b.keeps(c),
    ensures
        a.keeps_tree(c),
{
    assert forall|id: u32| #[trigger] a.data.contains_key(id) implies c.data.contains_key(id) && (a.attrs[id].0
        & MODE_TYPE != MODE_FILE ==> c.data[id] == a.data[id]) by {
        assert(a.attrs.contains_key(id));
        assert(b.attrs[id].0 & MODE_TYPE == a.attrs[id].0 & MODE_TYPE);
    }
}

/// Keeping is transitive.
pub proof fn lemma_keeps_trans(a: TreeModel, b: TreeModel, c: TreeModel)
    requires
        a.keeps(b),
        b.keeps(c),
    ensures
        a.keeps(c),
{
}

/// A lookup that succeeds still does, with the same result, in a model
/// that keeps every entry.
pub proof fn lemma_lookup_kept(m: TreeModel, n: TreeModel, r: u32, a: Seq<Seq<u8>>)
    requires
        m.keeps(n) || m.keeps_shape(n),
        m.lookup(r, a) is Some,
    ensures
        n.lookup(r, a) == m.lookup(r, a),
    decreases a.len(),
{
    if a.len() > 0 {
        if a[0] == dotdot() {
            lemma_lookup_kept(m, n, r, a.skip(1));
        } else {
            lemma_lookup_kept(m, n, m.entries[(r, a[0])], a.skip(1));
        }
    }
}

/// A change of owners and permissions keeps the type bits.
pub proof fn lemma_chowned_keeps_type(a: (u16, u32, u32), mode: Option<u16>, uid: Option<u32>, gid: Option<u32>)
    ensures
        chowned(a, mode, uid, gid).0 & MODE_TYPE == a.0 & MODE_TYPE,
        is_dir_mode(chowned(a, mode, uid, gid).0) == is_dir_mode(a.0),
{
    if let Some(m) = mode {
        let t = a.0;
        assert(((t & 0xF000u16) | (m & 0x0FFFu16)) & 0xF000u16 == t & 0xF000u16) by (bit_vector);
    }
}

/// Adding a node to a well-formed model under one of its directories keeps
/// it well formed and keeps everything it held.
pub proof fn lemma_adds_node_wf_keeps(
    m: TreeModel,
    n: TreeModel,
    parent: u32,
    name: Seq<u8>,
    id: u32,
    attrs: (u16, u32, u32),
    content: Seq<u8>,
)
    requires
        m.wf(),
        m.attrs.contains_key(parent),
        good_name(name),
        adds_node(m, n, parent, name, id, attrs, content),
    ensures
        n.wf(),
        m.keeps(n),
        n.attrs.dom() == m.attrs.dom().insert(id),
{
    assert(n.attrs.dom() =~= m.attrs.dom().insert(id));
    assert(!m.data.contains_key(id));
    assert forall|k: (u32, Seq<u8>)| #[trigger] n.entries.contains_key(k)
        implies n.attrs.contains_key(k.0) && n.attrs.contains_key(n.entries[k]) by {
        if k != (parent, name) {
            assert(m.entries.contains_key(k));
        }
    }
    assert forall|x: u32| #[trigger] n.data.contains_key(x) implies n.attrs.contains_key(x) by {
        if x != id {
            assert(m.data.contains_key(x));
        }
    }
}

/// A model with the entries, contents and nodes of a well-formed one, each
/// node keeping its type, is well formed.
pub proof fn lemma_wf_same_shape(m: TreeModel, n: TreeModel)
    requires
        m.wf(),
        n.entries == m.entries,
        n.data == m.data,
        n.attrs.dom() == m.attrs.dom(),
        forall|id: u32| #[trigger] m.attrs.contains_key(id) ==> n.attrs[id].0 & MODE_TYPE == m.attrs[id].0 & MODE_TYPE,
    ensures
        n.wf(),
{
    assert(n.attrs[ROOT_ID].0 & MODE_TYPE == m.attrs[ROOT_ID].0 & MODE_TYPE);
    assert forall|id: u32| #[trigger] n.attrs.contains_key(id) && !is_dir_mode(n.attrs[id].0) implies n.data.contains_key(id) by {
        assert(m.attrs.contains_key(id));
        assert(n.attrs[id].0 & MODE_TYPE == m.attrs[id].0 & MODE_TYPE);
    }
    assert forall|k: (u32, Seq<u8>)| #[trigger] n.entries.contains_key(k) implies n.attrs.contains_key(k.0)
        && n.attrs.contains_key(n.entries[k]) by {
        assert(m.attrs.contains_key(k.0));
        assert(m.attrs.dom().contains(k.0));
        assert(m.attrs.dom().contains(m.entries[k]));
    }
    assert forall|x: u32| #[trigger] n.data.contains_key(x) implies n.attrs.contains_key(x) by {
        assert(m.attrs.dom().contains(x));
    }
}

/// Walking a concatenation walks its parts in turn.
pub proof fn lemma_walk_concat(m: TreeModel, r: u32, a: Seq<Seq<u8>>, b: Seq<Seq<u8>>)
    ensures
        m.walk(r, a + b) == match m.walk(r, a) {
            Some(c) => m.walk(c, b),
            None => None,
        },
    decreases a.len(),
{
    if a.len() > 0 {
        assert((a + b).skip(1) =~= a.skip(1) + b);
        assert((a + b)[0] == a[0]);
        if a[0] == dotdot() {
            lemma_walk_concat(m, r, a.skip(1), b);
        } else if m.entries.contains_key((r, a[0])) {
            let c = m.entries[(r, a[0])];
            if is_symlink_mode(m.attrs[c].0) {
                match m.target_walk(link_start(m.data[c], r), components(m.data[c])) {
                    Some(d) => lemma_walk_concat(m, d, a.skip(1), b),
                    None => {},
                }
            } else if is_dir_mode(m.attrs[c].0) {
                lemma_walk_concat(m, c, a.skip(1), b);
            }
        }
    } else {
        assert(a + b =~= b);
    }
}

/// Following a concatenation of target names follows its parts in turn.
pub proof fn lemma_target_walk_concat(m: TreeModel, r: u32, a: Seq<Seq<u8>>, b: Seq<Seq<u8>>)
    ensures
        m.target_walk(r, a + b) == match m.target_walk(r, a) {
            Some(c) => m.target_walk(c, b),
            None => None,
        },
    decreases a.len(),
{
    if a.len() > 0 {
        assert((a + b).skip(1) =~= a.skip(1) + b);
        assert((a + b)[0] == a[0]);
        if a[0] != dotdot() && m.entries.contains_key((r, a[0])) && is_dir_mode(m.attrs[m.entries[(r, a[0])]].0) {
            lemma_target_walk_concat(m, m.entries[(r, a[0])], a.skip(1), b);
        }
    } else {
        assert(a + b =~= b);
    }
}

/// Following a target's names one more step.
pub proof fn lemma_target_walk_push(m: TreeModel, r: u32, a: Seq<Seq<u8>>, x: Seq<u8>)
    ensures
        m.target_walk(r, a.push(x)) == match m.target_walk(r, a) {
            Some(c) => m.target_walk(c, seq![x]),
            None => None,
        },
    decreases a.len(),
{
    if a.len() > 0 {
        assert(a.push(x).skip(1) =~= a.skip(1).push(x));
        assert(a.push(x)[0] == a[0]);
        if a[0] != dotdot() && m.entries.contains_key((r, a[0])) && is_dir_mode(m.attrs[m.entries[(r, a[0])]].0) {
            lemma_target_walk_push(m, m.entries[(r, a[0])], a.skip(1), x);
        }
    } else {
        assert(a.push(x) =~= seq![x]);
    }
}

/// A target walk that succeeds still does, with the same result, in a model
/// that keeps the entries and the nodes' types.
pub proof fn lemma_target_walk_kept(m: TreeModel, n: TreeModel, r: u32, a: Seq<Seq<u8>>)
    requires
        m.wf(),
        m.keeps(n) || m.keeps_shape(n) || m.keeps_tree(n),
        m.target_walk(r, a) is Some,
    ensures
        n.target_walk(r, a) == m.target_walk(r, a),
    decreases a.len(),
{
    if a.len() > 0 {
        let c = m.entries[(r, a[0])];
        assert(m.attrs.contains_key(c));
        assert(is_dir_mode(n.attrs[c].0) == is_dir_mode(m.attrs[c].0));
        lemma_target_walk_kept(m, n, c, a.skip(1));
    }
}

/// A walk that succeeds still does, with the same result, in a model that
/// keeps the entries, the nodes' types and the contents.
pub proof fn lemma_walk_kept(m: TreeModel, n: TreeModel, r: u32, a: Seq<Seq<u8>>)
    requires
        m.wf(),
        m.keeps(n) || m.keeps_shape(n) || m.keeps_tree(n),
        m.walk(r, a) is Some,
    ensures
        n.walk(r, a) == m.walk(r, a),
    decreases a.len(),
{
    if a.len() > 0 {
        if a[0] == dotdot() {
            lemma_walk_kept(m, n, r, a.skip(1));
        } else {
            let c = m.entries[(r, a[0])];
            assert(m.attrs.contains_key(c));
            assert(is_dir_mode(n.attrs[c].0) == is_dir_mode(m.attrs[c].0));
            assert(is_symlink_mode(n.attrs[c].0) == is_symlink_mode(m.attrs[c].0));
            if is_symlink_mode(m.attrs[c].0) {
                assert(!is_dir_mode(m.attrs[c].0)) by {
                    let t = m.attrs[c].0;
                    assert(t & 0xF000u16 == 0xA000u16 ==> !(t & 0xF000u16 == 0x4000u16)) by (bit_vector);
                }
                assert(m.data.contains_key(c));
                assert(m.attrs[c].0 & MODE_TYPE != MODE_FILE) by {
                    let t = m.attrs[c].0;
                    assert(t & 0xF000u16 == 0xA000u16 ==> t & 0xF000u16 != 0x8000u16) by (bit_vector);
                }
                let d = m.target_walk(link_start(m.data[c], r), components(m.data[c]))->Some_0;
                lemma_target_walk_kept(m, n, link_start(m.data[c], r), components(m.data[c]));
                lemma_walk_kept(m, n, d, a.skip(1));
            } else {
                lemma_walk_kept(m, n, c, a.skip(1));
            }
        }
    }
}

/// No entry lies in directory `c`.
pub open spec fn no_children(m: TreeModel, c: u32) -> bool {
    forall|k: (u32, Seq<u8>)| #[trigger] m.entries.contains_key(k) ==> k.0 != c
}

proof fn lemma_fresh_path(m: TreeModel, c: u32, path: Seq<Seq<u8>>)
    requires
        no_children(m, c),
    ensures
        m.missing_count(c, path) == name_count(path),
        m.no_symlink_on(c, path),
    decreases path.len(),
{
    if path.len() > 0 {
        lemma_fresh_path(m, c, path.skip(1));
        if path[0] != dotdot() {
            assert(!m.entries.contains_key((c, path[0])));
        }
    }
}

pub proof fn lemma_lookup_push(m: TreeModel, r: u32, a: Seq<Seq<u8>>, x: Seq<u8>)
    ensures
        m.lookup(r, a.push(x)) == match m.lookup(r, a) {
            Some(c) => m.lookup(c, seq![x]),
            None => None,
        },
    decreases a.len(),
{
    if a.len() > 0 {
        assert(a.push(x).skip(1) =~= a.skip(1).push(x));
        assert(a.push(x)[0] == a[0]);
        if a[0] == dotdot() {
            lemma_lookup_push(m, r, a.skip(1), x);
        } else if m.entries.contains_key((r, a[0])) {
            lemma_lookup_push(m, m.entries[(r, a[0])], a.skip(1), x);
        }
    } else {
        assert(a.push(x) =~= seq![x]);
    }
}

proof fn lemma_no_symlink_push(m: TreeModel, r: u32, a: Seq<Seq<u8>>, x: Seq<u8>)
    requires
        m.no_symlink_on(r, a),
        m.lookup(r, a) is Some ==> m.no_symlink_on(m.lookup(r, a)->Some_0, seq![x]),
    ensures
        m.no_symlink_on(r, a.push(x)),
    decreases a.len(),
{
    if a.len() > 0 {
        assert(a.push(x).skip(1) =~= a.skip(1).push(x));
        assert(a.push(x)[0] == a[0]);
        if a[0] == dotdot() {
            lemma_no_symlink_push(m, r, a.skip(1), x);
        } else if m.entries.contains_key((r, a[0])) {
            lemma_no_symlink_push(m, m.entries[(r, a[0])], a.skip(1), x);
        }
    } else {
        assert(a.push(x) =~= seq![x]);
    }
}

proof fn lemma_no_symlink_grows(m: TreeModel, n: TreeModel, r: u32, a: Seq<Seq<u8>>)
    requires
        m.wf(),
        m.grows_by_dirs(n),
        m.lookup(r, a) is Some,
        m.no_symlink_on(r, a),
    ensures
        n.no_symlink_on(r, a),
    decreases a.len(),
{
    if a.len() > 0 {
        if a[0] == dotdot() {
            lemma_no_symlink_grows(m, n, r, a.skip(1));
        } else {
            let c = m.entries[(r, a[0])];
            assert(m.attrs.contains_key(c));
            assert(n.attrs[c] == m.attrs[c]);
            lemma_no_symlink_grows(m, n, c, a.skip(1));
        }
    }
}

proof fn lemma_lookup_grows(m: TreeModel, n: TreeModel, r: u32, a: Seq<Seq<u8>>)
    requires
        m.grows_by_dirs(n),
        m.lookup(r, a) is Some,
    ensures
        n.lookup(r, a) == m.lookup(r, a),
    decreases a.len(),
{
    if a.len() > 0 {
        if a[0] == dotdot() {
            lemma_lookup_grows(m, n, r, a.skip(1));
        } else {
            lemma_lookup_grows(m, n, m.entries[(r, a[0])], a.skip(1));
        }
    }
}

proof fn lemma_grows_trans(a: TreeModel, b: TreeModel, c: TreeModel)
    requires
        a.grows_by_dirs(b),
        b.grows_by_dirs(c),
    ensures
        a.grows_by_dirs(c),
{
    assert forall|id: u32| #[trigger] c.attrs.contains_key(id) && !a.attrs.contains_key(id) implies c.attrs[id]
        == (DEFAULT_DIR_MODE, 0u32, 0u32) by {
        if b.attrs.contains_key(id) {
            assert(b.attrs[id] == (DEFAULT_DIR_MODE, 0u32, 0u32));
        }
    }
}

/// The name `..`.
pub open spec fn dotdot() -> Seq<u8> {
    seq![DOT, DOT]
}

/// Whether a piece between slashes names something: it is not empty and
/// not `.`.
pub open spec fn names_something(piece: Seq<u8>) -> bool {
    piece.len() > 0 && piece != seq![DOT]
}

/// The pieces of `s` between slashes that name something, and the piece
/// after the last slash.
pub open spec fn split_pieces(s: Seq<u8>) -> (Seq<Seq<u8>>, Seq<u8>)
    decreases s.len(),
{
    if s.len() == 0 {
        (Seq::empty(), Seq::empty())
    } else {
        let (done, cur) = split_pieces(s.drop_last());
        if s.last() == SLASH {
            (if names_something(cur) { done.push(cur) } else { done }, Seq::empty())
        } else {
            (done, cur.push(s.last()))
        }
    }
}

/// The names of a slash-separated path, empty pieces and `.` left out.
pub open spec fn components(s: Seq<u8>) -> Seq<Seq<u8>> {
    let (done, cur) = split_pieces(s);
    if names_something(cur) {
        done.push(cur)
    } else {
        done
    }
}

fn names_something_exec(piece: &Vec<u8>) -> (r: bool)
    ensures
        r == names_something(piece@),
{
    if piece.len() == 0 {
        return false;
    }
    if piece.len() == 1 && piece[0] == DOT {
        assert(piece@ =~= seq![DOT]);
        return false;
    }
    proof {
        if piece@ == seq![DOT] {
            assert(piece@.len() == 1);
        }
    }
    true
}

/// The names of a slash-separated path, empty pieces and `.` left out.
pub fn path_components(path: &Vec<u8>) -> (r: Vec<Vec<u8>>)
    ensures
        r@.map_values(|v: Vec<u8>| v@) == components(path@),
{
    let mut done: Vec<Vec<u8>> = Vec::new();
    let mut cur: Vec<u8> = Vec::new();
    let mut i: usize = 0;
    while i < path.len()
        invariant
            i <= path@.len(),
            (done@.map_values(|v: Vec<u8>| v@), cur@) == split_pieces(path@.take(i as int)),
        decreases path@.len() - i,
    {
        proof {
            assert(path@.take(i + 1).drop_last() =~= path@.take(i as int));
        }
        let b = path[i];
        if b == SLASH {
            if names_something_exec(&cur) {
                let piece = cur;
                done.push(piece);
                proof {
                    assert(done@.map_values(|v: Vec<u8>| v@) =~= split_pieces(
                        path@.take(i as int),
                    ).0.push(piece@));
                }
            }
            cur = Vec::new();
        } else {
            cur.push(b);
        }
        i = i + 1;
        proof {
            assert(split_pieces(path@.take(i as int)).1 =~= cur@);
        }
    }
    proof {
        assert(path@.take(i as int) =~= path@);
    }
    if names_something_exec(&cur) {
        let ghost before = done@;
        done.push(cur);
        proof {
            assert(done@.map_values(|v: Vec<u8>| v@) =~= before.map_values(|v: Vec<u8>| v@).push(
                split_pieces(path@).1,
            ));
        }
    }
    done
}

fn good_name_exec(name: &Vec<u8>) -> (r: bool)
    ensures
        r == good_name(name@),
{
    if name.len() == 0 {
        return false;
    }
    let mut i: usize = 0;
    while i < name.len()
        invariant
            i <= name@.len(),
            forall|j: int| 0 <= j < i ==> name@[j] != 0u8,
        decreases name@.len() - i,
    {
        if name[i] == 0u8 {
            assert(name@[i as int] == 0u8);
            return false;
        }
        i = i + 1;
    }
    true
}

fn is_dotdot(name: &Vec<u8>) -> (r: bool)
    ensures
        r == (name@ == dotdot()),
{
    if name.len() == 2 && name[0] == DOT && name[1] == DOT {
        assert(name@ =~= dotdot());
        true
    } else {
        false
    }
}

/// A session on the target filesystem. Every change is committed as it is
/// made.
pub struct TreeSession {
    pub fs: TargetFs,
    /// Time stamp given to what the session creates.
    pub ctime: u64,
    pub ctime_nsec: u32,
}

impl TreeSession {
    /// What the filesystem holds.
    pub open spec fn model(&self) -> TreeModel {
        TreeModel { entries: fs_entries(self.fs), attrs: fs_attrs(self.fs), data: fs_data(self.fs) }
    }

    /// Formats a new filesystem over `image`, encrypted when a password is
    /// given, and opens a session on it.
    pub fn create(image: Vec<u8>, password: Option<Vec<u8>>, ctime: u64, ctime_nsec: u32) -> (r: Result<TreeSession, TreeError>)
        ensures
            r is Ok ==> r->Ok_0.model().wf(),
            r is Ok ==> fresh_tree(r->Ok_0.model().entries, r->Ok_0.model().attrs, r->Ok_0.model().data),
            r is Ok ==> r->Ok_0.ctime == ctime && r->Ok_0.ctime_nsec == ctime_nsec,
    {
        assert(is_dir_mode(ROOT_MODE)) by (bit_vector);
        match fs_create(image, password, ctime, ctime_nsec) {
            Ok(fs) => Ok(TreeSession { fs, ctime, ctime_nsec }),
            Err(e) => Err(tree_error(e)),
        }
    }

    /// Ends the session and gives back the image bytes.
    pub fn into_image(self) -> Vec<u8> {
        fs_into_image(self.fs)
    }

    /// Walks `parents` from the root and gives the directory reached. A name
    /// that is missing becomes a directory with mode 0755 owned by root; a
    /// symlink met on the way is followed, from the root when its target is
    /// absolute, making what its target names the same way; `..` in the
    /// path is passed over, and in a symlink target is an error. When no
    /// symlink lies on the way, the walk ends where `parents` leads and it
    /// makes exactly as many directories as names of `parents` were missing.
    pub fn ensure_parent_dirs(&mut self, parents: &Vec<Vec<u8>>) -> (r: Result<u32, TreeError>)
        requires
            old(self).model().wf(),
        ensures
            final(self).ctime == old(self).ctime && final(self).ctime_nsec == old(self).ctime_nsec,
            final(self).model().wf(),
            old(self).model().grows_by_dirs(final(self).model()),
            parents@.len() == 0 ==> r == Ok::<u32, TreeError>(ROOT_ID) && final(self).model() == old(self).model(),
            (forall|j: int| 0 <= j < parents@.len() ==> #[trigger] parents@[j]@ == dotdot()) ==> r == Ok::<u32, TreeError>(
                ROOT_ID,
            ) && final(self).model() == old(self).model(),
            r != Err::<u32, TreeError>(TreeError::NoFileName),
            r is Ok ==> final(self).model().walk(ROOT_ID, parents@.map_values(|v: Vec<u8>| v@)) == Some(r->Ok_0),
            r is Ok && old(self).model().walk(ROOT_ID, parents@.map_values(|v: Vec<u8>| v@)) is Some
                ==> final(self).model() == old(self).model(),
            r is Ok && old(self).model().walk(ROOT_ID, parents@.map_values(|v: Vec<u8>| v@)) is None
                ==> no_children(final(self).model(), r->Ok_0),
            r == Err::<u32, TreeError>(TreeError::UnsupportedParentLink) ==> !old(self).model().no_symlink_on(
                ROOT_ID,
                parents@.map_values(|v: Vec<u8>| v@),
            ),
            r is Ok ==> final(self).model().attrs.contains_key(r->Ok_0),
            r is Ok ==> is_dir_mode(final(self).model().attrs[r->Ok_0].0),
            r is Ok && old(self).model().no_symlink_on(ROOT_ID, parents@.map_values(|v: Vec<u8>| v@))
                ==> final(self).model().lookup(ROOT_ID, parents@.map_values(|v: Vec<u8>| v@)) == Some(
                r->Ok_0,
            ),
            r is Ok && old(self).model().no_symlink_on(ROOT_ID, parents@.map_values(|v: Vec<u8>| v@))
                ==> final(self).model().no_symlink_on(ROOT_ID, parents@.map_values(|v: Vec<u8>| v@)),
            r is Ok && old(self).model().no_symlink_on(ROOT_ID, parents@.map_values(|v: Vec<u8>| v@))
                ==> final(self).model().attrs.dom().len() == old(self).model().attrs.dom().len()
                + old(self).model().missing_count(ROOT_ID, parents@.map_values(|v: Vec<u8>| v@)),
            r is Ok && old(self).model().no_symlink_on(ROOT_ID, parents@.map_values(|v: Vec<u8>| v@))
                && old(self).model().missing_count(ROOT_ID, parents@.map_values(|v: Vec<u8>| v@)) == 0
                ==> final(self).model() == old(self).model(),
            r is Ok && old(self).model().no_symlink_on(ROOT_ID, parents@.map_values(|v: Vec<u8>| v@))
                && old(self).model().missing_count(ROOT_ID, parents@.map_values(|v: Vec<u8>| v@)) > 0
                ==> no_children(final(self).model(), r->Ok_0),
    {
        let ghost comps = parents@.map_values(|v: Vec<u8>| v@);
        let ghost m0 = self.model();
        let ghost plain = m0.no_symlink_on(ROOT_ID, comps);
        let mut cur: u32 = ROOT_ID;
        let mut i: usize = 0;
        proof {
            assert(comps.skip(0) =~= comps);
            assert(comps.take(0) =~= Seq::<Seq<u8>>::empty());
        }
        while i < parents.len()
            invariant
                i <= parents@.len(),
                comps == parents@.map_values(|v: Vec<u8>| v@),
                self.ctime == old(self).ctime && self.ctime_nsec == old(self).ctime_nsec,
                m0 == old(self).model(),
                plain == m0.no_symlink_on(ROOT_ID, comps),
                self.model().wf(),
                m0.grows_by_dirs(self.model()),
                self.model().attrs.contains_key(cur),
                is_dir_mode(self.model().attrs[cur].0),
                plain ==> self.model().lookup(ROOT_ID, comps.take(i as int)) == Some(cur),
                plain ==> self.model().no_symlink_on(ROOT_ID, comps.take(i as int)),
                plain ==> self.model().no_symlink_on(cur, comps.skip(i as int)),
                plain ==> self.model().attrs.dom().len() + self.model().missing_count(cur, comps.skip(i as int))
                    == m0.attrs.dom().len() + m0.missing_count(ROOT_ID, comps),
                plain && m0.missing_count(ROOT_ID, comps) == 0 ==> self.model() == m0,
                plain && self.model().attrs.dom().len() > m0.attrs.dom().len() ==> no_children(self.model(), cur),
                parents@.len() == 0 ==> self.model() == m0 && cur == ROOT_ID,
                (forall|j: int| 0 <= j < i ==> #[trigger] parents@[j]@ == dotdot()) ==> self.model() == m0 && cur == ROOT_ID,
                self.model().walk(ROOT_ID, comps.take(i as int)) == Some(cur),
                self.model().attrs.dom().len() >= m0.attrs.dom().len(),
                self.model().attrs.dom().len() == m0.attrs.dom().len() ==> self.model() == m0,
                self.model().attrs.dom().len() > m0.attrs.dom().len() ==> no_children(self.model(), cur),
                m0.walk(ROOT_ID, comps) is Some ==> self.model() == m0,
            decreases parents@.len() - i,
        {
            let ghost m = self.model();
            let ghost rest = comps.skip(i as int);
            proof {
                assert(comps =~= comps.take(i as int) + comps.skip(i as int));
                lemma_walk_concat(m0, ROOT_ID, comps.take(i as int), comps.skip(i as int));
                lemma_walk_concat(m, ROOT_ID, comps.take(i as int), seq![comps[i as int]]);
                assert(comps.take(i as int) + seq![comps[i as int]] =~= comps.take(i + 1));
                assert(rest[0] == comps[i as int]);
                assert(rest.skip(1) =~= comps.skip(i + 1));
                assert(comps.take(i + 1) =~= comps.take(i as int).push(comps[i as int]));
                lemma_lookup_push(m, ROOT_ID, comps.take(i as int), comps[i as int]);
                assert(seq![comps[i as int]].skip(1) =~= Seq::<Seq<u8>>::empty());
            }
            let name = &parents[i];
            proof {
                assert(name@ == comps[i as int]);
            }
            if is_dotdot(name) {
                proof {
                    let one = seq![comps[i as int]];
                    assert(one[0] == dotdot());
                    assert(m.walk(cur, one) == m.walk(cur, one.skip(1)));
                    assert(m.lookup(cur, one) == m.lookup(cur, one.skip(1)));
                    assert(m.no_symlink_on(cur, one) == m.no_symlink_on(cur, one.skip(1)));
                    if plain {
                        lemma_no_symlink_push(m, ROOT_ID, comps.take(i as int), comps[i as int]);
                    }
                }
                i = i + 1;
            } else {
                proof {
                    if plain && m0.missing_count(ROOT_ID, comps) == 0 && !m.entries.contains_key((cur, name@)) {
                        assert(rest[0] == name@);
                        assert(m.missing_count(cur, rest) >= 1);
                    }
                }
                proof {
                    if plain && m.attrs.dom().len() > m0.attrs.dom().len() {
                        assert(!m.entries.contains_key((cur, name@)));
                    }
                }
                let found = self.find_or_create_dir(cur, name);
                proof {
                    lemma_grows_trans(m0, m, self.model());
                    vstd::set_lib::lemma_len_subset(m.attrs.dom(), self.model().attrs.dom());
                }
                let info = match found {
                    Ok(info) => info,
                    Err(e) => return Err(e),
                };
                let ghost m1 = self.model();
                proof {
                    assert(m.keeps(m1));
                    lemma_walk_kept(m, m1, ROOT_ID, comps.take(i as int));
                    lemma_walk_concat(m1, ROOT_ID, comps.take(i as int), seq![comps[i as int]]);
                    if m.entries.contains_key((cur, name@)) {
                        assert(m1 == m);
                    } else {
                        assert(m1.attrs.dom().len() == m.attrs.dom().len() + 1);
                    }
                    if m0.walk(ROOT_ID, comps) is Some {
                        assert(m.walk(cur, rest) is Some);
                        assert(m.entries.contains_key((cur, name@)));
                    }
                    if plain {
                        lemma_lookup_grows(m, m1, ROOT_ID, comps.take(i as int));
                        lemma_no_symlink_grows(m, m1, ROOT_ID, comps.take(i as int));
                        if !m.entries.contains_key((cur, name@)) {
                            lemma_fresh_path(m1, info.id, comps.skip(i + 1));
                            assert(m1.attrs.dom().len() == m.attrs.dom().len() + 1);
                            assert(!is_symlink_mode(DEFAULT_DIR_MODE)) by (bit_vector);
                        }
                        let one = seq![comps[i as int]];
                        assert(one[0] == comps[i as int]);
                        assert(m1.entries.contains_key((cur, one[0])));
                        assert(m1.lookup(cur, one) == m1.lookup(info.id, one.skip(1)));
                        assert(m1.no_symlink_on(info.id, one.skip(1)));
                        assert(m1.no_symlink_on(cur, one) == (!is_symlink_mode(m1.attrs[info.id].0)
                            && m1.no_symlink_on(info.id, one.skip(1))));
                        lemma_lookup_push(m1, ROOT_ID, comps.take(i as int), comps[i as int]);
                        lemma_no_symlink_push(m1, ROOT_ID, comps.take(i as int), comps[i as int]);
                    }
                }
                if info.mode & MODE_TYPE == MODE_SYMLINK {
                    proof {
                        if plain {
                            if !m.entries.contains_key((cur, name@)) {
                                assert(!is_symlink_mode(DEFAULT_DIR_MODE)) by (bit_vector);
                            }
                            assert(rest[0] == name@);
                            assert(m.entries.contains_key((cur, name@)));
                            assert(is_symlink_mode(m1.attrs[info.id].0));
                            assert(false);
                        }
                    }
                    proof {
                        assert(m.entries.contains_key((cur, name@)));
                        assert(m1 == m);
                        assert(m.attrs.dom().len() == m0.attrs.dom().len());
                        assert(!is_dir_mode(info.mode)) by {
                            let t = info.mode;
                            assert(t & 0xF000u16 == 0xA000u16 ==> !(t & 0xF000u16 == 0x4000u16)) by (bit_vector);
                        }
                    }
                    let followed = self.follow_symlink(cur, info);
                    proof {
                        lemma_grows_trans(m0, m1, self.model());
                        vstd::set_lib::lemma_len_subset(m1.attrs.dom(), self.model().attrs.dom());
                    }
                    cur = match followed {
                        Ok(d) => d,
                        Err(e) => return Err(e),
                    };
                    proof {
                        let m2 = self.model();
                        let one = seq![comps[i as int]];
                        assert(one[0] == comps[i as int]);
                        assert(one.skip(1) =~= Seq::<Seq<u8>>::empty());
                        lemma_walk_kept(m1, m2, ROOT_ID, comps.take(i as int));
                        lemma_walk_concat(m2, ROOT_ID, comps.take(i as int), one);
                        assert(m2.data[info.id] == m1.data[info.id]);
                        assert(is_symlink_mode(m2.attrs[info.id].0));
                        assert(m2.walk(cur, one.skip(1)) == Some(cur));
                    }
                } else if info.mode & MODE_TYPE != MODE_DIR {
                    return Err(TreeError::NotADirectory);
                } else {
                    proof {
                        let one = seq![comps[i as int]];
                        assert(one[0] == comps[i as int]);
                        assert(one.skip(1) =~= Seq::<Seq<u8>>::empty());
                        assert(!is_symlink_mode(info.mode));
                        assert(m1.walk(cur, one) == m1.walk(info.id, one.skip(1)));
                    }
                    cur = info.id;
                }
                i = i + 1;
            }
        }
        proof {
            assert(comps.take(i as int) =~= comps);
        }
        Ok(cur)
    }

    /// Follows the symlink `link`, found in directory `cur`, and gives the
    /// directory its target names, made where missing: each name of the
    /// target must be, or becomes, a directory; a `..` in it is refused.
    fn follow_symlink(&mut self, cur: u32, link: NodeInfo) -> (r: Result<u32, TreeError>)
        requires
            old(self).model().wf(),
            old(self).model().attrs.contains_key(cur),
            is_dir_mode(old(self).model().attrs[cur].0),
            old(self).model().data.contains_key(link.id),
            old(self).model().data[link.id].len() == link.size,
        ensures
            final(self).ctime == old(self).ctime && final(self).ctime_nsec == old(self).ctime_nsec,
            final(self).model().wf(),
            old(self).model().grows_by_dirs(final(self).model()),
            final(self).model().attrs.dom().len() >= old(self).model().attrs.dom().len(),
            final(self).model().attrs.dom().len() == old(self).model().attrs.dom().len() ==> final(self).model()
                == old(self).model(),
            r != Err::<u32, TreeError>(TreeError::NoFileName),
            r == Err::<u32, TreeError>(TreeError::UnsupportedParentLink) ==> components(
                old(self).model().data[link.id],
            ).contains(dotdot()),
            r is Ok ==> final(self).model().attrs.contains_key(r->Ok_0),
            r is Ok ==> is_dir_mode(final(self).model().attrs[r->Ok_0].0),
            r is Ok ==> final(self).model().target_walk(
                link_start(old(self).model().data[link.id], cur),
                components(old(self).model().data[link.id]),
            ) == Some(r->Ok_0),
            r is Ok && final(self).model().attrs.dom().len() > old(self).model().attrs.dom().len() ==> no_children(
                final(self).model(),
                r->Ok_0,
            ),
            old(self).model().target_walk(
                link_start(old(self).model().data[link.id], cur),
                components(old(self).model().data[link.id]),
            ) is Some ==> final(self).model() == old(self).model(),
    {
        let ghost m0 = self.model();
        let ghost t = m0.data[link.id];
        if link.size > usize::MAX as u64 {
            // A target longer than memory can hold cannot be followed.
            return Err(TreeError::Io(27));
        }
        let len = link.size as usize;
        let target = match fs_read(&mut self.fs, link.id, 0, len) {
            Ok(t) => t,
            Err(e) => return Err(tree_error(e)),
        };
        proof {
            assert(target@ =~= t);
        }
        let mut at = if target.len() > 0 && target[0] == SLASH {
            ROOT_ID
        } else {
            cur
        };
        let ghost start = at;
        let parts = path_components(&target);
        let ghost ps = parts@.map_values(|v: Vec<u8>| v@);
        let mut i: usize = 0;
        proof {
            assert(ps.take(0) =~= Seq::<Seq<u8>>::empty());
            assert(start == link_start(t, cur));
        }
        while i < parts.len()
            invariant
                i <= parts@.len(),
                ps == parts@.map_values(|v: Vec<u8>| v@),
                ps == components(t),
                start == link_start(t, cur),
                t == m0.data[link.id],
                self.ctime == old(self).ctime && self.ctime_nsec == old(self).ctime_nsec,
                m0 == old(self).model(),
                self.model().wf(),
                m0.grows_by_dirs(self.model()),
                self.model().attrs.contains_key(at),
                is_dir_mode(self.model().attrs[at].0),
                self.model().target_walk(start, ps.take(i as int)) == Some(at),
                self.model().attrs.dom().len() >= m0.attrs.dom().len(),
                self.model().attrs.dom().len() == m0.attrs.dom().len() ==> self.model() == m0,
                self.model().attrs.dom().len() > m0.attrs.dom().len() ==> no_children(self.model(), at),
                m0.target_walk(start, ps) is Some ==> self.model() == m0,
            decreases parts@.len() - i,
        {
            let ghost m = self.model();
            proof {
                assert(parts@[i as int]@ == ps[i as int]);
                assert(ps.take(i + 1) =~= ps.take(i as int).push(ps[i as int]));
                assert(ps =~= ps.take(i as int) + ps.skip(i as int));
                lemma_target_walk_concat(m0, start, ps.take(i as int), ps.skip(i as int));
                assert(ps.skip(i as int)[0] == ps[i as int]);
            }
            if is_dotdot(&parts[i]) {
                proof {
                    assert(ps[i as int] == dotdot());
                    assert(ps.contains(dotdot()));
                }
                return Err(TreeError::UnsupportedParentLink);
            }
            let found = self.find_or_create_dir(at, &parts[i]);
            proof {
                lemma_grows_trans(m0, m, self.model());
                vstd::set_lib::lemma_len_subset(m.attrs.dom(), self.model().attrs.dom());
            }
            let info = match found {
                Ok(info) => info,
                Err(e) => return Err(e),
            };
            if info.mode & MODE_TYPE != MODE_DIR {
                return Err(TreeError::NotADirectory);
            }
            proof {
                let m1 = self.model();
                assert(m.keeps(m1));
                lemma_target_walk_kept(m, m1, start, ps.take(i as int));
                lemma_target_walk_push(m1, start, ps.take(i as int), ps[i as int]);
                let one = seq![ps[i as int]];
                assert(one[0] == ps[i as int]);
                assert(one.skip(1) =~= Seq::<Seq<u8>>::empty());
                assert(m1.target_walk(at, one) == m1.target_walk(info.id, one.skip(1)));
                if m.entries.contains_key((at, ps[i as int])) {
                    assert(m1 == m);
                } else {
                    assert(m1.attrs.dom().len() == m.attrs.dom().len() + 1);
                }
            }
            at = info.id;
            i = i + 1;
        }
        proof {
            assert(ps.take(i as int) =~= ps);
        }
        Ok(at)
    }

    /// Makes a node under `parent` named `name` with `attrs`, holding
    /// `content` unless it is a directory.
    fn add_node(&mut self, parent: u32, name: &Vec<u8>, attrs: (u16, u32, u32), content: &Vec<u8>) -> (r: Result<u32, TreeError>)
        requires
            old(self).model().wf(),
            old(self).model().attrs.contains_key(parent),
            is_dir_mode(old(self).model().attrs[parent].0),
            is_dir_mode(attrs.0) ==> content@.len() == 0,
        ensures
            final(self).ctime == old(self).ctime && final(self).ctime_nsec == old(self).ctime_nsec,
            final(self).model().wf(),
            old(self).model().keeps(final(self).model()),
            forall|k: (u32, Seq<u8>)| #[trigger] final(self).model().entries.contains_key(k)
                ==> old(self).model().entries.contains_key(k) || k == (parent, name@),
            r matches Err(e) ==> e is Io || e is InvalidName,
            r is Ok ==> adds_node(old(self).model(), final(self).model(), parent, name@, r->Ok_0, attrs, content@),
    {
        let ghost m0 = self.model();
        if !good_name_exec(name) {
            return Err(TreeError::InvalidName);
        }
        let id = match fs_create_node(&mut self.fs, parent, name, attrs, self.ctime, self.ctime_nsec) {
            Ok(id) => id,
            Err(e) => return Err(tree_error(e)),
        };
        proof {
            lemma_adds_node_wf_keeps(m0, self.model(), parent, name@, id, attrs, Seq::<u8>::empty());
        }
        if attrs.0 & MODE_TYPE != MODE_DIR && content.len() > 0 {
            let ghost m1 = self.model();
            match fs_write(&mut self.fs, id, 0, content, self.ctime, self.ctime_nsec) {
                Ok(()) => {},
                Err(e) => return Err(tree_error(e)),
            }
            proof {
                assert(overwrite(Seq::<u8>::empty(), 0, content@) =~= content@);
                assert(self.model().data =~= m0.data.insert(id, content@));
                lemma_adds_node_wf_keeps(m0, self.model(), parent, name@, id, attrs, content@);
            }
        } else {
            proof {
                if !is_dir_mode(attrs.0) {
                    assert(content@ =~= Seq::<u8>::empty());
                }
            }
        }
        Ok(id)
    }

    /// Creates a regular file under the directory `parent` named `name`, with the
    /// permission bits of `mode`, owned by `uid` and `gid`, holding `content`.
    pub fn create_file(&mut self, parent: u32, name: &Vec<u8>, content: &Vec<u8>, mode: u16, uid: u32, gid: u32) -> (r: Result<u32, TreeError>)
        requires
            old(self).model().wf(),
            old(self).model().attrs.contains_key(parent),
            is_dir_mode(old(self).model().attrs[parent].0),
        ensures
            final(self).ctime == old(self).ctime && final(self).ctime_nsec == old(self).ctime_nsec,
            final(self).model().wf(),
            old(self).model().keeps(final(self).model()),
            r matches Err(e) ==> e is Io || e is InvalidName,
            forall|k: (u32, Seq<u8>)| #[trigger] final(self).model().entries.contains_key(k)
                ==> old(self).model().entries.contains_key(k) || k == (parent, name@),
            r is Ok ==> adds_node(old(self).model(), final(self).model(), parent, name@, r->Ok_0, (MODE_FILE | (mode & MODE_PERM), uid, gid), content@),
    {
        assert(!is_dir_mode(MODE_FILE | (mode & MODE_PERM))) by (bit_vector);
        self.add_node(parent, name, (MODE_FILE | (mode & MODE_PERM), uid, gid), content)
    }

    /// Creates a directory under the directory `parent` named `name`, with the permission
    /// bits of `mode`, owned by `uid` and `gid`.
    pub fn create_directory(&mut self, parent: u32, name: &Vec<u8>, mode: u16, uid: u32, gid: u32) -> (r: Result<u32, TreeError>)
        requires
            old(self).model().wf(),
            old(self).model().attrs.contains_key(parent),
            is_dir_mode(old(self).model().attrs[parent].0),
        ensures
            final(self).ctime == old(self).ctime && final(self).ctime_nsec == old(self).ctime_nsec,
            final(self).model().wf(),
            old(self).model().keeps(final(self).model()),
            r matches Err(e) ==> e is Io || e is InvalidName,
            r is Ok ==> adds_node(old(self).model(), final(self).model(), parent, name@, r->Ok_0, (MODE_DIR | (mode & MODE_PERM), uid, gid), Seq::<u8>::empty()),
    {
        assert(is_dir_mode(MODE_DIR | (mode & MODE_PERM))) by (bit_vector);
        let empty: Vec<u8> = Vec::new();
        self.add_node(parent, name, (MODE_DIR | (mode & MODE_PERM), uid, gid), &empty)
    }

    /// Creates a symlink under the directory `parent` named `name` to `target`, with mode
    /// 0777, owned by `uid` and `gid`.
    pub fn create_symlink(&mut self, parent: u32, name: &Vec<u8>, target: &Vec<u8>, uid: u32, gid: u32) -> (r: Result<u32, TreeError>)
        requires
            old(self).model().wf(),
            old(self).model().attrs.contains_key(parent),
            is_dir_mode(old(self).model().attrs[parent].0),
        ensures
            final(self).ctime == old(self).ctime && final(self).ctime_nsec == old(self).ctime_nsec,
            final(self).model().wf(),
            old(self).model().keeps(final(self).model()),
            r matches Err(e) ==> e is Io || e is InvalidName,
            r is Ok ==> adds_node(old(self).model(), final(self).model(), parent, name@, r->Ok_0, (MODE_SYMLINK | 0o777u16, uid, gid), target@),
    {
        assert(!is_dir_mode(MODE_SYMLINK | 0o777u16)) by (bit_vector);
        self.add_node(parent, name, (MODE_SYMLINK | 0o777u16, uid, gid), target)
    }

    /// Creates a directory, symlink or regular file at `path`, making the
    /// directories above it as `ensure_parent_dirs` does. Where something
    /// already has that name, it is left as it is and its node is given. A
    /// new node is owned by `uid` and `gid`; a directory or file gets the
    /// permission bits of `mode`, a symlink 0777; a new file or symlink holds
    /// `content`. Whatever comes back, everything the filesystem held stays.
    pub fn create_at_path(&mut self, path: &Vec<u8>, is_directory: bool, is_symlink: bool, content: &Vec<u8>, mode: u16, uid: u32, gid: u32) -> (r: Result<u32, TreeError>)
        requires
            old(self).model().wf(),
        ensures
            final(self).ctime == old(self).ctime && final(self).ctime_nsec == old(self).ctime_nsec,
            components(path@).len() == 0 ==> r == Err::<u32, TreeError>(TreeError::NoFileName),
            components(path@).len() > 0 && components(path@).last() == dotdot() ==> r == Err::<u32, TreeError>(TreeError::NoFileName),
            r == Err::<u32, TreeError>(TreeError::NoFileName) ==> components(path@).len() == 0 || components(path@).last() == dotdot(),
            r == Err::<u32, TreeError>(TreeError::UnsupportedParentLink) ==> !old(self).model().no_symlink_on(ROOT_ID, path_parents(path@)),
            final(self).model().wf(),
            old(self).model().keeps(final(self).model()),
            r is Ok ==> final(self).model().attrs.contains_key(r->Ok_0),
            r is Ok ==> final(self).model().resolve(path@) == Some(r->Ok_0),
            r is Ok && old(self).model().resolve(path@) is Some ==> final(self).model() == old(self).model()
                && old(self).model().resolve(path@) == Some(r->Ok_0),
            r is Ok && old(self).model().resolve(path@) is None ==> !old(self).model().attrs.contains_key(r->Ok_0)
                && no_children(final(self).model(), r->Ok_0) && made_as(final(self).model(), r->Ok_0, is_directory, is_symlink, content@, mode, uid, gid),
            r is Ok ==> forall|x: u32| #[trigger] final(self).model().attrs.contains_key(x)
                && !old(self).model().attrs.contains_key(x) && x != r->Ok_0 ==> final(self).model().attrs[x] == (
                DEFAULT_DIR_MODE,
                0u32,
                0u32,
            ),
            r is Ok ==> create_outcome(old(self).model(), final(self).model(), path@, r->Ok_0),
            r is Ok && old(self).model().no_symlink_on(ROOT_ID, path_parents(path@)) && old(self).model().lookup(ROOT_ID, components(path@)) is None
                ==> made_as(final(self).model(), r->Ok_0, is_directory, is_symlink, content@, mode, uid, gid)
                && final(self).model().attrs.dom().len() == old(self).model().attrs.dom().len()
                + old(self).model().missing_count(ROOT_ID, path_parents(path@)) + 1,
    {
        let ghost m0 = self.model();
        let ghost comps = components(path@);
        let mut parents = path_components(path);
        if parents.len() == 0 {
            return Err(TreeError::NoFileName);
        }
        let ghost all = parents@;
        let name = parents.pop().unwrap();
        proof {
            assert(all.map_values(|v: Vec<u8>| v@).last() == name@);
            assert(parents@.map_values(|v: Vec<u8>| v@) =~= comps.drop_last());
            assert(comps =~= comps.drop_last().push(name@));
        }
        if is_dotdot(&name) {
            return Err(TreeError::NoFileName);
        }
        let parent = match self.ensure_parent_dirs(&parents) {
            Ok(p) => p,
            Err(e) => {
                proof {
                    assert(parents@.map_values(|v: Vec<u8>| v@) == path_parents(path@));
                }
                return Err(e);
            },
        };
        let ghost mp = self.model();
        let ghost plain = m0.no_symlink_on(ROOT_ID, comps.drop_last());
        proof {
            lemma_lookup_push(m0, ROOT_ID, comps.drop_last(), name@);
            lemma_lookup_push(mp, ROOT_ID, comps.drop_last(), name@);
            let one = seq![name@];
            assert(one[0] == name@);
            assert(one.skip(1) =~= Seq::<Seq<u8>>::empty());
            if plain && m0.lookup(ROOT_ID, comps) is Some {
                lemma_lookup_some_nothing_missing(m0, ROOT_ID, comps.drop_last());
            }
        }
        proof {
            assert(m0.keeps(mp));
        }
        let found = self.find(parent, &name)?;
        proof {
            assert(path_parents(path@) == comps.drop_last());
            assert(comps.len() > 0 && comps.last() == name@);
            if m0.walk(ROOT_ID, comps.drop_last()) is Some {
                assert(mp == m0);
            }
        }
        if let Some(info) = found {
            proof {
                if plain {
                    assert(mp.lookup(parent, seq![name@]) == mp.lookup(info.id, seq![name@].skip(1)));
                    if m0.lookup(ROOT_ID, comps) is None {
                        if m0.missing_count(ROOT_ID, comps.drop_last()) == 0 {
                            lemma_nothing_missing_lookup_some(m0, ROOT_ID, comps.drop_last());
                            assert(m0.lookup(parent, seq![name@]) == m0.lookup(info.id, seq![name@].skip(1)));
                        } else {
                            assert(no_children(mp, parent));
                        }
                    }
                }
            }
            return Ok(info.id);
        }
        assert(!is_dir_mode(MODE_FILE | (mode & MODE_PERM))) by (bit_vector);
        assert(!is_dir_mode(MODE_SYMLINK | 0o777u16)) by (bit_vector);
        let made = if is_directory {
            self.create_directory(parent, &name, mode, uid, gid)
        } else if is_symlink {
            self.create_symlink(parent, &name, content, uid, gid)
        } else {
            self.create_file(parent, &name, content, mode, uid, gid)
        };
        proof {
            lemma_keeps_trans(m0, mp, self.model());
        }
        let id = match made {
            Ok(id) => id,
            Err(e) => return Err(e),
        };
        proof {
            let m3 = self.model();
            assert(mp.keeps(m3));
            lemma_walk_kept(mp, m3, ROOT_ID, comps.drop_last());
            assert(m3.entries[(parent, name@)] == id);
            assert forall|k: (u32, Seq<u8>)| #[trigger] m3.entries.contains_key(k) implies k.0 != id by {
                if k != (parent, name@) {
                    assert(mp.entries.contains_key(k));
                    assert(mp.attrs.contains_key(k.0));
                }
            }
            assert(!mp.data.contains_key(id));
            assert(mp.keeps(m3));
            assert(m0.keeps(mp));
            lemma_keeps_trans(m0, mp, m3);
            assert(m3.attrs.dom() =~= mp.attrs.dom().insert(id));
            assert(m3.attrs.dom().len() == mp.attrs.dom().len() + 1);
            assert(m3.attrs[id].0 == node_mode(is_directory, is_symlink, mode));
            assert(!is_directory ==> m3.data.contains_key(id) && m3.data[id] == content@);
            if plain {
                lemma_no_symlink_parents_kept(mp, m3, ROOT_ID, comps.drop_last());
                assert(m3.lookup(parent, seq![name@]) == m3.lookup(id, seq![name@].skip(1)));
                lemma_lookup_push(m3, ROOT_ID, comps.drop_last(), name@);
            }
        }
        Ok(id)
    }

    /// Sets the mode and owners of node `id`; its type bits stay.
    pub fn set_attrs(&mut self, id: u32, mode: u16, uid: u32, gid: u32) -> (r: Result<(), TreeError>)
        requires
            old(self).model().wf(),
            old(self).model().attrs.contains_key(id),
            mode & MODE_TYPE == old(self).model().attrs[id].0 & MODE_TYPE,
        ensures
            final(self).ctime == old(self).ctime && final(self).ctime_nsec == old(self).ctime_nsec,
            final(self).model().wf(),
            r is Err ==> final(self).model() == old(self).model(),
            r matches Err(e) ==> e is Io || e is InvalidName,
            r is Ok ==> final(self).model().entries == old(self).model().entries,
            r is Ok ==> final(self).model().data == old(self).model().data,
            r is Ok ==> final(self).model().attrs == old(self).model().attrs.insert(id, (mode, uid, gid)),
    {
        match fs_set_attrs(&mut self.fs, id, mode, uid, gid) {
            Ok(()) => {},
            Err(e) => return Err(tree_error(e)),
        }
        proof {
            let m0 = old(self).model();
            let m1 = self.model();
            assert(m1.attrs.dom() =~= m0.attrs.dom());
            assert forall|k: (u32, Seq<u8>)| #[trigger] m1.entries.contains_key(k) implies m1.attrs.contains_key(k.0)
                && m1.attrs.contains_key(m1.entries[k]) by {
                assert(m0.entries.contains_key(k));
                assert(m0.attrs.contains_key(k.0));
                assert(m0.attrs.contains_key(m0.entries[k]));
            }
            assert forall|x: u32| #[trigger] m1.data.contains_key(x) implies m1.attrs.contains_key(x) by {
                assert(m0.data.contains_key(x));
            }
        }
        Ok(())
    }

    /// The node that `path` leads to from the root, if any; `..` is passed
    /// over.
    pub fn find_node_by_path(&mut self, path: &Vec<u8>) -> (r: Result<Option<NodeInfo>, TreeError>)
        requires
            old(self).model().wf(),
        ensures
            final(self).model() == old(self).model(),
            final(self).ctime == old(self).ctime && final(self).ctime_nsec == old(self).ctime_nsec,
            r matches Ok(Some(info)) ==> old(self).model().lookup(ROOT_ID, components(path@)) == Some(info.id)
                && old(self).model().attrs[info.id] == (info.mode, info.uid, info.gid),
            r matches Ok(None) ==> old(self).model().lookup(ROOT_ID, components(path@)) is None,
    {
        let comps = path_components(path);
        let ghost cs = comps@.map_values(|v: Vec<u8>| v@);
        let ghost m = self.model();
        let mut cur: u32 = ROOT_ID;
        let mut i: usize = 0;
        proof {
            assert(cs.take(0) =~= Seq::<Seq<u8>>::empty());
        }
        while i < comps.len()
            invariant
                i <= comps@.len(),
                cs == comps@.map_values(|v: Vec<u8>| v@),
                cs == components(path@),
                m == old(self).model(),
                self.model() == m,
                m.wf(),
                self.ctime == old(self).ctime && self.ctime_nsec == old(self).ctime_nsec,
                m.lookup(ROOT_ID, cs.take(i as int)) == Some(cur),
                m.attrs.contains_key(cur),
            decreases comps@.len() - i,
        {
            proof {
                assert(cs.take(i + 1) =~= cs.take(i as int).push(cs[i as int]));
                lemma_lookup_push(m, ROOT_ID, cs.take(i as int), cs[i as int]);
                let one = seq![cs[i as int]];
                assert(one[0] == cs[i as int]);
                assert(one.skip(1) =~= Seq::<Seq<u8>>::empty());
                assert(comps@[i as int]@ == cs[i as int]);
            }
            if is_dotdot(&comps[i]) {
                proof {
                    let one = seq![cs[i as int]];
                    assert(m.lookup(cur, one) == m.lookup(cur, one.skip(1)));
                }
            } else {
                match self.find(cur, &comps[i])? {
                    Some(info) => {
                        proof {
                            let one = seq![cs[i as int]];
                            assert(m.lookup(cur, one) == m.lookup(info.id, one.skip(1)));
                        }
                        cur = info.id;
                    },
                    None => {
                        proof {
                            lemma_lookup_concat(m, ROOT_ID, cs.take(i + 1), cs.skip(i + 1));
                            assert(cs.take(i + 1) + cs.skip(i + 1) =~= cs);
                        }
                        return Ok(None);
                    },
                }
            }
            i = i + 1;
        }
        proof {
            assert(cs.take(i as int) =~= cs);
        }
        let info = self.node_info(cur)?;
        Ok(Some(info))
    }

    /// Writes `content` into node `id` from its start, in chunks of 64 KiB,
    /// each committed on its own.
    pub fn write_file_chunked(&mut self, id: u32, content: &Vec<u8>) -> (r: Result<(), TreeError>)
        requires
            old(self).model().wf(),
            old(self).model().data.contains_key(id),
        ensures
            final(self).ctime == old(self).ctime && final(self).ctime_nsec == old(self).ctime_nsec,
            final(self).model().wf(),
            final(self).model().entries == old(self).model().entries,
            final(self).model().attrs == old(self).model().attrs,
            final(self).model().data.dom() == old(self).model().data.dom(),
            forall|x: u32| #[trigger] old(self).model().data.contains_key(x) && x != id ==> final(self).model().data[x]
                == old(self).model().data[x],
            r is Ok ==> final(self).model().data == old(self).model().data.insert(
                id,
                overwrite(old(self).model().data[id], 0, content@),
            ),
            r matches Err(e) ==> e is Io || e is InvalidName,
            r is Err ==> exists|k: int| 0 <= k <= content@.len() && final(self).model().data[id] == overwrite(
                old(self).model().data[id],
                0,
                #[trigger] content@.take(k),
            ),
    {
        let ghost m0 = self.model();
        let ghost d0 = m0.data[id];
        let n = content.len();
        let mut off: usize = 0;
        proof {
            assert(overwrite(d0, 0, content@.take(0)) =~= d0) by {
                if d0.len() > 0 {
                    assert(d0.subrange(0, 0) + content@.take(0) + d0.subrange(0, d0.len() as int) =~= d0);
                }
            }
            assert(m0.data.insert(id, d0) =~= m0.data);
        }
        while off < n
            invariant
                off <= n,
                n == content@.len(),
                m0 == old(self).model(),
                d0 == m0.data[id],
                m0.data.contains_key(id),
                self.ctime == old(self).ctime && self.ctime_nsec == old(self).ctime_nsec,
                self.model().wf(),
                self.model().entries == m0.entries,
                self.model().attrs == m0.attrs,
                self.model().data == m0.data.insert(id, overwrite(d0, 0, content@.take(off as int))),
                self.model().data.dom() == m0.data.dom(),
            decreases n - off,
        {
            let end = if n - off > CHUNK_SIZE {
                off + CHUNK_SIZE
            } else {
                n
            };
            let chunk = vstd::slice::slice_to_vec(vstd::slice::slice_subrange(content.as_slice(), off, end));
            let ghost cur = self.model().data[id];
            proof {
                assert(cur.len() >= off);
            }
            match fs_write(&mut self.fs, id, off as u64, &chunk, self.ctime, self.ctime_nsec) {
                Ok(()) => {},
                Err(e) => {
                    proof {
                        assert(self.model().data[id] == overwrite(d0, 0, content@.take(off as int)));
                    }
                    return Err(tree_error(e));
                },
            }
            proof {
                assert(overwrite(cur, off as int, chunk@) =~= overwrite(d0, 0, content@.take(end as int)));
                assert(self.model().data =~= m0.data.insert(id, overwrite(d0, 0, content@.take(end as int))));
                assert(self.model().attrs.dom() =~= m0.attrs.dom());
            }
            off = end;
        }
        proof {
            assert(content@.take(n as int) =~= content@);
        }
        Ok(())
    }

    /// Replaces the whole content of node `id`, which is not a directory,
    /// with `content`.
    pub fn rewrite_file(&mut self, id: u32, content: &Vec<u8>) -> (r: Result<(), TreeError>)
        requires
            old(self).model().wf(),
            old(self).model().data.contains_key(id),
        ensures
            final(self).ctime == old(self).ctime && final(self).ctime_nsec == old(self).ctime_nsec,
            final(self).model().wf(),
            final(self).model().entries == old(self).model().entries,
            final(self).model().attrs == old(self).model().attrs,
            final(self).model().data.dom() == old(self).model().data.dom(),
            forall|x: u32| #[trigger] old(self).model().data.contains_key(x) && x != id ==> final(self).model().data[x]
                == old(self).model().data[x],
            r matches Err(e) ==> e is Io || e is InvalidName,
            r is Ok ==> final(self).model().data[id] == content@,
    {
        let ghost m0 = self.model();
        match fs_truncate(&mut self.fs, id, self.ctime, self.ctime_nsec) {
            Ok(()) => {},
            Err(e) => return Err(tree_error(e)),
        }
        proof {
            let m1 = self.model();
            assert(m1.data.dom() =~= m0.data.dom());
            assert forall|x: u32| #[trigger] m1.data.contains_key(x) implies m1.attrs.contains_key(x) by {
                assert(m0.data.contains_key(x));
            }
        }
        let w = self.write_file_chunked(id, content);
        proof {
            assert(overwrite(Seq::<u8>::empty(), 0, content@) =~= content@);
        }
        match w {
            Ok(()) => Ok(()),
            Err(e) => Err(e),
        }
    }

    /// Up to `len` bytes of the content of node `id` from `offset`.
    pub fn read_node(&mut self, id: u32, offset: u64, len: usize) -> (r: Result<Vec<u8>, TreeError>)
        requires
            old(self).model().data.contains_key(id),
            offset <= old(self).model().data[id].len(),
        ensures
            final(self).model() == old(self).model(),
            final(self).ctime == old(self).ctime && final(self).ctime_nsec == old(self).ctime_nsec,
            r is Ok ==> r->Ok_0@ == old(self).model().data[id].subrange(
                offset as int,
                if offset + len <= old(self).model().data[id].len() {
                    offset + len
                } else {
                    old(self).model().data[id].len() as int
                },
            ),
    {
        match fs_read(&mut self.fs, id, offset, len) {
            Ok(bytes) => Ok(bytes),
            Err(e) => Err(tree_error(e)),
        }
    }

    /// The mode, owners and size of node `id`.
    pub fn node_info(&mut self, id: u32) -> (r: Result<NodeInfo, TreeError>)
        requires
            old(self).model().attrs.contains_key(id),
        ensures
            final(self).model() == old(self).model(),
            final(self).ctime == old(self).ctime && final(self).ctime_nsec == old(self).ctime_nsec,
            r matches Err(e) ==> e is Io || e is InvalidName,
            r matches Ok(info) ==> info.id == id && old(self).model().attrs[id] == (info.mode, info.uid, info.gid)
                && (!is_dir_mode(info.mode) ==> old(self).model().data.contains_key(id)
                && old(self).model().data[id].len() == info.size),
    {
        match fs_stat(&mut self.fs, id) {
            Ok(info) => Ok(info),
            Err(e) => Err(tree_error(e)),
        }
    }

    /// Gives node `root` and every node below it the owners and permission
    /// bits that are given, keeping the type bits; every other node stays as
    /// it is. Each node is committed on its own.
    pub fn apply_owners_recursive(&mut self, root: u32, mode: Option<u16>, uid: Option<u32>, gid: Option<u32>) -> (r: Result<(), TreeError>)
        requires
            old(self).model().wf(),
            old(self).model().attrs.contains_key(root),
        ensures
            final(self).ctime == old(self).ctime && final(self).ctime_nsec == old(self).ctime_nsec,
            final(self).model().wf(),
            final(self).model().entries == old(self).model().entries,
            final(self).model().data == old(self).model().data,
            final(self).model().attrs.dom() == old(self).model().attrs.dom(),
            forall|x: u32| #[trigger] old(self).model().attrs.contains_key(x) ==>
                final(self).model().attrs[x] == old(self).model().attrs[x] || (in_subtree(old(self).model(), root, x)
                && final(self).model().attrs[x] == chowned(old(self).model().attrs[x], mode, uid, gid)),
            old(self).model().keeps_shape(final(self).model()),
            r matches Err(e) ==> e is Io || e is InvalidName,
            r is Ok ==> forall|x: u32| #[trigger] old(self).model().attrs.contains_key(x) ==>
                final(self).model().attrs[x] == if in_subtree(old(self).model(), root, x) {
                    chowned(old(self).model().attrs[x], mode, uid, gid)
                } else {
                    old(self).model().attrs[x]
                },
    {
        broadcast use vstd::std_specs::hash::group_hash_axioms;
        let ghost m0 = self.model();
        let mut visited: std::collections::HashSet<u32> = std::collections::HashSet::new();
        let mut stack: Vec<u32> = Vec::new();
        stack.push(root);
        proof {
            assert(is_chain(m0, root, seq![root]));
            assert(stack@[0] == root);
        }
        while stack.len() > 0
            invariant
                self.ctime == old(self).ctime && self.ctime_nsec == old(self).ctime_nsec,
                m0 == old(self).model(),
                m0.wf(),
                self.model().entries == m0.entries,
                self.model().data == m0.data,
                self.model().attrs.dom() == m0.attrs.dom(),
                visited@.subset_of(m0.attrs.dom()),
                forall|i: int| 0 <= i < stack@.len() ==> m0.attrs.contains_key(#[trigger] stack@[i]),
                forall|i: int| 0 <= i < stack@.len() ==> in_subtree(m0, root, #[trigger] stack@[i]),
                forall|x: u32| #[trigger] visited@.contains(x) ==> in_subtree(m0, root, x),
                visited@.contains(root) || stack@.contains(root),
                forall|y: u32, x: u32| #[trigger] visited@.contains(y) && #[trigger] child_of(m0, y, x)
                    ==> visited@.contains(x) || stack@.contains(x),
                forall|x: u32| #[trigger] m0.attrs.contains_key(x) ==> self.model().attrs[x]
                    == if visited@.contains(x) { chowned(m0.attrs[x], mode, uid, gid) } else { m0.attrs[x] },
                self.model().wf(),
                m0.keeps_shape(self.model()),
            decreases m0.attrs.dom().len() - visited@.len(), stack@.len(),
        {
            let ghost old_stack = stack@;
            let x = stack.pop().unwrap();
            proof {
                vstd::set_lib::lemma_len_subset(visited@, m0.attrs.dom());
                assert(old_stack =~= stack@.push(x));
                assert(old_stack[old_stack.len() - 1] == x);
                assert forall|z: u32| old_stack.contains(z) && z != x implies stack@.contains(z) by {
                    let k = choose|k: int| 0 <= k < old_stack.len() && old_stack[k] == z;
                    assert(stack@[k] == z);
                }
            }
            if visited.contains(&x) {
                continue;
            }
            let info = self.node_info(x)?;
            let new_mode = match mode {
                Some(m) => (info.mode & MODE_TYPE) | (m & MODE_PERM),
                None => info.mode,
            };
            let new_uid = match uid {
                Some(u) => u,
                None => info.uid,
            };
            let new_gid = match gid {
                Some(g) => g,
                None => info.gid,
            };
            proof {
                let t = info.mode;
                if let Some(m) = mode {
                    assert(((t & 0xF000u16) | (m & 0x0FFFu16)) & 0xF000u16 == t & 0xF000u16) by (bit_vector);
                }
                assert(new_mode & MODE_TYPE == info.mode & MODE_TYPE);
            }
            let ghost before_set = self.model();
            match fs_set_attrs(&mut self.fs, x, new_mode, new_uid, new_gid) {
                Ok(()) => {},
                Err(e) => return Err(tree_error(e)),
            }
            proof {
                assert(self.model().attrs.dom() =~= before_set.attrs.dom());
                assert forall|id: u32| #[trigger] before_set.attrs.contains_key(id) implies self.model().attrs[id].0 & MODE_TYPE
                    == before_set.attrs[id].0 & MODE_TYPE by {
                }
                lemma_wf_same_shape(before_set, self.model());
                assert(before_set.keeps_shape(self.model()));
                lemma_keeps_shape_trans(m0, before_set, self.model());
            }
            visited.insert(x);
            proof {
                assert(visited@.subset_of(m0.attrs.dom()));
                vstd::set_lib::lemma_len_subset(visited@, m0.attrs.dom());
            }
            if info.mode & MODE_TYPE == MODE_DIR {
                let ghost mb = self.model();
                let listed = fs_children(&mut self.fs, x);
                let children = match listed {
                    Ok(c) => c,
                    Err(e) => return Err(tree_error(e)),
                };
                proof {
                    assert(mb.entries == m0.entries);
                    assert(listed == Ok::<Vec<u32>, FsError>(children));
                }
                let ghost px = choose|p: Seq<u32>| #[trigger] is_chain(m0, root, p) && p.last() == x;
                let ghost before = stack@;
                proof {
                    assert(self.model().entries == m0.entries);
                    assert(is_dir_mode(m0.attrs[x].0)) by {
                        assert(info.mode == m0.attrs[x].0);
                        assert(info.mode & MODE_TYPE == MODE_DIR);
                    }
                    assert forall|i: int| 0 <= i < children@.len() implies child_of(m0, x, #[trigger] children@[i]) by {
                        assert(listed->Ok_0@[i] == children@[i]);
                        let name = choose|name: Seq<u8>| m0.entries.contains_key((x, name)) && listed->Ok_0@[i] == m0.entries[(x, name)];
                        assert(m0.entries.contains_key((x, name)));
                    }
                }
                let mut j: usize = 0;
                while j < children.len()
                    invariant
                        j <= children@.len(),
                        stack@.len() >= before.len(),
                        stack@.subrange(0, before.len() as int) == before,
                        forall|i: int| 0 <= i < stack@.len() ==> m0.attrs.contains_key(#[trigger] stack@[i]),
                        forall|i: int| 0 <= i < stack@.len() ==> in_subtree(m0, root, #[trigger] stack@[i]),
                        forall|i: int| 0 <= i < j ==> stack@.contains(#[trigger] children@[i]),
                        m0.wf(),
                        m0.attrs.contains_key(x),
                        is_dir_mode(m0.attrs[x].0),
                        is_chain(m0, root, px) && px.last() == x,
                        forall|i: int| 0 <= i < children@.len() ==> child_of(m0, x, #[trigger] children@[i]),
                    decreases children@.len() - j,
                {
                    let c = children[j];
                    proof {
                        assert(child_of(m0, x, c));
                        let pc = px.push(c);
                        assert forall|i: int| 0 <= i < pc.len() - 1 implies #[trigger] child_of(m0, pc[i], pc[i + 1]) by {
                            if i < px.len() - 1 {
                                assert(pc[i] == px[i] && pc[i + 1] == px[i + 1]);
                            }
                        }
                        assert(is_chain(m0, root, pc) && pc.last() == c);
                        assert(m0.attrs.contains_key(c));
                    }
                    let ghost prev = stack@;
                    stack.push(c);
                    proof {
                        assert forall|i: int| 0 <= i < j + 1 implies stack@.contains(#[trigger] children@[i]) by {
                            if i < j {
                                let k = choose|k: int| 0 <= k < prev.len() && prev[k] == children@[i];
                                assert(stack@[k] == children@[i]);
                            } else {
                                assert(stack@[prev.len() as int] == c);
                            }
                        }
                        assert(stack@.subrange(0, before.len() as int) =~= before);
                    }
                    j = j + 1;
                }
                proof {
                    assert forall|y: u32, z: u32| #[trigger] visited@.contains(y) && #[trigger] child_of(m0, y, z)
                        implies visited@.contains(z) || stack@.contains(z) by {
                        if y == x {
                            let name = choose|name: Seq<u8>| #[trigger] m0.entries.contains_key((y, name)) && m0.entries[(y, name)] == z;
                            assert(children@.contains(z));
                            let i = choose|i: int| 0 <= i < children@.len() && children@[i] == z;
                            assert(stack@.contains(children@[i]));
                        } else {
                            if stack@.len() > 0 && before.contains(z) {
                                let k = choose|k: int| 0 <= k < before.len() && before[k] == z;
                                assert(stack@[k] == z);
                            }
                        }
                    }
                }
            } else {
                proof {
                    assert forall|y: u32, z: u32| #[trigger] visited@.contains(y) && #[trigger] child_of(m0, y, z)
                        implies visited@.contains(z) || stack@.contains(z) by {
                        if y == x {
                            assert(!is_dir_mode(m0.attrs[x].0));
                        }
                    }
                }
            }
        }
        proof {
            lemma_chowned_keeps_type(m0.attrs[ROOT_ID], mode, uid, gid);
            assert forall|x: u32| #[trigger] m0.attrs.contains_key(x) implies (visited@.contains(x) <==> in_subtree(m0, root, x)) by {
                if in_subtree(m0, root, x) {
                    let p = choose|p: Seq<u32>| #[trigger] is_chain(m0, root, p) && p.last() == x;
                    lemma_closed_chain(m0, root, visited@, p);
                    assert(visited@.contains(p[p.len() - 1]));
                }
            }
        }
        Ok(())
    }

    /// Looks up the child of `parent` named `name`.
    pub fn find(&mut self, parent: u32, name: &Vec<u8>) -> (r: Result<Option<NodeInfo>, TreeError>)
        requires
            old(self).model().wf(),
        ensures
            final(self).model() == old(self).model(),
            final(self).ctime == old(self).ctime && final(self).ctime_nsec == old(self).ctime_nsec,
            r matches Ok(Some(info)) ==> old(self).model().entries.contains_key((parent, name@))
                && old(self).model().entries[(parent, name@)] == info.id
                && old(self).model().attrs.contains_key(info.id)
                && old(self).model().attrs[info.id] == (info.mode, info.uid, info.gid)
                && (!is_dir_mode(info.mode) ==> old(self).model().data.contains_key(info.id)
                && old(self).model().data[info.id].len() == info.size),
            r matches Ok(None) ==> !old(self).model().entries.contains_key((parent, name@)),
            r matches Err(e) ==> e is Io || e is InvalidName,
    {
        match fs_find(&mut self.fs, parent, name) {
            Ok(found) => Ok(found),
            Err(e) => Err(tree_error(e)),
        }
    }

    /// The child of `cur` named `name`, made as a directory (mode 0755,
    /// owned by root) when there is none.
    fn find_or_create_dir(&mut self, cur: u32, name: &Vec<u8>) -> (r: Result<NodeInfo, TreeError>)
        requires
            old(self).model().wf(),
            old(self).model().attrs.contains_key(cur),
            is_dir_mode(old(self).model().attrs[cur].0),
        ensures
            final(self).ctime == old(self).ctime && final(self).ctime_nsec == old(self).ctime_nsec,
            final(self).model().wf(),
            old(self).model().grows_by_dirs(final(self).model()),
            r is Err ==> final(self).model() == old(self).model(),
            r matches Err(e) ==> e is Io || e is InvalidName,
            r matches Ok(info) ==> final(self).model().entries.contains_key((cur, name@))
                && final(self).model().entries[(cur, name@)] == info.id
                && final(self).model().attrs[info.id].0 == info.mode
                && (!is_dir_mode(info.mode) ==> final(self).model().data.contains_key(info.id)
                && final(self).model().data[info.id].len() == info.size),
            r is Ok && old(self).model().entries.contains_key((cur, name@)) ==> final(self).model()
                == old(self).model(),
            r is Ok && !old(self).model().entries.contains_key((cur, name@)) ==> {
                &&& !old(self).model().attrs.contains_key(r->Ok_0.id)
                &&& final(self).model().attrs.dom() == old(self).model().attrs.dom().insert(r->Ok_0.id)
                &&& r->Ok_0.mode == DEFAULT_DIR_MODE
                &&& forall|k: (u32, Seq<u8>)| #[trigger] final(self).model().entries.contains_key(k)
                    ==> k.0 != r->Ok_0.id
            },
    {
        let ghost m0 = self.model();
        match self.find(cur, name)? {
            Some(info) => Ok(info),
            None => {
                if !good_name_exec(name) {
                    return Err(TreeError::InvalidName);
                }
                assert(is_dir_mode(DEFAULT_DIR_MODE)) by (bit_vector);
                let id = match fs_create_node(&mut self.fs, cur, name, (DEFAULT_DIR_MODE, 0, 0), self.ctime, self.ctime_nsec) {
                    Ok(id) => id,
                    Err(e) => return Err(tree_error(e)),
                };
                proof {
                    let m2 = self.model();
                    assert(is_dir_mode(DEFAULT_DIR_MODE)) by (bit_vector);
                    assert(m2.attrs.dom() =~= m0.attrs.dom().insert(id));
                    assert forall|k: (u32, Seq<u8>)| #[trigger] m2.entries.contains_key(k)
                        implies k.0 != id by {
                        if k != (cur, name@) {
                            assert(m0.entries.contains_key(k));
                        }
                    }
                    assert(m0.entries.contains_key((cur, name@)) == false);
                    assert forall|k: (u32, Seq<u8>)| #[trigger] m2.entries.contains_key(k)
                        implies m2.attrs.contains_key(k.0) && m2.attrs.contains_key(m2.entries[k]) by {
                        if k != (cur, name@) {
                            assert(m0.entries.contains_key(k));
                        }
                    }
                    assert forall|x: u32| #[trigger] m2.data.contains_key(x) implies m2.attrs.contains_key(x) by {
                        assert(m0.data.contains_key(x));
                    }
                    assert(m2.attrs.dom().finite());
                }
                Ok(NodeInfo { id, mode: DEFAULT_DIR_MODE, uid: 0, gid: 0, size: 0 })
            },
        }
    }
}

} // verus!
