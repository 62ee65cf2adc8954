//! Directories: a sorted tree of files, each stored under the path of
//! labels that leads to it.
//!
//! The meaning of a [`Directory`] is the map from the path of each file
//! (relative to the directory) to the file's contents and size.
use std::collections::hash_map::DefaultHasher;
use std::hash::{Hash, Hasher};
use vstd::prelude::*;
use vstd::std_specs::hash::DefaultHasherAdditionalSpecFns;

use crate::file_system::path::{clone_labels, labels_view, root_label_view, Label, Path};
use std::collections::HashMap;
use crate::nonempty::NonEmpty;
use crate::strings::{compare_str, KeyOrder};
use crate::tree::{
    forest_wf, keys_view, node_path, related, tree_lookup, tree_node_at, tree_wf,
    Forest, HasKey, KeyPath, SubTree, Tree, TreeKey,
};

mod copy;
pub mod groups;
pub mod listing;

use self::copy::{copy_tree, lemma_copy_files};
use self::listing::{
    in_path_order, lemma_level_order, lemma_tree_lists, lists_files, opt_listing, opt_view,
    size_tree, sizes_sum, tree_files, FileEntry,
};

verus! {

/// `SystemType` is an enumeration over what can be found in a
/// [`Directory`], so that a listing can report a [`Label`] with its type.
#[derive(Debug, Clone, Copy, PartialEq, Eq, PartialOrd, Ord, Hash)]
pub enum SystemType {
    File,
    Directory,
}

impl SystemType {
    /// A file name and [`SystemType::File`].
    pub fn file(label: Label) -> (r: (Label, Self))
        ensures
            r.0 == label,
            r.1 == SystemType::File,
    {
        (label, SystemType::File)
    }

    /// A directory name and [`SystemType::Directory`].
    pub fn directory(label: Label) -> (r: (Label, Self))
        ensures
            r.0 == label,
            r.1 == SystemType::Directory,
    {
        (label, SystemType::Directory)
    }
}

/// The meaning of a file: its contents and its recorded size.
pub type FileView = (Seq<u8>, usize);

/// A `File` consists of its contents (a `Vec` of bytes) and its size.
#[derive(Debug, PartialEq, Eq)]
pub struct File {
    pub contents: Vec<u8>,
    pub(crate) size: usize,
}

impl View for File {
    type V = FileView;

    closed spec fn view(&self) -> FileView {
        (self.contents@, self.size)
    }
}

/// What `<Vec<u8> as Hash>::hash` writes into a `DefaultHasher` whose
/// writes so far are `writes`, for the bytes `contents`.
pub uninterp spec fn hash_writes(writes: Seq<Seq<u8>>, contents: Seq<u8>) -> Seq<Seq<u8>>;

/// Feeds `contents` to `state` through `<Vec<u8> as Hash>::hash`.
///
/// Trusted: the hasher's writes afterwards are `hash_writes` of its writes
/// before and of the bytes. The bytes that std writes for a byte vector
/// (its length in the platform's `usize`, then the bytes) are left unsaid.
#[verifier::external_body]
fn hash_contents(contents: &Vec<u8>, state: &mut DefaultHasher)
    ensures
        final(state)@ == hash_writes(old(state)@, contents@),
{
    contents.hash(state)
}

/// The checksum of a file's contents: the `DefaultHasher` digest of the
/// byte vector.
pub open spec fn content_checksum(contents: Seq<u8>) -> u64 {
    DefaultHasher::spec_finish(hash_writes(Seq::empty(), contents))
}

/// Copy a byte slice.
fn copy_bytes(bytes: &[u8]) -> (r: Vec<u8>)
    ensures
        r@ == bytes@,
{
    let mut r: Vec<u8> = Vec::new();
    let mut i: usize = 0;
    while i < bytes.len()
        invariant
            i <= bytes@.len(),
            r@ == bytes@.take(i as int),
        decreases bytes@.len() - i,
    {
        r.push(bytes[i]);
        i = i + 1;
        assert(r@ =~= bytes@.take(i as int));
    }
    assert(bytes@.take(i as int) =~= bytes@);
    r
}

impl Clone for File {
    fn clone(&self) -> (r: Self)
        ensures
            r@ == self@,
    {
        File { contents: copy_bytes(self.contents.as_slice()), size: self.size }
    }
}

impl File {
    /// A file holding a copy of `contents`; its size is their length.
    pub fn new(contents: &[u8]) -> (r: Self)
        ensures
            r@ == (contents@, contents@.len() as usize),
    {
        let size = contents.len();
        File { contents: copy_bytes(contents), size }
    }

    /// Get the size of the `File` corresponding to the number of bytes in
    /// the file contents.
    pub fn size(&self) -> (r: usize)
        ensures
            r == self@.1,
    {
        self.size
    }

    /// The checksum of the file's contents.
    pub fn checksum(&self) -> (r: u64)
        ensures
            r == content_checksum(self@.0),
    {
        let mut hasher = DefaultHasher::new();
        hash_contents(&self.contents, &mut hasher);
        hasher.finish()
    }
}

impl TreeKey for Label {
    fn compare_key(&self, other: &Self) -> (o: KeyOrder) {
        compare_str(self.as_str(), other.as_str())
    }
}

/// A file stored in a directory tree is keyed by its name.
impl HasKey<Label> for (Label, File) {
    open spec fn spec_key(&self) -> Label {
        self.0
    }

    fn key(&self) -> (k: &Label) {
        &self.0
    }
}

/// Where a directory stands: the root, or a sub-directory with its label.
#[derive(Debug)]
enum Location {
    Root,
    SubDirectory(Label),
}

/// The meaning of a directory: its files by path.
pub type DirectoryView = Map<KeyPath, FileView>;

/// The files of a forest of named files, by path.
pub open spec fn files_of(m: Map<KeyPath, (Label, File)>) -> DirectoryView {
    m.map_values(|e: (Label, File)| e.1@)
}

/// `m` after putting the file `f` at `p`: whatever stood on the way to `p`
/// or below it is gone.
pub open spec fn put_file(m: DirectoryView, p: KeyPath, f: FileView) -> DirectoryView {
    m.remove_keys(Set::new(|q: KeyPath| related(q, p))).insert(p, f)
}

/// There is a directory at `p` in `m`: some file lies strictly below it.
pub open spec fn is_dir_at(m: DirectoryView, p: KeyPath) -> bool {
    exists|q: KeyPath| q.len() > 0 && #[trigger] m.contains_key(p + q)
}

/// The files of `m` below the directory `p`, by their path relative to it.
pub open spec fn sub_directory(m: DirectoryView, p: KeyPath) -> DirectoryView {
    Map::new(|q: KeyPath| q.len() > 0 && m.contains_key(p + q), |q: KeyPath| m[p + q])
}

/// The entries of a directory tree: sub-trees keyed by label, whose nodes
/// are named files.
pub type DirTree = Tree<Label, (Label, File)>;

/// A sub-tree of a directory tree.
pub type DirSub = SubTree<Label, (Label, File)>;

/// Where the tree `t` has a branch with the tree `f` at `p`, the files
/// below `p` are those of `f`, and there is at least one.
proof fn lemma_dir_found(t: DirTree, p: KeyPath, f: DirTree)
    requires
        tree_wf(t),
        p.len() > 0,
        tree_lookup(t, p) matches Some(SubTree::Branch { forest, .. }) && *forest == f,
    ensures
        tree_wf(f),
        files_of(crate::tree::tree_nodes(f)) == sub_directory(files_of(crate::tree::tree_nodes(t)), p),
        is_dir_at(files_of(crate::tree::tree_nodes(t)), p),
{
    let m = files_of(crate::tree::tree_nodes(t));
    lemma_lookup_wf(t, p);
    assert forall|q: KeyPath| #![auto] tree_node_at(f, q) == (if q.len() > 0 {
        tree_node_at(t, p + q)
    } else {
        None
    }) by {
        crate::tree::lemma_lookup_concat(t, p, q);
    }
    assert(files_of(crate::tree::tree_nodes(f)) =~= sub_directory(m, p));
    crate::tree::lemma_tree_has_node(f);
    let q = choose|q: KeyPath| q.len() > 0 && #[trigger] tree_node_at(f, q) is Some;
    assert(m.contains_key(p + q));
}

/// What a look-up finds in a well-formed tree is well-formed.
proof fn lemma_lookup_wf(t: DirTree, p: KeyPath)
    requires
        tree_wf(t),
    ensures
        tree_lookup(t, p) matches Some(s) ==> crate::tree::sub_wf(s),
    decreases t,
{
    if p.len() > 0 && crate::tree::has_key(t.0@, p[0]) {
        let i = crate::tree::key_index(t.0@, p[0]);
        crate::tree::lemma_wf_sub(t, i);
        let s = t.0@[i];
        if i > 0 {
            assert(s == t.0.tail@[i - 1]);
        }
        if p.len() > 1 {
            match s {
                SubTree::Node(_) => {},
                SubTree::Branch { forest, .. } => {
                    lemma_lookup_wf(*forest, p.drop_first());
                },
            }
        }
    }
}

/// Where the forest has no branch at `p`, no file lies below `p`.
proof fn lemma_no_dir(f: Forest<Label, (Label, File)>, p: KeyPath)
    requires
        p.len() > 0,
        !(crate::tree::forest_lookup(f, p) matches Some(SubTree::Branch { .. })),
    ensures
        !is_dir_at(files_of(f@), p),
{
    if is_dir_at(files_of(f@), p) {
        let q = choose|q: KeyPath| q.len() > 0 && #[trigger] files_of(f@).contains_key(p + q);
        let t = f.0->0;
        crate::tree::lemma_lookup_concat(t, p, q);
        assert(tree_node_at(t, p + q) is Some);
    }
}

/// The name and the kind of a sub-tree: a file for a node, a directory for
/// a branch.
fn entry_of(s: &DirSub) -> (r: (Label, SystemType))
    ensures
        r.0@ == crate::tree::sub_key(*s),
        r.1 == (if s is Node {
            SystemType::File
        } else {
            SystemType::Directory
        }),
{
    match s {
        SubTree::Node(e) => SystemType::file(e.0.clone()),
        SubTree::Branch { key, .. } => SystemType::directory(key.clone()),
    }
}

/// The sub-tree at index `i` of a well-formed tree is a node exactly when
/// the directory has a file named by its key, and a branch exactly when it
/// has a directory named so.
proof fn lemma_listing_entry(t: DirTree, i: int)
    requires
        tree_wf(t),
        0 <= i < t.0@.len(),
    ensures
        (t.0@[i] is Node) <==> files_of(crate::tree::tree_nodes(t)).contains_key(
            seq![crate::tree::sub_key(t.0@[i])],
        ),
        (t.0@[i] is Branch) <==> is_dir_at(
            files_of(crate::tree::tree_nodes(t)),
            seq![crate::tree::sub_key(t.0@[i])],
        ),
{
    let k = crate::tree::sub_key(t.0@[i]);
    let p = seq![k];
    crate::tree::lemma_lookup_at(t, i, p);
    assert(p.drop_first() =~= Seq::<Seq<char>>::empty());
    match t.0@[i] {
        SubTree::Branch { forest, .. } => {
            lemma_dir_found(t, p, *forest);
        },
        SubTree::Node(_) => {
            lemma_no_dir(Forest(Some(t)), p);
        },
    }
}

/// A file of the directory is listed under its first label.
proof fn lemma_listing_complete(t: DirTree, p: KeyPath)
    requires
        tree_wf(t),
        files_of(crate::tree::tree_nodes(t)).contains_key(p),
    ensures
        p.len() > 0,
        crate::tree::has_key(t.0@, p[0]),
{
    assert(tree_node_at(t, p) is Some);
}

/// The directory `dir` followed by `name`, as a path.
fn path_under(dir: &[Label], name: &Label) -> (r: Path)
    ensures
        r@ == labels_view(dir@).push(name@),
{
    let mut labels = clone_labels(dir);
    labels.push(name.clone());
    let ne = NonEmpty::from_vec(labels);
    let r = Path(ne.unwrap());
    assert(r@ =~= labels_view(dir@).push(name@));
    r
}

/// The names and meanings of a list of named files.
pub open spec fn named_files(fs: Seq<(Label, File)>) -> Seq<(Seq<char>, FileView)> {
    fs.map_values(|e: (Label, File)| (e.0@, e.1@))
}

/// `m` after putting each of the named files `fs`, in order, into the
/// directory `dir`.
pub open spec fn put_all(m: DirectoryView, dir: KeyPath, fs: Seq<(Seq<char>, FileView)>) -> DirectoryView
    decreases fs.len(),
{
    if fs.len() == 0 {
        m
    } else {
        put_file(put_all(m, dir, fs.drop_last()), dir.push(fs.last().0), fs.last().1)
    }
}

/// The directory into which a group of files is put: the top level for
/// the root path, else the path itself.
pub open spec fn group_dir(p: KeyPath) -> KeyPath {
    if p == seq![root_label_view()] {
        Seq::empty()
    } else {
        p
    }
}

/// The meaning of groups of files: the directory path of each group and
/// its named files.
pub open spec fn groups_view(es: Seq<(Path, NonEmpty<(Label, File)>)>) -> Seq<
    (KeyPath, Seq<(Seq<char>, FileView)>),
> {
    es.map_values(|e: (Path, NonEmpty<(Label, File)>)| (e.0@, named_files(e.1@)))
}

/// `m` after putting each group of files, in order, into its directory.
pub open spec fn put_groups(m: DirectoryView, gs: Seq<(KeyPath, Seq<(Seq<char>, FileView)>)>) -> DirectoryView
    decreases gs.len(),
{
    if gs.len() == 0 {
        m
    } else {
        put_all(put_groups(m, gs.drop_last()), group_dir(gs.last().0), gs.last().1)
    }
}

/// `es` lists every entry of the map `m` once, in some order.
pub open spec fn lists_entries(
    m: Map<Path, NonEmpty<(Label, File)>>,
    es: Seq<(Path, NonEmpty<(Label, File)>)>,
) -> bool {
    &&& forall|i: int| #![auto] 0 <= i < es.len() ==> m.contains_key(es[i].0) && m[es[i].0] == es[i].1
    &&& forall|p: Path| #[trigger] m.contains_key(p) ==> exists|i: int| 0 <= i < es.len() && es[i].0 == p
    &&& forall|i: int, j: int| #![auto] 0 <= i < j < es.len() ==> es[i].0 != es[j].0
}

/// The entries of a `HashMap`, collected by `Vec::from_iter`, which walks
/// the map through `HashMap::into_iter`.
///
/// Trusted: every entry of the map comes out once, with its value, in an
/// order that the map's hashing decides and that is left unsaid.
#[verifier::external_body]
fn hash_map_entries(files: HashMap<Path, NonEmpty<(Label, File)>>) -> (r: Vec<(Path, NonEmpty<(Label, File)>)>)
    ensures
        lists_entries(files@, r@),
{
    Vec::from_iter(files)
}

/// The files of a directory in order are in the order of their paths.
pub proof fn lemma_files_sorted(d: Directory)
    requires
        d.well_formed(),
    ensures
        in_path_order(d.files_in_order()),
{
    match d.sub_directories.0 {
        None => {},
        Some(t) => {
            lemma_level_order(t, t.0@.len() as int);
        },
    }
}

/// The files of a directory in order are its files, each once and with
/// its meaning.
pub proof fn lemma_files_in_order(d: Directory)
    requires
        d.well_formed(),
    ensures
        lists_files(d.files_in_order(), d@),
{
    match d.sub_directories.0 {
        None => {
            assert(d@ =~= Map::<KeyPath, FileView>::empty());
        },
        Some(t) => {
            lemma_tree_lists(t);
        },
    }
}

/// After a file is put at `p`, `p` holds that file; a path on the way to
/// `p` or below it holds none, and every other path holds what it held.
pub proof fn lemma_put_file(m: DirectoryView, p: KeyPath, f: FileView)
    ensures
        put_file(m, p, f).contains_key(p),
        put_file(m, p, f)[p] == f,
        forall|q: KeyPath| related(q, p) && q != p ==> !#[trigger] put_file(m, p, f).contains_key(q),
        forall|q: KeyPath|
            !related(q, p) ==> (#[trigger] put_file(m, p, f).contains_key(q) == m.contains_key(q))
                && (m.contains_key(q) ==> put_file(m, p, f)[q] == m[q]),
{
    assert(p.take(p.len() as int) =~= p);
    assert(related(p, p));
}

/// A `Directory` consists of its [`Label`] and its entries: a sorted tree
/// of files.
#[derive(Debug)]
pub struct Directory {
    current: Location,
    sub_directories: Forest<Label, (Label, File)>,
}

impl View for Directory {
    type V = DirectoryView;

    closed spec fn view(&self) -> DirectoryView {
        files_of(self.sub_directories@)
    }
}

impl Directory {
    /// The entries of the directory are sorted at every level.
    #[verifier::type_invariant]
    pub closed spec fn well_formed(self) -> bool {
        forest_wf(self.sub_directories)
    }

    /// The text of the directory's own label.
    pub closed spec fn label_view(self) -> Seq<char> {
        match self.current {
            Location::Root => root_label_view(),
            Location::SubDirectory(l) => l@,
        }
    }

    /// The empty root directory.
    pub fn root() -> (r: Self)
        ensures
            r@ == Map::<KeyPath, FileView>::empty(),
            r.label_view() == root_label_view(),
    {
        let r = Directory { current: Location::Root, sub_directories: Forest::root() };
        assert(r@ =~= Map::<KeyPath, FileView>::empty());
        r
    }

    /// Get the `Label` of the current directory.
    pub fn current(&self) -> (r: Label)
        ensures
            r@ == self.label_view(),
    {
        match &self.current {
            Location::Root => Label::root(),
            Location::SubDirectory(label) => label.clone(),
        }
    }

    /// Find a `File` in the directory given the `Path` to the `File`.
    ///
    /// This operation fails if the path does not lead to the `File`.
    pub fn find_file(&self, path: &Path) -> (r: Option<File>)
        ensures
            r is Some <==> self@.contains_key(path@),
            r matches Some(f) ==> f@ == self@[path@],
    {
        proof {
            use_type_invariant(self);
        }
        let keys = path.clone().0;
        proof {
            assert(keys_view(keys@) =~= path@);
        }
        match self.sub_directories.find(keys) {
            Some(SubTree::Node(entry)) => Some(entry.1.clone()),
            _ => None,
        }
    }

    /// Find a `Directory` in the directory given the `Path` to the
    /// `Directory`.
    ///
    /// This operation fails if the path does not lead to the `Directory`.
    pub fn find_directory(&self, path: &Path) -> (r: Option<Self>)
        ensures
            r is Some <==> is_dir_at(self@, path@),
            r matches Some(d) ==> d@ == sub_directory(self@, path@) && d.label_view()
                == path@.last(),
    {
        proof {
            use_type_invariant(self);
        }
        let ghost p = path@;
        let keys = path.clone().0;
        proof {
            assert(keys_view(keys@) =~= p);
        }
        match self.sub_directories.find(keys) {
            Some(SubTree::Branch { forest, .. }) => {
                let copy = copy_tree(forest);
                let (_, current) = path.split_last();
                let ghost t = self.sub_directories.0->0;
                proof {
                    lemma_dir_found(t, p, **forest);
                    lemma_copy_files(**forest, copy);
                }
                let d = Directory {
                    current: Location::SubDirectory(current),
                    sub_directories: Forest(Some(copy)),
                };
                Some(d)
            },
            _ => {
                proof {
                    lemma_no_dir(self.sub_directories, p);
                }
                None
            },
        }
    }

    /// The files of the directory, in order of their paths.
    pub closed spec fn files_in_order(self) -> Seq<FileEntry> {
        match self.sub_directories.0 {
            None => Seq::empty(),
            Some(t) => tree_files(t),
        }
    }

    /// The sum of the sizes of the files of the directory.
    pub open spec fn total_size(self) -> nat {
        sizes_sum(self.files_in_order())
    }

    /// Get the total size, in bytes, of a `Directory`. The size is the sum
    /// of all files that can be reached from this `Directory`.
    pub fn size(&self) -> (r: usize)
        requires
            self.total_size() <= usize::MAX,
        ensures
            r == self.total_size(),
    {
        match &self.sub_directories.0 {
            None => 0,
            Some(tree) => size_tree(tree),
        }
    }

    /// List the current `Directory`'s files and sub-directories, in order
    /// of their labels.
    pub fn list_directory(&self) -> (r: Vec<(Label, SystemType)>)
        ensures
            forall|i: int, j: int|
                0 <= i < j < r@.len() ==> crate::strings::seq_lt(#[trigger] r@[i].0@, #[trigger] r@[j].0@),
            forall|i: int|
                0 <= i < r@.len() ==> ((#[trigger] r@[i]).1 == SystemType::File
                    <==> self@.contains_key(seq![r@[i].0@])),
            forall|i: int|
                0 <= i < r@.len() ==> ((#[trigger] r@[i]).1 == SystemType::Directory <==> is_dir_at(
                    self@,
                    seq![r@[i].0@],
                )),
            forall|p: KeyPath| #[trigger]
                self@.contains_key(p) ==> exists|i: int| 0 <= i < r@.len() && r@[i].0@ == p[0],
    {
        proof {
            use_type_invariant(self);
        }
        match &self.sub_directories.0 {
            None => {
                let r: Vec<(Label, SystemType)> = Vec::new();
                r
            },
            Some(tree) => {
                let ghost t = *tree;
                let mut r: Vec<(Label, SystemType)> = Vec::new();
                r.push(entry_of(&tree.0.head));
                let mut i: usize = 0;
                while i < tree.0.tail.len()
                    invariant
                        t == *tree,
                        i <= t.0.tail@.len(),
                        r@.len() == i + 1,
                        forall|j: int|
                            0 <= j <= i ==> (#[trigger] r@[j]).0@ == crate::tree::sub_key(t.0@[j])
                                && r@[j].1 == (if t.0@[j] is Node {
                                SystemType::File
                            } else {
                                SystemType::Directory
                            }),
                    decreases t.0.tail@.len() - i,
                {
                    let e = entry_of(&tree.0.tail[i]);
                    proof {
                        assert(t.0@[i + 1] == t.0.tail@[i as int]);
                    }
                    r.push(e);
                    i = i + 1;
                }
                proof {
                    let m = self@;
                    assert(m == files_of(crate::tree::tree_nodes(t)));
                    assert forall|a: int| 0 <= a < r@.len() implies ((#[trigger] r@[a]).1
                        == SystemType::File <==> m.contains_key(seq![r@[a].0@])) && (r@[a].1
                        == SystemType::Directory <==> is_dir_at(m, seq![r@[a].0@])) by {
                        lemma_listing_entry(t, a);
                    }
                    assert forall|p: KeyPath| #[trigger] m.contains_key(p) implies exists|a: int|
                        0 <= a < r@.len() && r@[a].0@ == p[0] by {
                        lemma_listing_complete(t, p);
                        let a = crate::tree::key_index(t.0@, p[0]);
                        assert(r@[a].0@ == p[0]);
                    }
                }
                r
            },
        }
    }

    /// Put each of the named `files` into the directory `directory_path`
    /// (the top level when it is empty), in order.
    pub fn insert_files(&mut self, directory_path: &[Label], files: NonEmpty<(Label, File)>)
        ensures
            final(self)@ == put_all(old(self)@, labels_view(directory_path@), named_files(files@)),
            final(self).label_view() == old(self).label_view(),
    {
        let ghost m0 = self@;
        let ghost fs = named_files(files@);
        let ghost dir = labels_view(directory_path@);
        let path = path_under(directory_path, &files.head.0);
        self.insert_file(&path, files.head.1.clone());
        proof {
            assert(files@[0] == files.head);
            assert(fs[0] == (files.head.0@, files.head.1@));
            assert(fs.take(1).drop_last() =~= Seq::<(Seq<char>, FileView)>::empty());
            assert(put_all(m0, dir, fs.take(1).drop_last()) == m0);
            assert(fs.take(1).last() == fs[0]);
        }
        let mut i: usize = 0;
        while i < files.tail.len()
            invariant
                i <= files.tail@.len(),
                fs == named_files(files@),
                dir == labels_view(directory_path@),
                self@ == put_all(m0, dir, fs.take(i + 1)),
                self.label_view() == old(self).label_view(),
            decreases files.tail@.len() - i,
        {
            let entry = &files.tail[i];
            let path = path_under(directory_path, &entry.0);
            self.insert_file(&path, entry.1.clone());
            proof {
                assert(files@[i + 1] == files.tail@[i as int]);
                assert(fs.take(i + 2).drop_last() =~= fs.take(i + 1));
                assert(fs.take(i + 2).last() == fs[i + 1]);
            }
            i = i + 1;
        }
        proof {
            assert(fs.take(i + 1) =~= fs);
        }
    }

    /// The directory holding the groups of files `entries`, put in order:
    /// the files of each group go into the directory at its path, or at the
    /// top level for the root path.
    pub fn from_entries(entries: Vec<(Path, NonEmpty<(Label, File)>)>) -> (r: Self)
        ensures
            r@ == put_groups(Map::empty(), groups_view(entries@)),
            r.label_view() == root_label_view(),
    {
        let ghost gs = groups_view(entries@);
        let mut directory = Directory::root();
        let mut rest = entries;
        let total = rest.len();
        let ghost n = gs.len();
        let mut k: usize = 0;
        while rest.len() > 0
            invariant
                gs == groups_view(entries@),
                n == gs.len(),
                n == total,
                k + rest@.len() == n,
                rest@ == entries@.skip(k as int),
                directory@ == put_groups(Map::empty(), gs.take(k as int)),
                directory.label_view() == root_label_view(),
            decreases rest@.len(),
        {
            let (path, files) = rest.remove(0);
            proof {
                assert(entries@[k as int] == (path, files));
                assert(gs[k as int] == (path@, named_files(files@)));
                assert(gs.take(k + 1).drop_last() =~= gs.take(k as int));
            }
            if path.is_root() {
                let none: Vec<Label> = Vec::new();
                proof {
                    assert(labels_view(none@) =~= Seq::<Seq<char>>::empty());
                }
                directory.insert_files(none.as_slice(), files);
            } else {
                let labels = path.into_labels();
                proof {
                    assert(labels_view(labels@) == path@);
                }
                directory.insert_files(labels.as_slice(), files);
            }
            proof {
                assert(rest@ =~= entries@.skip(k + 1));
            }
            k = k + 1;
        }
        proof {
            assert(gs.take(k as int) =~= gs);
        }
        directory
    }

    /// The directory holding the groups of files of the map `files`: the
    /// files of each group go into the directory at its path, or at the top
    /// level for the root path. The groups are put in the order in which
    /// the map hands them out.
    pub fn from_hash_map(files: HashMap<Path, NonEmpty<(Label, File)>>) -> (r: Self)
        ensures
            exists|es: Seq<(Path, NonEmpty<(Label, File)>)>|
                lists_entries(files@, es) && r@ == put_groups(Map::empty(), groups_view(es)),
            r.label_view() == root_label_view(),
    {
        let entries = hash_map_entries(files);
        let ghost es = entries@;
        let r = Directory::from_entries(entries);
        assert(lists_entries(files@, es) && r@ == put_groups(Map::empty(), groups_view(es)));
        r
    }

    /// The tree of the directory's entries, if it has any.
    pub(crate) fn entries(&self) -> (r: &Option<DirTree>)
        ensures
            opt_view(*r) == self@,
            opt_listing(*r) == self.files_in_order(),
            *r matches Some(t) ==> tree_wf(t),
    {
        proof {
            use_type_invariant(self);
        }
        &self.sub_directories.0
    }

    /// Put `file` at `path`, replacing what stood there; a file on the way
    /// to `path` becomes a directory, and a directory at `path` becomes the
    /// file.
    pub fn insert_file(&mut self, path: &Path, file: File)
        ensures
            final(self)@ == put_file(old(self)@, path@, file@),
            final(self).label_view() == old(self).label_view(),
    {
        proof {
            use_type_invariant(&*self);
        }
        let ghost old_forest = self.sub_directories@;
        let ghost fv = file@;
        let (prefix, last) = path.split_last();
        let ghost target = node_path(prefix@, (last, file));
        proof {
            let s = path.0@;
            assert(target =~= path@) by {
                assert(keys_view(prefix@) =~= labels_view(s).drop_last());
            }
        }
        let mut forest = Forest::root();
        std::mem::swap(&mut forest, &mut self.sub_directories);
        forest.insert(prefix, (last, file));
        self.sub_directories = forest;
        proof {
            let p = path@;
            assert(self@ =~= put_file(files_of(old_forest), p, fv)) by {
                let rel = Set::new(|q: KeyPath| related(q, p));
                assert(files_of(old_forest).remove_keys(rel) =~= files_of(
                    old_forest.remove_keys(rel),
                ));
            }
        }
    }
}

impl Clone for Directory {
    fn clone(&self) -> (r: Self)
        ensures
            r@ == self@,
            r.label_view() == self.label_view(),
    {
        proof {
            use_type_invariant(self);
        }
        let current = match &self.current {
            Location::Root => Location::Root,
            Location::SubDirectory(l) => Location::SubDirectory(l.clone()),
        };
        match &self.sub_directories.0 {
            None => Directory { current, sub_directories: Forest(None) },
            Some(t) => {
                let c = copy_tree(t);
                proof {
                    lemma_copy_files(*t, c);
                }
                Directory { current, sub_directories: Forest(Some(c)) }
            },
        }
    }
}

} // verus!
