//! The tree manifest: a store handle plus a root link, with lookup,
//! insertion, removal, enumeration, flush, and difference.

use vstd::prelude::*;
use crate::error::Error;
use crate::hash::compute_node;
use crate::link::{
    child_is_empty_dir, children_files, children_honest, children_materialized, children_wf,
    entries_of, flag_of, honest, lemma_cf_insert_elem, lemma_cf_remove_elem, lemma_cf_update_eq,
    lemma_children_files_congruence, lemma_entries_of_index,
    lemma_cf_update_insert, lemma_cf_update_remove, lemma_child_slice, lemma_children_files_at,
    lemma_children_files_prefix, lemma_link_files_nonempty,
    lemma_link_files_prefix, lemma_no_nested_files, link_files, link_node, link_wf, loaded,
    map_has_dir, map_has_file_prefix, materialized, Link,
};
use crate::meta::{FileMetadata, FileType, NodeId};
use crate::path::{
    bytes_lt, cmp_bytes, cmp_paths, is_prefix, lemma_prefix_chain, lemma_prefix_step,
    lemma_prefix_trans, path_lt,
    strict_prefix, PathComponentBuf, Rel, RepoPathBuf,
};
use crate::store::{elements_sorted, elements_view, Element, Entry, Flag, Store};

verus! {

/// The tree manifest: owns its store handle and its root link. The root is
/// never a leaf.
pub struct Tree<S> {
    store: S,
    root: Link,
}

impl<S> View for Tree<S> {
    type V = Map<Seq<Seq<u8>>, FileMetadata>;

    /// The files this tree holds, keyed by path. Meaningful once the tree is
    /// `loaded`; unmaterialized durable regions contribute nothing.
    closed spec fn view(&self) -> Map<Seq<Seq<u8>>, FileMetadata> {
        link_files(self.root, Seq::empty())
    }
}

impl<S: Store> Tree<S> {
    /// The tree's invariant: root is a directory, shapes are well-formed,
    /// and the store's own invariant holds.
    pub closed spec fn inv(self) -> bool {
        &&& !(self.root is Leaf)
        &&& link_wf(self.root)
        &&& self.store.inv()
    }

    /// Fully in memory and hash-honest: the view describes the tree exactly.
    pub closed spec fn loaded(self) -> bool {
        loaded(self.root)
    }

    /// The root link, for stating laws about node ids.
    pub closed spec fn root_link(self) -> Link {
        self.root
    }

    /// The node id of a durable root, if the root is durable.
    pub closed spec fn durable_root(self) -> Option<Seq<u8>> {
        match self.root {
            Link::Durable(n, _) => Some(n@),
            _ => None,
        }
    }

    /// The store handle.
    pub closed spec fn store_of(self) -> S {
        self.store
    }

    /// A new, empty tree manifest with no history.
    pub fn ephemeral(store: S) -> (t: Self)
        requires
            store.inv(),
        ensures
            t.inv(),
            t.loaded(),
            t@ == Map::<Seq<Seq<u8>>, FileMetadata>::empty(),
            t.store_of() == store,
            t.durable_root() is None,
    {
        let t = Tree { store, root: Link::Ephemeral(Vec::new()) };
        proof {
            assert(t@ =~= Map::<Seq<Seq<u8>>, FileMetadata>::empty());
        }
        t
    }

    /// A tree manifest rooted at a directory already stored under `node`.
    pub fn durable(store: S, node: NodeId) -> (t: Self)
        requires
            store.inv(),
        ensures
            t.inv(),
            t.store_of() == store,
            t.root_link() == Link::Durable(node, None),
            t.durable_root() == Some(node@),
    {
        Tree { store, root: Link::Durable(node, None) }
    }

    /// Borrows the store handle, for driving a cursor.
    pub fn store(&self) -> (s: &S)
        ensures
            s == self.store_of(),
    {
        &self.store
    }

    /// A cursor standing before the root, ready to walk this tree in
    /// depth-first pre-order: its one pending node is (a copy of) this
    /// tree's root, with the same file map and node id.
    pub fn root_cursor(&self) -> (c: crate::cursor::Cursor)
        requires
            self.inv(),
        ensures
            c.wf(),
            !c.finished_spec(),
            !c.has_current(),
            !c.skip_requested(),
            c.pending_seq().len() == 1,
            c.next_pending_path() == Seq::<Seq<u8>>::empty(),
            !(c.next_pending_link() is Leaf),
            link_files(c.next_pending_link(), Seq::empty()) == self@,
            link_node(c.next_pending_link()) == link_node(self.root_link()),
            self.loaded() ==> loaded(c.next_pending_link()),
    {
        let root_copy = clone_link(&self.root, Ghost(Seq::empty()));
        let start = RepoPathBuf::new();
        proof {
            assert(start@ =~= Seq::<Seq<u8>>::empty());
        }
        crate::cursor::Cursor::new(start, root_copy)
    }

    /// Consumes the tree, handing its store back.
    pub fn into_store(self) -> (s: S)
        ensures
            s == self.store_of(),
    {
        self.store
    }

    /// Looks the path up: `Some` metadata for a file, `None` for an absent
    /// path, an error where the path crosses a file or names a directory.
    pub fn get(&self, path: &RepoPathBuf) -> (r: Result<Option<FileMetadata>, Error>)
        requires
            self.inv(),
        ensures
            self.loaded() ==> match r {
                Ok(Some(m)) => self@.contains_key(path@) && self@[path@] == m,
                Ok(None) => path@.len() > 0 && !self@.contains_key(path@) && !map_has_dir(
                    self@,
                    path@,
                ) && !map_has_file_prefix(self@, path@),
                Err(Error::DirectoryWhereFileExpected(q)) => q@ == path@ && (path@.len() == 0
                    || map_has_dir(self@, path@)),
                Err(Error::FileWhereDirectoryExpected(q)) => strict_prefix(q@, path@)
                    && self@.contains_key(q@),
                Err(_) => false,
            },
            match r {
                Ok(Some(fm)) => resolve(self.store_of().contents(), self.root_link(), path@, 0)
                    == Resolution::Found(fm.node@, fm.file_type),
                Ok(None) => resolve(self.store_of().contents(), self.root_link(), path@, 0)
                    == Resolution::Absent,
                Err(Error::DirectoryWhereFileExpected(q)) => q@ == path@ && resolve(
                    self.store_of().contents(),
                    self.root_link(),
                    path@,
                    0,
                ) == Resolution::FoundDir,
                Err(Error::FileWhereDirectoryExpected(q)) => q@ == path@.take(q@.len() as int)
                    && resolve(self.store_of().contents(), self.root_link(), path@, 0)
                        == Resolution::FileInWay(q@.len() as int),
                Err(Error::StoreNotFound(p, n)) => resolve(
                    self.store_of().contents(),
                    self.root_link(),
                    path@,
                    0,
                ) == Resolution::Missing(p@, n@),
                Err(_) => false,
            },
    {
        proof {
            assert(path@.take(0) =~= Seq::<Seq<u8>>::empty());
        }
        proof {
            if path@.len() == 0 {
                assert(path@ =~= Seq::<Seq<u8>>::empty());
            }
        }
        let found = match find_link(&self.store, &self.root, path, 0, Ghost(Seq::empty())) {
            Ok(f) => f,
            Err(e) => {
                return Err(e);
            }
        };
        match found {
            Some(Link::Leaf(m)) => Ok(Some(m)),
            Some(_) => Err(Error::DirectoryWhereFileExpected(path.clone())),
            None => Ok(None),
        }
    }

    /// Resolves the path to a copy of the link sitting there: the root link
    /// for the empty path, a leaf or directory link otherwise.
    pub fn get_link(&self, path: &RepoPathBuf) -> (r: Result<Option<Link>, Error>)
        requires
            self.inv(),
        ensures
            self.loaded() ==> match r {
                Ok(Some(res)) => {
                    &&& (res is Leaf) == self@.contains_key(path@)
                    &&& (res is Leaf ==> self@[path@] == res->Leaf_0)
                    &&& (!(res is Leaf) ==> path@.len() == 0 || map_has_dir(self@, path@))
                },
                Ok(None) => path@.len() > 0 && !self@.contains_key(path@) && !map_has_dir(
                    self@,
                    path@,
                ) && !map_has_file_prefix(self@, path@),
                Err(Error::FileWhereDirectoryExpected(q)) => strict_prefix(q@, path@)
                    && self@.contains_key(q@),
                Err(_) => false,
            },
            match r {
                Ok(Some(res)) => {
                    &&& res is Leaf ==> resolve(
                        self.store_of().contents(),
                        self.root_link(),
                        path@,
                        0,
                    ) == Resolution::Found(res->Leaf_0.node@, res->Leaf_0.file_type)
                    &&& !(res is Leaf) ==> resolve(
                        self.store_of().contents(),
                        self.root_link(),
                        path@,
                        0,
                    ) == Resolution::FoundDir
                },
                Ok(None) => resolve(self.store_of().contents(), self.root_link(), path@, 0)
                    == Resolution::Absent,
                Err(Error::FileWhereDirectoryExpected(q)) => q@ == path@.take(q@.len() as int)
                    && resolve(self.store_of().contents(), self.root_link(), path@, 0)
                        == Resolution::FileInWay(q@.len() as int),
                Err(Error::StoreNotFound(p, n)) => resolve(
                    self.store_of().contents(),
                    self.root_link(),
                    path@,
                    0,
                ) == Resolution::Missing(p@, n@),
                Err(_) => false,
            },
    {
        proof {
            assert(path@.take(0) =~= Seq::<Seq<u8>>::empty());
            if path@.len() == 0 {
                assert(path@ =~= Seq::<Seq<u8>>::empty());
            }
        }
        find_link(&self.store, &self.root, path, 0, Ghost(Seq::empty()))
    }

    /// Every file in the tree, as `(path, metadata)` pairs in strictly
    /// ascending path order.
    pub fn files(&self) -> (r: Result<Vec<(RepoPathBuf, FileMetadata)>, Error>)
        requires
            self.inv(),
        ensures
            match r {
                Ok(v) => {
                    &&& forall|a: int, b: int|
                        0 <= a < b < v@.len() ==> path_lt(
                            (#[trigger] v@[a]).0@,
                            (#[trigger] v@[b]).0@,
                        )
                    &&& self.loaded() ==> {
                        &&& forall|a: int|
                            0 <= a < v@.len() ==> self@.contains_key((#[trigger] v@[a]).0@)
                                && self@[v@[a].0@] == v@[a].1
                        &&& forall|p: Seq<Seq<u8>>| #[trigger]
                            self@.contains_key(p) ==> seg_has(v@, 0, p, self@[p])
                    }
                },
                Err(_) => !self.loaded(),
            },
            self.root_link() is Durable && self.root_link()->Durable_1 is None
                && !self.store_of().contents().contains_key(
                (Seq::empty(), self.root_link()->Durable_0@),
            ) ==> r is Err,
    {
        let mut out: Vec<(RepoPathBuf, FileMetadata)> = Vec::new();
        let mut at = RepoPathBuf::new();
        proof {
            assert(at@ =~= Seq::<Seq<u8>>::empty());
        }
        match files_into(&self.store, &self.root, &mut at, &mut out, u64::MAX) {
            Ok(()) => Ok(out),
            Err(e) => Err(e),
        }
    }

    /// Records `file_metadata` at `path`, creating directories on the way
    /// and overwriting an existing file there; refuses the root, a path
    /// crossing a file, and a path naming a directory.
    pub fn insert(&mut self, path: RepoPathBuf, file_metadata: FileMetadata) -> (r: Result<
        (),
        Error,
    >)
        requires
            old(self).inv(),
        ensures
            final(self).inv(),
            final(self).store_of() == old(self).store_of(),
            r is Ok ==> final(self).durable_root() is None,
            match r {
                Ok(()) => path@.len() > 0 && (resolve(
                    old(self).store_of().contents(),
                    old(self).root_link(),
                    path@,
                    0,
                ) is Found || resolve(
                    old(self).store_of().contents(),
                    old(self).root_link(),
                    path@,
                    0,
                ) is Absent),
                Err(Error::CannotInsertRoot) => path@.len() == 0,
                Err(Error::DirectoryWhereFileExpected(q)) => resolve(
                    old(self).store_of().contents(),
                    old(self).root_link(),
                    path@,
                    0,
                ) == Resolution::FoundDir,
                Err(Error::FileWhereDirectoryExpected(q)) => q@ == path@.take(q@.len() as int)
                    && resolve(old(self).store_of().contents(), old(self).root_link(), path@, 0)
                        == Resolution::FileInWay(q@.len() as int),
                Err(Error::StoreNotFound(p, n)) => resolve(
                    old(self).store_of().contents(),
                    old(self).root_link(),
                    path@,
                    0,
                ) == Resolution::Missing(p@, n@),
                Err(_) => false,
            },
            old(self).loaded() ==> {
                &&& final(self).loaded()
                &&& match r {
                    Ok(()) => path@.len() > 0 && !map_has_file_prefix(old(self)@, path@)
                        && !map_has_dir(old(self)@, path@) && final(self)@ == old(self)@.insert(
                        path@,
                        file_metadata,
                    ),
                    Err(Error::CannotInsertRoot) => path@.len() == 0 && final(self)@ == old(
                        self,
                    )@,
                    Err(Error::FileWhereDirectoryExpected(q)) => strict_prefix(q@, path@) && old(
                        self,
                    )@.contains_key(q@) && final(self)@ == old(self)@,
                    Err(Error::DirectoryWhereFileExpected(q)) => q@ == path@ && path@.len() > 0
                        && map_has_dir(old(self)@, path@) && final(self)@ == old(self)@,
                    Err(_) => false,
                }
            },
    {
        if path.is_empty() {
            return Err(Error::CannotInsertRoot);
        }
        proof {
            assert(path@.take(0) =~= Seq::<Seq<u8>>::empty());
        }
        let mut root: Link = Link::Ephemeral(Vec::new());
        core::mem::swap(&mut root, &mut self.root);
        let (root2, err) = insert_at(
            &self.store,
            root,
            &path,
            0,
            file_metadata,
            Ghost(Seq::empty()),
        );
        self.root = root2;
        match err {
            None => Ok(()),
            Some(e) => Err(e),
        }
    }

    /// Removes the file at `path`; removing an absent path is a no-op, and
    /// directories emptied on the way back up are pruned. Refuses the root,
    /// a path crossing a file, and a path naming a directory.
    pub fn remove(&mut self, path: &RepoPathBuf) -> (r: Result<(), Error>)
        requires
            old(self).inv(),
        ensures
            final(self).inv(),
            final(self).store_of() == old(self).store_of(),
            r is Ok ==> final(self).durable_root() is None,
            match r {
                Ok(()) => path@.len() > 0 && (resolve(
                    old(self).store_of().contents(),
                    old(self).root_link(),
                    path@,
                    0,
                ) is Found || resolve(
                    old(self).store_of().contents(),
                    old(self).root_link(),
                    path@,
                    0,
                ) is Absent),
                Err(Error::RemoveDirectory(q)) => path@.len() == 0 || resolve(
                    old(self).store_of().contents(),
                    old(self).root_link(),
                    path@,
                    0,
                ) == Resolution::FoundDir,
                Err(Error::FileWhereDirectoryExpected(q)) => q@ == path@.take(q@.len() as int)
                    && resolve(old(self).store_of().contents(), old(self).root_link(), path@, 0)
                        == Resolution::FileInWay(q@.len() as int),
                Err(Error::StoreNotFound(p, n)) => resolve(
                    old(self).store_of().contents(),
                    old(self).root_link(),
                    path@,
                    0,
                ) == Resolution::Missing(p@, n@),
                Err(_) => false,
            },
            old(self).loaded() ==> {
                &&& final(self).loaded()
                &&& match r {
                    Ok(()) => path@.len() > 0 && !map_has_file_prefix(old(self)@, path@)
                        && !map_has_dir(old(self)@, path@) && final(self)@ == old(
                        self,
                    )@.remove(path@),
                    Err(Error::RemoveDirectory(q)) => q@ == path@ && (path@.len() == 0
                        || map_has_dir(old(self)@, path@)) && final(self)@ == old(self)@,
                    Err(Error::FileWhereDirectoryExpected(q)) => strict_prefix(q@, path@) && old(
                        self,
                    )@.contains_key(q@) && final(self)@ == old(self)@,
                    Err(_) => false,
                }
            },
    {
        if path.is_empty() {
            return Err(Error::RemoveDirectory(path.clone()));
        }
        proof {
            assert(path@.take(0) =~= Seq::<Seq<u8>>::empty());
        }
        let mut root: Link = Link::Ephemeral(Vec::new());
        core::mem::swap(&mut root, &mut self.root);
        let (root2, err) = remove_at(&self.store, root, path, 0, Ghost(Seq::empty()));
        match root2 {
            Some(r2) => {
                self.root = r2;
            }
            None => {
                self.root = Link::Ephemeral(Vec::new());
                proof {
                    if old(self).loaded() {
                        assert(self@ =~= Map::<Seq<Seq<u8>>, FileMetadata>::empty());
                    }
                }
            }
        }
        match err {
            None => Ok(()),
            Some(e) => Err(e),
        }
    }

    /// Persists every live directory into the store and hands back the root
    /// node id. The tree's files are unchanged; the root becomes durable.
    pub fn flush(&mut self) -> (r: Result<NodeId, Error>)
        requires
            old(self).inv(),
        ensures
            final(self).inv(),
            final(self)@ == old(self)@,
            old(self).loaded() ==> final(self).loaded(),
            store_preserved(
                old(self).store_of().contents(),
                final(self).store_of().contents(),
            ),
            link_node(final(self).root_link()) == link_node(old(self).root_link()),
            old(self).root_link() is Durable ==> r is Ok && final(self).store_of().contents()
                == old(self).store_of().contents(),
            r is Ok ==> flushed_to(
                final(self).store_of().contents(),
                old(self).root_link(),
                Seq::empty(),
            ),
            flush_clear(old(self).store_of().contents(), old(self).root_link(), Seq::empty())
                ==> r is Ok,
            match r {
                Ok(n) => n@ == link_node(old(self).root_link()) && final(self).durable_root()
                    == Some(n@),
                Err(e) => e is StoreConflict,
            },
    {
        let mut root: Link = Link::Ephemeral(Vec::new());
        core::mem::swap(&mut root, &mut self.root);
        let mut at = RepoPathBuf::new();
        proof {
            assert(at@ =~= Seq::<Seq<u8>>::empty());
        }
        let (root2, r2) = flush_link(&mut self.store, &mut at, root);
        self.root = root2;
        match r2 {
            Ok((n, _)) => Ok(n),
            Err(e) => Err(e),
        }
    }
}

/// A copy of the link: leaf-ness, metadata, shape, meaning (file map), and
/// node id all carry over.
pub(crate) fn clone_link(l: &Link, Ghost(base): Ghost<Seq<Seq<u8>>>) -> (r: Link)
    ensures
        (r is Leaf) == (l is Leaf),
        r is Leaf ==> r->Leaf_0 == l->Leaf_0,
        child_is_empty_dir(r) == child_is_empty_dir(*l),
        link_wf(*l) ==> link_wf(r),
        link_files(r, base) == link_files(*l, base),
        link_node(r) == link_node(*l),
        flag_of(r) == flag_of(*l),
        materialized(*l) ==> materialized(r),
        honest(*l) ==> honest(r),
    decreases l,
{
    match l {
        Link::Leaf(m) => Link::Leaf(*m),
        Link::Ephemeral(ch) => {
            let r = Link::Ephemeral(clone_children(ch, Ghost(base)));
            proof {
                lemma_clone_semantics(ch@, r->Ephemeral_0@, base);
            }
            r
        }
        Link::Durable(n, None) => Link::Durable(*n, None),
        Link::Durable(n, Some(ch)) => {
            let r = Link::Durable(*n, Some(clone_children(ch, Ghost(base))));
            proof {
                lemma_clone_semantics(ch@, r->Durable_1->Some_0@, base);
            }
            r
        }
    }
}

/// Children cloned name-for-name and meaning-for-meaning give the same
/// children map, entries, and flags.
proof fn lemma_clone_semantics(
    s1: Seq<(PathComponentBuf, Link)>,
    s2: Seq<(PathComponentBuf, Link)>,
    base: Seq<Seq<u8>>,
)
    requires
        s1.len() == s2.len(),
        forall|i: int| 0 <= i < s1.len() ==> (#[trigger] s2[i]).0@ == s1[i].0@,
        forall|i: int|
            0 <= i < s1.len() ==> link_files((#[trigger] s2[i]).1, base.push(s1[i].0@))
                == link_files(s1[i].1, base.push(s1[i].0@)) && link_node(s2[i].1) == link_node(
                s1[i].1,
            ) && flag_of(s2[i].1) == flag_of(s1[i].1),
    ensures
        children_files(s2, base) == children_files(s1, base),
        entries_of(s2) == entries_of(s1),
{
    lemma_children_files_congruence(s2, s1, base);
    lemma_entries_of_index(s1);
    lemma_entries_of_index(s2);
    assert forall|i: int| 0 <= i < s1.len() implies entries_of(s2)[i] == entries_of(s1)[i] by {
        assert((#[trigger] s2[i]).0@ == s1[i].0@);
        assert(link_node(s2[i].1) == link_node(s1[i].1));
        assert(flag_of(s2[i].1) == flag_of(s1[i].1));
    }
    assert(entries_of(s2) =~= entries_of(s1));
}

#[verifier::loop_isolation(false)]
fn clone_children(ch: &Vec<(PathComponentBuf, Link)>, Ghost(base): Ghost<Seq<Seq<u8>>>) -> (r: Vec<
    (PathComponentBuf, Link),
>)
    ensures
        r@.len() == ch@.len(),
        forall|i: int| 0 <= i < r@.len() ==> (#[trigger] r@[i]).0@ == ch@[i].0@,
        forall|i: int|
            0 <= i < r@.len() ==> child_is_empty_dir((#[trigger] r@[i]).1) == child_is_empty_dir(
                ch@[i].1,
            ) && (link_wf(ch@[i].1) ==> link_wf(r@[i].1)),
        forall|i: int|
            0 <= i < r@.len() ==> link_files((#[trigger] r@[i]).1, base.push(ch@[i].0@))
                == link_files(ch@[i].1, base.push(ch@[i].0@)) && link_node(r@[i].1) == link_node(
                ch@[i].1,
            ) && flag_of(r@[i].1) == flag_of(ch@[i].1) && (materialized(ch@[i].1) ==> materialized(
                r@[i].1,
            )) && (honest(ch@[i].1) ==> honest(r@[i].1)),
        children_wf(ch@) ==> children_wf(r@),
    decreases ch,
{
    let mut r: Vec<(PathComponentBuf, Link)> = Vec::new();
    let mut i: usize = 0;
    while i < ch.len()
        invariant
            i <= ch.len(),
            r@.len() == i,
            forall|k: int| 0 <= k < i ==> (#[trigger] r@[k]).0@ == ch@[k].0@,
            forall|k: int|
                0 <= k < i ==> child_is_empty_dir((#[trigger] r@[k]).1) == child_is_empty_dir(
                    ch@[k].1,
                ) && (link_wf(ch@[k].1) ==> link_wf(r@[k].1)),
            forall|k: int|
                0 <= k < i ==> link_files((#[trigger] r@[k]).1, base.push(ch@[k].0@))
                    == link_files(ch@[k].1, base.push(ch@[k].0@)) && link_node(r@[k].1)
                    == link_node(ch@[k].1) && flag_of(r@[k].1) == flag_of(ch@[k].1) && (
                materialized(ch@[k].1) ==> materialized(r@[k].1)) && (honest(ch@[k].1) ==> honest(
                    r@[k].1,
                )),
        decreases ch.len() - i,
    {
        proof {
            assert(decreases_to!(*ch => ch@));
            assert(decreases_to!(ch@ => ch@[i as int]));
            assert(decreases_to!(ch@[i as int] => ch@[i as int].1));
        }
        let name = ch[i].0.clone();
        let link = clone_link(&ch[i].1, Ghost(base.push(ch@[i as int].0@)));
        r.push((name, link));
        i = i + 1;
    }
    r
}

/// Finds `name` among sorted children: the index where it sits, or the
/// index where it would be inserted.
#[verifier::loop_isolation(false)]
fn find_child(ch: &Vec<(PathComponentBuf, Link)>, name: &PathComponentBuf) -> (r: Result<
    usize,
    usize,
>)
    requires
        forall|a: int, b: int|
            0 <= a < b < ch@.len() ==> bytes_lt((#[trigger] ch@[a]).0@, (#[trigger] ch@[b]).0@),
    ensures
        match r {
            Ok(i) => i < ch@.len() && ch@[i as int].0@ == name@,
            Err(i) => {
                &&& i <= ch@.len()
                &&& forall|j: int| 0 <= j < ch@.len() ==> (#[trigger] ch@[j]).0@ != name@
                &&& forall|j: int| 0 <= j < i ==> bytes_lt((#[trigger] ch@[j]).0@, name@)
                &&& forall|j: int|
                    i <= j < ch@.len() ==> bytes_lt(name@, (#[trigger] ch@[j]).0@)
            },
        },
{
    let mut i: usize = 0;
    while i < ch.len()
        invariant
            i <= ch@.len(),
            forall|j: int| 0 <= j < i ==> bytes_lt((#[trigger] ch@[j]).0@, name@),
        decreases ch@.len() - i,
    {
        match cmp_bytes(ch[i].0.as_bytes(), name.as_bytes()) {
            Rel::Lt => {
                i = i + 1;
            }
            Rel::Eq => {
                return Ok(i);
            }
            Rel::Gt => {
                proof {
                    assert forall|j: int| i <= j < ch@.len() implies bytes_lt(
                        name@,
                        (#[trigger] ch@[j]).0@,
                    ) by {
                        if j > i {
                            crate::path::lemma_bytes_lt_trans(name@, ch@[i as int].0@, ch@[j].0@);
                        }
                    }
                    assert forall|j: int| 0 <= j < ch@.len() implies (#[trigger] ch@[j]).0@
                        != name@ by {
                        crate::path::lemma_bytes_lt_trichotomy(ch@[j].0@, name@);
                    }
                }
                return Err(i);
            }
        }
    }
    proof {
        assert forall|j: int| 0 <= j < ch@.len() implies (#[trigger] ch@[j]).0@ != name@ by {
            crate::path::lemma_bytes_lt_trichotomy(ch@[j].0@, name@);
        }
    }
    Err(i)
}

/// Turns a store entry into a fresh child list: files become leaves, and
/// subdirectories durable links that are fetched on demand.
#[verifier::loop_isolation(false)]
pub(crate) fn entry_to_children(entry: &Entry) -> (r: Vec<(PathComponentBuf, Link)>)
    requires
        elements_sorted(entry@),
    ensures
        r@.len() == entry@.len(),
        forall|i: int| 0 <= i < r@.len() ==> (#[trigger] r@[i]).0@ == entry@[i].0,
        children_wf(r@),
        children_honest(r@),
        forall|i: int|
            0 <= i < r@.len() ==> match entry@[i].2 {
                Flag::File(ft) => (#[trigger] r@[i]).1 is Leaf && r@[i].1->Leaf_0.node@
                    == entry@[i].1 && r@[i].1->Leaf_0.file_type == ft,
                Flag::Directory => r@[i].1 is Durable && r@[i].1->Durable_0@ == entry@[i].1
                    && r@[i].1->Durable_1 is None,
            },
{
    let mut r: Vec<(PathComponentBuf, Link)> = Vec::new();
    let n = entry.len();
    let mut i: usize = 0;
    while i < n
        invariant
            i <= n,
            n == entry@.len(),
            r@.len() == i,
            forall|k: int| 0 <= k < i ==> (#[trigger] r@[k]).0@ == entry@[k].0,
            forall|k: int|
                0 <= k < i ==> link_wf((#[trigger] r@[k]).1) && !child_is_empty_dir(r@[k].1)
                    && honest(r@[k].1),
            forall|k: int|
                0 <= k < i ==> match entry@[k].2 {
                    Flag::File(ft) => (#[trigger] r@[k]).1 is Leaf && r@[k].1->Leaf_0.node@
                        == entry@[k].1 && r@[k].1->Leaf_0.file_type == ft,
                    Flag::Directory => r@[k].1 is Durable && r@[k].1->Durable_0@ == entry@[k].1
                        && r@[k].1->Durable_1 is None,
                },
        decreases n - i,
    {
        let el = entry.element(i);
        let name = el.name.clone();
        let link = match el.flag {
            Flag::File(ft) => Link::Leaf(FileMetadata::new(el.node, ft)),
            Flag::Directory => Link::Durable(el.node, None),
        };
        r.push((name, link));
        i = i + 1;
    }
    r
}


/// What walking `path` finds, resolved against the store where the tree is
/// not in memory: a file (by node bytes and type), a directory, nothing, a
/// file met partway (at the given depth), or a store entry that is absent.
pub enum Resolution {
    Found(Seq<u8>, FileType),
    FoundDir,
    Absent,
    FileInWay(int),
    Missing(Seq<Seq<u8>>, Seq<u8>),
}

/// The index of `name` in a child list, or a negative number.
pub open spec fn find_kid(ch: Seq<(PathComponentBuf, Link)>, name: Seq<u8>) -> int
    decreases ch.len(),
{
    if ch.len() == 0 {
        -1
    } else if ch[0].0@ == name {
        0
    } else if find_kid(ch.drop_first(), name) < 0 {
        -1
    } else {
        find_kid(ch.drop_first(), name) + 1
    }
}

/// The index of `name` among entry elements, or a negative number.
pub open spec fn find_elem(es: Seq<(Seq<u8>, Seq<u8>, Flag)>, name: Seq<u8>) -> int
    decreases es.len(),
{
    if es.len() == 0 {
        -1
    } else if es[0].0 == name {
        0
    } else if find_elem(es.drop_first(), name) < 0 {
        -1
    } else {
        find_elem(es.drop_first(), name) + 1
    }
}

/// Resolves `path[i..]` under the link `l`, reading unmaterialized durable
/// directories out of the store map `m`.
pub open spec fn resolve(
    m: Map<(Seq<Seq<u8>>, Seq<u8>), Seq<(Seq<u8>, Seq<u8>, Flag)>>,
    l: Link,
    path: Seq<Seq<u8>>,
    i: int,
) -> Resolution
    decreases path.len() - i, 1int, l,
{
    if i < 0 || i >= path.len() {
        match l {
            Link::Leaf(fm) => Resolution::Found(fm.node@, fm.file_type),
            _ => Resolution::FoundDir,
        }
    } else {
        match l {
            Link::Leaf(_) => Resolution::FileInWay(i),
            Link::Ephemeral(ch) => resolve_children(m, ch@, path, i),
            Link::Durable(n, Some(ch)) => resolve_children(m, ch@, path, i),
            Link::Durable(n, None) => if !m.contains_key((path.take(i), n@)) {
                Resolution::Missing(path.take(i), n@)
            } else {
                resolve_entry(m, m[(path.take(i), n@)], path, i)
            },
        }
    }
}

pub open spec fn resolve_children(
    m: Map<(Seq<Seq<u8>>, Seq<u8>), Seq<(Seq<u8>, Seq<u8>, Flag)>>,
    ch: Seq<(PathComponentBuf, Link)>,
    path: Seq<Seq<u8>>,
    i: int,
) -> Resolution
    decreases path.len() - i, 0int, ch,
{
    if i < 0 || i >= path.len() {
        Resolution::FoundDir
    } else if find_kid(ch, path[i]) < 0 {
        Resolution::Absent
    } else {
        resolve(m, ch[find_kid(ch, path[i])].1, path, i + 1)
    }
}

pub open spec fn resolve_entry(
    m: Map<(Seq<Seq<u8>>, Seq<u8>), Seq<(Seq<u8>, Seq<u8>, Flag)>>,
    es: Seq<(Seq<u8>, Seq<u8>, Flag)>,
    path: Seq<Seq<u8>>,
    i: int,
) -> Resolution
    decreases path.len() - i, 0int,
{
    if i < 0 || i >= path.len() {
        Resolution::FoundDir
    } else if find_elem(es, path[i]) < 0 {
        Resolution::Absent
    } else {
        match es[find_elem(es, path[i])].2 {
            Flag::File(ft) => if i + 1 == path.len() {
                Resolution::Found(es[find_elem(es, path[i])].1, ft)
            } else {
                Resolution::FileInWay(i + 1)
            },
            Flag::Directory => if i + 1 == path.len() {
                Resolution::FoundDir
            } else if !m.contains_key((path.take(i + 1), es[find_elem(es, path[i])].1)) {
                Resolution::Missing(path.take(i + 1), es[find_elem(es, path[i])].1)
            } else {
                resolve_entry(m, m[(path.take(i + 1), es[find_elem(es, path[i])].1)], path, i + 1)
            },
        }
    }
}

/// A present name with no duplicates is found at its own index.
proof fn lemma_find_kid_at(ch: Seq<(PathComponentBuf, Link)>, j: int, name: Seq<u8>)
    requires
        forall|a: int, b: int|
            0 <= a < b < ch.len() ==> (#[trigger] ch[a]).0@ != (#[trigger] ch[b]).0@,
        0 <= j < ch.len(),
        ch[j].0@ == name,
    ensures
        find_kid(ch, name) == j,
    decreases ch.len(),
{
    if j > 0 {
        assert(forall|a: int|
            0 <= a < ch.drop_first().len() ==> #[trigger] ch.drop_first()[a] == ch[a + 1]);
        lemma_find_kid_at(ch.drop_first(), j - 1, name);
    }
}

/// An absent name is not found.
proof fn lemma_find_kid_none(ch: Seq<(PathComponentBuf, Link)>, name: Seq<u8>)
    requires
        forall|a: int| 0 <= a < ch.len() ==> (#[trigger] ch[a]).0@ != name,
    ensures
        find_kid(ch, name) < 0,
    decreases ch.len(),
{
    if ch.len() > 0 {
        assert(forall|a: int|
            0 <= a < ch.drop_first().len() ==> #[trigger] ch.drop_first()[a] == ch[a + 1]);
        lemma_find_kid_none(ch.drop_first(), name);
    }
}

/// Children mirroring entry elements name for name are searched alike.
proof fn lemma_find_agree(
    ch: Seq<(PathComponentBuf, Link)>,
    es: Seq<(Seq<u8>, Seq<u8>, Flag)>,
    name: Seq<u8>,
)
    requires
        ch.len() == es.len(),
        forall|a: int| 0 <= a < ch.len() ==> (#[trigger] ch[a]).0@ == es[a].0,
    ensures
        find_kid(ch, name) == find_elem(es, name),
    decreases ch.len(),
{
    if ch.len() > 0 {
        assert(forall|a: int|
            0 <= a < ch.drop_first().len() ==> #[trigger] ch.drop_first()[a] == ch[a + 1]);
        assert(forall|a: int|
            0 <= a < es.drop_first().len() ==> #[trigger] es.drop_first()[a] == es[a + 1]);
        lemma_find_agree(ch.drop_first(), es.drop_first(), name);
    }
}

/// A found index is in range and names the sought child.
proof fn lemma_find_kid_bounds(ch: Seq<(PathComponentBuf, Link)>, name: Seq<u8>)
    requires
        find_kid(ch, name) >= 0,
    ensures
        0 <= find_kid(ch, name) < ch.len(),
        ch[find_kid(ch, name)].0@ == name,
    decreases ch.len(),
{
    if ch.len() > 0 && ch[0].0@ != name {
        lemma_find_kid_bounds(ch.drop_first(), name);
        assert(ch.drop_first()[find_kid(ch.drop_first(), name)] == ch[find_kid(ch, name)]);
    }
}

/// A child list built from an entry resolves exactly as the entry does.
proof fn lemma_resolve_built(
    m: Map<(Seq<Seq<u8>>, Seq<u8>), Seq<(Seq<u8>, Seq<u8>, Flag)>>,
    ch: Seq<(PathComponentBuf, Link)>,
    es: Seq<(Seq<u8>, Seq<u8>, Flag)>,
    path: Seq<Seq<u8>>,
    i: int,
)
    requires
        0 <= i < path.len(),
        ch.len() == es.len(),
        forall|a: int| 0 <= a < ch.len() ==> (#[trigger] ch[a]).0@ == es[a].0,
        forall|a: int|
            0 <= a < ch.len() ==> match es[a].2 {
                Flag::File(ft) => (#[trigger] ch[a]).1 is Leaf && ch[a].1->Leaf_0.node@ == es[a].1
                    && ch[a].1->Leaf_0.file_type == ft,
                Flag::Directory => ch[a].1 is Durable && ch[a].1->Durable_0@ == es[a].1
                    && ch[a].1->Durable_1 is None,
            },
    ensures
        resolve_children(m, ch, path, i) == resolve_entry(m, es, path, i),
{
    lemma_find_agree(ch, es, path[i]);
    let j = find_kid(ch, path[i]);
    if j >= 0 {
        lemma_find_kid_bounds(ch, path[i]);
        match es[j].2 {
            Flag::File(ft) => {
                assert(ch[j].1 is Leaf);
            }
            Flag::Directory => {
                assert(ch[j].1 is Durable && ch[j].1->Durable_1 is None);
            }
        }
    }
}

/// Resolves `path[i..]` under `l`, whose own path is `base`; hands back a
/// copy of the link found there.
#[verifier::loop_isolation(false)]
fn find_link<S: Store>(
    store: &S,
    l: &Link,
    path: &RepoPathBuf,
    i: usize,
    Ghost(base): Ghost<Seq<Seq<u8>>>,
) -> (r: Result<Option<Link>, Error>)
    requires
        store.inv(),
        link_wf(*l),
        i <= path@.len(),
        base == path@.take(i as int),
    ensures
        loaded(*l) ==> match r {
            Ok(Some(res)) => {
                &&& (res is Leaf) == link_files(*l, base).contains_key(path@)
                &&& (res is Leaf ==> link_files(*l, base)[path@] == res->Leaf_0)
                &&& (!(res is Leaf) ==> path@ == base || map_has_dir(link_files(*l, base), path@))
            },
            Ok(None) => {
                &&& path@ != base
                &&& !link_files(*l, base).contains_key(path@)
                &&& !map_has_dir(link_files(*l, base), path@)
                &&& !map_has_file_prefix(link_files(*l, base), path@)
            },
            Err(Error::FileWhereDirectoryExpected(q)) => strict_prefix(q@, path@) && link_files(
                *l,
                base,
            ).contains_key(q@),
            Err(_) => false,
        },
        match r {
            Ok(Some(res)) => {
                &&& res is Leaf ==> resolve(store.contents(), *l, path@, i as int)
                    == Resolution::Found(res->Leaf_0.node@, res->Leaf_0.file_type)
                &&& !(res is Leaf) ==> resolve(store.contents(), *l, path@, i as int)
                    == Resolution::FoundDir
            },
            Ok(None) => resolve(store.contents(), *l, path@, i as int) == Resolution::Absent,
            Err(Error::FileWhereDirectoryExpected(q)) => q@ == path@.take(q@.len() as int)
                && resolve(store.contents(), *l, path@, i as int) == Resolution::FileInWay(
                q@.len() as int,
            ),
            Err(Error::StoreNotFound(p, n)) => resolve(store.contents(), *l, path@, i as int)
                == Resolution::Missing(p@, n@),
            Err(_) => false,
        },
    decreases path@.len() - i, 1int,
{
    if i == path.num_components() {
        proof {
            assert(path@.take(path@.len() as int) =~= path@);
            if loaded(*l) {
                lemma_link_files_prefix(*l, base);
                if !(l is Leaf) && link_files(*l, base).contains_key(path@) {
                    assert(strict_prefix(base, path@));
                }
            }
        }
        return Ok(Some(clone_link(l, Ghost(base))));
    }
    match l {
        Link::Leaf(_) => {
            let q = path.prefix(i);
            proof {
                if loaded(*l) {
                    assert(base.take(base.len() as int) =~= base);
                    assert(link_files(*l, base).contains_key(base));
                    assert(strict_prefix(base, path@));
                }
            }
            Err(Error::FileWhereDirectoryExpected(q))
        }
        Link::Ephemeral(ch) => find_in_children(store, ch, path, i, Ghost(base)),
        Link::Durable(_, Some(ch)) => find_in_children(store, ch, path, i, Ghost(base)),
        Link::Durable(n, None) => {
            let at = path.prefix(i);
            let entry = match store.get(&at, n) {
                Ok(e) => e,
                Err(e) => {
                    return Err(e);
                }
            };
            let children = entry_to_children(&entry);
            let r = find_in_children(store, &children, path, i, Ghost(base));
            proof {
                lemma_resolve_built(store.contents(), children@, entry@, path@, i as int);
            }
            r
        }
    }
}

/// Resolves `path[i..]` among the sorted children of a directory at `base`.
#[verifier::loop_isolation(false)]
fn find_in_children<S: Store>(
    store: &S,
    ch: &Vec<(PathComponentBuf, Link)>,
    path: &RepoPathBuf,
    i: usize,
    Ghost(base): Ghost<Seq<Seq<u8>>>,
) -> (r: Result<Option<Link>, Error>)
    requires
        store.inv(),
        children_wf(ch@),
        i < path@.len(),
        base == path@.take(i as int),
    ensures
        children_materialized(ch@) && children_honest(ch@) ==> match r {
            Ok(Some(res)) => {
                &&& (res is Leaf) == children_files(ch@, base).contains_key(path@)
                &&& (res is Leaf ==> children_files(ch@, base)[path@] == res->Leaf_0)
                &&& (!(res is Leaf) ==> map_has_dir(children_files(ch@, base), path@))
            },
            Ok(None) => {
                &&& !children_files(ch@, base).contains_key(path@)
                &&& !map_has_dir(children_files(ch@, base), path@)
                &&& !map_has_file_prefix(children_files(ch@, base), path@)
            },
            Err(Error::FileWhereDirectoryExpected(q)) => strict_prefix(q@, path@)
                && children_files(ch@, base).contains_key(q@),
            Err(_) => false,
        },
        match r {
            Ok(Some(res)) => {
                &&& res is Leaf ==> resolve_children(store.contents(), ch@, path@, i as int)
                    == Resolution::Found(res->Leaf_0.node@, res->Leaf_0.file_type)
                &&& !(res is Leaf) ==> resolve_children(store.contents(), ch@, path@, i as int)
                    == Resolution::FoundDir
            },
            Ok(None) => resolve_children(store.contents(), ch@, path@, i as int)
                == Resolution::Absent,
            Err(Error::FileWhereDirectoryExpected(q)) => q@ == path@.take(q@.len() as int)
                && resolve_children(store.contents(), ch@, path@, i as int)
                    == Resolution::FileInWay(q@.len() as int),
            Err(Error::StoreNotFound(p, n)) => resolve_children(store.contents(), ch@, path@, i as int)
                == Resolution::Missing(p@, n@),
            Err(_) => false,
        },
    decreases path@.len() - i, 0int,
{
    let n_comps = path.num_components();
    let ghost cf = children_files(ch@, base);
    proof {
        assert forall|a: int, b: int| 0 <= a < b < ch@.len() implies (#[trigger] ch@[a]).0@ != (
        #[trigger] ch@[b]).0@ by {
            crate::path::lemma_bytes_lt_trichotomy(ch@[a].0@, ch@[b].0@);
        }
    }
    match find_child(ch, path.component(i)) {
        Ok(j) => {
            let ghost name = ch@[j as int].0@;
            let ghost cbase = base.push(name);
            proof {
                assert(cbase =~= path@.take(i + 1));
                assert(is_prefix(cbase, path@)) by {
                    assert(path@.take(cbase.len() as int) == cbase);
                }
            }
            let r = find_link(store, &ch[j].1, path, i + 1, Ghost(cbase));
            let ghost gr = r;
            proof {
                lemma_find_kid_at(ch@, j as int, path@[i as int]);
                if children_materialized(ch@) && children_honest(ch@) {
                    let child = ch@[j as int].1;
                    let chf = link_files(child, cbase);
                    lemma_child_slice(ch@, base, j as int, path@);
                    lemma_children_files_prefix(ch@, base);
                    lemma_link_files_prefix(child, cbase);
                    match gr {
                        Ok(Some(res)) => {
                            if !(res is Leaf) {
                                // a directory sits at path: itself nonempty, or deeper files
                                if path@ == cbase {
                                    assert(child == ch@[j as int].1);
                                    assert(link_wf(child) && !child_is_empty_dir(child));
                                    lemma_link_files_nonempty(child, cbase);
                                    let w = choose|k: Seq<Seq<u8>>| #[trigger]
                                        chf.contains_key(k);
                                    assert(!(child is Leaf)) by {
                                        if child is Leaf {
                                            assert(chf.contains_key(path@));
                                        }
                                    }
                                    assert(strict_prefix(cbase, w));
                                    lemma_children_files_at(ch@, base, j as int, w);
                                    assert(cf.contains_key(w) && strict_prefix(path@, w));
                                    assert(map_has_dir(cf, path@));
                                } else {
                                    let w = choose|k: Seq<Seq<u8>>| #[trigger]
                                        chf.contains_key(k) && strict_prefix(path@, k);
                                    lemma_children_files_at(ch@, base, j as int, w);
                                    assert(map_has_dir(cf, path@));
                                }
                            }
                        }
                        Ok(None) => {
                            assert(!cf.contains_key(path@));
                            assert forall|k: Seq<Seq<u8>>| #[trigger]
                                cf.contains_key(k) implies !strict_prefix(path@, k) by {
                                if strict_prefix(path@, k) {
                                    lemma_prefix_trans(cbase, path@, k);
                                    lemma_child_slice(ch@, base, j as int, k);
                                    assert(chf.contains_key(k));
                                    assert(map_has_dir(chf, path@));
                                }
                            }
                            assert forall|q: Seq<Seq<u8>>| #[trigger]
                                cf.contains_key(q) implies !strict_prefix(q, path@) by {
                                if strict_prefix(q, path@) {
                                    assert(strict_prefix(base, q));
                                    assert(q.len() >= i + 1);
                                    lemma_prefix_chain(cbase, q, path@);
                                    lemma_child_slice(ch@, base, j as int, q);
                                    assert(chf.contains_key(q));
                                    assert(map_has_file_prefix(chf, path@));
                                }
                            }
                        }
                        Err(Error::FileWhereDirectoryExpected(q)) => {
                            lemma_children_files_at(ch@, base, j as int, q@);
                        }
                        Err(_) => {}
                    }
                }
            }
            r
        }
        Err(_) => {
            proof {
                lemma_find_kid_none(ch@, path@[i as int]);
                if children_materialized(ch@) && children_honest(ch@) {
                    lemma_children_files_prefix(ch@, base);
                    assert(path@[i as int] == path@.take(i + 1)[i as int]);
                    assert(!cf.contains_key(path@)) by {
                        if cf.contains_key(path@) {
                            assert(path@[base.len() as int] == path@[i as int]);
                        }
                    }
                    assert forall|k: Seq<Seq<u8>>| #[trigger] cf.contains_key(k) implies (
                    !strict_prefix(path@, k) && !strict_prefix(k, path@)) by {
                        if strict_prefix(path@, k) {
                            assert(k[base.len() as int] == k.take(path@.len() as int)[base.len() as int]);
                            assert(k[base.len() as int] == path@[i as int]);
                        }
                        if strict_prefix(k, path@) {
                            assert(strict_prefix(base, k));
                            assert(k.len() > i);
                            assert(k[base.len() as int] == path@.take(k.len() as int)[base.len() as int]);
                            assert(k[base.len() as int] == path@[i as int]);
                        }
                    }
                }
            }
            Ok(None)
        }
    }
}

/// Inserts `m` at `path[i..]` below `l` (whose own path is `base`),
/// promoting durable links on the way; hands back the rewritten link and
/// the error, if any, with the original content kept.
#[verifier::loop_isolation(false)]
fn insert_at<S: Store>(
    store: &S,
    l: Link,
    path: &RepoPathBuf,
    i: usize,
    m: FileMetadata,
    Ghost(base): Ghost<Seq<Seq<u8>>>,
) -> (res: (Link, Option<Error>))
    requires
        store.inv(),
        link_wf(l),
        i < path@.len(),
        base == path@.take(i as int),
    ensures
        link_wf(res.0),
        !child_is_empty_dir(res.0),
        res.0 is Leaf ==> l is Leaf,
        res.1 is None ==> res.0 is Ephemeral,
        match res.1 {
            None => resolve(store.contents(), l, path@, i as int) is Found || resolve(
                store.contents(),
                l,
                path@,
                i as int,
            ) is Absent,
            Some(Error::FileWhereDirectoryExpected(q)) => q@ == path@.take(q@.len() as int)
                && resolve(store.contents(), l, path@, i as int) == Resolution::FileInWay(
                q@.len() as int,
            ),
            Some(Error::DirectoryWhereFileExpected(q)) => resolve(store.contents(), l, path@, i as int)
                == Resolution::FoundDir,
            Some(Error::StoreNotFound(p, n)) => resolve(store.contents(), l, path@, i as int)
                == Resolution::Missing(p@, n@),
            Some(_) => false,
        },
        loaded(l) ==> {
            &&& loaded(res.0)
            &&& match res.1 {
                None => !map_has_file_prefix(link_files(l, base), path@) && !map_has_dir(
                    link_files(l, base),
                    path@,
                ) && link_files(res.0, base) == link_files(l, base).insert(path@, m) && res.0
                    is Ephemeral,
                Some(Error::FileWhereDirectoryExpected(q)) => strict_prefix(q@, path@)
                    && link_files(l, base).contains_key(q@) && link_files(res.0, base)
                    == link_files(l, base),
                Some(Error::DirectoryWhereFileExpected(q)) => q@ == path@ && map_has_dir(
                    link_files(l, base),
                    path@,
                ) && link_files(res.0, base) == link_files(l, base),
                Some(_) => false,
            }
        },
    decreases path@.len() - i,
{
    let ghost gl = l;
    let n = path.num_components();
    let mut ch: Vec<(PathComponentBuf, Link)>;
    match l {
        Link::Leaf(lm) => {
            let q = path.prefix(i);
            proof {
                if loaded(gl) {
                    assert(base.take(base.len() as int) =~= base);
                    assert(link_files(gl, base).contains_key(base));
                    assert(strict_prefix(base, path@));
                }
            }
            return (Link::Leaf(lm), Some(Error::FileWhereDirectoryExpected(q)));
        }
        Link::Ephemeral(c) => {
            ch = c;
        }
        Link::Durable(_, Some(c)) => {
            ch = c;
        }
        Link::Durable(nid, None) => {
            let at = path.prefix(i);
            match store.get(&at, &nid) {
                Ok(entry) => {
                    ch = entry_to_children(&entry);
                    proof {
                        lemma_resolve_built(store.contents(), ch@, entry@, path@, i as int);
                    }
                }
                Err(e) => {
                    return (Link::Durable(nid, None), Some(e));
                }
            }
        }
    }
    assert(resolve(store.contents(), gl, path@, i as int) == resolve_children(
        store.contents(),
        ch@,
        path@,
        i as int,
    ));
    assert(children_wf(ch@));
    assert(loaded(gl) ==> children_materialized(ch@) && children_honest(ch@) && link_files(
        gl,
        base,
    ) == children_files(ch@, base));
    let ghost och = ch@;
    let ghost cf = children_files(och, base);
    proof {
        assert forall|a: int, b: int| 0 <= a < b < och.len() implies (#[trigger] och[a]).0@ != (
        #[trigger] och[b]).0@ by {
            crate::path::lemma_bytes_lt_trichotomy(och[a].0@, och[b].0@);
        }
        if loaded(gl) {
            lemma_no_nested_files(gl, base);
            lemma_children_files_prefix(och, base);
        }
    }
    let last = i + 1 == n;
    match find_child(&ch, path.component(i)) {
        Ok(j) => {
            let ghost name = och[j as int].0@;
            let ghost cbase = base.push(name);
            proof {
                assert(cbase =~= path@.take(i + 1));
                assert(is_prefix(cbase, path@)) by {
                    assert(path@.take(cbase.len() as int) == cbase);
                }
                lemma_find_kid_at(ch@, j as int, path@[i as int]);
            }
            if last {
                proof {
                    assert(cbase =~= path@);
                }
                let (cname, child) = ch.remove(j);
                match child {
                    Link::Leaf(_) => {
                        // overwrite the file's metadata
                        ch.insert(j, (cname, Link::Leaf(m)));
                        proof {
                            assert(ch@ =~= och.update(j as int, (och[j as int].0, Link::Leaf(m))));
                            assert(children_wf(ch@)) by {
                                assert(forall|a: int|
                                    0 <= a < ch@.len() ==> (#[trigger] ch@[a]).0@ == och[a].0@);
                                assert(forall|a: int|
                                    0 <= a < ch@.len() && a != j ==> (#[trigger] ch@[a]).1
                                        == och[a].1);
                            }
                            if loaded(gl) {
                                assert(children_materialized(ch@));
                                assert(children_honest(ch@));
                            }
                            let chf = link_files(och[j as int].1, cbase);
                            if loaded(gl) {
                                assert(chf.contains_key(path@));
                                lemma_children_files_at(och, base, j as int, path@);
                                assert(cf.contains_key(path@));
                                assert(link_files(Link::Leaf(m), cbase) =~= chf.insert(path@, m));
                                lemma_cf_update_insert(
                                    och,
                                    j as int,
                                    (och[j as int].0, Link::Leaf(m)),
                                    base,
                                    path@,
                                    m,
                                );
                                // no conflicting prefix or extension: path itself is a file
                                assert forall|q: Seq<Seq<u8>>| #[trigger]
                                    cf.contains_key(q) implies !strict_prefix(q, path@)
                                    && !strict_prefix(path@, q) by {}
                            }
                        }
                        (Link::Ephemeral(ch), None)
                    }
                    other => {
                        // a directory is in the way
                        ch.insert(j, (cname, other));
                        proof {
                            assert(ch@ =~= och);
                            if loaded(gl) {
                                assert(children_materialized(ch@));
                                assert(children_honest(ch@));
                                let child0 = och[j as int].1;
                                assert(link_wf(child0) && !child_is_empty_dir(child0));
                                assert(materialized(child0));
                                lemma_link_files_nonempty(child0, cbase);
                                let w = choose|k: Seq<Seq<u8>>| #[trigger]
                                    link_files(child0, cbase).contains_key(k);
                                lemma_link_files_prefix(child0, cbase);
                                assert(strict_prefix(cbase, w));
                                lemma_children_files_at(och, base, j as int, w);
                                assert(cf.contains_key(w) && strict_prefix(path@, w));
                                assert(map_has_dir(cf, path@));
                            }
                        }
                        (Link::Ephemeral(ch), Some(Error::DirectoryWhereFileExpected(path.clone())))
                    }
                }
            } else {
                let (cname, child) = ch.remove(j);
                let ghost gchild = child;
                let (child2, err) = insert_at(store, child, path, i + 1, m, Ghost(cbase));
                ch.insert(j, (cname, child2));
                proof {
                    assert(ch@ =~= och.update(j as int, (och[j as int].0, child2)));
                    assert(children_wf(ch@)) by {
                        assert(forall|a: int|
                            0 <= a < ch@.len() ==> (#[trigger] ch@[a]).0@ == och[a].0@);
                        assert(forall|a: int|
                            0 <= a < ch@.len() && a != j ==> (#[trigger] ch@[a]).1 == och[a].1);
                    }
                    let gerr = err;
                    if loaded(gl) {
                        assert(materialized(och[j as int].1) && honest(och[j as int].1));
                        assert(children_materialized(ch@));
                        assert(children_honest(ch@));
                        let chf = link_files(gchild, cbase);
                        match gerr {
                            None => {
                                lemma_cf_update_insert(
                                    och,
                                    j as int,
                                    (och[j as int].0, child2),
                                    base,
                                    path@,
                                    m,
                                );
                                assert forall|q: Seq<Seq<u8>>| #[trigger]
                                    cf.contains_key(q) implies !strict_prefix(q, path@) by {
                                    if strict_prefix(q, path@) {
                                        assert(strict_prefix(base, q));
                                        assert(q.len() >= i + 1);
                                        lemma_prefix_chain(cbase, q, path@);
                                        lemma_child_slice(och, base, j as int, q);
                                        assert(chf.contains_key(q));
                                        assert(map_has_file_prefix(chf, path@));
                                    }
                                }
                                assert forall|k: Seq<Seq<u8>>| #[trigger]
                                    cf.contains_key(k) implies !strict_prefix(path@, k) by {
                                    if strict_prefix(path@, k) {
                                        lemma_prefix_trans(cbase, path@, k);
                                        lemma_child_slice(och, base, j as int, k);
                                        assert(chf.contains_key(k));
                                        assert(map_has_dir(chf, path@));
                                    }
                                }
                            }
                            Some(Error::FileWhereDirectoryExpected(q)) => {
                                lemma_children_files_at(och, base, j as int, q@);
                                lemma_cf_update_eq(och, j as int, (och[j as int].0, child2), base);
                            }
                            Some(Error::DirectoryWhereFileExpected(q)) => {
                                let w = choose|k: Seq<Seq<u8>>| #[trigger]
                                    chf.contains_key(k) && strict_prefix(path@, k);
                                lemma_children_files_at(och, base, j as int, w);
                                assert(map_has_dir(cf, path@));
                                lemma_cf_update_eq(och, j as int, (och[j as int].0, child2), base);
                            }
                            Some(_) => {}
                        }
                    }
                }
                (Link::Ephemeral(ch), err)
            }
        }
        Err(j) => {
            let ghost name = path@[i as int];
            let ghost cbase = base.push(name);
            proof {
                lemma_find_kid_none(ch@, path@[i as int]);
                assert(path@[i as int] == path@.take(i + 1)[i as int]);
                assert(cbase =~= path@.take(i + 1));
                assert(is_prefix(cbase, path@)) by {
                    assert(path@.take(cbase.len() as int) == cbase);
                }
                if loaded(gl) {
                    // nothing named path[i] exists here: no conflicts
                    assert forall|q: Seq<Seq<u8>>| #[trigger]
                        cf.contains_key(q) implies !strict_prefix(q, path@) && !strict_prefix(
                        path@,
                        q,
                    ) by {
                        if strict_prefix(q, path@) {
                            assert(strict_prefix(base, q));
                            assert(q.len() > i);
                            assert(q[base.len() as int] == path@.take(q.len() as int)[base.len() as int]);
                            assert(q[base.len() as int] == path@[i as int]);
                        }
                        if strict_prefix(path@, q) {
                            assert(q[base.len() as int] == q.take(path@.len() as int)[base.len() as int]);
                            assert(q[base.len() as int] == path@[i as int]);
                        }
                    }
                }
            }
            let cname = path.component(i).clone();
            if last {
                proof {
                    assert(cbase =~= path@);
                }
                ch.insert(j, (cname, Link::Leaf(m)));
                proof {
                    assert(ch@ =~= och.insert(j as int, (ch@[j as int].0, Link::Leaf(m))));
                    assert(children_wf(ch@)) by {
                        assert(forall|a: int| 0 <= a < j ==> och[a] == #[trigger] ch@[a]);
                        assert(forall|a: int|
                            j < a < ch@.len() ==> och[a - 1] == #[trigger] ch@[a]);
                    }
                    if loaded(gl) {
                        assert(children_materialized(ch@)) by {
                            assert(forall|a: int| 0 <= a < j ==> och[a] == #[trigger] ch@[a]);
                            assert(forall|a: int|
                                j < a < ch@.len() ==> och[a - 1] == #[trigger] ch@[a]);
                        }
                        assert(children_honest(ch@)) by {
                            assert(forall|a: int| 0 <= a < j ==> och[a] == #[trigger] ch@[a]);
                            assert(forall|a: int|
                                j < a < ch@.len() ==> och[a - 1] == #[trigger] ch@[a]);
                        }
                        assert(link_files(Link::Leaf(m), cbase) =~= Map::<
                            Seq<Seq<u8>>,
                            FileMetadata,
                        >::empty().insert(path@, m));
                        lemma_cf_insert_elem(
                            och,
                            j as int,
                            (ch@[j as int].0, Link::Leaf(m)),
                            base,
                            path@,
                            m,
                        );
                    }
                }
                (Link::Ephemeral(ch), None)
            } else {
                let fresh: Link = Link::Ephemeral(Vec::new());
                let ghost gfresh = fresh;
                proof {
                    assert(link_wf(gfresh));
                    assert(loaded(gfresh));
                    assert(link_files(gfresh, cbase) =~= Map::<Seq<Seq<u8>>, FileMetadata>::empty());
                }
                let (child2, err) = insert_at(store, fresh, path, i + 1, m, Ghost(cbase));
                proof {
                    let gerr = err;
                    match gerr {
                        Some(Error::FileWhereDirectoryExpected(q)) => {
                            assert(false);
                        }
                        Some(Error::DirectoryWhereFileExpected(q)) => {
                            assert(false);
                        }
                        _ => {}
                    }
                }
                match err {
                    Some(e) => {
                        proof {
                            assert(false);
                        }
                        (Link::Ephemeral(ch), Some(e))
                    }
                    None => {
                        ch.insert(j, (cname, child2));
                        proof {
                            assert(ch@ =~= och.insert(j as int, (ch@[j as int].0, child2)));
                            assert(children_wf(ch@)) by {
                                assert(forall|a: int| 0 <= a < j ==> och[a] == #[trigger] ch@[a]);
                                assert(forall|a: int|
                                    j < a < ch@.len() ==> och[a - 1] == #[trigger] ch@[a]);
                            }
                            if loaded(gl) {
                                assert(children_materialized(ch@)) by {
                                    assert(forall|a: int|
                                        0 <= a < j ==> och[a] == #[trigger] ch@[a]);
                                    assert(forall|a: int|
                                        j < a < ch@.len() ==> och[a - 1] == #[trigger] ch@[a]);
                                }
                                assert(children_honest(ch@)) by {
                                    assert(forall|a: int|
                                        0 <= a < j ==> och[a] == #[trigger] ch@[a]);
                                    assert(forall|a: int|
                                        j < a < ch@.len() ==> och[a - 1] == #[trigger] ch@[a]);
                                }
                                assert(link_files(child2, cbase) =~= Map::<
                                    Seq<Seq<u8>>,
                                    FileMetadata,
                                >::empty().insert(path@, m));
                                lemma_cf_insert_elem(
                                    och,
                                    j as int,
                                    (ch@[j as int].0, child2),
                                    base,
                                    path@,
                                    m,
                                );
                            }
                        }
                        (Link::Ephemeral(ch), None)
                    }
                }
            }
        }
    }
}

/// Removes the file at `path[i..]` below `l`; `None` in the first slot says
/// the whole subtree is now empty and should be dropped by the parent.
#[verifier::loop_isolation(false)]
fn remove_at<S: Store>(
    store: &S,
    l: Link,
    path: &RepoPathBuf,
    i: usize,
    Ghost(base): Ghost<Seq<Seq<u8>>>,
) -> (res: (Option<Link>, Option<Error>))
    requires
        store.inv(),
        link_wf(l),
        i < path@.len(),
        base == path@.take(i as int),
    ensures
        res.0 is None ==> res.1 is None,
        res.1 is None && res.0 is Some ==> res.0->Some_0 is Ephemeral,
        match res.1 {
            None => resolve(store.contents(), l, path@, i as int) is Found || resolve(
                store.contents(),
                l,
                path@,
                i as int,
            ) is Absent,
            Some(Error::FileWhereDirectoryExpected(q)) => q@ == path@.take(q@.len() as int)
                && resolve(store.contents(), l, path@, i as int) == Resolution::FileInWay(
                q@.len() as int,
            ),
            Some(Error::RemoveDirectory(q)) => resolve(store.contents(), l, path@, i as int)
                == Resolution::FoundDir,
            Some(Error::StoreNotFound(p, n)) => resolve(store.contents(), l, path@, i as int)
                == Resolution::Missing(p@, n@),
            Some(_) => false,
        },
        match res.0 {
            Some(l2) => link_wf(l2) && !child_is_empty_dir(l2) && (l2 is Leaf ==> l is Leaf),
            None => true,
        },
        loaded(l) ==> match res.1 {
            None => {
                &&& !map_has_file_prefix(link_files(l, base), path@)
                &&& !map_has_dir(link_files(l, base), path@)
                &&& match res.0 {
                    Some(l2) => loaded(l2) && link_files(l2, base) == link_files(l, base).remove(
                        path@,
                    ),
                    None => link_files(l, base).remove(path@) == Map::<
                        Seq<Seq<u8>>,
                        FileMetadata,
                    >::empty(),
                }
            },
            Some(Error::FileWhereDirectoryExpected(q)) => strict_prefix(q@, path@) && link_files(
                l,
                base,
            ).contains_key(q@) && (res.0 matches Some(l2)) && loaded(res.0->Some_0) && link_files(
                res.0->Some_0,
                base,
            ) == link_files(l, base),
            Some(Error::RemoveDirectory(q)) => q@ == path@ && map_has_dir(link_files(l, base), path@)
                && (res.0 matches Some(l2)) && loaded(res.0->Some_0) && link_files(
                res.0->Some_0,
                base,
            ) == link_files(l, base),
            Some(_) => false,
        },
    decreases path@.len() - i,
{
    let ghost gl = l;
    let n = path.num_components();
    let mut ch: Vec<(PathComponentBuf, Link)>;
    match l {
        Link::Leaf(lm) => {
            let q = path.prefix(i);
            proof {
                if loaded(gl) {
                    assert(base.take(base.len() as int) =~= base);
                    assert(link_files(gl, base).contains_key(base));
                    assert(strict_prefix(base, path@));
                }
            }
            return (Some(Link::Leaf(lm)), Some(Error::FileWhereDirectoryExpected(q)));
        }
        Link::Ephemeral(c) => {
            ch = c;
        }
        Link::Durable(_, Some(c)) => {
            ch = c;
        }
        Link::Durable(nid, None) => {
            let at = path.prefix(i);
            match store.get(&at, &nid) {
                Ok(entry) => {
                    ch = entry_to_children(&entry);
                    proof {
                        lemma_resolve_built(store.contents(), ch@, entry@, path@, i as int);
                    }
                }
                Err(e) => {
                    return (Some(Link::Durable(nid, None)), Some(e));
                }
            }
        }
    }
    assert(resolve(store.contents(), gl, path@, i as int) == resolve_children(
        store.contents(),
        ch@,
        path@,
        i as int,
    ));
    assert(children_wf(ch@));
    assert(loaded(gl) ==> children_materialized(ch@) && children_honest(ch@) && link_files(
        gl,
        base,
    ) == children_files(ch@, base));
    let ghost och = ch@;
    let ghost cf = children_files(och, base);
    proof {
        assert forall|a: int, b: int| 0 <= a < b < och.len() implies (#[trigger] och[a]).0@ != (
        #[trigger] och[b]).0@ by {
            crate::path::lemma_bytes_lt_trichotomy(och[a].0@, och[b].0@);
        }
        if loaded(gl) {
            lemma_no_nested_files(gl, base);
            lemma_children_files_prefix(och, base);
        }
    }
    let last = i + 1 == n;
    match find_child(&ch, path.component(i)) {
        Ok(j) => {
            let ghost name = och[j as int].0@;
            let ghost cbase = base.push(name);
            proof {
                assert(cbase =~= path@.take(i + 1));
                assert(is_prefix(cbase, path@)) by {
                    assert(path@.take(cbase.len() as int) == cbase);
                }
                lemma_find_kid_at(ch@, j as int, path@[i as int]);
            }
            if last {
                proof {
                    assert(cbase =~= path@);
                }
                let (cname, child) = ch.remove(j);
                match child {
                    Link::Leaf(_) => {
                        // delete the file; prune this directory if now empty
                        proof {
                            assert(ch@ =~= och.remove(j as int));
                            assert(children_wf(ch@)) by {
                                assert(forall|a: int| 0 <= a < j ==> och[a] == #[trigger] ch@[a]);
                                assert(forall|a: int|
                                    j <= a < ch@.len() ==> och[a + 1] == #[trigger] ch@[a]);
                            }
                            if loaded(gl) {
                                let chf = link_files(och[j as int].1, cbase);
                                assert(chf.contains_key(path@));
                                lemma_children_files_at(och, base, j as int, path@);
                                assert(cf.contains_key(path@));
                                assert forall|x: Seq<Seq<u8>>|
                                    link_files(
                                        och[j as int].1,
                                        base.push(och[j as int].0@),
                                    ).contains_key(x) implies x == path@ by {}
                                lemma_cf_remove_elem(och, j as int, base, path@);
                                assert(children_materialized(ch@)) by {
                                    assert(forall|a: int|
                                        0 <= a < j ==> och[a] == #[trigger] ch@[a]);
                                    assert(forall|a: int|
                                        j <= a < ch@.len() ==> och[a + 1] == #[trigger] ch@[a]);
                                }
                                assert(children_honest(ch@)) by {
                                    assert(forall|a: int|
                                        0 <= a < j ==> och[a] == #[trigger] ch@[a]);
                                    assert(forall|a: int|
                                        j <= a < ch@.len() ==> och[a + 1] == #[trigger] ch@[a]);
                                }
                                assert forall|q: Seq<Seq<u8>>| #[trigger]
                                    cf.contains_key(q) implies !strict_prefix(q, path@)
                                    && !strict_prefix(path@, q) by {}
                            }
                        }
                        if ch.is_empty() {
                            proof {
                                if loaded(gl) {
                                    assert(children_files(ch@, base) =~= Map::<
                                        Seq<Seq<u8>>,
                                        FileMetadata,
                                    >::empty());
                                    assert(link_files(gl, base).remove(path@) =~= Map::<
                                        Seq<Seq<u8>>,
                                        FileMetadata,
                                    >::empty());
                                }
                            }
                            (None, None)
                        } else {
                            (Some(Link::Ephemeral(ch)), None)
                        }
                    }
                    other => {
                        // a directory cannot be removed
                        ch.insert(j, (cname, other));
                        proof {
                            assert(ch@ =~= och);
                            if loaded(gl) {
                                assert(children_materialized(ch@));
                                assert(children_honest(ch@));
                                let child0 = och[j as int].1;
                                assert(link_wf(child0) && !child_is_empty_dir(child0));
                                assert(materialized(child0));
                                lemma_link_files_nonempty(child0, cbase);
                                let w = choose|k: Seq<Seq<u8>>| #[trigger]
                                    link_files(child0, cbase).contains_key(k);
                                lemma_link_files_prefix(child0, cbase);
                                assert(strict_prefix(cbase, w));
                                lemma_children_files_at(och, base, j as int, w);
                                assert(cf.contains_key(w) && strict_prefix(path@, w));
                                assert(map_has_dir(cf, path@));
                            }
                        }
                        (Some(Link::Ephemeral(ch)), Some(Error::RemoveDirectory(path.clone())))
                    }
                }
            } else {
                let (cname, child) = ch.remove(j);
                let ghost gchild = child;
                let (copt, err) = remove_at(store, child, path, i + 1, Ghost(cbase));
                let ghost gcopt = copt;
                let ghost gerr = err;
                match copt {
                    Some(child2) => {
                        ch.insert(j, (cname, child2));
                        proof {
                            assert(ch@ =~= och.update(j as int, (och[j as int].0, child2)));
                            assert(children_wf(ch@)) by {
                                assert(forall|a: int|
                                    0 <= a < ch@.len() ==> (#[trigger] ch@[a]).0@ == och[a].0@);
                                assert(forall|a: int|
                                    0 <= a < ch@.len() && a != j ==> (#[trigger] ch@[a]).1
                                        == och[a].1);
                            }
                            if loaded(gl) {
                                let chf = link_files(gchild, cbase);
                                assert(children_materialized(ch@));
                                assert(children_honest(ch@));
                                match gerr {
                                    None => {
                                        lemma_cf_update_remove(
                                            och,
                                            j as int,
                                            (och[j as int].0, child2),
                                            base,
                                            path@,
                                        );
                                        assert forall|q: Seq<Seq<u8>>| #[trigger]
                                            cf.contains_key(q) implies !strict_prefix(
                                            q,
                                            path@,
                                        ) by {
                                            if strict_prefix(q, path@) {
                                                assert(strict_prefix(base, q));
                                                assert(q.len() >= i + 1);
                                                lemma_prefix_chain(cbase, q, path@);
                                                lemma_child_slice(och, base, j as int, q);
                                                assert(chf.contains_key(q));
                                                assert(map_has_file_prefix(chf, path@));
                                            }
                                        }
                                        assert forall|k: Seq<Seq<u8>>| #[trigger]
                                            cf.contains_key(k) implies !strict_prefix(
                                            path@,
                                            k,
                                        ) by {
                                            if strict_prefix(path@, k) {
                                                lemma_prefix_trans(cbase, path@, k);
                                                lemma_child_slice(och, base, j as int, k);
                                                assert(chf.contains_key(k));
                                                assert(map_has_dir(chf, path@));
                                            }
                                        }
                                    }
                                    Some(Error::FileWhereDirectoryExpected(q)) => {
                                        lemma_children_files_at(och, base, j as int, q@);
                                        lemma_cf_update_eq(
                                            och,
                                            j as int,
                                            (och[j as int].0, child2),
                                            base,
                                        );
                                    }
                                    Some(Error::RemoveDirectory(q)) => {
                                        let w = choose|k: Seq<Seq<u8>>| #[trigger]
                                            chf.contains_key(k) && strict_prefix(path@, k);
                                        lemma_children_files_at(och, base, j as int, w);
                                        assert(map_has_dir(cf, path@));
                                        lemma_cf_update_eq(
                                            och,
                                            j as int,
                                            (och[j as int].0, child2),
                                            base,
                                        );
                                    }
                                    Some(_) => {}
                                }
                            }
                        }
                        (Some(Link::Ephemeral(ch)), err)
                    }
                    None => {
                        // child subtree is empty: prune it
                        proof {
                            assert(ch@ =~= och.remove(j as int));
                            assert(children_wf(ch@)) by {
                                assert(forall|a: int| 0 <= a < j ==> och[a] == #[trigger] ch@[a]);
                                assert(forall|a: int|
                                    j <= a < ch@.len() ==> och[a + 1] == #[trigger] ch@[a]);
                            }
                            if loaded(gl) {
                                let chf = link_files(gchild, cbase);
                                assert(chf.remove(path@) == Map::<
                                    Seq<Seq<u8>>,
                                    FileMetadata,
                                >::empty());
                                assert forall|x: Seq<Seq<u8>>|
                                    link_files(
                                        och[j as int].1,
                                        base.push(och[j as int].0@),
                                    ).contains_key(x) implies x == path@ by {
                                    if x != path@ {
                                        assert(chf.remove(path@).contains_key(x));
                                    }
                                }
                                lemma_cf_remove_elem(och, j as int, base, path@);
                                assert(children_materialized(ch@)) by {
                                    assert(forall|a: int|
                                        0 <= a < j ==> och[a] == #[trigger] ch@[a]);
                                    assert(forall|a: int|
                                        j <= a < ch@.len() ==> och[a + 1] == #[trigger] ch@[a]);
                                }
                                assert(children_honest(ch@)) by {
                                    assert(forall|a: int|
                                        0 <= a < j ==> och[a] == #[trigger] ch@[a]);
                                    assert(forall|a: int|
                                        j <= a < ch@.len() ==> och[a + 1] == #[trigger] ch@[a]);
                                }
                                assert forall|q: Seq<Seq<u8>>| #[trigger]
                                    cf.contains_key(q) implies !strict_prefix(q, path@) by {
                                    if strict_prefix(q, path@) {
                                        assert(strict_prefix(base, q));
                                        assert(q.len() >= i + 1);
                                        lemma_prefix_chain(cbase, q, path@);
                                        lemma_child_slice(och, base, j as int, q);
                                        assert(chf.contains_key(q));
                                    }
                                }
                                assert forall|k: Seq<Seq<u8>>| #[trigger]
                                    cf.contains_key(k) implies !strict_prefix(path@, k) by {
                                    if strict_prefix(path@, k) {
                                        lemma_prefix_trans(cbase, path@, k);
                                        lemma_child_slice(och, base, j as int, k);
                                        assert(chf.contains_key(k));
                                    }
                                }
                            }
                        }
                        if ch.is_empty() {
                            proof {
                                if loaded(gl) {
                                    assert(children_files(ch@, base) =~= Map::<
                                        Seq<Seq<u8>>,
                                        FileMetadata,
                                    >::empty());
                                    assert(link_files(gl, base).remove(path@) =~= Map::<
                                        Seq<Seq<u8>>,
                                        FileMetadata,
                                    >::empty());
                                }
                            }
                            (None, None)
                        } else {
                            (Some(Link::Ephemeral(ch)), None)
                        }
                    }
                }
            }
        }
        Err(_) => {
            // nothing by that name: removal is a no-op
            proof {
                lemma_find_kid_none(ch@, path@[i as int]);
                assert(path@[i as int] == path@.take(i + 1)[i as int]);
                if loaded(gl) {
                    assert(!cf.contains_key(path@)) by {
                        if cf.contains_key(path@) {
                            assert(path@[base.len() as int] == path@[i as int]);
                        }
                    }
                    assert forall|q: Seq<Seq<u8>>| #[trigger] cf.contains_key(q) implies (
                    !strict_prefix(path@, q) && !strict_prefix(q, path@)) by {
                        if strict_prefix(path@, q) {
                            assert(q[base.len() as int] == q.take(path@.len() as int)[base.len() as int]);
                            assert(q[base.len() as int] == path@[i as int]);
                        }
                        if strict_prefix(q, path@) {
                            assert(strict_prefix(base, q));
                            assert(q.len() > i);
                            assert(q[base.len() as int] == path@.take(q.len() as int)[base.len() as int]);
                            assert(q[base.len() as int] == path@[i as int]);
                        }
                    }
                    assert(link_files(gl, base).remove(path@) =~= link_files(gl, base));
                }
            }
            if ch.is_empty() {
                proof {
                    if loaded(gl) {
                        assert(children_files(ch@, base) =~= Map::<
                            Seq<Seq<u8>>,
                            FileMetadata,
                        >::empty());
                        assert(link_files(gl, base).remove(path@) =~= Map::<
                            Seq<Seq<u8>>,
                            FileMetadata,
                        >::empty());
                    }
                }
                (None, None)
            } else {
                (Some(Link::Ephemeral(ch)), None)
            }
        }
    }
}

/// The appended window of an output vector holds `(p, m)`.
pub open spec fn seg_has(
    s: Seq<(RepoPathBuf, FileMetadata)>,
    from: int,
    p: Seq<Seq<u8>>,
    m: FileMetadata,
) -> bool {
    exists|a: int| from <= a < s.len() && (#[trigger] s[a]).0@ == p && s[a].1 == m
}

/// Appends every file under `l` to `out` in ascending path order; `path` is
/// `l`'s own path and is handed back unchanged.
#[verifier::loop_isolation(false)]
fn files_into<S: Store>(
    store: &S,
    l: &Link,
    path: &mut RepoPathBuf,
    out: &mut Vec<(RepoPathBuf, FileMetadata)>,
    fuel: u64,
) -> (r: Result<(), Error>)
    requires
        store.inv(),
        link_wf(*l),
    ensures
        final(path)@ == old(path)@,
        final(out)@.len() >= old(out)@.len(),
        forall|a: int| 0 <= a < old(out)@.len() ==> final(out)@[a] == old(out)@[a],
        r is Ok ==> forall|a: int|
            old(out)@.len() <= a < final(out)@.len() ==> is_prefix(
                old(path)@,
                (#[trigger] final(out)@[a]).0@,
            ),
        r is Ok ==> forall|a: int, b: int|
            old(out)@.len() <= a < b < final(out)@.len() ==> path_lt(
                (#[trigger] final(out)@[a]).0@,
                (#[trigger] final(out)@[b]).0@,
            ),
        l is Durable && l->Durable_1 is None && !store.contents().contains_key(
            (old(path)@, l->Durable_0@),
        ) ==> r is Err,
        loaded(*l) ==> {
            &&& r is Ok
            &&& forall|a: int|
                old(out)@.len() <= a < final(out)@.len() ==> link_files(
                    *l,
                    old(path)@,
                ).contains_key((#[trigger] final(out)@[a]).0@) && link_files(*l, old(path)@)[(
                final(out)@[a]).0@] == final(out)@[a].1
            &&& forall|p: Seq<Seq<u8>>| #[trigger]
                link_files(*l, old(path)@).contains_key(p) ==> seg_has(
                    final(out)@,
                    old(out)@.len() as int,
                    p,
                    link_files(*l, old(path)@)[p],
                )
        },
    decreases fuel, *l,
{
    let ghost base0 = path@;
    let ghost start = out@.len() as int;
    match l {
        Link::Leaf(m) => {
            out.push((path.clone(), *m));
            proof {
                assert(base0.take(base0.len() as int) =~= base0);
                assert(out@[start].0@ == base0);
            }
            Ok(())
        }
        Link::Ephemeral(ch) => {
            let r = files_children(store, ch, path, out, fuel);
            proof {
                if loaded(*l) {
                    assert forall|p: Seq<Seq<u8>>| #[trigger]
                        link_files(*l, base0).contains_key(p) implies seg_has(
                        out@,
                        start,
                        p,
                        link_files(*l, base0)[p],
                    ) by {
                        assert(children_files(ch@, base0).contains_key(p));
                    }
                }
            }
            r
        }
        Link::Durable(_, Some(ch)) => {
            let r = files_children(store, ch, path, out, fuel);
            proof {
                if loaded(*l) {
                    assert forall|p: Seq<Seq<u8>>| #[trigger]
                        link_files(*l, base0).contains_key(p) implies seg_has(
                        out@,
                        start,
                        p,
                        link_files(*l, base0)[p],
                    ) by {
                        assert(children_files(ch@, base0).contains_key(p));
                    }
                }
            }
            r
        }
        Link::Durable(nid, None) => {
            if fuel == 0 {
                return Err(Error::DepthLimitExceeded);
            }
            let entry = match store.get(path, nid) {
                Ok(e) => e,
                Err(e) => {
                    return Err(e);
                }
            };
            let children = entry_to_children(&entry);
            files_children(store, &children, path, out, fuel - 1)
        }
    }
}

/// Appends the files of each child, in order.
#[verifier::loop_isolation(false)]
fn files_children<S: Store>(
    store: &S,
    ch: &Vec<(PathComponentBuf, Link)>,
    path: &mut RepoPathBuf,
    out: &mut Vec<(RepoPathBuf, FileMetadata)>,
    fuel: u64,
) -> (r: Result<(), Error>)
    requires
        store.inv(),
        children_wf(ch@),
    ensures
        final(path)@ == old(path)@,
        final(out)@.len() >= old(out)@.len(),
        forall|a: int| 0 <= a < old(out)@.len() ==> final(out)@[a] == old(out)@[a],
        r is Ok ==> forall|a: int|
            old(out)@.len() <= a < final(out)@.len() ==> is_prefix(
                old(path)@,
                (#[trigger] final(out)@[a]).0@,
            ),
        r is Ok ==> forall|a: int, b: int|
            old(out)@.len() <= a < b < final(out)@.len() ==> path_lt(
                (#[trigger] final(out)@[a]).0@,
                (#[trigger] final(out)@[b]).0@,
            ),
        children_materialized(ch@) && children_honest(ch@) ==> {
            &&& r is Ok
            &&& forall|a: int|
                old(out)@.len() <= a < final(out)@.len() ==> children_files(
                    ch@,
                    old(path)@,
                ).contains_key((#[trigger] final(out)@[a]).0@) && children_files(ch@, old(path)@)[
                    final(out)@[a].0@] == final(out)@[a].1
            &&& forall|p: Seq<Seq<u8>>| #[trigger]
                children_files(ch@, old(path)@).contains_key(p) ==> seg_has(
                    final(out)@,
                    old(out)@.len() as int,
                    p,
                    children_files(ch@, old(path)@)[p],
                )
        },
    decreases fuel, ch@,
{
    let ghost base = path@;
    let ghost cf = children_files(ch@, base);
    let ghost start = out@.len() as int;
    proof {
        assert forall|a: int, b: int| 0 <= a < b < ch@.len() implies (#[trigger] ch@[a]).0@ != (
        #[trigger] ch@[b]).0@ by {
            crate::path::lemma_bytes_lt_trichotomy(ch@[a].0@, ch@[b].0@);
        }
        lemma_children_files_prefix(ch@, base);
    }
    let n = ch.len();
    let mut i: usize = 0;
    while i < n
        invariant
            n == ch@.len(),
            i <= n,
            path@ == base,
            out@.len() >= start,
            forall|a: int| 0 <= a < start ==> out@[a] == old(out)@[a],
            // every emitted entry belongs to a processed child
            forall|a: int|
                #![trigger out@[a]]
                start <= a < out@.len() ==> exists|j: int|
                    0 <= j < i && is_prefix(base.push((#[trigger] ch@[j]).0@), (out@[a]).0@),
            forall|a: int|
                start <= a < out@.len() ==> is_prefix(base, (#[trigger] out@[a]).0@),
            forall|a: int, b: int|
                start <= a < b < out@.len() ==> path_lt(
                    (#[trigger] out@[a]).0@,
                    (#[trigger] out@[b]).0@,
                ),
            children_materialized(ch@) && children_honest(ch@) ==> {
                &&& forall|a: int|
                    start <= a < out@.len() ==> cf.contains_key((#[trigger] out@[a]).0@) && cf[(
                    out@[a]).0@] == out@[a].1
                &&& forall|p: Seq<Seq<u8>>| #[trigger]
                    cf.contains_key(p) ==> seg_has(out@, start, p, cf[p]) || exists|j: int|
                        i <= j < ch@.len() && is_prefix(base.push((#[trigger] ch@[j]).0@), p)
            },
        decreases n - i,
    {
        let ghost name = ch@[i as int].0@;
        let ghost cbase = base.push(name);
        let ghost pre_len = out@.len() as int;
        proof {
            assert(is_prefix(base, cbase)) by {
                assert(cbase.take(base.len() as int) =~= base);
            }
        }
        path.push(ch[i].0.clone());
        proof {
            assert(decreases_to!(*ch => ch@));
            assert(decreases_to!(ch@ => ch@[i as int]));
            assert(decreases_to!(ch@[i as int] => ch@[i as int].1));
        }
        let r = files_into(store, &ch[i].1, path, out, fuel);
        path.pop();
        proof {
            assert(path@ =~= base);
        }
        match r {
            Ok(()) => {}
            Err(e) => {
                proof {
                    if children_materialized(ch@) && children_honest(ch@) {
                        assert(materialized(ch@[i as int].1) && honest(ch@[i as int].1));
                        assert(loaded(ch@[i as int].1));
                    }
                }
                return Err(e);
            }
        }
        proof {
            let chf = link_files(ch@[i as int].1, cbase);
            // sortedness across groups
            assert forall|a: int, b: int| start <= a < b < out@.len() implies path_lt(
                (#[trigger] out@[a]).0@,
                (#[trigger] out@[b]).0@,
            ) by {
                if a < pre_len && b >= pre_len {
                    let j = choose|j: int|
                        0 <= j < i && is_prefix(base.push((#[trigger] ch@[j]).0@), (out@[a]).0@);
                    crate::path::lemma_lt_by_component(
                        base,
                        ch@[j].0@,
                        name,
                        out@[a].0@,
                        out@[b].0@,
                    );
                }
            }
            // group attribution for the new entries
            assert forall|a: int| #![trigger out@[a]] start <= a < out@.len() implies exists|
                j: int,
            |
                0 <= j < i + 1 && is_prefix(base.push((#[trigger] ch@[j]).0@), (out@[a]).0@) by {
                if a < pre_len {
                    let j = choose|j: int|
                        0 <= j < i && is_prefix(base.push((#[trigger] ch@[j]).0@), (out@[a]).0@);
                    assert(0 <= j < i + 1 && is_prefix(base.push(ch@[j].0@), (out@[a]).0@));
                } else {
                    assert(is_prefix(cbase, (out@[a]).0@));
                    assert(0 <= i < i + 1 && is_prefix(base.push(ch@[i as int].0@), (out@[a]).0@));
                }
            }
            assert forall|a: int| start <= a < out@.len() implies is_prefix(
                base,
                (#[trigger] out@[a]).0@,
            ) by {
                if a >= pre_len {
                    lemma_prefix_trans(base, cbase, out@[a].0@);
                }
            }
            if children_materialized(ch@) && children_honest(ch@) {
                assert(loaded(ch@[i as int].1));
                // values: new entries are in the children map
                assert forall|a: int| start <= a < out@.len() implies cf.contains_key(
                    (#[trigger] out@[a]).0@,
                ) && cf[(out@[a]).0@] == out@[a].1 by {
                    if a >= pre_len {
                        assert(chf.contains_key(out@[a].0@));
                        lemma_children_files_at(ch@, base, i as int, out@[a].0@);
                    }
                }
                // completeness: keys of child i are now emitted
                assert forall|p: Seq<Seq<u8>>| #[trigger] cf.contains_key(p) implies seg_has(
                    out@,
                    start,
                    p,
                    cf[p],
                ) || exists|j: int|
                    i + 1 <= j < ch@.len() && is_prefix(base.push((#[trigger] ch@[j]).0@), p) by {
                    if !seg_has(out@, start, p, cf[p]) {
                        if exists|j: int|
                            i <= j < ch@.len() && is_prefix(base.push((#[trigger] ch@[j]).0@), p) {
                            let j = choose|j: int|
                                i <= j < ch@.len() && is_prefix(
                                    base.push((#[trigger] ch@[j]).0@),
                                    p,
                                );
                            if j == i {
                                lemma_child_slice(ch@, base, i as int, p);
                                assert(chf.contains_key(p));
                                assert(seg_has(out@, pre_len, p, chf[p]));
                                let a = choose|a: int|
                                    pre_len <= a < out@.len() && (#[trigger] out@[a]).0@ == p && (
                                    out@[a]).1 == chf[p];
                                assert(start <= a < out@.len() && (out@[a]).0@ == p && (out@[a]).1
                                    == cf[p]);
                            }
                        }
                    }
                }
            }
        }
        i = i + 1;
    }
    proof {
        if children_materialized(ch@) && children_honest(ch@) {
            assert forall|p: Seq<Seq<u8>>| #[trigger] cf.contains_key(p) implies seg_has(
                out@,
                start,
                p,
                cf[p],
            ) by {}
        }
    }
    Ok(())
}

/// One key of the store survives any extension of it.
pub open spec fn store_preserved(
    older: Map<(Seq<Seq<u8>>, Seq<u8>), Seq<(Seq<u8>, Seq<u8>, Flag)>>,
    newer: Map<(Seq<Seq<u8>>, Seq<u8>), Seq<(Seq<u8>, Seq<u8>, Flag)>>,
) -> bool {
    forall|k: (Seq<Seq<u8>>, Seq<u8>)| #[trigger]
        older.contains_key(k) ==> newer.contains_key(k) && newer[k] == older[k]
}


/// Every live directory under `l` (whose own path is `base`) has had its
/// entry written: the store maps `(directory path, directory node id)` to
/// exactly the serialized children. Durable links need no write; what hangs
/// below them was already stored.
pub open spec fn flushed_to(
    m: Map<(Seq<Seq<u8>>, Seq<u8>), Seq<(Seq<u8>, Seq<u8>, Flag)>>,
    l: Link,
    base: Seq<Seq<u8>>,
) -> bool
    decreases l,
{
    match l {
        Link::Leaf(_) => true,
        Link::Durable(_, _) => true,
        Link::Ephemeral(ch) => m.contains_key((base, link_node(l))) && m[(base, link_node(l))]
            == entries_of(ch@) && forall|i: int|
            0 <= i < ch@.len() ==> flushed_to(m, (#[trigger] ch@[i]).1, base.push(ch@[i].0@)),
    }
}

/// No key the flush of `l` would write collides with a different entry
/// already in `m`: under this, flushing succeeds.
pub open spec fn flush_clear(
    m: Map<(Seq<Seq<u8>>, Seq<u8>), Seq<(Seq<u8>, Seq<u8>, Flag)>>,
    l: Link,
    base: Seq<Seq<u8>>,
) -> bool
    decreases l,
{
    match l {
        Link::Leaf(_) => true,
        Link::Durable(_, _) => true,
        Link::Ephemeral(ch) => (m.contains_key((base, link_node(l))) ==> m[(base, link_node(l))]
            == entries_of(ch@)) && forall|i: int|
            0 <= i < ch@.len() ==> flush_clear(m, (#[trigger] ch@[i]).1, base.push(ch@[i].0@)),
    }
}

/// Growing the store keeps written subtrees written.
proof fn lemma_flushed_to_mono(
    m1: Map<(Seq<Seq<u8>>, Seq<u8>), Seq<(Seq<u8>, Seq<u8>, Flag)>>,
    m2: Map<(Seq<Seq<u8>>, Seq<u8>), Seq<(Seq<u8>, Seq<u8>, Flag)>>,
    l: Link,
    base: Seq<Seq<u8>>,
)
    requires
        flushed_to(m1, l, base),
        store_preserved(m1, m2),
    ensures
        flushed_to(m2, l, base),
    decreases l,
{
    match l {
        Link::Ephemeral(ch) => {
            assert forall|i: int| 0 <= i < ch@.len() implies flushed_to(
                m2,
                (#[trigger] ch@[i]).1,
                base.push(ch@[i].0@),
            ) by {
                lemma_flushed_to_mono(m1, m2, ch@[i].1, base.push(ch@[i].0@));
            }
        }
        _ => {}
    }
}

/// Growing the store only at paths outside `base`'s subtree keeps the
/// subtree clear to flush.
proof fn lemma_flush_clear_preserved(
    m1: Map<(Seq<Seq<u8>>, Seq<u8>), Seq<(Seq<u8>, Seq<u8>, Flag)>>,
    m2: Map<(Seq<Seq<u8>>, Seq<u8>), Seq<(Seq<u8>, Seq<u8>, Flag)>>,
    l: Link,
    base: Seq<Seq<u8>>,
)
    requires
        flush_clear(m1, l, base),
        store_preserved(m1, m2),
        forall|k: (Seq<Seq<u8>>, Seq<u8>)|
            #[trigger] m2.contains_key(k) && !m1.contains_key(k) ==> !is_prefix(base, k.0),
    ensures
        flush_clear(m2, l, base),
    decreases l,
{
    match l {
        Link::Ephemeral(ch) => {
            let own = (base, link_node(l));
            if m2.contains_key(own) {
                assert(is_prefix(base, own.0)) by {
                    assert(base.take(base.len() as int) =~= base);
                }
                assert(m1.contains_key(own));
            }
            assert forall|i: int| 0 <= i < ch@.len() implies flush_clear(
                m2,
                (#[trigger] ch@[i]).1,
                base.push(ch@[i].0@),
            ) by {
                let cb = base.push(ch@[i].0@);
                assert forall|k: (Seq<Seq<u8>>, Seq<u8>)| #[trigger]
                    m2.contains_key(k) && !m1.contains_key(k) implies !is_prefix(cb, k.0) by {
                    if is_prefix(cb, k.0) {
                        lemma_prefix_step(base, ch@[i].0@, k.0);
                    }
                }
                lemma_flush_clear_preserved(m1, m2, ch@[i].1, cb);
            }
        }
        _ => {}
    }
}

/// Rewrites every live directory under `l` into a durable one, writing its
/// entry to the store; the link's meaning and node id are unchanged.
#[verifier::loop_isolation(false)]
#[verifier::rlimit(60)]
fn flush_link<S: Store>(store: &mut S, path: &mut RepoPathBuf, l: Link) -> (res: (
    Link,
    Result<(NodeId, Flag), Error>,
))
    requires
        old(store).inv(),
        link_wf(l),
    ensures
        final(store).inv(),
        final(path)@ == old(path)@,
        store_preserved(old(store).contents(), final(store).contents()),
        link_wf(res.0),
        !child_is_empty_dir(res.0) || child_is_empty_dir(l),
        (res.0 is Leaf) == (l is Leaf),
        link_files(res.0, old(path)@) == link_files(l, old(path)@),
        link_node(res.0) == link_node(l),
        flag_of(res.0) == flag_of(l),
        materialized(l) ==> materialized(res.0),
        honest(l) ==> honest(res.0),
        !(l is Ephemeral) ==> res.1 is Ok && final(store).contents() == old(store).contents(),
        forall|k: (Seq<Seq<u8>>, Seq<u8>)| #[trigger]
            final(store).contents().contains_key(k) && !old(store).contents().contains_key(k)
            ==> is_prefix(old(path)@, k.0),
        res.1 is Ok ==> flushed_to(final(store).contents(), l, old(path)@),
        flush_clear(old(store).contents(), l, old(path)@) ==> res.1 is Ok,
        match res.1 {
            Ok((n, f)) => n@ == link_node(l) && f == flag_of(l) && (res.0 is Leaf || (res.0
                is Durable && res.0->Durable_0@ == n@)),
            Err(e) => e is StoreConflict,
        },
    decreases l,
{
    let ghost gl = l;
    let ghost base = path@;
    match l {
        Link::Leaf(m) => (Link::Leaf(m), Ok((m.node, Flag::File(m.file_type)))),
        Link::Durable(n, c) => (Link::Durable(n, c), Ok((n, Flag::Directory))),
        Link::Ephemeral(ch) => {
            let ghost och = ch@;
            let mut rest = ch;
            let mut new_ch: Vec<(PathComponentBuf, Link)> = Vec::new();
            let mut elements: Vec<Element> = Vec::new();
            while rest.len() > 0
                invariant
                    store.inv(),
                    store_preserved(old(store).contents(), store.contents()),
                    // every write so far lies inside a processed child's name space
                    forall|k: (Seq<Seq<u8>>, Seq<u8>)| #[trigger]
                        store.contents().contains_key(k) && !old(store).contents().contains_key(
                            k,
                        ) ==> exists|j: int|
                            0 <= j < new_ch@.len() && is_prefix(
                                base.push((#[trigger] och[j]).0@),
                                k.0,
                            ),
                    // processed live children are already written out
                    forall|a: int|
                        0 <= a < new_ch@.len() ==> flushed_to(
                            store.contents(),
                            (#[trigger] och[a]).1,
                            base.push(och[a].0@),
                        ),
                    path@ == base,
                    new_ch@.len() + rest@.len() == och.len(),
                    elements@.len() == new_ch@.len(),
                    forall|b: int|
                        0 <= b < rest@.len() ==> #[trigger] rest@[b] == och[new_ch@.len() + b],
                    forall|a: int|
                        0 <= a < new_ch@.len() ==> (#[trigger] new_ch@[a]).0@ == och[a].0@,
                    forall|a: int|
                        0 <= a < new_ch@.len() ==> link_files(
                            (#[trigger] new_ch@[a]).1,
                            base.push(och[a].0@),
                        ) == link_files(och[a].1, base.push(och[a].0@)),
                    forall|a: int|
                        0 <= a < new_ch@.len() ==> link_node((#[trigger] new_ch@[a]).1)
                            == link_node(och[a].1) && flag_of(new_ch@[a].1) == flag_of(och[a].1),
                    forall|a: int|
                        0 <= a < new_ch@.len() ==> link_wf((#[trigger] new_ch@[a]).1)
                            && !child_is_empty_dir(new_ch@[a].1) && !(new_ch@[a].1 is Leaf
                            && !(och[a].1 is Leaf)),
                    forall|a: int|
                        0 <= a < new_ch@.len() ==> (materialized(och[a].1) ==> materialized(
                            (#[trigger] new_ch@[a]).1,
                        )) && (honest(och[a].1) ==> honest(new_ch@[a].1)),
                    forall|a: int|
                        0 <= a < elements@.len() ==> (#[trigger] elements@[a])@ == (och[a].0@,
                        link_node(och[a].1), flag_of(och[a].1)),
                decreases rest@.len(),
            {
                let ghost idx = new_ch@.len() as int;
                let (nm, c) = rest.remove(0);
                proof {
                    assert(c == och[idx].1);
                    assert(nm@ == och[idx].0@);
                    assert(link_wf(c));
                    assert(decreases_to!(gl => gl->Ephemeral_0));
                    assert(decreases_to!(gl->Ephemeral_0 => gl->Ephemeral_0@));
                    assert(decreases_to!(gl->Ephemeral_0@ => gl->Ephemeral_0@[idx]));
                    assert(decreases_to!(gl->Ephemeral_0@[idx] => gl->Ephemeral_0@[idx].1));
                }
                let nm_el = nm.clone();
                let nm_ch = nm.clone();
                let ghost pre_store = store.contents();
                path.push(nm);
                let (c2, r2) = flush_link(store, path, c);
                path.pop();
                proof {
                    assert(path@ =~= base);
                }
                match r2 {
                    Ok((cn, cf)) => {
                        elements.push(Element::new(nm_el, cn, cf));
                        new_ch.push((nm_ch, c2));
                        proof {
                            assert(forall|b: int|
                                0 <= b < rest@.len() ==> #[trigger] rest@[b] == och[new_ch@.len()
                                    + b]);
                            let cb = base.push(och[idx].0@);
                            assert forall|k: (Seq<Seq<u8>>, Seq<u8>)| #[trigger]
                                store.contents().contains_key(k) && !old(
                                    store,
                                ).contents().contains_key(k) implies exists|j: int|
                                0 <= j < new_ch@.len() && is_prefix(
                                    base.push((#[trigger] och[j]).0@),
                                    k.0,
                                ) by {
                                if pre_store.contains_key(k) {
                                    let j = choose|j: int|
                                        0 <= j < idx && is_prefix(
                                            base.push((#[trigger] och[j]).0@),
                                            k.0,
                                        );
                                    assert(0 <= j < new_ch@.len() && is_prefix(
                                        base.push(och[j].0@),
                                        k.0,
                                    ));
                                } else {
                                    assert(is_prefix(cb, k.0));
                                    assert(0 <= idx < new_ch@.len() && is_prefix(
                                        base.push(och[idx].0@),
                                        k.0,
                                    ));
                                }
                            }
                            assert forall|a: int| 0 <= a < new_ch@.len() implies flushed_to(
                                store.contents(),
                                (#[trigger] och[a]).1,
                                base.push(och[a].0@),
                            ) by {
                                if a < idx {
                                    lemma_flushed_to_mono(
                                        pre_store,
                                        store.contents(),
                                        och[a].1,
                                        base.push(och[a].0@),
                                    );
                                }
                            }
                        }
                    }
                    Err(e) => {
                        new_ch.push((nm_ch, c2));
                        let ghost mid = new_ch@.len() as int;
                        while rest.len() > 0
                            invariant
                                mid <= new_ch@.len(),
                                new_ch@.len() + rest@.len() == och.len(),
                                forall|b: int|
                                    0 <= b < rest@.len() ==> #[trigger] rest@[b] == och[
                                    new_ch@.len() + b],
                                forall|a: int|
                                    mid <= a < new_ch@.len() ==> #[trigger] new_ch@[a] == och[a],
                                forall|a: int|
                                    0 <= a < mid ==> (#[trigger] new_ch@[a]).0@ == och[a].0@,
                                forall|a: int|
                                    0 <= a < mid ==> link_files(
                                        (#[trigger] new_ch@[a]).1,
                                        base.push(och[a].0@),
                                    ) == link_files(och[a].1, base.push(och[a].0@)),
                                forall|a: int|
                                    0 <= a < mid ==> link_node((#[trigger] new_ch@[a]).1)
                                        == link_node(och[a].1) && flag_of(new_ch@[a].1) == flag_of(
                                        och[a].1,
                                    ),
                                forall|a: int|
                                    0 <= a < mid ==> link_wf((#[trigger] new_ch@[a]).1)
                                        && !child_is_empty_dir(new_ch@[a].1),
                                forall|a: int|
                                    0 <= a < mid ==> (materialized(och[a].1) ==> materialized(
                                        (#[trigger] new_ch@[a]).1,
                                    )) && (honest(och[a].1) ==> honest(new_ch@[a].1)),
                            decreases rest@.len(),
                        {
                            let item = rest.remove(0);
                            new_ch.push(item);
                        }
                        proof {
                            assert forall|a: int, b: int| 0 <= a < b < new_ch@.len() implies
                                bytes_lt(
                                (#[trigger] new_ch@[a]).0@,
                                (#[trigger] new_ch@[b]).0@,
                            ) by {
                                assert(new_ch@[a].0@ == och[a].0@);
                                assert(new_ch@[b].0@ == och[b].0@);
                            }
                            assert(children_wf(new_ch@)) by {
                                assert(forall|a: int|
                                    0 <= a < new_ch@.len() ==> link_wf((#[trigger] new_ch@[a]).1)
                                        && !child_is_empty_dir(new_ch@[a].1));
                            }
                            assert forall|i2: int| 0 <= i2 < new_ch@.len() implies link_files(
                                (#[trigger] new_ch@[i2]).1,
                                base.push(och[i2].0@),
                            ) == link_files(och[i2].1, base.push(och[i2].0@)) by {}
                            lemma_children_files_congruence(new_ch@, och, base);
                            lemma_entries_of_index(new_ch@);
                            lemma_entries_of_index(och);
                            assert forall|i3: int| 0 <= i3 < och.len() implies entries_of(
                                new_ch@,
                            )[i3] == entries_of(och)[i3] by {
                                assert((#[trigger] new_ch@[i3]).0@ == och[i3].0@);
                                assert(link_node(new_ch@[i3].1) == link_node(och[i3].1));
                                assert(flag_of(new_ch@[i3].1) == flag_of(och[i3].1));
                            }
                            assert(entries_of(new_ch@) =~= entries_of(och));
                            assert(children_materialized(och) ==> children_materialized(new_ch@));
                            assert(children_honest(och) ==> children_honest(new_ch@));
                            let cb = base.push(och[idx].0@);
                            // every write lies under this directory's path
                            assert forall|k: (Seq<Seq<u8>>, Seq<u8>)| #[trigger]
                                store.contents().contains_key(k) && !old(
                                    store,
                                ).contents().contains_key(k) implies is_prefix(base, k.0) by {
                                if pre_store.contains_key(k) {
                                    let j = choose|j: int|
                                        0 <= j < idx && is_prefix(
                                            base.push((#[trigger] och[j]).0@),
                                            k.0,
                                        );
                                    lemma_prefix_step(base, och[j].0@, k.0);
                                } else {
                                    assert(is_prefix(cb, k.0));
                                    lemma_prefix_step(base, och[idx].0@, k.0);
                                }
                            }
                            // a clear store would have let this child flush
                            if flush_clear(old(store).contents(), gl, base) {
                                assert(flush_clear(old(store).contents(), och[idx].1, cb));
                                assert forall|k: (Seq<Seq<u8>>, Seq<u8>)| #[trigger]
                                    pre_store.contains_key(k) && !old(
                                        store,
                                    ).contents().contains_key(k) implies !is_prefix(cb, k.0) by {
                                    let j = choose|j: int|
                                        0 <= j < idx && is_prefix(
                                            base.push((#[trigger] och[j]).0@),
                                            k.0,
                                        );
                                    if is_prefix(cb, k.0) {
                                        lemma_prefix_step(base, och[j].0@, k.0);
                                        lemma_prefix_step(base, och[idx].0@, k.0);
                                        crate::path::lemma_bytes_lt_trichotomy(
                                            och[j].0@,
                                            och[idx].0@,
                                        );
                                    }
                                }
                                lemma_flush_clear_preserved(
                                    old(store).contents(),
                                    pre_store,
                                    och[idx].1,
                                    cb,
                                );
                            }
                        }
                        return (Link::Ephemeral(new_ch), Err(e));
                    }
                }
            }
            proof {
                assert(new_ch@.len() == och.len());
                lemma_entries_of_index(och);
                lemma_entries_of_index(new_ch@);
                assert forall|i3: int| 0 <= i3 < och.len() implies entries_of(new_ch@)[i3]
                    == entries_of(och)[i3] by {
                    assert((#[trigger] new_ch@[i3]).0@ == och[i3].0@);
                    assert(link_node(new_ch@[i3].1) == link_node(och[i3].1));
                    assert(flag_of(new_ch@[i3].1) == flag_of(och[i3].1));
                }
                assert(entries_of(new_ch@) =~= entries_of(och));
                assert(elements_view(elements@) =~= entries_of(och));
                assert(children_materialized(och) ==> children_materialized(new_ch@));
                assert(children_honest(och) ==> children_honest(new_ch@));
                assert forall|a: int, b: int| 0 <= a < b < elements@.len() implies bytes_lt(
                    (#[trigger] elements_view(elements@)[a]).0,
                    (#[trigger] elements_view(elements@)[b]).0,
                ) by {
                    assert(elements_view(elements@)[a].0 == och[a].0@);
                    assert(elements_view(elements@)[b].0 == och[b].0@);
                }
                lemma_children_files_congruence(new_ch@, och, base);
                assert(children_wf(new_ch@));
            }
            let entry = Entry::from_sorted(elements);
            let bytes = entry.serialize();
            let p1 = NodeId::null();
            let node = compute_node(&p1, &p1, bytes);
            let ghost own_key = (base, link_node(gl));
            proof {
                assert(node@ == link_node(gl));
                assert(is_prefix(base, base)) by {
                    assert(base.take(base.len() as int) =~= base);
                }
            }
            let ghost pre_insert = store.contents();
            let at = path.clone();
            match store.insert(at, node, entry) {
                Ok(()) => {
                    proof {
                        assert(store_preserved(pre_insert, store.contents()));
                        assert(store.contents().contains_key(own_key));
                        assert(store.contents()[own_key] == entries_of(och));
                        assert forall|a: int| 0 <= a < och.len() implies flushed_to(
                            store.contents(),
                            (#[trigger] och[a]).1,
                            base.push(och[a].0@),
                        ) by {
                            lemma_flushed_to_mono(
                                pre_insert,
                                store.contents(),
                                och[a].1,
                                base.push(och[a].0@),
                            );
                        }
                        assert(flushed_to(store.contents(), gl, base));
                        assert forall|k: (Seq<Seq<u8>>, Seq<u8>)| #[trigger]
                            store.contents().contains_key(k) && !old(
                                store,
                            ).contents().contains_key(k) implies is_prefix(base, k.0) by {
                            if k != own_key {
                                assert(pre_insert.contains_key(k));
                                let j = choose|j: int|
                                    0 <= j < new_ch@.len() && is_prefix(
                                        base.push((#[trigger] och[j]).0@),
                                        k.0,
                                    );
                                lemma_prefix_step(base, och[j].0@, k.0);
                            }
                        }
                    }
                    (Link::Durable(node, Some(new_ch)), Ok((node, Flag::Directory)))
                }
                Err(e) => {
                    proof {
                        assert forall|k: (Seq<Seq<u8>>, Seq<u8>)| #[trigger]
                            store.contents().contains_key(k) && !old(
                                store,
                            ).contents().contains_key(k) implies is_prefix(base, k.0) by {
                            let j = choose|j: int|
                                0 <= j < new_ch@.len() && is_prefix(
                                    base.push((#[trigger] och[j]).0@),
                                    k.0,
                                );
                            lemma_prefix_step(base, och[j].0@, k.0);
                        }
                        // with a clear store the insertion cannot conflict
                        if flush_clear(old(store).contents(), gl, base) {
                            assert(pre_insert.contains_key(own_key));
                            if !old(store).contents().contains_key(own_key) {
                                let j = choose|j: int|
                                    0 <= j < new_ch@.len() && is_prefix(
                                        base.push((#[trigger] och[j]).0@),
                                        own_key.0,
                                    );
                                lemma_prefix_step(base, och[j].0@, base);
                            }
                            assert(old(store).contents().contains_key(own_key));
                            assert(old(store).contents()[own_key] == entries_of(och));
                            assert(pre_insert[own_key] == entries_of(och));
                            assert(pre_insert[own_key] == entry@);
                        }
                    }
                    (Link::Ephemeral(new_ch), Err(e))
                }
            }
        }
    }
}

/// One kind of file-level difference between two trees.
#[derive(Debug, Clone, Copy, PartialEq, Eq)]
pub enum DiffType {
    LeftOnly(FileMetadata),
    RightOnly(FileMetadata),
    Changed(FileMetadata, FileMetadata),
}

/// A file that differs between two tree manifests.
#[derive(Debug, PartialEq, Eq)]
pub struct DiffEntry {
    pub path: RepoPathBuf,
    pub diff_type: DiffType,
}

impl DiffEntry {
    pub fn new(path: RepoPathBuf, diff_type: DiffType) -> (r: DiffEntry)
        ensures
            r.path@ == path@,
            r.diff_type == diff_type,
    {
        DiffEntry { path, diff_type }
    }
}

/// The entry records a genuine difference between the two file maps.
pub open spec fn diff_entry_ok(
    lm: Map<Seq<Seq<u8>>, FileMetadata>,
    rm: Map<Seq<Seq<u8>>, FileMetadata>,
    e: DiffEntry,
) -> bool {
    match e.diff_type {
        DiffType::LeftOnly(m) => lm.contains_key(e.path@) && lm[e.path@] == m && !rm.contains_key(
            e.path@,
        ),
        DiffType::RightOnly(m) => rm.contains_key(e.path@) && rm[e.path@] == m && !lm.contains_key(
            e.path@,
        ),
        DiffType::Changed(a, b) => lm.contains_key(e.path@) && lm[e.path@] == a && rm.contains_key(
            e.path@,
        ) && rm[e.path@] == b && a != b,
    }
}

/// Some entry of the diff speaks of path `p`.
pub open spec fn diff_has_path(v: Seq<DiffEntry>, p: Seq<Seq<u8>>) -> bool {
    exists|a: int| 0 <= a < v.len() && (#[trigger] v[a]).path@ == p
}

/// The paths on which the two maps disagree.
pub open spec fn maps_differ_at(
    lm: Map<Seq<Seq<u8>>, FileMetadata>,
    rm: Map<Seq<Seq<u8>>, FileMetadata>,
    p: Seq<Seq<u8>>,
) -> bool {
    ||| (lm.contains_key(p) && (!rm.contains_key(p) || rm[p] != lm[p]))
    ||| (rm.contains_key(p) && (!lm.contains_key(p) || lm[p] != rm[p]))
}

/// All the file-level differences between `left` and `right`, in ascending
/// path order. Two trees durable at the same root node id are equal by
/// construction and give an empty diff without touching either store.
#[verifier::loop_isolation(false)]
#[verifier::rlimit(60)]
pub fn diff<S: Store>(left: &Tree<S>, right: &Tree<S>) -> (r: Result<Vec<DiffEntry>, Error>)
    requires
        left.inv(),
        right.inv(),
    ensures
        left.durable_root() is Some && left.durable_root() == right.durable_root() ==> r is Ok
            && r->Ok_0@.len() == 0,
        left.durable_root() != right.durable_root() && left.root_link() is Durable
            && left.root_link()->Durable_1 is None && !left.store_of().contents().contains_key(
            (Seq::empty(), left.root_link()->Durable_0@),
        ) ==> r is Err,
        match r {
            Ok(v) => {
                &&& forall|a: int, b: int|
                    0 <= a < b < v@.len() ==> path_lt(
                        (#[trigger] v@[a]).path@,
                        (#[trigger] v@[b]).path@,
                    )
                &&& (left.loaded() && right.loaded() && !(left.durable_root() is Some
                    && left.durable_root() == right.durable_root())) ==> {
                    &&& forall|a: int|
                        0 <= a < v@.len() ==> diff_entry_ok(left@, right@, #[trigger] v@[a])
                    &&& forall|p: Seq<Seq<u8>>|
                        #![trigger left@.contains_key(p)]
                        #![trigger right@.contains_key(p)]
                        maps_differ_at(left@, right@, p) ==> diff_has_path(v@, p)
                }
            },
            Err(_) => !(left.loaded() && right.loaded()),
        },
{
    match (&left.root, &right.root) {
        (Link::Durable(n1, _), Link::Durable(n2, _)) => {
            if n1.same(n2) {
                let empty_diff: Vec<DiffEntry> = Vec::new();
                return Ok(empty_diff);
            }
        }
        _ => {}
    }
    let lf = match left.files() {
        Ok(v) => v,
        Err(e) => {
            return Err(e);
        }
    };
    let rf = match right.files() {
        Ok(v) => v,
        Err(e) => {
            return Err(e);
        }
    };
    let ghost lm = left@;
    let ghost rm = right@;
    let ghost lloaded = left.loaded() && right.loaded();
    let mut out: Vec<DiffEntry> = Vec::new();
    let mut i: usize = 0;
    let mut j: usize = 0;
    let nl = lf.len();
    let nr = rf.len();
    while i < nl || j < nr
        invariant
            nl == lf@.len(),
            nr == rf@.len(),
            i <= nl,
            j <= nr,
            // frontier order: consumed entries sort before the other side's rest
            forall|k: int, k2: int|
                0 <= k < i && j <= k2 < nr ==> path_lt(
                    (#[trigger] lf@[k]).0@,
                    (#[trigger] rf@[k2]).0@,
                ),
            forall|k: int, k2: int|
                0 <= k < j && i <= k2 < nl ==> path_lt(
                    (#[trigger] rf@[k]).0@,
                    (#[trigger] lf@[k2]).0@,
                ),
            // emitted entries sort before everything still pending
            forall|a: int, k: int|
                0 <= a < out@.len() && i <= k < nl ==> path_lt(
                    (#[trigger] out@[a]).path@,
                    (#[trigger] lf@[k]).0@,
                ),
            forall|a: int, k: int|
                0 <= a < out@.len() && j <= k < nr ==> path_lt(
                    (#[trigger] out@[a]).path@,
                    (#[trigger] rf@[k]).0@,
                ),
            forall|a: int, b: int|
                0 <= a < b < out@.len() ==> path_lt(
                    (#[trigger] out@[a]).path@,
                    (#[trigger] out@[b]).path@,
                ),
            lloaded ==> {
                &&& forall|a: int|
                    0 <= a < out@.len() ==> diff_entry_ok(lm, rm, #[trigger] out@[a])
                &&& forall|p: Seq<Seq<u8>>|
                    #![trigger lm.contains_key(p)]
                    #![trigger rm.contains_key(p)]
                    maps_differ_at(lm, rm, p) ==> diff_has_path(out@, p) || (exists|k: int|
                        i <= k < nl && (#[trigger] lf@[k]).0@ == p) || (exists|k: int|
                        j <= k < nr && (#[trigger] rf@[k]).0@ == p)
            },
        decreases nl - i + nr - j,
    {
        let take_left: bool;
        let take_right: bool;
        if j == nr {
            take_left = true;
            take_right = false;
        } else if i == nl {
            take_left = false;
            take_right = true;
        } else {
            match cmp_paths(&lf[i].0, &rf[j].0) {
                Rel::Lt => {
                    take_left = true;
                    take_right = false;
                }
                Rel::Gt => {
                    take_left = false;
                    take_right = true;
                }
                Rel::Eq => {
                    take_left = true;
                    take_right = true;
                }
            }
        }
        proof {
            if i < nl {
                crate::path::lemma_path_lt_trichotomy(lf@[i as int].0@, lf@[i as int].0@);
            }
            if j < nr {
                crate::path::lemma_path_lt_trichotomy(rf@[j as int].0@, rf@[j as int].0@);
            }
        }
        let ghost old_i = i as int;
        let ghost old_j = j as int;
        let ghost old_out = out@;
        if take_left && take_right {
            // same path on both sides
            let ghost p = lf@[i as int].0@;
            if !crate::meta::same_meta(&lf[i].1, &rf[j].1) {
                out.push(
                    DiffEntry::new(lf[i].0.clone(), DiffType::Changed(lf[i].1, rf[j].1)),
                );
            }
            proof {
                if lloaded {
                    assert forall|p2: Seq<Seq<u8>>|
                        #![trigger lm.contains_key(p2)]
                        #![trigger rm.contains_key(p2)]
                        maps_differ_at(lm, rm, p2) implies diff_has_path(out@, p2) || (exists|
                        k: int,
                    |
                        i + 1 <= k < nl && (#[trigger] lf@[k]).0@ == p2) || (exists|k: int|
                        j + 1 <= k < nr && (#[trigger] rf@[k]).0@ == p2) by {
                        if diff_has_path(old_out, p2) {
                            let a0 = choose|a0: int|
                                0 <= a0 < old_out.len() && (#[trigger] old_out[a0]).path@ == p2;
                            assert(out@[a0].path@ == p2);
                        }
                        assert(lm.contains_key((#[trigger] lf@[i as int]).0@) && lm[lf@[
                            i as int].0@] == lf@[i as int].1);
                        assert(rm.contains_key((#[trigger] rf@[j as int]).0@) && rm[rf@[
                            j as int].0@] == rf@[j as int].1);
                        if p2 == p {
                            if lf@[i as int].1 != rf@[j as int].1 {
                                assert(out@[out@.len() - 1].path@ == p2);
                            } else {
                                assert(!maps_differ_at(lm, rm, p2));
                            }
                        } else if !diff_has_path(out@, p2) {
                            if exists|k: int| i <= k < nl && (#[trigger] lf@[k]).0@ == p2 {
                                let k = choose|k: int|
                                    i <= k < nl && (#[trigger] lf@[k]).0@ == p2;
                                assert(k != i);
                                assert(i + 1 <= k < nl && lf@[k].0@ == p2);
                            }
                            if exists|k: int| j <= k < nr && (#[trigger] rf@[k]).0@ == p2 {
                                let k = choose|k: int|
                                    j <= k < nr && (#[trigger] rf@[k]).0@ == p2;
                                assert(k != j);
                                assert(j + 1 <= k < nr && rf@[k].0@ == p2);
                            }
                        }
                    }
                }
            }
            i = i + 1;
            j = j + 1;
        } else if take_left {
            let ghost p = lf@[i as int].0@;
            proof {
                if lloaded && rm.contains_key(p) {
                    let a = choose|a: int|
                        0 <= a < rf@.len() && (#[trigger] rf@[a]).0@ == p && rf@[a].1 == rm[p];
                    if a < j {
                        crate::path::lemma_path_lt_trichotomy(rf@[a].0@, lf@[i as int].0@);
                    } else {
                        if j < nr {
                            crate::path::lemma_path_lt_trichotomy(lf@[i as int].0@, rf@[j as int].0@);
                            if a > j {
                                crate::path::lemma_path_lt_trans(
                                    rf@[j as int].0@,
                                    rf@[a].0@,
                                    rf@[a].0@,
                                );
                            }
                        }
                        if a == j {
                        } else {
                            assert(path_lt(rf@[j as int].0@, rf@[a].0@));
                        }
                        crate::path::lemma_path_lt_trichotomy(lf@[i as int].0@, rf@[a].0@);
                    }
                }
            }
            out.push(DiffEntry::new(lf[i].0.clone(), DiffType::LeftOnly(lf[i].1)));
            proof {
                if lloaded {
                    assert(diff_entry_ok(lm, rm, out@[out@.len() - 1]));
                    assert forall|p2: Seq<Seq<u8>>|
                        #![trigger lm.contains_key(p2)]
                        #![trigger rm.contains_key(p2)]
                        maps_differ_at(lm, rm, p2) implies diff_has_path(out@, p2) || (exists|
                        k: int,
                    |
                        i + 1 <= k < nl && (#[trigger] lf@[k]).0@ == p2) || (exists|k: int|
                        j <= k < nr && (#[trigger] rf@[k]).0@ == p2) by {
                        if diff_has_path(old_out, p2) {
                            let a0 = choose|a0: int|
                                0 <= a0 < old_out.len() && (#[trigger] old_out[a0]).path@ == p2;
                            assert(out@[a0].path@ == p2);
                        }
                        if p2 == p {
                            assert(out@[out@.len() - 1].path@ == p2);
                        } else if !diff_has_path(out@, p2) {
                            if exists|k: int| i <= k < nl && (#[trigger] lf@[k]).0@ == p2 {
                                let k = choose|k: int|
                                    i <= k < nl && (#[trigger] lf@[k]).0@ == p2;
                                assert(k != i);
                                assert(i + 1 <= k < nl && lf@[k].0@ == p2);
                            }
                        }
                    }
                }
            }
            i = i + 1;
        } else {
            let ghost p = rf@[j as int].0@;
            proof {
                if lloaded && lm.contains_key(p) {
                    let a = choose|a: int|
                        0 <= a < lf@.len() && (#[trigger] lf@[a]).0@ == p && lf@[a].1 == lm[p];
                    if a < i {
                        crate::path::lemma_path_lt_trichotomy(lf@[a].0@, rf@[j as int].0@);
                    } else {
                        if i < nl {
                            crate::path::lemma_path_lt_trichotomy(rf@[j as int].0@, lf@[i as int].0@);
                        }
                        if a == i {
                        } else {
                            assert(path_lt(lf@[i as int].0@, lf@[a].0@));
                        }
                        crate::path::lemma_path_lt_trichotomy(rf@[j as int].0@, lf@[a].0@);
                    }
                }
            }
            out.push(DiffEntry::new(rf[j].0.clone(), DiffType::RightOnly(rf[j].1)));
            proof {
                if lloaded {
                    assert(diff_entry_ok(lm, rm, out@[out@.len() - 1]));
                    assert forall|p2: Seq<Seq<u8>>|
                        #![trigger lm.contains_key(p2)]
                        #![trigger rm.contains_key(p2)]
                        maps_differ_at(lm, rm, p2) implies diff_has_path(out@, p2) || (exists|
                        k: int,
                    |
                        i <= k < nl && (#[trigger] lf@[k]).0@ == p2) || (exists|k: int|
                        j + 1 <= k < nr && (#[trigger] rf@[k]).0@ == p2) by {
                        if diff_has_path(old_out, p2) {
                            let a0 = choose|a0: int|
                                0 <= a0 < old_out.len() && (#[trigger] old_out[a0]).path@ == p2;
                            assert(out@[a0].path@ == p2);
                        }
                        if p2 == p {
                            assert(out@[out@.len() - 1].path@ == p2);
                        } else if !diff_has_path(out@, p2) {
                            if exists|k: int| j <= k < nr && (#[trigger] rf@[k]).0@ == p2 {
                                let k = choose|k: int|
                                    j <= k < nr && (#[trigger] rf@[k]).0@ == p2;
                                assert(k != j);
                                assert(j + 1 <= k < nr && rf@[k].0@ == p2);
                            }
                        }
                    }
                }
            }
            j = j + 1;
        }
        proof {
            // frontier order is kept: step over the consumed entries
            assert forall|k: int, k2: int| 0 <= k < i && j <= k2 < nr implies path_lt(
                (#[trigger] lf@[k]).0@,
                (#[trigger] rf@[k2]).0@,
            ) by {
                if k == old_i {
                    if k2 > old_j {
                        assert(path_lt(rf@[old_j].0@, rf@[k2].0@));
                        if take_left && !take_right {
                            crate::path::lemma_path_lt_trans(
                                lf@[old_i].0@,
                                rf@[old_j].0@,
                                rf@[k2].0@,
                            );
                        }
                    }
                }
            }
            assert forall|k: int, k2: int| 0 <= k < j && i <= k2 < nl implies path_lt(
                (#[trigger] rf@[k]).0@,
                (#[trigger] lf@[k2]).0@,
            ) by {
                if k == old_j {
                    if k2 > old_i {
                        assert(path_lt(lf@[old_i].0@, lf@[k2].0@));
                        if take_right && !take_left {
                            crate::path::lemma_path_lt_trans(
                                rf@[old_j].0@,
                                lf@[old_i].0@,
                                lf@[k2].0@,
                            );
                        }
                    }
                }
            }
            // emitted entries stay behind both frontiers
            assert forall|a: int, k: int| 0 <= a < out@.len() && i <= k < nl implies path_lt(
                (#[trigger] out@[a]).path@,
                (#[trigger] lf@[k]).0@,
            ) by {
                if a >= old_out.len() {
                    if take_left {
                        assert(out@[a].path@ == lf@[old_i].0@);
                        assert(path_lt(lf@[old_i].0@, lf@[k].0@));
                    } else {
                        assert(out@[a].path@ == rf@[old_j].0@);
                        assert(path_lt(rf@[old_j].0@, lf@[k].0@));
                    }
                }
            }
            assert forall|a: int, k: int| 0 <= a < out@.len() && j <= k < nr implies path_lt(
                (#[trigger] out@[a]).path@,
                (#[trigger] rf@[k]).0@,
            ) by {
                if a >= old_out.len() {
                    if take_right {
                        assert(out@[a].path@ == rf@[old_j].0@);
                        assert(path_lt(rf@[old_j].0@, rf@[k].0@));
                    } else {
                        assert(out@[a].path@ == lf@[old_i].0@);
                        if k > old_j {
                            crate::path::lemma_path_lt_trans(
                                lf@[old_i].0@,
                                rf@[old_j].0@,
                                rf@[k].0@,
                            );
                        }
                    }
                }
            }
            assert forall|a: int, b: int| 0 <= a < b < out@.len() implies path_lt(
                (#[trigger] out@[a]).path@,
                (#[trigger] out@[b]).path@,
            ) by {
                if b >= old_out.len() {
                    if take_left {
                        assert(out@[b].path@ == lf@[old_i].0@);
                        assert(path_lt(old_out[a].path@, lf@[old_i].0@));
                    } else {
                        assert(out@[b].path@ == rf@[old_j].0@);
                        assert(path_lt(old_out[a].path@, rf@[old_j].0@));
                    }
                }
            }
        }
    }
    Ok(out)
}

/// Lookup after insert: by `insert`'s contract a successful `insert(p, m)`
/// turns the file map into `old.insert(p, m)`, and by `get`'s contract the
/// next `get(p)` answers from that map: it yields `Some(m)`.
pub proof fn lemma_lookup_after_insert(
    files: Map<Seq<Seq<u8>>, FileMetadata>,
    p: Seq<Seq<u8>>,
    m: FileMetadata,
)
    ensures
        files.insert(p, m).contains_key(p),
        files.insert(p, m)[p] == m,
{
}

/// Lookup after remove: a successful `remove(p)` leaves `old.remove(p)`,
/// in which `p` is absent, so the next `get(p)` yields `None` or an error,
/// never `Some`.
pub proof fn lemma_lookup_after_remove(files: Map<Seq<Seq<u8>>, FileMetadata>, p: Seq<Seq<u8>>)
    ensures
        !files.remove(p).contains_key(p),
{
}

/// Path coherence: where `get(p)` finds a file, every strict prefix `q`
/// names a directory: `q` is not itself a file, no file sits strictly above
/// `q`, and files exist strictly below it — by `get`'s contract the lookup
/// of `q` must answer `DirectoryWhereFileExpected`.
pub proof fn lemma_path_coherence<S: Store>(t: Tree<S>, p: Seq<Seq<u8>>, q: Seq<Seq<u8>>)
    requires
        t.inv(),
        t@.contains_key(p),
        strict_prefix(q, p),
    ensures
        map_has_dir(t@, q),
        !t@.contains_key(q),
        !map_has_file_prefix(t@, q),
{
    lemma_no_nested_files(t.root, Seq::empty());
    assert(map_has_dir(t@, q)) by {
        assert(t@.contains_key(p) && strict_prefix(q, p));
    }
    if map_has_file_prefix(t@, q) {
        let w = choose|w: Seq<Seq<u8>>| #[trigger] t@.contains_key(w) && strict_prefix(w, q);
        lemma_prefix_trans(w, q, p);
        assert(strict_prefix(w, p));
    }
}

/// Flush idempotence: `flush` returns the root's node id and leaves the
/// root's node id unchanged, so a second `flush` returns the same id.
pub proof fn lemma_flush_idempotent(before: Link, between: Link, n1: Seq<u8>, n2: Seq<u8>)
    requires
        n1 == link_node(before),
        link_node(between) == link_node(before),
        n2 == link_node(between),
    ensures
        n1 == n2,
{
}

/// Flush determinism: two loaded trees holding identical `(path, metadata)`
/// sets have equal root node ids, and `flush` returns exactly that id.
pub proof fn lemma_flush_deterministic<S: Store>(t1: Tree<S>, t2: Tree<S>)
    requires
        t1.inv(),
        t2.inv(),
        t1.loaded(),
        t2.loaded(),
        t1@ == t2@,
    ensures
        link_node(t1.root_link()) == link_node(t2.root_link()),
{
    crate::link::lemma_node_determined_by_files(t1.root, t2.root, Seq::empty());
}

/// The mirror image of one difference entry.
pub open spec fn flip_type(d: DiffType) -> DiffType {
    match d {
        DiffType::LeftOnly(m) => DiffType::RightOnly(m),
        DiffType::RightOnly(m) => DiffType::LeftOnly(m),
        DiffType::Changed(a, b) => DiffType::Changed(b, a),
    }
}

/// Two strictly sorted diffs that speak of the same paths list them in the
/// same order.
proof fn lemma_sorted_same_paths(v1: Seq<DiffEntry>, v2: Seq<DiffEntry>)
    requires
        forall|a: int, b: int|
            0 <= a < b < v1.len() ==> path_lt((#[trigger] v1[a]).path@, (#[trigger] v1[b]).path@),
        forall|a: int, b: int|
            0 <= a < b < v2.len() ==> path_lt((#[trigger] v2[a]).path@, (#[trigger] v2[b]).path@),
        forall|p: Seq<Seq<u8>>| #[trigger] diff_has_path(v1, p) == #[trigger] diff_has_path(v2, p),
    ensures
        v1.len() == v2.len(),
        forall|a: int| 0 <= a < v1.len() ==> (#[trigger] v1[a]).path@ == v2[a].path@,
    decreases v1.len(),
{
    if v1.len() == 0 {
        if v2.len() > 0 {
            assert(diff_has_path(v2, v2[0].path@));
            assert(diff_has_path(v1, v2[0].path@));
        }
    } else {
        assert(diff_has_path(v1, v1[0].path@));
        assert(diff_has_path(v2, v1[0].path@));
        assert(v2.len() > 0);
        assert(diff_has_path(v2, v2[0].path@));
        assert(diff_has_path(v1, v2[0].path@));
        let a1 = choose|a: int| 0 <= a < v2.len() && (#[trigger] v2[a]).path@ == v1[0].path@;
        let a2 = choose|a: int| 0 <= a < v1.len() && (#[trigger] v1[a]).path@ == v2[0].path@;
        assert(v1[0].path@ == v2[0].path@) by {
            crate::path::lemma_path_lt_trichotomy(v1[0].path@, v2[0].path@);
            if path_lt(v1[0].path@, v2[0].path@) {
                assert(a1 > 0);
                assert(path_lt(v2[0].path@, v2[a1].path@));
                crate::path::lemma_path_lt_trans(v2[0].path@, v2[a1].path@, v2[a1].path@);
                crate::path::lemma_path_lt_trichotomy(v2[0].path@, v2[a1].path@);
            }
            if path_lt(v2[0].path@, v1[0].path@) {
                assert(a2 > 0);
                assert(path_lt(v1[0].path@, v1[a2].path@));
                crate::path::lemma_path_lt_trichotomy(v1[0].path@, v1[a2].path@);
            }
        }
        let t1 = v1.drop_first();
        let t2 = v2.drop_first();
        assert(forall|a: int| 0 <= a < t1.len() ==> #[trigger] t1[a] == v1[a + 1]);
        assert(forall|a: int| 0 <= a < t2.len() ==> #[trigger] t2[a] == v2[a + 1]);
        assert forall|p: Seq<Seq<u8>>| #[trigger] diff_has_path(t1, p) == #[trigger] diff_has_path(
            t2,
            p,
        ) by {
            if diff_has_path(t1, p) {
                let a = choose|a: int| 0 <= a < t1.len() && (#[trigger] t1[a]).path@ == p;
                assert(v1[a + 1].path@ == p);
                assert(diff_has_path(v1, p));
                assert(diff_has_path(v2, p));
                let b = choose|b: int| 0 <= b < v2.len() && (#[trigger] v2[b]).path@ == p;
                assert(path_lt(v1[0].path@, p));
                if b == 0 {
                    crate::path::lemma_path_lt_trichotomy(v1[0].path@, p);
                }
                assert(t2[b - 1].path@ == p);
                assert(diff_has_path(t2, p));
            }
            if diff_has_path(t2, p) {
                let a = choose|a: int| 0 <= a < t2.len() && (#[trigger] t2[a]).path@ == p;
                assert(v2[a + 1].path@ == p);
                assert(diff_has_path(v2, p));
                assert(diff_has_path(v1, p));
                let b = choose|b: int| 0 <= b < v1.len() && (#[trigger] v1[b]).path@ == p;
                assert(path_lt(v2[0].path@, p));
                if b == 0 {
                    crate::path::lemma_path_lt_trichotomy(v2[0].path@, p);
                }
                assert(t1[b - 1].path@ == p);
                assert(diff_has_path(t1, p));
            }
        }
        lemma_sorted_same_paths(t1, t2);
        assert forall|a: int| 0 <= a < v1.len() implies (#[trigger] v1[a]).path@
            == v2[a].path@ by {
            if a > 0 {
                assert(t1[a - 1].path@ == t2[a - 1].path@);
            }
        }
    }
}

/// Diff symmetry: swap the two trees and every entry flips: `LeftOnly`
/// becomes `RightOnly` and back, `Changed(a, b)` becomes `Changed(b, a)`,
/// with the paths and their order unchanged.
pub proof fn lemma_diff_symmetry(
    lm: Map<Seq<Seq<u8>>, FileMetadata>,
    rm: Map<Seq<Seq<u8>>, FileMetadata>,
    v1: Seq<DiffEntry>,
    v2: Seq<DiffEntry>,
)
    requires
        forall|a: int, b: int|
            0 <= a < b < v1.len() ==> path_lt((#[trigger] v1[a]).path@, (#[trigger] v1[b]).path@),
        forall|a: int, b: int|
            0 <= a < b < v2.len() ==> path_lt((#[trigger] v2[a]).path@, (#[trigger] v2[b]).path@),
        forall|a: int| 0 <= a < v1.len() ==> diff_entry_ok(lm, rm, #[trigger] v1[a]),
        forall|a: int| 0 <= a < v2.len() ==> diff_entry_ok(rm, lm, #[trigger] v2[a]),
        forall|p: Seq<Seq<u8>>|
            #![trigger lm.contains_key(p)]
            #![trigger rm.contains_key(p)]
            maps_differ_at(lm, rm, p) ==> diff_has_path(v1, p),
        forall|p: Seq<Seq<u8>>|
            #![trigger lm.contains_key(p)]
            #![trigger rm.contains_key(p)]
            maps_differ_at(rm, lm, p) ==> diff_has_path(v2, p),
    ensures
        v1.len() == v2.len(),
        forall|a: int|
            0 <= a < v1.len() ==> (#[trigger] v2[a]).path@ == v1[a].path@ && v2[a].diff_type
                == flip_type(v1[a].diff_type),
{
    assert forall|p: Seq<Seq<u8>>| #[trigger] diff_has_path(v1, p) == #[trigger] diff_has_path(
        v2,
        p,
    ) by {
        if diff_has_path(v1, p) {
            let a = choose|a: int| 0 <= a < v1.len() && (#[trigger] v1[a]).path@ == p;
            assert(diff_entry_ok(lm, rm, v1[a]));
            assert(maps_differ_at(rm, lm, p));
        }
        if diff_has_path(v2, p) {
            let a = choose|a: int| 0 <= a < v2.len() && (#[trigger] v2[a]).path@ == p;
            assert(diff_entry_ok(rm, lm, v2[a]));
            assert(maps_differ_at(lm, rm, p));
        }
    }
    lemma_sorted_same_paths(v1, v2);
    assert forall|a: int| 0 <= a < v1.len() implies (#[trigger] v2[a]).path@ == v1[a].path@
        && v2[a].diff_type == flip_type(v1[a].diff_type) by {
        assert(diff_entry_ok(lm, rm, v1[a]));
        assert(diff_entry_ok(rm, lm, v2[a]));
    }
}

} // verus!
