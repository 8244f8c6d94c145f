//! The content-addressed backing store: ordered directory entries, their
//! wire serialization, the store capability, and an in-memory store.

use vstd::prelude::*;
use crate::error::Error;
use crate::meta::{FileType, NodeId};
use crate::path::{bytes_lt, cmp_bytes, cmp_paths, PathComponentBuf, Rel, RepoPathBuf};

verus! {

/// Marks an entry element as a file of some kind or a subdirectory.
#[derive(Debug, Clone, Copy, PartialEq, Eq)]
pub enum Flag {
    File(FileType),
    Directory,
}

/// One child record of a directory entry.
#[derive(Debug)]
pub struct Element {
    pub name: PathComponentBuf,
    pub node: NodeId,
    pub flag: Flag,
}

impl View for Element {
    type V = (Seq<u8>, Seq<u8>, Flag);

    open spec fn view(&self) -> (Seq<u8>, Seq<u8>, Flag) {
        (self.name@, self.node@, self.flag)
    }
}

impl Clone for Element {
    fn clone(&self) -> (r: Self)
        ensures
            r@ == self@,
    {
        Element { name: self.name.clone(), node: self.node, flag: self.flag }
    }
}

impl Element {
    pub fn new(name: PathComponentBuf, node: NodeId, flag: Flag) -> (r: Element)
        ensures
            r@ == (name@, node@, flag),
    {
        Element { name, node, flag }
    }
}

/// Element records strictly sorted by name.
pub open spec fn elements_sorted(es: Seq<(Seq<u8>, Seq<u8>, Flag)>) -> bool {
    forall|i: int, j: int| 0 <= i < j < es.len() ==> bytes_lt(es[i].0, es[j].0)
}

/// The view of a vector of elements.
pub open spec fn elements_view(es: Seq<Element>) -> Seq<(Seq<u8>, Seq<u8>, Flag)> {
    Seq::new(es.len(), |i: int| es[i]@)
}

/// An ordered directory entry: the immediate children of one directory,
/// strictly sorted by name.
#[derive(Debug)]
pub struct Entry {
    elements: Vec<Element>,
}

impl View for Entry {
    type V = Seq<(Seq<u8>, Seq<u8>, Flag)>;

    closed spec fn view(&self) -> Seq<(Seq<u8>, Seq<u8>, Flag)> {
        elements_view(self.elements@)
    }
}

impl Clone for Entry {
    #[verifier::loop_isolation(false)]
    fn clone(&self) -> (r: Self)
        ensures
            r@ == self@,
    {
        let mut elements: Vec<Element> = Vec::new();
        let mut i: usize = 0;
        while i < self.elements.len()
            invariant
                i <= self.elements.len(),
                elements@.len() == i,
                forall|k: int| 0 <= k < i ==> elements@[k]@ == self.elements@[k]@,
            decreases self.elements.len() - i,
        {
            elements.push(self.elements[i].clone());
            i = i + 1;
        }
        let r = Entry { elements };
        proof {
            assert(r@ =~= self@);
        }
        r
    }
}

impl Entry {
    /// Builds an entry from the given elements, ordering them by name;
    /// duplicate names are refused.
    #[verifier::loop_isolation(false)]
    pub fn from_elements(elements: Vec<Element>) -> (r: Result<Entry, Error>)
        ensures
            match r {
                Ok(e) => elements_sorted(e@) && e@.to_multiset() == elements_view(
                    elements@,
                ).to_multiset(),
                Err(e) => e is InvalidEntry && exists|a: int, b: int|
                    0 <= a < b < elements@.len() && (#[trigger] elements_view(elements@)[a]).0 == (
                    #[trigger] elements_view(elements@)[b]).0,
            },
    {
        broadcast use vstd::seq_lib::group_to_multiset_ensures;

        let ghost ev = elements_view(elements@);
        let mut out: Vec<Element> = Vec::new();
        let n = elements.len();
        let mut i: usize = 0;
        proof {
            assert(ev.take(0) =~= Seq::<(Seq<u8>, Seq<u8>, Flag)>::empty());
            assert(elements_view(out@) =~= Seq::<(Seq<u8>, Seq<u8>, Flag)>::empty());
        }
        while i < n
            invariant
                n == elements@.len(),
                i <= n,
                elements_sorted(elements_view(out@)),
                out@.len() == i,
                elements_view(out@).to_multiset() == ev.take(i as int).to_multiset(),
            decreases n - i,
        {
            let el = elements[i].clone();
            let ghost elv = el@;
            let m = out.len();
            let mut j: usize = 0;
            let ghost pre = elements_view(out@);
            while j < m
                invariant
                    m == out@.len(),
                    j <= m,
                    elements_view(out@) == pre,
                    forall|k: int|
                        0 <= k < j ==> bytes_lt((#[trigger] elements_view(out@)[k]).0, elv.0),
                decreases m - j,
            {
                match cmp_bytes(out[j].name.as_bytes(), el.name.as_bytes()) {
                    Rel::Lt => {
                        j = j + 1;
                    }
                    Rel::Eq => {
                        proof {
                            // the clashing name also sits somewhere in the input prefix
                            assert(pre.to_multiset().contains(pre[j as int]));
                            assert(ev.take(i as int).contains(pre[j as int]));
                            let a = choose|a: int|
                                0 <= a < i && #[trigger] ev.take(i as int)[a] == pre[j as int];
                            assert(ev[a] == pre[j as int]);
                            assert(ev[i as int] == elv);
                            assert((#[trigger] ev[a]).0 == (#[trigger] ev[i as int]).0);
                        }
                        return Err(Error::InvalidEntry);
                    }
                    Rel::Gt => {
                        break;
                    }
                }
            }
            proof {
                assert forall|k: int| j <= k < m implies bytes_lt(
                    elv.0,
                    (#[trigger] elements_view(out@)[k]).0,
                ) by {
                    if k > j {
                        crate::path::lemma_bytes_lt_trans(elv.0, pre[j as int].0, pre[k].0);
                    }
                }
            }
            out.insert(j, el);
            proof {
                assert(elements_view(out@) =~= pre.insert(j as int, elv));
                assert(elements_sorted(elements_view(out@))) by {
                    assert(forall|k: int|
                        0 <= k < j ==> #[trigger] elements_view(out@)[k] == pre[k]);
                    assert(elements_view(out@)[j as int] == elv);
                    assert(forall|k: int|
                        j < k < out@.len() ==> #[trigger] elements_view(out@)[k] == pre[k - 1]);
                }
                let cur = elements_view(out@);
                assert(cur.remove(j as int) =~= pre);
                assert(cur.to_multiset().remove(elv) =~= pre.to_multiset());
                assert(cur.to_multiset().contains(elv)) by {
                    assert(cur[j as int] == elv);
                    assert(cur.contains(elv));
                }
                assert(cur.to_multiset() =~= pre.to_multiset().insert(elv));
                assert(ev.take(i + 1) =~= ev.take(i as int).push(elv));
                assert(ev.take(i + 1).to_multiset() =~= ev.take(i as int).to_multiset().insert(
                    elv,
                ));
            }
            i = i + 1;
        }
        proof {
            assert(ev.take(n as int) =~= ev);
        }
        Ok(Entry { elements: out })
    }

    /// Builds an entry from elements already known to be sorted.
    pub(crate) fn from_sorted(elements: Vec<Element>) -> (r: Entry)
        requires
            elements_sorted(elements_view(elements@)),
        ensures
            r@ == elements_view(elements@),
    {
        Entry { elements }
    }

    pub fn len(&self) -> (n: usize)
        ensures
            n == self@.len(),
    {
        self.elements.len()
    }

    pub fn element(&self, i: usize) -> (r: &Element)
        requires
            i < self@.len(),
        ensures
            r@ == self@[i as int],
    {
        &self.elements[i]
    }

    /// Serializes this entry: for each element, in order,
    /// `name NUL hex(node) flag LF`.
    #[verifier::loop_isolation(false)]
    pub fn serialize(&self) -> (r: Vec<u8>)
        ensures
            r@ == entry_bytes(self@),
    {
        let mut buf: Vec<u8> = Vec::new();
        let mut i: usize = 0;
        proof {
            assert(self@.take(0) =~= Seq::<(Seq<u8>, Seq<u8>, Flag)>::empty());
        }
        while i < self.elements.len()
            invariant
                i <= self.elements.len(),
                buf@ == entry_bytes(self@.take(i as int)),
            decreases self.elements.len() - i,
        {
            let el = &self.elements[i];
            let ghost pre = buf@;
            // name
            let mut k: usize = 0;
            while k < el.name.as_bytes().len()
                invariant
                    k <= el.name@.len(),
                    buf@ == pre + el.name@.take(k as int),
                decreases el.name@.len() - k,
            {
                buf.push(el.name.as_bytes()[k]);
                proof {
                    assert(pre + el.name@.take(k as int) + seq![el.name@[k as int]] =~= pre
                        + el.name@.take(k + 1));
                }
                k = k + 1;
            }
            proof {
                assert(el.name@.take(el.name@.len() as int) =~= el.name@);
            }
            // NUL separator
            buf.push(0);
            // node id, lowercase hex
            let ghost pre2 = buf@;
            let node = el.node.as_array();
            let mut k: usize = 0;
            while k < 20
                invariant
                    k <= 20,
                    buf@ == pre2 + hex_bytes(el.node@.take(k as int)),
                decreases 20 - k,
            {
                let byte = node[k];
                buf.push(hex_digit_of(byte / 16));
                buf.push(hex_digit_of(byte % 16));
                proof {
                    lemma_hex_bytes_push(el.node@.take(k as int), el.node@[k as int]);
                    assert(el.node@.take(k as int).push(el.node@[k as int]) =~= el.node@.take(
                        k + 1,
                    ));
                    assert(pre2 + hex_bytes(el.node@.take(k as int)) + seq![
                        hex_digit(el.node@[k as int] / 16),
                        hex_digit(el.node@[k as int] % 16),
                    ] =~= pre2 + hex_bytes(el.node@.take(k + 1)));
                }
                k = k + 1;
            }
            proof {
                assert(el.node@.take(20) =~= el.node@);
            }
            // flag and newline
            let fb: u8 = match el.flag {
                Flag::File(FileType::Regular) => 114,
                Flag::File(FileType::Executable) => 120,
                Flag::File(FileType::Symlink) => 108,
                Flag::Directory => 116,
            };
            buf.push(fb);
            buf.push(10);
            proof {
                assert(buf@ =~= pre + element_bytes(self@[i as int]));
                lemma_entry_bytes_push(self@.take(i as int), self@[i as int]);
                assert(self@.take(i as int).push(self@[i as int]) =~= self@.take(i + 1));
            }
            i = i + 1;
        }
        proof {
            assert(self@.take(self@.len() as int) =~= self@);
        }
        buf
    }
}

/// One lowercase hex digit.
pub open spec fn hex_digit(n: u8) -> u8 {
    if n < 10 {
        (48 + n) as u8
    } else {
        (87 + n) as u8
    }
}

fn hex_digit_of(n: u8) -> (r: u8)
    requires
        n < 16,
    ensures
        r == hex_digit(n),
{
    if n < 10 {
        48 + n
    } else {
        87 + n
    }
}

/// Lowercase hex encoding of a byte string, two digits per byte.
pub open spec fn hex_bytes(s: Seq<u8>) -> Seq<u8>
    decreases s.len(),
{
    if s.len() == 0 {
        Seq::empty()
    } else {
        seq![hex_digit(s[0] / 16), hex_digit(s[0] % 16)] + hex_bytes(s.drop_first())
    }
}

proof fn lemma_hex_bytes_push(s: Seq<u8>, x: u8)
    ensures
        hex_bytes(s.push(x)) == hex_bytes(s) + seq![hex_digit(x / 16), hex_digit(x % 16)],
    decreases s.len(),
{
    if s.len() == 0 {
        let c = seq![hex_digit(x / 16), hex_digit(x % 16)];
        assert(s.push(x)[0] == x);
        assert(s.push(x).drop_first() =~= Seq::<u8>::empty());
        assert(hex_bytes(s.push(x)) == c + hex_bytes(Seq::<u8>::empty()));
        assert(c + Seq::<u8>::empty() =~= c);
        assert(hex_bytes(s) + c =~= c);
    } else {
        assert(s.push(x).drop_first() =~= s.drop_first().push(x));
        lemma_hex_bytes_push(s.drop_first(), x);
        let a = seq![hex_digit(s[0] / 16), hex_digit(s[0] % 16)];
        let b = hex_bytes(s.drop_first());
        let c = seq![hex_digit(x / 16), hex_digit(x % 16)];
        assert(s.push(x)[0] == s[0]);
        assert(hex_bytes(s.push(x)) == a + (b + c));
        assert(a + (b + c) =~= (a + b) + c);
    }
}

/// The flag character: `r`, `x`, `l`, or `t`.
pub open spec fn flag_byte(f: Flag) -> u8 {
    match f {
        Flag::File(FileType::Regular) => 114u8,
        Flag::File(FileType::Executable) => 120u8,
        Flag::File(FileType::Symlink) => 108u8,
        Flag::Directory => 116u8,
    }
}

/// The serialized record of one element.
pub open spec fn element_bytes(e: (Seq<u8>, Seq<u8>, Flag)) -> Seq<u8> {
    e.0 + seq![0u8] + hex_bytes(e.1) + seq![flag_byte(e.2), 10u8]
}

/// The serialized bytes of a whole entry, records concatenated in order.
pub open spec fn entry_bytes(es: Seq<(Seq<u8>, Seq<u8>, Flag)>) -> Seq<u8>
    decreases es.len(),
{
    if es.len() == 0 {
        Seq::empty()
    } else {
        element_bytes(es[0]) + entry_bytes(es.drop_first())
    }
}

pub proof fn lemma_entry_bytes_push(es: Seq<(Seq<u8>, Seq<u8>, Flag)>, x: (Seq<u8>, Seq<u8>, Flag))
    ensures
        entry_bytes(es.push(x)) == entry_bytes(es) + element_bytes(x),
    decreases es.len(),
{
    if es.len() == 0 {
        let c = element_bytes(x);
        assert(es.push(x)[0] == x);
        assert(es.push(x).drop_first() =~= Seq::<(Seq<u8>, Seq<u8>, Flag)>::empty());
        assert(entry_bytes(es.push(x)) == c + entry_bytes(
            Seq::<(Seq<u8>, Seq<u8>, Flag)>::empty(),
        ));
        assert(c + Seq::<u8>::empty() =~= c);
        assert(entry_bytes(es) + c =~= c);
    } else {
        assert(es.push(x).drop_first() =~= es.drop_first().push(x));
        lemma_entry_bytes_push(es.drop_first(), x);
        let a = element_bytes(es[0]);
        let b = entry_bytes(es.drop_first());
        let c = element_bytes(x);
        assert(es.push(x)[0] == es[0]);
        assert(entry_bytes(es.push(x)) == a + (b + c));
        assert(a + (b + c) =~= (a + b) + c);
    }
}

/// The store capability: a mapping from `(path, node)` to an entry.
/// Insertion is idempotent per key; conflicting reinsertion fails.
pub trait Store: Sized {
    /// The abstract contents: which entry each `(path, node)` key holds.
    spec fn contents(&self) -> Map<(Seq<Seq<u8>>, Seq<u8>), Seq<(Seq<u8>, Seq<u8>, Flag)>>;

    /// The store's own invariant; every stored entry is sorted.
    spec fn inv(&self) -> bool;

    /// Fetches the entry stored under `(path, node)`.
    fn get(&self, path: &RepoPathBuf, node: &NodeId) -> (r: Result<Entry, Error>)
        requires
            self.inv(),
        ensures
            match r {
                Ok(e) => self.contents().contains_key((path@, node@)) && e@ == self.contents()[(
                    path@,
                    node@,
                )] && elements_sorted(e@),
                Err(e) => !self.contents().contains_key((path@, node@)) && (e matches
                Error::StoreNotFound(p, n) && p@ == path@ && n@ == node@),
            },
    ;

    /// Records `entry` under `(path, node)`. Re-inserting the same entry is a
    /// no-op; a different entry under an existing key is a conflict.
    fn insert(&mut self, path: RepoPathBuf, node: NodeId, entry: Entry) -> (r: Result<(), Error>)
        requires
            old(self).inv(),
            elements_sorted(entry@),
        ensures
            final(self).inv(),
            match r {
                Ok(()) => final(self).contents() == old(self).contents().insert(
                    (path@, node@),
                    entry@,
                ) && (old(self).contents().contains_key((path@, node@)) ==> old(
                    self,
                ).contents()[(path@, node@)] == entry@),
                Err(e) => e is StoreConflict && old(self).contents().contains_key((path@, node@))
                    && old(self).contents()[(path@, node@)] != entry@ && final(self).contents()
                    == old(self).contents(),
            },
    ;
}

/// An in-memory store keyed by `(path, node)`, for tests and local use.
#[derive(Debug)]
pub struct TestStore {
    items: Vec<(RepoPathBuf, NodeId, Entry)>,
}

/// The map described by a backing vector, later items winning (keys are in
/// fact unique under the invariant).
pub open spec fn store_contents(s: Seq<(RepoPathBuf, NodeId, Entry)>) -> Map<
    (Seq<Seq<u8>>, Seq<u8>),
    Seq<(Seq<u8>, Seq<u8>, Flag)>,
>
    decreases s.len(),
{
    if s.len() == 0 {
        Map::empty()
    } else {
        store_contents(s.drop_last()).insert((s.last().0@, s.last().1@), s.last().2@)
    }
}

proof fn lemma_store_contents_keys(s: Seq<(RepoPathBuf, NodeId, Entry)>)
    ensures
        forall|i: int|
            0 <= i < s.len() ==> store_contents(s).contains_key(
                ((#[trigger] s[i]).0@, s[i].1@),
            ),
        forall|k: (Seq<Seq<u8>>, Seq<u8>)|
            #[trigger] store_contents(s).contains_key(k) ==> exists|i: int|
                0 <= i < s.len() && ((#[trigger] s[i]).0@, s[i].1@) == k,
    decreases s.len(),
{
    if s.len() > 0 {
        lemma_store_contents_keys(s.drop_last());
        assert forall|i: int| 0 <= i < s.len() implies store_contents(s).contains_key(
            ((#[trigger] s[i]).0@, s[i].1@),
        ) by {
            if i < s.len() - 1 {
                assert(s.drop_last()[i] == s[i]);
            }
        }
        assert forall|k: (Seq<Seq<u8>>, Seq<u8>)| #[trigger]
            store_contents(s).contains_key(k) implies exists|i: int|
            0 <= i < s.len() && ((#[trigger] s[i]).0@, s[i].1@) == k by {
            if k == (s.last().0@, s.last().1@) {
                assert(((s[s.len() - 1]).0@, s[s.len() - 1].1@) == k);
            } else {
                assert(store_contents(s.drop_last()).contains_key(k));
                let i = choose|i: int|
                    0 <= i < s.drop_last().len() && ((#[trigger] s.drop_last()[i]).0@,
                    s.drop_last()[i].1@) == k;
                assert(s.drop_last()[i] == s[i]);
                assert(((s[i]).0@, s[i].1@) == k);
            }
        }
    }
}

proof fn lemma_store_contents_value(s: Seq<(RepoPathBuf, NodeId, Entry)>, i: int)
    requires
        0 <= i < s.len(),
        forall|a: int, b: int|
            0 <= a < b < s.len() ==> ((#[trigger] s[a]).0@, s[a].1@) != ((#[trigger] s[b]).0@,
            s[b].1@),
    ensures
        store_contents(s)[((s[i]).0@, s[i].1@)] == s[i].2@,
    decreases s.len(),
{
    if i == s.len() - 1 {
    } else {
        assert(forall|a: int, b: int|
            0 <= a < b < s.drop_last().len() ==> ((#[trigger] s.drop_last()[a]).0@,
            s.drop_last()[a].1@) != ((#[trigger] s.drop_last()[b]).0@, s.drop_last()[b].1@));
        lemma_store_contents_value(s.drop_last(), i);
        assert(s.drop_last()[i] == s[i]);
        assert(((s[i]).0@, s[i].1@) != ((s[s.len() - 1]).0@, s[s.len() - 1].1@));
    }
}

impl TestStore {
    /// An empty in-memory store.
    pub fn new() -> (r: TestStore)
        ensures
            r.inv(),
            r.contents() == Map::<(Seq<Seq<u8>>, Seq<u8>), Seq<(Seq<u8>, Seq<u8>, Flag)>>::empty(),
    {
        let r = TestStore { items: Vec::new() };
        r
    }
}

/// Byte equality of file types.
fn file_type_eq(a: &FileType, b: &FileType) -> (r: bool)
    ensures
        r == (a == b),
{
    match (a, b) {
        (FileType::Regular, FileType::Regular) => true,
        (FileType::Executable, FileType::Executable) => true,
        (FileType::Symlink, FileType::Symlink) => true,
        _ => false,
    }
}

/// Equality of flags.
pub fn flag_eq(a: &Flag, b: &Flag) -> (r: bool)
    ensures
        r == (a == b),
{
    match (a, b) {
        (Flag::File(x), Flag::File(y)) => file_type_eq(x, y),
        (Flag::Directory, Flag::Directory) => true,
        _ => false,
    }
}

/// View-level equality of entries.
#[verifier::loop_isolation(false)]
fn entry_eq(a: &Entry, b: &Entry) -> (r: bool)
    ensures
        r == (a@ == b@),
{
    if a.len() != b.len() {
        return false;
    }
    let n = a.len();
    let mut i: usize = 0;
    while i < n
        invariant
            i <= n,
            n == a@.len() == b@.len(),
            forall|k: int| 0 <= k < i ==> a@[k] == b@[k],
        decreases n - i,
    {
        let ea = a.element(i);
        let eb = b.element(i);
        let names = cmp_bytes(ea.name.as_bytes(), eb.name.as_bytes());
        match names {
            Rel::Eq => {}
            _ => {
                return false;
            }
        }
        if !ea.node.same(&eb.node) {
            return false;
        }
        if !flag_eq(&ea.flag, &eb.flag) {
            return false;
        }
        i = i + 1;
    }
    proof {
        assert(a@ =~= b@);
    }
    true
}

impl Store for TestStore {
    closed spec fn contents(&self) -> Map<(Seq<Seq<u8>>, Seq<u8>), Seq<(Seq<u8>, Seq<u8>, Flag)>> {
        store_contents(self.items@)
    }

    closed spec fn inv(&self) -> bool {
        &&& forall|a: int, b: int|
            0 <= a < b < self.items@.len() ==> ((#[trigger] self.items@[a]).0@, self.items@[a].1@)
                != ((#[trigger] self.items@[b]).0@, self.items@[b].1@)
        &&& forall|i: int|
            0 <= i < self.items@.len() ==> elements_sorted((#[trigger] self.items@[i]).2@)
    }

    #[verifier::loop_isolation(false)]
    fn get(&self, path: &RepoPathBuf, node: &NodeId) -> (r: Result<Entry, Error>) {
        proof {
            lemma_store_contents_keys(self.items@);
        }
        let n = self.items.len();
        let mut i: usize = 0;
        while i < n
            invariant
                i <= n,
                n == self.items@.len(),
                forall|k: int|
                    0 <= k < i ==> ((#[trigger] self.items@[k]).0@, self.items@[k].1@) != (
                    path@,
                    node@,
                ),
            decreases n - i,
        {
            let item_path = &self.items[i].0;
            let item_node = &self.items[i].1;
            let paths = cmp_paths(item_path, path);
            let path_matches = match paths {
                Rel::Eq => true,
                _ => false,
            };
            if path_matches && item_node.same(node) {
                proof {
                    lemma_store_contents_value(self.items@, i as int);
                }
                return Ok(self.items[i].2.clone());
            }
            i = i + 1;
        }
        Err(Error::StoreNotFound(path.clone(), *node))
    }

    #[verifier::loop_isolation(false)]
    fn insert(&mut self, path: RepoPathBuf, node: NodeId, entry: Entry) -> (r: Result<(), Error>) {
        proof {
            lemma_store_contents_keys(self.items@);
        }
        let n = self.items.len();
        let mut i: usize = 0;
        while i < n
            invariant
                i <= n,
                n == self.items@.len(),
                forall|k: int|
                    0 <= k < i ==> ((#[trigger] self.items@[k]).0@, self.items@[k].1@) != (
                    path@,
                    node@,
                ),
            decreases n - i,
        {
            let item_path = &self.items[i].0;
            let item_node = &self.items[i].1;
            let paths = cmp_paths(item_path, &path);
            let path_matches = match paths {
                Rel::Eq => true,
                _ => false,
            };
            if path_matches && item_node.same(&node) {
                proof {
                    lemma_store_contents_value(self.items@, i as int);
                }
                if entry_eq(&self.items[i].2, &entry) {
                    proof {
                        assert(self.contents() =~= self.contents().insert(
                            (path@, node@),
                            entry@,
                        ));
                    }
                    return Ok(());
                } else {
                    return Err(Error::StoreConflict(path, node));
                }
            }
            i = i + 1;
        }
        self.items.push((path, node, entry));
        proof {
            assert(self.items@.drop_last() =~= old(self).items@);
            lemma_store_contents_keys(self.items@);
        }
        Ok(())
    }
}

} // verus!
