//! The tree's node model: a link is a file leaf, a live (ephemeral)
//! directory, or a durable directory known by content hash whose children
//! may or may not be materialized yet.

use vstd::prelude::*;
use crate::hash::node_hash;
use crate::meta::{null_node, FileMetadata, NodeId};
use crate::path::{bytes_lt, is_prefix, strict_prefix, PathComponentBuf};
use crate::store::{entry_bytes, Flag};

verus! {

/// One node of the manifest tree.
pub enum Link {
    /// A file, with its metadata.
    Leaf(FileMetadata),
    /// A live directory: children ordered by component name.
    Ephemeral(Vec<(PathComponentBuf, Link)>),
    /// A directory known by its node id; its children are fetched from the
    /// store at most once and cached here.
    Durable(NodeId, Option<Vec<(PathComponentBuf, Link)>>),
}

/// A directory whose (present) child list is empty. Well-formed trees keep
/// no such link below the root.
pub open spec fn child_is_empty_dir(l: Link) -> bool {
    match l {
        Link::Leaf(_) => false,
        Link::Ephemeral(ch) => ch@.len() == 0,
        Link::Durable(_, Some(ch)) => ch@.len() == 0,
        Link::Durable(_, None) => false,
    }
}

/// Shape well-formedness: children strictly sorted by name, recursively
/// well-formed, and no empty directory hangs below its parent.
pub open spec fn link_wf(l: Link) -> bool
    decreases l,
{
    match l {
        Link::Leaf(_) => true,
        Link::Ephemeral(ch) => children_wf(ch@),
        Link::Durable(_, None) => true,
        Link::Durable(_, Some(ch)) => children_wf(ch@),
    }
}

pub open spec fn children_wf(ch: Seq<(PathComponentBuf, Link)>) -> bool
    decreases ch,
{
    &&& forall|i: int, j: int|
        0 <= i < j < ch.len() ==> bytes_lt((#[trigger] ch[i]).0@, (#[trigger] ch[j]).0@)
    &&& forall|i: int|
        0 <= i < ch.len() ==> link_wf((#[trigger] ch[i]).1) && !child_is_empty_dir(ch[i].1)
}

/// The files reachable under `l`, keyed by absolute path; `base` is the path
/// of `l` itself. An unmaterialized durable directory contributes nothing:
/// this map is the tree's meaning only once the spine in question is in
/// memory.
pub open spec fn link_files(l: Link, base: Seq<Seq<u8>>) -> Map<Seq<Seq<u8>>, FileMetadata>
    decreases l,
{
    match l {
        Link::Leaf(m) => Map::empty().insert(base, m),
        Link::Ephemeral(ch) => children_files(ch@, base),
        Link::Durable(_, Some(ch)) => children_files(ch@, base),
        Link::Durable(_, None) => Map::empty(),
    }
}

pub open spec fn children_files(ch: Seq<(PathComponentBuf, Link)>, base: Seq<Seq<u8>>) -> Map<
    Seq<Seq<u8>>,
    FileMetadata,
>
    decreases ch,
{
    if ch.len() == 0 {
        Map::empty()
    } else {
        link_files(ch[0].1, base.push(ch[0].0@)).union_prefer_right(
            children_files(ch.drop_first(), base),
        )
    }
}

/// No durable link below (or at) `l` is still waiting on the store.
pub open spec fn materialized(l: Link) -> bool
    decreases l,
{
    match l {
        Link::Leaf(_) => true,
        Link::Ephemeral(ch) => children_materialized(ch@),
        Link::Durable(_, Some(ch)) => children_materialized(ch@),
        Link::Durable(_, None) => false,
    }
}

pub open spec fn children_materialized(ch: Seq<(PathComponentBuf, Link)>) -> bool
    decreases ch,
{
    forall|i: int| 0 <= i < ch.len() ==> materialized((#[trigger] ch[i]).1)
}

/// The flag a parent entry records for this link.
pub open spec fn flag_of(l: Link) -> Flag {
    match l {
        Link::Leaf(m) => Flag::File(m.file_type),
        _ => Flag::Directory,
    }
}

/// The entry a directory's children serialize to: one element per child, in
/// stored order.
pub open spec fn entries_of(ch: Seq<(PathComponentBuf, Link)>) -> Seq<(Seq<u8>, Seq<u8>, Flag)>
    decreases ch,
{
    if ch.len() == 0 {
        Seq::empty()
    } else {
        seq![(ch[0].0@, link_node(ch[0].1), flag_of(ch[0].1))] + entries_of(ch.drop_first())
    }
}

/// The node id a link has, or would get when flushed: a leaf's blob hash, a
/// durable link's recorded id, and for a live directory the hash of its
/// serialized entry under null parents.
pub open spec fn link_node(l: Link) -> Seq<u8>
    decreases l,
{
    match l {
        Link::Leaf(m) => m.node@,
        Link::Durable(n, _) => n@,
        Link::Ephemeral(ch) => node_hash(
            null_node(),
            null_node(),
            entry_bytes(entries_of(ch@)),
        ),
    }
}

/// Every materialized durable link's id really is the hash of its cached
/// children. Trees built by this crate's own operations keep this.
pub open spec fn honest(l: Link) -> bool
    decreases l,
{
    match l {
        Link::Leaf(_) => true,
        Link::Ephemeral(ch) => children_honest(ch@),
        Link::Durable(_, None) => true,
        Link::Durable(n, Some(ch)) => children_honest(ch@) && n@ == node_hash(
            null_node(),
            null_node(),
            entry_bytes(entries_of(ch@)),
        ),
    }
}

pub open spec fn children_honest(ch: Seq<(PathComponentBuf, Link)>) -> bool
    decreases ch,
{
    forall|i: int| 0 <= i < ch.len() ==> honest((#[trigger] ch[i]).1)
}

/// A link the in-memory model fully describes: materialized and honest.
pub open spec fn loaded(l: Link) -> bool {
    materialized(l) && honest(l)
}

/// Keys of a link's file map extend the link's own path: a leaf claims
/// exactly its path, a directory only strictly longer paths.
pub proof fn lemma_link_files_prefix(l: Link, base: Seq<Seq<u8>>)
    ensures
        forall|k: Seq<Seq<u8>>| #[trigger]
            link_files(l, base).contains_key(k) ==> is_prefix(base, k),
        !(l is Leaf) ==> forall|k: Seq<Seq<u8>>| #[trigger]
            link_files(l, base).contains_key(k) ==> strict_prefix(base, k),
        l is Leaf ==> link_files(l, base).contains_key(base) && link_files(l, base).dom()
            =~= set![base],
    decreases l,
{
    match l {
        Link::Leaf(m) => {
            assert(base.take(base.len() as int) =~= base);
            assert(link_files(l, base).dom() =~= set![base]);
            assert forall|k: Seq<Seq<u8>>| #[trigger]
                link_files(l, base).contains_key(k) implies is_prefix(base, k) by {
                assert(k == base);
            }
        }
        Link::Ephemeral(ch) => {
            lemma_children_files_prefix(ch@, base);
            assert forall|k: Seq<Seq<u8>>| #[trigger]
                link_files(l, base).contains_key(k) implies strict_prefix(base, k) by {
                assert(children_files(ch@, base).contains_key(k));
            }
        }
        Link::Durable(_, Some(ch)) => {
            lemma_children_files_prefix(ch@, base);
            assert forall|k: Seq<Seq<u8>>| #[trigger]
                link_files(l, base).contains_key(k) implies strict_prefix(base, k) by {
                assert(children_files(ch@, base).contains_key(k));
            }
        }
        Link::Durable(_, None) => {}
    }
}

/// Keys of a children map strictly extend the base, and each key names the
/// child it came from by its component at position `base.len()`.
pub proof fn lemma_children_files_prefix(ch: Seq<(PathComponentBuf, Link)>, base: Seq<Seq<u8>>)
    ensures
        forall|k: Seq<Seq<u8>>| #[trigger]
            children_files(ch, base).contains_key(k) ==> strict_prefix(base, k),
        forall|k: Seq<Seq<u8>>| #[trigger]
            children_files(ch, base).contains_key(k) ==> exists|i: int|
                0 <= i < ch.len() && k[base.len() as int] == (#[trigger] ch[i]).0@ && is_prefix(
                    base.push(ch[i].0@),
                    k,
                ),
    decreases ch,
{
    if ch.len() > 0 {
        let head = ch[0];
        let hb = base.push(head.0@);
        lemma_link_files_prefix(head.1, hb);
        lemma_children_files_prefix(ch.drop_first(), base);
        assert forall|k: Seq<Seq<u8>>| #[trigger]
            children_files(ch, base).contains_key(k) implies strict_prefix(base, k) && exists|
            i: int,
        |
            0 <= i < ch.len() && k[base.len() as int] == (#[trigger] ch[i]).0@ && is_prefix(
                base.push(ch[i].0@),
                k,
            ) by {
            if children_files(ch.drop_first(), base).contains_key(k) {
                let j = choose|j: int|
                    0 <= j < ch.drop_first().len() && k[base.len() as int] == (#[trigger] ch.drop_first()[j]).0@
                        && is_prefix(base.push(ch.drop_first()[j].0@), k);
                assert(ch.drop_first()[j] == ch[j + 1]);
                assert(0 <= j + 1 < ch.len() && k[base.len() as int] == ch[j + 1].0@ && is_prefix(
                    base.push(ch[j + 1].0@),
                    k,
                ));
            } else {
                assert(link_files(head.1, hb).contains_key(k));
                crate::path::lemma_prefix_step(base, head.0@, k);
                assert(0 <= 0 < ch.len() && k[base.len() as int] == ch[0].0@ && is_prefix(
                    base.push(ch[0].0@),
                    k,
                ));
            }
        }
    }
}

/// Distinct names on the two sides keep sibling subtrees' keys apart.
proof fn lemma_sibling_keys_disjoint(
    ch: Seq<(PathComponentBuf, Link)>,
    base: Seq<Seq<u8>>,
    c: Seq<u8>,
    k: Seq<Seq<u8>>,
)
    requires
        forall|i: int| 0 <= i < ch.len() ==> (#[trigger] ch[i]).0@ != c,
        is_prefix(base.push(c), k),
    ensures
        !children_files(ch, base).contains_key(k),
{
    lemma_children_files_prefix(ch, base);
    crate::path::lemma_prefix_step(base, c, k);
    if children_files(ch, base).contains_key(k) {
        let i = choose|i: int|
            0 <= i < ch.len() && k[base.len() as int] == (#[trigger] ch[i]).0@ && is_prefix(
                base.push(ch[i].0@),
                k,
            );
    }
}

/// A key present in the `i`-th child's map is present in the whole children
/// map, with the same value.
pub proof fn lemma_children_files_at(
    ch: Seq<(PathComponentBuf, Link)>,
    base: Seq<Seq<u8>>,
    i: int,
    k: Seq<Seq<u8>>,
)
    requires
        forall|a: int, b: int|
            0 <= a < b < ch.len() ==> (#[trigger] ch[a]).0@ != (#[trigger] ch[b]).0@,
        0 <= i < ch.len(),
        link_files(ch[i].1, base.push(ch[i].0@)).contains_key(k),
    ensures
        children_files(ch, base).contains_key(k),
        children_files(ch, base)[k] == link_files(ch[i].1, base.push(ch[i].0@))[k],
    decreases ch,
{
    let head = ch[0];
    let hb = base.push(head.0@);
    if i == 0 {
        lemma_link_files_prefix(head.1, hb);
        assert forall|j: int| 0 <= j < ch.drop_first().len() implies (#[trigger] ch.drop_first()[j]).0@
            != head.0@ by {
            assert(ch.drop_first()[j] == ch[j + 1]);
        }
        lemma_sibling_keys_disjoint(ch.drop_first(), base, head.0@, k);
    } else {
        assert(forall|a: int, b: int|
            0 <= a < b < ch.drop_first().len() ==> (#[trigger] ch.drop_first()[a]).0@ != (
            #[trigger] ch.drop_first()[b]).0@) by {
            assert(forall|a: int|
                0 <= a < ch.drop_first().len() ==> #[trigger] ch.drop_first()[a] == ch[a + 1]);
        }
        assert(ch.drop_first()[i - 1] == ch[i]);
        lemma_children_files_at(ch.drop_first(), base, i - 1, k);
    }
}

/// Every key of a children map comes from some child's map, with its value.
pub proof fn lemma_children_files_member(
    ch: Seq<(PathComponentBuf, Link)>,
    base: Seq<Seq<u8>>,
    k: Seq<Seq<u8>>,
)
    requires
        children_files(ch, base).contains_key(k),
    ensures
        exists|i: int|
            0 <= i < ch.len() && link_files((#[trigger] ch[i]).1, base.push(ch[i].0@)).contains_key(
                k,
            ),
    decreases ch,
{
    let head = ch[0];
    if children_files(ch.drop_first(), base).contains_key(k) {
        lemma_children_files_member(ch.drop_first(), base, k);
        let j = choose|j: int|
            0 <= j < ch.drop_first().len() && link_files(
                (#[trigger] ch.drop_first()[j]).1,
                base.push(ch.drop_first()[j].0@),
            ).contains_key(k);
        assert(ch.drop_first()[j] == ch[j + 1]);
        assert(link_files((ch[j + 1]).1, base.push(ch[j + 1].0@)).contains_key(k));
    } else {
        assert(link_files((ch[0]).1, base.push(ch[0].0@)).contains_key(k));
    }
}

/// A well-formed, materialized directory that is not empty holds at least
/// one file.
pub proof fn lemma_link_files_nonempty(l: Link, base: Seq<Seq<u8>>)
    requires
        link_wf(l),
        materialized(l),
        !child_is_empty_dir(l),
    ensures
        exists|k: Seq<Seq<u8>>| #[trigger] link_files(l, base).contains_key(k),
    decreases l,
{
    match l {
        Link::Leaf(_) => {
            assert(link_files(l, base).contains_key(base));
        }
        Link::Ephemeral(ch) => {
            lemma_children_first_nonempty(ch@, base);
            let k = choose|k: Seq<Seq<u8>>| #[trigger] children_files(ch@, base).contains_key(k);
            assert(link_files(l, base).contains_key(k));
        }
        Link::Durable(_, Some(ch)) => {
            lemma_children_first_nonempty(ch@, base);
            let k = choose|k: Seq<Seq<u8>>| #[trigger] children_files(ch@, base).contains_key(k);
            assert(link_files(l, base).contains_key(k));
        }
        Link::Durable(_, None) => {}
    }
}

proof fn lemma_children_first_nonempty(ch: Seq<(PathComponentBuf, Link)>, base: Seq<Seq<u8>>)
    requires
        children_wf(ch),
        children_materialized(ch),
        ch.len() > 0,
    ensures
        exists|k: Seq<Seq<u8>>| #[trigger] children_files(ch, base).contains_key(k),
    decreases ch,
{
    let head = ch[0];
    let hb = base.push(head.0@);
    assert(link_wf(head.1) && !child_is_empty_dir(head.1));
    lemma_link_files_nonempty(head.1, hb);
    let k = choose|k: Seq<Seq<u8>>| #[trigger] link_files(head.1, hb).contains_key(k);
    assert(children_files(ch, base).contains_key(k));
}

/// No file path in a well-formed subtree is a strict prefix of another.
pub proof fn lemma_no_nested_files(l: Link, base: Seq<Seq<u8>>)
    requires
        link_wf(l),
    ensures
        forall|k1: Seq<Seq<u8>>, k2: Seq<Seq<u8>>|
            link_files(l, base).contains_key(k1) && link_files(l, base).contains_key(k2)
                ==> !strict_prefix(k1, k2),
    decreases l, 2int,
{
    match l {
        Link::Leaf(_) => {
            lemma_link_files_prefix(l, base);
            assert forall|k1: Seq<Seq<u8>>, k2: Seq<Seq<u8>>|
                link_files(l, base).contains_key(k1) && link_files(l, base).contains_key(k2)
                    implies !strict_prefix(k1, k2) by {
                assert(k1 == base && k2 == base);
            }
        }
        Link::Ephemeral(ch) => {
            lemma_no_nested_children(ch@, base);
            assert forall|k1: Seq<Seq<u8>>, k2: Seq<Seq<u8>>|
                link_files(l, base).contains_key(k1) && link_files(l, base).contains_key(k2)
                    implies !strict_prefix(k1, k2) by {
                assert(children_files(ch@, base).contains_key(k1));
                assert(children_files(ch@, base).contains_key(k2));
            }
        }
        Link::Durable(_, Some(ch)) => {
            lemma_no_nested_children(ch@, base);
            assert forall|k1: Seq<Seq<u8>>, k2: Seq<Seq<u8>>|
                link_files(l, base).contains_key(k1) && link_files(l, base).contains_key(k2)
                    implies !strict_prefix(k1, k2) by {
                assert(children_files(ch@, base).contains_key(k1));
                assert(children_files(ch@, base).contains_key(k2));
            }
        }
        Link::Durable(_, None) => {}
    }
}

proof fn lemma_no_nested_children(ch: Seq<(PathComponentBuf, Link)>, base: Seq<Seq<u8>>)
    requires
        children_wf(ch),
    ensures
        forall|k1: Seq<Seq<u8>>, k2: Seq<Seq<u8>>|
            children_files(ch, base).contains_key(k1) && children_files(ch, base).contains_key(k2)
                ==> !strict_prefix(k1, k2),
    decreases ch, 1int,
{
    lemma_children_files_prefix(ch, base);
    assert forall|k1: Seq<Seq<u8>>, k2: Seq<Seq<u8>>|
        children_files(ch, base).contains_key(k1) && children_files(ch, base).contains_key(k2)
            && strict_prefix(k1, k2) implies false by {
        let i1 = choose|i: int|
            0 <= i < ch.len() && k1[base.len() as int] == (#[trigger] ch[i]).0@ && is_prefix(
                base.push(ch[i].0@),
                k1,
            );
        let i2 = choose|i: int|
            0 <= i < ch.len() && k2[base.len() as int] == (#[trigger] ch[i]).0@ && is_prefix(
                base.push(ch[i].0@),
                k2,
            );
        // the branching component agrees, so both keys come from one child
        assert(k2.take(k1.len() as int) == k1);
        assert(k1.len() > base.len());
        assert(k2.take(k1.len() as int)[base.len() as int] == k2[base.len() as int]);
        assert(k1[base.len() as int] == k2[base.len() as int]);
        if i1 != i2 {
            assert(ch[i1].0@ != ch[i2].0@) by {
                if i1 < i2 {
                    crate::path::lemma_bytes_lt_trichotomy(ch[i1].0@, ch[i2].0@);
                } else {
                    crate::path::lemma_bytes_lt_trichotomy(ch[i2].0@, ch[i1].0@);
                }
            }
        }
        // both keys sit inside child i1's subtree
        lemma_inside_one_child(ch, base, i1, k1, k2);
    }
}

/// Helper: two nested keys that both carry child `i`'s name sit in that
/// child's subtree, contradicting the child's own no-nesting property.
proof fn lemma_inside_one_child(
    ch: Seq<(PathComponentBuf, Link)>,
    base: Seq<Seq<u8>>,
    i: int,
    k1: Seq<Seq<u8>>,
    k2: Seq<Seq<u8>>,
)
    requires
        children_wf(ch),
        0 <= i < ch.len(),
        children_files(ch, base).contains_key(k1),
        children_files(ch, base).contains_key(k2),
        is_prefix(base.push(ch[i].0@), k1),
        is_prefix(base.push(ch[i].0@), k2),
    ensures
        !strict_prefix(k1, k2),
    decreases ch, 0int,
{
    let head = ch[0];
    let hb = base.push(head.0@);
    if i == 0 {
        assert forall|j: int| 0 <= j < ch.drop_first().len() implies (#[trigger] ch.drop_first()[j]).0@
            != head.0@ by {
            assert(ch.drop_first()[j] == ch[j + 1]);
            crate::path::lemma_bytes_lt_trichotomy(ch[0].0@, ch[j + 1].0@);
        }
        lemma_sibling_keys_disjoint(ch.drop_first(), base, head.0@, k1);
        lemma_sibling_keys_disjoint(ch.drop_first(), base, head.0@, k2);
        assert(link_files(head.1, hb).contains_key(k1));
        assert(link_files(head.1, hb).contains_key(k2));
        assert(link_wf(head.1));
        lemma_no_nested_files(head.1, hb);
        assert(!strict_prefix(k1, k2));
    } else {
        assert(ch.drop_first()[i - 1] == ch[i]);
        lemma_link_files_prefix(head.1, hb);
        if link_files(head.1, hb).contains_key(k1) && !children_files(
            ch.drop_first(),
            base,
        ).contains_key(k1) {
            crate::path::lemma_prefix_step(base, head.0@, k1);
            crate::path::lemma_prefix_step(base, ch[i].0@, k1);
            crate::path::lemma_bytes_lt_trichotomy(ch[0].0@, ch[i].0@);
        }
        if link_files(head.1, hb).contains_key(k2) && !children_files(
            ch.drop_first(),
            base,
        ).contains_key(k2) {
            crate::path::lemma_prefix_step(base, head.0@, k2);
            crate::path::lemma_prefix_step(base, ch[i].0@, k2);
            crate::path::lemma_bytes_lt_trichotomy(ch[0].0@, ch[i].0@);
        }
        assert(children_files(ch.drop_first(), base).contains_key(k1));
        assert(children_files(ch.drop_first(), base).contains_key(k2));
        lemma_inside_one_child(ch.drop_first(), base, i - 1, k1, k2);
    }
}

/// Files at or under `p` inside the map: `p` names a directory.
pub open spec fn map_has_dir(m: Map<Seq<Seq<u8>>, FileMetadata>, p: Seq<Seq<u8>>) -> bool {
    exists|k: Seq<Seq<u8>>| #[trigger] m.contains_key(k) && strict_prefix(p, k)
}

/// Some strict prefix of `p` is itself a file in the map.
pub open spec fn map_has_file_prefix(m: Map<Seq<Seq<u8>>, FileMetadata>, p: Seq<Seq<u8>>) -> bool {
    exists|k: Seq<Seq<u8>>| #[trigger] m.contains_key(k) && strict_prefix(k, p)
}

/// For a path inside child `j`'s name space, membership in the children map
/// is membership in that child's map.
pub proof fn lemma_child_slice(
    ch: Seq<(PathComponentBuf, Link)>,
    base: Seq<Seq<u8>>,
    j: int,
    p: Seq<Seq<u8>>,
)
    requires
        forall|a: int, b: int|
            0 <= a < b < ch.len() ==> (#[trigger] ch[a]).0@ != (#[trigger] ch[b]).0@,
        0 <= j < ch.len(),
        is_prefix(base.push(ch[j].0@), p),
    ensures
        children_files(ch, base).contains_key(p) == link_files(
            ch[j].1,
            base.push(ch[j].0@),
        ).contains_key(p),
        children_files(ch, base).contains_key(p) ==> children_files(ch, base)[p] == link_files(
            ch[j].1,
            base.push(ch[j].0@),
        )[p],
{
    if link_files(ch[j].1, base.push(ch[j].0@)).contains_key(p) {
        lemma_children_files_at(ch, base, j, p);
    } else {
        if children_files(ch, base).contains_key(p) {
            lemma_children_files_member(ch, base, p);
            let i = choose|i: int|
                0 <= i < ch.len() && link_files(
                    (#[trigger] ch[i]).1,
                    base.push(ch[i].0@),
                ).contains_key(p);
            lemma_link_files_prefix(ch[i].1, base.push(ch[i].0@));
            crate::path::lemma_prefix_step(base, ch[i].0@, p);
            crate::path::lemma_prefix_step(base, ch[j].0@, p);
            assert(ch[i].0@ == ch[j].0@);
            assert(i == j);
        }
    }
}

/// Replacing child `idx` with one whose map gained `k` adds exactly `k` to
/// the children map.
pub proof fn lemma_cf_update_insert(
    ch: Seq<(PathComponentBuf, Link)>,
    idx: int,
    nl: (PathComponentBuf, Link),
    base: Seq<Seq<u8>>,
    k: Seq<Seq<u8>>,
    m: FileMetadata,
)
    requires
        forall|a: int, b: int|
            0 <= a < b < ch.len() ==> (#[trigger] ch[a]).0@ != (#[trigger] ch[b]).0@,
        0 <= idx < ch.len(),
        nl.0@ == ch[idx].0@,
        link_files(nl.1, base.push(ch[idx].0@)) == link_files(
            ch[idx].1,
            base.push(ch[idx].0@),
        ).insert(k, m),
        is_prefix(base.push(ch[idx].0@), k),
    ensures
        children_files(ch.update(idx, nl), base) == children_files(ch, base).insert(k, m),
    decreases ch,
{
    let ch2 = ch.update(idx, nl);
    if idx == 0 {
        assert(ch2.drop_first() =~= ch.drop_first());
        assert(ch2[0] == nl);
        assert forall|j: int| 0 <= j < ch.drop_first().len() implies (#[trigger] ch.drop_first()[j]).0@
            != ch[0].0@ by {
            assert(ch.drop_first()[j] == ch[j + 1]);
        }
        lemma_sibling_keys_disjoint(ch.drop_first(), base, ch[0].0@, k);
        assert(children_files(ch2, base) =~= children_files(ch, base).insert(k, m));
    } else {
        assert(ch2[0] == ch[0]);
        assert(ch2.drop_first() =~= ch.drop_first().update(idx - 1, nl));
        assert(forall|a: int, b: int|
            0 <= a < b < ch.drop_first().len() ==> (#[trigger] ch.drop_first()[a]).0@ != (
            #[trigger] ch.drop_first()[b]).0@) by {
            assert(forall|a: int|
                0 <= a < ch.drop_first().len() ==> #[trigger] ch.drop_first()[a] == ch[a + 1]);
        }
        assert(ch.drop_first()[idx - 1] == ch[idx]);
        lemma_cf_update_insert(ch.drop_first(), idx - 1, nl, base, k, m);
        assert(children_files(ch2, base) =~= children_files(ch, base).insert(k, m));
    }
}

/// Replacing child `idx` with one of identical file map leaves the children
/// map unchanged.
pub proof fn lemma_cf_update_eq(
    ch: Seq<(PathComponentBuf, Link)>,
    idx: int,
    nl: (PathComponentBuf, Link),
    base: Seq<Seq<u8>>,
)
    requires
        0 <= idx < ch.len(),
        nl.0@ == ch[idx].0@,
        link_files(nl.1, base.push(ch[idx].0@)) == link_files(ch[idx].1, base.push(ch[idx].0@)),
    ensures
        children_files(ch.update(idx, nl), base) == children_files(ch, base),
    decreases ch,
{
    let ch2 = ch.update(idx, nl);
    if idx == 0 {
        assert(ch2.drop_first() =~= ch.drop_first());
        assert(ch2[0] == nl);
        assert(children_files(ch2, base) =~= children_files(ch, base));
    } else {
        assert(ch2[0] == ch[0]);
        assert(ch2.drop_first() =~= ch.drop_first().update(idx - 1, nl));
        assert(ch.drop_first()[idx - 1] == ch[idx]);
        lemma_cf_update_eq(ch.drop_first(), idx - 1, nl, base);
        assert(children_files(ch2, base) =~= children_files(ch, base));
    }
}

/// Inserting a fresh child whose map is the single binding `k -> m` adds
/// exactly that binding.
pub proof fn lemma_cf_insert_elem(
    ch: Seq<(PathComponentBuf, Link)>,
    idx: int,
    nl: (PathComponentBuf, Link),
    base: Seq<Seq<u8>>,
    k: Seq<Seq<u8>>,
    m: FileMetadata,
)
    requires
        forall|i: int| 0 <= i < ch.len() ==> (#[trigger] ch[i]).0@ != nl.0@,
        0 <= idx <= ch.len(),
        link_files(nl.1, base.push(nl.0@)) == Map::<Seq<Seq<u8>>, FileMetadata>::empty().insert(
            k,
            m,
        ),
        is_prefix(base.push(nl.0@), k),
    ensures
        children_files(ch.insert(idx, nl), base) == children_files(ch, base).insert(k, m),
    decreases ch,
{
    let ch2 = ch.insert(idx, nl);
    if idx == 0 {
        assert(ch2.drop_first() =~= ch);
        assert(ch2[0] == nl);
        lemma_sibling_keys_disjoint(ch, base, nl.0@, k);
        assert(children_files(ch2, base) =~= children_files(ch, base).insert(k, m));
    } else {
        assert(ch2[0] == ch[0]);
        assert(ch2.drop_first() =~= ch.drop_first().insert(idx - 1, nl));
        assert(forall|a: int|
            0 <= a < ch.drop_first().len() ==> #[trigger] ch.drop_first()[a] == ch[a + 1]);
        lemma_cf_insert_elem(ch.drop_first(), idx - 1, nl, base, k, m);
        // the head child cannot hold k: its keys carry the head name
        lemma_link_files_prefix(ch[0].1, base.push(ch[0].0@));
        if link_files(ch[0].1, base.push(ch[0].0@)).contains_key(k) {
            crate::path::lemma_prefix_step(base, ch[0].0@, k);
            crate::path::lemma_prefix_step(base, nl.0@, k);
        }
        assert(children_files(ch2, base) =~= children_files(ch, base).insert(k, m));
    }
}

/// Dropping child `idx`, whose map held at most the single key `k`, removes
/// exactly `k` from the children map.
pub proof fn lemma_cf_remove_elem(
    ch: Seq<(PathComponentBuf, Link)>,
    idx: int,
    base: Seq<Seq<u8>>,
    k: Seq<Seq<u8>>,
)
    requires
        forall|a: int, b: int|
            0 <= a < b < ch.len() ==> (#[trigger] ch[a]).0@ != (#[trigger] ch[b]).0@,
        0 <= idx < ch.len(),
        forall|x: Seq<Seq<u8>>|
            link_files(ch[idx].1, base.push(ch[idx].0@)).contains_key(x) ==> x == k,
        is_prefix(base.push(ch[idx].0@), k),
    ensures
        children_files(ch.remove(idx), base) == children_files(ch, base).remove(k),
    decreases ch,
{
    let ch2 = ch.remove(idx);
    if idx == 0 {
        assert(ch2 =~= ch.drop_first());
        assert forall|j: int| 0 <= j < ch.drop_first().len() implies (#[trigger] ch.drop_first()[j]).0@
            != ch[0].0@ by {
            assert(ch.drop_first()[j] == ch[j + 1]);
        }
        lemma_sibling_keys_disjoint(ch.drop_first(), base, ch[0].0@, k);
        let head = link_files(ch[0].1, base.push(ch[0].0@));
        let rest = children_files(ch.drop_first(), base);
        assert forall|x: Seq<Seq<u8>>| #[trigger] head.contains_key(x) implies x == k by {}
        assert(children_files(ch2, base) == rest);
        assert(children_files(ch, base) == head.union_prefer_right(rest));
        assert(!rest.contains_key(k));
        assert(rest =~= head.union_prefer_right(rest).remove(k));
    } else {
        assert(ch2[0] == ch[0]);
        assert(ch2.drop_first() =~= ch.drop_first().remove(idx - 1));
        assert(forall|a: int, b: int|
            0 <= a < b < ch.drop_first().len() ==> (#[trigger] ch.drop_first()[a]).0@ != (
            #[trigger] ch.drop_first()[b]).0@) by {
            assert(forall|a: int|
                0 <= a < ch.drop_first().len() ==> #[trigger] ch.drop_first()[a] == ch[a + 1]);
        }
        assert(ch.drop_first()[idx - 1] == ch[idx]);
        lemma_cf_remove_elem(ch.drop_first(), idx - 1, base, k);
        lemma_link_files_prefix(ch[0].1, base.push(ch[0].0@));
        if link_files(ch[0].1, base.push(ch[0].0@)).contains_key(k) {
            crate::path::lemma_prefix_step(base, ch[0].0@, k);
            crate::path::lemma_prefix_step(base, ch[idx].0@, k);
        }
        assert(children_files(ch2, base) =~= children_files(ch, base).remove(k));
    }
}

/// Replacing child `idx` with one whose map lost `k` removes exactly `k`
/// from the children map.
pub proof fn lemma_cf_update_remove(
    ch: Seq<(PathComponentBuf, Link)>,
    idx: int,
    nl: (PathComponentBuf, Link),
    base: Seq<Seq<u8>>,
    k: Seq<Seq<u8>>,
)
    requires
        forall|a: int, b: int|
            0 <= a < b < ch.len() ==> (#[trigger] ch[a]).0@ != (#[trigger] ch[b]).0@,
        0 <= idx < ch.len(),
        nl.0@ == ch[idx].0@,
        link_files(nl.1, base.push(ch[idx].0@)) == link_files(
            ch[idx].1,
            base.push(ch[idx].0@),
        ).remove(k),
        is_prefix(base.push(ch[idx].0@), k),
    ensures
        children_files(ch.update(idx, nl), base) == children_files(ch, base).remove(k),
    decreases ch,
{
    let ch2 = ch.update(idx, nl);
    if idx == 0 {
        assert(ch2.drop_first() =~= ch.drop_first());
        assert(ch2[0] == nl);
        assert forall|j: int| 0 <= j < ch.drop_first().len() implies (#[trigger] ch.drop_first()[j]).0@
            != ch[0].0@ by {
            assert(ch.drop_first()[j] == ch[j + 1]);
        }
        lemma_sibling_keys_disjoint(ch.drop_first(), base, ch[0].0@, k);
        assert(children_files(ch2, base) =~= children_files(ch, base).remove(k));
    } else {
        assert(ch2[0] == ch[0]);
        assert(ch2.drop_first() =~= ch.drop_first().update(idx - 1, nl));
        assert(forall|a: int, b: int|
            0 <= a < b < ch.drop_first().len() ==> (#[trigger] ch.drop_first()[a]).0@ != (
            #[trigger] ch.drop_first()[b]).0@) by {
            assert(forall|a: int|
                0 <= a < ch.drop_first().len() ==> #[trigger] ch.drop_first()[a] == ch[a + 1]);
        }
        assert(ch.drop_first()[idx - 1] == ch[idx]);
        lemma_cf_update_remove(ch.drop_first(), idx - 1, nl, base, k);
        lemma_link_files_prefix(ch[0].1, base.push(ch[0].0@));
        if link_files(ch[0].1, base.push(ch[0].0@)).contains_key(k) {
            crate::path::lemma_prefix_step(base, ch[0].0@, k);
            crate::path::lemma_prefix_step(base, ch[idx].0@, k);
        }
        assert(children_files(ch2, base) =~= children_files(ch, base).remove(k));
    }
}

/// The entry sequence of a child list, element by element.
pub proof fn lemma_entries_of_index(s: Seq<(PathComponentBuf, Link)>)
    ensures
        entries_of(s).len() == s.len(),
        forall|i: int|
            0 <= i < s.len() ==> entries_of(s)[i] == ((#[trigger] s[i]).0@, link_node(s[i].1),
            flag_of(s[i].1)),
    decreases s,
{
    if s.len() > 0 {
        lemma_entries_of_index(s.drop_first());
        assert forall|i: int| 0 <= i < s.len() implies entries_of(s)[i] == ((#[trigger] s[i]).0@,
        link_node(s[i].1), flag_of(s[i].1)) by {
            if i > 0 {
                assert(s.drop_first()[i - 1] == s[i]);
                assert(entries_of(s)[i] == entries_of(s.drop_first())[i - 1]);
            }
        }
    }
}

/// Children with identical names and identical file maps give identical
/// children maps.
pub proof fn lemma_children_files_congruence(
    s1: Seq<(PathComponentBuf, Link)>,
    s2: Seq<(PathComponentBuf, Link)>,
    base: Seq<Seq<u8>>,
)
    requires
        s1.len() == s2.len(),
        forall|i: int|
            0 <= i < s1.len() ==> (#[trigger] s1[i]).0@ == (#[trigger] s2[i]).0@ && link_files(
                s1[i].1,
                base.push(s2[i].0@),
            ) == link_files(s2[i].1, base.push(s2[i].0@)),
    ensures
        children_files(s1, base) == children_files(s2, base),
    decreases s1,
{
    if s1.len() > 0 {
        assert(forall|i: int|
            0 <= i < s1.drop_first().len() ==> #[trigger] s1.drop_first()[i] == s1[i + 1]);
        assert(forall|i: int|
            0 <= i < s2.drop_first().len() ==> #[trigger] s2.drop_first()[i] == s2[i + 1]);
        lemma_children_files_congruence(s1.drop_first(), s2.drop_first(), base);
        assert(children_files(s1, base) =~= children_files(s2, base));
    }
}

/// Two strictly ordered name lists with the same members are identical.
proof fn lemma_sorted_names_equal(x: Seq<Seq<u8>>, y: Seq<Seq<u8>>)
    requires
        forall|a: int, b: int| 0 <= a < b < x.len() ==> bytes_lt(#[trigger] x[a], #[trigger] x[b]),
        forall|a: int, b: int| 0 <= a < b < y.len() ==> bytes_lt(#[trigger] y[a], #[trigger] y[b]),
        forall|n: Seq<u8>| x.contains(n) == y.contains(n),
    ensures
        x == y,
    decreases x.len(),
{
    if x.len() == 0 {
        if y.len() > 0 {
            assert(y.contains(y[0]));
            assert(x.contains(y[0]));
        }
        assert(x =~= y);
    } else {
        assert(x.contains(x[0]));
        assert(y.contains(x[0]));
        assert(y.len() > 0);
        assert(y.contains(y[0]));
        assert(x.contains(y[0]));
        let a1 = choose|a: int| 0 <= a < y.len() && y[a] == x[0];
        let a2 = choose|a: int| 0 <= a < x.len() && x[a] == y[0];
        assert(x[0] == y[0]) by {
            crate::path::lemma_bytes_lt_trichotomy(x[0], y[0]);
            if bytes_lt(x[0], y[0]) {
                if a1 > 0 {
                    assert(bytes_lt(y[0], y[a1]));
                    crate::path::lemma_bytes_lt_trichotomy(y[0], y[a1]);
                }
            }
            if bytes_lt(y[0], x[0]) {
                if a2 > 0 {
                    assert(bytes_lt(x[0], x[a2]));
                    crate::path::lemma_bytes_lt_trichotomy(x[0], x[a2]);
                }
            }
        }
        let tx = x.drop_first();
        let ty = y.drop_first();
        assert(forall|a: int| 0 <= a < tx.len() ==> #[trigger] tx[a] == x[a + 1]);
        assert(forall|a: int| 0 <= a < ty.len() ==> #[trigger] ty[a] == y[a + 1]);
        assert forall|n: Seq<u8>| tx.contains(n) == ty.contains(n) by {
            if tx.contains(n) {
                let a = choose|a: int| 0 <= a < tx.len() && tx[a] == n;
                assert(x[a + 1] == n);
                assert(x.contains(n));
                assert(y.contains(n));
                let b = choose|b: int| 0 <= b < y.len() && y[b] == n;
                if b == 0 {
                    assert(bytes_lt(x[0], x[a + 1]));
                    crate::path::lemma_bytes_lt_trichotomy(x[0], n);
                }
                assert(ty[b - 1] == n);
                assert(ty.contains(n));
            }
            if ty.contains(n) {
                let a = choose|a: int| 0 <= a < ty.len() && ty[a] == n;
                assert(y[a + 1] == n);
                assert(y.contains(n));
                assert(x.contains(n));
                let b = choose|b: int| 0 <= b < x.len() && x[b] == n;
                if b == 0 {
                    assert(bytes_lt(y[0], y[a + 1]));
                    crate::path::lemma_bytes_lt_trichotomy(y[0], n);
                }
                assert(tx[b - 1] == n);
                assert(tx.contains(n));
            }
        }
        lemma_sorted_names_equal(tx, ty);
        assert forall|k: int| 0 <= k < x.len() implies x[k] == y[k] by {
            if k > 0 {
                assert(tx[k - 1] == ty[k - 1]);
            }
        }
        assert(x =~= y);
    }
}

/// The children of a link known to be a loaded directory.
pub open spec fn dir_children_of(l: Link) -> Seq<(PathComponentBuf, Link)> {
    if l is Ephemeral {
        l->Ephemeral_0@
    } else {
        l->Durable_1->Some_0@
    }
}

/// A loaded directory's node id is a function of its file map alone: two
/// loaded, well-formed directories holding the same files have the same id.
/// With `flush` returning the root's node id, flushing is deterministic.
pub proof fn lemma_node_determined_by_files(a: Link, b: Link, base: Seq<Seq<u8>>)
    requires
        link_wf(a),
        link_wf(b),
        loaded(a),
        loaded(b),
        !(a is Leaf),
        !(b is Leaf),
        link_files(a, base) == link_files(b, base),
    ensures
        link_node(a) == link_node(b),
    decreases a,
{
    let cha = dir_children_of(a);
    let chb = dir_children_of(b);
    let cf = link_files(a, base);
    assert(children_wf(cha) && children_wf(chb));
    assert(children_materialized(cha) && children_honest(cha));
    assert(children_materialized(chb) && children_honest(chb));
    assert(link_files(a, base) == children_files(cha, base));
    assert(link_files(b, base) == children_files(chb, base));
    lemma_children_files_prefix(cha, base);
    lemma_children_files_prefix(chb, base);
    assert forall|i: int, j: int| 0 <= i < j < cha.len() implies (#[trigger] cha[i]).0@ != (
    #[trigger] cha[j]).0@ by {
        crate::path::lemma_bytes_lt_trichotomy(cha[i].0@, cha[j].0@);
    }
    assert forall|i: int, j: int| 0 <= i < j < chb.len() implies (#[trigger] chb[i]).0@ != (
    #[trigger] chb[j]).0@ by {
        crate::path::lemma_bytes_lt_trichotomy(chb[i].0@, chb[j].0@);
    }
    let na = Seq::new(cha.len(), |i: int| cha[i].0@);
    let nb = Seq::new(chb.len(), |i: int| chb[i].0@);
    // a name occurs on one side exactly when some file path selects it
    assert forall|n: Seq<u8>| na.contains(n) == nb.contains(n) by {
        if na.contains(n) {
            let i = choose|i: int| 0 <= i < na.len() && na[i] == n;
            assert(cha[i].0@ == n);
            lemma_link_files_nonempty(cha[i].1, base.push(n));
            lemma_link_files_prefix(cha[i].1, base.push(n));
            let w = choose|w: Seq<Seq<u8>>| #[trigger]
                link_files(cha[i].1, base.push(n)).contains_key(w);
            lemma_children_files_at(cha, base, i, w);
            assert(children_files(chb, base).contains_key(w));
            let j = choose|j: int|
                0 <= j < chb.len() && w[base.len() as int] == (#[trigger] chb[j]).0@ && is_prefix(
                    base.push(chb[j].0@),
                    w,
                );
            crate::path::lemma_prefix_step(base, cha[i].0@, w);
            assert(nb[j] == n);
            assert(nb.contains(n));
        }
        if nb.contains(n) {
            let i = choose|i: int| 0 <= i < nb.len() && nb[i] == n;
            assert(chb[i].0@ == n);
            lemma_link_files_nonempty(chb[i].1, base.push(n));
            lemma_link_files_prefix(chb[i].1, base.push(n));
            let w = choose|w: Seq<Seq<u8>>| #[trigger]
                link_files(chb[i].1, base.push(n)).contains_key(w);
            lemma_children_files_at(chb, base, i, w);
            assert(children_files(cha, base).contains_key(w));
            let j = choose|j: int|
                0 <= j < cha.len() && w[base.len() as int] == (#[trigger] cha[j]).0@ && is_prefix(
                    base.push(cha[j].0@),
                    w,
                );
            crate::path::lemma_prefix_step(base, chb[i].0@, w);
            assert(na[j] == n);
            assert(na.contains(n));
        }
    }
    lemma_sorted_names_equal(na, nb);
    assert(cha.len() == chb.len());
    // children pair up by name with identical file maps
    assert forall|i: int| 0 <= i < cha.len() implies link_node((#[trigger] cha[i]).1) == link_node(
        chb[i].1,
    ) && flag_of(cha[i].1) == flag_of(chb[i].1) by {
        let n = cha[i].0@;
        assert(chb[i].0@ == n) by {
            assert(na[i] == nb[i]);
        }
        let bp = base.push(n);
        let am = link_files(cha[i].1, bp);
        let bm = link_files(chb[i].1, bp);
        lemma_link_files_prefix(cha[i].1, bp);
        lemma_link_files_prefix(chb[i].1, bp);
        assert(am =~= bm) by {
            assert forall|p: Seq<Seq<u8>>| #[trigger] am.contains_key(p) implies bm.contains_key(
                p,
            ) && am[p] == bm[p] by {
                assert(is_prefix(bp, p));
                lemma_child_slice(cha, base, i, p);
                lemma_child_slice(chb, base, i, p);
            }
            assert forall|p: Seq<Seq<u8>>| #[trigger] bm.contains_key(p) implies am.contains_key(
                p,
            ) by {
                assert(is_prefix(bp, p));
                lemma_child_slice(cha, base, i, p);
                lemma_child_slice(chb, base, i, p);
            }
        }
        if cha[i].1 is Leaf {
            assert(am.contains_key(bp));
            assert(chb[i].1 is Leaf) by {
                if !(chb[i].1 is Leaf) {
                    assert(bm.contains_key(bp));
                    assert(strict_prefix(bp, bp));
                }
            }
            assert(am[bp] == cha[i].1->Leaf_0 && bm[bp] == chb[i].1->Leaf_0);
        } else {
            assert(!(chb[i].1 is Leaf)) by {
                if chb[i].1 is Leaf {
                    assert(bm.contains_key(bp));
                    assert(am.contains_key(bp));
                    assert(strict_prefix(bp, bp));
                }
            }
            assert(decreases_to!(a => cha[i].1)) by {
                if a is Ephemeral {
                    assert(decreases_to!(a => a->Ephemeral_0));
                    assert(decreases_to!(a->Ephemeral_0 => a->Ephemeral_0@));
                    assert(decreases_to!(a->Ephemeral_0@ => a->Ephemeral_0@[i]));
                    assert(decreases_to!(a->Ephemeral_0@[i] => a->Ephemeral_0@[i].1));
                } else {
                    assert(decreases_to!(a => a->Durable_1));
                    assert(decreases_to!(a->Durable_1 => a->Durable_1->Some_0));
                    assert(decreases_to!(a->Durable_1->Some_0 => a->Durable_1->Some_0@));
                    assert(decreases_to!(a->Durable_1->Some_0@ => a->Durable_1->Some_0@[i]));
                    assert(decreases_to!(a->Durable_1->Some_0@[i] => a->Durable_1->Some_0@[i].1));
                }
            }
            lemma_node_determined_by_files(cha[i].1, chb[i].1, bp);
        }
    }
    lemma_entries_of_index(cha);
    lemma_entries_of_index(chb);
    assert forall|i: int| 0 <= i < cha.len() implies entries_of(cha)[i] == entries_of(
        chb,
    )[i] by {
        assert(na[i] == nb[i]);
    }
    assert(entries_of(cha) =~= entries_of(chb));
}

} // verus!
