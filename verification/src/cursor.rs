//! A depth-first pre-order walker over one tree, materializing durable
//! directories from the store on demand, with subtree skipping.

use vstd::prelude::*;
use crate::error::Error;
use crate::link::{link_wf, Link};
use crate::path::{
    bytes_lt, is_prefix, lemma_lt_by_component, lemma_path_lt_common, lemma_path_lt_divergence,
    lemma_strict_prefix_lt, path_lt, strict_prefix, PathComponentBuf, RepoPathBuf,
};
use crate::store::Store;
use crate::tree::{clone_link, entry_to_children};

verus! {

/// The outcome of advancing a cursor.
pub enum Step {
    /// The cursor now stands on a node; `path` and `link` describe it.
    Success,
    /// The traversal is over.
    End,
    /// The store could not materialize a durable directory.
    Failed(Error),
}

/// A stateful pre-order traversal: the current node, the nodes still to
/// visit (next on top), a skip request, and whether the walk has ended.
pub struct Cursor {
    current: Option<(RepoPathBuf, Link)>,
    stack: Vec<(RepoPathBuf, Link)>,
    skip: bool,
    done: bool,
}

/// One plain advance: the next pending node becomes current, or the walk
/// ends if nothing is pending.
pub open spec fn pop_step(pre: Cursor, post: Cursor, r: Step) -> bool {
    &&& pre.pending_seq().len() == 0 ==> r is End
    &&& pre.pending_seq().len() > 0 ==> r is Success && post.current_path()
        == pre.next_pending_path() && post.current_link() == pre.next_pending_link()
        && post.pending_seq() == pre.pending_seq().drop_last()
}

/// Descending into a directory whose child list is `ch`: the first child
/// becomes current and the rest queue up behind the old pending nodes.
pub open spec fn descend_step(
    pre: Cursor,
    post: Cursor,
    r: Step,
    ch: Seq<(PathComponentBuf, Link)>,
) -> bool {
    &&& ch.len() > 0 ==> r is Success && post.current_path() == pre.current_path().push(ch[0].0@)
        && post.current_link() == ch[0].1 && post.pending_seq().len() == pre.pending_seq().len()
        + ch.len() - 1
    &&& ch.len() == 0 ==> pop_step(pre, post, r)
}

impl Cursor {
    /// Visits come in strictly ascending path order: everything still on
    /// the stack sorts after the current node and after later stack slots,
    /// and no pending path extends the current one once it is expanded.
    pub closed spec fn wf(self) -> bool {
        &&& forall|a: int, b: int|
            0 <= a < b < self.stack@.len() ==> path_lt(
                (#[trigger] self.stack@[b]).0@,
                (#[trigger] self.stack@[a]).0@,
            ) && !is_prefix(self.stack@[b].0@, self.stack@[a].0@)
        &&& forall|a: int| 0 <= a < self.stack@.len() ==> link_wf((#[trigger] self.stack@[a]).1)
        &&& match self.current {
            Some(c) => link_wf(c.1) && forall|a: int|
                0 <= a < self.stack@.len() ==> path_lt(c.0@, (#[trigger] self.stack@[a]).0@)
                    && !is_prefix(c.0@, self.stack@[a].0@),
            None => true,
        }
        &&& self.done ==> self.stack@.len() == 0 && self.current is None
    }

    /// The walk has returned `End`.
    pub closed spec fn finished_spec(self) -> bool {
        self.done
    }

    /// A node is under the cursor.
    pub closed spec fn has_current(self) -> bool {
        self.current is Some
    }

    /// The path of the current node.
    pub closed spec fn current_path(self) -> Seq<Seq<u8>> {
        self.current->Some_0.0@
    }

    /// The link of the current node.
    pub closed spec fn current_link(self) -> Link {
        self.current->Some_0.1
    }

    /// The nodes still to visit, next one last.
    pub closed spec fn pending_seq(self) -> Seq<(RepoPathBuf, Link)> {
        self.stack@
    }

    /// The path of the node the next plain step would visit.
    pub closed spec fn next_pending_path(self) -> Seq<Seq<u8>> {
        self.stack@.last().0@
    }

    /// The link of the node the next plain step would visit.
    pub closed spec fn next_pending_link(self) -> Link {
        self.stack@.last().1
    }

    /// A skip was requested since the last step.
    pub closed spec fn skip_requested(self) -> bool {
        self.skip
    }

    pub(crate) fn new(root_path: RepoPathBuf, root: Link) -> (c: Cursor)
        requires
            link_wf(root),
        ensures
            c.wf(),
            !c.finished_spec(),
            !c.has_current(),
            !c.skip_requested(),
            c.pending_seq().len() == 1,
            c.next_pending_path() == root_path@,
            c.next_pending_link() == root,
    {
        let mut stack: Vec<(RepoPathBuf, Link)> = Vec::new();
        stack.push((root_path, root));
        Cursor { current: None, stack, skip: false, done: false }
    }

    /// True after the walk has ended.
    pub fn finished(&self) -> (b: bool)
        ensures
            b == self.finished_spec(),
    {
        self.done
    }

    /// The path of the current node; valid after a `Success`.
    pub fn path(&self) -> (p: &RepoPathBuf)
        requires
            self.has_current(),
        ensures
            p@ == self.current_path(),
    {
        match &self.current {
            Some(c) => &c.0,
            None => unreached(),
        }
    }

    /// The current link; valid after a `Success`.
    pub fn link(&self) -> (l: &Link)
        requires
            self.has_current(),
        ensures
            l == self.current_link(),
    {
        match &self.current {
            Some(c) => &c.1,
            None => unreached(),
        }
    }

    /// Asks the next `step` not to descend into the current node; nothing
    /// else changes.
    pub fn skip_subtree(&mut self)
        ensures
            old(self).wf() ==> final(self).wf(),
            final(self).skip_requested(),
            final(self).finished_spec() == old(self).finished_spec(),
            final(self).has_current() == old(self).has_current(),
            final(self).pending_seq() == old(self).pending_seq(),
            old(self).has_current() ==> final(self).current_path() == old(self).current_path()
                && final(self).current_link() == old(self).current_link(),
    {
        self.skip = true;
    }

    /// Advances to the next node in pre-order: expands the current
    /// directory (unless a skip was requested), then moves to the nearest
    /// pending node. Paths of successive nodes strictly ascend.
    #[verifier::loop_isolation(false)]
    #[verifier::rlimit(60)]
    pub fn step<S: Store>(&mut self, store: &S) -> (r: Step)
        requires
            old(self).wf(),
            store.inv(),
        ensures
            final(self).wf(),
            old(self).finished_spec() ==> r is End && *final(self) == *old(self),
            r is End ==> final(self).finished_spec() && final(self).pending_seq().len() == 0
                && !final(self).has_current(),
            // without a node under the cursor, a step visits the next pending
            // node (a pending skip discards it first)
            !old(self).finished_spec() && !old(self).has_current() && !old(self).skip_requested()
                ==> pop_step(*old(self), *final(self), r),
            // a requested skip never descends
            !old(self).finished_spec() && old(self).has_current() && old(self).skip_requested()
                ==> pop_step(*old(self), *final(self), r),
            // a leaf has nothing to descend into
            !old(self).finished_spec() && old(self).has_current() && !old(self).skip_requested()
                && old(self).current_link() is Leaf ==> pop_step(*old(self), *final(self), r),
            // a live directory is entered child by child
            !old(self).finished_spec() && old(self).has_current() && !old(self).skip_requested()
                && old(self).current_link() is Ephemeral ==> descend_step(
                *old(self),
                *final(self),
                r,
                old(self).current_link()->Ephemeral_0@,
            ),
            // so is a durable directory whose children are already cached
            !old(self).finished_spec() && old(self).has_current() && !old(self).skip_requested()
                && old(self).current_link() is Durable
                && old(self).current_link()->Durable_1 is Some ==> descend_step(
                *old(self),
                *final(self),
                r,
                old(self).current_link()->Durable_1->Some_0@,
            ),
            // a store failure leaves the walk where it stood
            r is Failed ==> final(self).pending_seq() == old(self).pending_seq()
                && final(self).has_current() == old(self).has_current()
                && !final(self).finished_spec(),
            match r {
                Step::Success => !final(self).finished_spec() && final(self).has_current() && (
                old(self).has_current() ==> path_lt(
                    old(self).current_path(),
                    final(self).current_path(),
                )),
                Step::End => final(self).finished_spec(),
                Step::Failed(_) => !final(self).finished_spec(),
            },
    {
        if self.done {
            return Step::End;
        }
        let ghost gcur = self.current;
        let ghost old_stack = self.stack@;
        if !self.skip {
            let mut cur: Option<(RepoPathBuf, Link)> = None;
            core::mem::swap(&mut cur, &mut self.current);
            match cur {
                None => {}
                Some((p, link)) => {
                    let ghost gp = p@;
                    let mut kids: Vec<(PathComponentBuf, Link)>;
                    match link {
                        Link::Leaf(_) => {
                            kids = Vec::new();
                            proof {
                                assert(kids@ =~= Seq::<(PathComponentBuf, Link)>::empty());
                            }
                        }
                        Link::Ephemeral(c) => {
                            kids = c;
                            proof {
                                assert(kids@ == gcur->Some_0.1->Ephemeral_0@);
                            }
                        }
                        Link::Durable(_, Some(c)) => {
                            kids = c;
                            proof {
                                assert(kids@ == gcur->Some_0.1->Durable_1->Some_0@);
                            }
                        }
                        Link::Durable(n, None) => {
                            match store.get(&p, &n) {
                                Ok(entry) => {
                                    kids = entry_to_children(&entry);
                                }
                                Err(e) => {
                                    self.current = Some((p, Link::Durable(n, None)));
                                    return Step::Failed(e);
                                }
                            }
                        }
                    }
                    let ghost gk = kids@;
                    proof {
                        assert(crate::link::children_wf(gk));
                        assert(gk.take(gk.len() as int) =~= gk);
                        assert forall|x: int, y: int| 0 <= x < y < gk.len() implies (
                        #[trigger] gk[x]).0@ != (#[trigger] gk[y]).0@ by {
                            crate::path::lemma_bytes_lt_trichotomy(gk[x].0@, gk[y].0@);
                        }
                    }
                    while kids.len() > 0
                        invariant
                            !self.done,
                            !self.skip,
                            self.current is None,
                            kids@.len() <= gk.len(),
                            kids@ == gk.take(kids@.len() as int),
                            self.stack@.len() == old_stack.len() + gk.len() - kids@.len(),
                            forall|a: int|
                                0 <= a < old_stack.len() ==> #[trigger] self.stack@[a]
                                    == old_stack[a],
                            forall|j: int|
                                old_stack.len() <= j < self.stack@.len() ==> (
                                #[trigger] self.stack@[j]).0@ == gp.push(
                                    gk[old_stack.len() + gk.len() - 1 - j].0@,
                                ) && self.stack@[j].1 == gk[old_stack.len() + gk.len() - 1
                                    - j].1,
                            forall|a: int, b: int|
                                0 <= a < b < self.stack@.len() ==> path_lt(
                                    (#[trigger] self.stack@[b]).0@,
                                    (#[trigger] self.stack@[a]).0@,
                                ) && !is_prefix(self.stack@[b].0@, self.stack@[a].0@),
                            forall|a: int|
                                0 <= a < self.stack@.len() ==> link_wf(
                                    (#[trigger] self.stack@[a]).1,
                                ),
                            forall|a: int|
                                0 <= a < self.stack@.len() ==> path_lt(
                                    gp,
                                    (#[trigger] self.stack@[a]).0@,
                                ),
                        decreases kids@.len(),
                    {
                        let popped = kids.pop();
                        let (nm, c) = match popped {
                            Some(x) => x,
                            None => unreached(),
                        };
                        let ghost ki = kids@.len() as int;
                        proof {
                            assert(gk.take(ki + 1).drop_last() =~= gk.take(ki));
                            assert((nm@, c) == (gk[ki].0@, gk[ki].1));
                        }
                        let mut cp = p.clone();
                        cp.push(nm);
                        proof {
                            assert(cp@ == gp.push(gk[ki].0@));
                            assert(is_prefix(gp, cp@)) by {
                                assert(cp@.take(gp.len() as int) =~= gp);
                            }
                            lemma_strict_prefix_lt(gp, cp@);
                            // the new top sorts before every waiting entry
                            assert forall|a: int| 0 <= a < self.stack@.len() implies path_lt(
                                cp@,
                                (#[trigger] self.stack@[a]).0@,
                            ) && !is_prefix(cp@, self.stack@[a].0@) by {
                                let q = self.stack@[a].0@;
                                if a < old_stack.len() {
                                    assert(path_lt(gp, q) && !is_prefix(gp, q));
                                    lemma_path_lt_divergence(gp, q);
                                    let d = choose|d: int|
                                        0 <= d < gp.len() && d < q.len() && gp.take(d) == q.take(
                                            d,
                                        ) && bytes_lt(#[trigger] gp[d], q[d]);
                                    assert(cp@.take(d) =~= gp.take(d));
                                    lemma_path_lt_common(cp@, q, d);
                                    assert(cp@.skip(d)[0] == cp@[d]);
                                    assert(q.skip(d)[0] == q[d]);
                                    assert(cp@[d] == gp[d]);
                                    crate::path::lemma_bytes_lt_trichotomy(cp@[d], q[d]);
                                    if is_prefix(cp@, q) {
                                        assert(q.take(cp@.len() as int)[d] == cp@[d]);
                                    }
                                } else {
                                    let named = gk[old_stack.len() + gk.len() - 1 - a].0@;
                                    assert(q == gp.push(named));
                                    assert(bytes_lt(gk[ki].0@, named));
                                    assert(is_prefix(gp.push(named), q)) by {
                                        assert(q.take(q.len() as int) =~= q);
                                    }
                                    assert(is_prefix(gp.push(gk[ki].0@), cp@)) by {
                                        assert(cp@.take(cp@.len() as int) =~= cp@);
                                    }
                                    lemma_lt_by_component(gp, gk[ki].0@, named, cp@, q);
                                    if is_prefix(cp@, q) {
                                        assert(q.take(cp@.len() as int) =~= q);
                                        assert(cp@ == q);
                                        crate::path::lemma_path_lt_trichotomy(cp@, q);
                                    }
                                }
                            }
                        }
                        self.stack.push((cp, c));
                    }
                    proof {
                        assert(gk.take(0) =~= Seq::<(PathComponentBuf, Link)>::empty());
                        if gk.len() > 0 {
                            let top = self.stack@.len() - 1;
                            assert(self.stack@[top].0@ == gp.push(
                                gk[old_stack.len() + gk.len() - 1 - top].0@,
                            ));
                            assert(old_stack.len() + gk.len() - 1 - top == 0);
                            assert(self.stack@[top].0@ == gp.push(gk[0].0@));
                            assert(self.stack@[top].1 == gk[0].1);
                            assert(self.stack@.len() == old_stack.len() + gk.len());
                        } else {
                            assert(self.stack@ =~= old_stack);
                        }
                    }
                }
            }
        } else {
            if self.current.is_some() {
                self.current = None;
            } else {
                // a skip before any visit discards the next pending subtree
                let ghost pre_skip = self.stack@;
                let _ = self.stack.pop();
                proof {
                    assert(forall|a: int|
                        0 <= a < self.stack@.len() ==> #[trigger] self.stack@[a] == pre_skip[a]);
                }
            }
        }
        self.skip = false;
        proof {
            if gcur is Some {
                assert forall|a: int| 0 <= a < self.stack@.len() implies path_lt(
                    gcur->Some_0.0@,
                    (#[trigger] self.stack@[a]).0@,
                ) by {}
            }
        }
        let ghost pre_pop = self.stack@;
        let popped = self.stack.pop();
        match popped {
            Some(item) => {
                proof {
                    assert(pre_pop[pre_pop.len() - 1] == item);
                    assert(forall|a: int|
                        0 <= a < self.stack@.len() ==> #[trigger] self.stack@[a] == pre_pop[a]);
                    assert(self.stack@ =~= pre_pop.drop_last());
                    if gcur is Some {
                        assert(path_lt(gcur->Some_0.0@, pre_pop[pre_pop.len() - 1].0@));
                    }
                    assert(link_wf(item.1));
                    assert forall|a: int| 0 <= a < self.stack@.len() implies path_lt(
                        item.0@,
                        (#[trigger] self.stack@[a]).0@,
                    ) && !is_prefix(item.0@, self.stack@[a].0@) by {
                        assert(self.stack@[a] == pre_pop[a]);
                        assert(path_lt(pre_pop[pre_pop.len() - 1].0@, pre_pop[a].0@));
                    }
                }
                self.current = Some(item);
                Step::Success
            }
            None => {
                self.done = true;
                Step::End
            }
        }
    }
}

} // verus!
