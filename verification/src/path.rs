//! Repository-relative paths: ordered sequences of non-empty, slash-free
//! components, compared lexicographically component by component.

use vstd::prelude::*;
use crate::error::Error;

verus! {

/// Three-way comparison result used throughout the crate.
#[derive(Debug, Clone, Copy, PartialEq, Eq)]
pub enum Rel {
    Lt,
    Eq,
    Gt,
}

/// Strict byte-lexicographic order on component names.
pub open spec fn bytes_lt(a: Seq<u8>, b: Seq<u8>) -> bool
    decreases a.len(),
{
    if b.len() == 0 {
        false
    } else if a.len() == 0 {
        true
    } else if a[0] != b[0] {
        a[0] < b[0]
    } else {
        bytes_lt(a.drop_first(), b.drop_first())
    }
}

/// Strict lexicographic order on paths, component-wise.
pub open spec fn path_lt(a: Seq<Seq<u8>>, b: Seq<Seq<u8>>) -> bool
    decreases a.len(),
{
    if b.len() == 0 {
        false
    } else if a.len() == 0 {
        true
    } else if a[0] != b[0] {
        bytes_lt(a[0], b[0])
    } else {
        path_lt(a.drop_first(), b.drop_first())
    }
}

/// `a` is an initial run of `b` (possibly all of it).
pub open spec fn is_prefix(a: Seq<Seq<u8>>, b: Seq<Seq<u8>>) -> bool {
    a.len() <= b.len() && b.take(a.len() as int) == a
}

/// `a` is an initial run of `b` and shorter than it.
pub open spec fn strict_prefix(a: Seq<Seq<u8>>, b: Seq<Seq<u8>>) -> bool {
    is_prefix(a, b) && a.len() < b.len()
}

/// A valid component name: non-empty, free of NUL and `/`.
pub open spec fn component_ok(s: Seq<u8>) -> bool {
    s.len() > 0 && forall|i: int| 0 <= i < s.len() ==> s[i] != 0u8 && s[i] != 47u8
}

pub proof fn lemma_bytes_lt_trichotomy(a: Seq<u8>, b: Seq<u8>)
    ensures
        !(bytes_lt(a, b) && bytes_lt(b, a)),
        (a == b) <==> (!bytes_lt(a, b) && !bytes_lt(b, a)),
    decreases a.len(),
{
    if a.len() == 0 && b.len() == 0 {
        assert(a =~= b);
    } else if a.len() == 0 || b.len() == 0 {
        assert(a.len() != b.len());
    } else if a[0] == b[0] {
        lemma_bytes_lt_trichotomy(a.drop_first(), b.drop_first());
        if a.drop_first() == b.drop_first() {
            assert(a =~= b) by {
                assert forall|k: int| 0 <= k < a.len() implies a[k] == b[k] by {
                    if k > 0 {
                        assert(a.drop_first()[k - 1] == b.drop_first()[k - 1]);
                    }
                }
            }
        }
        if a == b {
            assert(a.drop_first() =~= b.drop_first());
        }
    }
}

pub proof fn lemma_bytes_lt_trans(a: Seq<u8>, b: Seq<u8>, c: Seq<u8>)
    requires
        bytes_lt(a, b),
        bytes_lt(b, c),
    ensures
        bytes_lt(a, c),
    decreases a.len(),
{
    if a.len() == 0 || b.len() == 0 {
    } else if a[0] == b[0] && b[0] == c[0] {
        lemma_bytes_lt_trans(a.drop_first(), b.drop_first(), c.drop_first());
    }
}

pub proof fn lemma_path_lt_trichotomy(a: Seq<Seq<u8>>, b: Seq<Seq<u8>>)
    ensures
        !(path_lt(a, b) && path_lt(b, a)),
        (a == b) <==> (!path_lt(a, b) && !path_lt(b, a)),
    decreases a.len(),
{
    if a.len() == 0 && b.len() == 0 {
        assert(a =~= b);
    } else if a.len() == 0 || b.len() == 0 {
        assert(a.len() != b.len());
    } else if a[0] == b[0] {
        lemma_path_lt_trichotomy(a.drop_first(), b.drop_first());
        if a.drop_first() == b.drop_first() {
            assert(a =~= b) by {
                assert forall|k: int| 0 <= k < a.len() implies a[k] == b[k] by {
                    if k > 0 {
                        assert(a.drop_first()[k - 1] == b.drop_first()[k - 1]);
                    }
                }
            }
        }
        if a == b {
            assert(a.drop_first() =~= b.drop_first());
        }
    } else {
        lemma_bytes_lt_trichotomy(a[0], b[0]);
    }
}

pub proof fn lemma_path_lt_trans(a: Seq<Seq<u8>>, b: Seq<Seq<u8>>, c: Seq<Seq<u8>>)
    requires
        path_lt(a, b),
        path_lt(b, c),
    ensures
        path_lt(a, c),
    decreases a.len(),
{
    if a.len() == 0 || b.len() == 0 {
    } else if a[0] == b[0] && b[0] == c[0] {
        lemma_path_lt_trans(a.drop_first(), b.drop_first(), c.drop_first());
    } else if a[0] == b[0] {
        lemma_bytes_lt_trichotomy(b[0], c[0]);
    } else if b[0] == c[0] {
        lemma_bytes_lt_trichotomy(a[0], b[0]);
    } else {
        lemma_bytes_lt_trans(a[0], b[0], c[0]);
        lemma_bytes_lt_trichotomy(a[0], b[0]);
        lemma_bytes_lt_trichotomy(b[0], c[0]);
        lemma_bytes_lt_trichotomy(a[0], c[0]);
    }
}

/// Comparing two byte strings that agree on their first `i` bytes reduces to
/// comparing the remainders.
pub proof fn lemma_bytes_lt_common(a: Seq<u8>, b: Seq<u8>, i: int)
    requires
        0 <= i <= a.len(),
        i <= b.len(),
        a.take(i) == b.take(i),
    ensures
        bytes_lt(a, b) == bytes_lt(a.skip(i), b.skip(i)),
    decreases i,
{
    if i > 0 {
        assert(a.take(i)[0] == a[0]);
        assert(b.take(i)[0] == b[0]);
        assert(a.drop_first().take(i - 1) =~= a.take(i).drop_first());
        assert(b.drop_first().take(i - 1) =~= b.take(i).drop_first());
        assert(a.take(i).drop_first() =~= b.take(i).drop_first());
        lemma_bytes_lt_common(a.drop_first(), b.drop_first(), i - 1);
        assert(a.drop_first().skip(i - 1) =~= a.skip(i));
        assert(b.drop_first().skip(i - 1) =~= b.skip(i));
    } else {
        assert(a.skip(0) =~= a);
        assert(b.skip(0) =~= b);
    }
}

/// Comparing two paths that agree on their first `i` components reduces to
/// comparing the remainders.
pub proof fn lemma_path_lt_common(a: Seq<Seq<u8>>, b: Seq<Seq<u8>>, i: int)
    requires
        0 <= i <= a.len(),
        i <= b.len(),
        a.take(i) == b.take(i),
    ensures
        path_lt(a, b) == path_lt(a.skip(i), b.skip(i)),
    decreases i,
{
    if i > 0 {
        assert(a.take(i)[0] == a[0]);
        assert(b.take(i)[0] == b[0]);
        assert(a.drop_first().take(i - 1) =~= a.take(i).drop_first());
        assert(b.drop_first().take(i - 1) =~= b.take(i).drop_first());
        assert(a.take(i).drop_first() =~= b.take(i).drop_first());
        lemma_path_lt_common(a.drop_first(), b.drop_first(), i - 1);
        assert(a.drop_first().skip(i - 1) =~= a.skip(i));
        assert(b.drop_first().skip(i - 1) =~= b.skip(i));
    } else {
        assert(a.skip(0) =~= a);
        assert(b.skip(0) =~= b);
    }
}

/// Paths that branch at component `base.len()` order by that component alone.
pub proof fn lemma_lt_by_component(
    base: Seq<Seq<u8>>,
    c1: Seq<u8>,
    c2: Seq<u8>,
    p: Seq<Seq<u8>>,
    q: Seq<Seq<u8>>,
)
    requires
        is_prefix(base.push(c1), p),
        is_prefix(base.push(c2), q),
        bytes_lt(c1, c2),
    ensures
        path_lt(p, q),
{
    let n = base.len() as int;
    assert(p.take(n + 1) == base.push(c1));
    assert(q.take(n + 1) == base.push(c2));
    assert(p.take(n) =~= base) by {
        assert forall|k: int| 0 <= k < n implies p.take(n)[k] == base[k] by {
            assert(p.take(n + 1)[k] == base.push(c1)[k]);
        }
    }
    assert(q.take(n) =~= base) by {
        assert forall|k: int| 0 <= k < n implies q.take(n)[k] == base[k] by {
            assert(q.take(n + 1)[k] == base.push(c2)[k]);
        }
    }
    lemma_path_lt_common(p, q, n);
    assert(p[n] == base.push(c1)[n]) by {
        assert(p.take(n + 1)[n] == base.push(c1)[n]);
    }
    assert(q[n] == base.push(c2)[n]) by {
        assert(q.take(n + 1)[n] == base.push(c2)[n]);
    }
    assert(p.skip(n)[0] == p[n]);
    assert(q.skip(n)[0] == q[n]);
    lemma_bytes_lt_trichotomy(c1, c2);
    assert(c1 != c2);
}

/// Extending a prefix by one component: the longer prefix pins the
/// component at position `base.len()`.
pub proof fn lemma_prefix_step(base: Seq<Seq<u8>>, c: Seq<u8>, k: Seq<Seq<u8>>)
    requires
        is_prefix(base.push(c), k),
    ensures
        strict_prefix(base, k),
        k[base.len() as int] == c,
{
    let n = base.len() as int;
    assert(k.take(n + 1) == base.push(c));
    assert(k.take(n) =~= base) by {
        assert forall|j: int| 0 <= j < n implies k.take(n)[j] == base[j] by {
            assert(k.take(n + 1)[j] == base.push(c)[j]);
        }
    }
    assert(k.take(n + 1)[n] == base.push(c)[n]);
}

/// Where `a` sorts before `b` without being its prefix, the two diverge at
/// some component, smaller on `a`'s side.
pub proof fn lemma_path_lt_divergence(a: Seq<Seq<u8>>, b: Seq<Seq<u8>>)
    requires
        path_lt(a, b),
        !is_prefix(a, b),
    ensures
        exists|d: int|
            0 <= d < a.len() && d < b.len() && a.take(d) == b.take(d) && bytes_lt(
                #[trigger] a[d],
                b[d],
            ),
    decreases a.len(),
{
    if a.len() == 0 {
        assert(b.take(0) =~= a);
    } else if b.len() == 0 {
    } else if a[0] != b[0] {
        assert(a.take(0) =~= b.take(0));
        assert(bytes_lt(a[0], b[0]));
    } else {
        let ta = a.drop_first();
        let tb = b.drop_first();
        assert(!is_prefix(ta, tb)) by {
            if is_prefix(ta, tb) {
                assert(b.take(a.len() as int) =~= a) by {
                    assert forall|k: int| 0 <= k < a.len() implies b.take(a.len() as int)[k]
                        == a[k] by {
                        if k > 0 {
                            assert(tb.take(ta.len() as int)[k - 1] == ta[k - 1]);
                        }
                    }
                }
            }
        }
        lemma_path_lt_divergence(ta, tb);
        let d = choose|d: int|
            0 <= d < ta.len() && d < tb.len() && ta.take(d) == tb.take(d) && bytes_lt(
                #[trigger] ta[d],
                tb[d],
            );
        assert(a.take(d + 1) =~= b.take(d + 1)) by {
            assert forall|k: int| #![trigger a.take(d + 1)[k]] 0 <= k < d + 1 implies a.take(
                d + 1,
            )[k] == b.take(d + 1)[k] by {
                if k > 0 {
                    assert(ta.take(d)[k - 1] == tb.take(d)[k - 1]);
                }
            }
        }
        assert(a[d + 1] == ta[d] && b[d + 1] == tb[d]);
        assert(bytes_lt(a[d + 1], b[d + 1]));
    }
}

/// A strict prefix sorts strictly before every path it prefixes.
pub proof fn lemma_strict_prefix_lt(a: Seq<Seq<u8>>, b: Seq<Seq<u8>>)
    requires
        strict_prefix(a, b),
    ensures
        path_lt(a, b),
{
    assert(a.take(a.len() as int) =~= a);
    lemma_path_lt_common(a, b, a.len() as int);
    assert(a.skip(a.len() as int).len() == 0);
    assert(b.skip(a.len() as int).len() > 0);
}

/// Prefix-of is transitive.
pub proof fn lemma_prefix_trans(a: Seq<Seq<u8>>, b: Seq<Seq<u8>>, c: Seq<Seq<u8>>)
    requires
        is_prefix(a, b),
        is_prefix(b, c),
    ensures
        is_prefix(a, c),
{
    assert(c.take(a.len() as int) =~= a) by {
        assert forall|k: int| 0 <= k < a.len() implies c.take(a.len() as int)[k] == a[k] by {
            assert(c.take(b.len() as int)[k] == b[k]);
            assert(b.take(a.len() as int)[k] == a[k]);
        }
    }
}

/// A prefix of `p` no longer than another prefix of `p` is its prefix.
pub proof fn lemma_prefix_chain(q: Seq<Seq<u8>>, r: Seq<Seq<u8>>, p: Seq<Seq<u8>>)
    requires
        is_prefix(q, p),
        is_prefix(r, p),
        q.len() <= r.len(),
    ensures
        is_prefix(q, r),
{
    assert(r.take(q.len() as int) =~= q) by {
        assert forall|k: int| 0 <= k < q.len() implies r.take(q.len() as int)[k] == q[k] by {
            assert(p.take(r.len() as int)[k] == r[k]);
            assert(p.take(q.len() as int)[k] == q[k]);
        }
    }
}

/// One non-empty, slash-free path component.
#[derive(Debug, PartialEq, Eq)]
pub struct PathComponentBuf {
    bytes: Vec<u8>,
}

impl View for PathComponentBuf {
    type V = Seq<u8>;

    closed spec fn view(&self) -> Seq<u8> {
        self.bytes@
    }
}

impl Clone for PathComponentBuf {
#[verifier::loop_isolation(false)]
    fn clone(&self) -> (r: Self)
        ensures
            r@ == self@,
    {
        let mut bytes: Vec<u8> = Vec::new();
        let mut i: usize = 0;
        while i < self.bytes.len()
            invariant
                i <= self.bytes.len(),
                bytes@ =~= self.bytes@.take(i as int),
            decreases self.bytes.len() - i,
        {
            bytes.push(self.bytes[i]);
            i = i + 1;
        }
        proof {
            assert(bytes@ =~= self@);
        }
        PathComponentBuf { bytes }
    }
}

impl PathComponentBuf {
    /// Accepts exactly the non-empty names without NUL or `/`.
#[verifier::loop_isolation(false)]
    pub fn from_bytes(bytes: Vec<u8>) -> (r: Result<PathComponentBuf, Error>)
        ensures
            match r {
                Ok(c) => c@ == bytes@ && component_ok(bytes@),
                Err(e) => !component_ok(bytes@) && e is InvalidPathComponent,
            },
    {
        if bytes.len() == 0 {
            return Err(Error::InvalidPathComponent);
        }
        let mut i: usize = 0;
        while i < bytes.len()
            invariant
                i <= bytes.len(),
                forall|k: int| 0 <= k < i ==> bytes@[k] != 0u8 && bytes@[k] != 47u8,
            decreases bytes.len() - i,
        {
            if bytes[i] == 0 || bytes[i] == 47 {
                return Err(Error::InvalidPathComponent);
            }
            i = i + 1;
        }
        Ok(PathComponentBuf { bytes })
    }

    /// The raw bytes of this component.
    pub fn as_bytes(&self) -> (r: &Vec<u8>)
        ensures
            r@ == self@,
    {
        &self.bytes
    }
}

/// Strict three-way comparison of byte strings.
#[verifier::loop_isolation(false)]
pub fn cmp_bytes(a: &Vec<u8>, b: &Vec<u8>) -> (o: Rel)
    ensures
        (o == Rel::Lt) == bytes_lt(a@, b@),
        (o == Rel::Eq) == (a@ == b@),
        (o == Rel::Gt) == bytes_lt(b@, a@),
{
    proof {
        lemma_bytes_lt_trichotomy(a@, b@);
    }
    let mut i: usize = 0;
    while i < a.len() && i < b.len()
        invariant
            i <= a.len(),
            i <= b.len(),
            a@.take(i as int) =~= b@.take(i as int),
        decreases a.len() - i,
    {
        if a[i] < b[i] {
            proof {
                lemma_bytes_lt_common(a@, b@, i as int);
                assert(a@.skip(i as int)[0] == a@[i as int]);
                assert(b@.skip(i as int)[0] == b@[i as int]);
            }
            return Rel::Lt;
        }
        if a[i] > b[i] {
            proof {
                lemma_bytes_lt_common(b@, a@, i as int);
                assert(a@.skip(i as int)[0] == a@[i as int]);
                assert(b@.skip(i as int)[0] == b@[i as int]);
            }
            return Rel::Gt;
        }
        proof {
            assert(a@.take(i + 1) =~= b@.take(i + 1));
        }
        i = i + 1;
    }
    proof {
        lemma_bytes_lt_common(a@, b@, i as int);
    }
    if a.len() == b.len() {
        proof {
            assert(a@ =~= b@) by {
                assert forall|k: int| 0 <= k < a@.len() implies a@[k] == b@[k] by {
                    assert(a@.take(i as int)[k] == b@.take(i as int)[k]);
                }
            }
        }
        Rel::Eq
    } else if a.len() < b.len() {
        Rel::Lt
    } else {
        proof {
            lemma_bytes_lt_common(b@, a@, i as int);
        }
        Rel::Gt
    }
}

/// A repository-relative path; the empty path names the root.
#[derive(Debug, PartialEq, Eq)]
pub struct RepoPathBuf {
    parts: Vec<PathComponentBuf>,
}

impl View for RepoPathBuf {
    type V = Seq<Seq<u8>>;

    closed spec fn view(&self) -> Seq<Seq<u8>> {
        Seq::new(self.parts@.len() as nat, |i: int| self.parts@[i]@)
    }
}

impl Clone for RepoPathBuf {
#[verifier::loop_isolation(false)]
    fn clone(&self) -> (r: Self)
        ensures
            r@ == self@,
    {
        let mut parts: Vec<PathComponentBuf> = Vec::new();
        let mut i: usize = 0;
        while i < self.parts.len()
            invariant
                i <= self.parts.len(),
                parts@.len() == i,
                forall|k: int| 0 <= k < i ==> parts@[k]@ == self.parts@[k]@,
            decreases self.parts.len() - i,
        {
            parts.push(self.parts[i].clone());
            i = i + 1;
        }
        let r = RepoPathBuf { parts };
        proof {
            assert(r@ =~= self@);
        }
        r
    }
}

impl RepoPathBuf {
    /// The empty path: the repository root.
    pub fn new() -> (r: RepoPathBuf)
        ensures
            r@ == Seq::<Seq<u8>>::empty(),
    {
        let r = RepoPathBuf { parts: Vec::new() };
        proof {
            assert(r@ =~= Seq::<Seq<u8>>::empty());
        }
        r
    }

    pub fn num_components(&self) -> (n: usize)
        ensures
            n == self@.len(),
    {
        self.parts.len()
    }

    pub fn is_empty(&self) -> (b: bool)
        ensures
            b == (self@.len() == 0),
    {
        self.parts.len() == 0
    }

    /// Appends one component.
    pub fn push(&mut self, c: PathComponentBuf)
        ensures
            final(self)@ == old(self)@.push(c@),
    {
        self.parts.push(c);
        proof {
            assert(self@ =~= old(self)@.push(c@));
        }
    }

    /// Removes the last component; leaves the empty path unchanged.
    pub fn pop(&mut self)
        ensures
            old(self)@.len() > 0 ==> final(self)@ == old(self)@.drop_last(),
            old(self)@.len() == 0 ==> final(self)@ == old(self)@,
    {
        if self.parts.len() > 0 {
            self.parts.pop();
            proof {
                assert(self@ =~= old(self)@.drop_last());
            }
        } else {
            proof {
                assert(self@ =~= old(self)@);
            }
        }
    }

    /// The `i`-th component.
    pub fn component(&self, i: usize) -> (r: &PathComponentBuf)
        requires
            i < self@.len(),
        ensures
            r@ == self@[i as int],
    {
        &self.parts[i]
    }

    /// The first `n` components, as a fresh path.
#[verifier::loop_isolation(false)]
    pub fn prefix(&self, n: usize) -> (r: RepoPathBuf)
        requires
            n <= self@.len(),
        ensures
            r@ == self@.take(n as int),
    {
        let mut parts: Vec<PathComponentBuf> = Vec::new();
        let mut i: usize = 0;
        while i < n
            invariant
                i <= n,
                n <= self.parts.len(),
                parts@.len() == i,
                forall|k: int| 0 <= k < i ==> parts@[k]@ == self.parts@[k]@,
            decreases n - i,
        {
            parts.push(self.parts[i].clone());
            i = i + 1;
        }
        let r = RepoPathBuf { parts };
        proof {
            assert(r@ =~= self@.take(n as int));
        }
        r
    }

    /// Splits off the last component: `None` exactly for the root.
    pub fn split_last_component(&self) -> (r: Option<(RepoPathBuf, PathComponentBuf)>)
        ensures
            match r {
                None => self@.len() == 0,
                Some((parent, last)) => self@.len() > 0 && parent@ == self@.drop_last()
                    && last@ == self@.last(),
            },
    {
        if self.parts.len() == 0 {
            return None;
        }
        let parent = self.prefix(self.parts.len() - 1);
        let last = self.parts[self.parts.len() - 1].clone();
        proof {
            assert(parent@ =~= self@.drop_last());
        }
        Some((parent, last))
    }
}

/// Strict three-way comparison of paths, component-lexicographic.
#[verifier::loop_isolation(false)]
pub fn cmp_paths(a: &RepoPathBuf, b: &RepoPathBuf) -> (o: Rel)
    ensures
        (o == Rel::Lt) == path_lt(a@, b@),
        (o == Rel::Eq) == (a@ == b@),
        (o == Rel::Gt) == path_lt(b@, a@),
{
    proof {
        lemma_path_lt_trichotomy(a@, b@);
    }
    let alen = a.num_components();
    let blen = b.num_components();
    let mut i: usize = 0;
    while i < alen && i < blen
        invariant
            i <= alen,
            i <= blen,
            alen == a@.len(),
            blen == b@.len(),
            a@.take(i as int) =~= b@.take(i as int),
        decreases alen - i,
    {
        let rel = cmp_bytes(a.component(i).as_bytes(), b.component(i).as_bytes());
        match rel {
            Rel::Lt => {
                proof {
                    lemma_path_lt_common(a@, b@, i as int);
                    assert(a@.skip(i as int)[0] == a@[i as int]);
                    assert(b@.skip(i as int)[0] == b@[i as int]);
                    lemma_bytes_lt_trichotomy(a@[i as int], b@[i as int]);
                }
                return Rel::Lt;
            }
            Rel::Gt => {
                proof {
                    lemma_path_lt_common(b@, a@, i as int);
                    assert(a@.skip(i as int)[0] == a@[i as int]);
                    assert(b@.skip(i as int)[0] == b@[i as int]);
                    lemma_bytes_lt_trichotomy(a@[i as int], b@[i as int]);
                }
                return Rel::Gt;
            }
            Rel::Eq => {
                proof {
                    assert(a@.take(i + 1) =~= b@.take(i + 1));
                }
                i = i + 1;
            }
        }
    }
    proof {
        lemma_path_lt_common(a@, b@, i as int);
    }
    if alen == blen {
        proof {
            assert(a@ =~= b@) by {
                assert forall|k: int| 0 <= k < a@.len() implies a@[k] == b@[k] by {
                    assert(a@.take(i as int)[k] == b@.take(i as int)[k]);
                }
            }
        }
        Rel::Eq
    } else if alen < blen {
        Rel::Lt
    } else {
        proof {
            lemma_path_lt_common(b@, a@, i as int);
        }
        Rel::Gt
    }
}

} // verus!
