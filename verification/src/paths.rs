//! Relative paths as sequences of byte-string components, with the total
//! order used by the entry index: component-wise lexicographic, a proper
//! prefix ordering before its extensions.

use vstd::prelude::*;

verus! {

/// Three-way outcome of an ordered comparison.
#[derive(Clone, Copy, Debug, PartialEq, Eq, Structural)]
pub enum PathOrder {
    Less,
    Equal,
    Greater,
}

/// Strict lexicographic order on byte strings.
pub open spec fn bytes_lt(a: Seq<u8>, b: Seq<u8>) -> bool
    decreases a.len(),
{
    if b.len() == 0 {
        false
    } else if a.len() == 0 {
        true
    } else if a[0] != b[0] {
        a[0] < b[0]
    } else {
        bytes_lt(a.drop_first(), b.drop_first())
    }
}

/// Strict component-wise lexicographic order on paths. A proper prefix of a
/// path orders before that path.
pub open spec fn path_lt(a: Seq<Seq<u8>>, b: Seq<Seq<u8>>) -> bool
    decreases a.len(),
{
    if b.len() == 0 {
        false
    } else if a.len() == 0 {
        true
    } else if a[0] != b[0] {
        bytes_lt(a[0], b[0])
    } else {
        path_lt(a.drop_first(), b.drop_first())
    }
}

pub open spec fn path_le(a: Seq<Seq<u8>>, b: Seq<Seq<u8>>) -> bool {
    path_lt(a, b) || a == b
}

/// `p` is a (not necessarily proper) component prefix of `q`.
pub open spec fn is_prefix_of(p: Seq<Seq<u8>>, q: Seq<Seq<u8>>) -> bool {
    p.len() <= q.len() && q.subrange(0, p.len() as int) == p
}

/// `q` lies in the subtree rooted at `p`: it is `p` itself or a descendant.
pub open spec fn is_under(p: Seq<Seq<u8>>, q: Seq<Seq<u8>>) -> bool {
    is_prefix_of(p, q)
}

/// A valid path component: nonempty and free of the separator byte.
pub open spec fn wf_component(c: Seq<u8>) -> bool {
    c.len() > 0 && forall|j: int| 0 <= j < c.len() ==> c[j] != 47u8
}

/// Every component of the path is valid. The root path (no components) is valid.
pub open spec fn wf_path(p: Seq<Seq<u8>>) -> bool {
    forall|i: int| 0 <= i < p.len() ==> wf_component(#[trigger] p[i])
}

/// Indexing the deep view of a vector of byte strings reaches the element's view.
pub broadcast proof fn lemma_deep_index(v: Vec<Vec<u8>>, i: int)
    requires
        0 <= i < v@.len(),
    ensures
        #[trigger] v.deep_view()[i] == v@[i]@,
{
    assert(v@[i].deep_view() =~= v@[i]@);
}

/// Two nonempty sequences with equal heads and equal tails are equal.
pub proof fn lemma_head_tail_eq<A>(a: Seq<A>, b: Seq<A>)
    requires
        a.len() > 0,
        b.len() > 0,
        a[0] == b[0],
        a.drop_first() == b.drop_first(),
    ensures
        a == b,
{
    assert(a.drop_first().len() == a.len() - 1);
    assert(b.drop_first().len() == b.len() - 1);
    assert(a.len() == b.len());
    assert forall|i: int| 0 <= i < a.len() implies a[i] == b[i] by {
        if i > 0 {
            assert(a.drop_first()[i - 1] == a[i]);
            assert(b.drop_first()[i - 1] == b[i]);
        }
    };
    assert(a =~= b);
}

/// `bytes_lt` is a strict total order: exactly one of the three outcomes holds.
pub proof fn lemma_bytes_order(a: Seq<u8>, b: Seq<u8>)
    ensures
        bytes_lt(a, b) || a == b || bytes_lt(b, a),
        bytes_lt(a, b) ==> a != b && !bytes_lt(b, a),
        a == b ==> !bytes_lt(a, b) && !bytes_lt(b, a),
    decreases a.len(),
{
    if a.len() == 0 {
        if b.len() == 0 {
            assert(a =~= b);
        }
    } else if b.len() == 0 {
    } else if a[0] != b[0] {
        assert(a != b);
    } else {
        lemma_bytes_order(a.drop_first(), b.drop_first());
        if a.drop_first() == b.drop_first() {
            lemma_head_tail_eq(a, b);
        }
        if a == b {
            assert(a.drop_first() =~= b.drop_first());
        }
    }
}

pub proof fn lemma_bytes_lt_trans(a: Seq<u8>, b: Seq<u8>, c: Seq<u8>)
    requires
        bytes_lt(a, b),
        bytes_lt(b, c),
    ensures
        bytes_lt(a, c),
    decreases a.len(),
{
    if a.len() == 0 {
    } else if a[0] == b[0] && b[0] == c[0] {
        lemma_bytes_lt_trans(a.drop_first(), b.drop_first(), c.drop_first());
    }
}

/// `path_lt` is a strict total order on paths.
pub proof fn lemma_path_order(a: Seq<Seq<u8>>, b: Seq<Seq<u8>>)
    ensures
        path_lt(a, b) || a == b || path_lt(b, a),
        path_lt(a, b) ==> a != b && !path_lt(b, a),
        a == b ==> !path_lt(a, b) && !path_lt(b, a),
    decreases a.len(),
{
    if a.len() == 0 {
        if b.len() == 0 {
            assert(a =~= b);
        }
    } else if b.len() == 0 {
    } else if a[0] != b[0] {
        lemma_bytes_order(a[0], b[0]);
        assert(a != b);
    } else {
        lemma_path_order(a.drop_first(), b.drop_first());
        if a.drop_first() == b.drop_first() {
            lemma_head_tail_eq(a, b);
        }
        if a == b {
            assert(a.drop_first() =~= b.drop_first());
        }
    }
}

pub proof fn lemma_path_lt_trans(a: Seq<Seq<u8>>, b: Seq<Seq<u8>>, c: Seq<Seq<u8>>)
    requires
        path_lt(a, b),
        path_lt(b, c),
    ensures
        path_lt(a, c),
    decreases a.len(),
{
    if a.len() == 0 {
    } else if a[0] == b[0] && b[0] == c[0] {
        lemma_path_lt_trans(a.drop_first(), b.drop_first(), c.drop_first());
    } else if a[0] != b[0] && b[0] != c[0] {
        lemma_bytes_lt_trans(a[0], b[0], c[0]);
        lemma_bytes_order(a[0], c[0]);
    }
}

pub proof fn lemma_prefix_trans(a: Seq<Seq<u8>>, b: Seq<Seq<u8>>, c: Seq<Seq<u8>>)
    requires
        is_prefix_of(a, b),
        is_prefix_of(b, c),
    ensures
        is_prefix_of(a, c),
{
    assert(c.subrange(0, a.len() as int) =~= b.subrange(0, a.len() as int));
}

/// A proper prefix of a path orders strictly before it.
pub proof fn lemma_prefix_lt(p: Seq<Seq<u8>>, q: Seq<Seq<u8>>)
    requires
        is_prefix_of(p, q),
        p != q,
    ensures
        path_lt(p, q),
    decreases p.len(),
{
    if p.len() == 0 {
        if q.len() == 0 {
            assert(p =~= q);
        }
    } else {
        assert(q.subrange(0, p.len() as int)[0] == q[0]);
        assert(p[0] == q[0]);
        assert(is_prefix_of(p.drop_first(), q.drop_first())) by {
            assert(q.drop_first().subrange(0, p.len() - 1) =~= q.subrange(0, p.len() as int)
                .drop_first());
        }
        assert(p.drop_first() != q.drop_first()) by {
            if p.drop_first() == q.drop_first() {
                assert(p.len() == q.len());
                assert(p =~= q);
            }
        }
        lemma_prefix_lt(p.drop_first(), q.drop_first());
    }
}

/// A relative path under the worktree root, held as its components.
/// The root itself is the path with no components.
pub struct TreePath {
    pub components: Vec<Vec<u8>>,
}

impl View for TreePath {
    type V = Seq<Seq<u8>>;

    open spec fn view(&self) -> Seq<Seq<u8>> {
        self.components.deep_view()
    }
}

impl DeepView for TreePath {
    type V = Seq<Seq<u8>>;

    open spec fn deep_view(&self) -> Seq<Seq<u8>> {
        self.view()
    }
}

/// A fresh copy of a byte string.
pub fn copy_bytes(v: &Vec<u8>) -> (r: Vec<u8>)
    ensures
        r@ == v@,
{
    let mut r: Vec<u8> = Vec::new();
    let mut i: usize = 0;
    while i < v.len()
        invariant
            i <= v.len(),
            r@ == v@.subrange(0, i as int),
        decreases v.len() - i,
    {
        r.push(v[i]);
        proof {
            assert(v@.subrange(0, i + 1 as int) =~= v@.subrange(0, i as int).push(v@[i as int]));
        }
        i += 1;
    }
    proof {
        assert(v@.subrange(0, v@.len() as int) =~= v@);
    }
    r
}

/// Copy a range of components out of `v`, as a fresh vector.
fn clone_component_range(v: &Vec<Vec<u8>>, from: usize, to: usize) -> (r: Vec<Vec<u8>>)
    requires
        from <= to <= v@.len(),
    ensures
        r.deep_view() == v.deep_view().subrange(from as int, to as int),
{
    let mut c: Vec<Vec<u8>> = Vec::new();
    let mut i: usize = from;
    while i < to
        invariant
            from <= i <= to <= v@.len(),
            c@.len() == i - from,
            forall|j: int| 0 <= j < i - from ==> c@[j]@ == v@[from + j]@,
        decreases to - i,
    {
        c.push(copy_bytes(&v[i]));
        i += 1;
    }
    proof {
        assert forall|j: int|
            0 <= j < c@.len() implies c.deep_view()[j] == v.deep_view().subrange(
            from as int,
            to as int,
        )[j] by {
            lemma_deep_index(c, j);
            lemma_deep_index(*v, from + j);
        };
        assert(c.deep_view() =~= v.deep_view().subrange(from as int, to as int));
    }
    c
}

impl Clone for TreePath {
    fn clone(&self) -> (r: Self)
        ensures
            r@ == self@,
    {
        let c = clone_component_range(&self.components, 0, self.components.len());
        proof {
            assert(self.components.deep_view().subrange(
                0,
                self.components@.len() as int,
            ) =~= self.components.deep_view());
        }
        TreePath { components: c }
    }
}

impl TreePath {
    pub open spec fn wf(&self) -> bool {
        wf_path(self@)
    }

    /// The root path: no components.
    pub fn root() -> (r: TreePath)
        ensures
            r@ == Seq::<Seq<u8>>::empty(),
    {
        let r = TreePath { components: Vec::new() };
        proof {
            assert(r@ =~= Seq::<Seq<u8>>::empty());
        }
        r
    }

    pub fn num_components(&self) -> (r: usize)
        ensures
            r == self@.len(),
    {
        self.components.len()
    }

    /// The path extended by one more component.
    pub fn child(&self, name: Vec<u8>) -> (r: TreePath)
        ensures
            r@ == self@.push(name@),
    {
        let ghost namev = name@;
        let mut c = clone_component_range(&self.components, 0, self.components.len());
        let ghost pre = c;
        c.push(name);
        proof {
            assert(self.components.deep_view().subrange(
                0,
                self.components@.len() as int,
            ) =~= self.components.deep_view());
            assert forall|j: int|
                0 <= j < c@.len() implies c.deep_view()[j] == self@.push(namev)[j] by {
                lemma_deep_index(c, j);
                if j < pre@.len() {
                    lemma_deep_index(pre, j);
                }
            };
            assert(c.deep_view() =~= self@.push(namev));
        }
        TreePath { components: c }
    }

    /// The parent path, or `None` for the root.
    pub fn parent(&self) -> (r: Option<TreePath>)
        ensures
            match r {
                Some(p) => self@.len() > 0 && p@ == self@.drop_last(),
                None => self@.len() == 0,
            },
    {
        if self.components.len() == 0 {
            None
        } else {
            Some(self.prefix(self.components.len() - 1))
        }
    }

    /// The final component, or `None` for the root.
    pub fn file_name(&self) -> (r: Option<&Vec<u8>>)
        ensures
            match r {
                Some(n) => self@.len() > 0 && n@ == self@.last(),
                None => self@.len() == 0,
            },
    {
        if self.components.len() == 0 {
            None
        } else {
            Some(&self.components[self.components.len() - 1])
        }
    }

    /// The ancestor made of the first `k` components.
    pub fn prefix(&self, k: usize) -> (r: TreePath)
        requires
            k <= self@.len(),
        ensures
            r@ == self@.subrange(0, k as int),
    {
        TreePath { components: clone_component_range(&self.components, 0, k) }
    }

    /// The path with its first `k` components removed.
    pub fn suffix(&self, k: usize) -> (r: TreePath)
        requires
            k <= self@.len(),
        ensures
            r@ == self@.skip(k as int),
    {
        let c = clone_component_range(&self.components, k, self.components.len());
        proof {
            assert(self@.subrange(k as int, self@.len() as int) =~= self@.skip(k as int));
        }
        TreePath { components: c }
    }
}

/// Compare the suffixes of two byte strings starting at `i`.
pub fn bytes_cmp_at(a: &Vec<u8>, b: &Vec<u8>, i: usize) -> (r: PathOrder)
    requires
        i <= a@.len(),
        i <= b@.len(),
    ensures
        (r == PathOrder::Less) == bytes_lt(a@.skip(i as int), b@.skip(i as int)),
        (r == PathOrder::Equal) == (a@.skip(i as int) == b@.skip(i as int)),
        (r == PathOrder::Greater) == bytes_lt(b@.skip(i as int), a@.skip(i as int)),
    decreases a@.len() - i,
{
    let ghost sa = a@.skip(i as int);
    let ghost sb = b@.skip(i as int);
    proof {
        lemma_bytes_order(sa, sb);
    }
    if i == b.len() {
        if i == a.len() {
            proof {
                assert(sa =~= sb);
            }
            PathOrder::Equal
        } else {
            PathOrder::Greater
        }
    } else if i == a.len() {
        PathOrder::Less
    } else {
        proof {
            assert(sa[0] == a@[i as int]);
            assert(sb[0] == b@[i as int]);
        }
        if a[i] < b[i] {
            PathOrder::Less
        } else if a[i] > b[i] {
            PathOrder::Greater
        } else {
            let r = bytes_cmp_at(a, b, i + 1);
            proof {
                assert(sa.drop_first() =~= a@.skip(i + 1 as int));
                assert(sb.drop_first() =~= b@.skip(i + 1 as int));
                if sa.drop_first() == sb.drop_first() {
                    lemma_head_tail_eq(sa, sb);
                }
            }
            r
        }
    }
}

/// Compare two byte strings.
pub fn bytes_cmp(a: &Vec<u8>, b: &Vec<u8>) -> (r: PathOrder)
    ensures
        (r == PathOrder::Less) == bytes_lt(a@, b@),
        (r == PathOrder::Equal) == (a@ == b@),
        (r == PathOrder::Greater) == bytes_lt(b@, a@),
{
    proof {
        assert(a@.skip(0) =~= a@);
        assert(b@.skip(0) =~= b@);
    }
    bytes_cmp_at(a, b, 0)
}

/// Compare the suffixes of two paths starting at component `i`.
pub fn path_cmp_at(a: &TreePath, b: &TreePath, i: usize) -> (r: PathOrder)
    requires
        i <= a@.len(),
        i <= b@.len(),
    ensures
        (r == PathOrder::Less) == path_lt(a@.skip(i as int), b@.skip(i as int)),
        (r == PathOrder::Equal) == (a@.skip(i as int) == b@.skip(i as int)),
        (r == PathOrder::Greater) == path_lt(b@.skip(i as int), a@.skip(i as int)),
    decreases a@.len() - i,
{
    let ghost sa = a@.skip(i as int);
    let ghost sb = b@.skip(i as int);
    proof {
        lemma_path_order(sa, sb);
    }
    if i == b.components.len() {
        if i == a.components.len() {
            proof {
                assert(sa =~= sb);
            }
            PathOrder::Equal
        } else {
            PathOrder::Greater
        }
    } else if i == a.components.len() {
        PathOrder::Less
    } else {
        proof {
            assert(sa[0] == a@[i as int]);
            assert(sb[0] == b@[i as int]);
            lemma_deep_index(a.components, i as int);
            lemma_deep_index(b.components, i as int);
        }
        let c = bytes_cmp(&a.components[i], &b.components[i]);
        match c {
            PathOrder::Less => PathOrder::Less,
            PathOrder::Greater => PathOrder::Greater,
            PathOrder::Equal => {
                let r = path_cmp_at(a, b, i + 1);
                proof {
                    assert(sa.drop_first() =~= a@.skip(i + 1 as int));
                    assert(sb.drop_first() =~= b@.skip(i + 1 as int));
                    if sa.drop_first() == sb.drop_first() {
                        lemma_head_tail_eq(sa, sb);
                    }
                }
                r
            },
        }
    }
}

/// Compare two paths in the index order.
pub fn path_cmp(a: &TreePath, b: &TreePath) -> (r: PathOrder)
    ensures
        (r == PathOrder::Less) == path_lt(a@, b@),
        (r == PathOrder::Equal) == (a@ == b@),
        (r == PathOrder::Greater) == path_lt(b@, a@),
{
    proof {
        assert(a@.skip(0) =~= a@);
        assert(b@.skip(0) =~= b@);
    }
    path_cmp_at(a, b, 0)
}

pub fn path_eq(a: &TreePath, b: &TreePath) -> (r: bool)
    ensures
        r == (a@ == b@),
{
    matches!(path_cmp(a, b), PathOrder::Equal)
}

/// Whether `base` is a component prefix of `q` (so `q` is `base` or below it).
pub fn path_starts_with(q: &TreePath, base: &TreePath) -> (r: bool)
    ensures
        r == is_prefix_of(base@, q@),
{
    if base.components.len() > q.components.len() {
        proof {
            assert(!is_prefix_of(base@, q@));
        }
        return false;
    }
    let mut i: usize = 0;
    while i < base.components.len()
        invariant
            i <= base@.len(),
            base@.len() <= q@.len(),
            forall|j: int| 0 <= j < i ==> q@[j] == base@[j],
        decreases base@.len() - i,
    {
        let c = bytes_cmp(&q.components[i], &base.components[i]);
        proof {
            lemma_deep_index(q.components, i as int);
            lemma_deep_index(base.components, i as int);
        }
        if !matches!(c, PathOrder::Equal) {
            proof {
                assert(q@[i as int] != base@[i as int]);
                if is_prefix_of(base@, q@) {
                    assert(q@.subrange(0, base@.len() as int)[i as int] == q@[i as int]);
                }
            }
            return false;
        }
        proof {
            assert(q@[i as int] == base@[i as int]);
        }
        i += 1;
    }
    proof {
        assert(q@.subrange(0, base@.len() as int) =~= base@);
    }
    true
}

/// Remove `base` from the front of `self`, if it is a prefix.
impl TreePath {
    pub fn strip_prefix(&self, base: &TreePath) -> (r: Option<TreePath>)
        ensures
            match r {
                Some(rest) => is_prefix_of(base@, self@) && rest@ == self@.skip(base@.len() as int),
                None => !is_prefix_of(base@, self@),
            },
    {
        if path_starts_with(self, base) {
            Some(self.suffix(base.components.len()))
        } else {
            None
        }
    }
}

/// The ordered key under which an entry is addressed in the index.
#[derive(Clone)]
pub struct PathKey(pub TreePath);

impl View for PathKey {
    type V = Seq<Seq<u8>>;

    open spec fn view(&self) -> Seq<Seq<u8>> {
        self.0@
    }
}

/// A seek query over the path dimension of the index: either the position of
/// `p` itself, or the first position after the whole subtree rooted at `p`.
pub enum PathSearch {
    Exact(TreePath),
    Successor(TreePath),
}

/// The total order on seek queries. `Successor(a)` sorts after every path in
/// the subtree of `a` and before everything else greater than `a`; both
/// mixed combinations are defined, symmetrically.
pub open spec fn search_cmp_spec(x: PathSearch, y: PathSearch) -> PathOrder {
    match (x, y) {
        (PathSearch::Exact(a), PathSearch::Exact(b)) => if a@ == b@ {
            PathOrder::Equal
        } else if path_lt(a@, b@) {
            PathOrder::Less
        } else {
            PathOrder::Greater
        },
        (PathSearch::Successor(a), PathSearch::Exact(b)) => if is_prefix_of(a@, b@) {
            PathOrder::Greater
        } else if path_lt(a@, b@) {
            PathOrder::Less
        } else {
            PathOrder::Greater
        },
        (PathSearch::Exact(a), PathSearch::Successor(b)) => if is_prefix_of(b@, a@) {
            PathOrder::Less
        } else if path_lt(a@, b@) {
            PathOrder::Less
        } else {
            PathOrder::Greater
        },
        (PathSearch::Successor(a), PathSearch::Successor(b)) => if a@ == b@ {
            PathOrder::Equal
        } else if is_prefix_of(a@, b@) {
            PathOrder::Greater
        } else if is_prefix_of(b@, a@) {
            PathOrder::Less
        } else if path_lt(a@, b@) {
            PathOrder::Less
        } else {
            PathOrder::Greater
        },
    }
}

pub fn path_search_cmp(x: &PathSearch, y: &PathSearch) -> (r: PathOrder)
    ensures
        r == search_cmp_spec(*x, *y),
{
    match (x, y) {
        (PathSearch::Exact(a), PathSearch::Exact(b)) => path_cmp(a, b),
        (PathSearch::Successor(a), PathSearch::Exact(b)) => {
            if path_starts_with(b, a) {
                PathOrder::Greater
            } else {
                proof {
                    lemma_path_order(a@, b@);
                    if a@ == b@ {
                        assert(b@.subrange(0, a@.len() as int) =~= a@);
                    }
                }
                match path_cmp(a, b) {
                    PathOrder::Less => PathOrder::Less,
                    _ => PathOrder::Greater,
                }
            }
        },
        (PathSearch::Exact(a), PathSearch::Successor(b)) => {
            if path_starts_with(a, b) {
                PathOrder::Less
            } else {
                proof {
                    lemma_path_order(a@, b@);
                    if a@ == b@ {
                        assert(a@.subrange(0, b@.len() as int) =~= b@);
                    }
                }
                match path_cmp(a, b) {
                    PathOrder::Less => PathOrder::Less,
                    _ => PathOrder::Greater,
                }
            }
        },
        (PathSearch::Successor(a), PathSearch::Successor(b)) => {
            if path_eq(a, b) {
                PathOrder::Equal
            } else if path_starts_with(b, a) {
                PathOrder::Greater
            } else if path_starts_with(a, b) {
                PathOrder::Less
            } else {
                proof {
                    lemma_path_order(a@, b@);
                }
                match path_cmp(a, b) {
                    PathOrder::Less => PathOrder::Less,
                    _ => PathOrder::Greater,
                }
            }
        },
    }
}

/// The seek rule the index relies on: a path `q` sits strictly before the
/// query `Successor(p)` exactly when `q` lies in the subtree of `p` or is
/// less than `p`; so slicing at `Exact(p)` and seeking to `Successor(p)`
/// removes precisely the subtree rooted at `p`.
pub proof fn lemma_successor_bound(p: Seq<Seq<u8>>, q: Seq<Seq<u8>>)
    ensures
        is_under(p, q) ==> !path_lt(q, p),
        !is_under(p, q) && !path_lt(q, p) ==> path_lt(p, q) && p != q,
{
    lemma_path_order(p, q);
    if is_under(p, q) {
        if p == q {
        } else {
            lemma_prefix_lt(p, q);
        }
    } else {
        if p == q {
            assert(q.subrange(0, p.len() as int) =~= p);
        }
    }
}

} // verus!
