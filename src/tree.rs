use crate::bytes::{append, decimal, push_decimal};
use crate::db::{object_write_of, Db, ObjectWrite, StoreError};
use crate::object::{frame, framed, ObjectKind};
use crate::oid::{sha1_of, Oid};
use vstd::prelude::*;

verus! {

broadcast use vstd::std_specs::vec::group_vec_axioms;

/// Mode text of a regular file.
pub const MODE: u64 = 100644;

/// Mode text of a file with an executable bit set.
pub const MODE_EXECUTABLE: u64 = 100755;

/// Mode text of a directory.
pub const MODE_DIR: u64 = 40000;

/// One level of a snapshot: named entries, each a file or a nested tree.
#[derive(Debug)]
pub struct Tree {
    pub entries: Vec<TreeEntry>,
}

/// A named entry of a tree.
#[derive(Debug)]
pub struct TreeEntry {
    pub name: Vec<u8>,
    pub node: TreeNode,
}

/// A file (its content identifier and raw permission bits) or a nested tree.
#[derive(Debug)]
pub enum TreeNode {
    Leaf(Oid, u32),
    Branch(Tree),
}

/// Byte-wise lexical order: `a` sorts strictly before `b`.
pub open spec fn lex_lt(a: Seq<u8>, b: Seq<u8>) -> bool
    decreases a.len(),
{
    if a.len() == 0 {
        b.len() > 0
    } else if b.len() == 0 {
        false
    } else if a[0] != b[0] {
        a[0] < b[0]
    } else {
        lex_lt(a.drop_first(), b.drop_first())
    }
}

pub proof fn lemma_lex_total(a: Seq<u8>, b: Seq<u8>)
    ensures
        a == b || lex_lt(a, b) || lex_lt(b, a),
        !(lex_lt(a, b) && lex_lt(b, a)),
        !lex_lt(a, a),
    decreases a.len(),
{
    if a.len() > 0 {
        lemma_lex_total(a.drop_first(), a.drop_first());
    }
    if a.len() > 0 && b.len() > 0 {
        lemma_lex_total(a.drop_first(), b.drop_first());
        if a[0] == b[0] && a.drop_first() == b.drop_first() {
            assert(a == seq![a[0]] + a.drop_first());
            assert(b == seq![b[0]] + b.drop_first());
        }
    } else if a.len() == 0 && b.len() == 0 {
        assert(a == b);
    }
}

pub proof fn lemma_lex_transitive(a: Seq<u8>, b: Seq<u8>, c: Seq<u8>)
    requires
        lex_lt(a, b),
        lex_lt(b, c),
    ensures
        lex_lt(a, c),
    decreases a.len(),
{
    if a.len() > 0 && b.len() > 0 && c.len() > 0 && a[0] == b[0] && b[0] == c[0] {
        lemma_lex_transitive(a.drop_first(), b.drop_first(), c.drop_first());
    }
}

/// Whether `a` sorts strictly before `b`, byte by byte.
fn lex_less(a: &[u8], b: &[u8]) -> (r: bool)
    ensures
        r == lex_lt(a@, b@),
{
    let mut i: usize = 0;
    assert(a@.subrange(0, a@.len() as int) =~= a@);
    assert(b@.subrange(0, b@.len() as int) =~= b@);
    while i < a.len() && i < b.len() && a[i] == b[i]
        invariant
            0 <= i <= a@.len(),
            i <= b@.len(),
            lex_lt(a@, b@) == lex_lt(a@.subrange(i as int, a@.len() as int), b@.subrange(i as int, b@.len() as int)),
        decreases a@.len() - i,
    {
        assert(a@.subrange(i as int, a@.len() as int).drop_first() =~= a@.subrange(i + 1, a@.len() as int));
        assert(b@.subrange(i as int, b@.len() as int).drop_first() =~= b@.subrange(i + 1, b@.len() as int));
        i = i + 1;
    }
    if i == a.len() {
        i < b.len()
    } else if i == b.len() {
        false
    } else {
        a[i] < b[i]
    }
}

/// Whether two byte slices are equal.
fn bytes_eq(a: &[u8], b: &[u8]) -> (r: bool)
    ensures
        r == (a@ == b@),
{
    if a.len() != b.len() {
        return false;
    }
    let mut i: usize = 0;
    while i < a.len()
        invariant
            a@.len() == b@.len(),
            0 <= i <= a@.len(),
            forall|j: int| 0 <= j < i ==> a@[j] == b@[j],
        decreases a@.len() - i,
    {
        if a[i] != b[i] {
            return false;
        }
        i = i + 1;
    }
    assert(a@ =~= b@);
    true
}

/// The mode text that a node is serialized with.
pub open spec fn node_mode(n: TreeNode) -> nat {
    match n {
        TreeNode::Leaf(_, raw) => if raw & 0o111 != 0 {
            MODE_EXECUTABLE as nat
        } else {
            MODE as nat
        },
        TreeNode::Branch(_) => MODE_DIR as nat,
    }
}

/// One serialized entry: `<mode> <name>\0<20-byte identifier>`.
pub open spec fn entry_line(mode: nat, name: Seq<u8>, id: Seq<u8>) -> Seq<u8> {
    decimal(mode) + seq![32u8] + name + seq![0u8] + id
}

/// What a tree shows at a path: a file (identifier and raw permission
/// bits) or a directory.
pub enum Shown {
    File(Seq<u8>, u32),
    Dir,
}

/// A path given by its components.
pub type PathSeq = Seq<Seq<u8>>;

/// `q` lies strictly below `p`.
pub open spec fn strictly_extends(q: PathSeq, p: PathSeq) -> bool {
    q.len() > p.len() && q.subrange(0, p.len() as int) == p
}

/// `q` is a non-empty proper prefix of `p`: a directory on the way to `p`.
pub open spec fn on_the_way(q: PathSeq, p: PathSeq) -> bool {
    1 <= q.len() < p.len() && q == p.subrange(0, q.len() as int)
}

/// Some directory on the way to `p` is a file.
pub open spec fn blocked(m: Map<PathSeq, Shown>, p: PathSeq) -> bool {
    exists|k: int|
        1 <= k < p.len() && #[trigger] m.contains_key(p.subrange(0, k)) && m[p.subrange(0, k)] is File
}

/// The paths shown after adding `x` at `p`: unless a file stands on the way
/// to `p` (then nothing changes), `p` shows `x`, every step on the way is a
/// directory, and what lay below `p` is gone; other paths are unchanged.
/// A second add at the same path wins.
pub open spec fn obs_add(m: Map<PathSeq, Shown>, p: PathSeq, x: Shown) -> Map<PathSeq, Shown> {
    if blocked(m, p) {
        m
    } else {
        Map::new(
            |q: PathSeq| q == p || on_the_way(q, p) || (m.contains_key(q) && !strictly_extends(q, p)),
            |q: PathSeq|
                if q == p {
                    x
                } else if on_the_way(q, p) {
                    Shown::Dir
                } else {
                    m[q]
                },
        )
    }
}

/// The components of `comps` from `i` on.
pub open spec fn path_from(comps: Seq<Vec<u8>>, i: int) -> PathSeq {
    comps.subrange(i, comps.len() as int).map_values(|c: Vec<u8>| c@)
}

/// Some entry of `es` has name `n`.
pub open spec fn has_name(es: Seq<TreeEntry>, n: Seq<u8>) -> bool {
    exists|k: int| 0 <= k < es.len() && (#[trigger] es[k]).name@ == n
}

/// The node of the entry of `es` named `n`.
pub open spec fn node_named(es: Seq<TreeEntry>, n: Seq<u8>) -> TreeNode {
    es[choose|k: int| 0 <= k < es.len() && (#[trigger] es[k]).name@ == n].node
}

/// Names of `es` are pairwise distinct.
pub open spec fn distinct(es: Seq<TreeEntry>) -> bool {
    forall|i: int, j: int| 0 <= i < es.len() && 0 <= j < es.len() && i != j ==> (#[trigger] es[i]).name@ != (#[trigger] es[j]).name@
}

proof fn lemma_pick(es: Seq<TreeEntry>, n: Seq<u8>, k: int)
    requires
        distinct(es),
        0 <= k < es.len(),
        es[k].name@ == n,
    ensures
        has_name(es, n),
        node_named(es, n) == es[k].node,
{
    assert(has_name(es, n));
    let c = choose|c: int| 0 <= c < es.len() && (#[trigger] es[c]).name@ == n;
    assert(c == k);
}

/// What a node shows at the path `r` below it.
pub open spec fn node_lookup(node: TreeNode, r: PathSeq) -> Option<Shown>
    decreases r.len(), 1int,
{
    match node {
        TreeNode::Leaf(o, m) => if r.len() == 0 {
            Some(Shown::File(o@, m))
        } else {
            None
        },
        TreeNode::Branch(sub) => if r.len() == 0 {
            Some(Shown::Dir)
        } else {
            sub.lookup(r)
        },
    }
}

proof fn lemma_blocked_shift(m: Map<PathSeq, Shown>, ms: Map<PathSeq, Shown>, n: Seq<u8>, r: PathSeq)
    requires
        r.len() >= 1,
        m.contains_key(seq![n]) ==> m[seq![n]] == Shown::Dir,
        forall|q: PathSeq| q.len() >= 1 ==> (#[trigger] m.contains_key(seq![n] + q) <==> ms.contains_key(q)),
        forall|q: PathSeq| q.len() >= 1 && ms.contains_key(q) ==> #[trigger] m[seq![n] + q] == ms[q],
    ensures
        blocked(m, seq![n] + r) <==> blocked(ms, r),
{
    let p = seq![n] + r;
    if blocked(m, p) {
        let k = choose|k: int| 1 <= k < p.len() && #[trigger] m.contains_key(p.subrange(0, k)) && m[p.subrange(0, k)] is File;
        if k == 1 {
            assert(p.subrange(0, 1) =~= seq![n]);
        } else {
            assert(p.subrange(0, k) =~= seq![n] + r.subrange(0, k - 1));
            assert(ms.contains_key(r.subrange(0, k - 1)));
        }
    }
    if blocked(ms, r) {
        let k = choose|k: int| 1 <= k < r.len() && #[trigger] ms.contains_key(r.subrange(0, k)) && ms[r.subrange(0, k)] is File;
        assert(p.subrange(0, k + 1) =~= seq![n] + r.subrange(0, k));
        assert(m.contains_key(p.subrange(0, k + 1)));
    }
}

/// Adding below one name of a tree, as seen from the tree.
proof fn lemma_obs_shift(
    m: Map<PathSeq, Shown>,
    ms: Map<PathSeq, Shown>,
    m2: Map<PathSeq, Shown>,
    ms2: Map<PathSeq, Shown>,
    n: Seq<u8>,
    r: PathSeq,
    x: Shown,
)
    requires
        r.len() >= 1,
        !m.contains_key(Seq::empty()),
        !m2.contains_key(Seq::empty()),
        m.contains_key(seq![n]) ==> m[seq![n]] == Shown::Dir,
        !m.contains_key(seq![n]) ==> ms == Map::<PathSeq, Shown>::empty(),
        forall|q: PathSeq| q.len() >= 1 ==> (#[trigger] m.contains_key(seq![n] + q) <==> ms.contains_key(q)),
        forall|q: PathSeq| q.len() >= 1 && ms.contains_key(q) ==> #[trigger] m[seq![n] + q] == ms[q],
        ms2 == obs_add(ms, r, x),
        m2.contains_key(seq![n]) && m2[seq![n]] == Shown::Dir,
        forall|q: PathSeq| q.len() >= 1 ==> (#[trigger] m2.contains_key(seq![n] + q) <==> ms2.contains_key(q)),
        forall|q: PathSeq| q.len() >= 1 && ms2.contains_key(q) ==> #[trigger] m2[seq![n] + q] == ms2[q],
        forall|q: PathSeq| q.len() >= 1 && q[0] != n ==> (#[trigger] m2.contains_key(q) <==> m.contains_key(q)),
        forall|q: PathSeq| q.len() >= 1 && q[0] != n && m.contains_key(q) ==> #[trigger] m2[q] == m[q],
    ensures
        m2 == obs_add(m, seq![n] + r, x),
{
    let p = seq![n] + r;
    lemma_blocked_shift(m, ms, n, r);
    let o = obs_add(m, p, x);
    assert forall|q: PathSeq| #[trigger] m2.contains_key(q) == o.contains_key(q) && (m2.contains_key(q) ==> m2[q] == o[q]) by {
        if q.len() == 0 {
            assert(q =~= Seq::<Seq<u8>>::empty());
        } else if q[0] != n {
            assert(q != p);
            assert(!on_the_way(q, p)) by {
                if on_the_way(q, p) {
                    assert(q[0] == p.subrange(0, q.len() as int)[0]);
                }
            }
            assert(!strictly_extends(q, p)) by {
                if strictly_extends(q, p) {
                    assert(q.subrange(0, p.len() as int)[0] == q[0]);
                }
            }
        } else {
            let q1 = q.drop_first();
            assert(q =~= seq![n] + q1);
            if q1.len() == 0 {
                assert(q =~= seq![n]);
                assert(on_the_way(q, p)) by {
                    assert(p.subrange(0, 1) =~= seq![n]);
                }
                if blocked(m, p) {
                    assert(ms2 == ms);
                    assert(ms != Map::<PathSeq, Shown>::empty()) by {
                        let k = choose|k: int| 1 <= k < r.len() && #[trigger] ms.contains_key(r.subrange(0, k)) && ms[r.subrange(0, k)] is File;
                    }
                }
            } else {
                assert((q == p) == (q1 == r)) by {
                    if q1 == r {
                        assert(q =~= p);
                    }
                    if q == p {
                        assert(q1 =~= p.drop_first());
                        assert(p.drop_first() =~= r);
                    }
                }
                assert(on_the_way(q, p) == on_the_way(q1, r)) by {
                    if on_the_way(q1, r) {
                        assert(p.subrange(0, q.len() as int) =~= seq![n] + r.subrange(0, q1.len() as int));
                    }
                    if on_the_way(q, p) {
                        assert(p.subrange(0, q.len() as int) =~= seq![n] + r.subrange(0, q1.len() as int));
                        assert(q1 =~= r.subrange(0, q1.len() as int)) by {
                            assert(q1 =~= q.drop_first());
                            assert(q.drop_first() =~= p.subrange(0, q.len() as int).drop_first());
                        }
                    }
                }
                assert(strictly_extends(q, p) == strictly_extends(q1, r)) by {
                    if q.len() > p.len() {
                        assert(q.subrange(0, p.len() as int) =~= seq![n] + q1.subrange(0, r.len() as int));
                        if q.subrange(0, p.len() as int) == p {
                            assert(q1.subrange(0, r.len() as int) =~= p.drop_first());
                            assert(p.drop_first() =~= r);
                        }
                    }
                }
            }
        }
    }
    assert(m2 =~= o);
}

/// Names of `es` other than `n` keep their entries in `es2`.
pub open spec fn same_elsewhere(es: Seq<TreeEntry>, es2: Seq<TreeEntry>, n: Seq<u8>) -> bool {
    forall|m: Seq<u8>| m != n ==> (#[trigger] has_name(es2, m) == has_name(es, m)) && (has_name(es, m) ==> node_named(es2, m) == node_named(es, m))
}

proof fn lemma_insert_elsewhere(es: Seq<TreeEntry>, pos: int, e: TreeEntry)
    requires
        distinct(es),
        distinct(es.insert(pos, e)),
        0 <= pos <= es.len(),
    ensures
        same_elsewhere(es, es.insert(pos, e), e.name@),
{
    let es2 = es.insert(pos, e);
    assert forall|m: Seq<u8>| m != e.name@ implies (#[trigger] has_name(es2, m) == has_name(es, m)) && (has_name(es, m) ==> node_named(es2, m) == node_named(es, m)) by {
        if has_name(es, m) {
            let k = choose|k: int| 0 <= k < es.len() && (#[trigger] es[k]).name@ == m;
            let k2 = if k < pos { k } else { k + 1 };
            assert(es2[k2] == es[k]);
            lemma_pick(es, m, k);
            lemma_pick(es2, m, k2);
        }
        if has_name(es2, m) {
            let k2 = choose|k: int| 0 <= k < es2.len() && (#[trigger] es2[k]).name@ == m;
            let k = if k2 < pos { k2 } else { k2 - 1 };
            assert(es2[k2] == es[k]);
        }
    }
}

proof fn lemma_update_elsewhere(es: Seq<TreeEntry>, pos: int, e: TreeEntry)
    requires
        distinct(es),
        0 <= pos < es.len(),
        es[pos].name@ == e.name@,
    ensures
        same_elsewhere(es, es.update(pos, e), e.name@),
        distinct(es.update(pos, e)),
{
    let es2 = es.update(pos, e);
    assert(distinct(es2)) by {
        assert forall|i: int, j: int| 0 <= i < es2.len() && 0 <= j < es2.len() && i != j implies (#[trigger] es2[i]).name@ != (#[trigger] es2[j]).name@ by {
            assert(es2[i].name@ == es[i].name@);
            assert(es2[j].name@ == es[j].name@);
        }
    }
    assert forall|m: Seq<u8>| m != e.name@ implies (#[trigger] has_name(es2, m) == has_name(es, m)) && (has_name(es, m) ==> node_named(es2, m) == node_named(es, m)) by {
        if has_name(es, m) {
            let k = choose|k: int| 0 <= k < es.len() && (#[trigger] es[k]).name@ == m;
            assert(es2[k] == es[k]);
            lemma_pick(es, m, k);
            lemma_pick(es2, m, k);
        }
        if has_name(es2, m) {
            let k = choose|k: int| 0 <= k < es2.len() && (#[trigger] es2[k]).name@ == m;
            assert(es2[k] == es[k]);
        }
    }
}

impl Tree {
    proof fn lemma_wf_distinct(self)
        requires
            self.wf(),
        ensures
            distinct(self.entries@),
    {
        assert forall|i: int, j: int| 0 <= i < self.entries@.len() && 0 <= j < self.entries@.len() && i != j implies (#[trigger] self.entries@[i]).name@ != (#[trigger] self.entries@[j]).name@ by {
            lemma_lex_total(self.entries@[i].name@, self.entries@[j].name@);
            if i < j {
                assert(lex_lt(self.entries[i].name@, self.entries[j].name@));
            } else {
                assert(lex_lt(self.entries[j].name@, self.entries[i].name@));
            }
        }
    }

    proof fn lemma_no_empty(self)
        ensures
            !self.shown().contains_key(Seq::empty()),
    {
    }

    proof fn lemma_child_view(self, n: Seq<u8>, node: TreeNode)
        requires
            distinct(self.entries@),
            has_name(self.entries@, n),
            node_named(self.entries@, n) == node,
        ensures
            forall|q: PathSeq| #[trigger] self.lookup(seq![n] + q) == node_lookup(node, q),
    {
        assert forall|q: PathSeq| #[trigger] self.lookup(seq![n] + q) == node_lookup(node, q) by {
            assert((seq![n] + q)[0] == n);
            assert((seq![n] + q).drop_first() =~= q);
        }
    }

    proof fn lemma_absent_view(self, n: Seq<u8>)
        requires
            !has_name(self.entries@, n),
        ensures
            forall|q: PathSeq| #[trigger] self.lookup(seq![n] + q) is None,
    {
        assert forall|q: PathSeq| #[trigger] self.lookup(seq![n] + q) is None by {
            assert((seq![n] + q)[0] == n);
        }
    }

    proof fn lemma_other_view(self, t2: Tree, n: Seq<u8>)
        requires
            same_elsewhere(self.entries@, t2.entries@, n),
        ensures
            forall|q: PathSeq| q.len() >= 1 && q[0] != n ==> #[trigger] t2.lookup(q) == self.lookup(q),
    {
        assert forall|q: PathSeq| q.len() >= 1 && q[0] != n implies #[trigger] t2.lookup(q) == self.lookup(q) by {
            assert(has_name(t2.entries@, q[0]) == has_name(self.entries@, q[0]));
        }
    }
}

impl Tree {
    /// Inserting a new name at the place that `locate` gave keeps the names
    /// sorted and distinct.
    proof fn lemma_insert_sorted(self, t0: Tree, pos: int, e: TreeEntry)
        requires
            t0.wf(),
            0 <= pos <= t0.entries@.len(),
            self.entries@ == t0.entries@.insert(pos, e),
            forall|j: int| 0 <= j < pos ==> lex_lt(#[trigger] t0.entries@[j].name@, e.name@),
            forall|j: int| pos <= j < t0.entries@.len() ==> lex_lt(e.name@, #[trigger] t0.entries@[j].name@),
        ensures
            forall|i: int, j: int|
                0 <= i < j < self.entries.len() ==> lex_lt(
                    #[trigger] self.entries[i].name@,
                    #[trigger] self.entries[j].name@,
                ),
            distinct(self.entries@),
    {
        let es = self.entries@;
        assert forall|i: int, j: int| 0 <= i < j < self.entries.len() implies lex_lt(#[trigger] self.entries[i].name@, #[trigger] self.entries[j].name@) by {
            if i < pos && j < pos {
                assert(es[i] == t0.entries@[i] && es[j] == t0.entries@[j]);
            } else if i < pos && j == pos {
            } else if i < pos {
                assert(es[i] == t0.entries@[i] && es[j] == t0.entries@[j - 1]);
            } else if i == pos {
                assert(es[j] == t0.entries@[j - 1]);
            } else {
                assert(es[i] == t0.entries@[i - 1] && es[j] == t0.entries@[j - 1]);
            }
        }
        assert forall|i: int, j: int| 0 <= i < es.len() && 0 <= j < es.len() && i != j implies (#[trigger] es[i]).name@ != (#[trigger] es[j]).name@ by {
            lemma_lex_total(es[i].name@, es[j].name@);
            if i < j {
                assert(lex_lt(self.entries[i].name@, self.entries[j].name@));
            } else {
                assert(lex_lt(self.entries[j].name@, self.entries[i].name@));
            }
        }
    }

    proof fn lemma_wf_after_leaf(self, t0: Tree, pos: int, e: TreeEntry, found: bool)
        requires
            t0.wf(),
            e.node is Leaf,
            found ==> 0 <= pos < t0.entries@.len() && self.entries@ == t0.entries@.update(pos, e)
                && t0.entries@[pos].name@ == e.name@,
            !found ==> forall|i: int, j: int|
                0 <= i < j < self.entries.len() ==> lex_lt(
                    #[trigger] self.entries[i].name@,
                    #[trigger] self.entries[j].name@,
                ),
            !found ==> 0 <= pos <= t0.entries@.len() && self.entries@ == t0.entries@.insert(pos, e),
        ensures
            self.wf(),
    {
        let es = self.entries@;
        assert forall|i: int| 0 <= i < self.entries.len() implies match #[trigger] self.entries[i].node {
            TreeNode::Branch(sub) => sub.wf(),
            TreeNode::Leaf(..) => true,
        } by {
            if i != pos {
                if found || i < pos {
                    assert(es[i] == t0.entries@[i]);
                } else {
                    assert(es[i] == t0.entries@[i - 1]);
                }
            }
        }
        if found {
            assert forall|i: int, j: int| 0 <= i < j < self.entries.len() implies lex_lt(#[trigger] self.entries[i].name@, #[trigger] self.entries[j].name@) by {
                assert(es[i].name@ == t0.entries@[i].name@);
                assert(es[j].name@ == t0.entries@[j].name@);
            }
        }
    }

    proof fn lemma_wf_after_branch(self, t0: Tree, pos: int, e: TreeEntry)
        requires
            t0.wf(),
            0 <= pos < t0.entries@.len(),
            self.entries@ == t0.entries@.update(pos, e),
            t0.entries@[pos].name@ == e.name@,
            match e.node {
                TreeNode::Branch(sub) => sub.wf(),
                TreeNode::Leaf(..) => true,
            },
        ensures
            self.wf(),
    {
        let es = self.entries@;
        assert forall|i: int| 0 <= i < self.entries.len() implies match #[trigger] self.entries[i].node {
            TreeNode::Branch(sub) => sub.wf(),
            TreeNode::Leaf(..) => true,
        } by {
            if i != pos {
                assert(es[i] == t0.entries@[i]);
            }
        }
        assert forall|i: int, j: int| 0 <= i < j < self.entries.len() implies lex_lt(#[trigger] self.entries[i].name@, #[trigger] self.entries[j].name@) by {
            assert(es[i].name@ == t0.entries@[i].name@);
            assert(es[j].name@ == t0.entries@[j].name@);
        }
    }

    proof fn lemma_wf_after_new_branch(self, t0: Tree, pos: int, e: TreeEntry)
        requires
            t0.wf(),
            0 <= pos <= t0.entries@.len(),
            self.entries@ == t0.entries@.insert(pos, e),
            forall|i: int, j: int|
                0 <= i < j < self.entries.len() ==> lex_lt(
                    #[trigger] self.entries[i].name@,
                    #[trigger] self.entries[j].name@,
                ),
            match e.node {
                TreeNode::Branch(sub) => sub.wf(),
                TreeNode::Leaf(..) => true,
            },
        ensures
            self.wf(),
    {
        let es = self.entries@;
        assert forall|i: int| 0 <= i < self.entries.len() implies match #[trigger] self.entries[i].node {
            TreeNode::Branch(sub) => sub.wf(),
            TreeNode::Leaf(..) => true,
        } by {
            if i < pos {
                assert(es[i] == t0.entries@[i]);
            } else if i > pos {
                assert(es[i] == t0.entries@[i - 1]);
            }
        }
    }

    /// After the entry named `n` became a directory whose subtree went from
    /// `sub0` to `sub`, the tree shows the addition at `[n] + r`.
    proof fn lemma_add_below(self, t0: Tree, n: Seq<u8>, r: PathSeq, x: Shown, sub0: Tree, sub: Tree, pos: int)
        requires
            r.len() >= 1,
            t0.wf(),
            distinct(self.entries@),
            0 <= pos < self.entries@.len(),
            self.entries@[pos].name@ == n,
            self.entries@[pos].node == TreeNode::Branch(sub),
            same_elsewhere(t0.entries@, self.entries@, n),
            has_name(t0.entries@, n) ==> node_named(t0.entries@, n) == TreeNode::Branch(sub0),
            !has_name(t0.entries@, n) ==> sub0.shown() == Map::<PathSeq, Shown>::empty(),
            sub.shown() == obs_add(sub0.shown(), r, x),
        ensures
            self.shown() == obs_add(t0.shown(), seq![n] + r, x),
    {
        t0.lemma_wf_distinct();
        lemma_pick(self.entries@, n, pos);
        self.lemma_child_view(n, TreeNode::Branch(sub));
        t0.lemma_other_view(self, n);
        t0.lemma_no_empty();
        self.lemma_no_empty();
        let m = t0.shown();
        let m2 = self.shown();
        let ms = sub0.shown();
        let ms2 = sub.shown();
        assert(seq![n] + Seq::<Seq<u8>>::empty() =~= seq![n]);
        if has_name(t0.entries@, n) {
            t0.lemma_child_view(n, TreeNode::Branch(sub0));
        } else {
            t0.lemma_absent_view(n);
        }
        assert(m.contains_key(seq![n]) ==> m[seq![n]] == Shown::Dir);
        assert(m2.contains_key(seq![n]) && m2[seq![n]] == Shown::Dir);
        assert forall|q: PathSeq| q.len() >= 1 implies (#[trigger] m.contains_key(seq![n] + q) <==> ms.contains_key(q)) by {
        }
        assert forall|q: PathSeq| q.len() >= 1 && ms.contains_key(q) implies #[trigger] m[seq![n] + q] == ms[q] by {
        }
        assert forall|q: PathSeq| q.len() >= 1 implies (#[trigger] m2.contains_key(seq![n] + q) <==> ms2.contains_key(q)) by {
        }
        assert forall|q: PathSeq| q.len() >= 1 && ms2.contains_key(q) implies #[trigger] m2[seq![n] + q] == ms2[q] by {
        }
        lemma_obs_shift(m, ms, m2, ms2, n, r, x);
    }
}

/// The names of `es`, in order.
pub open spec fn names(es: Seq<TreeEntry>) -> Seq<Seq<u8>> {
    es.map_values(|e: TreeEntry| e.name@)
}

/// Two strictly sorted name sequences with the same members are equal.
proof fn lemma_sorted_same(a: Seq<Seq<u8>>, b: Seq<Seq<u8>>)
    requires
        forall|i: int, j: int| 0 <= i < j < a.len() ==> lex_lt(#[trigger] a[i], #[trigger] a[j]),
        forall|i: int, j: int| 0 <= i < j < b.len() ==> lex_lt(#[trigger] b[i], #[trigger] b[j]),
        forall|x: Seq<u8>| a.contains(x) <==> b.contains(x),
    ensures
        a == b,
    decreases a.len(),
{
    if a.len() == 0 {
        if b.len() > 0 {
            assert(b.contains(b[0]));
        }
        assert(a =~= b);
        return;
    }
    if b.len() == 0 {
        assert(a.contains(a[0]));
        return;
    }
    assert(a[0] == b[0]) by {
        assert(a.contains(a[0]));
        assert(b.contains(b[0]));
        let j = choose|j: int| 0 <= j < b.len() && b[j] == a[0];
        let i = choose|i: int| 0 <= i < a.len() && a[i] == b[0];
        if a[0] != b[0] {
            assert(j > 0 && i > 0);
            assert(lex_lt(b[0], b[j]));
            assert(lex_lt(a[0], a[i]));
            lemma_lex_total(a[0], b[0]);
        }
    }
    let a1 = a.drop_first();
    let b1 = b.drop_first();
    assert forall|x: Seq<u8>| a1.contains(x) <==> b1.contains(x) by {
        if a1.contains(x) {
            let i = choose|i: int| 0 <= i < a1.len() && a1[i] == x;
            assert(a.contains(x)) by { assert(a[i + 1] == x); }
            let j = choose|j: int| 0 <= j < b.len() && b[j] == x;
            assert(lex_lt(a[0], a[i + 1]));
            if j == 0 {
                lemma_lex_total(x, x);
            }
            assert(b1[j - 1] == x);
        }
        if b1.contains(x) {
            let j = choose|j: int| 0 <= j < b1.len() && b1[j] == x;
            assert(b.contains(x)) by { assert(b[j + 1] == x); }
            let i = choose|i: int| 0 <= i < a.len() && a[i] == x;
            assert(lex_lt(b[0], b[j + 1]));
            if i == 0 {
                lemma_lex_total(x, x);
            }
            assert(a1[i - 1] == x);
        }
    }
    lemma_sorted_same(a1, b1);
    assert(a =~= b) by {
        assert forall|i: int| 0 <= i < a.len() implies a[i] == b[i] by {
            if i > 0 {
                assert(a[i] == a1[i - 1]);
                assert(b[i] == b1[i - 1]);
            }
        }
    }
}

impl Tree {
    proof fn lemma_has_name_shown(self, n: Seq<u8>)
        ensures
            has_name(self.entries@, n) <==> self.lookup(seq![n]) is Some,
    {
        assert(seq![n][0] == n);
        assert(seq![n].drop_first() =~= Seq::<Seq<u8>>::empty());
    }

    proof fn lemma_names_contains(self, n: Seq<u8>)
        ensures
            has_name(self.entries@, n) <==> names(self.entries@).contains(n),
    {
        if has_name(self.entries@, n) {
            let k = choose|k: int| 0 <= k < self.entries@.len() && (#[trigger] self.entries@[k]).name@ == n;
            assert(names(self.entries@)[k] == n);
        }
        if names(self.entries@).contains(n) {
            let k = choose|k: int| 0 <= k < names(self.entries@).len() && names(self.entries@)[k] == n;
            assert(self.entries@[k].name@ == n);
        }
    }

    /// Well-formed trees that show the same paths have the same bytes.
    proof fn lemma_canonical(self, t2: Tree)
        requires
            self.wf(),
            t2.wf(),
            forall|p: PathSeq| #[trigger] self.lookup(p) == t2.lookup(p),
        ensures
            self.body() == t2.body(),
        decreases self,
    {
        let es1 = self.entries@;
        let es2 = t2.entries@;
        self.lemma_wf_distinct();
        t2.lemma_wf_distinct();
        assert forall|x: Seq<u8>| names(es1).contains(x) <==> names(es2).contains(x) by {
            self.lemma_names_contains(x);
            t2.lemma_names_contains(x);
            self.lemma_has_name_shown(x);
            t2.lemma_has_name_shown(x);
        }
        assert forall|i: int, j: int| 0 <= i < j < names(es1).len() implies lex_lt(#[trigger] names(es1)[i], #[trigger] names(es1)[j]) by {
            assert(lex_lt(self.entries[i].name@, self.entries[j].name@));
        }
        assert forall|i: int, j: int| 0 <= i < j < names(es2).len() implies lex_lt(#[trigger] names(es2)[i], #[trigger] names(es2)[j]) by {
            assert(lex_lt(t2.entries[i].name@, t2.entries[j].name@));
        }
        lemma_sorted_same(names(es1), names(es2));
        assert(es1.len() == es2.len()) by {
            assert(names(es1).len() == names(es2).len());
        }
        assert forall|i: int| 0 <= i < es1.len() implies #[trigger] self.line_at(i) == t2.line_at(i) by {
            let n = es1[i].name@;
            assert(names(es1)[i] == names(es2)[i]);
            assert(es2[i].name@ == n);
            lemma_pick(es1, n, i);
            lemma_pick(es2, n, i);
            self.lemma_child_view(n, es1[i].node);
            t2.lemma_child_view(n, es2[i].node);
            assert(node_lookup(es1[i].node, Seq::empty()) == node_lookup(es2[i].node, Seq::empty())) by {
                assert(self.lookup(seq![n] + Seq::<Seq<u8>>::empty()) == t2.lookup(seq![n] + Seq::<Seq<u8>>::empty()));
            }
            match es1[i].node {
                TreeNode::Branch(sub1) => {
                    match es2[i].node {
                        TreeNode::Branch(sub2) => {
                            assert forall|q: PathSeq| #[trigger] sub1.lookup(q) == sub2.lookup(q) by {
                                if q.len() > 0 {
                                    assert(self.lookup(seq![n] + q) == t2.lookup(seq![n] + q));
                                }
                            }
                            assert(sub1.wf());
                            assert(sub2.wf());
                            assert(decreases_to!(self => sub1));
                            sub1.lemma_canonical(sub2);
                        },
                        TreeNode::Leaf(..) => {},
                    }
                },
                TreeNode::Leaf(..) => {},
            }
        }
        self.lemma_body_lines(t2, es1.len() as int);
    }

    /// The serialized line of the entry at `i`.
    closed spec fn line_at(self, i: int) -> Seq<u8> {
        let e = self.entries[i];
        entry_line(
            node_mode(e.node),
            e.name@,
            match e.node {
                TreeNode::Leaf(o, _) => o@,
                TreeNode::Branch(sub) => sha1_of(framed(ObjectKind::Tree, sub.body())),
            },
        )
    }

    proof fn lemma_body_lines(self, t2: Tree, k: int)
        requires
            0 <= k <= self.entries@.len(),
            self.entries@.len() == t2.entries@.len(),
            forall|i: int| 0 <= i < self.entries@.len() ==> #[trigger] self.line_at(i) == t2.line_at(i),
        ensures
            self.body_upto(k) == t2.body_upto(k),
        decreases k,
    {
        if k > 0 {
            self.lemma_body_lines(t2, k - 1);
            assert(self.line_at(k - 1) == t2.line_at(k - 1));
        }
    }
}

/// `a` is a prefix of `b` (possibly equal).
pub open spec fn prefix_of(a: PathSeq, b: PathSeq) -> bool {
    a.len() <= b.len() && b.subrange(0, a.len() as int) == a
}

/// Neither path lies on or below the other.
pub open spec fn unrelated(a: PathSeq, b: PathSeq) -> bool {
    !prefix_of(a, b) && !prefix_of(b, a)
}

proof fn lemma_blocked_kept(m: Map<PathSeq, Shown>, p: PathSeq, x: Shown, q: PathSeq)
    requires
        p.len() >= 1,
        q.len() >= 1,
        unrelated(p, q),
    ensures
        blocked(obs_add(m, p, x), q) == blocked(m, q),
{
    if !blocked(m, p) {
        let m1 = obs_add(m, p, x);
        if blocked(m1, q) {
            let k = choose|k: int| 1 <= k < q.len() && #[trigger] m1.contains_key(q.subrange(0, k)) && m1[q.subrange(0, k)] is File;
            let r = q.subrange(0, k);
            assert(r != p) by {
                if r == p {
                    assert(prefix_of(p, q));
                }
            }
            if on_the_way(r, p) {
                assert(m1[r] == Shown::Dir);
            }
            assert(m.contains_key(r));
        }
        if blocked(m, q) {
            let k = choose|k: int| 1 <= k < q.len() && #[trigger] m.contains_key(q.subrange(0, k)) && m[q.subrange(0, k)] is File;
            let r = q.subrange(0, k);
            assert(r != p) by {
                if r == p {
                    assert(prefix_of(p, q));
                }
            }
            assert(!on_the_way(r, p)) by {
                if on_the_way(r, p) {
                    assert(p.subrange(0, k) == r);
                    assert(m.contains_key(p.subrange(0, k)));
                }
            }
            assert(!strictly_extends(r, p)) by {
                if strictly_extends(r, p) {
                    assert(q.subrange(0, p.len() as int) =~= r.subrange(0, p.len() as int));
                }
            }
            assert(m1.contains_key(r));
        }
    }
}

/// Adding files at two unrelated paths gives the same result in either order.
pub proof fn lemma_obs_commute(m: Map<PathSeq, Shown>, p: PathSeq, x: Shown, q: PathSeq, y: Shown)
    requires
        p.len() >= 1,
        q.len() >= 1,
        unrelated(p, q),
    ensures
        obs_add(obs_add(m, p, x), q, y) == obs_add(obs_add(m, q, y), p, x),
{
    lemma_blocked_kept(m, p, x, q);
    lemma_blocked_kept(m, q, y, p);
    let a = obs_add(obs_add(m, p, x), q, y);
    let b = obs_add(obs_add(m, q, y), p, x);
    if blocked(m, p) {
        assert(obs_add(m, p, x) == m);
        assert(b == obs_add(m, q, y));
        return;
    }
    if blocked(m, q) {
        assert(obs_add(m, q, y) == m);
        assert(a == obs_add(m, p, x));
        return;
    }
    assert(p != q) by {
        if p == q {
            assert(q.subrange(0, p.len() as int) =~= p);
        }
    }
    assert forall|z: PathSeq| #[trigger] a.contains_key(z) == b.contains_key(z) && (a.contains_key(z) ==> a[z] == b[z]) by {
        if z == p {
            assert(!on_the_way(z, q)) by {
                if on_the_way(z, q) {
                    assert(prefix_of(p, q));
                }
            }
            assert(!strictly_extends(z, q)) by {
                if strictly_extends(z, q) {
                    assert(prefix_of(q, p));
                }
            }
        }
        if z == q {
            assert(!on_the_way(z, p)) by {
                if on_the_way(z, p) {
                    assert(prefix_of(q, p));
                }
            }
            assert(!strictly_extends(z, p)) by {
                if strictly_extends(z, p) {
                    assert(prefix_of(p, q));
                }
            }
        }
        if on_the_way(z, p) {
            assert(!strictly_extends(z, q)) by {
                if strictly_extends(z, q) {
                    assert(p.subrange(0, q.len() as int) =~= z.subrange(0, q.len() as int));
                    assert(prefix_of(q, p));
                }
            }
        }
        if on_the_way(z, q) {
            assert(!strictly_extends(z, p)) by {
                if strictly_extends(z, p) {
                    assert(q.subrange(0, p.len() as int) =~= z.subrange(0, p.len() as int));
                    assert(prefix_of(p, q));
                }
            }
        }
    }
    assert(a =~= b);
}

/// The paths shown after adding each file of `files` in turn to an empty
/// tree; an empty path adds nothing.
pub open spec fn obs_build(files: Seq<(PathSeq, Shown)>) -> Map<PathSeq, Shown>
    decreases files.len(),
{
    if files.len() == 0 {
        Map::empty()
    } else if files.last().0.len() == 0 {
        obs_build(files.drop_last())
    } else {
        obs_add(obs_build(files.drop_last()), files.last().0, files.last().1)
    }
}

/// No two paths of `files` lie on or below one another, and none is empty.
pub open spec fn independent(files: Seq<(PathSeq, Shown)>) -> bool {
    &&& forall|i: int| 0 <= i < files.len() ==> (#[trigger] files[i]).0.len() >= 1
    &&& forall|i: int, j: int|
        0 <= i < files.len() && 0 <= j < files.len() && i != j ==> unrelated(
            (#[trigger] files[i]).0,
            (#[trigger] files[j]).0,
        )
}

proof fn lemma_move_last(a: Seq<(PathSeq, Shown)>, y: (PathSeq, Shown), b: Seq<(PathSeq, Shown)>)
    requires
        y.0.len() >= 1,
        forall|i: int| 0 <= i < b.len() ==> (#[trigger] b[i]).0.len() >= 1 && unrelated(y.0, b[i].0),
    ensures
        obs_build(a.push(y) + b) == obs_build((a + b).push(y)),
    decreases b.len(),
{
    if b.len() == 0 {
        assert(a.push(y) + b =~= a.push(y));
        assert((a + b).push(y) =~= a.push(y));
    } else {
        let b1 = b.drop_last();
        let z = b.last();
        lemma_move_last(a, y, b1);
        assert(z.0.len() >= 1 && unrelated(y.0, z.0)) by {
            assert(b[b.len() - 1] == z);
        }
        assert((a.push(y) + b).drop_last() =~= a.push(y) + b1);
        assert((a.push(y) + b).last() == z);
        assert((a + b).push(y).drop_last() =~= (a + b1).push(z));
        assert((a + b1).push(z).drop_last() =~= a + b1);
        assert((a + b1).push(y).drop_last() =~= a + b1);
        assert((a + b1).push(z) =~= a + b);
        lemma_obs_commute(obs_build(a + b1), y.0, y.1, z.0, z.1);
        assert(obs_build(a.push(y) + b) == obs_add(obs_build(a.push(y) + b1), z.0, z.1));
        assert(obs_build((a + b1).push(y)) == obs_add(obs_build(a + b1), y.0, y.1));
        assert(obs_build((a + b1).push(z)) == obs_add(obs_build(a + b1), z.0, z.1));
        assert(obs_build((a + b).push(y)) == obs_add(obs_build(a + b), y.0, y.1));
    }
}

proof fn lemma_independent_remove(s: Seq<(PathSeq, Shown)>, k: int)
    requires
        independent(s),
        0 <= k < s.len(),
    ensures
        independent(s.remove(k)),
{
    let r = s.remove(k);
    assert forall|i: int| 0 <= i < r.len() implies (#[trigger] r[i]).0.len() >= 1 by {
        if i >= k {
            assert(r[i] == s[i + 1]);
        }
    }
    assert forall|i: int, j: int| 0 <= i < r.len() && 0 <= j < r.len() && i != j implies unrelated((#[trigger] r[i]).0, (#[trigger] r[j]).0) by {
        let i2 = if i < k { i } else { i + 1 };
        let j2 = if j < k { j } else { j + 1 };
        assert(r[i] == s[i2]);
        assert(r[j] == s[j2]);
    }
}

/// Adding the same independent files in any order shows the same paths.
pub proof fn lemma_obs_build_permutation(s1: Seq<(PathSeq, Shown)>, s2: Seq<(PathSeq, Shown)>)
    requires
        independent(s1),
        independent(s2),
        s1.to_multiset() == s2.to_multiset(),
    ensures
        obs_build(s1) == obs_build(s2),
    decreases s2.len(),
{
    broadcast use vstd::seq_lib::group_to_multiset_ensures;

    if s2.len() == 0 {
        assert(s1.len() == 0) by {
            vstd::seq_lib::to_multiset_len(s1);
            vstd::seq_lib::to_multiset_len(s2);
        }
        return;
    }
    let y = s2.last();
    let s2a = s2.drop_last();
    assert(s2 =~= s2a.push(y));
    assert(s2.to_multiset().count(y) > 0) by {
        vstd::seq_lib::to_multiset_contains(s2, y);
        assert(s2.contains(y)) by { assert(s2[s2.len() - 1] == y); }
    }
    assert(s1.contains(y)) by {
        vstd::seq_lib::to_multiset_contains(s1, y);
    }
    let k = choose|k: int| 0 <= k < s1.len() && s1[k] == y;
    let s1a = s1.remove(k);
    let pre = s1.subrange(0, k);
    let post = s1.subrange(k + 1, s1.len() as int);
    assert(s1 =~= pre.push(y) + post);
    assert(s1a =~= pre + post);
    assert forall|i: int| 0 <= i < post.len() implies (#[trigger] post[i]).0.len() >= 1 && unrelated(y.0, post[i].0) by {
        assert(post[i] == s1[k + 1 + i]);
    }
    assert(y.0.len() >= 1) by { assert(s1[k] == y); }
    lemma_move_last(pre, y, post);
    lemma_independent_remove(s1, k);
    lemma_independent_remove(s2, s2.len() - 1);
    assert(s2.remove(s2.len() - 1) =~= s2a);
    vstd::seq_lib::to_multiset_remove(s1, k);
    vstd::seq_lib::to_multiset_remove(s2, s2.len() - 1);
    lemma_obs_build_permutation(s1a, s2a);
    assert((pre + post).push(y).drop_last() =~= s1a);
    assert(s2.drop_last() =~= s2a);
}

/// The files a list of (components, identifier, mode) triples stands for.
pub open spec fn files_view(files: Seq<(Vec<Vec<u8>>, Oid, u32)>) -> Seq<(PathSeq, Shown)> {
    files.map_values(|f: (Vec<Vec<u8>>, Oid, u32)| (path_from(f.0@, 0), Shown::File(f.1@, f.2)))
}

/// The tree builder yields the same root bytes and identifier for the same
/// set of files, whatever order they were added in, where no file's path lies on
/// or below another's.
pub proof fn lemma_root_id_order_free(t1: Tree, t2: Tree, s1: Seq<(PathSeq, Shown)>, s2: Seq<(PathSeq, Shown)>)
    requires
        t1.wf(),
        t2.wf(),
        t1.shown() == obs_build(s1),
        t2.shown() == obs_build(s2),
        independent(s1),
        independent(s2),
        s1.to_multiset() == s2.to_multiset(),
    ensures
        t1.body() == t2.body(),
        t1.id() == t2.id(),
{
    lemma_obs_build_permutation(s1, s2);
    assert forall|p: PathSeq| #[trigger] t1.lookup(p) == t2.lookup(p) by {
        assert(t1.shown().contains_key(p) == t2.shown().contains_key(p));
        if t1.lookup(p) is Some {
            assert(t1.shown()[p] == t2.shown()[p]);
        }
    }
    t1.lemma_canonical(t2);
}

impl Tree {
    /// Every level's names are strictly increasing in lexical byte order.
    pub open spec fn wf(self) -> bool
        decreases self,
    {
        &&& forall|i: int, j: int|
            0 <= i < j < self.entries.len() ==> lex_lt(
                #[trigger] self.entries[i].name@,
                #[trigger] self.entries[j].name@,
            )
        &&& forall|i: int|
            0 <= i < self.entries.len() ==> match #[trigger] self.entries[i].node {
                TreeNode::Branch(sub) => sub.wf(),
                TreeNode::Leaf(..) => true,
            }
    }

    /// The body of the first `n` entries, each nested tree standing as its
    /// identifier.
    pub open spec fn body_upto(self, n: int) -> Seq<u8>
        decreases self, n,
    {
        if n <= 0 || n > self.entries.len() {
            Seq::empty()
        } else {
            let e = self.entries[n - 1];
            self.body_upto(n - 1) + entry_line(
                node_mode(e.node),
                e.name@,
                match e.node {
                    TreeNode::Leaf(o, _) => o@,
                    TreeNode::Branch(sub) => sha1_of(
                        framed(ObjectKind::Tree, sub.body_upto(sub.entries.len() as int)),
                    ),
                },
            )
        }
    }

    /// The tree's serialized body: its entries in order.
    pub open spec fn body(self) -> Seq<u8> {
        self.body_upto(self.entries_len() as int)
    }

    pub open spec fn entries_len(self) -> nat {
        self.entries@.len()
    }

    /// The tree's identifier.
    pub open spec fn id(self) -> Seq<u8> {
        sha1_of(framed(ObjectKind::Tree, self.body()))
    }


    /// What the tree shows at path `p`.
    pub open spec fn lookup(self, p: PathSeq) -> Option<Shown>
        decreases p.len(), 0int,
    {
        if p.len() == 0 || !has_name(self.entries@, p[0]) {
            None
        } else {
            node_lookup(node_named(self.entries@, p[0]), p.drop_first())
        }
    }

    /// Every path the tree shows, and what it shows there.
    pub open spec fn shown(self) -> Map<PathSeq, Shown> {
        Map::new(|p: PathSeq| self.lookup(p) is Some, |p: PathSeq| self.lookup(p)->Some_0)
    }

    /// Where `name` is, or where it would go to keep the names sorted.
    fn locate(&self, name: &Vec<u8>) -> (r: (bool, usize))
        requires
            self.wf(),
        ensures
            r.0 ==> r.1 < self.entries@.len() && self.entries@[r.1 as int].name@ == name@,
            !r.0 ==> r.1 <= self.entries@.len() && !has_name(self.entries@, name@) && (forall|j: int|
                0 <= j < r.1 ==> lex_lt(#[trigger] self.entries@[j].name@, name@)) && (forall|j: int|
                r.1 <= j < self.entries@.len() ==> lex_lt(name@, #[trigger] self.entries@[j].name@)),
    {
        let mut j: usize = 0;
        while j < self.entries.len() && lex_less(self.entries[j].name.as_slice(), name.as_slice())
            invariant
                self.wf(),
                0 <= j <= self.entries@.len(),
                forall|k: int| 0 <= k < j ==> lex_lt(#[trigger] self.entries@[k].name@, name@),
            decreases self.entries@.len() - j,
        {
            j = j + 1;
        }
        if j < self.entries.len() && bytes_eq(self.entries[j].name.as_slice(), name.as_slice()) {
            return (true, j);
        }
        proof {
            if j < self.entries@.len() {
                lemma_lex_total(self.entries@[j as int].name@, name@);
                assert forall|k: int| j <= k < self.entries@.len() implies lex_lt(name@, #[trigger] self.entries@[k].name@) by {
                    if k > j {
                        lemma_lex_transitive(name@, self.entries@[j as int].name@, self.entries@[k].name@);
                    }
                }
            }
            if has_name(self.entries@, name@) {
                let k = choose|k: int| 0 <= k < self.entries@.len() && (#[trigger] self.entries@[k]).name@ == name@;
                lemma_lex_total(name@, name@);
            }
        }
        (false, j)
    }


    fn add_entry_rec(&mut self, comps: &Vec<Vec<u8>>, i: usize, oid: Oid, mode: u32)
        requires
            old(self).wf(),
            i < comps@.len(),
        ensures
            final(self).wf(),
            final(self).shown() == obs_add(
                old(self).shown(),
                path_from(comps@, i as int),
                Shown::File(oid@, mode),
            ),
        decreases comps@.len() - i,
    {
        let ghost t0 = *self;
        let ghost p = path_from(comps@, i as int);
        let ghost x = Shown::File(oid@, mode);
        let ghost n = comps@[i as int]@;
        let ghost r = p.drop_first();
        proof {
            self.lemma_wf_distinct();
            assert(p[0] == n);
            assert(p =~= seq![n] + r);
            t0.lemma_no_empty();
        }
        let (found, pos) = self.locate(&comps[i]);
        let mut name: Vec<u8> = Vec::new();
        crate::bytes::append(&mut name, comps[i].as_slice());
        if i == comps.len() - 1 {
            let e = TreeEntry { name, node: TreeNode::Leaf(oid, mode) };
            if found {
                self.entries.set(pos, e);
                proof {
                    lemma_update_elsewhere(t0.entries@, pos as int, e);
                }
            } else {
                self.entries.insert(pos, e);
                proof {
                    self.lemma_insert_sorted(t0, pos as int, e);
                    lemma_insert_elsewhere(t0.entries@, pos as int, e);
                }
            }
            proof {
                let t2 = *self;
                assert(t2.entries@[pos as int] == e);
                lemma_pick(t2.entries@, n, pos as int);
                t2.lemma_child_view(n, e.node);
                t0.lemma_other_view(t2, n);
                assert(r.len() == 0);
                assert(!blocked(t0.shown(), p));
                let o = obs_add(t0.shown(), p, x);
                assert forall|q: PathSeq| #[trigger] t2.shown().contains_key(q) == o.contains_key(q) && (t2.shown().contains_key(q) ==> t2.shown()[q] == o[q]) by {
                    if q.len() >= 1 && q[0] == n {
                        let q1 = q.drop_first();
                        assert(q =~= seq![n] + q1);
                        if q1.len() > 0 {
                            assert(strictly_extends(q, p)) by {
                                assert(q.subrange(0, 1) =~= p);
                            }
                        }
                    } else if q.len() >= 1 {
                        assert(!strictly_extends(q, p)) by {
                            if strictly_extends(q, p) {
                                assert(q.subrange(0, 1)[0] == q[0]);
                            }
                        }
                    }
                }
                assert(t2.shown() =~= o);
                self.lemma_wf_after_leaf(t0, pos as int, e, found);
            }
            return;
        }
        if found {
            let old_e = self.entries.remove(pos);
            let TreeEntry { name: old_name, node } = old_e;
            let ghost es_mid = self.entries@;
            match node {
                TreeNode::Leaf(o, m) => {
                    self.entries.insert(pos, TreeEntry { name: old_name, node: TreeNode::Leaf(o, m) });
                    proof {
                        assert(self.entries@ =~= t0.entries@);
                        lemma_pick(t0.entries@, n, pos as int);
                        t0.lemma_child_view(n, TreeNode::Leaf(o, m));
                        assert(p.subrange(0, 1) =~= seq![n]);
                        assert(t0.lookup(seq![n] + Seq::<Seq<u8>>::empty()) is Some);
                        assert(seq![n] + Seq::<Seq<u8>>::empty() =~= seq![n]);
                        assert(t0.shown().contains_key(p.subrange(0, 1)));
                        assert(blocked(t0.shown(), p));
                    }
                    return;
                },
                TreeNode::Branch(sub) => {
                    let mut sub = sub;
                    proof {
                        lemma_pick(t0.entries@, n, pos as int);
                        assert(t0.entries@[pos as int].node == TreeNode::Branch(sub));
                        assert(sub.wf());
                        assert(path_from(comps@, i + 1) =~= r);
                    }
                    let ghost sub0 = sub;
                    sub.add_entry_rec(comps, i + 1, oid, mode);
                    let e = TreeEntry { name: old_name, node: TreeNode::Branch(sub) };
                    self.entries.insert(pos, e);
                    proof {
                        assert(self.entries@ =~= t0.entries@.update(pos as int, e));
                        lemma_update_elsewhere(t0.entries@, pos as int, e);
                        self.lemma_wf_after_branch(t0, pos as int, e);
                        self.lemma_add_below(t0, n, r, x, sub0, sub, pos as int);
                    }
                    return;
                },
            }
        }
        let mut sub = Tree::new();
        proof {
            assert(path_from(comps@, i + 1) =~= r);
        }
        let ghost sub0 = sub;
        sub.add_entry_rec(comps, i + 1, oid, mode);
        let e = TreeEntry { name, node: TreeNode::Branch(sub) };
        self.entries.insert(pos, e);
        proof {
            self.lemma_insert_sorted(t0, pos as int, e);
            lemma_insert_elsewhere(t0.entries@, pos as int, e);
            self.lemma_wf_after_new_branch(t0, pos as int, e);
            self.lemma_add_below(t0, n, r, x, sub0, sub, pos as int);
        }
    }


    /// Adds the file at the path made of `components` (each one name, no
    /// separators) with content `oid` and raw permission bits `mode`. The
    /// directories on the way are created as needed; a file or directory
    /// already at the path is replaced. Where a file stands on the way,
    /// nothing changes. No components: nothing changes.
    pub fn add_entry(&mut self, components: &Vec<Vec<u8>>, oid: Oid, mode: u32)
        requires
            old(self).wf(),
        ensures
            final(self).wf(),
            components@.len() == 0 ==> final(self).shown() == old(self).shown(),
            components@.len() > 0 ==> final(self).shown() == obs_add(
                old(self).shown(),
                path_from(components@, 0),
                Shown::File(oid@, mode),
            ),
    {
        if components.len() == 0 {
            return;
        }
        self.add_entry_rec(components, 0, oid, mode);
    }

    /// What the tree shows at `path`.
    pub fn shows(&self, path: &Vec<Vec<u8>>) -> (r: Option<(Option<Oid>, u32)>)
        requires
            self.wf(),
        ensures
            r matches None ==> self.lookup(path_from(path@, 0)) is None,
            r matches Some((Some(o), m)) ==> self.lookup(path_from(path@, 0)) == Some(Shown::File(o@, m)),
            r matches Some((None, _)) ==> self.lookup(path_from(path@, 0)) == Some(Shown::Dir),
    {
        self.shows_from(path, 0)
    }

    fn shows_from(&self, path: &Vec<Vec<u8>>, i: usize) -> (r: Option<(Option<Oid>, u32)>)
        requires
            self.wf(),
            i <= path@.len(),
        ensures
            r matches None ==> self.lookup(path_from(path@, i as int)) is None,
            r matches Some((Some(o), m)) ==> self.lookup(path_from(path@, i as int)) == Some(Shown::File(o@, m)),
            r matches Some((None, _)) ==> self.lookup(path_from(path@, i as int)) == Some(Shown::Dir),
        decreases path@.len() - i,
    {
        let ghost p = path_from(path@, i as int);
        if i == path.len() {
            return None;
        }
        let mut k: usize = 0;
        assert(k == 0);
        while k < self.entries.len() && !bytes_eq(self.entries[k].name.as_slice(), path[i].as_slice())
            invariant
                i < path@.len(),
                0 <= k <= self.entries@.len(),
                forall|j: int| 0 <= j < k ==> (#[trigger] self.entries@[j]).name@ != path@[i as int]@,
            decreases self.entries@.len() - k,
        {
            k = k + 1;
        }
        proof {
            assert(p[0] == path@[i as int]@);
            assert(p.drop_first() =~= path_from(path@, i + 1));
        }
        if k == self.entries.len() {
            return None;
        }
        proof {
            self.lemma_wf_distinct();
            lemma_pick(self.entries@, p[0], k as int);
        }
        match &self.entries[k].node {
            TreeNode::Leaf(o, m) => if i + 1 == path.len() {
                Some((Some(*o), *m))
            } else {
                None
            },
            TreeNode::Branch(sub) => if i + 1 == path.len() {
                Some((None, 0))
            } else {
                assert(sub.wf());
                sub.shows_from(path, i + 1)
            },
        }
    }


    /// The tree of `files`: each (components, identifier, raw mode) added in
    /// turn to an empty tree.
    pub fn from_files(files: &Vec<(Vec<Vec<u8>>, Oid, u32)>) -> (r: Tree)
        ensures
            r.wf(),
            r.shown() == obs_build(files_view(files@)),
    {
        let mut t = Tree::new();
        let ghost fv = files_view(files@);
        proof {
            assert(fv.subrange(0, 0) =~= Seq::<(PathSeq, Shown)>::empty());
        }
        let mut i: usize = 0;
        while i < files.len()
            invariant
                fv == files_view(files@),
                0 <= i <= files@.len(),
                t.wf(),
                t.shown() == obs_build(fv.subrange(0, i as int)),
            decreases files@.len() - i,
        {
            let f = &files[i];
            t.add_entry(&f.0, f.1, f.2);
            proof {
                assert(fv.subrange(0, i + 1).drop_last() =~= fv.subrange(0, i as int));
                assert(fv.subrange(0, i + 1).last() == fv[i as int]);
                assert(fv[i as int] == (path_from(files@[i as int].0@, 0), Shown::File(files@[i as int].1@, files@[i as int].2)));
                assert(path_from(files@[i as int].0@, 0).len() == files@[i as int].0@.len());
            }
            i = i + 1;
        }
        proof {
            assert(fv.subrange(0, files@.len() as int) =~= fv);
        }
        t
    }

    /// An empty tree.
    pub fn new() -> (r: Tree)
        ensures
            r.wf(),
            r.entries_len() == 0,
            r.shown() == Map::<PathSeq, Shown>::empty(),
    {
        let r = Tree { entries: Vec::new() };
        proof {
            assert forall|p: PathSeq| !(#[trigger] r.shown().contains_key(p)) by {
                if p.len() > 0 {
                    assert(!has_name(r.entries@, p[0]));
                }
            }
            assert(r.shown() =~= Map::<PathSeq, Shown>::empty());
        }
        r
    }

    /// The tree's serialized body: for each entry in name order, its mode
    /// text, a space, its name, a NUL and the 20-byte identifier (a nested
    /// tree's own identifier for a directory).
    pub fn to_bytes(&self) -> (r: Vec<u8>)
        ensures
            r@ == self.body(),
        decreases self,
    {
        let mut body: Vec<u8> = Vec::new();
        let mut i: usize = 0;
        while i < self.entries.len()
            invariant
                0 <= i <= self.entries@.len(),
                body@ == self.body_upto(i as int),
            decreases self.entries@.len() - i,
        {
            let e = &self.entries[i];
            let (id, mode) = match &e.node {
                TreeNode::Leaf(o, raw) => (*o, if *raw & 0o111 != 0 {
                    MODE_EXECUTABLE
                } else {
                    MODE
                }),
                TreeNode::Branch(sub) => {
                    assert(decreases_to!(*self => *sub));
                    let sub_body = sub.to_bytes();
                    (Oid::new(frame(ObjectKind::Tree, sub_body.as_slice()).as_slice()), MODE_DIR)
                },
            };
            push_decimal(&mut body, mode);
            body.push(32u8);
            append(&mut body, e.name.as_slice());
            body.push(0u8);
            append(&mut body, id.as_bytes().as_slice());
            i = i + 1;
            assert(body@ =~= self.body_upto(i as int));
        }
        body
    }

    /// The bodies of the nested trees under the first `n` entries, each
    /// nested tree after the trees nested in it.
    pub open spec fn nested_upto(self, n: int) -> Seq<Seq<u8>>
        decreases self, n,
    {
        if n <= 0 || n > self.entries.len() {
            Seq::empty()
        } else {
            self.nested_upto(n - 1) + match self.entries[n - 1].node {
                TreeNode::Branch(sub) => sub.nested_upto(sub.entries.len() as int).push(
                    sub.body_upto(sub.entries.len() as int),
                ),
                TreeNode::Leaf(..) => Seq::empty(),
            }
        }
    }

    /// The bodies of every tree object that persisting this tree writes, in
    /// order: each nested tree after its own nested trees, this tree last.
    pub open spec fn persisted(self) -> Seq<Seq<u8>> {
        self.nested_upto(self.entries_len() as int).push(self.body())
    }

    /// Persists the tree bottom-up: every nested tree first, each level after
    /// its children, and this tree last. One write per tree object is
    /// appended to `out`, in the order of `persisted`; the last one is this
    /// tree's, and its identifier is returned.
    pub fn traverse(&self, db: &Db, out: &mut Vec<ObjectWrite>) -> (r: Result<Oid, StoreError>)
        ensures
            r is Ok,
            final(out)@.len() == old(out)@.len() + self.persisted().len(),
            final(out)@.subrange(0, old(out)@.len() as int) == old(out)@,
            forall|k: int|
                0 <= k < self.persisted().len() ==> object_write_of(
                    #[trigger] final(out)@[old(out)@.len() + k],
                    ObjectKind::Tree,
                    self.persisted()[k],
                ),
            r matches Ok(o) ==> o@ == self.id() && final(out)@.last().oid == o,
        decreases self,
    {
        let ghost start = out@;
        let mut body: Vec<u8> = Vec::new();
        let mut i: usize = 0;
        while i < self.entries.len()
            invariant
                0 <= i <= self.entries@.len(),
                body@ == self.body_upto(i as int),
                out@.len() == start.len() + self.nested_upto(i as int).len(),
                out@.subrange(0, start.len() as int) == start,
                forall|k: int|
                    0 <= k < self.nested_upto(i as int).len() ==> object_write_of(
                        #[trigger] out@[start.len() + k],
                        ObjectKind::Tree,
                        self.nested_upto(i as int)[k],
                    ),
            decreases self.entries@.len() - i,
        {
            let e = &self.entries[i];
            let ghost before = out@;
            let id = match &e.node {
                TreeNode::Leaf(o, _) => *o,
                TreeNode::Branch(sub) => {
                    assert(decreases_to!(*self => *sub));
                    let o = match sub.traverse(db, out) {
                        Ok(o) => o,
                        Err(x) => {
                            return Err(x);
                        },
                    };
                    assert(out@.subrange(0, start.len() as int) =~= before.subrange(0, start.len() as int));
                    o
                },
            };
            let mode: u64 = match &e.node {
                TreeNode::Leaf(_, raw) => if *raw & 0o111 != 0 {
                    MODE_EXECUTABLE
                } else {
                    MODE
                },
                TreeNode::Branch(_) => MODE_DIR,
            };
            push_decimal(&mut body, mode);
            body.push(32u8);
            append(&mut body, e.name.as_slice());
            body.push(0u8);
            append(&mut body, id.as_bytes().as_slice());
            proof {
                let prev = self.nested_upto(i as int);
                let next = self.nested_upto(i + 1);
                assert forall|k: int| 0 <= k < next.len() implies object_write_of(
                    #[trigger] out@[start.len() + k],
                    ObjectKind::Tree,
                    next[k],
                ) by {
                    if k < prev.len() {
                        assert(out@[start.len() + k] == before[start.len() + k]);
                    } else {
                        match self.entries@[i as int].node {
                            TreeNode::Branch(sub) => {
                                assert(sub.persisted() == sub.nested_upto(sub.entries.len() as int).push(
                                    sub.body_upto(sub.entries.len() as int),
                                ));
                                assert(next[k] == sub.persisted()[k - prev.len()]);
                                assert(out@[start.len() + k] == out@[before.len() + (k - prev.len())]);
                            },
                            TreeNode::Leaf(..) => {},
                        }
                    }
                }
            }
            i = i + 1;
            assert(body@ =~= self.body_upto(i as int));
        }
        let w = match db.store(ObjectKind::Tree, body.as_slice()) {
            Ok(w) => w,
            Err(x) => {
                return Err(x);
            },
        };
        let oid = w.oid;
        let ghost before = out@;
        out.push(w);
        proof {
            assert(out@.subrange(0, start.len() as int) =~= start);
            assert forall|k: int| 0 <= k < self.persisted().len() implies object_write_of(
                #[trigger] out@[start.len() + k],
                ObjectKind::Tree,
                self.persisted()[k],
            ) by {
                if k < self.nested_upto(self.entries_len() as int).len() {
                    assert(out@[start.len() + k] == before[start.len() + k]);
                }
            }
        }
        Ok(oid)
    }
}

} // verus!
