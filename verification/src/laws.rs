//! The traversal's global properties, stated and proved over the
//! mathematical model.

use crate::render::{decimal, lemma_decimal_digits, lemma_decimal_injective};
use crate::traverse::{
    array_lines, array_step, flat_lines, leaf_text, line_of, object_lines, object_step, root_path,
    Traverser,
};
use crate::value::Node;
use vstd::prelude::*;

verus! {

/// The number of leaves in the subtree `n`: nulls, booleans, numbers and
/// strings, at any depth. Containers themselves never count.
pub open spec fn leaf_count(n: Node) -> nat
    decreases n, 0nat,
{
    match n {
        Node::Array(cs) => array_leaf_count(cs, 0),
        Node::Object(fs) => object_leaf_count(fs, 0),
        _ => 1,
    }
}

/// The leaves in an array's elements from index `k` on.
pub open spec fn array_leaf_count(cs: Seq<Node>, k: int) -> nat
    decreases cs, cs.len() - k,
{
    if k < 0 || k >= cs.len() {
        0
    } else {
        leaf_count(cs[k]) + array_leaf_count(cs, k + 1)
    }
}

/// The leaves in an object's members from entry `k` on.
pub open spec fn object_leaf_count(fs: Seq<(Seq<char>, Node)>, k: int) -> nat
    decreases fs, fs.len() - k,
{
    if k < 0 || k >= fs.len() {
        0
    } else {
        leaf_count(fs[k].1) + object_leaf_count(fs, k + 1)
    }
}

/// One line per leaf: whatever the path and however deep the nesting, the
/// flattening of a tree has exactly as many lines as the tree has leaves;
/// empty containers contribute nothing.
pub proof fn lemma_leaf_count(n: Node, p: Seq<char>)
    ensures
        flat_lines(n, p).len() == leaf_count(n),
    decreases n, 0nat,
{
    match n {
        Node::Array(cs) => {
            lemma_array_leaf_count(cs, p, 0);
        },
        Node::Object(fs) => {
            lemma_object_leaf_count(fs, p, 0);
        },
        _ => {},
    }
}

proof fn lemma_array_leaf_count(cs: Seq<Node>, p: Seq<char>, k: int)
    ensures
        array_lines(cs, p, k).len() == array_leaf_count(cs, k),
    decreases cs, cs.len() - k,
{
    if 0 <= k < cs.len() {
        lemma_leaf_count(cs[k], array_step(p, k));
        lemma_array_leaf_count(cs, p, k + 1);
    }
}

proof fn lemma_object_leaf_count(fs: Seq<(Seq<char>, Node)>, p: Seq<char>, k: int)
    ensures
        object_lines(fs, p, k).len() == object_leaf_count(fs, k),
    decreases fs, fs.len() - k,
{
    if 0 <= k < fs.len() {
        lemma_leaf_count(fs[k].1, object_step(p, fs[k].0));
        lemma_object_leaf_count(fs, p, k + 1);
    }
}

/// A full drain emits exactly one line per leaf: a traverser owes as many
/// lines as its tree has leaves.
pub proof fn lemma_traverser_leaf_count(t: &Traverser)
    ensures
        t.lines().len() == leaf_count(t.root()),
{
    lemma_leaf_count(t.root(), root_path());
}

/// Document order over an array: the lines of the first `k` elements form
/// exactly the initial segment of the array's lines, so every leaf inside an
/// earlier element is emitted before every leaf inside a later one.
pub proof fn lemma_array_document_order(cs: Seq<Node>, p: Seq<char>, k: int)
    requires
        0 <= k <= cs.len(),
    ensures
        flat_lines(Node::Array(cs), p) == flat_lines(Node::Array(cs.take(k)), p) + array_lines(
            cs,
            p,
            k,
        ),
    decreases k,
{
    lemma_array_lines_split(cs, p, 0, k);
}

proof fn lemma_array_lines_split(cs: Seq<Node>, p: Seq<char>, j: int, k: int)
    requires
        0 <= j <= k <= cs.len(),
    ensures
        array_lines(cs, p, j) == array_lines(cs.take(k), p, j) + array_lines(cs, p, k),
    decreases k - j,
{
    if j == k {
        assert(array_lines(cs.take(k), p, j) == Seq::<Seq<char>>::empty());
        assert(array_lines(cs, p, j) =~= array_lines(cs.take(k), p, j) + array_lines(cs, p, k));
    } else {
        lemma_array_lines_split(cs, p, j + 1, k);
        assert(cs.take(k)[j] == cs[j]);
        assert(array_lines(cs, p, j) =~= array_lines(cs.take(k), p, j) + array_lines(cs, p, k));
    }
}

/// Document order over an object: the lines of the first `k` members form
/// exactly the initial segment of the object's lines, so every leaf inside an
/// earlier member is emitted before every leaf inside a later one.
pub proof fn lemma_object_document_order(fs: Seq<(Seq<char>, Node)>, p: Seq<char>, k: int)
    requires
        0 <= k <= fs.len(),
    ensures
        flat_lines(Node::Object(fs), p) == flat_lines(Node::Object(fs.take(k)), p) + object_lines(
            fs,
            p,
            k,
        ),
    decreases k,
{
    lemma_object_lines_split(fs, p, 0, k);
}

proof fn lemma_object_lines_split(fs: Seq<(Seq<char>, Node)>, p: Seq<char>, j: int, k: int)
    requires
        0 <= j <= k <= fs.len(),
    ensures
        object_lines(fs, p, j) == object_lines(fs.take(k), p, j) + object_lines(fs, p, k),
    decreases k - j,
{
    if j == k {
        assert(object_lines(fs.take(k), p, j) == Seq::<Seq<char>>::empty());
        assert(object_lines(fs, p, j) =~= object_lines(fs.take(k), p, j) + object_lines(fs, p, k));
    } else {
        lemma_object_lines_split(fs, p, j + 1, k);
        assert(fs.take(k)[j] == fs[j]);
        assert(object_lines(fs, p, j) =~= object_lines(fs.take(k), p, j) + object_lines(fs, p, k));
    }
}

/// The path component of each emitted line, in emission order: the same
/// walk as `flat_lines`, recording for every leaf the path before `: `
/// instead of the whole line.
pub open spec fn flat_paths(n: Node, p: Seq<char>) -> Seq<Seq<char>>
    decreases n, 0nat,
{
    match n {
        Node::Array(cs) => array_paths(cs, p, 0),
        Node::Object(fs) => object_paths(fs, p, 0),
        _ => seq![p],
    }
}

/// The leaf paths of an array's elements from index `k` on.
pub open spec fn array_paths(cs: Seq<Node>, p: Seq<char>, k: int) -> Seq<Seq<char>>
    decreases cs, cs.len() - k,
{
    if k < 0 || k >= cs.len() {
        Seq::empty()
    } else {
        flat_paths(cs[k], array_step(p, k)) + array_paths(cs, p, k + 1)
    }
}

/// The leaf paths of an object's members from entry `k` on.
pub open spec fn object_paths(fs: Seq<(Seq<char>, Node)>, p: Seq<char>, k: int) -> Seq<Seq<char>>
    decreases fs, fs.len() - k,
{
    if k < 0 || k >= fs.len() {
        Seq::empty()
    } else {
        flat_paths(fs[k].1, object_step(p, fs[k].0)) + object_paths(fs, p, k + 1)
    }
}

/// A key that keeps paths unambiguous: it contains neither the member dot
/// nor the index bracket, the two characters that open a path step.
pub open spec fn key_ok(k: Seq<char>) -> bool {
    forall|i: int| 0 <= i < k.len() ==> (#[trigger] k[i]) != '.' && k[i] != '['
}

/// Whether every object in the tree has pairwise distinct keys, all of them
/// free of path metacharacters. On such trees every leaf path is unique.
pub open spec fn clean(n: Node) -> bool
    decreases n, 0nat,
{
    match n {
        Node::Array(cs) => array_clean(cs, 0),
        Node::Object(fs) => distinct_keys(fs) && object_clean(fs, 0),
        _ => true,
    }
}

/// Pairwise distinct keys within one object.
pub open spec fn distinct_keys(fs: Seq<(Seq<char>, Node)>) -> bool {
    forall|i: int, j: int| 0 <= i < j < fs.len() ==> fs[i].0 != fs[j].0
}

/// `clean` over an array's elements from index `k` on.
pub open spec fn array_clean(cs: Seq<Node>, k: int) -> bool
    decreases cs, cs.len() - k,
{
    k < 0 || k >= cs.len() || (clean(cs[k]) && array_clean(cs, k + 1))
}

/// `clean` keys and subtrees over an object's members from entry `k` on.
pub open spec fn object_clean(fs: Seq<(Seq<char>, Node)>, k: int) -> bool
    decreases fs, fs.len() - k,
{
    k < 0 || k >= fs.len() || (key_ok(fs[k].0) && clean(fs[k].1) && object_clean(fs, k + 1))
}

proof fn lemma_object_clean_all(fs: Seq<(Seq<char>, Node)>, k: int)
    requires
        0 <= k,
        object_clean(fs, k),
    ensures
        forall|m: int| k <= m < fs.len() ==> key_ok(#[trigger] fs[m].0),
    decreases fs.len() - k,
{
    if 0 <= k < fs.len() {
        lemma_object_clean_all(fs, k + 1);
    }
}

/// `q` stays inside the location named by `p`: it starts with `p`, and if it
/// goes on at all, it goes on with a path step, never by altering the last
/// component of `p` itself.
pub open spec fn extends(q: Seq<char>, p: Seq<char>) -> bool {
    &&& q.len() >= p.len()
    &&& q.take(p.len() as int) == p
    &&& (q.len() == p.len() || q[p.len() as int] == '.' || q[p.len() as int] == '[')
}

proof fn lemma_extends_index(q: Seq<char>, r: Seq<char>, x: int)
    requires
        extends(q, r),
        0 <= x < r.len(),
    ensures
        q[x] == r[x],
{
    assert(q.take(r.len() as int)[x] == q[x]);
}

proof fn lemma_extends_prepend(q: Seq<char>, p: Seq<char>, s: Seq<char>)
    requires
        extends(q, p + s),
        s.len() > 0,
        s[0] == '.' || s[0] == '[',
    ensures
        extends(q, p),
{
    assert forall|i: int| 0 <= i < p.len() + s.len() implies q[i] == (p + s)[i] by {
        lemma_extends_index(q, p + s, i);
    }
    assert(q.take(p.len() as int) =~= p);
    assert(q[p.len() as int] == (p + s)[p.len() as int]);
    assert((p + s)[p.len() as int] == s[0]);
}

proof fn lemma_array_steps_diverge(p: Seq<char>, i: int, j: int, q1: Seq<char>, q2: Seq<char>)
    requires
        0 <= i,
        0 <= j,
        i != j,
        extends(q1, array_step(p, i)),
        extends(q2, array_step(p, j)),
    ensures
        q1 != q2,
{
    let a = decimal(i as nat);
    let b = decimal(j as nat);
    let s1 = seq!['['] + a + seq![']'];
    let s2 = seq!['['] + b + seq![']'];
    assert(array_step(p, i) =~= p + s1);
    assert(array_step(p, j) =~= p + s2);
    lemma_decimal_digits(i as nat);
    lemma_decimal_digits(j as nat);
    if a == b {
        lemma_decimal_injective(i as nat, j as nat);
    }
    let min_len = if a.len() <= b.len() { a.len() as int } else { b.len() as int };
    let d: int = if exists|m: int| 0 <= m < min_len && a[m] != b[m] {
        1 + choose|m: int| 0 <= m < min_len && a[m] != b[m]
    } else if a.len() < b.len() {
        1 + a.len() as int
    } else {
        1 + b.len() as int
    };
    if !(exists|m: int| 0 <= m < min_len && a[m] != b[m]) && a.len() == b.len() {
        assert(a =~= b);
    }
    assert(0 < d < s1.len() && d < s2.len() && s1[d] != s2[d]);
    let pos = p.len() as int + d;
    lemma_extends_index(q1, p + s1, pos);
    lemma_extends_index(q2, p + s2, pos);
    assert(q1[pos] == s1[d] && q2[pos] == s2[d]);
}

proof fn lemma_object_steps_diverge(
    p: Seq<char>,
    k1: Seq<char>,
    k2: Seq<char>,
    q1: Seq<char>,
    q2: Seq<char>,
)
    requires
        k1 != k2,
        key_ok(k1),
        key_ok(k2),
        extends(q1, object_step(p, k1)),
        extends(q2, object_step(p, k2)),
    ensures
        q1 != q2,
{
    let s1 = seq!['.'] + k1;
    let s2 = seq!['.'] + k2;
    assert(object_step(p, k1) =~= p + s1);
    assert(object_step(p, k2) =~= p + s2);
    let min_len = if k1.len() <= k2.len() { k1.len() as int } else { k2.len() as int };
    if exists|m: int| 0 <= m < min_len && k1[m] != k2[m] {
        let d = 1 + choose|m: int| 0 <= m < min_len && k1[m] != k2[m];
        let pos = p.len() as int + d;
        lemma_extends_index(q1, p + s1, pos);
        lemma_extends_index(q2, p + s2, pos);
        assert(q1[pos] != q2[pos]);
    } else if k1.len() == k2.len() {
        assert(k1 =~= k2);
    } else if k1.len() < k2.len() {
        let pos = p.len() as int + s1.len() as int;
        assert(q2[pos] == s2[pos - p.len()]) by {
            lemma_extends_index(q2, p + s2, pos);
        }
        assert(q2[pos] == k2[k1.len() as int]);
        assert(q2[pos] != '.' && q2[pos] != '[');
        assert(q2.len() > pos);
        if q1.len() == pos {
            assert(q1.len() != q2.len());
        } else {
            assert(q1[pos] == '.' || q1[pos] == '[');
        }
    } else {
        let pos = p.len() as int + s2.len() as int;
        assert(q1[pos] == s1[pos - p.len()]) by {
            lemma_extends_index(q1, p + s1, pos);
        }
        assert(q1[pos] == k1[k2.len() as int]);
        assert(q1[pos] != '.' && q1[pos] != '[');
        assert(q1.len() > pos);
        if q2.len() == pos {
            assert(q1.len() != q2.len());
        } else {
            assert(q2[pos] == '.' || q2[pos] == '[');
        }
    }
}

/// Path uniqueness: over a tree whose object keys are pairwise distinct and
/// free of the path metacharacters `.` and `[`, no two emitted lines carry
/// the same path. Every emitted path also stays inside the location `p` of
/// the subtree it came from.
pub proof fn lemma_path_uniqueness(n: Node, p: Seq<char>)
    requires
        clean(n),
    ensures
        forall|i: int| 0 <= i < flat_paths(n, p).len() ==> extends(
            #[trigger] flat_paths(n, p)[i],
            p,
        ),
        forall|i: int, j: int| 0 <= i < j < flat_paths(n, p).len() ==> flat_paths(n, p)[i]
            != flat_paths(n, p)[j],
    decreases n, 0nat,
{
    match n {
        Node::Array(cs) => {
            lemma_array_paths_unique(cs, p, 0);
            assert(flat_paths(n, p) == array_paths(cs, p, 0));
            assert forall|i: int| 0 <= i < flat_paths(n, p).len() implies extends(
                flat_paths(n, p)[i],
                p,
            ) by {
                let q = array_paths(cs, p, 0)[i];
                assert(flat_paths(n, p)[i] == q);
                let m = choose|m: int| 0 <= m < cs.len() && extends(q, array_step(p, m));
                let s = seq!['['] + decimal(m as nat) + seq![']'];
                assert(array_step(p, m) =~= p + s);
                lemma_extends_prepend(q, p, s);
            }
            assert forall|i: int, j: int| 0 <= i < j < flat_paths(n, p).len() implies flat_paths(
                n,
                p,
            )[i] != flat_paths(n, p)[j] by {
                assert(flat_paths(n, p)[i] == array_paths(cs, p, 0)[i]);
                assert(flat_paths(n, p)[j] == array_paths(cs, p, 0)[j]);
            }
        },
        Node::Object(fs) => {
            lemma_object_paths_unique(fs, p, 0);
            assert(flat_paths(n, p) == object_paths(fs, p, 0));
            assert forall|i: int| 0 <= i < flat_paths(n, p).len() implies extends(
                flat_paths(n, p)[i],
                p,
            ) by {
                let q = object_paths(fs, p, 0)[i];
                assert(flat_paths(n, p)[i] == q);
                let m = choose|m: int|
                    0 <= m < fs.len() && extends(q, object_step(p, fs[m].0));
                let s = seq!['.'] + fs[m].0;
                assert(object_step(p, fs[m].0) =~= p + s);
                lemma_extends_prepend(q, p, s);
            }
            assert forall|i: int, j: int| 0 <= i < j < flat_paths(n, p).len() implies flat_paths(
                n,
                p,
            )[i] != flat_paths(n, p)[j] by {
                assert(flat_paths(n, p)[i] == object_paths(fs, p, 0)[i]);
                assert(flat_paths(n, p)[j] == object_paths(fs, p, 0)[j]);
            }
        },
        _ => {
            assert(p.take(p.len() as int) =~= p);
        },
    }
}

proof fn lemma_array_paths_unique(cs: Seq<Node>, p: Seq<char>, k: int)
    requires
        array_clean(cs, k),
    ensures
        forall|x: int| 0 <= x < array_paths(cs, p, k).len() ==> exists|m: int|
            k <= m < cs.len() && extends(#[trigger] array_paths(cs, p, k)[x], array_step(p, m)),
        forall|x: int, y: int| 0 <= x < y < array_paths(cs, p, k).len() ==> array_paths(
            cs,
            p,
            k,
        )[x] != array_paths(cs, p, k)[y],
    decreases cs, cs.len() - k,
{
    if 0 <= k < cs.len() {
        lemma_path_uniqueness(cs[k], array_step(p, k));
        lemma_array_paths_unique(cs, p, k + 1);
        let a = flat_paths(cs[k], array_step(p, k));
        let b = array_paths(cs, p, k + 1);
        assert(array_paths(cs, p, k) == a + b);
        assert forall|x: int| 0 <= x < array_paths(cs, p, k).len() implies exists|m: int|
            k <= m < cs.len() && extends(
                #[trigger] array_paths(cs, p, k)[x],
                array_step(p, m),
            ) by {
            if x < a.len() {
                assert(array_paths(cs, p, k)[x] == a[x]);
                assert(k <= k < cs.len() && extends(array_paths(cs, p, k)[x], array_step(p, k)));
            } else {
                assert(array_paths(cs, p, k)[x] == b[x - a.len()]);
                let m = choose|m: int|
                    k + 1 <= m < cs.len() && extends(b[x - a.len()], array_step(p, m));
                assert(k <= m < cs.len() && extends(array_paths(cs, p, k)[x], array_step(p, m)));
            }
        }
        assert forall|x: int, y: int| 0 <= x < y < array_paths(cs, p, k).len() implies array_paths(
            cs,
            p,
            k,
        )[x] != array_paths(cs, p, k)[y] by {
            if y < a.len() {
                assert(array_paths(cs, p, k)[x] == a[x] && array_paths(cs, p, k)[y] == a[y]);
            } else if x >= a.len() {
                assert(array_paths(cs, p, k)[x] == b[x - a.len()] && array_paths(cs, p, k)[y]
                    == b[y - a.len()]);
            } else {
                let q1 = a[x];
                let q2 = b[y - a.len()];
                assert(array_paths(cs, p, k)[x] == q1 && array_paths(cs, p, k)[y] == q2);
                assert(extends(q1, array_step(p, k)));
                let m = choose|m: int| k + 1 <= m < cs.len() && extends(q2, array_step(p, m));
                lemma_array_steps_diverge(p, k, m, q1, q2);
            }
        }
    }
}

proof fn lemma_object_paths_unique(fs: Seq<(Seq<char>, Node)>, p: Seq<char>, k: int)
    requires
        distinct_keys(fs),
        object_clean(fs, k),
    ensures
        forall|x: int| 0 <= x < object_paths(fs, p, k).len() ==> exists|m: int|
            k <= m < fs.len() && extends(
                #[trigger] object_paths(fs, p, k)[x],
                object_step(p, fs[m].0),
            ),
        forall|x: int, y: int| 0 <= x < y < object_paths(fs, p, k).len() ==> object_paths(
            fs,
            p,
            k,
        )[x] != object_paths(fs, p, k)[y],
    decreases fs, fs.len() - k,
{
    if 0 <= k < fs.len() {
        lemma_path_uniqueness(fs[k].1, object_step(p, fs[k].0));
        lemma_object_paths_unique(fs, p, k + 1);
        lemma_object_clean_all(fs, k);
        let a = flat_paths(fs[k].1, object_step(p, fs[k].0));
        let b = object_paths(fs, p, k + 1);
        assert(object_paths(fs, p, k) == a + b);
        assert forall|x: int| 0 <= x < object_paths(fs, p, k).len() implies exists|m: int|
            k <= m < fs.len() && extends(
                #[trigger] object_paths(fs, p, k)[x],
                object_step(p, fs[m].0),
            ) by {
            if x < a.len() {
                assert(object_paths(fs, p, k)[x] == a[x]);
                assert(k <= k < fs.len() && extends(
                    object_paths(fs, p, k)[x],
                    object_step(p, fs[k].0),
                ));
            } else {
                assert(object_paths(fs, p, k)[x] == b[x - a.len()]);
                let m = choose|m: int|
                    k + 1 <= m < fs.len() && extends(b[x - a.len()], object_step(p, fs[m].0));
                assert(k <= m < fs.len() && extends(
                    object_paths(fs, p, k)[x],
                    object_step(p, fs[m].0),
                ));
            }
        }
        assert forall|x: int, y: int| 0 <= x < y < object_paths(fs, p, k).len() implies
            object_paths(fs, p, k)[x] != object_paths(fs, p, k)[y] by {
            if y < a.len() {
                assert(object_paths(fs, p, k)[x] == a[x] && object_paths(fs, p, k)[y] == a[y]);
            } else if x >= a.len() {
                assert(object_paths(fs, p, k)[x] == b[x - a.len()] && object_paths(fs, p, k)[y]
                    == b[y - a.len()]);
            } else {
                let q1 = a[x];
                let q2 = b[y - a.len()];
                assert(object_paths(fs, p, k)[x] == q1 && object_paths(fs, p, k)[y] == q2);
                assert(extends(q1, object_step(p, fs[k].0)));
                let m = choose|m: int|
                    k + 1 <= m < fs.len() && extends(q2, object_step(p, fs[m].0));
                assert(fs[k].0 != fs[m].0);
                lemma_object_steps_diverge(p, fs[k].0, fs[m].0, q1, q2);
            }
        }
    }
}

/// Every emitted line is its path, then `: `, then a rendered value:
/// `flat_paths` lists exactly the path prefixes of `flat_lines`, in the same
/// order, so path uniqueness speaks about the lines the traverser hands out.
pub proof fn lemma_lines_carry_paths(n: Node, p: Seq<char>)
    ensures
        flat_paths(n, p).len() == flat_lines(n, p).len(),
        forall|i: int| 0 <= i < flat_lines(n, p).len() ==> #[trigger] flat_lines(n, p)[i]
            == flat_paths(n, p)[i] + seq![':', ' '] + flat_lines(n, p)[i].skip(
            flat_paths(n, p)[i].len() as int + 2,
        ),
    decreases n, 0nat,
{
    match n {
        Node::Array(cs) => {
            lemma_array_lines_carry_paths(cs, p, 0);
            assert(flat_lines(n, p) == array_lines(cs, p, 0));
            assert(flat_paths(n, p) == array_paths(cs, p, 0));
            assert forall|i: int| 0 <= i < flat_lines(n, p).len() implies #[trigger] flat_lines(
                n,
                p,
            )[i] == flat_paths(n, p)[i] + seq![':', ' '] + flat_lines(n, p)[i].skip(
                flat_paths(n, p)[i].len() as int + 2,
            ) by {
                assert(flat_lines(n, p)[i] == array_lines(cs, p, 0)[i]);
                assert(flat_paths(n, p)[i] == array_paths(cs, p, 0)[i]);
            }
        },
        Node::Object(fs) => {
            lemma_object_lines_carry_paths(fs, p, 0);
            assert(flat_lines(n, p) == object_lines(fs, p, 0));
            assert(flat_paths(n, p) == object_paths(fs, p, 0));
            assert forall|i: int| 0 <= i < flat_lines(n, p).len() implies #[trigger] flat_lines(
                n,
                p,
            )[i] == flat_paths(n, p)[i] + seq![':', ' '] + flat_lines(n, p)[i].skip(
                flat_paths(n, p)[i].len() as int + 2,
            ) by {
                assert(flat_lines(n, p)[i] == object_lines(fs, p, 0)[i]);
                assert(flat_paths(n, p)[i] == object_paths(fs, p, 0)[i]);
            }
        },
        _ => {
            let line = line_of(p, n);
            assert(flat_lines(n, p)[0] == line);
            assert(flat_paths(n, p)[0] == p);
            assert(line.skip(p.len() as int + 2) =~= leaf_text(n));
            assert(line == p + seq![':', ' '] + leaf_text(n));
        },
    }
}

proof fn lemma_array_lines_carry_paths(cs: Seq<Node>, p: Seq<char>, k: int)
    ensures
        array_paths(cs, p, k).len() == array_lines(cs, p, k).len(),
        forall|i: int| 0 <= i < array_lines(cs, p, k).len() ==> #[trigger] array_lines(cs, p, k)[i]
            == array_paths(cs, p, k)[i] + seq![':', ' '] + array_lines(cs, p, k)[i].skip(
            array_paths(cs, p, k)[i].len() as int + 2,
        ),
    decreases cs, cs.len() - k,
{
    if 0 <= k < cs.len() {
        lemma_lines_carry_paths(cs[k], array_step(p, k));
        lemma_array_lines_carry_paths(cs, p, k + 1);
        let la = flat_lines(cs[k], array_step(p, k));
        let lb = array_lines(cs, p, k + 1);
        let pa = flat_paths(cs[k], array_step(p, k));
        let pb = array_paths(cs, p, k + 1);
        assert(array_lines(cs, p, k) == la + lb);
        assert(array_paths(cs, p, k) == pa + pb);
        assert forall|i: int| 0 <= i < array_lines(cs, p, k).len() implies #[trigger] array_lines(
            cs,
            p,
            k,
        )[i] == array_paths(cs, p, k)[i] + seq![':', ' '] + array_lines(cs, p, k)[i].skip(
            array_paths(cs, p, k)[i].len() as int + 2,
        ) by {
            if i < la.len() {
                assert(array_lines(cs, p, k)[i] == la[i]);
                assert(array_paths(cs, p, k)[i] == pa[i]);
            } else {
                assert(array_lines(cs, p, k)[i] == lb[i - la.len()]);
                assert(array_paths(cs, p, k)[i] == pb[i - la.len()]);
            }
        }
    }
}

proof fn lemma_object_lines_carry_paths(fs: Seq<(Seq<char>, Node)>, p: Seq<char>, k: int)
    ensures
        object_paths(fs, p, k).len() == object_lines(fs, p, k).len(),
        forall|i: int| 0 <= i < object_lines(fs, p, k).len() ==> #[trigger] object_lines(
            fs,
            p,
            k,
        )[i] == object_paths(fs, p, k)[i] + seq![':', ' '] + object_lines(fs, p, k)[i].skip(
            object_paths(fs, p, k)[i].len() as int + 2,
        ),
    decreases fs, fs.len() - k,
{
    if 0 <= k < fs.len() {
        lemma_lines_carry_paths(fs[k].1, object_step(p, fs[k].0));
        lemma_object_lines_carry_paths(fs, p, k + 1);
        let la = flat_lines(fs[k].1, object_step(p, fs[k].0));
        let lb = object_lines(fs, p, k + 1);
        let pa = flat_paths(fs[k].1, object_step(p, fs[k].0));
        let pb = object_paths(fs, p, k + 1);
        assert(object_lines(fs, p, k) == la + lb);
        assert(object_paths(fs, p, k) == pa + pb);
        assert forall|i: int| 0 <= i < object_lines(fs, p, k).len() implies #[trigger] object_lines(
            fs,
            p,
            k,
        )[i] == object_paths(fs, p, k)[i] + seq![':', ' '] + object_lines(fs, p, k)[i].skip(
            object_paths(fs, p, k)[i].len() as int + 2,
        ) by {
            if i < la.len() {
                assert(object_lines(fs, p, k)[i] == la[i]);
                assert(object_paths(fs, p, k)[i] == pa[i]);
            } else {
                assert(object_lines(fs, p, k)[i] == lb[i - la.len()]);
                assert(object_paths(fs, p, k)[i] == pb[i - la.len()]);
            }
        }
    }
}

/// Re-traversal is idempotent: two traversers over the same tree owe the very
/// same line sequence, so draining a fresh traverser over a root repeats any
/// earlier drain line for line.
pub proof fn lemma_retraversal(a: &Traverser, b: &Traverser)
    requires
        a.root() == b.root(),
    ensures
        a.lines() == b.lines(),
{
}

} // verus!
