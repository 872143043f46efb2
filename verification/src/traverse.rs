//! The flattening traversal: a lazy, depth-first walk that emits one line per
//! leaf, in document order.

use crate::render::{
    chars_of, copy_chars, decimal, push_decimal, push_quoted, push_seq, quoted, string_from_chars,
};
use crate::value::{entries_of, lemma_entries_of, lemma_nodes_of, node_of, nodes_of, Node, Value};
use vstd::prelude::*;

verus! {

/// The path of the tree's root: the literal marker `$`.
pub open spec fn root_path() -> Seq<char> {
    seq!['$']
}

/// The path of an array element: the parent's path followed by the element's
/// index in brackets.
pub open spec fn array_step(p: Seq<char>, i: int) -> Seq<char> {
    p + seq!['['] + decimal(i as nat) + seq![']']
}

/// The path of an object member: the parent's path, a dot, and the member's
/// key, unescaped.
pub open spec fn object_step(p: Seq<char>, key: Seq<char>) -> Seq<char> {
    p + seq!['.'] + key
}

/// How a leaf appears after `: ` on its line: `null`, a boolean literal, the
/// number's canonical text, or a quoted and escaped string literal.
/// Containers never appear as rendered values.
pub open spec fn leaf_text(n: Node) -> Seq<char> {
    match n {
        Node::Null => seq!['n', 'u', 'l', 'l'],
        Node::Bool(b) => if b {
            seq!['t', 'r', 'u', 'e']
        } else {
            seq!['f', 'a', 'l', 's', 'e']
        },
        Node::Number(t) => t,
        Node::String(s) => quoted(s),
        Node::Array(_) => Seq::empty(),
        Node::Object(_) => Seq::empty(),
    }
}

/// The full emitted line for a leaf `n` reached at path `p`.
pub open spec fn line_of(p: Seq<char>, n: Node) -> Seq<char> {
    p + seq![':', ' '] + leaf_text(n)
}

/// All lines emitted for the subtree `n` reached at path `p`, in document
/// order: one line per leaf, each leaf preceded by every leaf to its left.
pub open spec fn flat_lines(n: Node, p: Seq<char>) -> Seq<Seq<char>>
    decreases n, 0nat,
{
    match n {
        Node::Array(cs) => array_lines(cs, p, 0),
        Node::Object(fs) => object_lines(fs, p, 0),
        _ => seq![line_of(p, n)],
    }
}

/// The lines of an array's elements from index `k` on.
pub open spec fn array_lines(cs: Seq<Node>, p: Seq<char>, k: int) -> Seq<Seq<char>>
    decreases cs, cs.len() - k,
{
    if k < 0 || k >= cs.len() {
        Seq::empty()
    } else {
        flat_lines(cs[k], array_step(p, k)) + array_lines(cs, p, k + 1)
    }
}

/// The lines of an object's members from entry `k` on.
pub open spec fn object_lines(fs: Seq<(Seq<char>, Node)>, p: Seq<char>, k: int) -> Seq<Seq<char>>
    decreases fs, fs.len() - k,
{
    if k < 0 || k >= fs.len() {
        Seq::empty()
    } else {
        flat_lines(fs[k].1, object_step(p, fs[k].0)) + object_lines(fs, p, k + 1)
    }
}

/// The lines still owed by a worklist: those of each pending subtree at its
/// pending path, the top of the stack first.
pub open spec fn stack_lines(st: Seq<(Vec<char>, Value)>) -> Seq<Seq<char>>
    decreases st.len(),
{
    if st.len() == 0 {
        Seq::empty()
    } else {
        flat_lines(st.last().1@, st.last().0@) + stack_lines(st.drop_last())
    }
}

/// The number of values in the subtree `n`, its root included: the measure
/// that shrinks whenever the walk trades a container for its children.
pub open spec fn node_size(n: Node) -> nat
    decreases n, 0nat,
{
    match n {
        Node::Array(cs) => 1 + nodes_size(cs, 0),
        Node::Object(fs) => 1 + entries_size(fs, 0),
        _ => 1,
    }
}

/// The total size of an array's elements from index `k` on.
pub open spec fn nodes_size(cs: Seq<Node>, k: int) -> nat
    decreases cs, cs.len() - k,
{
    if k < 0 || k >= cs.len() {
        0
    } else {
        node_size(cs[k]) + nodes_size(cs, k + 1)
    }
}

/// The total size of an object's members from entry `k` on.
pub open spec fn entries_size(fs: Seq<(Seq<char>, Node)>, k: int) -> nat
    decreases fs, fs.len() - k,
{
    if k < 0 || k >= fs.len() {
        0
    } else {
        node_size(fs[k].1) + entries_size(fs, k + 1)
    }
}

/// The total size of the subtrees a worklist still has to visit.
pub open spec fn stack_size(st: Seq<(Vec<char>, Value)>) -> nat
    decreases st.len(),
{
    if st.len() == 0 {
        0
    } else {
        node_size(st.last().1@) + stack_size(st.drop_last())
    }
}

/// Pushing a work item owes that item's lines before everything already
/// owed, and adds that item's subtree to the pending size.
proof fn lemma_stack_lines_push(st: Seq<(Vec<char>, Value)>, x: (Vec<char>, Value))
    ensures
        stack_lines(st.push(x)) == flat_lines(x.1@, x.0@) + stack_lines(st),
        stack_size(st.push(x)) == node_size(x.1@) + stack_size(st),
{
    assert(st.push(x).drop_last() =~= st);
    assert(st.push(x).last() == x);
}

/// When the transcript so far, one line, and a remainder make up the whole
/// flattening, that line is the next one owed.
proof fn lemma_next_line(
    produced: Seq<Seq<char>>,
    line: Seq<char>,
    rest: Seq<Seq<char>>,
    lines: Seq<Seq<char>>,
)
    requires
        produced + (seq![line] + rest) == lines,
    ensures
        produced.len() < lines.len(),
        lines[produced.len() as int] == line,
        produced.push(line) + rest == lines,
{
    assert(lines[produced.len() as int] == (seq![line] + rest)[0]);
    assert(produced.push(line) + rest =~= lines);
}

/// The flattening traverser: a pull-based walk over one value tree.
///
/// Between calls the pending work lives on an explicit stack of
/// (path, subtree) items, so the walk needs no recursion and its state is
/// exactly the current frontier.
pub struct Traverser {
    stack: Vec<(Vec<char>, Value)>,
    produced_lines: Ghost<Seq<Seq<char>>>,
    root: Ghost<Node>,
}

impl Traverser {
    /// The model of the tree this traverser walks.
    pub closed spec fn root(&self) -> Node {
        self.root@
    }

    /// Every line this traverser will ever emit, in order: the flattening of
    /// its tree from the root path `$`.
    pub open spec fn lines(&self) -> Seq<Seq<char>> {
        flat_lines(self.root(), root_path())
    }

    /// The lines emitted so far, in order.
    pub closed spec fn produced(&self) -> Seq<Seq<char>> {
        self.produced_lines@
    }

    /// The traverser's invariant: what was already produced, followed by what
    /// the worklist still owes, is exactly the flattening of the tree.
    pub closed spec fn wf(&self) -> bool {
        self.produced_lines@ + stack_lines(self.stack@) == self.lines()
    }

    /// Starts a traversal of `root`: nothing is emitted yet, and the whole
    /// tree is pending at path `$`.
    pub fn create(root: Value) -> (t: Traverser)
        ensures
            t.wf(),
            t.root() == root@,
            t.produced() == Seq::<Seq<char>>::empty(),
    {
        let ghost m = root@;
        let mut path: Vec<char> = Vec::new();
        path.push('$');
        let mut stack: Vec<(Vec<char>, Value)> = Vec::new();
        stack.push((path, root));
        let t = Traverser { stack, produced_lines: Ghost(Seq::empty()), root: Ghost(m) };
        proof {
            let st = t.stack@;
            assert(st.drop_last() =~= Seq::<(Vec<char>, Value)>::empty());
            assert(stack_lines(st.drop_last()) == Seq::<Seq<char>>::empty());
            assert(st.last().0@ =~= root_path());
            assert(st.last().1@ == m);
            assert(stack_lines(st) =~= flat_lines(m, root_path()));
            assert(t.produced_lines@ + stack_lines(st) =~= t.lines());
        }
        t
    }

    /// Advances the walk by one step: pops pending work until a leaf turns up,
    /// emits that leaf's line, and returns it; returns `None` exactly when
    /// every leaf has been emitted. Once `None` is returned, the traverser no
    /// longer changes, so every later call returns `None` again.
    pub fn produce_next(&mut self) -> (r: Option<String>)
        requires
            old(self).wf(),
        ensures
            final(self).wf(),
            final(self).root() == old(self).root(),
            ({
                let k = old(self).produced().len() as int;
                if k < old(self).lines().len() {
                    &&& r matches Some(line) && line@ == old(self).lines()[k]
                    &&& final(self).produced() == old(self).produced().push(old(self).lines()[k])
                } else {
                    &&& r is None
                    &&& final(self).produced() == old(self).produced()
                }
            }),
    {
        loop
            invariant
                self.produced_lines@ + stack_lines(self.stack@) == flat_lines(
                    self.root@,
                    root_path(),
                ),
                self.produced_lines@ == old(self).produced_lines@,
                self.root@ == old(self).root@,
            decreases stack_size(self.stack@),
        {
            let ghost prev = self.stack@;
            let top = self.stack.pop();
            match top {
                None => {
                    proof {
                        assert(stack_lines(self.stack@) == Seq::<Seq<char>>::empty());
                        assert(self.produced_lines@ =~= self.lines());
                    }
                    return None;
                },
                Some((mut path, v)) => {
                    let ghost p0 = path@;
                    let ghost n = v@;
                    let ghost rest = stack_lines(self.stack@);
                    let ghost size_rest = stack_size(self.stack@);
                    proof {
                        assert(prev.drop_last() =~= self.stack@);
                        assert(prev.last() == (path, v));
                        assert(stack_lines(prev) == flat_lines(n, p0) + rest);
                        assert(stack_size(prev) == node_size(n) + size_rest);
                    }
                    match v {
                        Value::Null => {
                            path.push(':');
                            path.push(' ');
                            path.push('n');
                            path.push('u');
                            path.push('l');
                            path.push('l');
                            proof {
                                assert(path@ =~= line_of(p0, n));
                            }
                            let out = string_from_chars(&path);
                            proof {
                                assert(self.produced_lines@ + (seq![path@] + rest) =~= flat_lines(
                                    self.root@,
                                    root_path(),
                                ));
                                lemma_next_line(
                                    self.produced_lines@,
                                    path@,
                                    rest,
                                    flat_lines(self.root@, root_path()),
                                );
                                self.produced_lines@ = self.produced_lines@.push(path@);
                            }
                            return Some(out);
                        },
                        Value::Bool(b) => {
                            path.push(':');
                            path.push(' ');
                            if b {
                                path.push('t');
                                path.push('r');
                                path.push('u');
                                path.push('e');
                            } else {
                                path.push('f');
                                path.push('a');
                                path.push('l');
                                path.push('s');
                                path.push('e');
                            }
                            proof {
                                assert(path@ =~= line_of(p0, n));
                            }
                            let out = string_from_chars(&path);
                            proof {
                                assert(self.produced_lines@ + (seq![path@] + rest) =~= flat_lines(
                                    self.root@,
                                    root_path(),
                                ));
                                lemma_next_line(
                                    self.produced_lines@,
                                    path@,
                                    rest,
                                    flat_lines(self.root@, root_path()),
                                );
                                self.produced_lines@ = self.produced_lines@.push(path@);
                            }
                            return Some(out);
                        },
                        Value::Number(t) => {
                            path.push(':');
                            path.push(' ');
                            let digits = chars_of(t.as_str());
                            push_seq(&mut path, &digits);
                            proof {
                                assert(path@ =~= line_of(p0, n));
                            }
                            let out = string_from_chars(&path);
                            proof {
                                assert(self.produced_lines@ + (seq![path@] + rest) =~= flat_lines(
                                    self.root@,
                                    root_path(),
                                ));
                                lemma_next_line(
                                    self.produced_lines@,
                                    path@,
                                    rest,
                                    flat_lines(self.root@, root_path()),
                                );
                                self.produced_lines@ = self.produced_lines@.push(path@);
                            }
                            return Some(out);
                        },
                        Value::String(s) => {
                            path.push(':');
                            path.push(' ');
                            let body = chars_of(s.as_str());
                            push_quoted(&mut path, &body);
                            proof {
                                assert(path@ =~= line_of(p0, n));
                            }
                            let out = string_from_chars(&path);
                            proof {
                                assert(self.produced_lines@ + (seq![path@] + rest) =~= flat_lines(
                                    self.root@,
                                    root_path(),
                                ));
                                lemma_next_line(
                                    self.produced_lines@,
                                    path@,
                                    rest,
                                    flat_lines(self.root@, root_path()),
                                );
                                self.produced_lines@ = self.produced_lines@.push(path@);
                            }
                            return Some(out);
                        },
                        Value::Array(mut vs) => {
                            let ghost vs0 = vs@;
                            let ghost cs = nodes_of(vs0);
                            proof {
                                lemma_nodes_of(vs0);
                                assert(n == Node::Array(cs));
                                assert(vs@ =~= vs0.take(vs@.len() as int));
                                assert(array_lines(cs, p0, vs0.len() as int)
                                    == Seq::<Seq<char>>::empty());
                                assert(nodes_size(cs, vs0.len() as int) == 0);
                            }
                            while vs.len() > 0
                                invariant
                                    vs@ == vs0.take(vs@.len() as int),
                                    cs == nodes_of(vs0),
                                    cs.len() == vs0.len(),
                                    forall|i: int|
                                        0 <= i < vs0.len() ==> cs[i] == node_of(vs0[i]),
                                    vs@.len() <= vs0.len(),
                                    path@ == p0,
                                    stack_lines(self.stack@) == array_lines(
                                        cs,
                                        p0,
                                        vs@.len() as int,
                                    ) + rest,
                                    stack_size(self.stack@) == nodes_size(
                                        cs,
                                        vs@.len() as int,
                                    ) + size_rest,
                                    self.produced_lines@ == old(self).produced_lines@,
                                    self.root@ == old(self).root@,
                                decreases vs@.len(),
                            {
                                let child = vs.pop().unwrap();
                                let idx = vs.len();
                                let mut cpath = copy_chars(&path);
                                cpath.push('[');
                                push_decimal(&mut cpath, idx);
                                cpath.push(']');
                                let ghost before = self.stack@;
                                proof {
                                    assert(cpath@ =~= array_step(p0, idx as int));
                                    assert(child == vs0[idx as int]);
                                    assert(vs@ =~= vs0.take(vs@.len() as int));
                                }
                                self.stack.push((cpath, child));
                                proof {
                                    lemma_stack_lines_push(before, (cpath, child));
                                    assert(stack_lines(self.stack@) =~= array_lines(
                                        cs,
                                        p0,
                                        idx as int,
                                    ) + rest);
                                    assert(stack_size(self.stack@) == nodes_size(
                                        cs,
                                        idx as int,
                                    ) + size_rest);
                                }
                            }
                            proof {
                                assert(stack_lines(self.stack@) == flat_lines(n, p0) + rest);
                                assert(stack_size(self.stack@) < stack_size(prev));
                            }
                        },
                        Value::Object(mut fs) => {
                            let ghost fs0 = fs@;
                            let ghost es = entries_of(fs0);
                            proof {
                                lemma_entries_of(fs0);
                                assert(n == Node::Object(es));
                                assert(fs@ =~= fs0.take(fs@.len() as int));
                                assert(object_lines(es, p0, fs0.len() as int)
                                    == Seq::<Seq<char>>::empty());
                                assert(entries_size(es, fs0.len() as int) == 0);
                            }
                            while fs.len() > 0
                                invariant
                                    fs@ == fs0.take(fs@.len() as int),
                                    es == entries_of(fs0),
                                    es.len() == fs0.len(),
                                    forall|i: int|
                                        0 <= i < fs0.len() ==> es[i] == (
                                            fs0[i].0@,
                                            node_of(fs0[i].1),
                                        ),
                                    fs@.len() <= fs0.len(),
                                    path@ == p0,
                                    stack_lines(self.stack@) == object_lines(
                                        es,
                                        p0,
                                        fs@.len() as int,
                                    ) + rest,
                                    stack_size(self.stack@) == entries_size(
                                        es,
                                        fs@.len() as int,
                                    ) + size_rest,
                                    self.produced_lines@ == old(self).produced_lines@,
                                    self.root@ == old(self).root@,
                                decreases fs@.len(),
                            {
                                let (key, child) = fs.pop().unwrap();
                                let idx = fs.len();
                                let mut cpath = copy_chars(&path);
                                cpath.push('.');
                                let keychars = chars_of(key.as_str());
                                push_seq(&mut cpath, &keychars);
                                let ghost before = self.stack@;
                                proof {
                                    assert((key, child) == fs0[idx as int]);
                                    assert(cpath@ =~= object_step(p0, es[idx as int].0));
                                    assert(fs@ =~= fs0.take(fs@.len() as int));
                                }
                                self.stack.push((cpath, child));
                                proof {
                                    lemma_stack_lines_push(before, (cpath, child));
                                    assert(stack_lines(self.stack@) =~= object_lines(
                                        es,
                                        p0,
                                        idx as int,
                                    ) + rest);
                                    assert(stack_size(self.stack@) == entries_size(
                                        es,
                                        idx as int,
                                    ) + size_rest);
                                }
                            }
                            proof {
                                assert(stack_lines(self.stack@) == flat_lines(n, p0) + rest);
                                assert(stack_size(self.stack@) < stack_size(prev));
                            }
                        },
                    }
                },
            }
        }
    }

}

} // verus!
