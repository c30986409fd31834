//! Depth-first ordering of acyclic graphs whose nodes are numbered so that every
//! operand has a smaller number than its user.
use vstd::prelude::*;

verus! {

/// A directed graph on `0..size`, given by the operands of each node.
pub trait Dag {
    /// How many nodes there are.
    spec fn spec_size(&self) -> nat;

    /// The operands of a node, in order.
    spec fn spec_operands(&self, id: int) -> Seq<u32>;

    /// What has to hold for the graph to be walked.
    spec fn spec_acyclic(&self) -> bool;

    fn dag_size(&self) -> (n: usize)
        requires
            self.spec_acyclic(),
        ensures
            n == self.spec_size(),
    ;

    fn dag_operands(&self, id: u32) -> (ops: Vec<u32>)
        requires
            self.spec_acyclic(),
            id < self.spec_size(),
        ensures
            ops@ == self.spec_operands(id as int),
    ;

    proof fn lemma_descends(&self)
        requires
            self.spec_acyclic(),
        ensures
            self.spec_size() <= u32::MAX + 1,
            forall|id: int, k: int|
                0 <= id < self.spec_size() && 0 <= k < self.spec_operands(id).len()
                    ==> #[trigger] self.spec_operands(id)[k] < id,
    ;
}

/// Is `s` one of the roots, or an operand of a node that is itself needed?
pub open spec fn needed<G: Dag>(g: &G, roots: Seq<u32>, s: int) -> bool
    decreases g.spec_size() - s,
{
    ||| exists|k: int| 0 <= k < roots.len() && #[trigger] roots[k] == s
    ||| exists|u: int|
        s < u < g.spec_size() && (#[trigger] g.spec_operands(u)).contains(s as u32) && needed(
            g,
            roots,
            u,
        )
}

/// `order` lists exactly the needed nodes, each once, operands before users.
pub open spec fn is_topo_order<G: Dag>(g: &G, roots: Seq<u32>, order: Seq<u32>) -> bool {
    &&& order.no_duplicates()
    &&& forall|i: int|
        0 <= i < order.len() ==> (#[trigger] order[i]) < g.spec_size() && needed(
            g,
            roots,
            order[i] as int,
        )
    &&& forall|s: u32| s < g.spec_size() && #[trigger] needed(g, roots, s as int) ==> order.contains(s)
    &&& forall|i: int, k: int|
        0 <= i < order.len() && 0 <= k < g.spec_operands(order[i] as int).len()
            ==> order.subrange(0, i).contains(
            #[trigger] g.spec_operands(order[i] as int)[k],
        )
}

/// The nodes that a depth-first walk has left once it has been to `s`, operands last
/// to first, having left `out` before.
pub open spec fn visited<G: Dag>(g: &G, s: u32, out: Seq<u32>) -> Seq<u32>
    decreases s, g.spec_operands(s as int).len() + 1,
{
    if out.contains(s) {
        out
    } else {
        operands_visited(g, s, g.spec_operands(s as int).len(), out).push(s)
    }
}

/// The same, once the walk has been to the first `n` operands of `s`.
pub open spec fn operands_visited<G: Dag>(g: &G, s: u32, n: nat, out: Seq<u32>) -> Seq<u32>
    decreases s, n,
{
    if n == 0 {
        out
    } else {
        let op = g.spec_operands(s as int)[n - 1];
        operands_visited(
            g,
            s,
            (n - 1) as nat,
            if op < s {
                visited(g, op, out)
            } else {
                out
            },
        )
    }
}

/// The nodes that a walk from the first `n` roots leaves, last root first.
pub open spec fn walked_from<G: Dag>(g: &G, roots: Seq<u32>, n: nat, out: Seq<u32>) -> Seq<u32>
    decreases n,
{
    if n == 0 {
        out
    } else {
        walked_from(g, roots, (n - 1) as nat, visited(g, roots[n - 1], out))
    }
}

/// The nodes needed from `roots`, in the order in which a depth-first walk leaves them.
pub open spec fn walked<G: Dag>(g: &G, roots: Seq<u32>) -> Seq<u32> {
    walked_from(g, roots, roots.len(), Seq::empty())
}

/// What a walk comes to that has left `out` and has `stack` to go.
spec fn finished<G: Dag>(g: &G, stack: Seq<(u32, bool)>, out: Seq<u32>) -> Seq<u32>
    decreases stack.len(),
{
    if stack.len() == 0 {
        out
    } else {
        let (s, expanded) = stack.last();
        finished(
            g,
            stack.drop_last(),
            if expanded {
                out.push(s)
            } else {
                visited(g, s, out)
            },
        )
    }
}

/// The first `n` operands that are not marked, to be visited.
spec fn unmarked(ops: Seq<u32>, seen: Seq<bool>, n: nat) -> Seq<(u32, bool)>
    decreases n,
{
    if n == 0 {
        Seq::empty()
    } else {
        let before = unmarked(ops, seen, (n - 1) as nat);
        if seen[ops[n - 1] as int] {
            before
        } else {
            before.push((ops[n - 1], false))
        }
    }
}

/// Visiting leaves what was left before.
proof fn lemma_visited_keeps<G: Dag>(g: &G, s: u32, out: Seq<u32>, x: u32)
    requires
        out.contains(x),
    ensures
        visited(g, s, out).contains(x),
    decreases s, g.spec_operands(s as int).len() + 1,
{
    if !out.contains(s) {
        let n = g.spec_operands(s as int).len();
        lemma_operands_keep(g, s, n, out, x);
        let before = operands_visited(g, s, n, out);
        let i = choose|i: int| 0 <= i < before.len() && before[i] == x;
        assert(before.push(s)[i] == x);
    }
}

proof fn lemma_operands_keep<G: Dag>(g: &G, s: u32, n: nat, out: Seq<u32>, x: u32)
    requires
        out.contains(x),
    ensures
        operands_visited(g, s, n, out).contains(x),
    decreases s, n,
{
    if n > 0 {
        let op = g.spec_operands(s as int)[n - 1];
        if op < s {
            lemma_visited_keeps(g, op, out, x);
            lemma_operands_keep(g, s, (n - 1) as nat, visited(g, op, out), x);
        } else {
            lemma_operands_keep(g, s, (n - 1) as nat, out, x);
        }
    }
}

/// Going through the operands that are not marked is going through all of them, where
/// the marked ones have been left.
proof fn lemma_through<G: Dag>(
    g: &G,
    base: Seq<(u32, bool)>,
    s: u32,
    seen: Seq<bool>,
    n: nat,
    out: Seq<u32>,
)
    requires
        n <= g.spec_operands(s as int).len(),
        forall|k: int| 0 <= k < g.spec_operands(s as int).len() ==> #[trigger] g.spec_operands(s as int)[k] < s,
        forall|k: int|
            0 <= k < g.spec_operands(s as int).len() && seen[(#[trigger] g.spec_operands(s as int)[k]) as int]
                ==> out.contains(g.spec_operands(s as int)[k]),
    ensures
        finished(g, base + unmarked(g.spec_operands(s as int), seen, n), out) == finished(
            g,
            base,
            operands_visited(g, s, n, out),
        ),
    decreases n,
{
    let ops = g.spec_operands(s as int);
    if n == 0 {
        assert(base + unmarked(ops, seen, 0) =~= base);
    } else {
        let op = ops[n - 1];
        let before = unmarked(ops, seen, (n - 1) as nat);
        assert(ops[n - 1] < s);
        if seen[op as int] {
            assert(out.contains(ops[n - 1]));
            assert(visited(g, op, out) == out);
            lemma_through(g, base, s, seen, (n - 1) as nat, out);
        } else {
            let next = visited(g, op, out);
            assert forall|k: int| 0 <= k < ops.len() && seen[(#[trigger] ops[k]) as int] implies next.contains(
                ops[k],
            ) by {
                lemma_visited_keeps(g, op, out, ops[k]);
            }
            lemma_through(g, base, s, seen, (n - 1) as nat, next);
            assert(operands_visited(g, s, n, out) == operands_visited(g, s, (n - 1) as nat, next));
            let all = base + unmarked(ops, seen, n);
            assert(all.drop_last() =~= base + before);
            assert(all.last() == (op, false));
        }
    }
}

/// What is to be visited from the roots.
proof fn lemma_from_roots<G: Dag>(g: &G, roots: Seq<u32>, stack: Seq<(u32, bool)>, n: nat, out: Seq<u32>)
    requires
        n <= roots.len(),
        stack.len() == n,
        forall|k: int| 0 <= k < n ==> #[trigger] stack[k] == (roots[k], false),
    ensures
        finished(g, stack, out) == walked_from(g, roots, n, out),
    decreases n,
{
    if n > 0 {
        assert(stack.last() == stack[n - 1]);
        lemma_from_roots(g, roots, stack.drop_last(), (n - 1) as nat, visited(g, roots[n - 1], out));
    }
}

/// An operand that is marked has been left, and so has a node that is marked and is at
/// the top of the stack.
proof fn lemma_marked_left<G: Dag>(
    g: &G,
    roots: Seq<u32>,
    seen: Seq<bool>,
    stack: Seq<(u32, bool)>,
    out: Seq<u32>,
    s: u32,
)
    requires
        walk_inv(g, roots, seen, stack, out),
        stack.len() > 0,
        !stack.last().1,
        s <= stack.last().0,
        s < seen.len(),
        seen[s as int],
    ensures
        out.contains(s),
{
    if !out.contains(s) {
        let p = choose|p: int| 0 <= p < stack.len() && stack[p] == (s, true);
        let top = stack.len() - 1;
        assert(stack[p].1);
        assert(p < top);
        assert(stack[top].0 < stack[p].0);
    }
}

/// Where a walk stands: a node is marked once it is expanded, that is once it is
/// in the output or waits on the stack to be output.
spec fn walk_inv<G: Dag>(
    g: &G,
    roots: Seq<u32>,
    seen: Seq<bool>,
    stack: Seq<(u32, bool)>,
    out: Seq<u32>,
) -> bool {
    &&& seen.len() == g.spec_size()
    &&& out.no_duplicates()
    &&& forall|i: int| 0 <= i < out.len() ==> (#[trigger] out[i]) < seen.len() && seen[out[i] as int]
    &&& forall|p: int|
        0 <= p < stack.len() ==> (#[trigger] stack[p]).0 < seen.len() && (stack[p].1
            ==> seen[stack[p].0 as int] && !out.contains(stack[p].0)) && needed(
            g,
            roots,
            stack[p].0 as int,
        )
    &&& forall|p: int, q: int|
        0 <= p < q < stack.len() && (#[trigger] stack[p]).1 ==> (#[trigger] stack[q]).0
            < stack[p].0
    &&& forall|s: int|
        0 <= s < seen.len() && #[trigger] seen[s] ==> needed(g, roots, s) && (out.contains(s as u32)
            || stack.contains((s as u32, true)))
    &&& forall|p: int, k: int|
        #![trigger stack[p], g.spec_operands(stack[p].0 as int)[k]]
        0 <= p < stack.len() && stack[p].1 && 0 <= k < g.spec_operands(stack[p].0 as int).len() ==> {
            let op = g.spec_operands(stack[p].0 as int)[k];
            out.contains(op) || pending_above(stack, p, op)
        }
    &&& forall|i: int, k: int|
        0 <= i < out.len() && 0 <= k < g.spec_operands(out[i] as int).len() ==> out.subrange(
            0,
            i,
        ).contains(#[trigger] g.spec_operands(out[i] as int)[k])
    &&& forall|k: int|
        0 <= k < roots.len() ==> out.contains(#[trigger] roots[k]) || pending_above(
            stack,
            -1,
            roots[k],
        )
}

spec fn pending_above(stack: Seq<(u32, bool)>, p: int, op: u32) -> bool {
    exists|q: int| p < q < stack.len() && (#[trigger] stack[q]).0 == op
}

/// How many entries are not marked.
pub open spec fn unseen(seen: Seq<bool>) -> nat
    decreases seen.len(),
{
    if seen.len() == 0 {
        0
    } else {
        unseen(seen.drop_last()) + if seen.last() {
            0nat
        } else {
            1nat
        }
    }
}

pub proof fn lemma_unseen_update(seen: Seq<bool>, i: int)
    requires
        0 <= i < seen.len(),
        !seen[i],
    ensures
        unseen(seen.update(i, true)) + 1 == unseen(seen),
    decreases seen.len(),
{
    let up = seen.update(i, true);
    if i == seen.len() - 1 {
        assert(up.drop_last() =~= seen.drop_last());
    } else {
        assert(up.drop_last() =~= seen.drop_last().update(i, true));
        lemma_unseen_update(seen.drop_last(), i);
    }
}

/// The nodes needed from `roots`, in the order in which a depth-first walk leaves
/// them. The walk keeps its own stack: graphs get deep enough that recursion is a
/// real risk.
pub fn topo_order<G: Dag>(g: &G, roots: &[u32]) -> (order: Vec<u32>)
    requires
        g.spec_acyclic(),
        forall|k: int| 0 <= k < roots@.len() ==> (#[trigger] roots@[k]) < g.spec_size(),
    ensures
        is_topo_order(g, roots@, order@),
        order@ == walked(g, roots@),
{
    let n: usize = g.dag_size();
    let mut seen: Vec<bool> = vec![false; n];
    let mut out: Vec<u32> = Vec::new();
    let mut stack: Vec<(u32, bool)> = Vec::new();
    for i in 0..roots.len()
        invariant
            stack@.len() == i,
            forall|k: int| 0 <= k < i ==> #[trigger] stack@[k] == (roots@[k], false),
    {
        stack.push((roots[i], false));
    }
    proof {
        assert forall|k: int| 0 <= k < roots@.len() implies pending_above(
            stack@,
            -1,
            #[trigger] roots@[k],
        ) by {
            assert(stack@[k].0 == roots@[k]);
        }
        assert(walk_inv(g, roots@, seen@, stack@, out@));
        assert(out@ =~= Seq::empty());
        lemma_from_roots(g, roots@, stack@, roots@.len(), out@);
    }
    while stack.len() > 0
        invariant
            g.spec_acyclic(),
            walk_inv(g, roots@, seen@, stack@, out@),
            finished(g, stack@, out@) == walked(g, roots@),
        decreases unseen(seen@), stack@.len(),
    {
        let ghost stack0 = stack@;
        let ghost seen0 = seen@;
        let ghost out0 = out@;
        proof {
            g.lemma_descends();
        }
        let (id, expanded) = stack.pop().unwrap();
        let ghost top = stack0.len() - 1;
        assert(stack0[top] == (id, expanded));
        assert(stack@ =~= stack0.drop_last());
        if expanded {
            out.push(id);
            proof {
                lemma_emit(g, roots@, seen0, stack0, out0, id);
                assert(stack0.drop_last() == stack@);
            }
            continue;
        }
        if seen[id as usize] {
            proof {
                lemma_marked_left(g, roots@, seen0, stack0, out0, id);
                lemma_skip(g, roots@, seen0, stack0, out0, id);
            }
            continue;
        }
        seen.set(id as usize, true);
        proof {
            lemma_unseen_update(seen0, id as int);
        }
        stack.push((id, true));
        let ops = g.dag_operands(id);
        let ghost base = stack@;
        assert(stack@ =~= base + unmarked(ops@, seen@, 0));
        for i in 0..ops.len()
            invariant
                seen@.len() == g.spec_size(),
                stack@ == base + unmarked(ops@, seen@, i as nat),
                ops@ == g.spec_operands(id as int),
                forall|k: int| 0 <= k < ops@.len() ==> (#[trigger] ops@[k]) < g.spec_size(),
                base.len() <= stack@.len(),
                stack@.subrange(0, base.len() as int) == base,
                forall|q: int|
                    base.len() <= q < stack@.len() ==> !(#[trigger] stack@[q]).1 && ops@.contains(
                        stack@[q].0,
                    ),
                forall|k: int|
                    0 <= k < i ==> seen@[(#[trigger] ops@[k]) as int] || pending_above(
                        stack@,
                        base.len() - 1,
                        ops@[k],
                    ),
        {
            let op: u32 = ops[i];
            let ghost before = stack@;
            if !seen[op as usize] {
                stack.push((op, false));
                proof {
                    assert(stack@ =~= base + unmarked(ops@, seen@, (i + 1) as nat));
                    assert(stack@[before.len() as int].0 == op);
                    assert(pending_above(stack@, base.len() - 1, op));
                    assert forall|k: int|
                        0 <= k < i && !seen@[(#[trigger] ops@[k]) as int] implies pending_above(
                        stack@,
                        base.len() - 1,
                        ops@[k],
                    ) by {
                        let q = choose|q: int|
                            base.len() - 1 < q < before.len() && (#[trigger] before[q]).0 == ops@[k];
                        assert(stack@[q] == before[q]);
                    }
                    assert(stack@.subrange(0, base.len() as int) =~= base);
                }
            }
        }
        proof {
            assert forall|k: int| 0 <= k < ops@.len() && seen@[(#[trigger] ops@[k]) as int] implies out@.contains(
                ops@[k],
            ) by {
                assert(ops@[k] < id);
                lemma_marked_left(g, roots@, seen0, stack0, out0, ops@[k]);
            }
            lemma_through(g, base, id, seen@, ops@.len(), out@);
            assert(base.drop_last() =~= stack0.drop_last());
            assert(!out@.contains(id)) by {
                if out@.contains(id) {
                    let i = choose|i: int| 0 <= i < out@.len() && out@[i] == id;
                    assert(seen0[out0[i] as int]);
                }
            }
            assert(finished(g, base, operands_visited(g, id, ops@.len(), out@)) == finished(
                g,
                base.drop_last(),
                visited(g, id, out@),
            ));
            lemma_expand(g, roots@, seen0, stack0, out0, id, stack@);
        }
    }
    proof {
        lemma_done(g, roots@, seen@, out@);
    }
    out
}

proof fn lemma_emit<G: Dag>(
    g: &G,
    roots: Seq<u32>,
    seen: Seq<bool>,
    stack: Seq<(u32, bool)>,
    out: Seq<u32>,
    id: u32,
)
    requires
        g.spec_acyclic(),
        walk_inv(g, roots, seen, stack, out),
        stack.len() > 0,
        stack.last() == (id, true),
    ensures
        walk_inv(g, roots, seen, stack.drop_last(), out.push(id)),
{
    let top = stack.len() - 1;
    let st = stack.drop_last();
    let ou = out.push(id);
    assert(stack[top] == (id, true));
    assert forall|s: u32| out.contains(s) implies ou.contains(s) by {
        let i = choose|i: int| 0 <= i < out.len() && out[i] == s;
        assert(ou[i] == s);
    }
    assert(ou[out.len() as int] == id);
    assert(ou.contains(id));
    assert forall|p: int| 0 <= p < st.len() && (#[trigger] st[p]).1 implies !ou.contains(st[p].0) by {
        assert(stack[p] == st[p]);
        assert(stack[top].0 < stack[p].0);
    }
    assert forall|p: int, op: u32| p >= -1 && pending_above(stack, p, op) implies op == id
        || pending_above(st, p, op) by {
        let q = choose|q: int| p < q < stack.len() && (#[trigger] stack[q]).0 == op;
        if q < top {
            assert(st[q] == stack[q]);
        }
    }
    assert forall|s: int| 0 <= s < seen.len() && #[trigger] seen[s] implies (ou.contains(s as u32)
        || st.contains((s as u32, true))) by {
        if !out.contains(s as u32) {
            let p = choose|p: int| 0 <= p < stack.len() && stack[p] == (s as u32, true);
            if p < top {
                assert(st[p] == stack[p]);
            }
        }
    }
    assert forall|p: int, k: int|
        #![trigger st[p], g.spec_operands(st[p].0 as int)[k]]
        0 <= p < st.len() && st[p].1 && 0 <= k < g.spec_operands(st[p].0 as int).len() implies ({
        let op = g.spec_operands(st[p].0 as int)[k];
        ou.contains(op) || pending_above(st, p, op)
    }) by {
        assert(stack[p] == st[p]);
        let op = g.spec_operands(stack[p].0 as int)[k];
        assert(out.contains(op) || pending_above(stack, p, op));
    }
    assert forall|i: int, k: int|
        0 <= i < ou.len() && 0 <= k < g.spec_operands(ou[i] as int).len() implies ou.subrange(
        0,
        i,
    ).contains(#[trigger] g.spec_operands(ou[i] as int)[k]) by {
        let op = g.spec_operands(ou[i] as int)[k];
        if i < out.len() {
            assert(ou[i] == out[i]);
            assert(ou.subrange(0, i) =~= out.subrange(0, i));
            assert(out.subrange(0, i).contains(g.spec_operands(out[i] as int)[k]));
        } else {
            assert(ou.subrange(0, i) =~= out);
            assert(stack[top].0 == id);
            assert(g.spec_operands(stack[top].0 as int)[k] == op);
            assert(!pending_above(stack, top, op));
        }
    }
    assert forall|k: int| 0 <= k < roots.len() implies ou.contains(#[trigger] roots[k])
        || pending_above(st, -1, roots[k]) by {
        assert(out.contains(roots[k]) || pending_above(stack, -1, roots[k]));
    }
    assert(st.len() == top);
    assert forall|p: int, q: int|
        0 <= p < q < st.len() && (#[trigger] st[p]).1 implies (#[trigger] st[q]).0 < st[p].0 by {
        assert(stack[p] == st[p] && stack[q] == st[q]);
    }
}

proof fn lemma_skip<G: Dag>(
    g: &G,
    roots: Seq<u32>,
    seen: Seq<bool>,
    stack: Seq<(u32, bool)>,
    out: Seq<u32>,
    id: u32,
)
    requires
        g.spec_acyclic(),
        walk_inv(g, roots, seen, stack, out),
        stack.len() > 0,
        stack.last() == (id, false),
        seen[id as int],
    ensures
        walk_inv(g, roots, seen, stack.drop_last(), out),
{
    let top = stack.len() - 1;
    let st = stack.drop_last();
    assert(stack[top] == (id, false));
    g.lemma_descends();
    assert forall|s: int| 0 <= s < seen.len() && #[trigger] seen[s] implies (out.contains(s as u32)
        || st.contains((s as u32, true))) by {
        if !out.contains(s as u32) {
            let p = choose|p: int| 0 <= p < stack.len() && stack[p] == (s as u32, true);
            assert(st[p] == stack[p]);
        }
    }
    assert forall|p: int, k: int|
        #![trigger st[p], g.spec_operands(st[p].0 as int)[k]]
        0 <= p < st.len() && st[p].1 && 0 <= k < g.spec_operands(st[p].0 as int).len() implies ({
        let op = g.spec_operands(st[p].0 as int)[k];
        out.contains(op) || pending_above(st, p, op)
    }) by {
        assert(stack[p] == st[p]);
        let op = g.spec_operands(stack[p].0 as int)[k];
        assert(op < stack[p].0);
        if !out.contains(op) {
            let q = choose|q: int| p < q < stack.len() && (#[trigger] stack[q]).0 == op;
            if q < top {
                assert(st[q] == stack[q]);
            } else {
                let r = choose|r: int| 0 <= r < stack.len() && stack[r] == (op, true);
                assert(st[r] == stack[r]);
                if r < p {
                    assert(stack[p].0 < stack[r].0);
                }
                assert(r > p);
                assert(st[r].0 == op);
            }
        }
    }
    assert forall|k: int| 0 <= k < roots.len() implies out.contains(#[trigger] roots[k])
        || pending_above(st, -1, roots[k]) by {
        if !out.contains(roots[k]) {
            let q = choose|q: int| -1 < q < stack.len() && (#[trigger] stack[q]).0 == roots[k];
            if q < top {
                assert(st[q] == stack[q]);
            } else {
                let r = choose|r: int| 0 <= r < stack.len() && stack[r] == (id, true);
                assert(st[r] == stack[r]);
            }
        }
    }
    assert forall|p: int, q: int|
        0 <= p < q < st.len() && (#[trigger] st[p]).1 implies (#[trigger] st[q]).0 < st[p].0 by {
        assert(stack[p] == st[p] && stack[q] == st[q]);
    }
    assert forall|p: int| 0 <= p < st.len() implies (#[trigger] st[p]).0 < seen.len() && (st[p].1
        ==> seen[st[p].0 as int] && !out.contains(st[p].0)) && needed(g, roots, st[p].0 as int) by {
        assert(stack[p] == st[p]);
    }
}

proof fn lemma_expand<G: Dag>(
    g: &G,
    roots: Seq<u32>,
    seen: Seq<bool>,
    stack: Seq<(u32, bool)>,
    out: Seq<u32>,
    id: u32,
    st: Seq<(u32, bool)>,
)
    requires
        g.spec_acyclic(),
        walk_inv(g, roots, seen, stack, out),
        stack.len() > 0,
        stack.last() == (id, false),
        !seen[id as int],
        ({
            let base = stack.drop_last().push((id, true));
            let ops = g.spec_operands(id as int);
            &&& base.len() <= st.len()
            &&& st.subrange(0, base.len() as int) == base
            &&& forall|q: int|
                base.len() <= q < st.len() ==> !(#[trigger] st[q]).1 && ops.contains(st[q].0)
            &&& forall|k: int|
                0 <= k < ops.len() ==> seen.update(id as int, true)[(#[trigger] ops[k]) as int]
                    || pending_above(st, base.len() - 1, ops[k])
        }),
    ensures
        walk_inv(g, roots, seen.update(id as int, true), st, out),
{
    let top = stack.len() - 1;
    let base = stack.drop_last().push((id, true));
    let ops = g.spec_operands(id as int);
    let se = seen.update(id as int, true);
    g.lemma_descends();
    assert(stack[top] == (id, false));
    assert forall|p: int| 0 <= p < base.len() implies #[trigger] st[p] == base[p] by {
        assert(st.subrange(0, base.len() as int)[p] == st[p]);
    }
    assert(st[top] == (id, true));
    assert(!out.contains(id)) by {
        if out.contains(id) {
            let i = choose|i: int| 0 <= i < out.len() && out[i] == id;
            assert(seen[out[i] as int]);
        }
    }
    assert(needed(g, roots, id as int));
    assert forall|k: int| 0 <= k < ops.len() implies needed(g, roots, (#[trigger] ops[k]) as int) by {
        assert(ops[k] < id);
        assert(ops.contains(ops[k]));
        assert(g.spec_operands(id as int).contains(ops[k] as int as u32));
    }
    assert forall|p: int| 0 <= p < st.len() implies (#[trigger] st[p]).0 < se.len() && (st[p].1
        ==> se[st[p].0 as int] && !out.contains(st[p].0)) && needed(g, roots, st[p].0 as int) by {
        if p < top {
            assert(stack[p] == st[p]);
        } else if p > top {
            let k = choose|k: int| 0 <= k < ops.len() && ops[k] == st[p].0;
            assert(ops[k] < id);
        }
    }
    assert forall|p: int, q: int|
        0 <= p < q < st.len() && (#[trigger] st[p]).1 implies (#[trigger] st[q]).0 < st[p].0 by {
        if p < top {
            assert(stack[p] == st[p]);
            assert(stack[top].0 < stack[p].0);
            if q < top {
                assert(stack[q] == st[q]);
            } else if q > top {
                let k = choose|k: int| 0 <= k < ops.len() && ops[k] == st[q].0;
                assert(ops[k] < id);
            }
        } else if p == top {
            let k = choose|k: int| 0 <= k < ops.len() && ops[k] == st[q].0;
            assert(ops[k] < id);
        }
    }
    assert forall|s: int| 0 <= s < se.len() && #[trigger] se[s] implies needed(g, roots, s) && (
    out.contains(s as u32) || st.contains((s as u32, true))) by {
        if s == id {
            assert(st.contains((id, true)));
        } else {
            assert(seen[s]);
            if !out.contains(s as u32) {
                let p = choose|p: int| 0 <= p < stack.len() && stack[p] == (s as u32, true);
                assert(p != top);
                assert(st[p] == stack[p]);
            }
        }
    }
    assert forall|p: int, k: int|
        #![trigger st[p], g.spec_operands(st[p].0 as int)[k]]
        0 <= p < st.len() && st[p].1 && 0 <= k < g.spec_operands(st[p].0 as int).len() implies ({
        let op = g.spec_operands(st[p].0 as int)[k];
        out.contains(op) || pending_above(st, p, op)
    }) by {
        let op = g.spec_operands(st[p].0 as int)[k];
        if p < top {
            assert(stack[p] == st[p]);
            assert(g.spec_operands(stack[p].0 as int)[k] == op);
            if !out.contains(op) {
                let q = choose|q: int| p < q < stack.len() && (#[trigger] stack[q]).0 == op;
                assert(st[q].0 == op);
            }
        } else if p == top {
            assert(ops[k] == op);
            assert(op < id);
            if !out.contains(op) && !pending_above(st, top, op) {
                assert(se[op as int]);
                assert(seen[op as int]);
                let r = choose|r: int| 0 <= r < stack.len() && stack[r] == (op, true);
                assert(stack[top].0 < stack[r].0);
                assert(false);
            }
        }
    }
    assert forall|k: int| 0 <= k < roots.len() implies out.contains(#[trigger] roots[k])
        || pending_above(st, -1, roots[k]) by {
        if !out.contains(roots[k]) {
            let q = choose|q: int| -1 < q < stack.len() && (#[trigger] stack[q]).0 == roots[k];
            assert(st[q].0 == roots[k]);
        }
    }
    assert forall|i: int| 0 <= i < out.len() implies (#[trigger] out[i]) < se.len()
        && se[out[i] as int] by {}
}

proof fn lemma_done<G: Dag>(g: &G, roots: Seq<u32>, seen: Seq<bool>, out: Seq<u32>)
    requires
        g.spec_acyclic(),
        walk_inv(g, roots, seen, Seq::empty(), out),
    ensures
        is_topo_order(g, roots, out),
{
    assert forall|s: u32| s < g.spec_size() && #[trigger] needed(g, roots, s as int) implies out.contains(s) by {
        lemma_needed_is_out(g, roots, seen, out, s as int);
    }
}

proof fn lemma_needed_is_out<G: Dag>(
    g: &G,
    roots: Seq<u32>,
    seen: Seq<bool>,
    out: Seq<u32>,
    s: int,
)
    requires
        g.spec_acyclic(),
        walk_inv(g, roots, seen, Seq::empty(), out),
        0 <= s < g.spec_size(),
        s <= u32::MAX,
        needed(g, roots, s),
    ensures
        out.contains(s as u32),
    decreases g.spec_size() - s,
{
    if exists|k: int| 0 <= k < roots.len() && #[trigger] roots[k] == s {
        let k = choose|k: int| 0 <= k < roots.len() && #[trigger] roots[k] == s;
        assert(out.contains(roots[k]));
    } else {
        let u = choose|u: int|
            s < u < g.spec_size() && (#[trigger] g.spec_operands(u)).contains(s as u32) && needed(
                g,
                roots,
                u,
            );
        g.lemma_descends();
        lemma_needed_is_out(g, roots, seen, out, u);
        let i = choose|i: int| 0 <= i < out.len() && out[i] == u as u32;
        let k = choose|k: int| 0 <= k < g.spec_operands(u).len() && g.spec_operands(u)[k] == s as u32;
        assert(out.subrange(0, i).contains(g.spec_operands(out[i] as int)[k]));
        let j = choose|j: int| 0 <= j < out.subrange(0, i).len() && out.subrange(0, i)[j] == s as u32;
        assert(out[j] == s as u32);
    }
}

} // verus!
