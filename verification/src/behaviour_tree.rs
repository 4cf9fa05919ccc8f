use crate::stack::Stack;
use crate::stack::StackError;
use vstd::prelude::*;

verus! {

/// The outcome of one node or of one whole execution pass: behaviour
/// trees know only these two results, there is no in-progress value.
#[derive(Clone, Copy, PartialEq, Eq, Structural, Debug)]
pub enum Status {
    Failure,
    Success,
}

/// The opposite status.
pub open spec fn flip(s: Status) -> Status {
    match s {
        Status::Failure => Status::Success,
        Status::Success => Status::Failure,
    }
}

/// A leaf action: the one pluggable capability of the engine. It maps
/// the optional user state to a status and may replace that state.
/// The two spec functions are the implementor's own model of the call:
/// `call` must return `outcome` of the state it was handed and leave
/// `updated` of it behind.
pub trait Action<U>: Sized {
    /// The status the action reports when run on `user_data`.
    spec fn outcome(&self, user_data: Option<U>) -> Status;

    /// The user state the action leaves behind when run on `user_data`.
    spec fn updated(&self, user_data: Option<U>) -> Option<U>;

    /// Runs the action once on the engine's user state.
    fn call(&self, user_data: &mut Option<U>) -> (res: Status)
        ensures
            res == self.outcome(*old(user_data)),
            *final(user_data) == self.updated(*old(user_data)),
    ;
}

/// One node of the static tree shape. Children of a composite node are
/// threaded by index: `first_child` names the first one, and each child
/// that is not the last carries the index of the next in `sibling`.
pub enum LayoutNode<A> {
    Sequence { sibling: Option<usize>, first_child: usize },
    Fallback { sibling: Option<usize>, first_child: usize },
    Leaf { sibling: Option<usize>, action: A },
}

impl<A> LayoutNode<A> {
    /// The sibling link, whatever the variant.
    pub open spec fn sibling_spec(&self) -> Option<usize> {
        match self {
            LayoutNode::Sequence { sibling, .. } => *sibling,
            LayoutNode::Fallback { sibling, .. } => *sibling,
            LayoutNode::Leaf { sibling, .. } => *sibling,
        }
    }

    /// The first-child link of a composite node.
    pub open spec fn first_child_spec(&self) -> usize {
        match self {
            LayoutNode::Sequence { first_child, .. } => *first_child,
            LayoutNode::Fallback { first_child, .. } => *first_child,
            LayoutNode::Leaf { .. } => 0,
        }
    }

    /// True for the two composite variants.
    pub open spec fn is_composite(&self) -> bool {
        match self {
            LayoutNode::Sequence { .. } => true,
            LayoutNode::Fallback { .. } => true,
            LayoutNode::Leaf { .. } => false,
        }
    }

    /// The child status that short-circuits this composite: a sequence
    /// stops at the first failure, a fallback at the first success.
    pub open spec fn stop_status(&self) -> Status {
        match self {
            LayoutNode::Sequence { .. } => Status::Failure,
            LayoutNode::Fallback { .. } => Status::Success,
            LayoutNode::Leaf { .. } => Status::Failure,
        }
    }

    /// `self` with its sibling link set.
    pub open spec fn with_sibling_spec(self, sibling: usize) -> Self {
        match self {
            LayoutNode::Sequence { first_child, .. } => LayoutNode::Sequence {
                sibling: Some(sibling),
                first_child,
            },
            LayoutNode::Fallback { first_child, .. } => LayoutNode::Fallback {
                sibling: Some(sibling),
                first_child,
            },
            LayoutNode::Leaf { action, .. } => LayoutNode::Leaf { sibling: Some(sibling), action },
        }
    }

    /// A sequence node with no sibling yet.
    pub fn new_sequence(first_child: usize) -> (r: Self)
        ensures
            r == (LayoutNode::Sequence::<A> { sibling: None, first_child }),
    {
        LayoutNode::Sequence { sibling: None, first_child }
    }

    /// A fallback node with no sibling yet.
    pub fn new_fallback(first_child: usize) -> (r: Self)
        ensures
            r == (LayoutNode::Fallback::<A> { sibling: None, first_child }),
    {
        LayoutNode::Fallback { sibling: None, first_child }
    }

    /// A leaf node with no sibling yet.
    pub fn new_leaf(action: A) -> (r: Self)
        ensures
            r == (LayoutNode::Leaf::<A> { sibling: None, action }),
    {
        LayoutNode::Leaf { sibling: None, action }
    }

    /// Attaches a sibling index, returning the modified node.
    pub fn with_sibling(self, sibling: usize) -> (r: Self)
        ensures
            r == self.with_sibling_spec(sibling),
    {
        match self {
            LayoutNode::Sequence { first_child, .. } => LayoutNode::Sequence {
                sibling: Some(sibling),
                first_child,
            },
            LayoutNode::Fallback { first_child, .. } => LayoutNode::Fallback {
                sibling: Some(sibling),
                first_child,
            },
            LayoutNode::Leaf { action, .. } => LayoutNode::Leaf { sibling: Some(sibling), action },
        }
    }

    /// Reads the sibling link back.
    pub fn sibling(&self) -> (r: Option<usize>)
        ensures
            r == self.sibling_spec(),
    {
        match self {
            LayoutNode::Sequence { sibling, .. } => *sibling,
            LayoutNode::Fallback { sibling, .. } => *sibling,
            LayoutNode::Leaf { sibling, .. } => *sibling,
        }
    }
}

/// Per-node traversal progress, reset before every execution pass:
/// whether a composite has begun handing out children, and which child
/// it will hand out next.
#[derive(Clone, Copy)]
pub struct RuntimeData {
    started: bool,
    current_child: Option<usize>,
}

/// The reset value of the per-node progress record.
spec fn rt_reset() -> RuntimeData {
    RuntimeData { started: false, current_child: None }
}

impl RuntimeData {
    /// True of the reset record: not started, no child pending.
    pub closed spec fn is_reset(&self) -> bool {
        *self == rt_reset()
    }
}

impl Default for RuntimeData {
    /// The reset record.
    fn default() -> (r: Self)
        ensures
            r.is_reset(),
    {
        RuntimeData { started: false, current_child: None }
    }
}

/// Validity of one node's links: children and siblings sit strictly
/// behind their referrer in the array, so following any link walks
/// forward. Every finite tree can be laid out this way (for instance in
/// preorder), and it makes the absence of cycles plain.
pub open spec fn wf_node<A>(nodes: Seq<LayoutNode<A>>, i: int) -> bool {
    &&& (nodes[i].is_composite() ==> i < nodes[i].first_child_spec() as int
        && (nodes[i].first_child_spec() as int) < nodes.len())
    &&& match nodes[i].sibling_spec() {
        Some(s) => i < s as int && (s as int) < nodes.len(),
        None => true,
    }
}

/// A well-formed layout: every link lands inside the array and walks
/// forward, so the node graph is a tree laid out root-first and every
/// traversal terminates. In particular no link can name the root at
/// index 0, so the root is never anyone's child or sibling.
pub open spec fn wf_layout<A>(nodes: Seq<LayoutNode<A>>) -> bool {
    forall|i: int| 0 <= i < nodes.len() ==> #[trigger] wf_node(nodes, i)
}

/// The larger of two naturals.
pub open spec fn nat_max(a: nat, b: nat) -> nat {
    if a >= b {
        a
    } else {
        b
    }
}

/// Everything one evaluation of a node (or of a chain of siblings)
/// produces: the reported status, the user state left behind, the
/// status each visited node resolved to, and the deepest stack level
/// the traversal needs, counting the evaluated node itself as one.
pub struct Run<U> {
    pub status: Status,
    pub state: Option<U>,
    pub visits: Map<int, Status>,
    pub depth: nat,
}

/// Wraps a finished child chain into the record of its parent `i`: the
/// parent resolves to the chain's status and is itself one level above
/// every node the chain visited.
pub open spec fn finish<U>(i: int, inner: Run<U>) -> Run<U> {
    Run {
        status: inner.status,
        state: inner.state,
        visits: inner.visits.insert(i, inner.status),
        depth: (1 + inner.depth) as nat,
    }
}

/// The meaning of one execution pass over the subtree rooted at `i`,
/// written as the recursive evaluation that the engine's iterative
/// walk simulates. A leaf reports its action's outcome; a sequence
/// runs its children until one fails; a fallback until one succeeds.
pub open spec fn eval<U, A: Action<U>>(nodes: Seq<LayoutNode<A>>, i: int, st: Option<U>) -> Run<U>
    decreases nodes.len() - i, 0int,
        when wf_layout(nodes) && 0 <= i < nodes.len()
{
    match nodes[i] {
        LayoutNode::Leaf { action, .. } => Run {
            status: action.outcome(st),
            state: action.updated(st),
            visits: Map::empty().insert(i, action.outcome(st)),
            depth: 1,
        },
        LayoutNode::Sequence { first_child, .. } => {
            proof {
                assert(wf_node(nodes, i));
            }
            finish(i, eval_chain(nodes, Some(first_child), st, Status::Failure))
        },
        LayoutNode::Fallback { first_child, .. } => {
            proof {
                assert(wf_node(nodes, i));
            }
            finish(i, eval_chain(nodes, Some(first_child), st, Status::Success))
        },
    }
}

/// Evaluates a sibling chain left to right, threading the user state
/// through, until a child reports `stop` or the chain runs out. An
/// exhausted chain reports the opposite of `stop`: all children of a
/// sequence passed, or no child of a fallback succeeded.
pub open spec fn eval_chain<U, A: Action<U>>(
    nodes: Seq<LayoutNode<A>>,
    c: Option<usize>,
    st: Option<U>,
    stop: Status,
) -> Run<U>
    decreases
            (match c {
                Some(cc) => nodes.len() - cc,
                None => 0int,
            }),
            1int,
        when wf_layout(nodes) && (match c {
            Some(cc) => 0 <= cc < nodes.len(),
            None => true,
        })
{
    match c {
        None => Run { status: flip(stop), state: st, visits: Map::empty(), depth: 0 },
        Some(cc) => {
            let head = eval(nodes, cc as int, st);
            if head.status == stop {
                Run { status: stop, state: head.state, visits: head.visits, depth: head.depth }
            } else {
                proof {
                    assert(wf_node(nodes, cc as int));
                }
                let rest = eval_chain(nodes, nodes[cc as int].sibling_spec(), head.state, stop);
                Run {
                    status: rest.status,
                    state: rest.state,
                    visits: head.visits.union_prefer_right(rest.visits),
                    depth: nat_max(head.depth, rest.depth),
                }
            }
        },
    }
}

/// Ghost bookkeeping of one execution pass: the user state it started
/// from, the statuses recorded so far, and the deepest stack level
/// reached so far.
struct Hist<U> {
    st0: Option<U>,
    gtrace: Map<int, Status>,
    seen: nat,
}

/// A pending-child link of the started node `i`: absent, or a forward
/// in-range index.
spec fn cc_ok<A>(nodes: Seq<LayoutNode<A>>, i: int, cc: Option<usize>) -> bool {
    match cc {
        None => true,
        Some(c) => i < c as int && (c as int) < nodes.len(),
    }
}

/// The node is a composite with the given first child and stop status.
spec fn composite_shape<A>(node: LayoutNode<A>, first_child: usize, stop: Status) -> bool {
    node.is_composite() && node.first_child_spec() == first_child && node.stop_status() == stop
}

/// What a trace slot shows of the recorded statuses.
spec fn trace_slot(g: Map<int, Status>, i: int) -> Option<Status> {
    if g.dom().contains(i) {
        Some(g[i])
    } else {
        None
    }
}

/// What completing the node at `t` produces from here on: a node whose
/// record is still reset evaluates from scratch; a started one resolves
/// at once if the last reported status short-circuits it, and otherwise
/// finishes the rest of its child chain.
spec fn pending<U, A: Action<U>>(
    nodes: Seq<LayoutNode<A>>,
    t: int,
    rt: RuntimeData,
    res: Status,
    st: Option<U>,
) -> Run<U> {
    if !rt.started {
        eval(nodes, t, st)
    } else {
        let stop = nodes[t].stop_status();
        let inner = if res == stop {
            Run { status: stop, state: st, visits: Map::<int, Status>::empty(), depth: 0 }
        } else {
            eval_chain(nodes, rt.current_child, st, stop)
        };
        finish(t, inner)
    }
}

/// Folds the traversal stack from its top: the run that the rest of
/// the walk produces, given the status just reported and the current
/// user state. Depths are absolute stack levels.
spec fn unwind<U, A: Action<U>>(
    nodes: Seq<LayoutNode<A>>,
    stk: Seq<usize>,
    rts: Seq<RuntimeData>,
    res: Status,
    st: Option<U>,
) -> Run<U>
    decreases stk.len(),
{
    if stk.len() == 0 {
        Run { status: res, state: st, visits: Map::<int, Status>::empty(), depth: 0 }
    } else {
        let t = stk.last() as int;
        let cur = pending(nodes, t, rts[t], res, st);
        let above = unwind(nodes, stk.drop_last(), rts, cur.status, cur.state);
        Run {
            status: above.status,
            state: above.state,
            visits: cur.visits.union_prefer_right(above.visits),
            depth: nat_max((stk.len() - 1 + cur.depth) as nat, above.depth),
        }
    }
}

/// An upper bound on the loop iterations a fresh subtree still costs.
spec fn node_work<A>(nodes: Seq<LayoutNode<A>>, i: int) -> nat
    decreases nodes.len() - i, 0int,
        when wf_layout(nodes) && 0 <= i < nodes.len()
{
    if nodes[i].is_composite() {
        proof {
            assert(wf_node(nodes, i));
        }
        (2 + chain_work(nodes, Some(nodes[i].first_child_spec()))) as nat
    } else {
        1
    }
}

/// An upper bound on the loop iterations a child chain still costs.
spec fn chain_work<A>(nodes: Seq<LayoutNode<A>>, c: Option<usize>) -> nat
    decreases
            (match c {
                Some(cc) => nodes.len() - cc,
                None => 0int,
            }),
            1int,
        when wf_layout(nodes) && (match c {
            Some(cc) => 0 <= cc < nodes.len(),
            None => true,
        })
{
    match c {
        None => 0,
        Some(cc) => {
            proof {
                assert(wf_node(nodes, cc as int));
            }
            (node_work(nodes, cc as int) + 1 + chain_work(
                nodes,
                nodes[cc as int].sibling_spec(),
            )) as nat
        },
    }
}

/// The iterations one stack level still costs.
spec fn level_work<A>(nodes: Seq<LayoutNode<A>>, t: int, rt: RuntimeData) -> nat {
    if !rt.started {
        node_work(nodes, t)
    } else {
        chain_work(nodes, rt.current_child) + 1
    }
}

/// The iterations the whole walk still costs: the loop variant.
spec fn pot<A>(nodes: Seq<LayoutNode<A>>, stk: Seq<usize>, rts: Seq<RuntimeData>) -> nat
    decreases stk.len(),
{
    if stk.len() == 0 {
        0
    } else {
        pot(nodes, stk.drop_last(), rts) + level_work(
            nodes,
            stk.last() as int,
            rts[stk.last() as int],
        )
    }
}

/// `unwind` reads the progress records only at stack entries, so two
/// record arrays that agree there unwind alike.
proof fn lemma_unwind_agree<U, A: Action<U>>(
    nodes: Seq<LayoutNode<A>>,
    stk: Seq<usize>,
    rts1: Seq<RuntimeData>,
    rts2: Seq<RuntimeData>,
    res: Status,
    st: Option<U>,
)
    requires
        forall|j: int| #![trigger stk[j]] 0 <= j < stk.len() ==> rts1[stk[j] as int] == rts2[stk[j] as int],
    ensures
        unwind(nodes, stk, rts1, res, st) == unwind(nodes, stk, rts2, res, st),
    decreases stk.len(),
{
    if stk.len() > 0 {
        let t = stk.last() as int;
        assert(stk[stk.len() - 1] == stk.last());
        assert(rts1[t] == rts2[t]);
        let cur = pending(nodes, t, rts1[t], res, st);
        assert(forall|j: int| #![trigger stk.drop_last()[j]]
            0 <= j < stk.drop_last().len() ==> stk.drop_last()[j] == stk[j]);
        lemma_unwind_agree(nodes, stk.drop_last(), rts1, rts2, cur.status, cur.state);
    }
}

/// `pot` reads the progress records only at stack entries too.
proof fn lemma_pot_agree<A>(
    nodes: Seq<LayoutNode<A>>,
    stk: Seq<usize>,
    rts1: Seq<RuntimeData>,
    rts2: Seq<RuntimeData>,
)
    requires
        forall|j: int| #![trigger stk[j]] 0 <= j < stk.len() ==> rts1[stk[j] as int] == rts2[stk[j] as int],
    ensures
        pot(nodes, stk, rts1) == pot(nodes, stk, rts2),
    decreases stk.len(),
{
    if stk.len() > 0 {
        assert(stk[stk.len() - 1] == stk.last());
        assert(rts1[stk.last() as int] == rts2[stk.last() as int]);
        assert(forall|j: int| #![trigger stk.drop_last()[j]]
            0 <= j < stk.drop_last().len() ==> stk.drop_last()[j] == stk[j]);
        lemma_pot_agree(nodes, stk.drop_last(), rts1, rts2);
    }
}

/// Every evaluation visits at least the node it starts at, one level.
proof fn lemma_eval_depth<U, A: Action<U>>(nodes: Seq<LayoutNode<A>>, i: int, st: Option<U>)
    requires
        wf_layout(nodes),
        0 <= i < nodes.len(),
    ensures
        eval(nodes, i, st).depth >= 1,
{
    assert(wf_node(nodes, i));
}

/// The behaviour tree engine: the static layout, one progress record
/// per node, the bounded traversal stack of node indices, the optional
/// user state handed to leaf actions, and the optional trace of the
/// last pass. `N` is the number of nodes, `H` the stack capacity, which
/// bounds the tree depth a pass may reach.
pub struct BehaviourTree<U, A, const N: usize, const H: usize> {
    layout_nodes: Vec<LayoutNode<A>>,
    runtime_datas: Vec<RuntimeData>,
    user_data: Option<U>,
    stack: Stack<usize, H>,
    trace: Option<Vec<Option<Status>>>,
}

/// A vector of `n` reset progress records.
fn reset_runtime(n: usize) -> (r: Vec<RuntimeData>)
    ensures
        r@.len() == n,
        forall|i: int| 0 <= i < n ==> #[trigger] r@[i].is_reset(),
{
    let mut v: Vec<RuntimeData> = Vec::new();
    let mut k: usize = 0;
    while k < n
        invariant
            k <= n,
            v@.len() == k,
            forall|i: int| 0 <= i < k ==> #[trigger] v@[i].is_reset(),
        decreases n - k,
    {
        v.push(RuntimeData::default());
        k = k + 1;
    }
    v
}

/// A vector of `n` empty trace slots.
fn blank_trace(n: usize) -> (r: Vec<Option<Status>>)
    ensures
        r@.len() == n,
        forall|i: int| 0 <= i < n ==> r@[i] == None::<Status>,
    {
    let mut v: Vec<Option<Status>> = Vec::new();
    let mut k: usize = 0;
    while k < n
        invariant
            k <= n,
            v@.len() == k,
            forall|i: int| 0 <= i < k ==> v@[i] == None::<Status>,
        decreases n - k,
    {
        v.push(None);
        k = k + 1;
    }
    v
}

impl<U, A: Action<U>, const N: usize, const H: usize> BehaviourTree<U, A, N, H> {
    /// The static layout.
    pub closed spec fn nodes_spec(&self) -> Seq<LayoutNode<A>> {
        self.layout_nodes@
    }

    /// The user state currently attached.
    pub closed spec fn user_spec(&self) -> Option<U> {
        self.user_data
    }

    /// Whether a trace buffer is attached.
    pub closed spec fn has_trace(&self) -> bool {
        self.trace is Some
    }

    /// The attached trace buffer, one optional status per node.
    pub closed spec fn trace_spec(&self) -> Seq<Option<Status>> {
        self.trace->Some_0@
    }

    /// The engine's own shape: the layout fills the declared size, the
    /// progress records mirror it, the stack keeps its capacity bound,
    /// and the trace buffer, when attached, has one slot per node.
    pub closed spec fn wf(&self) -> bool {
        &&& self.layout_nodes@.len() == N
        &&& self.runtime_datas@.len() == N
        &&& self.stack.wf()
        &&& (self.trace is Some ==> self.trace->Some_0@.len() == N)
    }

    /// A new engine over the given layout: no user state, no trace,
    /// everything reset.
    pub fn new(layout_nodes: Vec<LayoutNode<A>>) -> (r: Self)
        requires
            layout_nodes@.len() == N,
        ensures
            r.wf(),
            r.nodes_spec() == layout_nodes@,
            r.user_spec() is None,
            !r.has_trace(),
    {
        let n = layout_nodes.len();
        BehaviourTree {
            layout_nodes,
            runtime_datas: reset_runtime(n),
            user_data: None,
            stack: Stack::default(),
            trace: None,
        }
    }

    /// Attaches user state for the leaf actions.
    pub fn with_user_data(self, user_data: U) -> (r: Self)
        ensures
            self.wf() ==> r.wf(),
            r.nodes_spec() == self.nodes_spec(),
            r.user_spec() == Some(user_data),
            r.has_trace() == self.has_trace(),
            r.has_trace() ==> r.trace_spec() == self.trace_spec(),
    {
        BehaviourTree {
            layout_nodes: self.layout_nodes,
            runtime_datas: self.runtime_datas,
            user_data: Some(user_data),
            stack: self.stack,
            trace: self.trace,
        }
    }

    /// Attaches a trace buffer with one empty slot per node.
    pub fn with_trace(self) -> (r: Self)
        requires
            self.wf(),
        ensures
            r.wf(),
            r.nodes_spec() == self.nodes_spec(),
            r.user_spec() == self.user_spec(),
            r.has_trace(),
            r.trace_spec() == Seq::new(N as nat, |i: int| None::<Status>),
    {
        let n = self.layout_nodes.len();
        BehaviourTree {
            layout_nodes: self.layout_nodes,
            runtime_datas: self.runtime_datas,
            user_data: self.user_data,
            stack: self.stack,
            trace: Some(blank_trace(n)),
        }
    }

    /// The invariant of the execution loop. The stack holds in-range,
    /// strictly increasing node indices; every entry below the top is a
    /// started composite; every record off the stack is reset; and the
    /// whole pass evaluates to `eval` of the root: what the remaining
    /// walk produces (`unwind`), joined with what is already recorded,
    /// equals the recursive evaluation from the initial user state.
    spec fn exec_inv(&self, res: Status, hist: Hist<U>) -> bool {
        let nodes = self.layout_nodes@;
        let rts = self.runtime_datas@;
        let stk = self.stack@;
        let e0 = eval(nodes, 0, hist.st0);
        let w = unwind(nodes, stk, rts, res, self.user_data);
        &&& self.wf()
        &&& wf_layout(nodes)
        &&& nodes.len() > 0
        &&& forall|j: int| #![trigger stk[j]] 0 <= j < stk.len() ==> (stk[j] as int) < nodes.len()
        &&& forall|j1: int, j2: int| #![trigger stk[j1], stk[j2]]
            0 <= j1 < j2 < stk.len() ==> stk[j1] < stk[j2]
        &&& forall|j: int| #![trigger stk[j]] 0 <= j < stk.len() - 1 ==> rts[stk[j] as int].started
        &&& forall|i: int| #![trigger rts[i]]
            0 <= i < nodes.len() && rts[i].started ==> nodes[i].is_composite() && cc_ok(
                nodes,
                i,
                rts[i].current_child,
            )
        &&& forall|i: int| #![trigger rts[i]] 0 <= i < nodes.len() && !rts[i].started ==> rts[i]
            == rt_reset()
        &&& forall|i: int| #![trigger rts[i]]
            0 <= i < nodes.len() && !stk.contains(i as usize) ==> rts[i] == rt_reset()
        &&& e0.status == w.status
        &&& e0.state == w.state
        &&& e0.visits == hist.gtrace.union_prefer_right(w.visits)
        &&& e0.depth == nat_max(hist.seen, w.depth)
        &&& stk.len() <= hist.seen
        &&& hist.seen <= H
        &&& match self.trace {
            Some(tv) => tv@.len() == nodes.len() && forall|i: int| #![trigger tv@[i]]
                0 <= i < nodes.len() ==> tv@[i] == trace_slot(hist.gtrace, i),
            None => true,
        }
    }

    /// Resolves the started composite on top of the stack: pops it,
    /// records `res2` as its status, and clears its progress record.
    /// Used when the last reported status short-circuits the node or
    /// its child chain is exhausted; either way it resolves to `res2`.
    #[verifier::rlimit(100)]
    fn resolve_top(
        &mut self,
        current_index: usize,
        stop: Status,
        res2: Status,
        hist: Ghost<Hist<U>>,
    ) -> (out: Ghost<Hist<U>>)
        requires
            old(self).exec_inv(res2, hist@),
            old(self).stack@.len() > 0,
            old(self).stack@.last() == current_index,
            old(self).runtime_datas@[current_index as int].started,
            old(self).layout_nodes@[current_index as int].stop_status() == stop,
            res2 == stop || old(self).runtime_datas@[current_index as int].current_child is None,
        ensures
            final(self).exec_inv(res2, out@),
            out@.st0 == hist@.st0,
            final(self).layout_nodes@ == old(self).layout_nodes@,
            (final(self).trace is Some) == (old(self).trace is Some),
            pot(final(self).layout_nodes@, final(self).stack@, final(self).runtime_datas@) < pot(
                old(self).layout_nodes@,
                old(self).stack@,
                old(self).runtime_datas@,
            ),
    {
        let ghost nodes = self.layout_nodes@;
        let ghost stk0 = self.stack@;
        let ghost rts1 = self.runtime_datas@;
        let ghost st = self.user_data;
        let ghost t = current_index as int;
        let ghost e0 = eval(nodes, 0, hist@.st0);
        let ghost w1 = unwind(nodes, stk0, rts1, res2, st);
        let ghost pot1 = pot(nodes, stk0, rts1);
        proof {
            assert(stk0[stk0.len() - 1] == current_index);
            assert(0 <= t < nodes.len());
        }
        // the pop cannot fail: the stack holds the node being resolved
        match self.stack.pop() {
            Ok(_) => {},
            Err(_) => {},
        }
        if let Some(tr) = &mut self.trace {
            tr.set(current_index, Some(res2));
        }
        self.runtime_datas.set(
            current_index,
            RuntimeData { started: false, current_child: None },
        );
        let ghost hist2 = Hist {
            st0: hist@.st0,
            gtrace: hist@.gtrace.insert(t, res2),
            seen: hist@.seen,
        };
        proof {
            let rts2 = self.runtime_datas@;
            let stk1 = self.stack@;
            assert(stk1 == stk0.drop_last());
            let inner = if res2 == stop {
                Run { status: stop, state: st, visits: Map::<int, Status>::empty(), depth: 0nat }
            } else {
                eval_chain(nodes, rts1[t].current_child, st, stop)
            };
            let cur = pending(nodes, t, rts1[t], res2, st);
            assert(cur == finish(t, inner));
            assert(inner.status == res2);
            assert(cur.status == res2 && cur.state == st && cur.depth == 1);
            assert(cur.visits == Map::<int, Status>::empty().insert(t, res2));
            let above = unwind(nodes, stk1, rts1, res2, st);
            assert(w1.status == above.status && w1.state == above.state);
            assert(w1.visits == cur.visits.union_prefer_right(above.visits));
            assert(w1.depth == nat_max((stk0.len() - 1 + cur.depth) as nat, above.depth));
            assert(forall|j: int| #![trigger stk1[j]]
                0 <= j < stk1.len() ==> stk1[j] == stk0[j] && stk0[j] < current_index);
            lemma_unwind_agree(nodes, stk1, rts2, rts1, res2, st);
            let w2 = unwind(nodes, stk1, rts2, res2, st);
            assert(w2 == above);
            assert(e0.status == w2.status && e0.state == w2.state);
            assert(e0.visits =~= hist2.gtrace.union_prefer_right(w2.visits));
            assert(stk0.len() <= hist@.seen);
            assert(e0.depth == nat_max(hist2.seen, w2.depth));
            assert forall|i: int| 0 <= i < nodes.len() && !stk1.contains(i as usize)
                implies rts2[i] == rt_reset() by {
                if i == t {
                    assert(rts2[i] == rt_reset());
                } else {
                    assert(rts2[i] == rts1[i]);
                    if stk0.contains(i as usize) {
                        let j = choose|j: int| 0 <= j < stk0.len() && stk0[j] == i as usize;
                        assert(j == stk0.len() - 1 || stk1[j] == stk0[j]);
                        assert(stk1.contains(i as usize));
                    }
                }
            }
            lemma_pot_agree(nodes, stk1, rts2, rts1);
            assert(pot1 == pot(nodes, stk1, rts1) + level_work(nodes, t, rts1[t]));
            assert(level_work(nodes, t, rts1[t]) >= 1);
            assert(pot(nodes, stk1, rts2) < pot1);
            assert(self.exec_inv(res2, hist2));
        }
        Ghost(hist2)
    }

    /// Pushes the pending child of the started composite on top of the
    /// stack and advances the node's cursor to that child's sibling.
    /// Fails exactly when the stack already sits at its capacity, which
    /// means the pass needs a level beyond `H`.
    #[verifier::rlimit(100)]
    fn descend(
        &mut self,
        current_index: usize,
        stop: Status,
        res2: Status,
        hist: Ghost<Hist<U>>,
    ) -> (r: Result<Ghost<Hist<U>>, StackError>)
        requires
            old(self).exec_inv(res2, hist@),
            old(self).stack@.len() > 0,
            old(self).stack@.last() == current_index,
            old(self).runtime_datas@[current_index as int].started,
            old(self).layout_nodes@[current_index as int].stop_status() == stop,
            res2 != stop,
            old(self).runtime_datas@[current_index as int].current_child is Some,
        ensures
            final(self).wf(),
            final(self).layout_nodes@ == old(self).layout_nodes@,
            (final(self).trace is Some) == (old(self).trace is Some),
            match r {
                Ok(out) => final(self).exec_inv(res2, out@) && out@.st0 == hist@.st0 && pot(
                    final(self).layout_nodes@,
                    final(self).stack@,
                    final(self).runtime_datas@,
                ) < pot(old(self).layout_nodes@, old(self).stack@, old(self).runtime_datas@),
                Err(e) => e == StackError::CapacityExceeded && eval(
                    old(self).layout_nodes@,
                    0,
                    hist@.st0,
                ).depth > H,
            },
    {
        let ghost nodes = self.layout_nodes@;
        let ghost stk0 = self.stack@;
        let ghost rts1 = self.runtime_datas@;
        let ghost st = self.user_data;
        let ghost t = current_index as int;
        let ghost e0 = eval(nodes, 0, hist@.st0);
        let ghost w1 = unwind(nodes, stk0, rts1, res2, st);
        let ghost pot1 = pot(nodes, stk0, rts1);

        let rt_now = self.runtime_datas[current_index];
        let child = match rt_now.current_child {
            Some(c) => c,
            None => {
                return Err(StackError::Underflow);
            },
        };
        proof {
            assert(stk0[stk0.len() - 1] == current_index);
            assert(0 <= t < nodes.len());
            assert(cc_ok(nodes, t, rts1[t].current_child));
            assert(t < child as int && (child as int) < nodes.len());
            assert(wf_node(nodes, child as int));
            assert forall|j: int| 0 <= j < stk0.len() implies stk0[j] < child by {
                if j < stk0.len() - 1 {
                    assert(stk0[j] < stk0[stk0.len() - 1]);
                }
            }
            assert(!stk0.contains(child));
            assert(rts1[child as int] == rt_reset());
        }
        match self.stack.push(child) {
            Err(e) => {
                proof {
                    // the walk needs a level beyond the full stack
                    assert(stk0.len() == H);
                    lemma_eval_depth(nodes, child as int, st);
                    let head = eval(nodes, child as int, st);
                    let chain = eval_chain(nodes, Some(child), st, stop);
                    assert(chain.depth >= head.depth);
                    let cur = pending(nodes, t, rts1[t], res2, st);
                    assert(cur == finish(t, chain));
                    assert(w1.depth >= (stk0.len() - 1 + cur.depth) as nat);
                    assert(w1.depth >= stk0.len() + head.depth);
                    assert(e0.depth == nat_max(hist@.seen, w1.depth));
                    assert(e0.depth > H);
                }
                return Err(e);
            },
            Ok(_) => {},
        }
        let sib = self.layout_nodes[child].sibling();
        self.runtime_datas.set(current_index, RuntimeData { started: true, current_child: sib });
        let ghost hist2 = Hist {
            st0: hist@.st0,
            gtrace: hist@.gtrace,
            seen: nat_max(hist@.seen, (stk0.len() + 1) as nat),
        };
        proof {
            let rts2 = self.runtime_datas@;
            let stk2 = self.stack@;
            assert(stk2 == stk0.push(child));
            assert(stk2.drop_last() =~= stk0);
            assert(stk2.last() == child);
            assert(stk2[stk0.len() as int] == child);
            assert(rts2 == rts1.update(t, RuntimeData { started: true, current_child: sib }));
            assert(rts2[child as int] == rt_reset());
            assert(sib == nodes[child as int].sibling_spec());

            let head = eval(nodes, child as int, st);
            lemma_eval_depth(nodes, child as int, st);
            let rest = eval_chain(nodes, sib, head.state, stop);

            // the old pending work of this node: child and rest in one chain
            let chain = eval_chain(nodes, Some(child), st, stop);
            let cur1 = pending(nodes, t, rts1[t], res2, st);
            assert(cur1 == finish(t, chain));
            let above1 = unwind(nodes, stk0.drop_last(), rts1, cur1.status, cur1.state);
            assert(w1.status == above1.status && w1.state == above1.state);
            assert(w1.visits == cur1.visits.union_prefer_right(above1.visits));
            assert(w1.depth == nat_max((stk0.len() - 1 + cur1.depth) as nat, above1.depth));

            // the new stack: the fresh child on top, this node resuming at
            // the rest of its chain below it
            let pend2 = pending(nodes, t, rts2[t], head.status, head.state);
            let above3 = unwind(nodes, stk0.drop_last(), rts2, pend2.status, pend2.state);
            assert(forall|j: int| #![trigger stk0.drop_last()[j]]
                0 <= j < stk0.drop_last().len() ==> stk0.drop_last()[j] == stk0[j] && stk0[j]
                    < current_index);
            lemma_unwind_agree(nodes, stk0.drop_last(), rts2, rts1, pend2.status, pend2.state);
            let above2 = unwind(nodes, stk0, rts2, head.status, head.state);
            assert(pending(nodes, child as int, rts2[child as int], res2, st) == head);
            let w2 = unwind(nodes, stk2, rts2, res2, st);
            assert(w2.status == above2.status && w2.state == above2.state);
            assert(w2.visits == head.visits.union_prefer_right(above2.visits));
            assert(w2.depth == nat_max((stk0.len() + head.depth) as nat, above2.depth));

            if head.status == stop {
                assert(chain == Run {
                    status: stop,
                    state: head.state,
                    visits: head.visits,
                    depth: head.depth,
                });
                assert(pend2 == finish(
                    t,
                    Run {
                        status: stop,
                        state: head.state,
                        visits: Map::<int, Status>::empty(),
                        depth: 0nat,
                    },
                ));
            } else {
                assert(chain == Run {
                    status: rest.status,
                    state: rest.state,
                    visits: head.visits.union_prefer_right(rest.visits),
                    depth: nat_max(head.depth, rest.depth),
                });
                assert(pend2 == finish(t, rest));
            }
            assert(pend2.status == cur1.status && pend2.state == cur1.state);
            assert(above3 == above1);
            assert(above2.status == above3.status && above2.state == above3.state);
            assert(above2.visits == pend2.visits.union_prefer_right(above3.visits));
            assert(above2.depth == nat_max((stk0.len() - 1 + pend2.depth) as nat, above3.depth));

            assert(w2.status == w1.status && w2.state == w1.state);
            assert(w2.visits =~= w1.visits);
            assert(w2.depth == w1.depth);

            assert(e0.status == w2.status && e0.state == w2.state);
            assert(e0.visits == hist2.gtrace.union_prefer_right(w2.visits));
            assert(w2.depth >= stk0.len() + 1);
            assert(e0.depth == nat_max(hist2.seen, w2.depth));
            assert(stk2.len() <= hist2.seen && hist2.seen <= H);

            // stack shape
            assert forall|j1: int, j2: int| 0 <= j1 < j2 < stk2.len() implies stk2[j1]
                < stk2[j2] by {
                if j2 == stk0.len() {
                    assert(stk2[j1] == stk0[j1]);
                    assert(stk0[j1] < child);
                }
            }
            assert forall|i: int| 0 <= i < nodes.len() && !stk2.contains(i as usize)
                implies rts2[i] == rt_reset() by {
                if i == t {
                    assert(stk2[stk0.len() - 1] == current_index);
                    assert(stk2.contains(current_index));
                } else {
                    assert(rts2[i] == rts1[i]);
                    if stk0.contains(i as usize) {
                        let j = choose|j: int| 0 <= j < stk0.len() && stk0[j] == i as usize;
                        assert(stk2[j] == i as usize);
                        assert(stk2.contains(i as usize));
                    }
                }
            }

            // one unit of work was spent
            lemma_pot_agree(nodes, stk0.drop_last(), rts2, rts1);
            assert(pot1 == pot(nodes, stk0.drop_last(), rts1) + level_work(nodes, t, rts1[t]));
            assert(level_work(nodes, t, rts1[t]) == chain_work(nodes, Some(child)) + 1);
            assert(chain_work(nodes, Some(child)) == node_work(nodes, child as int) + 1
                + chain_work(nodes, sib));
            assert(pot(nodes, stk2, rts2) == pot(nodes, stk0, rts2) + level_work(
                nodes,
                child as int,
                rts2[child as int],
            ));
            assert(pot(nodes, stk0, rts2) == pot(nodes, stk0.drop_last(), rts2) + level_work(
                nodes,
                t,
                rts2[t],
            ));
            assert(level_work(nodes, child as int, rts2[child as int]) == node_work(
                nodes,
                child as int,
            ));
            assert(level_work(nodes, t, rts2[t]) == chain_work(nodes, sib) + 1);
            assert(pot(nodes, stk2, rts2) < pot1);

            assert(self.exec_inv(res2, hist2));
        }
        Ok(Ghost(hist2))
    }

    /// One loop step on a composite node at the top of the stack: marks
    /// it started on first sight, then either resolves it (last status
    /// short-circuited it, or its children ran out) or pushes the next
    /// child. Fails only when the push exceeds the stack capacity.
    #[verifier::rlimit(100)]
    fn composite_step(
        &mut self,
        current_index: usize,
        first_child: usize,
        stop: Status,
        res: Status,
        hist: Ghost<Hist<U>>,
    ) -> (r: Result<(Status, Ghost<Hist<U>>), StackError>)
        requires
            old(self).exec_inv(res, hist@),
            old(self).stack@.len() > 0,
            old(self).stack@.last() == current_index,
            composite_shape(old(self).layout_nodes@[current_index as int], first_child, stop),
        ensures
            final(self).wf(),
            final(self).layout_nodes@ == old(self).layout_nodes@,
            (final(self).trace is Some) == (old(self).trace is Some),
            match r {
                Ok(ok) => final(self).exec_inv(ok.0, ok.1@) && ok.1@.st0 == hist@.st0 && pot(
                    final(self).layout_nodes@,
                    final(self).stack@,
                    final(self).runtime_datas@,
                ) < pot(old(self).layout_nodes@, old(self).stack@, old(self).runtime_datas@),
                Err(e) => e == StackError::CapacityExceeded && eval(
                    old(self).layout_nodes@,
                    0,
                    hist@.st0,
                ).depth > H,
            },
    {
        let ghost nodes = self.layout_nodes@;
        let ghost stk0 = self.stack@;
        let ghost rts0 = self.runtime_datas@;
        let ghost st = self.user_data;
        let ghost t = current_index as int;
        let ghost pot0 = pot(nodes, stk0, rts0);

        proof {
            assert(stk0[stk0.len() - 1] == current_index);
            assert(0 <= t < nodes.len());
            assert(wf_node(nodes, t));
            assert(stk0.contains(current_index));
        }

        let rt = self.runtime_datas[current_index];
        let mut res2 = res;
        if !rt.started {
            self.runtime_datas.set(
                current_index,
                RuntimeData { started: true, current_child: Some(first_child) },
            );
            res2 = match stop {
                Status::Success => Status::Failure,
                Status::Failure => Status::Success,
            };
            proof {
                let rts1 = self.runtime_datas@;
                assert(rts0[t] == rt_reset());
                assert(res2 == flip(stop));
                // marking the fresh top started, aimed at its first child,
                // leaves the pending work of every level unchanged
                let curf = pending(nodes, t, rts0[t], res, st);
                let curs = pending(nodes, t, rts1[t], res2, st);
                assert(curf == eval(nodes, t, st));
                assert(curs == finish(t, eval_chain(nodes, Some(first_child), st, stop)));
                assert(curf == curs);
                assert(forall|j: int| #![trigger stk0.drop_last()[j]]
                    0 <= j < stk0.drop_last().len() ==> stk0.drop_last()[j] == stk0[j]
                        && stk0[j] < current_index);
                lemma_unwind_agree(nodes, stk0.drop_last(), rts1, rts0, curs.status, curs.state);
                assert(unwind(nodes, stk0, rts1, res2, st) == unwind(nodes, stk0, rts0, res, st));
                lemma_pot_agree(nodes, stk0.drop_last(), rts1, rts0);
                assert(node_work(nodes, t) == 2 + chain_work(nodes, Some(first_child)));
                assert(pot(nodes, stk0, rts1) <= pot0);
                assert(self.exec_inv(res2, hist@));
            }
        }
        let ghost rts1 = self.runtime_datas@;
        proof {
            assert(self.exec_inv(res2, hist@));
            assert(pot(nodes, stk0, rts1) <= pot0);
        }

        let rt_now = self.runtime_datas[current_index];
        proof {
            assert(rt_now == rts1[t]);
            assert(rt_now.started);
            assert(cc_ok(nodes, t, rt_now.current_child));
        }

        if res2 == stop || rt_now.current_child.is_none() {
            let out = self.resolve_top(current_index, stop, res2, Ghost(hist@));
            Ok((res2, out))
        } else {
            match self.descend(current_index, stop, res2, Ghost(hist@)) {
                Ok(out) => Ok((res2, out)),
                Err(e) => Err(e),
            }
        }
    }

    /// One full execution pass. All per-node progress, the stack and
    /// the trace are reset first, so no state leaks from an earlier
    /// pass; then the walk runs the root subtree to one status.
    ///
    /// The result is pinned to the recursive evaluation `eval` of the
    /// layout from the attached user state: the pass returns `Ok` with
    /// exactly that status, leaves exactly that user state behind, and
    /// fills the trace with exactly the visited nodes' statuses, if and
    /// only if the evaluation stays within the stack capacity `H`;
    /// a deeper tree reports `CapacityExceeded`. The loop variant
    /// `pot` proves the walk terminates on every well-formed layout.
    #[verifier::loop_isolation(false)]
    #[verifier::rlimit(100)]
    pub fn execute(&mut self) -> (r: Result<Status, StackError>)
        requires
            old(self).wf(),
            wf_layout(old(self).nodes_spec()),
            old(self).nodes_spec().len() > 0,
        ensures
            final(self).wf(),
            final(self).nodes_spec() == old(self).nodes_spec(),
            final(self).has_trace() == old(self).has_trace(),
            ({
                let e = eval(old(self).nodes_spec(), 0, old(self).user_spec());
                match r {
                    Ok(status) => {
                        &&& e.depth <= H
                        &&& status == e.status
                        &&& final(self).user_spec() == e.state
                        &&& (final(self).has_trace() ==> final(self).trace_spec().len() == old(
                            self,
                        ).nodes_spec().len() && forall|i: int|
                            #![trigger final(self).trace_spec()[i]]
                            0 <= i < old(self).nodes_spec().len() ==> final(self).trace_spec()[i]
                                == (if e.visits.dom().contains(i) {
                                Some(e.visits[i])
                            } else {
                                None::<Status>
                            }))
                    },
                    Err(err) => err == StackError::CapacityExceeded && e.depth > H,
                }
            }),
    {
        let ghost st0 = self.user_data;
        let ghost nodes0 = self.layout_nodes@;
        let ghost had_trace = self.trace is Some;
        let n = self.layout_nodes.len();
        // reset every progress record and trace slot in place: the pass
        // allocates nothing, and no state leaks from an earlier pass
        let mut k: usize = 0;
        while k < n
            invariant
                k <= n,
                self.wf(),
                n == N,
                self.layout_nodes@ == nodes0,
                self.user_data == st0,
                (self.trace is Some) == had_trace,
                forall|i: int| 0 <= i < k ==> #[trigger] self.runtime_datas@[i] == rt_reset(),
            decreases n - k,
        {
            self.runtime_datas.set(k, RuntimeData::default());
            k = k + 1;
        }
        if self.trace.is_some() {
            let mut j: usize = 0;
            while j < n
                invariant
                    j <= n,
                    self.wf(),
                    n == N,
                    self.layout_nodes@ == nodes0,
                    self.user_data == st0,
                    self.trace is Some,
                    had_trace,
                    forall|i: int| 0 <= i < n ==> #[trigger] self.runtime_datas@[i] == rt_reset(),
                    forall|i: int| 0 <= i < j ==> self.trace->Some_0@[i] == None::<Status>,
                decreases n - j,
            {
                if let Some(tr) = &mut self.trace {
                    tr.set(j, None);
                }
                j = j + 1;
            }
        }
        self.stack = Stack::default();
        match self.stack.push(0) {
            Ok(_) => {},
            Err(e) => {
                proof {
                    lemma_eval_depth(nodes0, 0, st0);
                }
                return Err(e);
            },
        }
        let mut res = Status::Success;
        let ghost mut hist = Hist { st0: st0, gtrace: Map::<int, Status>::empty(), seen: 1nat };
        proof {
            let stk = self.stack@;
            let rts = self.runtime_datas@;
            assert(stk == Seq::<usize>::empty().push(0usize));
            assert(stk.len() == 1 && stk.last() == 0usize && stk[0] == 0usize);
            assert(forall|i: int| 0 <= i < n ==> #[trigger] rts[i] == rt_reset());
            let e0 = eval(nodes0, 0, st0);
            lemma_eval_depth(nodes0, 0, st0);
            assert(pending(nodes0, 0, rts[0], res, st0) == e0);
            assert(stk.drop_last() =~= Seq::<usize>::empty());
            let above = unwind(nodes0, stk.drop_last(), rts, e0.status, e0.state);
            assert(above == Run {
                status: e0.status,
                state: e0.state,
                visits: Map::<int, Status>::empty(),
                depth: 0nat,
            });
            let w = unwind(nodes0, stk, rts, res, st0);
            assert(w.status == e0.status && w.state == e0.state);
            assert(w.visits == e0.visits.union_prefer_right(Map::<int, Status>::empty()));
            assert(e0.visits =~= hist.gtrace.union_prefer_right(w.visits));
            assert(w.depth == nat_max((stk.len() - 1 + e0.depth) as nat, 0nat));
            assert(e0.depth == nat_max(hist.seen, w.depth));
            assert(self.exec_inv(res, hist));
        }
        while !self.stack.is_empty()
            invariant
                self.exec_inv(res, hist),
                self.layout_nodes@ == nodes0,
                hist.st0 == st0,
                (self.trace is Some) == had_trace,
            decreases pot(self.layout_nodes@, self.stack@, self.runtime_datas@),
        {
            let ghost stk0 = self.stack@;
            let ghost rts0 = self.runtime_datas@;
            let ghost st_pre = self.user_data;
            let ghost res0 = res;
            let ghost hist0 = hist;
            let ghost e0 = eval(nodes0, 0, st0);

            let current_index: usize = match self.stack.peek() {
                Ok(v) => *v,
                Err(e) => {
                    return Err(e);
                },
            };
            proof {
                assert(stk0[stk0.len() - 1] == current_index);
                assert((current_index as int) < nodes0.len());
                assert(stk0.contains(current_index));
            }
            let ghost t = current_index as int;

            let mut composite: Option<(usize, Status)> = None;
            match &self.layout_nodes[current_index] {
                LayoutNode::Leaf { action, .. } => {
                    match self.stack.pop() {
                        Ok(_) => {},
                        Err(e) => {
                            return Err(e);
                        },
                    }
                    let s = action.call(&mut self.user_data);
                    res = s;
                    if let Some(tr) = &mut self.trace {
                        tr.set(current_index, Some(s));
                    }
                    proof {
                        hist = Hist {
                            st0: hist0.st0,
                            gtrace: hist0.gtrace.insert(t, s),
                            seen: hist0.seen,
                        };
                        // the leaf's record was never touched, so its pending
                        // work was exactly one action call
                        assert(!rts0[t].started);
                        assert(rts0[t] == rt_reset());
                        let cur = pending(nodes0, t, rts0[t], res0, st_pre);
                        assert(cur == eval(nodes0, t, st_pre));
                        assert(cur.status == s && cur.state == self.user_data);
                        assert(cur.visits == Map::<int, Status>::empty().insert(t, s));
                        assert(cur.depth == 1);
                        let stk1 = self.stack@;
                        assert(stk1 == stk0.drop_last());
                        let w0 = unwind(nodes0, stk0, rts0, res0, st_pre);
                        let above = unwind(nodes0, stk1, rts0, cur.status, cur.state);
                        assert(w0.status == above.status && w0.state == above.state);
                        assert(w0.visits == cur.visits.union_prefer_right(above.visits));
                        assert(w0.depth == nat_max((stk0.len() - 1 + cur.depth) as nat, above.depth));
                        assert(e0.visits =~= hist.gtrace.union_prefer_right(above.visits));
                        assert(stk0.len() <= hist0.seen);
                        assert(e0.depth == nat_max(hist.seen, above.depth));
                        assert(forall|j: int| #![trigger stk1[j]]
                            0 <= j < stk1.len() ==> stk1[j] == stk0[j]);
                        assert forall|i: int| 0 <= i < nodes0.len() && !stk1.contains(i as usize)
                            implies rts0[i] == rt_reset() by {
                            if stk0.contains(i as usize) {
                                let j = choose|j: int| 0 <= j < stk0.len() && stk0[j] == i as usize;
                                if j < stk0.len() - 1 {
                                    assert(stk1[j] == stk0[j]);
                                    assert(stk1.contains(i as usize));
                                } else {
                                    assert(i == t);
                                }
                            }
                        }
                        assert(node_work(nodes0, t) == 1);
                        assert(pot(nodes0, stk0, rts0) == pot(nodes0, stk1, rts0) + 1);
                        assert(self.exec_inv(res, hist));
                    }
                },
                LayoutNode::Sequence { first_child, .. } => {
                    composite = Some((*first_child, Status::Failure));
                },
                LayoutNode::Fallback { first_child, .. } => {
                    composite = Some((*first_child, Status::Success));
                },
            }
            if let Some(fc_stop) = composite {
                proof {
                    assert(composite_shape(nodes0[t], fc_stop.0, fc_stop.1));
                }
                match self.composite_step(current_index, fc_stop.0, fc_stop.1, res, Ghost(hist)) {
                    Ok(ok) => {
                        res = ok.0;
                        proof {
                            hist = ok.1@;
                        }
                    },
                    Err(e) => {
                        return Err(e);
                    },
                }
            }
        }
        proof {
            let e0 = eval(nodes0, 0, st0);
            let w = unwind(nodes0, self.stack@, self.runtime_datas@, res, self.user_data);
            assert(w == Run {
                status: res,
                state: self.user_data,
                visits: Map::<int, Status>::empty(),
                depth: 0nat,
            });
            assert(e0.status == res && e0.state == self.user_data);
            assert(e0.visits =~= hist.gtrace);
            assert(e0.depth == nat_max(hist.seen, 0nat));
            assert(e0.depth <= H);
        }
        Ok(res)
    }

    /// Reads one slot of the trace left by the most recent pass: `None`
    /// when no trace is attached, the slot is out of range, or the node
    /// was not visited.
    pub fn trace_entry(&self, index: usize) -> (r: Option<Status>)
        ensures
            (self.has_trace() && (index as int) < self.trace_spec().len()) ==> r
                == self.trace_spec()[index as int],
            !self.has_trace() ==> r is None,
    {
        match &self.trace {
            Some(t) => if index < t.len() {
                t[index]
            } else {
                None
            },
            None => None,
        }
    }
}

/// An action for status-array user state: it reports the entry at a
/// fixed index and never changes the state. Out-of-range reads and a
/// missing state report failure.
pub struct IndexAction {
    pub index: usize,
}

impl Action<Vec<Status>> for IndexAction {
    open spec fn outcome(&self, user_data: Option<Vec<Status>>) -> Status {
        match user_data {
            Some(v) => if self.index < v@.len() {
                v@[self.index as int]
            } else {
                Status::Failure
            },
            None => Status::Failure,
        }
    }

    open spec fn updated(&self, user_data: Option<Vec<Status>>) -> Option<Vec<Status>> {
        user_data
    }

    fn call(&self, user_data: &mut Option<Vec<Status>>) -> (res: Status) {
        match &*user_data {
            Some(v) => if self.index < v.len() {
                v[self.index]
            } else {
                Status::Failure
            },
            None => Status::Failure,
        }
    }
}

/// An action for counter user state: it succeeds and counts down while
/// the counter is positive, and fails once it reaches zero. A missing
/// state fails. It shows an action that changes the user state.
pub struct CountdownAction {}

impl Action<usize> for CountdownAction {
    open spec fn outcome(&self, user_data: Option<usize>) -> Status {
        match user_data {
            Some(n) => if n > 0 {
                Status::Success
            } else {
                Status::Failure
            },
            None => Status::Failure,
        }
    }

    open spec fn updated(&self, user_data: Option<usize>) -> Option<usize> {
        match user_data {
            Some(n) => if n > 0 {
                Some((n - 1) as usize)
            } else {
                Some(n)
            },
            None => None,
        }
    }

    fn call(&self, user_data: &mut Option<usize>) -> (res: Status) {
        match *user_data {
            Some(n) => if n > 0 {
                *user_data = Some(n - 1);
                Status::Success
            } else {
                Status::Failure
            },
            None => Status::Failure,
        }
    }
}

} // verus!
