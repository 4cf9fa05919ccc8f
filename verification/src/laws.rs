//! The composite-node laws of the evaluation model: what a sequence
//! and a fallback report, that they short-circuit, and that a pass is
//! a function of layout and initial state alone.

use crate::behaviour_tree::Action;
use crate::behaviour_tree::LayoutNode;
use crate::behaviour_tree::Run;
use crate::behaviour_tree::Status;
use crate::behaviour_tree::eval;
use crate::behaviour_tree::eval_chain;
use crate::behaviour_tree::flip;
use crate::behaviour_tree::wf_layout;
use crate::behaviour_tree::wf_node;
use vstd::prelude::*;

verus! {

/// Whether every child of the chain at `c`, run left to right with the
/// user state threaded through, avoids the `stop` status.
pub open spec fn chain_avoids<U, A: Action<U>>(
    nodes: Seq<LayoutNode<A>>,
    c: Option<usize>,
    st: Option<U>,
    stop: Status,
) -> bool
    decreases
            (match c {
                Some(cc) => nodes.len() - cc,
                None => 0int,
            }),
        when wf_layout(nodes) && (match c {
            Some(cc) => 0 <= cc < nodes.len(),
            None => true,
        })
{
    match c {
        None => true,
        Some(cc) => {
            proof {
                assert(wf_node(nodes, cc as int));
            }
            let head = eval(nodes, cc as int, st);
            head.status != stop && chain_avoids(
                nodes,
                nodes[cc as int].sibling_spec(),
                head.state,
                stop,
            )
        },
    }
}

/// A child chain reports the opposite of `stop` exactly when every
/// child avoids `stop`, and `stop` itself otherwise.
pub proof fn lemma_chain_status<U, A: Action<U>>(
    nodes: Seq<LayoutNode<A>>,
    c: Option<usize>,
    st: Option<U>,
    stop: Status,
)
    requires
        wf_layout(nodes),
        match c {
            Some(cc) => 0 <= cc < nodes.len(),
            None => true,
        },
    ensures
        eval_chain(nodes, c, st, stop).status == (if chain_avoids(nodes, c, st, stop) {
            flip(stop)
        } else {
            stop
        }),
    decreases
            (match c {
                Some(cc) => nodes.len() - cc,
                None => 0int,
            }),
{
    match c {
        None => {},
        Some(cc) => {
            assert(wf_node(nodes, cc as int));
            let head = eval(nodes, cc as int, st);
            if head.status != stop {
                lemma_chain_status(nodes, nodes[cc as int].sibling_spec(), head.state, stop);
            }
        },
    }
}

/// A sequence node succeeds exactly when all of its children, run in
/// order with the state threaded through, avoid failure; equivalently,
/// it fails exactly when some child fails.
pub proof fn lemma_sequence_status<U, A: Action<U>>(
    nodes: Seq<LayoutNode<A>>,
    i: int,
    st: Option<U>,
)
    requires
        wf_layout(nodes),
        0 <= i < nodes.len(),
        nodes[i] is Sequence,
    ensures
        eval(nodes, i, st).status == Status::Success <==> chain_avoids(
            nodes,
            Some(nodes[i].first_child_spec()),
            st,
            Status::Failure,
        ),
{
    assert(wf_node(nodes, i));
    lemma_chain_status(nodes, Some(nodes[i].first_child_spec()), st, Status::Failure);
}

/// A fallback node fails exactly when all of its children, run in
/// order with the state threaded through, avoid success; equivalently,
/// it succeeds exactly when some child succeeds.
pub proof fn lemma_fallback_status<U, A: Action<U>>(
    nodes: Seq<LayoutNode<A>>,
    i: int,
    st: Option<U>,
)
    requires
        wf_layout(nodes),
        0 <= i < nodes.len(),
        nodes[i] is Fallback,
    ensures
        eval(nodes, i, st).status == Status::Failure <==> chain_avoids(
            nodes,
            Some(nodes[i].first_child_spec()),
            st,
            Status::Success,
        ),
{
    assert(wf_node(nodes, i));
    lemma_chain_status(nodes, Some(nodes[i].first_child_spec()), st, Status::Success);
}

/// A child that reports the short-circuiting status ends its chain at
/// once: the chain's run is that child's run, so nothing after it is
/// visited, no later state change happens, and no deeper level is
/// reached.
pub proof fn lemma_chain_short_circuit<U, A: Action<U>>(
    nodes: Seq<LayoutNode<A>>,
    c: usize,
    st: Option<U>,
    stop: Status,
)
    requires
        wf_layout(nodes),
        0 <= c < nodes.len(),
        eval(nodes, c as int, st).status == stop,
    ensures
        eval_chain(nodes, Some(c), st, stop) == (Run {
            status: stop,
            state: eval(nodes, c as int, st).state,
            visits: eval(nodes, c as int, st).visits,
            depth: eval(nodes, c as int, st).depth,
        }),
{
}

/// Running a pass twice in a row is idempotent: when the first pass
/// leaves the user state as it found it, the second pass reports the
/// same status, because a pass is a function of the layout and the
/// initial user state alone and every pass starts from reset progress
/// records.
pub proof fn lemma_execute_idempotent<U, A: Action<U>>(nodes: Seq<LayoutNode<A>>, st: Option<U>)
    requires
        wf_layout(nodes),
        0 < nodes.len(),
        eval(nodes, 0, st).state == st,
    ensures
        eval(nodes, 0, eval(nodes, 0, st).state).status == eval(nodes, 0, st).status,
{
}

} // verus!
