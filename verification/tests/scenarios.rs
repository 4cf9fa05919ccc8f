use bht::BehaviourTree;
use bht::CountdownAction;
use bht::IndexAction;
use bht::LayoutNode;
use bht::StackError;
use bht::Status;

fn leaf(index: usize) -> LayoutNode<IndexAction> {
    LayoutNode::new_leaf(IndexAction { index })
}

// root = Fallback(seq1, seq2); seq1 = Sequence(leafA, leafB);
// seq2 = Sequence(leafC); leafD is never referenced.
// Node indices: 0 root, 1 seq1, 2 seq2, 3 leafA, 4 leafB, 5 leafC, 6 leafD.
fn two_sequence_layout() -> Vec<LayoutNode<IndexAction>> {
    vec![
        LayoutNode::new_fallback(1),
        LayoutNode::new_sequence(3).with_sibling(2),
        LayoutNode::new_sequence(5),
        leaf(0).with_sibling(4),
        leaf(1),
        leaf(2),
        leaf(3),
    ]
}

#[test]
fn fallback_of_sequences_with_trace() {
    // leafA succeeds, leafB fails, leafC succeeds: seq1 fails after
    // leafB, the fallback moves on to seq2, which succeeds on leafC.
    let statuses = vec![Status::Success, Status::Failure, Status::Success, Status::Success];
    let mut bht = BehaviourTree::<Vec<Status>, IndexAction, 7, 3>::new(two_sequence_layout())
        .with_user_data(statuses)
        .with_trace();
    let res = bht.execute();

    assert_eq!(res, Ok(Status::Success));
    assert_eq!(bht.trace_entry(0), Some(Status::Success));
    assert_eq!(bht.trace_entry(1), Some(Status::Failure));
    assert_eq!(bht.trace_entry(2), Some(Status::Success));
    assert_eq!(bht.trace_entry(3), Some(Status::Success));
    assert_eq!(bht.trace_entry(4), Some(Status::Failure));
    assert_eq!(bht.trace_entry(5), Some(Status::Success));
    // the unreferenced leafD was never visited
    assert_eq!(bht.trace_entry(6), None);
}

#[test]
fn sequence_short_circuits_at_first_failure() {
    // Sequence(leaf, leaf, leaf) with the middle one failing: the last
    // leaf is never visited.
    let layout = vec![
        LayoutNode::new_sequence(1),
        leaf(0).with_sibling(2),
        leaf(1).with_sibling(3),
        leaf(2),
    ];
    let statuses = vec![Status::Success, Status::Failure, Status::Success];
    let mut bht = BehaviourTree::<Vec<Status>, IndexAction, 4, 2>::new(layout)
        .with_user_data(statuses)
        .with_trace();
    let res = bht.execute();

    assert_eq!(res, Ok(Status::Failure));
    assert_eq!(bht.trace_entry(0), Some(Status::Failure));
    assert_eq!(bht.trace_entry(1), Some(Status::Success));
    assert_eq!(bht.trace_entry(2), Some(Status::Failure));
    assert_eq!(bht.trace_entry(3), None);
}

#[test]
fn fallback_short_circuits_at_first_success() {
    // Fallback(leaf, leaf, leaf) with the middle one succeeding: the
    // last leaf is never visited.
    let layout = vec![
        LayoutNode::new_fallback(1),
        leaf(0).with_sibling(2),
        leaf(1).with_sibling(3),
        leaf(2),
    ];
    let statuses = vec![Status::Failure, Status::Success, Status::Failure];
    let mut bht = BehaviourTree::<Vec<Status>, IndexAction, 4, 2>::new(layout)
        .with_user_data(statuses)
        .with_trace();
    let res = bht.execute();

    assert_eq!(res, Ok(Status::Success));
    assert_eq!(bht.trace_entry(0), Some(Status::Success));
    assert_eq!(bht.trace_entry(1), Some(Status::Failure));
    assert_eq!(bht.trace_entry(2), Some(Status::Success));
    assert_eq!(bht.trace_entry(3), None);
}

#[test]
fn fallback_fails_only_when_every_child_fails() {
    let layout = vec![
        LayoutNode::new_fallback(1),
        leaf(0).with_sibling(2),
        leaf(1).with_sibling(3),
        leaf(2),
    ];
    let statuses = vec![Status::Failure, Status::Failure, Status::Failure];
    let mut bht = BehaviourTree::<Vec<Status>, IndexAction, 4, 2>::new(layout)
        .with_user_data(statuses);
    assert_eq!(bht.execute(), Ok(Status::Failure));
}

// A straight chain: Sequence -> Sequence -> leaf, deepest path three
// levels, so a stack of capacity three suffices.
fn chain_layout() -> Vec<LayoutNode<IndexAction>> {
    vec![LayoutNode::new_sequence(1), LayoutNode::new_sequence(2), leaf(0)]
}

#[test]
fn depth_equal_to_capacity_succeeds() {
    let mut bht = BehaviourTree::<Vec<Status>, IndexAction, 3, 3>::new(chain_layout())
        .with_user_data(vec![Status::Success]);
    assert_eq!(bht.execute(), Ok(Status::Success));
}

#[test]
fn depth_one_beyond_capacity_fails() {
    let mut bht = BehaviourTree::<Vec<Status>, IndexAction, 3, 2>::new(chain_layout())
        .with_user_data(vec![Status::Success]);
    assert_eq!(bht.execute(), Err(StackError::CapacityExceeded));
}

#[test]
fn repeated_execution_gives_the_same_status() {
    // the reading actions leave the user state unchanged, so a second
    // pass reports the same status
    let statuses = vec![Status::Success, Status::Failure, Status::Success, Status::Success];
    let mut bht = BehaviourTree::<Vec<Status>, IndexAction, 7, 3>::new(two_sequence_layout())
        .with_user_data(statuses);
    let first = bht.execute();
    let second = bht.execute();
    assert_eq!(first, Ok(Status::Success));
    assert_eq!(second, first);
}

#[test]
fn trace_keeps_no_entries_from_an_earlier_pass() {
    // Sequence(countdown, countdown) over a counter of one: the first
    // pass visits both leaves, the second fails at the first leaf and
    // never reaches the second, whose slot must be empty again.
    let layout = vec![
        LayoutNode::new_sequence(1),
        LayoutNode::new_leaf(CountdownAction {}).with_sibling(2),
        LayoutNode::new_leaf(CountdownAction {}),
    ];
    let mut bht = BehaviourTree::<usize, CountdownAction, 3, 2>::new(layout)
        .with_user_data(1)
        .with_trace();

    let first = bht.execute();
    assert_eq!(first, Ok(Status::Failure));
    assert_eq!(bht.trace_entry(1), Some(Status::Success));
    assert_eq!(bht.trace_entry(2), Some(Status::Failure));

    let second = bht.execute();
    assert_eq!(second, Ok(Status::Failure));
    assert_eq!(bht.trace_entry(1), Some(Status::Failure));
    assert_eq!(bht.trace_entry(2), None);
}

#[test]
fn no_trace_attached_reads_empty() {
    let mut bht = BehaviourTree::<Vec<Status>, IndexAction, 3, 3>::new(chain_layout())
        .with_user_data(vec![Status::Success]);
    assert_eq!(bht.execute(), Ok(Status::Success));
    assert_eq!(bht.trace_entry(0), None);
}

#[test]
fn builders_set_and_read_sibling_links() {
    let plain = LayoutNode::<IndexAction>::new_sequence(4);
    assert_eq!(plain.sibling(), None);
    let linked = plain.with_sibling(9);
    assert_eq!(linked.sibling(), Some(9));
    let fallback = LayoutNode::<IndexAction>::new_fallback(2).with_sibling(3);
    assert_eq!(fallback.sibling(), Some(3));
    let l = leaf(0).with_sibling(1);
    assert_eq!(l.sibling(), Some(1));
}

#[test]
fn missing_user_data_makes_leaves_fail() {
    // the reading action reports failure when no user state is attached
    let layout = vec![LayoutNode::new_fallback(1), leaf(0)];
    let mut bht = BehaviourTree::<Vec<Status>, IndexAction, 2, 2>::new(layout);
    assert_eq!(bht.execute(), Ok(Status::Failure));
}
