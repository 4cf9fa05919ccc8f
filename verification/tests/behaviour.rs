use bht::BehaviourTree;
use bht::IndexAction;
use bht::LayoutNode;
use bht::Status;

fn leaf(index: usize) -> LayoutNode<IndexAction> {
    LayoutNode::new_leaf(IndexAction { index })
}

fn create_layout() -> Vec<LayoutNode<IndexAction>> {
    vec![
        LayoutNode::new_fallback(1),
        LayoutNode::new_sequence(2).with_sibling(22),
        LayoutNode::new_fallback(3).with_sibling(15),
        LayoutNode::new_fallback(4).with_sibling(6),
        leaf(0).with_sibling(5),
        leaf(1),
        leaf(2).with_sibling(7),
        LayoutNode::new_fallback(8),
        LayoutNode::new_sequence(9).with_sibling(13),
        LayoutNode::new_sequence(10).with_sibling(12),
        leaf(3).with_sibling(11),
        leaf(4),
        leaf(5),
        leaf(6).with_sibling(14),
        leaf(7),
        LayoutNode::new_fallback(16),
        LayoutNode::new_sequence(17).with_sibling(21),
        LayoutNode::new_sequence(18).with_sibling(20),
        leaf(8).with_sibling(19),
        leaf(9),
        leaf(10),
        leaf(11),
        leaf(12).with_sibling(23),
        LayoutNode::new_sequence(24),
        LayoutNode::new_fallback(25).with_sibling(27),
        leaf(13).with_sibling(26),
        leaf(14),
        leaf(15),
    ]
}

#[test]
fn all_success() {
    let test_leaves_status = vec![Status::Success; 16];

    let layout = create_layout();

    let mut bht = BehaviourTree::<Vec<Status>, IndexAction, 28, 7>::new(layout)
        .with_user_data(test_leaves_status);
    let res = bht.execute();

    assert_eq!(res, Ok(Status::Success))
}

#[test]
fn all_failure() {
    let test_leaves_status = vec![Status::Failure; 16];

    let layout = create_layout();

    let mut bht = BehaviourTree::<Vec<Status>, IndexAction, 28, 7>::new(layout)
        .with_user_data(test_leaves_status);
    let res = bht.execute();

    assert_eq!(res, Ok(Status::Failure))
}

#[test]
fn success_1() {
    let mut test_leaves_status = vec![Status::Failure; 16];
    test_leaves_status[12] = Status::Success;

    let layout = create_layout();

    let mut bht = BehaviourTree::<Vec<Status>, IndexAction, 28, 7>::new(layout)
        .with_user_data(test_leaves_status);
    let res = bht.execute();

    assert_eq!(res, Ok(Status::Success))
}

#[test]
fn success_2() {
    let mut test_leaves_status = vec![Status::Success; 16];
    for i in 0..4 {
        test_leaves_status[i + 12] = Status::Failure;
    }

    let layout = create_layout();

    let mut bht = BehaviourTree::<Vec<Status>, IndexAction, 28, 7>::new(layout)
        .with_user_data(test_leaves_status);
    let res = bht.execute();

    assert_eq!(res, Ok(Status::Success))
}

#[test]
fn success_3() {
    let test_leaves_status = vec![
        Status::Failure,
        Status::Failure,
        Status::Failure,
        Status::Failure,
        Status::Failure,
        Status::Failure,
        Status::Failure,
        Status::Failure,
        Status::Success,
        Status::Success,
        Status::Success,
        Status::Success,
        Status::Failure,
        Status::Success,
        Status::Failure,
        Status::Success,
    ];

    let layout = create_layout();

    let mut bht = BehaviourTree::<Vec<Status>, IndexAction, 28, 7>::new(layout)
        .with_user_data(test_leaves_status);
    let res = bht.execute();

    assert_eq!(res, Ok(Status::Success))
}

#[test]
fn failure_1() {
    let test_leaves_status = vec![
        Status::Success,
        Status::Success,
        Status::Success,
        Status::Success,
        Status::Success,
        Status::Success,
        Status::Success,
        Status::Success,
        Status::Failure,
        Status::Failure,
        Status::Failure,
        Status::Failure,
        Status::Failure,
        Status::Success,
        Status::Success,
        Status::Failure,
    ];

    let layout = create_layout();

    let mut bht = BehaviourTree::<Vec<Status>, IndexAction, 28, 7>::new(layout)
        .with_user_data(test_leaves_status);
    let res = bht.execute();

    assert_eq!(res, Ok(Status::Failure))
}

#[test]
fn failure_2() {
    let test_leaves_status = vec![
        Status::Success,
        Status::Success,
        Status::Success,
        Status::Success,
        Status::Success,
        Status::Success,
        Status::Success,
        Status::Success,
        Status::Failure,
        Status::Success,
        Status::Success,
        Status::Failure,
        Status::Failure,
        Status::Success,
        Status::Success,
        Status::Failure,
    ];

    let layout = create_layout();

    let mut bht = BehaviourTree::<Vec<Status>, IndexAction, 28, 7>::new(layout)
        .with_user_data(test_leaves_status);
    let res = bht.execute();

    assert_eq!(res, Ok(Status::Failure))
}

#[test]
fn failure_3() {
    let test_leaves_status = vec![
        Status::Failure,
        Status::Success,
        Status::Failure,
        Status::Success,
        Status::Success,
        Status::Success,
        Status::Success,
        Status::Success,
        Status::Failure,
        Status::Success,
        Status::Success,
        Status::Failure,
        Status::Failure,
        Status::Success,
        Status::Success,
        Status::Failure,
    ];

    let layout = create_layout();

    let mut bht = BehaviourTree::<Vec<Status>, IndexAction, 28, 7>::new(layout)
        .with_user_data(test_leaves_status);
    let res = bht.execute();

    assert_eq!(res, Ok(Status::Failure))
}
