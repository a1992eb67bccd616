use minitorch_rust::autograd::plan::{BackwardPlan, GraphNode};

fn leaf(requires_grad: bool) -> GraphNode {
    GraphNode { requires_grad, edge: None }
}

fn op(operands: Vec<usize>) -> GraphNode {
    GraphNode { requires_grad: true, edge: Some(operands) }
}

// x, y trainable leaves; m = x * y; z = m + x; c frozen; out = z * c.
fn sample_graph() -> Vec<GraphNode> {
    vec![leaf(true), leaf(true), op(vec![0, 1]), op(vec![2, 0]), leaf(false), op(vec![3, 4])]
}

#[test]
fn plan_walks_breadth_first_from_the_output() {
    let graph = sample_graph();
    let plan = BackwardPlan::build(&graph, 5);
    assert_eq!(plan.seed_idx, 0);
    assert_eq!(plan.nodes, vec![5, 3, 4, 2, 0, 1]);
    assert_eq!(plan.operands, vec![vec![1, 2], vec![3, 4], vec![], vec![4, 5], vec![], vec![]]);
    assert_eq!(plan.base_in_degree, vec![0, 1, 1, 1, 2, 1]);
    assert_eq!(plan.requires_grad, vec![true, true, false, true, true, true]);
    assert_eq!(plan.has_rule, vec![true, true, false, true, false, false]);
    assert_eq!(plan.is_leaf, vec![false, false, true, false, true, true]);
}

#[test]
fn schedule_runs_a_node_after_all_its_users() {
    let graph = sample_graph();
    let plan = BackwardPlan::build(&graph, 5);
    let order = plan.schedule();
    assert_eq!(order, vec![0, 1, 2, 3, 4, 5]);
    // x (index 4) is used by z (index 1) and m (index 3): it comes after both.
    let pos = |i: usize| order.iter().position(|&v| v == i).unwrap();
    assert!(pos(4) > pos(1) && pos(4) > pos(3));
}

#[test]
fn kept_gradients_are_leaves_unless_retaining() {
    let graph = sample_graph();
    let plan = BackwardPlan::build(&graph, 5);
    let order = plan.schedule();
    assert_eq!(plan.kept_gradients(&order, false), vec![false, false, false, false, true, true]);
    assert_eq!(plan.kept_gradients(&order, true), vec![true, true, false, true, true, true]);
}

#[test]
fn frozen_output_follows_nothing() {
    let graph = vec![leaf(true), GraphNode { requires_grad: false, edge: None }];
    let plan = BackwardPlan::build(&graph, 1);
    assert_eq!(plan.nodes, vec![1]);
    assert_eq!(plan.operands, vec![Vec::<usize>::new()]);
    assert_eq!(plan.base_in_degree, vec![0]);
}

#[test]
fn repeated_operand_counts_twice() {
    // y = x * x
    let graph = vec![leaf(true), op(vec![0, 0])];
    let plan = BackwardPlan::build(&graph, 1);
    assert_eq!(plan.nodes, vec![1, 0]);
    assert_eq!(plan.operands, vec![vec![1, 1], vec![]]);
    assert_eq!(plan.base_in_degree, vec![0, 2]);
    assert_eq!(plan.schedule(), vec![0, 1]);
}

#[test]
fn cycle_members_are_never_scheduled() {
    // 0 -> 1 -> 2 -> 1 : index of 2 waits on 1 and 1 waits on 2
    let graph = vec![op(vec![1]), op(vec![2]), op(vec![1])];
    let plan = BackwardPlan::build(&graph, 0);
    assert_eq!(plan.base_in_degree, vec![0, 2, 1]);
    assert_eq!(plan.schedule(), vec![0]);
}
