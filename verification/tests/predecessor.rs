use treewidth_heuristic::fill_bags_along_paths::{Predecessor, PredecessorSet};

#[test]
fn test_predecessor_eq() {
    let predecessor_one = Predecessor {
        node_index: 1,
        level_index: 1,
    };
    let predecessor_two = Predecessor {
        node_index: 5,
        level_index: 1,
    };

    let mut predecessors = PredecessorSet::new();
    predecessors.insert(predecessor_one);
    predecessors.insert(predecessor_two);

    assert_eq!(predecessors.len(), 2);
}

#[test]
fn test_predecessor_set_coalesces_duplicates() {
    let mut predecessors = PredecessorSet::new();
    predecessors.insert(Predecessor {
        node_index: 3,
        level_index: 2,
    });
    predecessors.insert(Predecessor {
        node_index: 3,
        level_index: 2,
    });
    assert_eq!(predecessors.len(), 1);
}

#[test]
fn test_predecessor_set_pops_deepest() {
    let mut predecessors = PredecessorSet::new();
    predecessors.insert(Predecessor {
        node_index: 7,
        level_index: 1,
    });
    predecessors.insert(Predecessor {
        node_index: 2,
        level_index: 4,
    });
    predecessors.insert(Predecessor {
        node_index: 9,
        level_index: 4,
    });
    let top = predecessors.pop_last();
    assert_eq!(top.level_index, 4);
    assert_eq!(top.node_index, 9);
    assert_eq!(predecessors.len(), 2);
}
