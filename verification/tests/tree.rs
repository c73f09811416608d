use lssg::tree::{Dfs, Node, Tree};

struct TestTree {
    nodes: Vec<TestNode>,
}
struct TestNode {
    children: Vec<usize>,
    parent: Option<usize>,
}
impl Node for TestNode {
    fn children(&self) -> &Vec<usize> {
        &self.children
    }

    fn parent(&self) -> Option<usize> {
        self.parent
    }
}
impl Tree for TestTree {
    type Node = TestNode;

    fn root(&self) -> usize {
        return 0;
    }

    fn get(&self, id: usize) -> &Self::Node {
        &self.nodes[id]
    }
}

#[test]
fn in_parent_order() {
    let tree = TestTree {
        nodes: vec![
            TestNode {
                children: vec![2, 1],
                parent: None,
            },
            TestNode {
                children: vec![6],
                parent: Some(0),
            },
            TestNode {
                children: vec![4],
                parent: Some(0),
            },
            TestNode {
                children: vec![5],
                parent: Some(6),
            },
            TestNode {
                children: vec![],
                parent: Some(2),
            },
            TestNode {
                children: vec![],
                parent: Some(3),
            },
            TestNode {
                children: vec![3],
                parent: Some(1),
            },
        ],
    };

    let mut dfs = Dfs::new(&tree);
    let mut order: Vec<usize> = vec![];
    while let Some(id) = dfs.next() {
        order.push(id);
    }
    assert_eq!(order, vec![0, 1, 6, 3, 5, 2, 4])
}

#[test]
fn dfs_from_node_visits_subtree() {
    let tree = TestTree {
        nodes: vec![
            TestNode { children: vec![1], parent: None },
            TestNode { children: vec![2, 3], parent: Some(0) },
            TestNode { children: vec![], parent: Some(1) },
            TestNode { children: vec![], parent: Some(1) },
        ],
    };
    let mut dfs = Dfs::from_node(&tree, 1);
    assert_eq!(dfs.next(), Some(1));
    assert_eq!(dfs.next(), Some(3));
    assert_eq!(dfs.next(), Some(2));
    assert_eq!(dfs.next(), None);
    assert_eq!(tree.get(1).parent(), Some(0));
}
