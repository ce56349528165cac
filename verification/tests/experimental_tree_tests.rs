use synless::experimental_tree::{Tree, TreeNode};

/// Counts the characters in a tree's text.
#[derive(Debug, PartialEq)]
struct Len(usize);

impl TreeNode for Len {
    fn empty() -> Self {
        Len(0)
    }
    fn update_text(&mut self, text: &str) {
        self.0 = text.chars().count();
    }
    fn update_forest(&mut self, child_nodes: Vec<&Self>) {
        self.0 = child_nodes.iter().map(|n| n.0).sum();
    }
}

fn node_len(t: &Tree<Len>) -> usize {
    match t {
        Tree::Forest(n, _) => n.0,
        Tree::Text(n, _) => n.0,
    }
}

fn example_tree() -> Tree<Len> {
    Tree::new_forest(
        Len::empty(),
        vec![
            Tree::new_text(Len::empty(), "hi".to_string()),
            Tree::new_forest(Len::empty(), vec![Tree::new_text(Len::empty(), "world".to_string())]),
        ],
    )
}

#[test]
fn test_trees() {
    let mut tree = example_tree();
    assert_eq!(node_len(&tree), 7);
    assert_eq!(node_len(tree.index(0)), 2);
    assert_eq!(node_len(tree.index(1)), 5);
    assert_eq!(tree.forest().len(), 2);
    assert!(tree.is_foresty());
    assert!(!tree.is_texty());
    let hi = tree.index(0);
    assert!(hi.is_texty());
    assert!(!hi.is_foresty());
    assert_eq!(hi.text().as_str(), "hi");
    {
        let world = tree.index_mut(1).index_mut(0);
        assert_eq!(world.text_mut().as_str(), "world");
        world.text_mut().push('!');
        assert_eq!(world.text().as_str(), "world!");
    }
    {
        let sub = tree.index_mut(1);
        assert_eq!(sub.forest_mut().len(), 1);
    }
}
