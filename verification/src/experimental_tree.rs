//! A tree whose nodes carry data of the user's choosing, kept up to date
//! from the node's text or children.

use vstd::prelude::*;

verus! {

/// The data a tree keeps at each node. The tree asks the node to update
/// itself whenever the node's text or children are set.
pub trait TreeNode: Sized {
    fn empty() -> Self;

    fn update_text(&mut self, text: &str);

    fn update_forest(&mut self, child_nodes: Vec<&Self>);
}

/// A tree: either foresty (a node with child trees) or texty (a node with text).
pub enum Tree<Node: TreeNode> {
    Forest(Node, Vec<Tree<Node>>),
    Text(Node, String),
}

impl<Node: TreeNode> Tree<Node> {
    /// Construct a new foresty tree.
    pub fn new_forest(node: Node, children: Vec<Tree<Node>>) -> (tree: Tree<Node>)
        ensures
            tree matches Tree::Forest(_, c) && c@ == children@,
    {
        let ghost kids = children@;
        let mut tree = Tree::Forest(node, children);
        tree.update();
        assert(tree matches Tree::Forest(_, c) && c@ == kids);
        tree
    }

    /// Construct a new texty tree.
    pub fn new_text(node: Node, text: String) -> (tree: Tree<Node>)
        ensures
            tree matches Tree::Text(_, t) && t@ == text@,
    {
        let ghost s = text@;
        let mut tree = Tree::Text(node, text);
        tree.update();
        assert(tree matches Tree::Text(_, t) && t@ == s);
        tree
    }

    /// Is this tree texty?
    pub fn is_texty(&self) -> (b: bool)
        ensures
            b == self is Text,
    {
        match self {
            Tree::Forest(_, _) => false,
            Tree::Text(_, _) => true,
        }
    }

    /// The text of a texty tree.
    pub fn text(&self) -> (t: &String)
        requires
            self is Text,
        ensures
            self matches Tree::Text(_, s) && t@ == s@,
    {
        match self {
            Tree::Text(_, text) => text,
            Tree::Forest(_, _) => {
                unreached()
            },
        }
    }

    /// The text of a texty tree, to be changed.
    pub fn text_mut(&mut self) -> (t: &mut String)
        requires
            *old(self) is Text,
        ensures
            *old(self) matches Tree::Text(n, s) && *t == s && *final(self) == Tree::Text(n, *final(t)),
    {
        match self {
            Tree::Text(_, text) => text,
            Tree::Forest(_, _) => unreached(),
        }
    }

    /// Is this tree foresty?
    pub fn is_foresty(&self) -> (b: bool)
        ensures
            b == self is Forest,
    {
        match self {
            Tree::Forest(_, _) => true,
            Tree::Text(_, _) => false,
        }
    }

    /// The children of a foresty tree.
    pub fn forest(&self) -> (f: &Vec<Tree<Node>>)
        requires
            self is Forest,
        ensures
            self matches Tree::Forest(_, c) && f@ == c@,
    {
        match self {
            Tree::Forest(_, forest) => forest,
            Tree::Text(_, _) => {
                unreached()
            },
        }
    }

    /// The children of a foresty tree, to be changed.
    pub fn forest_mut(&mut self) -> (f: &mut Vec<Tree<Node>>)
        requires
            *old(self) is Forest,
        ensures
            *old(self) matches Tree::Forest(n, c) && *f == c && *final(self) == Tree::Forest(n, *final(f)),
    {
        match self {
            Tree::Forest(_, forest) => forest,
            Tree::Text(_, _) => unreached(),
        }
    }

    /// Child `index` of a foresty tree.
    pub fn index(&self, index: usize) -> (child: &Tree<Node>)
        requires
            self matches Tree::Forest(_, c) && index < c@.len(),
        ensures
            self matches Tree::Forest(_, c) && *child == c@[index as int],
    {
        match self {
            Tree::Forest(_, forest) => &forest[index],
            Tree::Text(_, _) => {
                unreached()
            },
        }
    }

    /// Child `index` of a foresty tree, to be changed.
    pub fn index_mut(&mut self, index: usize) -> (child: &mut Tree<Node>)
        requires
            *old(self) matches Tree::Forest(_, c) && index < c@.len(),
        ensures
            *old(self) matches Tree::Forest(n, c) && *child == c@[index as int] && (
            *final(self) matches Tree::Forest(n2, c2) && n2 == n && c2@ == c@.update(
                index as int,
                *final(child),
            )),
    {
        match self {
            Tree::Forest(_, forest) => &mut forest[index],
            Tree::Text(_, _) => unreached(),
        }
    }

    fn node(&self) -> (n: &Node)
        ensures
            match self {
                Tree::Forest(m, _) => *n == m,
                Tree::Text(m, _) => *n == m,
            },
    {
        match self {
            Tree::Forest(node, _) => node,
            Tree::Text(node, _) => node,
        }
    }

    /// Bring the node's data up to date with its text or children. Must be
    /// called every time this tree or one of its children is modified.
    fn update(&mut self)
        ensures
            match (*old(self), *final(self)) {
                (Tree::Forest(_, a), Tree::Forest(_, b)) => a@ == b@,
                (Tree::Text(_, a), Tree::Text(_, b)) => a@ == b@,
                _ => false,
            },
    {
        match self {
            Tree::Forest(node, forest) => {
                let mut nodes: Vec<&Node> = Vec::new();
                let mut i: usize = 0;
                while i < forest.len()
                    invariant
                        i <= forest@.len(),
                    decreases forest@.len() - i,
                {
                    nodes.push(forest[i].node());
                    i = i + 1;
                }
                node.update_forest(nodes);
            },
            Tree::Text(node, text) => {
                node.update_text(text.as_str());
            },
        }
    }
}

} // verus!
