use std::fmt::Display;

use synless::forest::{Forest, NodeIndex};

/// Walks every tree of the forest, checking that the links agree, and
/// prints it.
struct Verifier<'a, D: Display> {
    node_count: usize,
    display: String,
    forest: &'a Forest<D>,
}

impl<'a, D: Display> Verifier<'a, D> {
    fn new(forest: &'a Forest<D>) -> Verifier<'a, D> {
        Verifier {
            node_count: 0,
            display: String::new(),
            forest,
        }
    }

    fn verify(mut self) -> String {
        for root in self.forest.all_roots() {
            self.verify_tree(root, None, root);
        }
        assert_eq!(self.node_count, self.forest.num_nodes());
        self.display
    }

    fn verify_tree(
        &mut self,
        node: NodeIndex,
        expected_parent: Option<NodeIndex>,
        expected_root: NodeIndex,
    ) {
        assert!(self.forest.is_valid(node));
        assert_eq!(self.forest.parent(node), expected_parent);
        assert_eq!(self.forest.root(node), expected_root);

        self.display.push('(');
        self.display.push_str(&format!("{}", self.forest.data(node)));
        self.node_count += 1;
        let mut num_children = 0;
        if let Some(first_child) = self.forest.first_child(node) {
            let mut child = first_child;
            assert!(self.forest.is_first(child));
            assert!(self.forest.prev(child).is_none());
            let last = self.forest.last_sibling(child);
            assert!(self.forest.is_last(last));
            assert!(self.forest.next(last).is_none());
            loop {
                self.display.push(' ');
                self.verify_tree(child, Some(node), expected_root);
                assert_eq!(self.forest.sibling_index(child), num_children);
                assert_eq!(self.forest.nth_child(node, num_children), Some(child));
                num_children += 1;
                match self.forest.next(child) {
                    None => break,
                    Some(c) => {
                        assert_eq!(self.forest.prev(c), Some(child));
                        child = c;
                    }
                }
            }
        }
        assert_eq!(self.forest.num_children(node), num_children);
        self.display.push(')');
    }
}

fn verify_and_print<D: Display>(forest: &Forest<D>) -> String {
    Verifier::new(forest).verify()
}

fn make_mirror(forest: &mut Forest<u32>, height: u32, id: u32) -> NodeIndex {
    if height == 0 {
        forest.new_node(id)
    } else {
        let parent = forest.new_node(id);
        for i in 0..height {
            let child = make_mirror(forest, i, id + 2_u32.pow(i));
            forest.insert_last_child(parent, child);
        }
        parent
    }
}

fn make_sisters(forest: &mut Forest<&'static str>) -> NodeIndex {
    let parent = forest.new_node("parent");
    let elder_sister = forest.new_node("elderSister");
    let younger_sister = forest.new_node("youngerSister");
    forest.insert_first_child(parent, younger_sister);
    forest.insert_first_child(parent, elder_sister);
    parent
}

#[test]
fn test_leaf() {
    let mut forest = Forest::new("");
    forest.new_node("leaf");
    assert_eq!(verify_and_print(&forest), "(leaf)");
}

#[test]
fn test_branch() {
    let mut forest = Forest::new("");
    make_sisters(&mut forest);
    assert_eq!(
        verify_and_print(&forest),
        "(parent (elderSister) (youngerSister))"
    );
}

#[test]
fn test_siblings() {
    let mut forest = Forest::new("");
    let parent = make_sisters(&mut forest);
    let elder = forest.first_child(parent).unwrap();
    let younger = forest.next(elder).unwrap();

    assert_eq!(forest.first_sibling(younger), elder);
    assert_eq!(forest.first_sibling(elder), elder);
    assert_eq!(forest.last_sibling(younger), younger);
    assert_eq!(forest.last_sibling(elder), younger);
}

#[test]
fn test_swap() {
    let mut forest = Forest::new("");
    let parent = make_sisters(&mut forest);
    let elder = forest.first_child(parent).unwrap();
    let younger = forest.next(elder).unwrap();

    forest.swap(elder, elder);
    assert_eq!(
        verify_and_print(&forest),
        "(parent (elderSister) (youngerSister))"
    );

    forest.swap(elder, younger);
    assert_eq!(
        verify_and_print(&forest),
        "(parent (youngerSister) (elderSister))"
    );

    forest.swap(elder, younger);
    assert_eq!(
        verify_and_print(&forest),
        "(parent (elderSister) (youngerSister))"
    );

    let middle = forest.new_node("middleSister");
    forest.insert_after(elder, middle);
    forest.swap(elder, middle);
    assert_eq!(
        verify_and_print(&forest),
        "(parent (middleSister) (elderSister) (youngerSister))"
    );

    forest.swap(middle, younger);
    assert_eq!(
        verify_and_print(&forest),
        "(parent (youngerSister) (elderSister) (middleSister))"
    );
}

#[test]
fn test_mirror() {
    let mut f = Forest::new(0);
    make_mirror(&mut f, 3, 0);
    assert_eq!(verify_and_print(&f), "(0 (1) (2 (3)) (4 (5) (6 (7))))");
}

fn nth_child<D>(f: &Forest<D>, n: usize, parent: NodeIndex) -> NodeIndex {
    let mut child = f.first_child(parent).unwrap();
    for _ in 0..n {
        child = f.next(child).unwrap();
    }
    child
}

#[test]
fn test_mutation() {
    let mut f = Forest::new(0);
    let root = make_mirror(&mut f, 3, 0);
    *f.data_mut(root) = 100;
    *f.data_mut(nth_child(&f, 0, nth_child(&f, 1, root))) = 33;
    let last_child = nth_child(&f, 2, root);
    *f.data_mut(nth_child(&f, 0, last_child)) = 55;
    *f.data_mut(nth_child(&f, 0, nth_child(&f, 1, last_child))) = 77;
    assert_eq!(verify_and_print(&f), "(100 (1) (2 (33)) (4 (55) (6 (77))))");
}

#[test]
fn test_modification() {
    let mut f = Forest::<&'static str>::new("");

    let kid = f.new_node("kid");
    let mama = f.new_node("mama");
    f.insert_first_child(kid, mama);
    let papa = f.new_node("papa");
    f.insert_last_child(kid, papa);

    let gram = f.new_node("gram");
    f.insert_last_child(mama, gram);
    let gramp = f.new_node("gramp");
    f.insert_first_child(mama, gramp);

    let ogramp = f.new_node("ogramp");
    f.insert_last_child(papa, ogramp);
    let ogram = f.new_node("ogram");
    f.insert_last_child(papa, ogram);

    assert_eq!(
        verify_and_print(&f),
        "(kid (mama (gramp) (gram)) (papa (ogramp) (ogram)))"
    );

    f.detach(mama);
    f.detach(mama);
    assert_eq!(
        verify_and_print(&f),
        "(kid (papa (ogramp) (ogram)))(mama (gramp) (gram))"
    );

    f.detach(gramp);
    f.insert_first_child(kid, gramp);
    assert_eq!(
        verify_and_print(&f),
        "(kid (gramp) (papa (ogramp) (ogram)))(mama (gram))"
    );

    f.swap(kid, mama);
    f.swap(gramp, gram);
    assert_eq!(
        verify_and_print(&f),
        "(kid (gram) (papa (ogramp) (ogram)))(mama (gramp))"
    );

    f.detach(papa);
    f.delete_root(papa);
    assert!(!f.is_valid(papa));
    assert!(!f.is_valid(ogramp));
    assert!(!f.is_valid(ogram));
    assert_eq!(verify_and_print(&f), "(kid (gram))(mama (gramp))");
}

#[test]
fn test_swap_cycle() {
    let mut f = Forest::<u32>::new(0);
    let parent = f.new_node(0);
    let child = f.new_node(0);
    f.insert_first_child(parent, child);
    assert!(!f.swap(parent, child));
}

#[test]
fn test_parents_and_children_agree() {
    let mut f = Forest::new(0);
    let root = make_mirror(&mut f, 3, 0);
    let c = nth_child(&f, 2, root);
    assert_eq!(f.parent(c), Some(root));
    assert_eq!(f.nth_child(root, 2), Some(c));
    assert_eq!(f.nth_child(root, 3), None);
    assert_eq!(f.num_children(root), 3);
    assert_eq!(f.root(nth_child(&f, 0, nth_child(&f, 1, c))), root);
}

#[test]
fn test_swap_twice_restores() {
    let mut f = Forest::new(0);
    let root = make_mirror(&mut f, 3, 0);
    let a = nth_child(&f, 1, root);
    let b = nth_child(&f, 0, nth_child(&f, 2, root));
    let before = verify_and_print(&f);
    assert!(f.swap(a, b));
    assert_eq!(verify_and_print(&f), "(0 (1) (5) (4 (2 (3)) (6 (7))))");
    assert!(f.swap(a, b));
    assert_eq!(verify_and_print(&f), before);
}

#[test]
fn test_swap_roots() {
    let mut f = Forest::new("");
    let a = f.new_node("a");
    let b = f.new_node("b");
    let c = f.new_node("c");
    f.insert_first_child(a, c);
    assert!(f.swap(a, b));
    assert_eq!(f.parent(a), None);
    assert_eq!(f.parent(c), Some(a));
    assert_eq!(verify_and_print(&f), "(a (c))(b)");
}

#[test]
fn test_delete_root_keeps_other_trees() {
    let mut f = Forest::new(0);
    let first = make_mirror(&mut f, 2, 0);
    let second = make_mirror(&mut f, 1, 10);
    assert_eq!(f.num_nodes(), 6);
    f.delete_root(first);
    assert!(!f.is_valid(first));
    assert!(f.is_valid(second));
    assert_eq!(f.num_nodes(), 2);
    assert_eq!(verify_and_print(&f), "(10 (11))");
    let again = f.new_node(7);
    assert!(f.is_valid(again));
    assert!(!f.is_valid(first));
    assert_eq!(verify_and_print(&f), "(10 (11))(7)");
}

#[test]
fn test_insert_before_and_after() {
    let mut f = Forest::new("");
    let parent = make_sisters(&mut f);
    let elder = f.first_child(parent).unwrap();
    let younger = f.next(elder).unwrap();
    let first = f.new_node("first");
    let last = f.new_node("last");
    f.insert_before(elder, first);
    f.insert_after(younger, last);
    assert_eq!(
        verify_and_print(&f),
        "(parent (first) (elderSister) (youngerSister) (last))"
    );
    assert_eq!(f.sibling_index(younger), 2);
    assert!(f.is_first(first));
    assert!(f.is_last(last));
}
