use probing_dict::linkedlist::{render, LNode};

fn double(x: i32) -> i32 {
    x * 2
}

fn describe(x: i32) -> String {
    format!("<{}>", x)
}

#[test]
fn empty_list_reads_null() {
    let list: LNode<i32> = LNode::empty();
    assert_eq!(list.to_string(), "Null");
}

#[test]
fn singleton_holds_one_value() {
    let list = LNode::singleton(5);
    assert_eq!(list.to_string(), "Node(5)->Null");
}

#[test]
fn insert_appends_at_the_end() {
    let list = LNode::singleton(1).insert(2).insert(3);
    assert_eq!(list.to_string(), "Node(1)->Node(2)->Node(3)->Null");
}

#[test]
fn insert_leaves_the_list_it_was_called_on() {
    let list = LNode::singleton(1);
    let longer = list.insert(2);
    assert_eq!(list.to_string(), "Node(1)->Null");
    assert_eq!(longer.to_string(), "Node(1)->Node(2)->Null");
}

#[test]
fn map_applies_the_function_to_each_value() {
    let list = LNode::from(&vec![1, 2, 3]);
    assert_eq!(list.map(double).to_string(), "Node(2)->Node(4)->Node(6)->Null");
    assert_eq!(
        list.map(describe).to_string(),
        "Node(<1>)->Node(<2>)->Node(<3>)->Null"
    );
    let none: LNode<i32> = LNode::empty();
    assert_eq!(none.map(double).to_string(), "Null");
}

#[test]
fn from_keeps_the_order_of_the_vector() {
    let list = LNode::from(&vec!["a".to_string(), "b".to_string(), "c".to_string()]);
    assert_eq!(list.to_string(), "Node(a)->Node(b)->Node(c)->Null");
    let none: LNode<u8> = LNode::from(&Vec::new());
    assert_eq!(none.to_string(), "Null");
}

#[test]
fn clone_copies_every_value() {
    let list = LNode::from(&vec![7, 8]);
    let copy = list.clone();
    assert_eq!(copy.to_string(), "Node(7)->Node(8)->Null");
    assert_eq!(list.to_string(), "Node(7)->Node(8)->Null");
}

#[test]
fn default_is_the_empty_list() {
    let list: LNode<i32> = LNode::default();
    assert_eq!(list.to_string(), "Null");
}

#[test]
fn render_joins_the_parts() {
    assert_eq!(render(&vec![]), "Null");
    assert_eq!(
        render(&vec!["x".to_string(), "".to_string()]),
        "Node(x)->Node()->Null"
    );
}
