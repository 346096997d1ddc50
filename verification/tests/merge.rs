use probing_dict::merge::{ListNode, Solution};

fn list(values: &[i32]) -> Option<Box<ListNode>> {
    let mut head: Option<Box<ListNode>> = None;
    for v in values.iter().rev() {
        head = Some(Box::new(ListNode {
            val: *v,
            next: head,
        }));
    }
    head
}

fn to_vec(mut head: &Option<Box<ListNode>>) -> Vec<i32> {
    let mut out = Vec::new();
    while let Some(node) = head {
        out.push(node.val);
        head = &node.next;
    }
    out
}

#[test]
fn new_node_has_no_successor() {
    let node = ListNode::new(7);
    assert_eq!(node.val, 7);
    assert_eq!(node.next, None);
}

#[test]
fn clone_copies_the_whole_list() {
    let first = list(&[1, 2, 3]).unwrap();
    let copy = first.clone();
    assert_eq!(copy, first);
    assert_eq!(to_vec(&Some(copy)), vec![1, 2, 3]);
}

#[test]
fn min_value_takes_the_first_of_equal_heads() {
    let lists = vec![list(&[4, 9]), list(&[2]), None, list(&[2, 3]), list(&[5])];
    assert_eq!(Solution::min_value(&lists), Some((2, 1)));
}

#[test]
fn min_value_skips_empty_lists() {
    let lists = vec![None, None, list(&[-3, 8])];
    assert_eq!(Solution::min_value(&lists), Some((-3, 2)));
}

#[test]
fn min_value_of_empty_lists_is_nothing() {
    let lists = vec![None, None];
    assert_eq!(Solution::min_value(&lists), None);
}

#[test]
fn min_value_never_takes_the_largest_integer() {
    let lists = vec![list(&[i32::MAX, 1]), None];
    assert_eq!(Solution::min_value(&lists), None);
    let lists = vec![list(&[i32::MAX]), list(&[i32::MAX - 1])];
    assert_eq!(Solution::min_value(&lists), Some((i32::MAX - 1, 1)));
}

#[test]
fn min_value_takes_the_smallest_integer() {
    let lists = vec![list(&[0]), list(&[i32::MIN])];
    assert_eq!(Solution::min_value(&lists), Some((i32::MIN, 1)));
}

#[test]
fn merge_of_no_lists_is_empty() {
    assert_eq!(Solution::merge_k_lists(vec![]), None);
    assert_eq!(Solution::merge_k_lists(vec![None, None]), None);
}

#[test]
fn merge_of_six_equal_lists() {
    let v = vec![
        list(&[1, 2, 3]),
        list(&[1, 2, 3]),
        list(&[1, 2, 3]),
        list(&[1, 2, 3]),
        list(&[1, 2, 3]),
        list(&[1, 2, 3]),
    ];
    let merged = Solution::merge_k_lists(v);
    assert_eq!(
        to_vec(&merged),
        vec![1, 1, 1, 1, 1, 1, 2, 2, 2, 2, 2, 2, 3, 3, 3, 3, 3, 3]
    );
}

#[test]
fn merge_of_sorted_lists_is_sorted() {
    let v = vec![list(&[1, 4, 5]), list(&[1, 3, 4]), list(&[2, 6])];
    let merged = Solution::merge_k_lists(v);
    assert_eq!(merged, list(&[1, 1, 2, 3, 4, 4, 5, 6]));
}

#[test]
fn merge_takes_the_smallest_head_of_unsorted_lists() {
    let v = vec![list(&[5, 1]), list(&[3, 9, 0])];
    let merged = Solution::merge_k_lists(v);
    assert_eq!(to_vec(&merged), vec![3, 5, 1, 9, 0]);
}

#[test]
fn merge_stops_a_list_at_the_largest_integer() {
    let v = vec![list(&[1, i32::MAX, 2]), list(&[3])];
    let merged = Solution::merge_k_lists(v);
    assert_eq!(to_vec(&merged), vec![1, 3]);
}
