use peer::{PushAndReturnOffset, SetWithResizeDefault};

#[test]
fn push_and_get_offset_says_where_the_value_went() {
    let mut list = vec![7, 8];
    assert_eq!(list.push_and_get_offset(9), 2);
    assert_eq!(list.push_and_get_offset(10), 3);
    assert_eq!(list, vec![7, 8, 9, 10]);
}

#[test]
fn get_mut_or_resize_default_grows_the_list_to_the_key() {
    let mut lists: Vec<Vec<u8>> = vec![vec![1]];
    lists.get_mut_or_resize_default(0).push(2);
    assert_eq!(lists, vec![vec![1, 2]]);
    lists.get_mut_or_resize_default(3).push(5);
    assert_eq!(lists, vec![vec![1, 2], vec![], vec![], vec![5]]);
    assert!(lists.get_mut_or_resize_default(2).is_empty());
    assert_eq!(lists.len(), 4);
}
