use advent24::{dfs, extract_numbers, parse_number_list, parse_number_list_delimited_by, string_to_2d_array, Tile};
use std::collections::HashMap;

#[test]
fn number_lists() {
    assert_eq!(parse_number_list("1 2  3\n-4"), vec![1, 2, 3, -4]);
    assert_eq!(parse_number_list(""), Vec::<i64>::new());
    assert_eq!(parse_number_list("12a 34"), vec![34]);
    assert_eq!(parse_number_list("+7"), vec![7]);
    // out-of-range tokens are passed over, like any other non-number
    assert_eq!(parse_number_list("99999999999999999999 5"), vec![5]);
    assert_eq!(parse_number_list("9223372036854775807"), vec![i64::MAX]);
    assert_eq!(parse_number_list("-9223372036854775808"), vec![i64::MIN]);
}

#[test]
fn numbers_between_delimiters() {
    assert_eq!(parse_number_list_delimited_by("1,2,3", ","), vec![1, 2, 3]);
    assert_eq!(parse_number_list_delimited_by("4,,5", ","), vec![4, 5]);
    assert_eq!(parse_number_list_delimited_by("6,", ","), vec![6]);
    assert_eq!(parse_number_list_delimited_by("", ","), Vec::<i64>::new());
}

#[test]
fn numbers_out_of_text() {
    assert_eq!(extract_numbers("p=0,4 v=3,-3"), vec![0, 4, 3, -3]);
    assert_eq!(extract_numbers("Register A: 729"), vec![729]);
    assert_eq!(extract_numbers("no digits"), Vec::<i64>::new());
}

#[test]
fn worlds_from_text() {
    let world = string_to_2d_array(String::from("ab\ncd\n"));
    assert_eq!(world, vec![vec!['a', 'b'], vec!['c', 'd']]);
    let world = string_to_2d_array(String::from("a\r\nb"));
    assert_eq!(world, vec![vec!['a'], vec!['b']]);
    assert_eq!(string_to_2d_array(String::new()), Vec::<Vec<char>>::new());
}

#[test]
fn tiles_stay_inside_their_world() {
    let world = vec![vec!['a', 'b'], vec!['c', 'd']];
    let t = Tile::from_world(&world, 0, 0);
    assert_eq!(t.char_at(&world), Some('a'));
    assert_eq!(t.top(), None);
    assert_eq!(t.left(), None);
    let r = t.right().unwrap();
    assert_eq!(r.char_at(&world), Some('b'));
    assert_eq!(r.right(), None);
    let b = t.bottom().unwrap();
    assert_eq!(b.char_at(&world), Some('c'));
    assert_eq!(b.bottomright(), None);
    assert_eq!(t.orthogonal().len(), 2);
    let digits = vec![vec!['3']];
    let d = Tile::new(1, 1, 0, 0);
    assert_eq!(d.digit_at(&digits), Some(3));
    assert_eq!(t.digit_at(&world), None);
}

#[test]
fn depth_first_search_reaches_everything_once() {
    let mut graph: HashMap<u64, Vec<u64>> = HashMap::new();
    graph.insert(1, vec![2, 3]);
    graph.insert(2, vec![3]);
    graph.insert(3, vec![1]);
    graph.insert(9, vec![9]);
    let pre = dfs(&graph, &vec![1], false);
    let mut sorted = pre.clone();
    sorted.sort();
    assert_eq!(sorted, vec![1, 2, 3]);
    assert_eq!(pre[0], 1);
    let post = dfs(&graph, &vec![1], true);
    let mut sorted = post.clone();
    sorted.sort();
    assert_eq!(sorted, vec![1, 2, 3]);
    assert_eq!(post[2], 1);
}
