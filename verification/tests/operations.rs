use set_algebra::char_sets::char_operations;
use set_algebra::char_sets::char_set_from_tokens;
use set_algebra::int_sets::int_operations;
use set_algebra::int_sets::int_set_from_tokens;
use set_algebra::str_sets::str_operations;
use set_algebra::str_sets::str_set_from_tokens;

fn tokens(words: &[&str]) -> Vec<String> {
    words.iter().map(|w| String::from(*w)).collect()
}

#[test]
fn int_end_to_end_disjoint_sets() {
    let a = int_set_from_tokens(&tokens(&["1", "2", "3"]));
    let b = int_set_from_tokens(&tokens(&["4", "5", "6"]));
    let r = int_operations(&a, &b);
    assert_eq!(r.union_ab, vec![1, 2, 3, 4, 5, 6]);
    assert_eq!(r.intersection, Vec::<i32>::new());
    assert_eq!(r.diff_ab, vec![1, 2, 3]);
    assert_eq!(r.diff_ba, vec![4, 5, 6]);
    assert_eq!(r.sym_diff, vec![1, 2, 3, 4, 5, 6]);
}

#[test]
fn int_overlapping_sets() {
    let a = int_set_from_tokens(&tokens(&["1", "2", "3", "4"]));
    let b = int_set_from_tokens(&tokens(&["3", "4", "5"]));
    let r = int_operations(&a, &b);
    assert_eq!(r.union_ab, vec![1, 2, 3, 4, 5]);
    assert_eq!(r.intersection, vec![3, 4]);
    assert_eq!(r.diff_ab, vec![1, 2]);
    assert_eq!(r.diff_ba, vec![5]);
    assert_eq!(r.sym_diff, vec![1, 2, 5]);
}

#[test]
fn int_empty_inputs_give_empty_results() {
    let a = int_set_from_tokens(&tokens(&[]));
    let b = int_set_from_tokens(&tokens(&[]));
    assert_eq!(a, Vec::<i32>::new());
    let r = int_operations(&a, &b);
    assert_eq!(r.union_ab, Vec::<i32>::new());
    assert_eq!(r.intersection, Vec::<i32>::new());
    assert_eq!(r.diff_ab, Vec::<i32>::new());
    assert_eq!(r.diff_ba, Vec::<i32>::new());
    assert_eq!(r.sym_diff, Vec::<i32>::new());
}

#[test]
fn int_operations_commute() {
    let a = int_set_from_tokens(&tokens(&["7", "-2", "9"]));
    let b = int_set_from_tokens(&tokens(&["9", "4"]));
    let ab = int_operations(&a, &b);
    let ba = int_operations(&b, &a);
    assert_eq!(ab.union_ab, ba.union_ab);
    assert_eq!(ab.intersection, ba.intersection);
    assert_eq!(ab.sym_diff, ba.sym_diff);
    assert_eq!(ab.diff_ab, ba.diff_ba);
    assert_eq!(ab.diff_ba, ba.diff_ab);
}

#[test]
fn int_operations_deterministic() {
    let a = int_set_from_tokens(&tokens(&["10", "0", "-1"]));
    let b = int_set_from_tokens(&tokens(&["0", "3"]));
    let first = int_operations(&a, &b);
    let second = int_operations(&a, &b);
    assert_eq!(first.union_ab, second.union_ab);
    assert_eq!(first.intersection, second.intersection);
    assert_eq!(first.diff_ab, second.diff_ab);
    assert_eq!(first.diff_ba, second.diff_ba);
    assert_eq!(first.sym_diff, second.sym_diff);
}

#[test]
fn int_partition_holds_on_example() {
    let a = int_set_from_tokens(&tokens(&["1", "2", "3", "4"]));
    let b = int_set_from_tokens(&tokens(&["3", "4", "5"]));
    let r = int_operations(&a, &b);
    let mut parts: Vec<i32> = Vec::new();
    parts.extend(r.intersection.iter());
    parts.extend(r.diff_ab.iter());
    parts.extend(r.diff_ba.iter());
    parts.sort();
    assert_eq!(parts, r.union_ab);
    for x in r.intersection.iter() {
        assert!(!r.diff_ab.contains(x));
        assert!(!r.diff_ba.contains(x));
        assert!(!r.sym_diff.contains(x));
    }
    for x in r.diff_ab.iter() {
        assert!(!r.diff_ba.contains(x));
        assert!(!b.contains(x));
    }
}

#[test]
fn str_normalization_collapses_case_and_comma() {
    let a = str_set_from_tokens(&tokens(&["Apple,", "apple"]));
    assert_eq!(a, vec![String::from("apple")]);
    let b = str_set_from_tokens(&tokens(&["Apple", "apple,"]));
    assert_eq!(b, vec![String::from("apple")]);
}

#[test]
fn str_normalization_strips_one_comma_and_lowercases() {
    let a = str_set_from_tokens(&tokens(&["BANANA,,"]));
    assert_eq!(a, vec![String::from("banana,")]);
    let b = str_set_from_tokens(&tokens(&["MiXeD"]));
    assert_eq!(b, vec![String::from("mixed")]);
}

#[test]
fn str_results_sorted_lexicographically() {
    let a = str_set_from_tokens(&tokens(&["pear", "Apple,", "banana"]));
    let b = str_set_from_tokens(&tokens(&["BANANA", "cherry"]));
    let r = str_operations(&a, &b);
    assert_eq!(
        r.union_ab,
        vec![
            String::from("apple"),
            String::from("banana"),
            String::from("cherry"),
            String::from("pear"),
        ]
    );
    assert_eq!(r.intersection, vec![String::from("banana")]);
    assert_eq!(r.diff_ab, vec![String::from("apple"), String::from("pear")]);
    assert_eq!(r.diff_ba, vec![String::from("cherry")]);
    assert_eq!(
        r.sym_diff,
        vec![String::from("apple"), String::from("cherry"), String::from("pear")]
    );
}

#[test]
fn str_operations_commute() {
    let a = str_set_from_tokens(&tokens(&["one", "two"]));
    let b = str_set_from_tokens(&tokens(&["two", "three"]));
    let ab = str_operations(&a, &b);
    let ba = str_operations(&b, &a);
    assert_eq!(ab.union_ab, ba.union_ab);
    assert_eq!(ab.intersection, ba.intersection);
    assert_eq!(ab.sym_diff, ba.sym_diff);
}

#[test]
fn char_tokens_truncate_and_drop_empty() {
    let a = char_set_from_tokens(&tokens(&["ab", "c", ""]));
    assert_eq!(a, vec!['a', 'c']);
}

#[test]
fn char_case_kept_but_order_case_insensitive() {
    let a = char_set_from_tokens(&tokens(&["b", "A", "a"]));
    assert_eq!(a, vec!['A', 'a', 'b']);
}

#[test]
fn char_operations_on_mixed_case() {
    let a = char_set_from_tokens(&tokens(&["apple", "Banana", "x"]));
    let b = char_set_from_tokens(&tokens(&["a", "x", "Zebra"]));
    let r = char_operations(&a, &b);
    assert_eq!(r.union_ab, vec!['a', 'B', 'x', 'Z']);
    assert_eq!(r.intersection, vec!['a', 'x']);
    assert_eq!(r.diff_ab, vec!['B']);
    assert_eq!(r.diff_ba, vec!['Z']);
    assert_eq!(r.sym_diff, vec!['B', 'Z']);
}

#[test]
fn char_operations_deterministic() {
    let a = char_set_from_tokens(&tokens(&["q", "R", "s"]));
    let b = char_set_from_tokens(&tokens(&["r", "s"]));
    let first = char_operations(&a, &b);
    let second = char_operations(&a, &b);
    assert_eq!(first.union_ab, second.union_ab);
    assert_eq!(first.sym_diff, second.sym_diff);
}

#[test]
fn str_empty_inputs_give_empty_results() {
    let a = str_set_from_tokens(&tokens(&[]));
    let b = str_set_from_tokens(&tokens(&[]));
    let r = str_operations(&a, &b);
    assert_eq!(r.union_ab, Vec::<String>::new());
    assert_eq!(r.intersection, Vec::<String>::new());
    assert_eq!(r.diff_ab, Vec::<String>::new());
    assert_eq!(r.diff_ba, Vec::<String>::new());
    assert_eq!(r.sym_diff, Vec::<String>::new());
}

#[test]
fn char_empty_inputs_give_empty_results() {
    let a = char_set_from_tokens(&tokens(&[]));
    let b = char_set_from_tokens(&tokens(&[""]));
    let r = char_operations(&a, &b);
    assert_eq!(r.union_ab, Vec::<char>::new());
    assert_eq!(r.intersection, Vec::<char>::new());
    assert_eq!(r.diff_ab, Vec::<char>::new());
    assert_eq!(r.diff_ba, Vec::<char>::new());
    assert_eq!(r.sym_diff, Vec::<char>::new());
}
