use permutator::Permutator;

fn drain<T: Clone>(p: &mut Permutator<T>) -> Vec<Vec<T>> {
    let mut out = Vec::new();
    while let Some(v) = p.next() {
        out.push(v);
    }
    out
}

fn factorial(n: usize) -> usize {
    (1..=n).product()
}

#[test]
fn test_iterator() {
    let mut permutation = Permutator::new(&["test"]);
    assert_eq!(permutation.next(), Some(vec!["test"]));
    assert_eq!(permutation.next(), None);

    let mut permutation = Permutator::new(&[1, 2]);
    assert_eq!(permutation.next(), Some(vec![1, 2]));
    assert_eq!(permutation.next(), Some(vec![2, 1]));
    assert_eq!(permutation.next(), None);

    let mut permutation = Permutator::new(&[1, 2, 3]);
    assert_eq!(permutation.next(), Some(vec![1, 2, 3]));
    assert_eq!(permutation.next(), Some(vec![2, 1, 3]));
    assert_eq!(permutation.next(), Some(vec![2, 3, 1]));
    assert_eq!(permutation.next(), Some(vec![1, 3, 2]));
    assert_eq!(permutation.next(), Some(vec![3, 1, 2]));
    assert_eq!(permutation.next(), Some(vec![3, 2, 1]));
    assert_eq!(permutation.next(), None);

    let mut permutation = Permutator::new(&["1", "2", "3"]);
    assert_eq!(permutation.next(), Some(vec!["1", "2", "3"]));
    assert_eq!(permutation.next(), Some(vec!["2", "1", "3"]));
    assert_eq!(permutation.next(), Some(vec!["2", "3", "1"]));
    assert_eq!(permutation.next(), Some(vec!["1", "3", "2"]));
    assert_eq!(permutation.next(), Some(vec!["3", "1", "2"]));
    assert_eq!(permutation.next(), Some(vec!["3", "2", "1"]));
    assert_eq!(permutation.next(), None);
}

#[test]
fn count_is_factorial() {
    for n in 1..=6usize {
        let input: Vec<usize> = (0..n).collect();
        let mut p = Permutator::new(&input);
        assert_eq!(drain(&mut p).len(), factorial(n));
    }
}

#[test]
fn every_ordering_once() {
    let input: Vec<usize> = (0..5).collect();
    let mut p = Permutator::new(&input);
    let out = drain(&mut p);
    assert_eq!(out.len(), 120);
    for v in &out {
        let mut sorted = v.clone();
        sorted.sort();
        assert_eq!(sorted, input);
    }
    let mut all = out.clone();
    all.sort();
    all.dedup();
    assert_eq!(all.len(), 120);
}

#[test]
fn exhaustion_is_idempotent() {
    let mut p = Permutator::new(&[7, 8]);
    assert_eq!(drain(&mut p).len(), 2);
    for _ in 0..5 {
        assert_eq!(p.next(), None);
    }
}

#[test]
fn every_ordering_has_input_length() {
    let input = [10, 20, 30, 40];
    let mut p = Permutator::new(&input);
    let out = drain(&mut p);
    assert_eq!(out.len(), 24);
    assert!(out.iter().all(|v| v.len() == 4));
}

#[test]
fn yielded_orderings_are_independent() {
    let mut p = Permutator::new(&[String::from("a"), String::from("b"), String::from("c")]);
    let mut first = p.next().unwrap();
    first[0].push_str("changed");
    first.clear();
    assert_eq!(p.next(), Some(vec![String::from("b"), String::from("a"), String::from("c")]));
    let mut third = p.next().unwrap();
    third[1] = String::from("z");
    assert_eq!(p.next(), Some(vec![String::from("a"), String::from("c"), String::from("b")]));
}

#[derive(Clone, Debug, PartialEq)]
struct Point {
    x: i32,
    label: String,
}

#[test]
fn order_does_not_depend_on_element_type() {
    let ints = drain(&mut Permutator::new(&[0usize, 1, 2, 3]));
    let words: Vec<String> = vec!["zero".into(), "one".into(), "two".into(), "three".into()];
    let strings = drain(&mut Permutator::new(&words));
    let points: Vec<Point> = (0..4).map(|i| Point { x: i, label: format!("p{}", i) }).collect();
    let structs = drain(&mut Permutator::new(&points));
    assert_eq!(ints.len(), 24);
    assert_eq!(strings.len(), 24);
    assert_eq!(structs.len(), 24);
    for k in 0..24 {
        let by_word: Vec<String> = ints[k].iter().map(|&i| words[i].clone()).collect();
        let by_point: Vec<Point> = ints[k].iter().map(|&i| points[i].clone()).collect();
        assert_eq!(strings[k], by_word);
        assert_eq!(structs[k], by_point);
    }
}

#[test]
fn empty_input_yields_nothing() {
    let empty: [u8; 0] = [];
    let mut p = Permutator::new(&empty);
    assert_eq!(p.next(), None);
    assert_eq!(p.next(), None);
}

#[test]
fn single_string_input() {
    let mut p = Permutator::new(&[String::from("test")]);
    assert_eq!(p.next(), Some(vec![String::from("test")]));
    assert_eq!(p.next(), None);
}

#[test]
fn duplicates_are_kept_by_position() {
    let mut p = Permutator::new(&[1, 1, 2]);
    let out = drain(&mut p);
    assert_eq!(
        out,
        vec![
            vec![1, 1, 2],
            vec![1, 1, 2],
            vec![1, 2, 1],
            vec![1, 2, 1],
            vec![2, 1, 1],
            vec![2, 1, 1],
        ]
    );
}

#[test]
fn four_elements_in_visitation_order() {
    let mut p = Permutator::new(&['a', 'b', 'c', 'd']);
    let out: Vec<String> = drain(&mut p).into_iter().map(|v| v.into_iter().collect()).collect();
    assert_eq!(&out[0..8], &["abcd", "bacd", "bcad", "bcda", "acbd", "cabd", "cbad", "cbda"]);
    assert_eq!(out[23], "dcba");
}
