use dirserve::children::{files_in, Child};
use dirserve::target::ResolvedTarget;
use dirserve::order::comes_first;

fn paths(children: &[Child]) -> Vec<String> {
    children.iter().map(|c| String::from_utf8(c.path.clone()).unwrap()).collect()
}

fn child(path: &str, is_directory: bool) -> Child {
    let path = path.as_bytes().to_vec();
    Child::new(path.clone(), ResolvedTarget::existing(path, is_directory))
}

fn file(path: &str) -> Child {
    child(path, false)
}

#[test]
fn a_prefix_comes_first() {
    assert!(comes_first(b"", b""));
    assert!(comes_first(b"", b"a"));
    assert!(comes_first(b"a", b"a"));
    assert!(comes_first(b"a", b"ab"));
    assert!(!comes_first(b"ab", b"a"));
    assert!(!comes_first(b"a", b""));
}

#[test]
fn the_first_differing_byte_decides() {
    assert!(comes_first(b"abc", b"abd"));
    assert!(!comes_first(b"abd", b"abc"));
    assert!(comes_first(b"a.txt", b"ab"));
    assert!(comes_first(b"abz", b"ac"));
    assert!(!comes_first(b"b", b"abc"));
}

#[test]
fn upper_case_comes_before_lower_case() {
    assert!(comes_first(b"C", b"a"));
    assert!(comes_first(b"Z", b"a"));
    assert!(!comes_first(b"a", b"C"));
}

#[test]
fn bytes_compare_unsigned() {
    assert!(comes_first(b"z", &[0xc3, 0xa9]));
    assert!(!comes_first(&[0xff], &[0x7f]));
}

#[test]
fn files_in_sorts_by_bytes() {
    let sorted = files_in(vec![file("b"), file("a"), file("C")]);
    assert_eq!(paths(&sorted), vec!["C", "a", "b"]);
}

#[test]
fn files_in_of_nothing_and_of_one() {
    assert_eq!(files_in(Vec::new()), Vec::<Child>::new());
    assert_eq!(files_in(vec![file("/srv/x")]), vec![file("/srv/x")]);
}

#[test]
fn files_in_interleaves_files_and_directories() {
    let sorted = files_in(vec![
        child("/srv/b", true),
        child("/srv/c", false),
        child("/srv/a", false),
        child("/srv/d", true),
    ]);
    assert_eq!(
        sorted,
        vec![
            child("/srv/a", false),
            child("/srv/b", true),
            child("/srv/c", false),
            child("/srv/d", true),
        ]
    );
}

#[test]
fn files_in_keeps_the_order_of_equal_paths() {
    let sorted = files_in(vec![
        child("x", true),
        child("a", false),
        child("x", false),
        child("a", true),
        child("x", true),
    ]);
    assert_eq!(
        sorted,
        vec![
            child("a", false),
            child("a", true),
            child("x", true),
            child("x", false),
            child("x", true),
        ]
    );
}

#[test]
fn files_in_agrees_with_the_standard_sort() {
    let mut names: Vec<Vec<u8>> = Vec::new();
    let mut seed: u32 = 12345;
    for _ in 0..500 {
        let mut name = b"/srv/".to_vec();
        seed = seed.wrapping_mul(1103515245).wrapping_add(12345);
        let len = 1 + (seed >> 16) % 6;
        for _ in 0..len {
            seed = seed.wrapping_mul(1103515245).wrapping_add(12345);
            name.push(b'a' + ((seed >> 16) % 4) as u8);
        }
        names.push(name);
    }
    let children: Vec<Child> = names
        .iter()
        .enumerate()
        .map(|(i, n)| Child::new(n.clone(), ResolvedTarget::existing(n.clone(), i % 2 == 0)))
        .collect();
    let mut expected = children.clone();
    expected.sort_by(|a, b| a.path.cmp(&b.path));
    assert_eq!(files_in(children), expected);
}

#[test]
fn files_in_sorts_a_descending_run() {
    let children: Vec<Child> =
        (0..200u32).rev().map(|i| file(&format!("/srv/{:04}", i))).collect();
    let expected: Vec<Child> = (0..200u32).map(|i| file(&format!("/srv/{:04}", i))).collect();
    assert_eq!(files_in(children), expected);
}
