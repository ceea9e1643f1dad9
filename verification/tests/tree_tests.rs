use transg::{build_tree, do_build_tree, get_children, File, Node};

fn file(name: &str, length: u64, done: u64) -> File {
    File { name: name.to_string(), length, bytes_completed: done }
}

fn names(v: &[Node]) -> Vec<String> {
    v.iter().map(|n| n.name.clone()).collect()
}

fn sample() -> Vec<File> {
    vec![
        file("b.txt", 7, 0),
        file("a/y", 20, 20),
        file("a/x", 10, 5),
        file("a/sub/z", 4, 1),
        file("c/only", 3, 3),
    ]
}

#[test]
fn build_tree_groups_folders() {
    let t = build_tree(&sample());
    assert_eq!(names(&t), vec!["a", "b.txt", "c"]);
    let a = &t[0];
    assert_eq!(a.path, "a");
    assert_eq!(a.size, 34);
    assert_eq!(a.downloaded, 26);
    assert_eq!(names(&a.children), vec!["sub", "x", "y"]);
    assert_eq!(a.children[0].path, "a/sub");
    assert_eq!(a.children[1].path, "a/x");
    assert_eq!(a.children[1].size, 10);
    assert_eq!(a.children[1].downloaded, 5);
    // a folder with a single file below it gets no children
    assert!(a.children[0].children.is_empty());
    assert_eq!(a.children[0].size, 4);
    let b = &t[1];
    assert_eq!(b.size, 7);
    assert!(b.children.is_empty());
    let c = &t[2];
    assert_eq!(c.size, 3);
    assert!(c.children.is_empty());
}

#[test]
fn build_tree_root_sums_match_totals() {
    let files = sample();
    let t = build_tree(&files);
    let total: u64 = files.iter().map(|f| f.length).sum();
    let done: u64 = files.iter().map(|f| f.bytes_completed).sum();
    assert_eq!(t.iter().map(|n| n.size).sum::<u64>(), total);
    assert_eq!(t.iter().map(|n| n.downloaded).sum::<u64>(), done);
}

fn same(a: &[Node], b: &[Node]) -> bool {
    a.len() == b.len()
        && a.iter().zip(b.iter()).all(|(x, y)| {
            x.name == y.name
                && x.path == y.path
                && x.size == y.size
                && x.downloaded == y.downloaded
                && same(&x.children, &y.children)
        })
}

#[test]
fn build_tree_ignores_file_order() {
    let files = sample();
    let mut reversed = sample();
    reversed.reverse();
    assert!(same(&build_tree(&files), &build_tree(&reversed)));
}

#[test]
fn build_tree_empty() {
    assert!(build_tree(&vec![]).is_empty());
}

#[test]
fn build_tree_file_and_folder_with_same_name() {
    let t = build_tree(&vec![file("a", 1, 0), file("a/b", 2, 0)]);
    assert_eq!(names(&t), vec!["a"]);
    assert_eq!(t[0].size, 3);
    // the file "a" has no component below the folder, so only "b" is a child
    assert_eq!(names(&t[0].children), vec!["b"]);
    assert_eq!(t[0].children[0].path, "a/b");
}

#[test]
fn do_build_tree_below_a_folder() {
    let xs = vec![
        (5u64, 1u64, vec!["top".to_string(), "q".to_string()]),
        (6u64, 2u64, vec!["top".to_string(), "p".to_string()]),
        (7u64, 3u64, vec!["top".to_string()]),
    ];
    let t = do_build_tree("top", 1, xs);
    assert_eq!(names(&t), vec!["p", "q"]);
    assert_eq!(t[0].path, "top/p");
    assert_eq!(t[0].size, 6);
    assert_eq!(t[1].downloaded, 1);
}

#[test]
fn do_build_tree_orders_by_code_point() {
    let xs = vec![
        (1u64, 0u64, vec!["b".to_string()]),
        (1u64, 0u64, vec!["B".to_string()]),
        (1u64, 0u64, vec!["a".to_string()]),
        (1u64, 0u64, vec!["é".to_string()]),
    ];
    let t = do_build_tree("", 0, xs);
    assert_eq!(names(&t), vec!["B", "a", "b", "é"]);
    assert_eq!(t[0].path, "B");
}

#[test]
fn get_children_follows_paths() {
    let t = build_tree(&sample());
    assert_eq!(names(&get_children(&t, "a".to_string())), vec!["sub", "x", "y"]);
    assert!(get_children(&t, "a/x".to_string()).is_empty());
    assert!(get_children(&t, "missing".to_string()).is_empty());
    assert!(get_children(&t, "".to_string()).is_empty());
    assert!(get_children(&t, "a/missing".to_string()).is_empty());
}

#[test]
fn get_children_of_every_folder_by_its_path() {
    let files = vec![file("r/s/t/u", 1, 1), file("r/s/t/v", 2, 0), file("r/w", 3, 3)];
    let t = build_tree(&files);
    fn walk(root: &Vec<Node>, nodes: &[Node]) {
        for n in nodes {
            let c = get_children(root, n.path.clone());
            assert_eq!(names(&c), names(&n.children));
            walk(root, &n.children);
        }
    }
    walk(&t, &t);
    let s = get_children(&t, "r/s".to_string());
    assert_eq!(names(&s), vec!["t"]);
    assert_eq!(s[0].size, 3);
}

#[test]
fn do_build_tree_ignores_entry_order_and_shallow_entries() {
    let xs = vec![
        (5u64, 1u64, vec!["top".to_string(), "q".to_string()]),
        (6u64, 2u64, vec!["top".to_string(), "p".to_string(), "r".to_string()]),
        (8u64, 0u64, vec!["top".to_string(), "p".to_string(), "s".to_string()]),
    ];
    let mut ys = xs.clone();
    ys.reverse();
    assert!(same(&do_build_tree("top", 1, xs.clone()), &do_build_tree("top", 1, ys)));
    let mut with_shallow = xs.clone();
    with_shallow.push((9u64, 9u64, vec!["top".to_string()]));
    with_shallow.insert(0, (1u64, 1u64, vec![]));
    assert!(same(&do_build_tree("top", 1, xs), &do_build_tree("top", 1, with_shallow)));
    assert!(do_build_tree("top", 1, vec![(1u64, 1u64, vec!["top".to_string()])]).is_empty());
    assert!(do_build_tree("", 0, vec![]).is_empty());
}

#[test]
fn get_children_by_path_on_do_build_tree() {
    let xs = vec![
        (1u64, 0u64, vec!["a".to_string(), "b".to_string(), "c".to_string()]),
        (2u64, 0u64, vec!["a".to_string(), "b".to_string(), "d".to_string()]),
        (3u64, 0u64, vec!["e".to_string()]),
    ];
    let t = do_build_tree("", 0, xs);
    fn walk(root: &Vec<Node>, nodes: &[Node]) {
        for n in nodes {
            assert_eq!(names(&get_children(root, n.path.clone())), names(&n.children));
            walk(root, &n.children);
        }
    }
    walk(&t, &t);
}
