use transg::listing::{full_listing_order, partial_update, sort_by_id, Origin, Slot};

fn describe(s: &Slot) -> (char, usize, Option<usize>) {
    match s.origin {
        Origin::Old(i) => ('o', i, s.refreshed_by),
        Origin::New(k) => ('n', k, s.refreshed_by),
    }
}

fn ids_of(r: &[Slot], old: &[i64], upd: &[i64]) -> Vec<i64> {
    r.iter()
        .map(|s| match s.origin {
            Origin::Old(i) => old[i],
            Origin::New(k) => upd[k],
        })
        .collect()
}

#[test]
fn sort_by_id_is_stable() {
    assert_eq!(sort_by_id(&vec![7, 2, 5, 2]), vec![1, 3, 2, 0]);
    assert_eq!(sort_by_id(&vec![]), Vec::<usize>::new());
    assert_eq!(sort_by_id(&vec![-3, i64::MAX, i64::MIN]), vec![2, 0, 1]);
}

#[test]
fn partial_update_merges_sorted_rows() {
    let old = vec![1, 3, 5, 7];
    let removed = vec![3];
    let upd = vec![7, 2, 5, 9];
    let r = partial_update(&old, &removed, &upd);
    let d: Vec<_> = r.iter().map(describe).collect();
    assert_eq!(
        d,
        vec![('o', 0, None), ('n', 1, None), ('o', 2, Some(2)), ('o', 3, Some(0)), ('n', 3, None)]
    );
    assert_eq!(ids_of(&r, &old, &upd), vec![1, 2, 5, 7, 9]);
}

#[test]
fn partial_update_without_changes_keeps_rows() {
    let old = vec![4, 8];
    let r = partial_update(&old, &vec![], &vec![]);
    let d: Vec<_> = r.iter().map(describe).collect();
    assert_eq!(d, vec![('o', 0, None), ('o', 1, None)]);
}

#[test]
fn partial_update_removes_everything() {
    let old = vec![4, 8];
    let r = partial_update(&old, &vec![8, 4, 100], &vec![]);
    assert!(r.is_empty());
}

#[test]
fn partial_update_into_empty_list() {
    let upd = vec![30, 10, 20];
    let r = partial_update(&vec![], &vec![], &upd);
    assert_eq!(ids_of(&r, &[], &upd), vec![10, 20, 30]);
    assert!(r.iter().all(|s| s.refreshed_by.is_none()));
}

#[test]
fn partial_update_refreshes_a_removed_and_resent_id_as_new() {
    // an id both removed and sent again comes back as a new row
    let old = vec![1, 2];
    let upd = vec![2];
    let r = partial_update(&old, &vec![2], &upd);
    let d: Vec<_> = r.iter().map(describe).collect();
    assert_eq!(d, vec![('o', 0, None), ('n', 0, None)]);
}

#[test]
fn full_listing_sorts_by_id() {
    let ids = vec![9, 3, 7, 1];
    let order = full_listing_order(&ids);
    assert_eq!(order, vec![3, 1, 2, 0]);
    let sorted: Vec<i64> = order.iter().map(|&k| ids[k]).collect();
    assert_eq!(sorted, vec![1, 3, 7, 9]);
    assert_eq!(full_listing_order(&vec![5, 5, 2]), vec![2, 0, 1]);
}

#[test]
fn partial_update_leaves_untouched_rows_alone() {
    let old = vec![1, 4, 6];
    let upd = vec![4];
    let r = partial_update(&old, &vec![], &upd);
    let d: Vec<_> = r.iter().map(describe).collect();
    // rows 1 and 6 are not in the update: old rows, not refreshed
    assert_eq!(d, vec![('o', 0, None), ('o', 1, Some(0)), ('o', 2, None)]);
}
