use percolation::{MergeList, PercolationError};

fn items(list: &MergeList<(u32, u32)>, id: u32) -> Vec<(u32, u32)> {
    list.get(id).expect("live group").clone()
}

#[test]
fn create_hands_out_increasing_ids() {
    let mut list: MergeList<(u32, u32)> = MergeList::new();
    assert_eq!(list.create((0, 0)), Ok(1));
    assert_eq!(list.create((0, 1)), Ok(2));
    assert_eq!(list.create((0, 2)), Ok(3));
    assert_eq!(items(&list, 2), vec![(0, 1)]);
    assert_eq!(list.ids(), vec![1, 2, 3]);
}

#[test]
fn insert_appends_in_order() {
    let mut list: MergeList<(u32, u32)> = MergeList::default();
    let id = list.create((0, 0)).unwrap();
    assert_eq!(list.insert(id, (0, 1)), Ok(()));
    assert_eq!(list.insert(id, (1, 1)), Ok(()));
    assert_eq!(items(&list, id), vec![(0, 0), (0, 1), (1, 1)]);
}

#[test]
fn insert_into_unknown_group_fails() {
    let mut list: MergeList<(u32, u32)> = MergeList::new();
    assert_eq!(list.insert(1, (0, 0)), Err(PercolationError::GroupNotFound));
    let id = list.create((0, 0)).unwrap();
    assert_eq!(list.insert(id + 1, (0, 1)), Err(PercolationError::GroupNotFound));
    assert_eq!(items(&list, id), vec![(0, 0)]);
}

#[test]
fn merge_keeps_order_and_retires_removed() {
    let mut list: MergeList<(u32, u32)> = MergeList::new();
    let a = list.create((0, 0)).unwrap();
    list.insert(a, (0, 1)).unwrap();
    let b = list.create((0, 3)).unwrap();
    list.insert(b, (1, 3)).unwrap();
    assert_eq!(list.merge_group(b, a), Ok(()));
    assert_eq!(items(&list, b), vec![(0, 3), (1, 3), (0, 0), (0, 1)]);
    assert!(list.get(a).is_none());
    assert!(!list.contains(a));
    assert_eq!(list.insert(a, (2, 0)), Err(PercolationError::GroupNotFound));
    assert_eq!(list.merge_group(b, a), Err(PercolationError::GroupNotFound));
    assert_eq!(list.merge_group(a, b), Err(PercolationError::GroupNotFound));
    // a retired id is never handed out again
    assert_eq!(list.create((3, 3)), Ok(3));
}

#[test]
fn merge_into_itself_fails() {
    let mut list: MergeList<(u32, u32)> = MergeList::new();
    let a = list.create((0, 0)).unwrap();
    assert_eq!(list.merge_group(a, a), Err(PercolationError::GroupNotFound));
    assert_eq!(items(&list, a), vec![(0, 0)]);
}

#[test]
fn view_walks_live_groups_in_id_order() {
    let mut list: MergeList<(u32, u32)> = MergeList::new();
    let a = list.create((0, 0)).unwrap();
    let b = list.create((0, 2)).unwrap();
    let c = list.create((0, 4)).unwrap();
    list.merge_group(c, b).unwrap();
    let mut view = list.iter();
    let first = view.next().unwrap();
    assert_eq!(first.0, a);
    assert_eq!(first.1, &vec![(0, 0)]);
    let second = view.next().unwrap();
    assert_eq!(second.0, c);
    assert_eq!(second.1, &vec![(0, 4), (0, 2)]);
    assert!(view.next().is_none());
    assert!(view.next().is_none());
}

#[test]
fn create_past_id_capacity_fails_and_changes_nothing() {
    let mut list: MergeList<()> = MergeList::new();
    let keep = list.create(()).unwrap();
    let mut last = keep;
    loop {
        match list.create(()) {
            Ok(id) => {
                assert_eq!(id, last + 1);
                last = id;
                list.merge_group(keep, id).unwrap();
            }
            Err(e) => {
                assert_eq!(e, PercolationError::ClusterIdOverflow);
                break;
            }
        }
    }
    assert_eq!(last, 0xFF_FFFF);
    assert_eq!(list.ids(), vec![keep]);
    assert_eq!(list.get(keep).unwrap().len(), 0xFF_FFFF);
    assert_eq!(list.create(()), Err(PercolationError::ClusterIdOverflow));
    assert_eq!(list.ids(), vec![keep]);
}
