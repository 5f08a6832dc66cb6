use percolation::{Cell, SquareSite};

fn colors(row: &[Cell]) -> Vec<u8> {
    row.iter().map(|c| c.get_color()).collect()
}

fn ids(row: &[Cell]) -> Vec<u32> {
    row.iter().map(|c| c.get_id()).collect()
}

fn evidence(site: &SquareSite, id: u32) -> Vec<(u32, u32)> {
    site.groups().get(id).expect("live cluster").clone()
}

fn check_row(site: &SquareSite) {
    let row = site.last_row();
    for a in row.iter() {
        for b in row.iter() {
            if a.get_id() != 0 && a.get_id() == b.get_id() {
                assert_eq!(a.get_color(), b.get_color());
            }
        }
    }
    for c in row.iter() {
        assert_eq!(c.validate(), Ok(()));
        if c.get_id() != 0 {
            assert!(site.groups().contains(c.get_id()));
        }
    }
}

#[test]
fn test() {
    let mut ss = SquareSite::uniform(100, 2);
    for _ in 0..100 {
        assert_eq!(ss.scan_line(), Ok(()));
        let i = colors(ss.last_row());
        let sum = i.iter().map(|&k| k as usize).sum::<usize>() as f32;
        let mean = sum / i.len() as f32;
        println!("{mean:>.2}: {i:?}");
        assert!((0.0..=1.0).contains(&mean));
        check_row(&ss);
    }
    assert_eq!(ss.lines(), 100);
}

#[test]
fn two_rows_without_merge() {
    let mut site = SquareSite::uniform(5, 3);
    assert_eq!(site.scan_colors(&vec![1, 1, 0, 2, 2]), Ok(()));
    assert_eq!(ids(site.last_row()), vec![1, 1, 0, 2, 2]);
    assert_eq!(evidence(&site, 1), vec![(0, 0), (0, 1)]);
    assert_eq!(evidence(&site, 2), vec![(0, 3), (0, 4)]);
    assert_eq!(site.scan_colors(&vec![1, 1, 1, 2, 2]), Ok(()));
    assert_eq!(colors(site.last_row()), vec![1, 1, 1, 2, 2]);
    assert_eq!(ids(site.last_row()), vec![1, 1, 1, 2, 2]);
    // column 1 and column 4 only propagate an id that up and left already share
    assert_eq!(evidence(&site, 1), vec![(0, 0), (0, 1), (1, 0), (1, 2)]);
    assert_eq!(evidence(&site, 2), vec![(0, 3), (0, 4), (1, 3)]);
    assert_eq!(site.groups().ids(), vec![1, 2]);
    assert_eq!(site.lines(), 2);
    check_row(&site);
}

#[test]
fn up_and_left_of_different_colours() {
    let mut site = SquareSite::uniform(3, 3);
    site.scan_colors(&vec![1, 2, 1]).unwrap();
    assert_eq!(ids(site.last_row()), vec![1, 2, 3]);
    site.scan_colors(&vec![1, 1, 1]).unwrap();
    // column 1: up has colour 2, left colour 1, so the cell joins left's cluster;
    // column 2: up (id 3) and left (id 1) share colour 1, so the clusters merge into 3
    assert_eq!(ids(site.last_row()), vec![3, 3, 3]);
    assert_eq!(evidence(&site, 3), vec![(0, 2), (0, 0), (1, 0), (1, 1), (1, 2)]);
    assert!(site.groups().get(1).is_none());
    assert_eq!(site.groups().ids(), vec![2, 3]);
}

#[test]
fn bridge_merges_and_relabels_both_rows() {
    let mut site = SquareSite::uniform(3, 2);
    site.scan_colors(&vec![1, 0, 1]).unwrap();
    assert_eq!(ids(site.last_row()), vec![1, 0, 2]);
    site.scan_colors(&vec![1, 1, 1]).unwrap();
    assert_eq!(ids(site.last_row()), vec![2, 2, 2]);
    assert_eq!(evidence(&site, 2), vec![(0, 2), (0, 0), (1, 0), (1, 1), (1, 2)]);
    assert!(!site.groups().contains(1));
    site.scan_colors(&vec![1, 0, 0]).unwrap();
    assert_eq!(ids(site.last_row()), vec![2, 0, 0]);
}

#[test]
fn merge_in_the_middle_of_a_row_relabels_its_prefix() {
    let mut site = SquareSite::uniform(4, 2);
    site.scan_colors(&vec![1, 0, 0, 1]).unwrap();
    assert_eq!(ids(site.last_row()), vec![1, 0, 0, 2]);
    site.scan_colors(&vec![1, 1, 1, 1]).unwrap();
    // the prefix labelled 1 is rewritten to 2 once column 3 joins the two clusters
    assert_eq!(ids(site.last_row()), vec![2, 2, 2, 2]);
    check_row(&site);
}

#[test]
fn cell_of_another_colour_between_matching_neighbours_starts_a_cluster() {
    let mut site = SquareSite::uniform(2, 3);
    site.scan_colors(&vec![1, 1]).unwrap();
    site.scan_colors(&vec![1, 2]).unwrap();
    assert_eq!(ids(site.last_row()), vec![1, 2]);
    site.scan_colors(&vec![1, 1]).unwrap();
    assert_eq!(ids(site.last_row()), vec![1, 1]);
    assert_eq!(evidence(&site, 2), vec![(1, 1)]);
}

#[test]
fn same_colours_give_same_ids() {
    let rows: Vec<Vec<u8>> = vec![
        vec![1, 2, 2, 0, 1, 1],
        vec![1, 1, 2, 1, 1, 0],
        vec![0, 1, 1, 1, 2, 2],
        vec![2, 2, 0, 1, 0, 2],
    ];
    let mut a = SquareSite::uniform(6, 3);
    let mut b = SquareSite::new(6, 3);
    for row in rows.iter() {
        a.scan_colors(row).unwrap();
        b.scan_colors(row).unwrap();
        assert_eq!(ids(a.last_row()), ids(b.last_row()));
        check_row(&a);
    }
    assert_eq!(a.groups().ids(), b.groups().ids());
    for id in a.groups().ids() {
        assert_eq!(evidence(&a, id), evidence(&b, id));
    }
}

#[test]
fn single_colour_palette_gives_background() {
    let mut site = SquareSite::uniform(50, 1);
    assert_eq!(site.scan(3), Ok(()));
    assert_eq!(site.lines(), 3);
    assert_eq!(site.width(), 50);
    assert!(colors(site.last_row()).iter().all(|&k| k == 0));
    assert!(ids(site.last_row()).iter().all(|&k| k == 0));
    assert!(site.groups().ids().is_empty());
}

#[test]
fn sampled_colours_stay_in_palette() {
    let mut site = SquareSite::uniform(64, 4);
    assert_eq!(site.scan(20), Ok(()));
    assert!(colors(site.last_row()).iter().all(|&k| k < 4));
    check_row(&site);
}

#[test]
fn scanning_no_rows_changes_nothing() {
    let mut site = SquareSite::uniform(4, 3);
    site.scan_colors(&vec![1, 2, 0, 2]).unwrap();
    let before = ids(site.last_row());
    assert_eq!(site.scan(0), Ok(()));
    assert_eq!(ids(site.last_row()), before);
    assert_eq!(colors(site.last_row()), vec![1, 2, 0, 2]);
    assert_eq!(site.lines(), 1);
    assert_eq!(site.groups().ids(), vec![1, 2, 3]);
}

#[test]
fn next_id_counts_new_clusters() {
    let mut site = SquareSite::uniform(4, 3);
    site.scan_colors(&vec![1, 2, 1, 2]).unwrap();
    assert_eq!(site.groups().next_id(), 5);
    site.scan_colors(&vec![2, 1, 2, 1]).unwrap();
    assert_eq!(site.groups().next_id(), 9);
    assert_eq!(ids(site.last_row()), vec![5, 6, 7, 8]);
}
