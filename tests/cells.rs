use percolation::{Cell, PercolationError, ID_LIMIT};

#[test]
fn ready() {
    println!("it works!")
}

#[test]
fn test2() {
    let mut ss = Cell::new(1);
    assert!(ss.set_id(6).is_ok());
    assert!(ss.replace_id(6, 5).is_ok());
    println!("{:#?}", ss);
    assert_eq!(ss.get_id(), 5);
    assert_eq!(ss.get_color(), 1);
}

#[test]
fn new_cell_has_no_id() {
    let c = Cell::new(7);
    assert_eq!(c.get_color(), 7);
    assert_eq!(c.get_id(), 0);
    assert!(!c.is_white());
    assert!(Cell::new(0).is_white());
    assert!(Cell::default().is_white());
    assert_eq!(Cell::default().get_id(), 0);
}

#[test]
fn colour_is_kept_apart_from_id() {
    let mut c = Cell::new(3);
    assert!(c.set_id(0x12_3456).is_ok());
    assert_eq!(c.get_id(), 0x12_3456);
    assert_eq!(c.get_color(), 3);
    c.set_color(200);
    assert_eq!(c.get_color(), 200);
    assert_eq!(c.get_id(), 0x12_3456);
    assert!(c.same_color(&Cell::new(200)));
    assert!(!c.same_color(&Cell::new(3)));
    assert!(c.is_id(0x12_3456));
    assert!(!c.is_id(0x12_3457));
}

#[test]
fn largest_id_fits() {
    let mut c = Cell::new(1);
    assert!(c.set_id(ID_LIMIT - 1).is_ok());
    assert_eq!(c.get_id(), 0xFF_FFFF);
    assert_eq!(c.get_color(), 1);
}

#[test]
fn id_past_24_bits_is_refused() {
    let mut c = Cell::new(1);
    assert!(c.set_id(9).is_ok());
    assert_eq!(c.set_id(ID_LIMIT), Err(PercolationError::ClusterIdOverflow));
    assert_eq!(c.get_id(), 9);
    assert_eq!(c.replace_id(9, u32::MAX), Err(PercolationError::ClusterIdOverflow));
    assert_eq!(c.get_id(), 9);
}

#[test]
fn replace_id_of_other_id_is_noop() {
    let mut c = Cell::new(2);
    assert!(c.set_id(4).is_ok());
    assert!(c.replace_id(5, 8).is_ok());
    assert_eq!(c.get_id(), 4);
    assert!(c.replace_id(4, 8).is_ok());
    assert_eq!(c.get_id(), 8);
}

#[test]
fn validate_reports_uncoupled_cells() {
    assert_eq!(Cell::new(0).validate(), Ok(()));
    assert_eq!(Cell::new(1).validate(), Err(PercolationError::InvariantViolation));
    let mut c = Cell::new(0);
    assert!(c.set_id(3).is_ok());
    assert_eq!(c.validate(), Err(PercolationError::InvariantViolation));
    c.set_color(5);
    assert_eq!(c.validate(), Ok(()));
}

#[test]
fn cell_is_four_bytes() {
    assert_eq!(std::mem::size_of::<Cell>(), 4);
    assert_eq!(std::mem::align_of::<Cell>(), 1);
}
