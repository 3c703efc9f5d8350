use bycl_sim::io::{ColumnDisplay, DisplayFault, Mmio, TransactionId};

#[test]
fn store_goes_only_to_attached_ports() {
    let mut mmio = Mmio::new(4);
    assert_eq!(mmio.num_ports(), 4);
    mmio.attach_port(2);
    assert!(mmio.is_attached(2));
    assert!(!mmio.is_attached(1));
    mmio.store(1, 5);
    mmio.store(2, 6);
    mmio.store(2, 7);
    assert_eq!(mmio.next_tid(), TransactionId(2));
    assert_eq!(mmio.take_sent(), vec![(2, 6, TransactionId(0)), (2, 7, TransactionId(1))]);
    assert_eq!(mmio.take_sent(), vec![]);
}

#[test]
fn ports_keep_last_value_received() {
    let mut mmio = Mmio::new(4);
    mmio.attach_port(0);
    mmio.attach_port(3);
    assert_eq!(mmio.load(0), 0);
    mmio.update_ports(&vec![(0, 1), (3, 9), (0, 2)]);
    assert_eq!(mmio.load(0), 2);
    assert_eq!(mmio.load(3), 9);
    assert_eq!(mmio.load(1), 0);
}

#[test]
fn display_shows_latest_data_in_submitted_column() {
    let mut d = ColumnDisplay::new(4);
    assert_eq!(d.num_columns(), 4);
    // Data only: queued, nothing shown.
    assert!(!d.update(&vec![(0b101, TransactionId(0))], &vec![]));
    // A column packet after two data packets shows the later one.
    let changed = d.update(&vec![(0b110, TransactionId(1))], &vec![(2, TransactionId(2))]);
    assert!(changed);
    let rows = d.pixel_rows();
    assert_eq!(rows.len(), 32);
    assert_eq!(rows[31], vec![false, false, false, false]);
    assert_eq!(rows[30], vec![false, false, true, false]);
    assert_eq!(rows[29], vec![false, false, true, false]);
    // The same pattern again changes nothing.
    assert!(!d.update(&vec![], &vec![(2, TransactionId(3))]));
    // Two columns at once, with the current pattern.
    assert!(d.update(&vec![], &vec![(0, TransactionId(4)), (3, TransactionId(5))]));
    let rows = d.pixel_rows();
    assert_eq!(rows[30], vec![true, false, true, true]);
}

#[test]
fn display_top_row_is_bit_31() {
    let mut d = ColumnDisplay::new(1);
    assert!(d.update(&vec![(0x8000_0001, TransactionId(0))], &vec![(0, TransactionId(1))]));
    let rows = d.pixel_rows();
    assert!(rows[0][0]);
    assert!(rows[31][0]);
    assert!(!rows[15][0]);
}

#[test]
fn display_update_faults() {
    let mut d = ColumnDisplay::new(2);
    assert_eq!(
        d.update_fault(&vec![], &vec![(2, TransactionId(0))]),
        Some(DisplayFault::NoSuchColumn(2))
    );
    assert_eq!(
        d.update_fault(&vec![(1, TransactionId(5))], &vec![(0, TransactionId(3))]),
        Some(DisplayFault::Stalled)
    );
    assert!(!d.update(&vec![(1, TransactionId(5))], &vec![]));
    assert_eq!(d.update_fault(&vec![], &vec![(0, TransactionId(3))]), Some(DisplayFault::Stalled));
    assert_eq!(d.update_fault(&vec![], &vec![(0, TransactionId(6))]), None);
    assert_eq!(d.update_fault(&vec![], &vec![]), None);
    assert!(d.update(&vec![], &vec![(0, TransactionId(6))]));
    assert_eq!(d.pixel_rows()[31], vec![true, false]);
}

#[test]
fn first_missing_column_is_reported() {
    let d = ColumnDisplay::new(2);
    assert_eq!(
        d.update_fault(
            &vec![],
            &vec![(0, TransactionId(0)), (5, TransactionId(1)), (3, TransactionId(2))]
        ),
        Some(DisplayFault::NoSuchColumn(5))
    );
}

#[test]
fn stores_to_devices_get_consecutive_ids() {
    let mut mmio = Mmio::new(3);
    mmio.attach_port(0);
    mmio.attach_port(2);
    mmio.store(2, 10);
    mmio.store(1, 11);
    mmio.store(0, 12);
    mmio.store(1, 13);
    mmio.store(2, 14);
    assert_eq!(
        mmio.take_sent(),
        vec![(2, 10, TransactionId(0)), (0, 12, TransactionId(1)), (2, 14, TransactionId(2))]
    );
    assert_eq!(mmio.next_tid(), TransactionId(3));
}
