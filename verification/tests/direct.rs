//! Behavioural tests for the diodeless matrix and the timing helper.

use key_matrix::delay::{delay_us, DelayTick, TICKS_PER_MICROSECOND, TICKS_PER_SECOND};
use key_matrix::matrix::DirectPinMatrix;
use key_matrix::pins::InputPin;
use std::cell::RefCell;
use std::rc::Rc;

/// An input pin that answers a fixed level, optionally fails, and logs
/// every sample it serves to a shared record.
struct KeyPin {
    id: usize,
    pressed: bool,
    fail: bool,
    log: Rc<RefCell<Vec<usize>>>,
}

impl InputPin for KeyPin {
    type Error = u32;

    fn is_low(&mut self) -> Result<bool, u32> {
        if self.fail {
            return Err(500 + self.id as u32);
        }
        self.log.borrow_mut().push(self.id);
        Ok(self.pressed)
    }
}

fn pin(id: usize, pressed: bool, fail: bool, log: &Rc<RefCell<Vec<usize>>>) -> Option<KeyPin> {
    Some(KeyPin { id, pressed, fail, log: log.clone() })
}

#[test]
fn direct_idle_scan_all_false() {
    let log = Rc::new(RefCell::new(Vec::new()));
    let pins = [
        [pin(0, false, false, &log), None],
        [None, pin(3, false, false, &log)],
    ];
    let mut m: DirectPinMatrix<KeyPin, 2, 2> =
        DirectPinMatrix::new(pins).expect("construction must succeed");
    let keys = m.get().expect("scan must succeed");
    assert_eq!(keys, [[false, false], [false, false]]);
}

#[test]
fn absent_cells_never_report_pressed() {
    let log = Rc::new(RefCell::new(Vec::new()));
    let pins = [
        [pin(0, true, false, &log), None],
        [None, pin(3, true, false, &log)],
    ];
    let mut m: DirectPinMatrix<KeyPin, 2, 2> =
        DirectPinMatrix::new(pins).expect("construction must succeed");
    let keys = m.get().expect("scan must succeed");
    assert_eq!(keys, [[true, false], [false, true]]);
    let keys_again = m.get().expect("scan must succeed");
    assert_eq!(keys_again, [[true, false], [false, true]]);
}

#[test]
fn direct_scan_samples_in_row_major_order() {
    let log = Rc::new(RefCell::new(Vec::new()));
    let pins = [
        [pin(0, false, false, &log), pin(1, true, false, &log)],
        [pin(2, false, false, &log), None],
    ];
    let mut m: DirectPinMatrix<KeyPin, 2, 2> =
        DirectPinMatrix::new(pins).expect("construction must succeed");
    let keys = m.get().expect("scan must succeed");
    assert_eq!(keys, [[false, true], [false, false]]);
    assert_eq!(log.borrow().clone(), vec![0, 1, 2]);
}

#[test]
fn direct_read_error_stops_sampling() {
    let log = Rc::new(RefCell::new(Vec::new()));
    let pins = [
        [pin(0, false, false, &log), pin(1, false, true, &log)],
        [pin(2, true, false, &log), pin(3, false, false, &log)],
    ];
    let mut m: DirectPinMatrix<KeyPin, 2, 2> =
        DirectPinMatrix::new(pins).expect("construction must succeed");
    let r = m.get();
    assert_eq!(r.err(), Some(501));
    assert_eq!(log.borrow().clone(), vec![0]);
}

#[test]
fn direct_scan_is_idempotent_with_unchanged_inputs() {
    let log = Rc::new(RefCell::new(Vec::new()));
    let pins = [
        [pin(0, true, false, &log), pin(1, false, false, &log)],
        [None, pin(3, true, false, &log)],
    ];
    let mut m: DirectPinMatrix<KeyPin, 2, 2> =
        DirectPinMatrix::new(pins).expect("construction must succeed");
    let first = m.get().expect("scan must succeed");
    let second = m.get().expect("scan must succeed");
    assert_eq!(first, second);
}

#[test]
fn direct_single_cell_matrix() {
    let log = Rc::new(RefCell::new(Vec::new()));
    let pins = [[pin(0, true, false, &log)]];
    let mut m: DirectPinMatrix<KeyPin, 1, 1> =
        DirectPinMatrix::new(pins).expect("construction must succeed");
    assert_eq!(m.get().expect("scan must succeed"), [[true]]);
    let empty: [[Option<KeyPin>; 1]; 1] = [[None]];
    let mut absent: DirectPinMatrix<KeyPin, 1, 1> =
        DirectPinMatrix::new(empty).expect("construction must succeed");
    assert_eq!(absent.get().expect("scan must succeed"), [[false]]);
}

/// A delay primitive that records every tick count it is handed.
struct CountingDelay {
    calls: Vec<u32>,
}

impl DelayTick for CountingDelay {
    fn delay(&mut self, ticks: u32) {
        self.calls.push(ticks);
    }
}

#[test]
fn delay_us_issues_one_bounded_call_per_microsecond() {
    let mut d = CountingDelay { calls: Vec::new() };
    delay_us(&mut d, 5);
    assert_eq!(d.calls, vec![TICKS_PER_MICROSECOND; 5]);
    assert_eq!(d.calls, vec![12, 12, 12, 12, 12]);
}

#[test]
fn delay_us_zero_issues_nothing() {
    let mut d = CountingDelay { calls: Vec::new() };
    delay_us(&mut d, 0);
    assert!(d.calls.is_empty());
}

#[test]
fn reference_tick_rate_is_twelve_megahertz() {
    assert_eq!(TICKS_PER_SECOND, 12_000_000);
    assert_eq!(TICKS_PER_MICROSECOND, 12);
}
