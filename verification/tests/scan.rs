//! Behavioural tests for both matrix types, driven by simulated pins.
//!
//! The doubles share a `Board`: row outputs record which row is driven
//! low, column inputs answer according to the keys pressed at the
//! intersections of the active row, and every pin operation and delay
//! call is appended to one event log, so the exact scan protocol can be
//! asserted.

use key_matrix::delay::{DelayTick, TICKS_PER_MICROSECOND};
use key_matrix::matrix::{DirectPinMatrix, Matrix, SETTLE_US};
use key_matrix::pins::{InputPin, OutputPin};
use std::cell::RefCell;
use std::rc::Rc;

#[derive(Clone, Debug, PartialEq, Eq)]
enum Event {
    Low(usize),
    High(usize),
    Delay(u32),
    Read(usize, bool),
}

#[derive(Default)]
struct Board {
    active_row: Option<usize>,
    pressed: Vec<(usize, usize)>,
    events: Vec<Event>,
    fail_low_on_row: Option<usize>,
    fail_high_on_row: Option<usize>,
    fail_read_on_col: Option<usize>,
}

type Shared = Rc<RefCell<Board>>;

fn board() -> Shared {
    Rc::new(RefCell::new(Board::default()))
}

struct RowPin {
    id: usize,
    board: Shared,
}

impl OutputPin for RowPin {
    type Error = u32;

    fn set_high(&mut self) -> Result<(), u32> {
        let mut b = self.board.borrow_mut();
        if b.fail_high_on_row == Some(self.id) {
            return Err(700 + self.id as u32);
        }
        if b.active_row == Some(self.id) {
            b.active_row = None;
        }
        b.events.push(Event::High(self.id));
        Ok(())
    }

    fn set_low(&mut self) -> Result<(), u32> {
        let mut b = self.board.borrow_mut();
        if b.fail_low_on_row == Some(self.id) {
            return Err(800 + self.id as u32);
        }
        b.active_row = Some(self.id);
        b.events.push(Event::Low(self.id));
        Ok(())
    }
}

struct ColPin {
    id: usize,
    board: Shared,
}

impl InputPin for ColPin {
    type Error = u32;

    fn is_low(&mut self) -> Result<bool, u32> {
        let mut b = self.board.borrow_mut();
        if b.fail_read_on_col == Some(self.id) {
            return Err(900 + self.id as u32);
        }
        let low = match b.active_row {
            Some(r) => b.pressed.contains(&(r, self.id)),
            None => false,
        };
        b.events.push(Event::Read(self.id, low));
        Ok(low)
    }
}

struct BoardDelay {
    board: Shared,
}

impl DelayTick for BoardDelay {
    fn delay(&mut self, ticks: u32) {
        self.board.borrow_mut().events.push(Event::Delay(ticks));
    }
}

fn diode_2x3(b: &Shared) -> Matrix<ColPin, RowPin, BoardDelay, 3, 2> {
    let cols = [
        ColPin { id: 0, board: b.clone() },
        ColPin { id: 1, board: b.clone() },
        ColPin { id: 2, board: b.clone() },
    ];
    let rows = [
        RowPin { id: 0, board: b.clone() },
        RowPin { id: 1, board: b.clone() },
    ];
    let delay = BoardDelay { board: b.clone() };
    Matrix::new(cols, rows, delay).expect("construction must succeed")
}

fn expected_row_scan(b: &Shared, row: usize, cols: usize) -> Vec<Event> {
    let mut v = vec![Event::Low(row)];
    for _ in 0..SETTLE_US {
        v.push(Event::Delay(TICKS_PER_MICROSECOND));
    }
    for c in 0..cols {
        let pressed = b.borrow().pressed.contains(&(row, c));
        v.push(Event::Read(c, pressed));
    }
    v.push(Event::High(row));
    v
}

#[test]
fn diode_idle_scan_all_false() {
    let b = board();
    let mut m = diode_2x3(&b);
    let keys = m.get().expect("scan must succeed");
    assert_eq!(keys, [[false, false, false], [false, false, false]]);
}

#[test]
fn construction_drives_rows_high_once() {
    let b = board();
    let _m = diode_2x3(&b);
    let events = b.borrow().events.clone();
    assert_eq!(events, vec![Event::High(0), Event::High(1)]);
}

#[test]
fn construction_propagates_row_failure() {
    let b = board();
    b.borrow_mut().fail_high_on_row = Some(1);
    let cols = [ColPin { id: 0, board: b.clone() }];
    let rows = [
        RowPin { id: 0, board: b.clone() },
        RowPin { id: 1, board: b.clone() },
    ];
    let delay = BoardDelay { board: b.clone() };
    let r: Result<Matrix<ColPin, RowPin, BoardDelay, 1, 2>, u32> = Matrix::new(cols, rows, delay);
    assert_eq!(r.err(), Some(701));
    let events = b.borrow().events.clone();
    assert_eq!(events, vec![Event::High(0)]);
}

#[test]
fn scan_follows_row_protocol_in_order() {
    let b = board();
    b.borrow_mut().pressed = vec![(0, 2), (1, 1)];
    let mut m = diode_2x3(&b);
    b.borrow_mut().events.clear();
    m.get().expect("scan must succeed");
    let mut expected = expected_row_scan(&b, 0, 3);
    expected.extend(expected_row_scan(&b, 1, 3));
    let events = b.borrow().events.clone();
    assert_eq!(events, expected);
}

#[test]
fn pressed_key_reported_only_in_its_row() {
    let b = board();
    b.borrow_mut().pressed = vec![(1, 0)];
    let mut m = diode_2x3(&b);
    let keys = m.get().expect("scan must succeed");
    assert_eq!(keys, [[false, false, false], [true, false, false]]);
}

#[test]
fn scan_is_idempotent_with_unchanged_inputs() {
    let b = board();
    b.borrow_mut().pressed = vec![(0, 0), (1, 2)];
    let mut m = diode_2x3(&b);
    let first = m.get().expect("scan must succeed");
    let second = m.get().expect("scan must succeed");
    assert_eq!(first, second);
    assert_eq!(first, [[true, false, false], [false, false, true]]);
}

#[test]
fn scan_error_aborts_without_restoring_rows() {
    let b = board();
    b.borrow_mut().fail_low_on_row = Some(1);
    let mut m = diode_2x3(&b);
    b.borrow_mut().events.clear();
    let r = m.get();
    assert_eq!(r.err(), Some(801));
    let events = b.borrow().events.clone();
    assert_eq!(events, expected_row_scan(&b, 0, 3));
}

#[test]
fn column_read_error_propagates() {
    let b = board();
    b.borrow_mut().fail_read_on_col = Some(1);
    let mut m = diode_2x3(&b);
    b.borrow_mut().events.clear();
    let r = m.get();
    assert_eq!(r.err(), Some(901));
    let events = b.borrow().events.clone();
    let mut expected = vec![Event::Low(0)];
    for _ in 0..SETTLE_US {
        expected.push(Event::Delay(TICKS_PER_MICROSECOND));
    }
    expected.push(Event::Read(0, false));
    assert_eq!(events, expected);
}

#[test]
fn row_restore_error_aborts_the_scan() {
    let b = board();
    let mut m = diode_2x3(&b);
    b.borrow_mut().fail_high_on_row = Some(0);
    b.borrow_mut().events.clear();
    let r = m.get();
    assert_eq!(r.err(), Some(700));
    let events = b.borrow().events.clone();
    let mut expected = vec![Event::Low(0)];
    for _ in 0..SETTLE_US {
        expected.push(Event::Delay(TICKS_PER_MICROSECOND));
    }
    for c in 0..3 {
        expected.push(Event::Read(c, false));
    }
    assert_eq!(events, expected);
}

#[test]
fn single_cell_matrix_behaves_like_the_general_case() {
    let b = board();
    b.borrow_mut().pressed = vec![(0, 0)];
    let cols = [ColPin { id: 0, board: b.clone() }];
    let rows = [RowPin { id: 0, board: b.clone() }];
    let delay = BoardDelay { board: b.clone() };
    let mut m: Matrix<ColPin, RowPin, BoardDelay, 1, 1> =
        Matrix::new(cols, rows, delay).expect("construction must succeed");
    b.borrow_mut().events.clear();
    let keys = m.get().expect("scan must succeed");
    assert_eq!(keys, [[true]]);
    let events = b.borrow().events.clone();
    assert_eq!(events, expected_row_scan(&b, 0, 1));
}

#[test]
fn zero_rows_scan_is_empty_and_touches_nothing() {
    let b = board();
    let cols = [
        ColPin { id: 0, board: b.clone() },
        ColPin { id: 1, board: b.clone() },
    ];
    let rows: [RowPin; 0] = [];
    let delay = BoardDelay { board: b.clone() };
    let mut m: Matrix<ColPin, RowPin, BoardDelay, 2, 0> =
        Matrix::new(cols, rows, delay).expect("construction must succeed");
    let keys: [[bool; 2]; 0] = m.get().expect("scan must succeed");
    assert_eq!(keys.len(), 0);
    assert!(b.borrow().events.is_empty());
}

#[test]
fn zero_columns_scan_touches_no_pin() {
    let b = board();
    let cols: [ColPin; 0] = [];
    let rows = [RowPin { id: 0, board: b.clone() }];
    let delay = BoardDelay { board: b.clone() };
    let mut m: Matrix<ColPin, RowPin, BoardDelay, 0, 1> =
        Matrix::new(cols, rows, delay).expect("construction must succeed");
    b.borrow_mut().events.clear();
    let keys = m.get().expect("scan must succeed");
    assert_eq!(keys, [[]] as [[bool; 0]; 1]);
    assert!(b.borrow().events.is_empty());
}
