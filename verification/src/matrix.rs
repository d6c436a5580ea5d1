//! Hardware pin switch matrix handling.
//!
//! [`Matrix`] models switches wired at row/column intersections through
//! isolation diodes: rows are driven outputs, columns are sensed inputs,
//! and a scan selects one row at a time. [`DirectPinMatrix`] models
//! switches wired one per input pin, arranged logically as a grid in
//! which some positions may hold no pin at all.
//!
//! Both produce, per scan, a fresh `RS x CS` grid of booleans in which
//! `true` means pressed (the line read low). The contracts speak of the
//! pins' event records: which levels were driven, which readings were
//! taken, and which delays were issued. What a line reads changes with
//! the row being driven, so a cell of the grid is tied to the reading
//! taken for its own row's window, not to any fixed per-pin level.

use crate::delay::{delay_us, tick_calls, DelayTick};
use crate::pins::{InputPin, OutputPin};
use vstd::prelude::*;

verus! {

broadcast use vstd::array::group_array_axioms;

/// Settle time, in microseconds, between driving a row low and sampling
/// its columns: the row's transition must propagate through the diodes
/// and wiring before a column read is valid. Tuned empirically against
/// cross-key interference; configurable in spirit, not sacred.
pub const SETTLE_US: u32 = 10;

/// The first `n` entries of column `j` of `keys`, top to bottom: the
/// readings a scan must have logged for that column over rows `0..n`.
pub open spec fn grid_column_prefix<const CS: usize, const RS: usize>(
    keys: [[bool; CS]; RS],
    j: int,
    n: nat,
) -> Seq<bool> {
    Seq::new(n, |i: int| keys@[i]@[j])
}

/// The readings recorded by the pin in one grid slot: an empty slot has
/// no record.
pub open spec fn slot_log<P: InputPin>(slot: Option<P>) -> Seq<bool> {
    match slot {
        Some(p) => p.reads(),
        None => Seq::empty(),
    }
}

/// Describes the hardware-level matrix of switches.
///
/// Generic parameters are in order: the type of column pins, the type of
/// row pins, the settle-delay primitive, the number of columns and rows.
/// Column pins are pull-up inputs; row pins are outputs, held high
/// whenever no scan is in progress.
pub struct Matrix<C, R, D, const CS: usize, const RS: usize> where
    C: InputPin,
    R: OutputPin,
    D: DelayTick,
 {
    cols: [C; CS],
    rows: [R; RS],
    delay: D,
}

impl<C, R, D, const CS: usize, const RS: usize> Matrix<C, R, D, CS, RS> where
    C: InputPin,
    R: OutputPin,
    D: DelayTick,
 {
    /// The recorded samples of column line `j`, oldest first: `true` for
    /// low (active).
    pub closed spec fn col_log(&self, j: int) -> Seq<bool> {
        self.cols@[j].reads()
    }

    /// The recorded drive history of row line `i`, oldest first:
    /// `true` for high (inactive), `false` for low (active).
    pub closed spec fn row_log(&self, i: int) -> Seq<bool> {
        self.rows@[i].driven()
    }

    /// The recorded history of settle-delay primitive calls.
    pub closed spec fn delay_log(&self) -> Seq<u32> {
        self.delay.issued()
    }

    /// What a successful scan did to the column records, relative to the
    /// state `pre` it started from: each column logged exactly one
    /// reading per row, in row order, and cell `(i, j)` of the grid holds
    /// the reading taken of column `j` while row `i` was selected.
    pub open spec fn scan_result(&self, pre: Self, keys: [[bool; CS]; RS]) -> bool {
        forall|j: int|
            0 <= j < CS ==> #[trigger] self.col_log(j) == pre.col_log(j) + grid_column_prefix(
                keys,
                j,
                RS as nat,
            )
    }

    /// Relative to the state `pre`, each row before `k` had its inactive
    /// (high) level driven exactly once, and no row from `k` on was
    /// touched: how far an aborted initialisation got.
    pub open spec fn cleared_up_to(&self, pre: Self, k: int) -> bool {
        &&& forall|i: int| 0 <= i < k ==> self.row_log(i) == pre.row_log(i).push(true)
        &&& forall|i: int| k <= i < RS ==> self.row_log(i) == pre.row_log(i)
    }

    /// Relative to the state `pre`, an aborted scan stopped in row `k`
    /// after sampling the first `c` of its columns: earlier rows ran in
    /// full (driven low then high, each column sampled once per row),
    /// row `k` was driven low at most once and not restored, columns
    /// before `c` were sampled once more for row `k`, and nothing later
    /// was touched. The failed operation itself recorded nothing.
    pub open spec fn aborted_scan(&self, pre: Self, k: int, c: int) -> bool {
        &&& forall|i: int| 0 <= i < k ==> self.row_log(i) == pre.row_log(i) + seq![false, true]
        &&& (self.row_log(k) == pre.row_log(k) || self.row_log(k) == pre.row_log(k).push(false))
        &&& forall|i: int| k < i < RS ==> self.row_log(i) == pre.row_log(i)
        &&& forall|j: int|
            0 <= j < c ==> (#[trigger] self.col_log(j)).len() == pre.col_log(j).len() + k + 1
        &&& forall|j: int|
            c <= j < CS ==> (#[trigger] self.col_log(j)).len() == pre.col_log(j).len() + k
        &&& forall|j: int| 0 <= j < CS ==> pre.col_log(j).is_prefix_of(#[trigger] self.col_log(j))
    }

    /// Creates a new Matrix, taking ownership of its pins and of the
    /// settle-delay primitive.
    ///
    /// Every row line is driven to its inactive (high) level once, before
    /// any scan; no column is sampled and no delay is issued. Construction
    /// is all-or-nothing: a row that fails to be set surfaces the driver's
    /// error instead of a half-initialised matrix.
    pub fn new<E>(cols: [C; CS], rows: [R; RS], delay: D) -> (r: Result<Self, E>) where
        C: InputPin<Error = E>,
        R: OutputPin<Error = E>,

        ensures
            r matches Ok(m) ==> {
                &&& forall|j: int| 0 <= j < CS ==> m.col_log(j) == cols@[j].reads()
                &&& forall|i: int|
                    0 <= i < RS ==> m.row_log(i) == rows@[i].driven().push(true)
                &&& m.delay_log() == delay.issued()
            },
            RS == 0 ==> r is Ok,
    {
        let mut res = Self { cols, rows, delay };
        match res.clear() {
            Ok(()) => Ok(res),
            Err(e) => Err(e),
        }
    }

    /// Returns every row line to its inactive (high) level, in row order,
    /// sampling no column and issuing no delay. The first row that fails
    /// to be set aborts the pass: earlier rows were each set high once,
    /// later rows were not driven at all.
    fn clear<E>(&mut self) -> (r: Result<(), E>) where
        C: InputPin<Error = E>,
        R: OutputPin<Error = E>,

        ensures
            forall|j: int|
                0 <= j < CS ==> final(self).col_log(j) == old(self).col_log(j),
            final(self).delay_log() == old(self).delay_log(),
            r is Ok ==> forall|i: int|
                0 <= i < RS ==> final(self).row_log(i) == old(self).row_log(i).push(true),
            r is Err ==> exists|k: int|
                0 <= k < RS && #[trigger] final(self).cleared_up_to(*old(self), k),
            RS == 0 ==> r is Ok,
    {
        for i in 0..RS
            invariant
                self.cols == old(self).cols,
                self.delay == old(self).delay,
                forall|k: int|
                    0 <= k < i ==> self.row_log(k) == old(self).row_log(k).push(true),
                forall|k: int| i <= k < RS ==> self.row_log(k) == old(self).row_log(k),
        {
            let ghost prev = *self;
            match self.rows[i].set_high() {
                Ok(()) => {
                    proof {
                        assert forall|k: int| 0 <= k < i + 1 implies self.row_log(k)
                            == old(self).row_log(k).push(true) by {
                            if k < i {
                                assert(prev.row_log(k) == old(self).row_log(k).push(true));
                                assert(self.rows@[k] == prev.rows@[k]);
                            } else {
                                assert(prev.row_log(k) == old(self).row_log(k));
                            }
                        }
                    }
                },
                Err(e) => {
                    proof {
                        assert forall|k2: int| 0 <= k2 < i implies self.row_log(k2) == old(
                            self,
                        ).row_log(k2).push(true) by {
                            assert(prev.row_log(k2) == old(self).row_log(k2).push(true));
                            assert(self.rows@[k2] == prev.rows@[k2]);
                        }
                        assert forall|k2: int| i <= k2 < RS implies self.row_log(k2) == old(
                            self,
                        ).row_log(k2) by {
                            assert(prev.row_log(k2) == old(self).row_log(k2));
                            if k2 == i {
                                assert(self.rows@[k2].driven() == prev.rows@[k2].driven());
                            } else {
                                assert(self.rows@[k2] == prev.rows@[k2]);
                            }
                        }
                        assert(self.cleared_up_to(*old(self), i as int));
                    }
                    return Err(e);
                },
            }
        }
        Ok(())
    }

    /// Scans the matrix and checks which keys are pressed.
    ///
    /// Every row pin in order is pulled low, the settle delay is waited
    /// out, each column pin is sampled (low means pressed), and the row
    /// is driven high again. Rows are scanned strictly one at a time:
    /// columns are shared across rows, and two simultaneously active rows
    /// would be indistinguishable (ghosting). Any pin failure aborts the
    /// scan and surfaces the error at once; after a failure the caller
    /// must not assume the active row was restored to idle.
    ///
    /// A matrix with no rows or no columns scans to the empty or
    /// all-false grid without a single pin operation or delay.
    pub fn get<E>(&mut self) -> (r: Result<[[bool; CS]; RS], E>) where
        C: InputPin<Error = E>,
        R: OutputPin<Error = E>,

        ensures
            forall|j: int|
                0 <= j < CS ==> old(self).col_log(j).is_prefix_of(
                    #[trigger] final(self).col_log(j),
                ),
            r matches Ok(keys) ==> final(self).scan_result(*old(self), keys),
            RS == 0 || CS == 0 ==> r is Ok && *final(self) == *old(self),
            CS > 0 ==> (r matches Ok(keys) ==> {
                &&& forall|i: int|
                    0 <= i < RS ==> final(self).row_log(i) == old(self).row_log(i) + seq![
                        false,
                        true,
                    ]
                &&& final(self).delay_log() == old(self).delay_log() + tick_calls(
                    (RS as nat) * (SETTLE_US as nat),
                )
            }),
            r is Err ==> exists|k: int, c: int|
                0 <= k < RS && 0 <= c <= CS && #[trigger] final(self).aborted_scan(
                    *old(self),
                    k,
                    c,
                ),
    {
        let mut keys: [[bool; CS]; RS] = [[false; CS]; RS];

        if RS == 0 || CS == 0 {
            proof {
                assert forall|j: int| 0 <= j < CS implies #[trigger] self.col_log(j) == old(
                    self,
                ).col_log(j) + grid_column_prefix(keys, j, RS as nat) by {
                    assert(old(self).col_log(j) + grid_column_prefix(keys, j, RS as nat) =~= old(
                        self,
                    ).col_log(j));
                }
                assert forall|j: int| 0 <= j < CS implies old(self).col_log(j).is_prefix_of(
                    #[trigger] self.col_log(j),
                ) by {
                    assert(old(self).col_log(j) =~= self.col_log(j).subrange(
                        0,
                        old(self).col_log(j).len() as int,
                    ));
                }
                if RS == 0 {
                    assert(old(self).delay_log() + tick_calls((RS as nat) * (SETTLE_US as nat))
                        =~= old(self).delay_log());
                }
            }
            return Ok(keys);
        }
        for ri in 0..RS
            invariant
                0 < RS,
                0 < CS,
                forall|k: int|
                    0 <= k < ri ==> self.row_log(k) == old(self).row_log(k) + seq![false, true],
                forall|k: int| ri <= k < RS ==> self.row_log(k) == old(self).row_log(k),
                self.delay_log() == old(self).delay_log() + tick_calls(
                    (ri as nat) * (SETTLE_US as nat),
                ),
                forall|j: int|
                    0 <= j < CS ==> #[trigger] self.col_log(j) == old(self).col_log(j)
                        + grid_column_prefix(keys, j, ri as nat),
                forall|i: int, j: int| ri <= i < RS && 0 <= j < CS ==> keys@[i]@[j] == false,
        {
            let ghost entry = *self;
            match self.rows[ri].set_low() {
                Ok(()) => {},
                Err(e) => {
                    proof {
                        lemma_frame_after_row_write(entry, *self, ri as int);
                        assert forall|k2: int| 0 <= k2 < ri implies self.row_log(k2) == old(
                            self,
                        ).row_log(k2) + seq![false, true] by {
                            assert(entry.row_log(k2) == old(self).row_log(k2) + seq![false, true]);
                            assert(self.row_log(k2) == entry.row_log(k2));
                        }
                        assert forall|k2: int| ri < k2 < RS implies self.row_log(k2) == old(
                            self,
                        ).row_log(k2) by {
                            assert(entry.row_log(k2) == old(self).row_log(k2));
                            assert(self.row_log(k2) == entry.row_log(k2));
                        }
                        assert(self.rows@[ri as int].driven() == entry.rows@[ri as int].driven());
                        assert(entry.row_log(ri as int) == old(self).row_log(ri as int));
                        assert forall|j2: int| 0 <= j2 < CS implies #[trigger] self.col_log(j2)
                            == old(self).col_log(j2) + grid_column_prefix(keys, j2, ri as nat) by {
                            assert(entry.col_log(j2) == old(self).col_log(j2) + grid_column_prefix(
                                keys,
                                j2,
                                ri as nat,
                            ));
                            assert(self.col_log(j2) == entry.col_log(j2));
                        }
                        assert forall|j2: int| 0 <= j2 < CS implies old(self).col_log(
                            j2,
                        ).is_prefix_of(#[trigger] self.col_log(j2)) by {
                            lemma_log_prefix(old(self).col_log(j2), self.col_log(j2));
                        }
                        assert(self.aborted_scan(*old(self), ri as int, 0));
                    }
                    return Err(e);
                },
            }
            delay_us(&mut self.delay, SETTLE_US);
            proof {
                lemma_frame_after_row_write(entry, *self, ri as int);
                assert(self.rows@[ri as int].driven() == entry.rows@[ri as int].driven().push(
                    false,
                ));
                assert(entry.row_log(ri as int) == old(self).row_log(ri as int));
                crate::delay::lemma_tick_calls_add(
                    (ri as nat) * (SETTLE_US as nat),
                    SETTLE_US as nat,
                );
                assert(((ri as nat) + 1) * (SETTLE_US as nat) == (ri as nat) * (SETTLE_US as nat)
                    + (SETTLE_US as nat)) by (nonlinear_arith);
                assert(old(self).delay_log() + tick_calls((ri as nat) * (SETTLE_US as nat))
                    + tick_calls(SETTLE_US as nat) =~= old(self).delay_log() + (tick_calls(
                    (ri as nat) * (SETTLE_US as nat),
                ) + tick_calls(SETTLE_US as nat)));
                assert forall|k2: int| 0 <= k2 < ri implies self.row_log(k2) == old(self).row_log(
                    k2,
                ) + seq![false, true] by {
                    assert(entry.row_log(k2) == old(self).row_log(k2) + seq![false, true]);
                    assert(self.row_log(k2) == entry.row_log(k2));
                }
                assert forall|k2: int| ri < k2 < RS implies self.row_log(k2) == old(
                    self,
                ).row_log(k2) by {
                    assert(entry.row_log(k2) == old(self).row_log(k2));
                    assert(self.row_log(k2) == entry.row_log(k2));
                }
                assert forall|j2: int| 0 <= j2 < CS implies #[trigger] self.col_log(j2) == old(
                    self,
                ).col_log(j2) + grid_column_prefix(keys, j2, ri as nat) by {
                    assert(entry.col_log(j2) == old(self).col_log(j2) + grid_column_prefix(
                        keys,
                        j2,
                        ri as nat,
                    ));
                    assert(self.col_log(j2) == entry.col_log(j2));
                }
            }
            for ci in 0..CS
                invariant
                    ri < RS,
                    0 < CS,
                    forall|k: int|
                        0 <= k < ri ==> self.row_log(k) == old(self).row_log(k) + seq![
                            false,
                            true,
                        ],
                    self.row_log(ri as int) == old(self).row_log(ri as int).push(false),
                    forall|k: int| ri < k < RS ==> self.row_log(k) == old(self).row_log(k),
                    self.delay_log() == old(self).delay_log() + tick_calls(
                        ((ri as nat) + 1) * (SETTLE_US as nat),
                    ),
                    forall|j: int|
                        0 <= j < ci ==> #[trigger] self.col_log(j) == old(self).col_log(j)
                            + grid_column_prefix(keys, j, (ri + 1) as nat),
                    forall|j: int|
                        ci <= j < CS ==> #[trigger] self.col_log(j) == old(self).col_log(j)
                            + grid_column_prefix(keys, j, ri as nat),
                    forall|j: int| ci <= j < CS ==> keys@[ri as int]@[j] == false,
                    forall|i: int, j: int|
                        ri < i < RS && 0 <= j < CS ==> keys@[i]@[j] == false,
            {
                let ghost before = *self;
                let ghost keys0 = keys;
                let pressed = match self.cols[ci].is_low() {
                    Ok(b) => b,
                    Err(e) => {
                        proof {
                            lemma_frame_after_col_read(before, *self, ci as int);
                            assert(self.cols@[ci as int].reads() == before.cols@[
                                ci as int].reads());
                            assert forall|k2: int| 0 <= k2 < ri implies self.row_log(k2) == old(
                                self,
                            ).row_log(k2) + seq![false, true] by {
                                assert(before.row_log(k2) == old(self).row_log(k2) + seq![
                                    false,
                                    true,
                                ]);
                                assert(self.row_log(k2) == before.row_log(k2));
                            }
                            assert forall|k2: int| ri < k2 < RS implies self.row_log(k2) == old(
                                self,
                            ).row_log(k2) by {
                                assert(before.row_log(k2) == old(self).row_log(k2));
                                assert(self.row_log(k2) == before.row_log(k2));
                            }
                            assert(self.row_log(ri as int) == before.row_log(ri as int));
                            assert forall|j2: int| 0 <= j2 < ci implies #[trigger] self.col_log(
                                j2,
                            ) == old(self).col_log(j2) + grid_column_prefix(
                                keys,
                                j2,
                                (ri + 1) as nat,
                            ) by {
                                assert(before.col_log(j2) == old(self).col_log(j2)
                                    + grid_column_prefix(keys, j2, (ri + 1) as nat));
                                assert(self.col_log(j2) == before.col_log(j2));
                            }
                            assert forall|j2: int| ci <= j2 < CS implies #[trigger] self.col_log(
                                j2,
                            ) == old(self).col_log(j2) + grid_column_prefix(
                                keys,
                                j2,
                                ri as nat,
                            ) by {
                                assert(before.col_log(j2) == old(self).col_log(j2)
                                    + grid_column_prefix(keys, j2, ri as nat));
                                assert(self.col_log(j2) == before.col_log(j2));
                            }
                            assert forall|j2: int| 0 <= j2 < CS implies old(self).col_log(
                                j2,
                            ).is_prefix_of(#[trigger] self.col_log(j2)) by {
                                lemma_log_prefix(old(self).col_log(j2), self.col_log(j2));
                            }
                            assert(self.aborted_scan(*old(self), ri as int, ci as int));
                        }
                        return Err(e);
                    },
                };
                if pressed {
                    let mut line: [bool; CS] = keys[ri];
                    line[ci] = true;
                    keys[ri] = line;
                }
                proof {
                    assert(keys@[ri as int]@[ci as int] == pressed);
                    assert forall|i2: int, j2: int|
                        0 <= i2 < RS && 0 <= j2 < CS && !(i2 == ri && j2 == ci) implies keys@[i2]@[
                        j2] == keys0@[i2]@[j2] by {
                        if pressed && i2 == ri {
                            assert(keys@[i2]@ == keys0@[i2]@.update(ci as int, true));
                        } else {
                            assert(keys@[i2] == keys0@[i2]);
                        }
                    }
                    lemma_frame_after_col_read(before, *self, ci as int);
                    assert(self.cols@[ci as int].reads() == before.cols@[ci as int].reads().push(
                        pressed,
                    ));
                    assert forall|j2: int| 0 <= j2 < ci + 1 implies #[trigger] self.col_log(j2)
                        == old(self).col_log(j2) + grid_column_prefix(
                        keys,
                        j2,
                        (ri + 1) as nat,
                    ) by {
                        if j2 < ci {
                            assert(self.col_log(j2) == old(self).col_log(j2) + grid_column_prefix(
                                keys0,
                                j2,
                                (ri + 1) as nat,
                            ));
                            assert(grid_column_prefix(keys, j2, (ri + 1) as nat)
                                =~= grid_column_prefix(keys0, j2, (ri + 1) as nat));
                        } else {
                            assert(before.col_log(ci as int) == old(self).col_log(ci as int)
                                + grid_column_prefix(keys0, ci as int, ri as nat));
                            assert(grid_column_prefix(keys, ci as int, (ri + 1) as nat)
                                =~= grid_column_prefix(keys0, ci as int, ri as nat).push(pressed));
                            assert(old(self).col_log(ci as int) + grid_column_prefix(
                                keys0,
                                ci as int,
                                ri as nat,
                            ).push(pressed) =~= (old(self).col_log(ci as int) + grid_column_prefix(
                                keys0,
                                ci as int,
                                ri as nat,
                            )).push(pressed));
                        }
                    }
                    assert forall|j2: int| ci + 1 <= j2 < CS implies #[trigger] self.col_log(j2)
                        == old(self).col_log(j2) + grid_column_prefix(keys, j2, ri as nat) by {
                        assert(self.col_log(j2) == old(self).col_log(j2) + grid_column_prefix(
                            keys0,
                            j2,
                            ri as nat,
                        ));
                        assert(grid_column_prefix(keys, j2, ri as nat) =~= grid_column_prefix(
                            keys0,
                            j2,
                            ri as nat,
                        ));
                    }
                }
            }
            let ghost mid = *self;
            match self.rows[ri].set_high() {
                Ok(()) => {
                    proof {
                        lemma_frame_after_row_write(mid, *self, ri as int);
                        assert forall|k: int| 0 <= k < ri + 1 implies self.row_log(k) == old(
                            self,
                        ).row_log(k) + seq![false, true] by {
                            if k < ri {
                                assert(mid.row_log(k) == old(self).row_log(k) + seq![false, true]);
                                assert(self.rows@[k] == mid.rows@[k]);
                            } else {
                                assert(mid.row_log(k) == old(self).row_log(k).push(false));
                                assert(self.rows@[k].driven() == mid.rows@[k].driven().push(true));
                                assert(old(self).row_log(k).push(false).push(true) =~= old(
                                    self,
                                ).row_log(k) + seq![false, true]);
                            }
                        }
                        assert forall|j2: int| 0 <= j2 < CS implies #[trigger] self.col_log(j2)
                            == old(self).col_log(j2) + grid_column_prefix(
                            keys,
                            j2,
                            (ri + 1) as nat,
                        ) by {
                            assert(mid.col_log(j2) == old(self).col_log(j2) + grid_column_prefix(
                                keys,
                                j2,
                                (ri + 1) as nat,
                            ));
                            assert(self.col_log(j2) == mid.col_log(j2));
                        }
                    }
                },
                Err(e) => {
                    proof {
                        lemma_frame_after_row_write(mid, *self, ri as int);
                        assert forall|k2: int| 0 <= k2 < ri implies self.row_log(k2) == old(
                            self,
                        ).row_log(k2) + seq![false, true] by {
                            assert(mid.row_log(k2) == old(self).row_log(k2) + seq![false, true]);
                            assert(self.row_log(k2) == mid.row_log(k2));
                        }
                        assert forall|k2: int| ri < k2 < RS implies self.row_log(k2) == old(
                            self,
                        ).row_log(k2) by {
                            assert(mid.row_log(k2) == old(self).row_log(k2));
                            assert(self.row_log(k2) == mid.row_log(k2));
                        }
                        assert(self.rows@[ri as int].driven() == mid.rows@[ri as int].driven());
                        assert(mid.row_log(ri as int) == old(self).row_log(ri as int).push(false));
                        assert forall|j2: int| 0 <= j2 < CS implies #[trigger] self.col_log(j2)
                            == old(self).col_log(j2) + grid_column_prefix(
                            keys,
                            j2,
                            (ri + 1) as nat,
                        ) by {
                            assert(mid.col_log(j2) == old(self).col_log(j2) + grid_column_prefix(
                                keys,
                                j2,
                                (ri + 1) as nat,
                            ));
                            assert(self.col_log(j2) == mid.col_log(j2));
                        }
                        assert forall|j2: int| 0 <= j2 < CS implies old(self).col_log(
                            j2,
                        ).is_prefix_of(#[trigger] self.col_log(j2)) by {
                            lemma_log_prefix(old(self).col_log(j2), self.col_log(j2));
                        }
                        assert(self.aborted_scan(*old(self), ri as int, CS as int));
                    }
                    return Err(e);
                },
            }
        }
        proof {
            assert forall|j: int| 0 <= j < CS implies old(self).col_log(j).is_prefix_of(
                #[trigger] self.col_log(j),
            ) by {
                assert(self.col_log(j) == old(self).col_log(j) + grid_column_prefix(
                    keys,
                    j,
                    RS as nat,
                ));
                assert(old(self).col_log(j) =~= self.col_log(j).subrange(
                    0,
                    old(self).col_log(j).len() as int,
                ));
            }
        }
        Ok(keys)
    }
}

/// Row and delay records are untouched by a write to one row pin, and
/// column records are untouched altogether: carries a scan's invariants
/// over such a write, from the state `before` just before it to the
/// state `after` just after it.
proof fn lemma_frame_after_row_write<C, R, D, const CS: usize, const RS: usize>(
    before: Matrix<C, R, D, CS, RS>,
    after: Matrix<C, R, D, CS, RS>,
    k: int,
) where C: InputPin, R: OutputPin, D: DelayTick
    requires
        0 <= k < RS,
        after.cols == before.cols,
        forall|i: int| 0 <= i < RS && i != k ==> after.rows@[i] == before.rows@[i],
    ensures
        forall|j: int| 0 <= j < CS ==> #[trigger] after.col_log(j) == before.col_log(j),
        forall|i: int|
            0 <= i < RS && i != k ==> #[trigger] after.row_log(i) == before.row_log(i),
{
    assert forall|j: int| 0 <= j < CS implies #[trigger] after.col_log(j) == before.col_log(
        j,
    ) by {
        assert(after.cols@[j] == before.cols@[j]);
    }
    assert forall|i: int| 0 <= i < RS && i != k implies #[trigger] after.row_log(i)
        == before.row_log(i) by {
        assert(after.rows@[i] == before.rows@[i]);
    }
}

/// Row and delay records are untouched by a sample of one column pin,
/// and the other columns' records are untouched too: carries a scan's
/// invariants over such a read.
proof fn lemma_frame_after_col_read<C, R, D, const CS: usize, const RS: usize>(
    before: Matrix<C, R, D, CS, RS>,
    after: Matrix<C, R, D, CS, RS>,
    c: int,
) where C: InputPin, R: OutputPin, D: DelayTick
    requires
        0 <= c < CS,
        after.rows == before.rows,
        forall|j: int| 0 <= j < CS && j != c ==> after.cols@[j] == before.cols@[j],
    ensures
        forall|j: int| 0 <= j < CS && j != c ==> #[trigger] after.col_log(j) == before.col_log(j),
        forall|i: int| 0 <= i < RS ==> #[trigger] after.row_log(i) == before.row_log(i),
{
    assert forall|j: int| 0 <= j < CS && j != c implies #[trigger] after.col_log(j)
        == before.col_log(j) by {
        assert(after.cols@[j] == before.cols@[j]);
    }
    assert forall|i: int| 0 <= i < RS implies #[trigger] after.row_log(i) == before.row_log(
        i,
    ) by {
        assert(after.rows@[i] == before.rows@[i]);
    }
}

/// What was logged stays logged: a record whose entries all stand, in
/// place, in a longer (or equal) record is a prefix of it.
proof fn lemma_log_prefix(s: Seq<bool>, t: Seq<bool>)
    requires
        s.len() <= t.len(),
        forall|x: int| 0 <= x < s.len() ==> s[x] == t[x],
    ensures
        s.is_prefix_of(t),
{
    assert(s =~= t.subrange(0, s.len() as int));
}


/// Samples the pin in one slot of a grid row, if any: `Ok(Some(b))` for
/// a pin that read `b`, `Ok(None)` for a slot with no pin. Only the
/// addressed slot is touched; a successful read is recorded on its pin,
/// a failed one records nothing.
fn sample_slot<P, E, const CS: usize>(row: &mut [Option<P>; CS], c: usize) -> (r: Result<
    Option<bool>,
    E,
>) where P: InputPin<Error = E>
    requires
        c < CS,
    ensures
        forall|j: int| 0 <= j < CS && j != c ==> final(row)@[j] == old(row)@[j],
        final(row)@[c as int] is Some <==> old(row)@[c as int] is Some,
        r matches Ok(Some(b)) ==> old(row)@[c as int] is Some && slot_log(final(row)@[c as int])
            == slot_log(old(row)@[c as int]).push(b),
        r matches Ok(None) ==> old(row)@[c as int] is None && final(row)@[c as int] == old(row)@[
            c as int],
        r is Err ==> old(row)@[c as int] is Some && slot_log(final(row)@[c as int]) == slot_log(
            old(row)@[c as int],
        ),
{
    match &mut row[c] {
        Some(p) => match p.is_low() {
            Ok(b) => Ok(Some(b)),
            Err(e) => Err(e),
        },
        None => Ok(None),
    }
}

/// Matrix-representation of switches directly attached to the pins
/// ("diodeless").
///
/// Generic parameters are in order: the type of the pins, the number of
/// columns and rows. There are no shared lines and hence no row-driving
/// step; a grid position with no physical switch holds `None`.
pub struct DirectPinMatrix<P, const CS: usize, const RS: usize> where P: InputPin {
    pins: [[Option<P>; CS]; RS],
}

impl<P, const CS: usize, const RS: usize> DirectPinMatrix<P, CS, RS> where P: InputPin {
    /// The recorded samples of the pin at cell `(i, j)`, oldest first; a
    /// cell with no pin has no record.
    pub closed spec fn cell_log(&self, i: int, j: int) -> Seq<bool> {
        slot_log(self.pins@[i]@[j])
    }

    /// True iff no pin is wired at cell `(i, j)`.
    pub closed spec fn cell_absent(&self, i: int, j: int) -> bool {
        self.pins@[i]@[j] is None
    }

    /// What a successful scan did to the pin records, relative to the
    /// state `pre` it started from: every wired pin was sampled exactly
    /// once and its cell holds that reading; a cell with no pin is never
    /// pressed.
    pub open spec fn scan_result(&self, pre: Self, keys: [[bool; CS]; RS]) -> bool {
        &&& forall|i: int, j: int|
            0 <= i < RS && 0 <= j < CS && pre.cell_absent(i, j) ==> !keys@[i]@[j]
        &&& forall|i: int, j: int|
            0 <= i < RS && 0 <= j < CS && !pre.cell_absent(i, j) ==> #[trigger] self.cell_log(
                i,
                j,
            ) == pre.cell_log(i, j).push(keys@[i]@[j])
    }

    /// Relative to the state `pre`, an aborted scan stopped at cell
    /// `(k, c)`: a pin is wired there, its read failed and recorded
    /// nothing, every wired cell before it in row-major order was
    /// sampled exactly once, and no cell from `(k, c)` on was touched.
    pub open spec fn aborted_scan(&self, pre: Self, k: int, c: int) -> bool {
        &&& !pre.cell_absent(k, c)
        &&& forall|i: int, j: int|
            0 <= i < RS && 0 <= j < CS && (i < k || (i == k && j < c)) && !pre.cell_absent(i, j)
                ==> (#[trigger] self.cell_log(i, j)).len() == pre.cell_log(i, j).len() + 1
        &&& forall|i: int, j: int|
            0 <= i < RS && 0 <= j < CS && !(i < k || (i == k && j < c)) ==> #[trigger] self.cell_log(
                i,
                j,
            ) == pre.cell_log(i, j)
    }

    /// Creates a new DirectPinMatrix, taking ownership of the grid of
    /// optional pins.
    ///
    /// The pins are pull-up inputs and need no initialisation, so
    /// construction always succeeds and samples nothing; the fallible
    /// signature mirrors [`Matrix::new`].
    pub fn new<E>(pins: [[Option<P>; CS]; RS]) -> (r: Result<Self, E>) where
        P: InputPin<Error = E>,

        ensures
            r is Ok,
            r matches Ok(m) ==> {
                &&& forall|i: int, j: int|
                    0 <= i < RS && 0 <= j < CS ==> m.cell_absent(i, j) == (pins@[i]@[j] is None)
                &&& forall|i: int, j: int|
                    0 <= i < RS && 0 <= j < CS ==> m.cell_log(i, j) == slot_log(pins@[i]@[j])
            },
    {
        let res = Self { pins };
        Ok(res)
    }

    /// Scans the pins and checks which keys are pressed (state is "low").
    ///
    /// Cells are sampled in row-major order; a cell with no pin is always
    /// reported unpressed and never touched. The first pin whose read
    /// fails aborts the scan and surfaces that error, without sampling
    /// any later cell.
    pub fn get<E>(&mut self) -> (r: Result<[[bool; CS]; RS], E>) where
        P: InputPin<Error = E>,

        ensures
            forall|i: int, j: int|
                0 <= i < RS && 0 <= j < CS ==> final(self).cell_absent(i, j) == old(
                    self,
                ).cell_absent(i, j),
            forall|i: int, j: int|
                0 <= i < RS && 0 <= j < CS ==> old(self).cell_log(i, j).is_prefix_of(
                    #[trigger] final(self).cell_log(i, j),
                ),
            r matches Ok(keys) ==> final(self).scan_result(*old(self), keys),
            (forall|i: int, j: int|
                0 <= i < RS && 0 <= j < CS ==> old(self).cell_absent(i, j)) ==> r is Ok,
            r is Err ==> exists|k: int, c: int|
                0 <= k < RS && 0 <= c < CS && #[trigger] final(self).aborted_scan(
                    *old(self),
                    k,
                    c,
                ),
    {
        let mut keys: [[bool; CS]; RS] = [[false; CS]; RS];

        for ri in 0..RS
            invariant
                forall|i: int, j: int|
                    0 <= i < RS && 0 <= j < CS ==> self.cell_absent(i, j) == old(
                        self,
                    ).cell_absent(i, j),
                forall|i: int, j: int|
                    0 <= i < ri && 0 <= j < CS && !old(self).cell_absent(i, j)
                        ==> #[trigger] self.cell_log(i, j) == old(self).cell_log(i, j).push(
                        keys@[i]@[j],
                    ),
                forall|i: int, j: int|
                    0 <= i < ri && 0 <= j < CS && old(self).cell_absent(i, j) ==> !keys@[i]@[j],
                forall|i: int, j: int|
                    ri <= i < RS && 0 <= j < CS ==> #[trigger] self.cell_log(i, j) == old(
                        self,
                    ).cell_log(i, j),
                forall|i: int, j: int| ri <= i < RS && 0 <= j < CS ==> keys@[i]@[j] == false,
        {
            for ci in 0..CS
                invariant
                    ri < RS,
                    forall|i: int, j: int|
                        0 <= i < RS && 0 <= j < CS ==> self.cell_absent(i, j) == old(
                            self,
                        ).cell_absent(i, j),
                    forall|i: int, j: int|
                        0 <= i < ri && 0 <= j < CS && !old(self).cell_absent(i, j)
                            ==> #[trigger] self.cell_log(i, j) == old(self).cell_log(i, j).push(
                            keys@[i]@[j],
                        ),
                    forall|i: int, j: int|
                        0 <= i < ri && 0 <= j < CS && old(self).cell_absent(i, j) ==> !keys@[i]@[j],
                    forall|j: int|
                        0 <= j < ci && !old(self).cell_absent(ri as int, j)
                            ==> #[trigger] self.cell_log(ri as int, j) == old(self).cell_log(
                            ri as int,
                            j,
                        ).push(keys@[ri as int]@[j]),
                    forall|j: int|
                        0 <= j < ci && old(self).cell_absent(ri as int, j) ==> !keys@[ri as int]@[
                            j],
                    forall|j: int|
                        ci <= j < CS ==> #[trigger] self.cell_log(ri as int, j) == old(
                            self,
                        ).cell_log(ri as int, j),
                    forall|j: int| ci <= j < CS ==> keys@[ri as int]@[j] == false,
                    forall|i: int, j: int|
                        ri < i < RS && 0 <= j < CS ==> #[trigger] self.cell_log(i, j) == old(
                            self,
                        ).cell_log(i, j),
                    forall|i: int, j: int|
                        ri < i < RS && 0 <= j < CS ==> keys@[i]@[j] == false,
            {
                let ghost before = *self;
                let ghost keys0 = keys;
                match sample_slot(&mut self.pins[ri], ci) {
                    Ok(level) => {
                        let sampled = match level {
                            Some(b) => {
                                if b {
                                    let mut line: [bool; CS] = keys[ri];
                                    line[ci] = true;
                                    keys[ri] = line;
                                }
                                b
                            },
                            None => false,
                        };
                        proof {
                            lemma_direct_frame(before, *self, ri as int, ci as int);
                            assert(keys@[ri as int]@[ci as int] == sampled);
                            assert forall|i2: int, j2: int|
                                0 <= i2 < RS && 0 <= j2 < CS && !(i2 == ri && j2 == ci) implies keys@[
                                i2]@[j2] == keys0@[i2]@[j2] by {
                                if sampled && i2 == ri {
                                    assert(keys@[i2]@ == keys0@[i2]@.update(ci as int, true));
                                } else {
                                    assert(keys@[i2] == keys0@[i2]);
                                }
                            }
                            assert(self.cell_absent(ri as int, ci as int) == before.cell_absent(
                                ri as int,
                                ci as int,
                            ));
                            if !before.cell_absent(ri as int, ci as int) {
                                assert(self.cell_log(ri as int, ci as int) == before.cell_log(
                                    ri as int,
                                    ci as int,
                                ).push(sampled));
                                assert(before.cell_log(ri as int, ci as int) == old(self).cell_log(
                                    ri as int,
                                    ci as int,
                                ));
                            } else {
                                assert(self.pins@[ri as int]@[ci as int] == before.pins@[
                                    ri as int]@[ci as int]);
                            }
                        }
                    },
                    Err(e) => {
                        proof {
                            lemma_direct_frame(before, *self, ri as int, ci as int);
                            assert(!before.cell_absent(ri as int, ci as int));
                            assert(!old(self).cell_absent(ri as int, ci as int));
                            assert(self.cell_log(ri as int, ci as int) == before.cell_log(
                                ri as int,
                                ci as int,
                            ));
                            assert forall|i2: int, j2: int|
                                0 <= i2 < RS && 0 <= j2 < CS implies self.cell_absent(i2, j2)
                                == old(self).cell_absent(i2, j2) by {
                                if i2 == ri && j2 == ci {
                                    assert(self.cell_absent(i2, j2) == before.cell_absent(i2, j2));
                                } else {
                                    assert(self.cell_log(i2, j2) == before.cell_log(i2, j2));
                                    assert(self.cell_absent(i2, j2) == before.cell_absent(i2, j2));
                                }
                            }
                            assert forall|i2: int, j2: int|
                                0 <= i2 < RS && 0 <= j2 < CS && !(i2 < ri || (i2 == ri && j2 < ci))
                                implies #[trigger] self.cell_log(i2, j2) == old(self).cell_log(
                                i2,
                                j2,
                            ) by {
                                if !(i2 == ri && j2 == ci) {
                                    assert(self.cell_log(i2, j2) == before.cell_log(i2, j2));
                                }
                                assert(before.cell_log(i2, j2) == old(self).cell_log(i2, j2));
                            }
                            assert forall|i2: int, j2: int|
                                0 <= i2 < RS && 0 <= j2 < CS && (i2 < ri || (i2 == ri && j2 < ci))
                                    && !old(self).cell_absent(i2, j2) implies (
                            #[trigger] self.cell_log(i2, j2)).len() == old(self).cell_log(
                                i2,
                                j2,
                            ).len() + 1 by {
                                assert(self.cell_log(i2, j2) == before.cell_log(i2, j2));
                                assert(before.cell_log(i2, j2) == old(self).cell_log(i2, j2).push(
                                    keys@[i2]@[j2],
                                ));
                            }
                            assert forall|i2: int, j2: int| 0 <= i2 < RS && 0 <= j2 < CS implies old(
                                self,
                            ).cell_log(i2, j2).is_prefix_of(#[trigger] self.cell_log(i2, j2)) by {
                                if i2 == ri && j2 == ci {
                                    assert(self.cell_log(i2, j2) == old(self).cell_log(i2, j2));
                                } else {
                                    assert(self.cell_log(i2, j2) == before.cell_log(i2, j2));
                                }
                                lemma_log_prefix(old(self).cell_log(i2, j2), self.cell_log(i2, j2));
                            }
                            assert(self.aborted_scan(*old(self), ri as int, ci as int));
                        }
                        return Err(e);
                    },
                }
            }
        }
        proof {
            assert forall|i: int, j: int| 0 <= i < RS && 0 <= j < CS implies old(self).cell_log(
                i,
                j,
            ).is_prefix_of(#[trigger] self.cell_log(i, j)) by {
                if i < RS && !old(self).cell_absent(i, j) {
                    assert(self.cell_log(i, j) == old(self).cell_log(i, j).push(keys@[i]@[j]));
                } else {
                    assert(self.cell_log(i, j) == slot_log(self.pins@[i]@[j]));
                    assert(self.cell_absent(i, j) == old(self).cell_absent(i, j));
                    assert(self.cell_log(i, j) =~= old(self).cell_log(i, j));
                }
                lemma_log_prefix(old(self).cell_log(i, j), self.cell_log(i, j));
            }
        }
        Ok(keys)
    }
}

/// Cells other than the one being sampled are untouched by the sample:
/// carries a scan's invariants over one slot read.
proof fn lemma_direct_frame<P, const CS: usize, const RS: usize>(
    before: DirectPinMatrix<P, CS, RS>,
    after: DirectPinMatrix<P, CS, RS>,
    k: int,
    c: int,
) where P: InputPin
    requires
        0 <= k < RS,
        0 <= c < CS,
        forall|i: int| 0 <= i < RS && i != k ==> after.pins@[i] == before.pins@[i],
        forall|j: int| 0 <= j < CS && j != c ==> after.pins@[k]@[j] == before.pins@[k]@[j],
        after.pins@[k]@[c] is Some <==> before.pins@[k]@[c] is Some,
    ensures
        forall|i: int, j: int|
            0 <= i < RS && 0 <= j < CS && !(i == k && j == c) ==> #[trigger] after.cell_log(i, j)
                == before.cell_log(i, j),
        forall|i: int, j: int|
            0 <= i < RS && 0 <= j < CS ==> #[trigger] after.cell_absent(i, j)
                == before.cell_absent(i, j),
{
    assert forall|i: int, j: int|
        0 <= i < RS && 0 <= j < CS && !(i == k && j == c) implies #[trigger] after.cell_log(i, j)
        == before.cell_log(i, j) by {
        if i != k {
            assert(after.pins@[i] == before.pins@[i]);
        } else {
            assert(after.pins@[i]@[j] == before.pins@[i]@[j]);
        }
    }
    assert forall|i: int, j: int| 0 <= i < RS && 0 <= j < CS implies #[trigger] after.cell_absent(
        i,
        j,
    ) == before.cell_absent(i, j) by {
        if i != k {
            assert(after.pins@[i] == before.pins@[i]);
        } else if j != c {
            assert(after.pins@[i]@[j] == before.pins@[i]@[j]);
        }
    }
}

/// An idle scan comes back all-clear: if every reading a successful scan
/// logged was high (inactive), its grid holds no pressed key.
pub proof fn lemma_idle_scan_clear<C, R, D, const CS: usize, const RS: usize>(
    pre: Matrix<C, R, D, CS, RS>,
    post: Matrix<C, R, D, CS, RS>,
    keys: [[bool; CS]; RS],
) where C: InputPin, R: OutputPin, D: DelayTick
    requires
        post.scan_result(pre, keys),
        forall|j: int, t: int|
            0 <= j < CS && pre.col_log(j).len() <= t < post.col_log(j).len() ==> !(
            #[trigger] post.col_log(j)[t]),
    ensures
        forall|i: int, j: int| 0 <= i < RS && 0 <= j < CS ==> !keys@[i]@[j],
{
    assert forall|i: int, j: int| 0 <= i < RS && 0 <= j < CS implies !keys@[i]@[j] by {
        assert(post.col_log(j) == pre.col_log(j) + grid_column_prefix(keys, j, RS as nat));
        assert(post.col_log(j)[pre.col_log(j).len() + i] == keys@[i]@[j]);
    }
}

/// A key pressed while its row was selected is reported at its own
/// intersection: cell `(k, j)` holds the reading taken of column `j`
/// during row `k`'s window, and so does every other cell of row `k` for
/// its own column: a reading in one window touches no other cell.
pub proof fn lemma_pressed_key_reported<C, R, D, const CS: usize, const RS: usize>(
    pre: Matrix<C, R, D, CS, RS>,
    post: Matrix<C, R, D, CS, RS>,
    keys: [[bool; CS]; RS],
    k: int,
    j: int,
) where C: InputPin, R: OutputPin, D: DelayTick
    requires
        post.scan_result(pre, keys),
        0 <= k < RS,
        0 <= j < CS,
        post.col_log(j)[pre.col_log(j).len() + k],
    ensures
        keys@[k]@[j],
        forall|j2: int|
            0 <= j2 < CS ==> keys@[k]@[j2] == post.col_log(j2)[pre.col_log(j2).len() + k],
{
    assert(post.col_log(j) == pre.col_log(j) + grid_column_prefix(keys, j, RS as nat));
    assert(post.col_log(j)[pre.col_log(j).len() + k] == keys@[k]@[j]);
    assert forall|j2: int| 0 <= j2 < CS implies keys@[k]@[j2] == post.col_log(j2)[pre.col_log(
        j2,
    ).len() + k] by {
        assert(post.col_log(j2) == pre.col_log(j2) + grid_column_prefix(keys, j2, RS as nat));
        assert(post.col_log(j2)[pre.col_log(j2).len() + k] == keys@[k]@[j2]);
    }
}

/// The scan is deterministic in the readings: two successful scans that
/// logged the same readings, row for row and column for column, return
/// identical grids, so two scans with unchanged physical input state
/// agree.
pub proof fn lemma_scan_deterministic<C, R, D, const CS: usize, const RS: usize>(
    pre1: Matrix<C, R, D, CS, RS>,
    post1: Matrix<C, R, D, CS, RS>,
    k1: [[bool; CS]; RS],
    pre2: Matrix<C, R, D, CS, RS>,
    post2: Matrix<C, R, D, CS, RS>,
    k2: [[bool; CS]; RS],
) where C: InputPin, R: OutputPin, D: DelayTick
    requires
        post1.scan_result(pre1, k1),
        post2.scan_result(pre2, k2),
        forall|i: int, j: int|
            0 <= i < RS && 0 <= j < CS ==> #[trigger] post1.col_log(j)[pre1.col_log(j).len() + i]
                == post2.col_log(j)[pre2.col_log(j).len() + i],
    ensures
        k1 == k2,
{
    assert forall|i: int| 0 <= i < RS implies k1@[i] == k2@[i] by {
        assert forall|j: int| 0 <= j < CS implies k1@[i]@[j] == k2@[i]@[j] by {
            assert(post1.col_log(j) == pre1.col_log(j) + grid_column_prefix(k1, j, RS as nat));
            assert(post2.col_log(j) == pre2.col_log(j) + grid_column_prefix(k2, j, RS as nat));
            assert(post1.col_log(j)[pre1.col_log(j).len() + i] == k1@[i]@[j]);
            assert(post2.col_log(j)[pre2.col_log(j).len() + i] == k2@[i]@[j]);
        }
        assert(k1@[i] =~= k2@[i]);
    }
    assert(k1 =~= k2);
}

/// A cell with no physical pin never reports pressed, whatever the wired
/// pins read.
pub proof fn lemma_absent_cell_never_pressed<P, const CS: usize, const RS: usize>(
    pre: DirectPinMatrix<P, CS, RS>,
    post: DirectPinMatrix<P, CS, RS>,
    keys: [[bool; CS]; RS],
    i: int,
    j: int,
) where P: InputPin
    requires
        post.scan_result(pre, keys),
        0 <= i < RS,
        0 <= j < CS,
        pre.cell_absent(i, j),
    ensures
        !keys@[i]@[j],
{
}

/// An idle direct scan comes back all-clear: if every wired pin answered
/// high (inactive) when a successful scan sampled it, the grid holds no
/// pressed key.
pub proof fn lemma_idle_direct_scan_clear<P, const CS: usize, const RS: usize>(
    pre: DirectPinMatrix<P, CS, RS>,
    post: DirectPinMatrix<P, CS, RS>,
    keys: [[bool; CS]; RS],
) where P: InputPin
    requires
        post.scan_result(pre, keys),
        forall|i: int, j: int|
            0 <= i < RS && 0 <= j < CS && !pre.cell_absent(i, j) ==> !(#[trigger] post.cell_log(
                i,
                j,
            )).last(),
    ensures
        forall|i: int, j: int| 0 <= i < RS && 0 <= j < CS ==> !keys@[i]@[j],
{
    assert forall|i: int, j: int| 0 <= i < RS && 0 <= j < CS implies !keys@[i]@[j] by {
        if !pre.cell_absent(i, j) {
            assert(post.cell_log(i, j) == pre.cell_log(i, j).push(keys@[i]@[j]));
            assert(post.cell_log(i, j).last() == keys@[i]@[j]);
        }
    }
}

/// The direct scan is deterministic in the readings: two successful
/// scans of grids wired alike, whose pins answered their samples alike,
/// return identical grids, so two scans with unchanged physical input
/// state agree.
pub proof fn lemma_direct_scan_deterministic<P, const CS: usize, const RS: usize>(
    pre1: DirectPinMatrix<P, CS, RS>,
    post1: DirectPinMatrix<P, CS, RS>,
    k1: [[bool; CS]; RS],
    pre2: DirectPinMatrix<P, CS, RS>,
    post2: DirectPinMatrix<P, CS, RS>,
    k2: [[bool; CS]; RS],
) where P: InputPin
    requires
        post1.scan_result(pre1, k1),
        post2.scan_result(pre2, k2),
        forall|i: int, j: int|
            0 <= i < RS && 0 <= j < CS ==> pre1.cell_absent(i, j) == pre2.cell_absent(i, j),
        forall|i: int, j: int|
            0 <= i < RS && 0 <= j < CS && !pre1.cell_absent(i, j) ==> (#[trigger] post1.cell_log(
                i,
                j,
            )).last() == post2.cell_log(i, j).last(),
    ensures
        k1 == k2,
{
    assert forall|i: int| 0 <= i < RS implies k1@[i] == k2@[i] by {
        assert forall|j: int| 0 <= j < CS implies k1@[i]@[j] == k2@[i]@[j] by {
            if pre1.cell_absent(i, j) {
                assert(!k1@[i]@[j]);
                assert(pre2.cell_absent(i, j));
                assert(!k2@[i]@[j]);
            } else {
                assert(post1.cell_log(i, j) == pre1.cell_log(i, j).push(k1@[i]@[j]));
                assert(post1.cell_log(i, j).last() == k1@[i]@[j]);
                assert(!pre2.cell_absent(i, j));
                assert(post2.cell_log(i, j) == pre2.cell_log(i, j).push(k2@[i]@[j]));
                assert(post2.cell_log(i, j).last() == k2@[i]@[j]);
            }
        }
        assert(k1@[i] =~= k2@[i]);
    }
    assert(k1 =~= k2);
}

} // verus!
