//! Witness-supply and execution-trace-partition core of a STARK-based virtual
//! machine.
//!
//! The crate owns three things:
//! - the field-element primitive and the [`Word`] digest type built from it
//!   ([`field`]);
//! - the validated witness bundle [`ProgramInputs`] together with the
//!   Merkle-authenticated [`AdviceSet`] abstraction ([`inputs`], [`advice`]);
//! - the fixed horizontal partition of the per-cycle execution-trace matrix
//!   into named column regions (the constants below).

use vstd::prelude::*;

pub mod advice;
pub mod field;
pub mod hasher;
pub mod inputs;

pub use advice::AdviceSet;
pub use field::Felt;
pub use field::Word;
pub use inputs::ProgramInputs;

verus! {

/// The minimum stack depth enforced by the VM. This is also the number of
/// stack registers which can be accessed by the VM directly.
pub const MIN_STACK_DEPTH: usize = 16;

/// The top portion of the stack written into the stack trace columns on
/// every cycle.
pub type StackTopState = [Felt; MIN_STACK_DEPTH];

// TRACE LAYOUT
//
//      system          stack        auxiliary table
//    (2 columns)    (16 columns)      (18 columns)
// The regions are contiguous, appear in this fixed order, and together cover
// every column of the trace exactly once.

pub const SYS_TRACE_OFFSET: usize = 0;
pub const SYS_TRACE_WIDTH: usize = 2;

pub const CLK_COL_IDX: usize = SYS_TRACE_OFFSET;
pub const FMP_COL_IDX: usize = SYS_TRACE_OFFSET + 1;

pub const STACK_TRACE_OFFSET: usize = SYS_TRACE_OFFSET + SYS_TRACE_WIDTH;
pub const STACK_TRACE_WIDTH: usize = MIN_STACK_DEPTH;

pub const AUX_TRACE_OFFSET: usize = STACK_TRACE_OFFSET + STACK_TRACE_WIDTH;
pub const AUX_TRACE_WIDTH: usize = 18;

pub const TRACE_WIDTH: usize = AUX_TRACE_OFFSET + AUX_TRACE_WIDTH;

/// The declared trace regions, in their fixed relative order, each given as
/// `(offset, width)`.
pub open spec fn trace_regions() -> Seq<(int, int)> {
    seq![
        (SYS_TRACE_OFFSET as int, SYS_TRACE_WIDTH as int),
        (STACK_TRACE_OFFSET as int, STACK_TRACE_WIDTH as int),
        (AUX_TRACE_OFFSET as int, AUX_TRACE_WIDTH as int),
    ]
}

/// Whether trace column `col` lies inside region number `r` of the partition.
pub open spec fn col_in_region(r: int, col: int) -> bool {
    &&& 0 <= r < trace_regions().len()
    &&& trace_regions()[r].0 <= col < trace_regions()[r].0 + trace_regions()[r].1
}

/// Whether trace column `col` lies inside some declared region.
pub open spec fn col_covered(col: int) -> bool {
    exists|r: int| #[trigger] col_in_region(r, col)
}

/// The declared trace regions form a partition of the trace columns: the
/// first region starts at column zero, each region starts exactly where the
/// previous one ends, the widths sum to the total trace width, and no column
/// belongs to two regions.
pub proof fn lemma_trace_partition()
    ensures
        trace_regions()[0].0 == 0,
        trace_regions()[1].0 == trace_regions()[0].0 + trace_regions()[0].1,
        trace_regions()[2].0 == trace_regions()[1].0 + trace_regions()[1].1,
        trace_regions().last().0 + trace_regions().last().1 == TRACE_WIDTH,
        SYS_TRACE_WIDTH + STACK_TRACE_WIDTH + AUX_TRACE_WIDTH == TRACE_WIDTH,
        forall|r1: int, r2: int, col: int|
            col_in_region(r1, col) && col_in_region(r2, col) ==> r1 == r2,
        forall|col: int| 0 <= col < TRACE_WIDTH ==> #[trigger] col_covered(col),
{
    assert forall|col: int| 0 <= col < TRACE_WIDTH implies #[trigger] col_covered(col) by {
        if col < SYS_TRACE_OFFSET + SYS_TRACE_WIDTH {
            assert(col_in_region(0, col));
        } else if col < STACK_TRACE_OFFSET + STACK_TRACE_WIDTH {
            assert(col_in_region(1, col));
        } else {
            assert(col_in_region(2, col));
        }
    }
}

} // verus!
