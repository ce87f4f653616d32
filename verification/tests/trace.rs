use vm_core::AUX_TRACE_OFFSET;
use vm_core::AUX_TRACE_WIDTH;
use vm_core::CLK_COL_IDX;
use vm_core::FMP_COL_IDX;
use vm_core::MIN_STACK_DEPTH;
use vm_core::STACK_TRACE_OFFSET;
use vm_core::STACK_TRACE_WIDTH;
use vm_core::SYS_TRACE_OFFSET;
use vm_core::SYS_TRACE_WIDTH;
use vm_core::TRACE_WIDTH;

#[test]
fn trace_regions_are_contiguous_and_cover_the_trace() {
    assert_eq!(SYS_TRACE_OFFSET, 0);
    assert_eq!(STACK_TRACE_OFFSET, SYS_TRACE_OFFSET + SYS_TRACE_WIDTH);
    assert_eq!(AUX_TRACE_OFFSET, STACK_TRACE_OFFSET + STACK_TRACE_WIDTH);
    assert_eq!(TRACE_WIDTH, AUX_TRACE_OFFSET + AUX_TRACE_WIDTH);
    assert_eq!(SYS_TRACE_WIDTH + STACK_TRACE_WIDTH + AUX_TRACE_WIDTH, TRACE_WIDTH);
}

#[test]
fn trace_region_widths_have_their_committed_values() {
    assert_eq!(SYS_TRACE_WIDTH, 2);
    assert_eq!(MIN_STACK_DEPTH, 16);
    assert_eq!(STACK_TRACE_WIDTH, 16);
    assert_eq!(AUX_TRACE_WIDTH, 18);
    assert_eq!(TRACE_WIDTH, 36);
    assert_eq!(CLK_COL_IDX, 0);
    assert_eq!(FMP_COL_IDX, 1);
}
