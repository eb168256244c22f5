use drone_riscv::trap::{
    claimed_handler, pending_idx, pending_step, trap_cause, TrapCause, TrapConfig, TrapStep,
};

fn config(handlers: &[u16]) -> TrapConfig<'_> {
    TrapConfig {
        exception_handler: 1,
        timer_handler: 2,
        external_handlers: handlers,
        timer_base: 0x0200_0000,
        plic_base: 0x0C00_0000,
    }
}

#[test]
fn cause_of_exception_has_interrupt_bit_clear() {
    assert_eq!(trap_cause(0), TrapCause::Exception);
    assert_eq!(trap_cause(11), TrapCause::Exception);
    assert_eq!(trap_cause(0x7FFF_FFFF), TrapCause::Exception);
}

#[test]
fn cause_of_interrupts() {
    assert_eq!(trap_cause(0x8000_0007), TrapCause::MachineTimer);
    assert_eq!(trap_cause(0x8000_0003), TrapCause::MachineSoftware);
    assert_eq!(trap_cause(0x8000_000B), TrapCause::MachineExternal);
    assert_eq!(trap_cause(0x8000_0001), TrapCause::OtherInterrupt);
    assert_eq!(trap_cause(0x8000_0000), TrapCause::OtherInterrupt);
}

#[test]
fn step_for_exception_dispatches_exception_handler() {
    let cfg = config(&[]);
    assert_eq!(pending_step(&cfg, 2), TrapStep::Dispatch(1));
}

#[test]
fn step_for_timer_disarms_both_compare_words() {
    let cfg = config(&[]);
    assert_eq!(
        pending_step(&cfg, 0x8000_0007),
        TrapStep::DisarmTimer {
            compare_low: 0x0200_0008,
            compare_high: 0x0200_000C,
            value: 0xFFFF_FFFF,
            handler: 2,
        }
    );
}

#[test]
fn step_for_external_claims_at_plic() {
    let cfg = config(&[]);
    assert_eq!(pending_step(&cfg, 0x8000_000B), TrapStep::Claim { address: 0x0C20_0004 });
}

#[test]
fn step_for_software_and_other_interrupts_is_idle() {
    let cfg = config(&[]);
    assert_eq!(pending_step(&cfg, 0x8000_0003), TrapStep::Dispatch(0));
    assert_eq!(pending_step(&cfg, 0x8000_0005), TrapStep::Dispatch(0));
}

#[test]
fn claimed_source_looks_up_table() {
    let table = [5u16, 0, 7];
    assert_eq!(claimed_handler(&table, 1), 5);
    assert_eq!(claimed_handler(&table, 2), 0);
    assert_eq!(claimed_handler(&table, 3), 7);
}

#[test]
fn claimed_source_zero_or_out_of_table_is_none() {
    let table = [5u16, 6];
    assert_eq!(claimed_handler(&table, 0), 0);
    assert_eq!(claimed_handler(&table, 3), 0);
    assert_eq!(claimed_handler(&table, u32::MAX), 0);
    assert_eq!(claimed_handler(&[], 1), 0);
}

#[test]
fn pending_idx_combines_step_and_claim() {
    let table = [4u16, 9];
    let cfg = config(&table);
    assert_eq!(pending_idx(&cfg, 1, 2), 1);
    assert_eq!(pending_idx(&cfg, 0x8000_0007, 2), 2);
    assert_eq!(pending_idx(&cfg, 0x8000_000B, 2), 9);
    assert_eq!(pending_idx(&cfg, 0x8000_000B, 0), 0);
    assert_eq!(pending_idx(&cfg, 0x8000_0003, 2), 0);
}

#[test]
fn exception_with_base_at_the_top_of_memory() {
    let cfg = TrapConfig {
        exception_handler: 3,
        timer_handler: 2,
        external_handlers: &[],
        timer_base: usize::MAX,
        plic_base: usize::MAX,
    };
    assert_eq!(pending_step(&cfg, 5), TrapStep::Dispatch(3));
    assert_eq!(pending_idx(&cfg, 5, 0), 3);
    assert_eq!(pending_idx(&cfg, 0x8000_0003, 0), 0);
}
