//! Decoding of the `mcause` register and the choice of the thread that a
//! machine trap wakes up.
//!
//! The trap handler reads `mcause`, asks [`pending_step`] what to do, performs
//! the memory-mapped access that the answer names, and for an external
//! interrupt hands the claimed source number to [`claimed_handler`].

use vstd::prelude::*;

verus! {

/// The `Interrupt` bit of `mcause` on RV32.
pub const MCAUSE_INTERRUPT: usize = 0x8000_0000;

/// `mcause` of a machine timer interrupt.
pub const MCAUSE_MACHINE_TIMER: usize = 0x8000_0007;

/// `mcause` of a machine software interrupt.
pub const MCAUSE_MACHINE_SOFTWARE: usize = 0x8000_0003;

/// `mcause` of a machine external interrupt.
pub const MCAUSE_MACHINE_EXTERNAL: usize = 0x8000_000B;

/// Offset of the low word of `mtimecmp` from the timer base.
pub const MTIMECMP_LOW_OFFSET: usize = 0x8;

/// Offset of the high word of `mtimecmp` from the timer base.
pub const MTIMECMP_HIGH_OFFSET: usize = 0xC;

/// Offset of the hart 0 M-mode claim/complete register from the PLIC base.
pub const PLIC_CLAIM_OFFSET: usize = 0x0020_0004;

/// The value written to both words of `mtimecmp` to silence the timer.
pub const TIMER_DISARM_VALUE: u32 = 0xFFFF_FFFF;

/// What a trap is, as `mcause` tells it.
#[derive(PartialEq, Eq, Structural, Clone, Copy, Debug)]
pub enum TrapCause {
    /// The `Interrupt` bit is clear: a synchronous exception.
    Exception,
    /// Machine timer interrupt.
    MachineTimer,
    /// Machine software interrupt.
    MachineSoftware,
    /// Machine external interrupt.
    MachineExternal,
    /// Any other interrupt.
    OtherInterrupt,
}

/// The cause that `mcause` encodes.
pub open spec fn spec_trap_cause(mcause: usize) -> TrapCause {
    if mcause & MCAUSE_INTERRUPT == 0 {
        TrapCause::Exception
    } else if mcause == MCAUSE_MACHINE_TIMER {
        TrapCause::MachineTimer
    } else if mcause == MCAUSE_MACHINE_SOFTWARE {
        TrapCause::MachineSoftware
    } else if mcause == MCAUSE_MACHINE_EXTERNAL {
        TrapCause::MachineExternal
    } else {
        TrapCause::OtherInterrupt
    }
}

/// Decodes `mcause`.
pub fn trap_cause(mcause: usize) -> (cause: TrapCause)
    ensures
        cause == spec_trap_cause(mcause),
{
    if mcause & MCAUSE_INTERRUPT == 0 {
        TrapCause::Exception
    } else if mcause == MCAUSE_MACHINE_TIMER {
        TrapCause::MachineTimer
    } else if mcause == MCAUSE_MACHINE_SOFTWARE {
        TrapCause::MachineSoftware
    } else if mcause == MCAUSE_MACHINE_EXTERNAL {
        TrapCause::MachineExternal
    } else {
        TrapCause::OtherInterrupt
    }
}

/// The handler numbers and memory map that a set of threads was initialized
/// with. A handler number is one more than the thread's index; 0 means none.
pub struct TrapConfig<'a> {
    /// Handler of synchronous exceptions.
    pub exception_handler: u16,
    /// Handler of the machine timer interrupt.
    pub timer_handler: u16,
    /// Handlers of external interrupts, by PLIC source number minus one.
    pub external_handlers: &'a [u16],
    /// Base address of the timer memory map.
    pub timer_base: usize,
    /// Base address of the PLIC memory map.
    pub plic_base: usize,
}

impl<'a> TrapConfig<'a> {
    /// The register addresses that the handler computes for a trap with
    /// `mcause` do not overflow: the `mtimecmp` words for a timer interrupt,
    /// the claim register for an external interrupt, none otherwise.
    pub open spec fn addresses_fit(&self, mcause: usize) -> bool {
        &&& spec_trap_cause(mcause) == TrapCause::MachineTimer ==> self.timer_base
            + MTIMECMP_HIGH_OFFSET <= usize::MAX
        &&& spec_trap_cause(mcause) == TrapCause::MachineExternal ==> self.plic_base
            + PLIC_CLAIM_OFFSET <= usize::MAX
    }
}

/// The next thing the trap handler does.
#[derive(PartialEq, Eq, Structural, Clone, Copy, Debug)]
pub enum TrapStep {
    /// Wake the thread with this handler number (0: none).
    Dispatch(u16),
    /// Write `value` to both words of `mtimecmp`, then wake `handler`.
    DisarmTimer { compare_low: usize, compare_high: usize, value: u32, handler: u16 },
    /// Read the claimed source number at `address` and pass it to
    /// [`claimed_handler`].
    Claim { address: usize },
}

/// The step that a trap with this `mcause` calls for.
pub open spec fn spec_pending_step(cfg: TrapConfig, mcause: usize) -> TrapStep {
    match spec_trap_cause(mcause) {
        TrapCause::Exception => TrapStep::Dispatch(cfg.exception_handler),
        TrapCause::MachineTimer => TrapStep::DisarmTimer {
            compare_low: (cfg.timer_base + MTIMECMP_LOW_OFFSET) as usize,
            compare_high: (cfg.timer_base + MTIMECMP_HIGH_OFFSET) as usize,
            value: TIMER_DISARM_VALUE,
            handler: cfg.timer_handler,
        },
        TrapCause::MachineExternal => TrapStep::Claim {
            address: (cfg.plic_base + PLIC_CLAIM_OFFSET) as usize,
        },
        TrapCause::MachineSoftware => TrapStep::Dispatch(0),
        TrapCause::OtherInterrupt => TrapStep::Dispatch(0),
    }
}

/// Decides what the trap handler does for `mcause`.
pub fn pending_step(cfg: &TrapConfig, mcause: usize) -> (step: TrapStep)
    requires
        cfg.addresses_fit(mcause),
    ensures
        step == spec_pending_step(*cfg, mcause),
{
    match trap_cause(mcause) {
        TrapCause::Exception => TrapStep::Dispatch(cfg.exception_handler),
        TrapCause::MachineTimer => TrapStep::DisarmTimer {
            compare_low: cfg.timer_base + MTIMECMP_LOW_OFFSET,
            compare_high: cfg.timer_base + MTIMECMP_HIGH_OFFSET,
            value: TIMER_DISARM_VALUE,
            handler: cfg.timer_handler,
        },
        TrapCause::MachineExternal => TrapStep::Claim { address: cfg.plic_base + PLIC_CLAIM_OFFSET },
        TrapCause::MachineSoftware => TrapStep::Dispatch(0),
        TrapCause::OtherInterrupt => TrapStep::Dispatch(0),
    }
}

/// The handler of PLIC source `num`: 0 for no source, or a source with no
/// entry in the table.
pub open spec fn spec_claimed_handler(handlers: Seq<u16>, num: u32) -> u16 {
    if 0 < num && num <= handlers.len() {
        handlers[num - 1]
    } else {
        0
    }
}

/// Looks up the handler of a claimed external interrupt source.
pub fn claimed_handler(handlers: &[u16], num: u32) -> (handler: u16)
    ensures
        handler == spec_claimed_handler(handlers@, num),
{
    if num > 0 {
        let idx: usize = (num - 1) as usize;
        if idx < handlers.len() {
            return handlers[idx];
        }
    }
    0
}

/// The handler number that a trap wakes, given the source number that the
/// PLIC would answer a claim with.
pub open spec fn spec_pending_idx(cfg: TrapConfig, mcause: usize, claim: u32) -> u16 {
    match spec_pending_step(cfg, mcause) {
        TrapStep::Dispatch(h) => h,
        TrapStep::DisarmTimer { handler, .. } => handler,
        TrapStep::Claim { .. } => spec_claimed_handler(cfg.external_handlers@, claim),
    }
}

/// The handler number that a trap wakes, in one call: `claim` is read only
/// for an external interrupt.
pub fn pending_idx(cfg: &TrapConfig, mcause: usize, claim: u32) -> (handler: u16)
    requires
        cfg.addresses_fit(mcause),
    ensures
        handler == spec_pending_idx(*cfg, mcause, claim),
{
    match pending_step(cfg, mcause) {
        TrapStep::Dispatch(h) => h,
        TrapStep::DisarmTimer { handler, .. } => handler,
        TrapStep::Claim { .. } => claimed_handler(cfg.external_handlers, claim),
    }
}

} // verus!
