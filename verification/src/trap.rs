//! Trap state and the mapping from trap-cause values to their names.

use vstd::prelude::*;

verus! {

/// Register file and bookkeeping saved on a trap.
#[derive(Clone, Copy, Debug)]
pub struct TrapContext {
    pub regs: [usize; 32],
    pub trap_sp: usize,
    pub hartid: usize,
    pub satp: usize,
}

impl TrapContext {
    /// An all-zero context, the state before the first trap.
    pub fn empty() -> (r: TrapContext)
        ensures
            r.trap_sp == 0,
            r.hartid == 0,
            r.satp == 0,
    {
        TrapContext { regs: [0; 32], trap_sp: 0, hartid: 0, satp: 0 }
    }
}

/// The bit that distinguishes exception causes from interrupt causes in
/// a trap-cause register value (the top byte's lowest bit on a 64-bit
/// machine).
pub const INTERRUPT_TYPE_MASK: u64 = 0x100_0000_0000_0000;

pub const USER_SOFTWARE_INTERRUPT: u64 = 0;

pub const SUPERVISOR_SOFTWARE_INTERRUPT: u64 = 1;

pub const MACHINE_SOFTWARE_INTERRUPT: u64 = 3;

pub const USER_TIMER_INTERRUPT: u64 = 4;

pub const SUPERVISOR_TIMER_INTERRUPT: u64 = 5;

pub const MACHINE_TIMER_INTERRUPT: u64 = 7;

pub const USER_EXTERNAL_INTERRUPT: u64 = 8;

pub const SUPERVISOR_EXTERNAL_INTERRUPT: u64 = 9;

pub const MACHINE_EXTERNAL_INTERRUPT: u64 = 11;

pub const INSTRUCTION_ADDR_MISALIGNED: u64 = INTERRUPT_TYPE_MASK;

pub const INSTRUCTION_ACCESS_FAULT: u64 = 1 | INTERRUPT_TYPE_MASK;

pub const ILLEGAL_INSTRUCTION: u64 = 2 | INTERRUPT_TYPE_MASK;

pub const BREAKPOINT: u64 = 3 | INTERRUPT_TYPE_MASK;

pub const LOAD_ADDRESS_MISALIGNED: u64 = 4 | INTERRUPT_TYPE_MASK;

pub const LOAD_ACCESS_FAULT: u64 = 5 | INTERRUPT_TYPE_MASK;

pub const STORE_AMO_ADDRESS_MISALIGNED: u64 = 6 | INTERRUPT_TYPE_MASK;

pub const STORE_AMO_ACCESS_FAULT: u64 = 7 | INTERRUPT_TYPE_MASK;

pub const ECALL_FROM_UMODE: u64 = 8 | INTERRUPT_TYPE_MASK;

pub const ECALL_FROM_SMODE: u64 = 9 | INTERRUPT_TYPE_MASK;

pub const ECALL_FROM_MMODE: u64 = 11 | INTERRUPT_TYPE_MASK;

pub const INSTRUCTION_PAGE_FAULT: u64 = 12 | INTERRUPT_TYPE_MASK;

pub const LOAD_PAGE_FAULT: u64 = 13 | INTERRUPT_TYPE_MASK;

pub const STORE_AMO_PAGE_FAULT: u64 = 15 | INTERRUPT_TYPE_MASK;

/// The name of the given trap cause.
pub open spec fn trap_reason_spec(mcause: u64) -> Seq<char> {
    if mcause == USER_SOFTWARE_INTERRUPT {
        "User software interrupt"@
    } else if mcause == SUPERVISOR_SOFTWARE_INTERRUPT {
        "Supervisor software interrupt"@
    } else if mcause == MACHINE_SOFTWARE_INTERRUPT {
        "Machine software interrupt"@
    } else if mcause == USER_TIMER_INTERRUPT {
        "User timer interrupt"@
    } else if mcause == SUPERVISOR_TIMER_INTERRUPT {
        "Supervisor timer interrupt"@
    } else if mcause == MACHINE_TIMER_INTERRUPT {
        "Machine timer interrupt"@
    } else if mcause == USER_EXTERNAL_INTERRUPT {
        "User external interrupt"@
    } else if mcause == SUPERVISOR_EXTERNAL_INTERRUPT {
        "Supervisor external interrupt"@
    } else if mcause == MACHINE_EXTERNAL_INTERRUPT {
        "Machine external interrupt"@
    } else if mcause == INSTRUCTION_ADDR_MISALIGNED {
        "Instruction address misaligned"@
    } else if mcause == INSTRUCTION_ACCESS_FAULT {
        "Instruction access fault"@
    } else if mcause == ILLEGAL_INSTRUCTION {
        "Illegal instruction"@
    } else if mcause == BREAKPOINT {
        "Breakpoint"@
    } else if mcause == LOAD_ADDRESS_MISALIGNED {
        "Load address misaligned"@
    } else if mcause == LOAD_ACCESS_FAULT {
        "Load access fault"@
    } else if mcause == STORE_AMO_ADDRESS_MISALIGNED {
        "Store AMO address misaligned"@
    } else if mcause == STORE_AMO_ACCESS_FAULT {
        "Store AMO access fault"@
    } else if mcause == ECALL_FROM_UMODE {
        "ECall from UMode"@
    } else if mcause == ECALL_FROM_SMODE {
        "ECall from SMode"@
    } else if mcause == ECALL_FROM_MMODE {
        "ECall from MMode"@
    } else if mcause == INSTRUCTION_PAGE_FAULT {
        "Instruction page fault"@
    } else if mcause == LOAD_PAGE_FAULT {
        "Load page fault"@
    } else if mcause == STORE_AMO_PAGE_FAULT {
        "Store AMO page fault"@
    } else {
        "Unknown reason"@
    }
}

/// The human-readable name of a trap cause, for the trap handler's log.
pub fn trap_reason(mcause: u64) -> (r: &'static str)
    ensures
        r@ == trap_reason_spec(mcause),
{
    if mcause == USER_SOFTWARE_INTERRUPT {
        "User software interrupt"
    } else if mcause == SUPERVISOR_SOFTWARE_INTERRUPT {
        "Supervisor software interrupt"
    } else if mcause == MACHINE_SOFTWARE_INTERRUPT {
        "Machine software interrupt"
    } else if mcause == USER_TIMER_INTERRUPT {
        "User timer interrupt"
    } else if mcause == SUPERVISOR_TIMER_INTERRUPT {
        "Supervisor timer interrupt"
    } else if mcause == MACHINE_TIMER_INTERRUPT {
        "Machine timer interrupt"
    } else if mcause == USER_EXTERNAL_INTERRUPT {
        "User external interrupt"
    } else if mcause == SUPERVISOR_EXTERNAL_INTERRUPT {
        "Supervisor external interrupt"
    } else if mcause == MACHINE_EXTERNAL_INTERRUPT {
        "Machine external interrupt"
    } else if mcause == INSTRUCTION_ADDR_MISALIGNED {
        "Instruction address misaligned"
    } else if mcause == INSTRUCTION_ACCESS_FAULT {
        "Instruction access fault"
    } else if mcause == ILLEGAL_INSTRUCTION {
        "Illegal instruction"
    } else if mcause == BREAKPOINT {
        "Breakpoint"
    } else if mcause == LOAD_ADDRESS_MISALIGNED {
        "Load address misaligned"
    } else if mcause == LOAD_ACCESS_FAULT {
        "Load access fault"
    } else if mcause == STORE_AMO_ADDRESS_MISALIGNED {
        "Store AMO address misaligned"
    } else if mcause == STORE_AMO_ACCESS_FAULT {
        "Store AMO access fault"
    } else if mcause == ECALL_FROM_UMODE {
        "ECall from UMode"
    } else if mcause == ECALL_FROM_SMODE {
        "ECall from SMode"
    } else if mcause == ECALL_FROM_MMODE {
        "ECall from MMode"
    } else if mcause == INSTRUCTION_PAGE_FAULT {
        "Instruction page fault"
    } else if mcause == LOAD_PAGE_FAULT {
        "Load page fault"
    } else if mcause == STORE_AMO_PAGE_FAULT {
        "Store AMO page fault"
    } else {
        "Unknown reason"
    }
}

} // verus!
