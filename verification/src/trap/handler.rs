//! The decisions of the trap handler and of the external interrupt handler; the caller
//! carries them out on the hardware.
use vstd::prelude::*;
use crate::console::Writer;

verus! {

/// Why the CPU trapped.
#[derive(PartialEq, Eq, Structural, Clone, Copy, Debug)]
pub enum TrapCause {
    TimerInterrupt,
    ExternalInterrupt,
    SoftwareInterrupt,
    SyscallFromUser,
    SyscallFromKernel,
    InstructionPageFault,
    LoadPageFault,
    StorePageFault,
    IllegalInstruction,
    InstructionMisaligned,
    UnknownException(u64),
    UnknownInterrupt(u64),
}

/// Why a trap is fatal.
#[derive(PartialEq, Eq, Structural, Clone, Copy, Debug)]
pub enum Fatal {
    /// The firmware refused a call the kernel made.
    FirmwareRejected,
    /// A page fault: there is no demand paging.
    PageFault,
    IllegalInstruction,
    Misaligned,
    Unknown,
}

/// What to do about a trap.
#[derive(PartialEq, Eq, Structural, Clone, Copy, Debug)]
pub enum TrapAction {
    /// Re-arm the timer and count the tick.
    Tick,
    /// Claim the interrupt from the interrupt controller, handle it and complete it.
    External,
    /// Nothing: a software interrupt is cleared when taken.
    Nothing,
    /// Move the return address past the `ecall`, dispatch the call and put its result in
    /// `a0`.
    Syscall,
    /// Report the trap and stop this CPU.
    Stop(Fatal),
}

/// Decides what the handler does for `cause`.
pub fn trap_action(cause: TrapCause) -> (a: TrapAction)
    ensures
        a == match cause {
            TrapCause::TimerInterrupt => TrapAction::Tick,
            TrapCause::ExternalInterrupt => TrapAction::External,
            TrapCause::SoftwareInterrupt => TrapAction::Nothing,
            TrapCause::SyscallFromUser => TrapAction::Syscall,
            TrapCause::SyscallFromKernel => TrapAction::Stop(Fatal::FirmwareRejected),
            TrapCause::InstructionPageFault | TrapCause::LoadPageFault | TrapCause::StorePageFault =>
                TrapAction::Stop(Fatal::PageFault),
            TrapCause::IllegalInstruction => TrapAction::Stop(Fatal::IllegalInstruction),
            TrapCause::InstructionMisaligned => TrapAction::Stop(Fatal::Misaligned),
            _ => TrapAction::Stop(Fatal::Unknown),
        },
{
    match cause {
        TrapCause::TimerInterrupt => TrapAction::Tick,
        TrapCause::ExternalInterrupt => TrapAction::External,
        TrapCause::SoftwareInterrupt => TrapAction::Nothing,
        TrapCause::SyscallFromUser => TrapAction::Syscall,
        TrapCause::SyscallFromKernel => TrapAction::Stop(Fatal::FirmwareRejected),
        TrapCause::InstructionPageFault | TrapCause::LoadPageFault | TrapCause::StorePageFault =>
            TrapAction::Stop(Fatal::PageFault),
        TrapCause::IllegalInstruction => TrapAction::Stop(Fatal::IllegalInstruction),
        TrapCause::InstructionMisaligned => TrapAction::Stop(Fatal::Misaligned),
        _ => TrapAction::Stop(Fatal::Unknown),
    }
}

/// Whether a trap came from user mode. A system call says so by its cause; for any
/// other trap it is the privilege level before the trap, `from_user_mode`.
pub fn was_from_user(cause: TrapCause, from_user_mode: bool) -> (r: bool)
    ensures
        r == match cause {
            TrapCause::SyscallFromUser => true,
            TrapCause::SyscallFromKernel => false,
            _ => from_user_mode,
        },
{
    match cause {
        TrapCause::SyscallFromUser => true,
        TrapCause::SyscallFromKernel => false,
        _ => from_user_mode,
    }
}

/// The return address after a system call: the instruction after the 4-byte `ecall`,
/// so that the call is not made again.
pub fn syscall_return_address(epc: usize) -> (r: usize)
    requires
        epc + 4 <= usize::MAX,
    ensures
        r == epc + 4,
{
    epc + 4
}

/// Interrupt number of the UART.
pub const UART_IRQ: u32 = 10;

/// What an external interrupt leads to.
#[derive(PartialEq, Eq, Structural, Clone, Copy, Debug)]
pub enum IrqAction {
    /// Nothing was pending.
    Idle,
    /// The UART has input: handle it, then complete the interrupt.
    Uart,
    /// An interrupt nobody expects: complete it and go on.
    Unexpected,
}

/// Decides what to do with interrupt `irq` claimed from the interrupt controller (0 when
/// none was pending). Every claimed interrupt must be completed, or it stays pending.
pub fn external_interrupt(irq: u32) -> (a: IrqAction)
    ensures
        a == if irq == 0 { IrqAction::Idle } else if irq == UART_IRQ { IrqAction::Uart } else { IrqAction::Unexpected },
{
    if irq == 0 {
        IrqAction::Idle
    } else if irq == UART_IRQ {
        IrqAction::Uart
    } else {
        IrqAction::Unexpected
    }
}

/// The UART interrupt: every byte received is echoed to the console.
pub fn uart_interrupt(con: &mut Writer, received: &[u8])
    ensures
        final(con).out@ == old(con).out@ + received@,
{
    let mut i: usize = 0;
    while i < received.len()
        invariant
            i <= received@.len(),
            con.out@ == old(con).out@ + received@.subrange(0, i as int),
        decreases received@.len() - i,
    {
        con.out.push(received[i]);
        proof {
            assert(con.out@ =~= old(con).out@ + received@.subrange(0, i + 1));
        }
        i = i + 1;
    }
    proof {
        assert(received@.subrange(0, received@.len() as int) =~= received@);
    }
}

}
