//! Exception information: what kind of exception was taken and from where,
//! the decoded exception syndrome, the saved register state, and what an
//! interrupt asks of the kernel.
use vstd::prelude::*;

verus! {

/// The kind of exception taken.
#[derive(Debug, PartialEq, Eq, Structural, Copy, Clone)]
pub enum Kind {
    Synchronous,
    Irq,
    Fiq,
    SError,
}

/// Where the exception was taken from.
#[derive(Debug, PartialEq, Eq, Structural, Copy, Clone)]
pub enum Source {
    CurrentSpEl0,
    CurrentSpElx,
    LowerAArch64,
    LowerAArch32,
}

/// The source and kind of an exception, as the exception vector passes them.
#[derive(Debug, PartialEq, Eq, Structural, Copy, Clone)]
pub struct Info {
    source: Source,
    kind: Kind,
}

impl Info {
    pub fn new(source: Source, kind: Kind) -> (i: Info)
        ensures
            i.spec_source() == source,
            i.spec_kind() == kind,
    {
        Info { source, kind }
    }

    pub fn source(&self) -> (s: Source)
        ensures
            s == self.spec_source(),
    {
        self.source
    }

    pub fn kind(&self) -> (k: Kind)
        ensures
            k == self.spec_kind(),
    {
        self.kind
    }

    /// Where the exception was taken from.
    pub closed spec fn spec_source(&self) -> Source {
        self.source
    }

    /// The kind of exception.
    pub closed spec fn spec_kind(&self) -> Kind {
        self.kind
    }
}

/// The cause of an abort, from the fault status code of the syndrome.
#[derive(Debug, PartialEq, Eq, Structural, Copy, Clone)]
pub enum Fault {
    AddressSize,
    Translation,
    AccessFlag,
    Permission,
    Alignment,
    TlbConflict,
    Other(u8),
}

/// The fault that the low byte `c` of a syndrome names.
pub open spec fn fault_of_code(c: nat) -> Fault {
    if c <= 3 {
        Fault::AddressSize
    } else if c <= 7 {
        Fault::Translation
    } else if 9 <= c <= 11 {
        Fault::AccessFlag
    } else if 13 <= c <= 15 {
        Fault::Permission
    } else if c == 33 {
        Fault::Alignment
    } else if c == 48 {
        Fault::TlbConflict
    } else {
        Fault::Other(c as u8)
    }
}

/// The fault of a syndrome value: its low byte decides.
pub open spec fn fault_of(val: u32) -> Fault {
    fault_of_code((val % 256) as nat)
}

impl vstd::std_specs::convert::FromSpecImpl<u32> for Fault {
    open spec fn obeys_from_spec() -> bool {
        true
    }

    open spec fn from_spec(val: u32) -> Fault {
        fault_of(val)
    }
}

impl From<u32> for Fault {
    fn from(val: u32) -> (f: Fault) {
        let code = (val & 0xFF) as u8;
        assert(code == val % 256) by (bit_vector)
            requires
                code == (val & 0xFF) as u8,
        ;
        match code {
            0b000_000..=0b000_011 => Fault::AddressSize,
            0b000_100..=0b000_111 => Fault::Translation,
            0b001_001..=0b001_011 => Fault::AccessFlag,
            0b001_101..=0b001_111 => Fault::Permission,
            0b100_001 => Fault::Alignment,
            0b110_000 => Fault::TlbConflict,
            other => Fault::Other(other),
        }
    }
}

/// A decoded exception syndrome.
#[derive(Debug, PartialEq, Eq, Structural, Copy, Clone)]
pub enum Syndrome {
    Unknown,
    WfiWfe,
    McrMrc,
    McrrMrrc,
    LdcStc,
    SimdFp,
    Vmrs,
    Mrrc,
    IllegalExecutionState,
    Svc(u16),
    Hvc(u16),
    Smc(u16),
    MsrMrsSystem,
    InstructionAbort { kind: Fault, level: u8 },
    PCAlignmentFault,
    DataAbort { kind: Fault, level: u8 },
    SpAlignmentFault,
    TrappedFpu,
    SError,
    Breakpoint,
    Step,
    Watchpoint,
    Brk(u16),
    Other(u32),
}

/// The exception class: the top six bits of the syndrome.
pub open spec fn exception_class(esr: u32) -> nat {
    (esr / 0x400_0000) as nat
}

/// The immediate of a call or breakpoint: the low sixteen bits.
pub open spec fn imm16(esr: u32) -> u16 {
    (esr % 0x1_0000) as u16
}

/// The translation level of an abort: the low two bits.
pub open spec fn abort_level(esr: u32) -> u8 {
    (esr % 4) as u8
}

/// The syndrome that the raw value `esr` describes.
pub open spec fn syndrome_of(esr: u32) -> Syndrome {
    let ec = exception_class(esr);
    if ec == 0 {
        Syndrome::Unknown
    } else if ec == 1 {
        Syndrome::WfiWfe
    } else if ec == 3 || ec == 5 {
        Syndrome::McrMrc
    } else if ec == 4 {
        Syndrome::McrrMrrc
    } else if ec == 6 {
        Syndrome::LdcStc
    } else if ec == 7 {
        Syndrome::SimdFp
    } else if ec == 8 {
        Syndrome::Vmrs
    } else if ec == 12 {
        Syndrome::Mrrc
    } else if ec == 14 {
        Syndrome::IllegalExecutionState
    } else if ec == 17 || ec == 21 {
        Syndrome::Svc(imm16(esr))
    } else if ec == 18 || ec == 22 {
        Syndrome::Hvc(imm16(esr))
    } else if ec == 19 || ec == 23 {
        Syndrome::Smc(imm16(esr))
    } else if ec == 24 {
        Syndrome::MsrMrsSystem
    } else if ec == 32 || ec == 33 {
        Syndrome::InstructionAbort { kind: fault_of(esr), level: abort_level(esr) }
    } else if ec == 34 {
        Syndrome::PCAlignmentFault
    } else if ec == 36 || ec == 37 {
        Syndrome::DataAbort { kind: fault_of(esr), level: abort_level(esr) }
    } else if ec == 38 {
        Syndrome::SpAlignmentFault
    } else if ec == 40 || ec == 44 {
        Syndrome::TrappedFpu
    } else if ec == 47 {
        Syndrome::SError
    } else if ec == 48 || ec == 49 {
        Syndrome::Breakpoint
    } else if ec == 50 || ec == 51 {
        Syndrome::Step
    } else if ec == 52 || ec == 53 {
        Syndrome::Watchpoint
    } else if ec == 56 || ec == 60 {
        Syndrome::Brk(imm16(esr))
    } else {
        Syndrome::Other(ec as u32)
    }
}

impl vstd::std_specs::convert::FromSpecImpl<u32> for Syndrome {
    open spec fn obeys_from_spec() -> bool {
        true
    }

    open spec fn from_spec(esr: u32) -> Syndrome {
        syndrome_of(esr)
    }
}

/// Converts a raw syndrome value (ESR) into a `Syndrome`.
impl From<u32> for Syndrome {
    fn from(esr: u32) -> (s: Syndrome) {
        let exception_class = esr >> 26;
        let imm = (esr & 0xFFFF) as u16;
        let level = (esr & 0b11) as u8;
        assert(exception_class == esr / 0x400_0000 && imm == esr % 0x1_0000 && level == esr % 4)
            by (bit_vector)
            requires
                exception_class == esr >> 26,
                imm == (esr & 0xFFFF) as u16,
                level == (esr & 0b11) as u8,
        ;
        match exception_class {
            0b000_000 => Syndrome::Unknown,
            0b000_001 => Syndrome::WfiWfe,
            0b000_011 => Syndrome::McrMrc,
            0b000_100 => Syndrome::McrrMrrc,
            0b000_101 => Syndrome::McrMrc,
            0b000_110 => Syndrome::LdcStc,
            0b000_111 => Syndrome::SimdFp,
            0b001_000 => Syndrome::Vmrs,
            0b001_100 => Syndrome::Mrrc,
            0b001_110 => Syndrome::IllegalExecutionState,
            0b010_001 => Syndrome::Svc(imm),  // AArch32
            0b010_010 => Syndrome::Hvc(imm),  // AArch32
            0b010_011 => Syndrome::Smc(imm),  // AArch32
            0b010_101 => Syndrome::Svc(imm),  // AArch64
            0b010_111 => Syndrome::Smc(imm),  // AArch64
            0b010_110 => Syndrome::Hvc(imm),  // AArch64
            0b011_000 => Syndrome::MsrMrsSystem,
            // from a lower EL, then from the same EL
            0b100_000 | 0b100_001 => Syndrome::InstructionAbort {
                kind: Fault::from(esr),
                level,
            },
            0b100_010 => Syndrome::PCAlignmentFault,
            // from a lower EL, then from the same EL
            0b100_100 | 0b100_101 => Syndrome::DataAbort { kind: Fault::from(esr), level },
            0b100_110 => Syndrome::SpAlignmentFault,
            0b101_000 => Syndrome::TrappedFpu,  // AArch32
            0b101_100 => Syndrome::TrappedFpu,  // AArch64
            0b101_111 => Syndrome::SError,
            0b110_000 | 0b110_001 => Syndrome::Breakpoint,
            0b110_010 | 0b110_011 => Syndrome::Step,
            0b110_100 | 0b110_101 => Syndrome::Watchpoint,
            0b111_000 => Syndrome::Brk(imm),  // AArch32
            0b111_100 => Syndrome::Brk(imm),  // AArch64
            other => Syndrome::Other(other),
        }
    }
}

/// The registers saved on exception entry, in the order the entry code
/// pushes them.
#[derive(Default, Debug, Copy, Clone)]
pub struct TrapFrame {
    pub elr: u64,
    pub spsr: u64,
    pub sp: u64,
    pub tpidr: u64,
    pub q0_31: [u128; 32],
    pub x1_29: [u64; 29],
    _reserved: u64,
    pub x30: u64,
    pub x0: u64,
}

/// The interrupt sources the kernel looks at.
#[derive(Debug, PartialEq, Eq, Structural, Copy, Clone)]
pub enum Interrupt {
    Timer1,
    Timer3,
    Usb,
    Gpio0,
    Gpio1,
    Gpio2,
    Gpio3,
    Uart,
}

/// The scheduler's tick, in microseconds.
pub const TICK: u32 = 2 * 1000 * 1000;

/// Handles a pending interrupt. A tick of timer 1 asks for the timer to be
/// armed again `TICK` microseconds from now: the result is that delay, and
/// `None` for any other interrupt. The trap frame is left as it is.
pub fn handle_irq(interrupt: Interrupt, tf: &mut TrapFrame) -> (r: Option<u32>)
    ensures
        r == (if interrupt == Interrupt::Timer1 {
            Some(TICK)
        } else {
            None
        }),
        *final(tf) == *old(tf),
{
    if interrupt == Interrupt::Timer1 {
        Some(TICK)
    } else {
        None
    }
}

} // verus!
