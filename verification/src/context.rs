//! Saved register state for traps, user-space entry, and task contexts.

use vstd::prelude::*;

use crate::csr::CsrSstatus;
use crate::csr::FS;
use crate::csr::fs_to_bits;
use crate::csr::spec_fs_bits;
use crate::csr::spec_spie;
use crate::csr::spec_sum;

verus! {

/// General registers of RISC-V.
#[derive(Debug, Clone, Copy, PartialEq, Eq, Structural)]
pub struct GeneralRegisters {
    pub ra: usize,
    pub sp: usize,
    /// Only valid for user traps.
    pub gp: usize,
    /// Only valid for user traps.
    pub tp: usize,
    pub t0: usize,
    pub t1: usize,
    pub t2: usize,
    pub s0: usize,
    pub s1: usize,
    pub a0: usize,
    pub a1: usize,
    pub a2: usize,
    pub a3: usize,
    pub a4: usize,
    pub a5: usize,
    pub a6: usize,
    pub a7: usize,
    pub s2: usize,
    pub s3: usize,
    pub s4: usize,
    pub s5: usize,
    pub s6: usize,
    pub s7: usize,
    pub s8: usize,
    pub s9: usize,
    pub s10: usize,
    pub s11: usize,
    pub t3: usize,
    pub t4: usize,
    pub t5: usize,
    pub t6: usize,
}

/// The register file with every register zero except `sp` and `a0`.
pub open spec fn gr_with_sp_a0(sp: usize, a0: usize) -> GeneralRegisters {
    GeneralRegisters {
        ra: 0,
        sp: sp,
        gp: 0,
        tp: 0,
        t0: 0,
        t1: 0,
        t2: 0,
        s0: 0,
        s1: 0,
        a0: a0,
        a1: 0,
        a2: 0,
        a3: 0,
        a4: 0,
        a5: 0,
        a6: 0,
        a7: 0,
        s2: 0,
        s3: 0,
        s4: 0,
        s5: 0,
        s6: 0,
        s7: 0,
        s8: 0,
        s9: 0,
        s10: 0,
        s11: 0,
        t3: 0,
        t4: 0,
        t5: 0,
        t6: 0,
    }
}

impl Default for GeneralRegisters {
    /// All registers zero.
    fn default() -> (r: Self)
        ensures
            r == gr_with_sp_a0(0, 0),
    {
        GeneralRegisters {
            ra: 0,
            sp: 0,
            gp: 0,
            tp: 0,
            t0: 0,
            t1: 0,
            t2: 0,
            s0: 0,
            s1: 0,
            a0: 0,
            a1: 0,
            a2: 0,
            a3: 0,
            a4: 0,
            a5: 0,
            a6: 0,
            a7: 0,
            s2: 0,
            s3: 0,
            s4: 0,
            s5: 0,
            s6: 0,
            s7: 0,
            s8: 0,
            s9: 0,
            s10: 0,
            s11: 0,
            t3: 0,
            t4: 0,
            t5: 0,
            t6: 0,
        }
    }
}

/// Floating-point registers of RISC-V, with the FPU status they were saved
/// under.
#[derive(Debug, Clone, Copy)]
pub struct FpStatus {
    /// The state of the RISC-V Floating-Point Unit (FPU).
    pub fs: FS,
    /// The saved floating-point register bit patterns.
    pub fp: [u64; 32],
}

/// Saved registers when a trap (interrupt or exception) occurs.
#[derive(Debug, Clone, Copy, PartialEq, Eq, Structural)]
pub struct TrapFrame {
    /// All general registers.
    pub regs: GeneralRegisters,
    /// Supervisor Exception Program Counter.
    pub sepc: usize,
    /// Supervisor Status Register.
    pub sstatus: usize,
}

impl Default for TrapFrame {
    /// All fields zero.
    fn default() -> (r: Self)
        ensures
            r == (TrapFrame { regs: gr_with_sp_a0(0, 0), sepc: 0, sstatus: 0 }),
    {
        TrapFrame { regs: GeneralRegisters::default(), sepc: 0, sstatus: 0 }
    }
}

impl TrapFrame {
    /// Gets the 0th syscall argument.
    pub fn arg0(&self) -> (r: usize)
        ensures
            r == self.regs.a0,
    {
        self.regs.a0
    }

    /// Gets the 1st syscall argument.
    pub fn arg1(&self) -> (r: usize)
        ensures
            r == self.regs.a1,
    {
        self.regs.a1
    }

    /// Gets the 2nd syscall argument.
    pub fn arg2(&self) -> (r: usize)
        ensures
            r == self.regs.a2,
    {
        self.regs.a2
    }

    /// Gets the 3rd syscall argument.
    pub fn arg3(&self) -> (r: usize)
        ensures
            r == self.regs.a3,
    {
        self.regs.a3
    }

    /// Gets the 4th syscall argument.
    pub fn arg4(&self) -> (r: usize)
        ensures
            r == self.regs.a4,
    {
        self.regs.a4
    }

    /// Gets the 5th syscall argument.
    pub fn arg5(&self) -> (r: usize)
        ensures
            r == self.regs.a5,
    {
        self.regs.a5
    }
}

/// Context to enter user space.
#[derive(Debug, Clone, Copy)]
pub struct UspaceContext(TrapFrame);

impl UspaceContext {
    /// The saved trap frame this context wraps.
    pub closed spec fn tf(self) -> TrapFrame {
        self.0
    }

    /// Creates an empty context with all registers set to zero.
    pub fn empty() -> (r: Self)
        ensures
            r.tf() == (TrapFrame { regs: gr_with_sp_a0(0, 0), sepc: 0, sstatus: 0 }),
    {
        Self(TrapFrame::default())
    }

    /// Creates a new context with the given entry point, user stack pointer,
    /// and the argument.
    ///
    /// The saved status word has SPIE and SUM set and the FPU marked
    /// `Initial`.
    pub fn new(entry: usize, ustack_top: usize, arg0: usize) -> (r: Self)
        ensures
            r.tf().sepc == entry,
            r.tf().regs == gr_with_sp_a0(ustack_top, arg0),
            spec_spie(r.tf().sstatus),
            spec_sum(r.tf().sstatus),
            spec_fs_bits(r.tf().sstatus) == fs_to_bits(FS::Initial),
    {
        let mut sstatus = CsrSstatus::new();
        sstatus.set_spie(true);
        sstatus.set_sum(true);
        sstatus.set_fs(FS::Initial);

        let mut regs = GeneralRegisters::default();
        regs.a0 = arg0;
        regs.sp = ustack_top;
        Self(TrapFrame { regs, sepc: entry, sstatus: sstatus.bits() })
    }

    /// Creates a new context from the given [`TrapFrame`].
    pub fn from(trap_frame: &TrapFrame) -> (r: Self)
        ensures
            r.tf() == *trap_frame,
    {
        Self(*trap_frame)
    }

    /// Gets the instruction pointer.
    pub fn get_ip(&self) -> (r: usize)
        ensures
            r == self.tf().sepc,
    {
        self.0.sepc
    }

    /// Gets the stack pointer.
    pub fn get_sp(&self) -> (r: usize)
        ensures
            r == self.tf().regs.sp,
    {
        self.0.regs.sp
    }

    /// Sets the instruction pointer.
    pub fn set_ip(&mut self, pc: usize)
        ensures
            final(self).tf() == (TrapFrame { sepc: pc, ..old(self).tf() }),
    {
        self.0.sepc = pc;
    }

    /// Sets the stack pointer.
    pub fn set_sp(&mut self, sp: usize)
        ensures
            final(self).tf() == (TrapFrame {
                regs: GeneralRegisters { sp: sp, ..old(self).tf().regs },
                ..old(self).tf()
            }),
    {
        self.0.regs.sp = sp;
    }

    /// Sets the return value register.
    pub fn set_retval(&mut self, a0: usize)
        ensures
            final(self).tf() == (TrapFrame {
                regs: GeneralRegisters { a0: a0, ..old(self).tf().regs },
                ..old(self).tf()
            }),
    {
        self.0.regs.a0 = a0;
    }
}

} // verus!
