use axmm::bits::{bit_mask, clear_bit, get_bit, get_bits, set_bit, set_bits, toggle_bit};
use axmm::context::{GeneralRegisters, TrapFrame, UspaceContext};
use axmm::csr::{CsrSstatus, FS};

#[test]
fn bit_utilities() {
    let mut x: usize = 0;
    set_bit(&mut x, 5);
    assert!(get_bit(x, 5));
    assert_eq!(x, 32);
    toggle_bit(&mut x, 5);
    assert_eq!(x, 0);
    x = 0xff00;
    clear_bit(&mut x, 8);
    assert_eq!(x, 0xfe00);
    assert_eq!(bit_mask(4, 4), 0xf0);
    assert_eq!(get_bits(0xabcd, 4, 8), 0xbc);
    let mut y: usize = 0;
    set_bits(&mut y, 13, 2, 3);
    assert_eq!(y, 3 << 13);
}

#[test]
fn sstatus_fields() {
    let mut s = CsrSstatus::new();
    assert!(!s.get_spie());
    s.set_spie(true);
    s.set_sum(true);
    s.set_fs(FS::Initial);
    assert!(s.get_spie());
    assert!(s.get_sum());
    assert_eq!(s.get_fs(), FS::Initial);
    s.set_fs(FS::Dirty);
    assert_eq!(s.get_fs(), FS::Dirty);
    assert!(s.get_spie());
    s.set_spie(false);
    assert!(!s.get_spie());
    assert!(s.get_sum());
}

#[test]
fn trap_frame_arguments() {
    let mut regs = GeneralRegisters::default();
    regs.a0 = 1;
    regs.a1 = 2;
    regs.a2 = 3;
    regs.a3 = 4;
    regs.a4 = 5;
    regs.a5 = 6;
    let tf = TrapFrame { regs, sepc: 0x100, sstatus: 0 };
    assert_eq!(tf.arg0(), 1);
    assert_eq!(tf.arg1(), 2);
    assert_eq!(tf.arg2(), 3);
    assert_eq!(tf.arg3(), 4);
    assert_eq!(tf.arg4(), 5);
    assert_eq!(tf.arg5(), 6);
}

#[test]
fn uspace_context_registers() {
    let mut ctx = UspaceContext::new(0x4000, 0x8000, 7);
    assert_eq!(ctx.get_ip(), 0x4000);
    assert_eq!(ctx.get_sp(), 0x8000);
    ctx.set_ip(0x5000);
    ctx.set_sp(0x9000);
    ctx.set_retval(42);
    assert_eq!(ctx.get_ip(), 0x5000);
    assert_eq!(ctx.get_sp(), 0x9000);
    let empty = UspaceContext::empty();
    assert_eq!(empty.get_ip(), 0);
    let tf = TrapFrame { regs: GeneralRegisters::default(), sepc: 9, sstatus: 0 };
    assert_eq!(UspaceContext::from(&tf).get_ip(), 9);
}
