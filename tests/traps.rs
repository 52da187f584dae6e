use kernel::traps::{handle_irq, Fault, Info, Interrupt, Kind, Source, Syndrome, TrapFrame, TICK};

#[test]
fn syndrome_decodes_exception_classes() {
    assert_eq!(Syndrome::from(0), Syndrome::Unknown);
    assert_eq!(Syndrome::from(0x5600_0002), Syndrome::Svc(2));
    assert_eq!(Syndrome::from(0x4600_1234), Syndrome::Svc(0x1234));
    assert_eq!(Syndrome::from(0xF200_0001), Syndrome::Brk(1));
    assert_eq!(Syndrome::from(0xE000_0003), Syndrome::Brk(3));
    assert_eq!(Syndrome::from(0x1400_0000), Syndrome::McrMrc);
    assert_eq!(Syndrome::from(0xBC00_0000), Syndrome::SError);
    assert_eq!(Syndrome::from(0x0800_0000), Syndrome::Other(2));
    assert_eq!(
        Syndrome::from(0x9600_0005),
        Syndrome::DataAbort { kind: Fault::Translation, level: 1 }
    );
    assert_eq!(
        Syndrome::from(0x9600_0045),
        Syndrome::DataAbort { kind: Fault::Other(0x45), level: 1 }
    );
    assert_eq!(
        Syndrome::from(0x8600_0021),
        Syndrome::InstructionAbort { kind: Fault::Alignment, level: 1 }
    );
}

#[test]
fn fault_decodes_low_byte() {
    assert_eq!(Fault::from(0x02), Fault::AddressSize);
    assert_eq!(Fault::from(0x07), Fault::Translation);
    assert_eq!(Fault::from(0x0A), Fault::AccessFlag);
    assert_eq!(Fault::from(0x0F), Fault::Permission);
    assert_eq!(Fault::from(0x21), Fault::Alignment);
    assert_eq!(Fault::from(0x30), Fault::TlbConflict);
    assert_eq!(Fault::from(0x08), Fault::Other(8));
    assert_eq!(Fault::from(0x1FF), Fault::Other(0xFF));
}

#[test]
fn timer_interrupt_rearms_the_tick() {
    let mut tf = TrapFrame::default();
    tf.elr = 7;
    assert_eq!(handle_irq(Interrupt::Timer1, &mut tf), Some(TICK));
    assert_eq!(handle_irq(Interrupt::Uart, &mut tf), None);
    assert_eq!(tf.elr, 7);
    assert_eq!(TICK, 2_000_000);
}

#[test]
fn info_keeps_source_and_kind() {
    let i = Info::new(Source::LowerAArch64, Kind::Irq);
    assert_eq!(i.source(), Source::LowerAArch64);
    assert_eq!(i.kind(), Kind::Irq);
}
