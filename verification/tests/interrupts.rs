use rust_os::interrupts::{InterruptIndex, ATA_PRIMARY_IRQ, PIC_1_OFFSET, PIC_2_OFFSET};
use rust_os::task::system_vars::SystemVars;
use rust_os::QemuExitCode;

#[test]
fn interrupt_vectors() {
    assert_eq!(InterruptIndex::Timer.as_u8(), 32);
    assert_eq!(InterruptIndex::Keyboard.as_u8(), 33);
    assert_eq!(InterruptIndex::Keyboard.as_usize(), 33);
    assert_eq!(PIC_2_OFFSET, 40);
    assert_eq!((PIC_1_OFFSET + ATA_PRIMARY_IRQ) as usize, 46);
}

#[test]
fn qemu_exit_codes() {
    assert_eq!(QemuExitCode::Success.as_u32(), 0x10);
    assert_eq!(QemuExitCode::Failed.as_u32(), 0x11);
}

#[test]
fn root_is_the_default_directory() {
    assert_eq!(SystemVars::default().current_dir, 0);
}
