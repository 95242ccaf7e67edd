use rust_os::interrupts::{InterruptIndex, PIC_1_OFFSET, PIC_2_OFFSET};
use rust_os::layout::{align_up, is_power_of_two, Layout};
use rust_os::vga_buffer::{Color, ColorCode};
use rust_os::{test_runner, QemuExitCode, Testable};

#[test]
fn align_up_values() {
    assert_eq!(align_up(0, 8), 0);
    assert_eq!(align_up(13, 8), 16);
    assert_eq!(align_up(16, 8), 16);
    assert_eq!(align_up(1, 1), 1);
    assert_eq!(align_up(4097, 4096), 8192);
}

#[test]
fn power_of_two_check() {
    assert!(is_power_of_two(1));
    assert!(is_power_of_two(2));
    assert!(is_power_of_two(1024));
    assert!(!is_power_of_two(0));
    assert!(!is_power_of_two(3));
    assert!(!is_power_of_two(12));
}

#[test]
fn layout_validation() {
    let l = Layout::from_size_align(100, 8).unwrap();
    assert_eq!(l.size(), 100);
    assert_eq!(l.align(), 8);
    // alignment must be a power of two
    assert!(Layout::from_size_align(100, 7).is_none());
    assert!(Layout::from_size_align(100, 0).is_none());
    // rounding the size up to the alignment must not overflow
    assert!(Layout::from_size_align(usize::MAX, 2).is_none());
    assert!(Layout::from_size_align(usize::MAX, 1).is_some());
}

#[test]
fn interrupt_vectors() {
    assert_eq!(PIC_1_OFFSET, 32);
    assert_eq!(PIC_2_OFFSET, 40);
    assert_eq!(InterruptIndex::Timer.as_u8(), 32);
    assert_eq!(InterruptIndex::Keyboard.as_u8(), 33);
    assert_eq!(InterruptIndex::Timer.as_usize(), 32);
    assert_eq!(InterruptIndex::Keyboard.as_usize(), 33);
}

#[test]
fn color_codes() {
    // foreground in the low four bits, background in the high four
    assert_eq!(ColorCode::new(Color::Yellow, Color::Black).value(), 14);
    assert_eq!(ColorCode::new(Color::White, Color::Blue).value(), 16 + 15);
    assert_eq!(ColorCode::new(Color::Black, Color::White).value(), 240);
}

#[test]
fn qemu_exit_codes() {
    assert_eq!(QemuExitCode::Success.as_u32(), 0x10);
    assert_eq!(QemuExitCode::Failed.as_u32(), 0x11);
    assert_eq!(QemuExitCode::Success, QemuExitCode::Success);
    assert_ne!(QemuExitCode::Success, QemuExitCode::Failed);
}

struct ChecksSum {
    left: u32,
    right: u32,
    expected: u32,
}

impl Testable for ChecksSum {
    fn run(&self) {
        assert_eq!(self.left + self.right, self.expected);
    }
}

#[test]
fn runner_runs_every_test_and_reports_success() {
    let tests = [
        ChecksSum { left: 1, right: 2, expected: 3 },
        ChecksSum { left: 40, right: 2, expected: 42 },
    ];
    assert_eq!(test_runner(&tests), QemuExitCode::Success);
}
