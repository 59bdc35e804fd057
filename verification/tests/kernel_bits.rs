use crysalis::memory::{align_up, frame_for_page, heap_pages, FrameAllocationFailed, HEAP_SIZE, HEAP_START};
use crysalis::pic::{InterruptIndex, PIC_1_OFFSET, PIC_2_OFFSET};
use crysalis::vga::{Color, ColorCode, ScreenChar};
use crysalis::QemuExitCode;

#[test]
fn align_up_rounds_to_next_multiple() {
    assert_eq!(align_up(10, 8), 16);
    assert_eq!(align_up(16, 8), 16);
    assert_eq!(align_up(0, 8), 0);
    assert_eq!(align_up(1, 1), 1);
    assert_eq!(align_up(4095, 4096), 4096);
    assert_eq!(align_up(4097, 4096), 8192);
}

#[test]
fn heap_window_pages_cover_the_window() {
    let pages = heap_pages();
    assert_eq!(pages.len() as u64, HEAP_SIZE / 4096);
    assert_eq!(pages[0], HEAP_START);
    for w in pages.windows(2) {
        assert_eq!(w[1], w[0] + 4096);
    }
    assert_eq!(*pages.last().unwrap(), HEAP_START + HEAP_SIZE - 4096);
}

#[test]
fn frame_for_page_propagates_exhaustion() {
    assert_eq!(frame_for_page(Some(0x7000)), Ok(0x7000));
    assert_eq!(frame_for_page(None), Err(FrameAllocationFailed));
}

#[test]
fn interrupt_indices_follow_the_pic_offset() {
    assert_eq!(PIC_1_OFFSET, 32);
    assert_eq!(PIC_2_OFFSET, 40);
    assert_eq!(InterruptIndex::Timer.as_u8(), 32);
    assert_eq!(InterruptIndex::Keyboard.as_u8(), 33);
}

#[test]
fn color_codes_pack_background_over_foreground() {
    assert_eq!(ColorCode::new(Color::Black, Color::Green).0, 0x20);
    assert_eq!(ColorCode::new(Color::White, Color::Black).0, 0x0F);
    assert_eq!(ColorCode::new(Color::Yellow, Color::Blue).0, 0x1E);
}

#[test]
fn blank_screen_char_is_a_space() {
    let color = ColorCode::new(Color::Black, Color::Green);
    let blank = ScreenChar::blank(color);
    assert_eq!(blank.ascii_character, b' ');
    assert_eq!(blank.color_code, color);
}

#[test]
fn qemu_exit_codes() {
    assert_eq!(QemuExitCode::Success.as_u32(), 0x10);
    assert_eq!(QemuExitCode::Failed.as_u32(), 0x11);
}
