use chip8::cpu::{Cpu, RomError};
use chip8::display::{DisplayMode, HEIGHT, WIDTH};
use chip8::keypad::State;

#[test]
fn fresh_interpreter_state() {
    let cpu = Cpu::new();
    assert_eq!(cpu.pc(), 0x200);
    assert_eq!(cpu.sp(), 0);
    assert_eq!(cpu.i_reg(), 0);
    assert_eq!(cpu.delay_timer(), 0);
    assert_eq!(cpu.sound_timer(), 0);
    assert!(!cpu.draw_flag());
    assert_eq!(cpu.speed, 2);
    assert!(!cpu.mode.debug);
    assert_eq!(cpu.display_mode, DisplayMode::Normal);
    for x in 0..16 {
        assert_eq!(cpu.v_reg(x), 0);
    }
    assert!(!cpu.pixel(0, 0));
    assert!(!cpu.pixel(WIDTH - 1, HEIGHT - 1));
}

#[test]
fn font_preloaded_at_bottom_of_memory() {
    let cpu = Cpu::new();
    // Glyph 0 of the 4x5 font.
    let glyph: Vec<u8> = (0..5).map(|k| cpu.mem_byte(k)).collect();
    assert_eq!(glyph, vec![0xF0, 0x90, 0x90, 0x90, 0xF0]);
    // First bytes of the 8x10 font.
    assert_eq!(cpu.mem_byte(80), 0xFF);
    // Past both fonts memory is clear.
    assert_eq!(cpu.mem_byte(240), 0);
}

#[test]
fn load_of_3583_bytes_succeeds() {
    let mut cpu = Cpu::new();
    let mut rom = vec![0u8; 3583];
    rom[0] = 0xAB;
    rom[1] = 0xCD;
    rom[3582] = 0x77;
    assert!(matches!(cpu.load_bin(&rom), Ok(())));
    assert_eq!(cpu.mem_byte(0x200), 0xAB);
    assert_eq!(cpu.mem_byte(0x201), 0xCD);
    assert_eq!(cpu.mem_byte(0x200 + 3582), 0x77);
}

#[test]
fn load_of_3584_bytes_is_refused() {
    let mut cpu = Cpu::new();
    let rom = vec![0x11u8; 3584];
    assert_eq!(cpu.load_bin(&rom), Err(RomError::TooLarge));
    // Nothing was copied.
    assert_eq!(cpu.mem_byte(0x200), 0);
}

#[test]
fn load_preserves_font() {
    let mut cpu = Cpu::new();
    let rom = vec![0x55u8; 3583];
    assert!(matches!(cpu.load_bin(&rom), Ok(())));
    assert_eq!(cpu.mem_byte(0), 0xF0);
    assert_eq!(cpu.mem_byte(239), 0xC0);
}

#[test]
fn host_states_are_distinct() {
    // The host loop matches on these; make sure the variants stay apart.
    let states = [
        State::Exit,
        State::Continue,
        State::Increase,
        State::Decrease,
        State::Debug,
        State::Reset,
    ];
    for (a, sa) in states.iter().enumerate() {
        for (b, sb) in states.iter().enumerate() {
            assert_eq!(a == b, sa == sb);
        }
    }
}
