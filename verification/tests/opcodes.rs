use chip8::cpu::{Cpu, RomError};

fn boot(rom: Vec<u8>) -> Cpu {
    let mut cpu = Cpu::new();
    assert!(matches!(cpu.load_bin(&rom), Ok(())));
    cpu
}

fn run_n(cpu: &mut Cpu, n: usize) {
    for _ in 0..n {
        cpu.run_with(0);
    }
}

#[test]
fn add_no_carry() {
    let mut cpu = boot(vec![0x60, 0x14, 0x61, 0x28, 0x80, 0x14]);
    run_n(&mut cpu, 3);
    assert_eq!(cpu.v_reg(0), 0x3C);
    assert_eq!(cpu.v_reg(0xF), 0);
}

#[test]
fn add_with_carry_wraps() {
    let mut cpu = boot(vec![0x60, 0xFA, 0x61, 0x0F, 0x80, 0x14]);
    run_n(&mut cpu, 3);
    assert_eq!(cpu.v_reg(0), 9);
    assert_eq!(cpu.v_reg(0xF), 1);
}

#[test]
fn sub_no_borrow() {
    let mut cpu = boot(vec![0x60, 0x28, 0x61, 0x14, 0x80, 0x15]);
    run_n(&mut cpu, 3);
    assert_eq!(cpu.v_reg(0), 0x14);
    assert_eq!(cpu.v_reg(0xF), 1);
}

#[test]
fn sub_with_borrow_wraps() {
    let mut cpu = boot(vec![0x60, 0x14, 0x61, 0x28, 0x80, 0x15]);
    run_n(&mut cpu, 3);
    assert_eq!(cpu.v_reg(0), 236);
    assert_eq!(cpu.v_reg(0xF), 0);
}

#[test]
fn sub_equal_values_sets_no_borrow() {
    let mut cpu = boot(vec![0x60, 0x42, 0x61, 0x42, 0x80, 0x15]);
    run_n(&mut cpu, 3);
    assert_eq!(cpu.v_reg(0), 0);
    assert_eq!(cpu.v_reg(0xF), 1);
}

#[test]
fn subn_borrow() {
    let mut cpu = boot(vec![0x60, 0x28, 0x61, 0x14, 0x80, 0x17]);
    run_n(&mut cpu, 3);
    assert_eq!(cpu.v_reg(0), 236);
    assert_eq!(cpu.v_reg(0xF), 0);
}

#[test]
fn bitwise_or_and_xor() {
    let mut cpu = boot(vec![
        0x60, 0x0F, 0x61, 0x33, 0x80, 0x11, // V0 |= V1
        0x62, 0x0F, 0x63, 0x33, 0x82, 0x32, // V2 &= V3
        0x64, 0x0F, 0x65, 0x33, 0x84, 0x53, // V4 ^= V5
    ]);
    run_n(&mut cpu, 9);
    assert_eq!(cpu.v_reg(0), 0x3F);
    assert_eq!(cpu.v_reg(2), 0x03);
    assert_eq!(cpu.v_reg(4), 0x3C);
}

#[test]
fn shr_keeps_low_bit_in_vf() {
    let mut cpu = boot(vec![0x60, 0x05, 0x80, 0x06]);
    run_n(&mut cpu, 2);
    assert_eq!(cpu.v_reg(0), 2);
    assert_eq!(cpu.v_reg(0xF), 1);
}

#[test]
fn shl_keeps_high_bit_in_vf() {
    let mut cpu = boot(vec![0x60, 0x81, 0x80, 0x0E]);
    run_n(&mut cpu, 2);
    assert_eq!(cpu.v_reg(0), 0x02);
    assert_eq!(cpu.v_reg(0xF), 1);
}

#[test]
fn add_immediate_wraps_without_flag() {
    let mut cpu = boot(vec![0x60, 0xFF, 0x70, 0x02]);
    run_n(&mut cpu, 2);
    assert_eq!(cpu.v_reg(0), 1);
    assert_eq!(cpu.v_reg(0xF), 0);
}

#[test]
fn load_immediate_and_copy() {
    let mut cpu = boot(vec![0x60, 0x7B, 0x81, 0x00]);
    run_n(&mut cpu, 2);
    assert_eq!(cpu.v_reg(1), 0x7B);
}

#[test]
fn skip_if_equal_immediate() {
    let mut cpu = boot(vec![0x60, 0x05, 0x30, 0x05]);
    run_n(&mut cpu, 2);
    assert_eq!(cpu.pc(), 0x206);
    let mut cpu = boot(vec![0x60, 0x05, 0x30, 0x06]);
    run_n(&mut cpu, 2);
    assert_eq!(cpu.pc(), 0x204);
}

#[test]
fn skip_if_not_equal_immediate() {
    let mut cpu = boot(vec![0x60, 0x05, 0x40, 0x06]);
    run_n(&mut cpu, 2);
    assert_eq!(cpu.pc(), 0x206);
}

#[test]
fn skip_on_register_compare() {
    let mut cpu = boot(vec![0x60, 0x05, 0x61, 0x05, 0x50, 0x10]);
    run_n(&mut cpu, 3);
    assert_eq!(cpu.pc(), 0x208);
    let mut cpu = boot(vec![0x60, 0x05, 0x61, 0x06, 0x90, 0x10]);
    run_n(&mut cpu, 3);
    assert_eq!(cpu.pc(), 0x208);
}

#[test]
fn jump_absolute() {
    let mut cpu = boot(vec![0x13, 0x45]);
    run_n(&mut cpu, 1);
    assert_eq!(cpu.pc(), 0x345);
}

#[test]
fn jump_plus_v0() {
    let mut cpu = boot(vec![0x60, 0x05, 0xB3, 0x00]);
    run_n(&mut cpu, 2);
    assert_eq!(cpu.pc(), 0x305);
}

#[test]
fn random_masks_injected_byte() {
    let mut cpu = boot(vec![0xC0, 0x0F]);
    cpu.run_with(0xAB);
    assert_eq!(cpu.v_reg(0), 0x0B);
    let mut cpu = boot(vec![0xC0, 0xFF]);
    cpu.run_with(0x5C);
    assert_eq!(cpu.v_reg(0), 0x5C);
}

#[test]
fn call_then_ret_restores_pc_and_sp() {
    let mut cpu = boot(vec![0x22, 0x04, 0x00, 0x00, 0x00, 0xEE]);
    cpu.run_with(0);
    assert_eq!(cpu.pc(), 0x204);
    assert_eq!(cpu.sp(), 1);
    cpu.run_with(0);
    assert_eq!(cpu.pc(), 0x202);
    assert_eq!(cpu.sp(), 0);
}

#[test]
fn ret_on_empty_stack_wraps_pointer() {
    let mut cpu = boot(vec![0x00, 0xEE]);
    cpu.run_with(0);
    assert_eq!(cpu.sp(), 15);
    assert_eq!(cpu.pc(), 2);
}

#[test]
fn call_stack_wraps_past_sixteen_levels() {
    // Seventeen CALLs in a row: each jumps to the next one two bytes on.
    let mut rom = Vec::new();
    for k in 0..17u16 {
        let target = 0x202 + 2 * k;
        rom.push(0x20 | (target >> 8) as u8);
        rom.push((target & 0xFF) as u8);
    }
    let mut cpu = boot(rom);
    run_n(&mut cpu, 17);
    assert_eq!(cpu.sp(), 1);
    assert_eq!(cpu.pc(), 0x222);
}

#[test]
fn unknown_opcode_is_reported_and_skipped() {
    let mut cpu = boot(vec![0xFF, 0xFF]);
    cpu.run_with(0);
    assert_eq!(cpu.pc(), 0x202);
    assert_eq!(cpu.unknown_op(), Some(0xFFFF));
    cpu.clear_unknown_op();
    assert_eq!(cpu.unknown_op(), None);
    let mut cpu = boot(vec![0x00, 0x00]);
    cpu.run_with(0);
    assert_eq!(cpu.pc(), 0x202);
    assert_eq!(cpu.unknown_op(), Some(0x0000));
}

#[test]
fn unknown_alu_opcode_keeps_registers() {
    let mut cpu = boot(vec![0x60, 0x07, 0x80, 0x1F]);
    run_n(&mut cpu, 2);
    assert_eq!(cpu.pc(), 0x204);
    assert_eq!(cpu.v_reg(0), 7);
    assert_eq!(cpu.unknown_op(), Some(0x801F));
}

#[test]
fn execution_continues_past_unknown_opcode() {
    let mut cpu = boot(vec![0xFF, 0xFF, 0x60, 0x07]);
    run_n(&mut cpu, 2);
    assert_eq!(cpu.v_reg(0), 7);
    assert_eq!(cpu.pc(), 0x204);
}

#[test]
fn defined_opcode_leaves_no_report() {
    let mut cpu = boot(vec![0x60, 0x07]);
    cpu.run_with(0);
    assert_eq!(cpu.unknown_op(), None);
}

#[test]
fn bcd_decomposes_value() {
    let mut cpu = boot(vec![0x60, 0xFE, 0xA3, 0x00, 0xF0, 0x33]);
    run_n(&mut cpu, 3);
    assert_eq!(cpu.mem_byte(0x300), 2);
    assert_eq!(cpu.mem_byte(0x301), 5);
    assert_eq!(cpu.mem_byte(0x302), 4);
}

#[test]
fn store_and_load_register_block() {
    let mut cpu = boot(vec![
        0x60, 0xAA, 0x61, 0xBB, 0xA3, 0x00, 0xF1, 0x55, // store V0..=V1 at 0x300
        0x60, 0x00, 0x61, 0x00, // clear them
        0xF1, 0x65, // load them back
    ]);
    run_n(&mut cpu, 4);
    assert_eq!(cpu.mem_byte(0x300), 0xAA);
    assert_eq!(cpu.mem_byte(0x301), 0xBB);
    run_n(&mut cpu, 3);
    assert_eq!(cpu.v_reg(0), 0xAA);
    assert_eq!(cpu.v_reg(1), 0xBB);
    assert_eq!(cpu.i_reg(), 0x300);
}

#[test]
fn rpl_flags_round_trip_clamps_to_eight() {
    let mut rom = Vec::new();
    for k in 0..9u8 {
        rom.push(0x60 | k);
        rom.push(k + 1);
    }
    rom.extend(vec![0xFF, 0x75]); // store V0..=V7 (x clamped)
    for k in 0..9u8 {
        rom.push(0x60 | k);
        rom.push(0);
    }
    rom.extend(vec![0xFF, 0x85]); // load V0..=V7 back
    let mut cpu = boot(rom);
    run_n(&mut cpu, 20);
    for k in 0..8usize {
        assert_eq!(cpu.v_reg(k), k as u8 + 1);
    }
    assert_eq!(cpu.v_reg(8), 0);
}

#[test]
fn skip_when_key_pressed() {
    let mut cpu = boot(vec![0x60, 0x05, 0xE0, 0x9E]);
    cpu.set_key(5, true);
    run_n(&mut cpu, 2);
    assert_eq!(cpu.pc(), 0x206);
    let mut cpu = boot(vec![0x60, 0x05, 0xE0, 0x9E]);
    run_n(&mut cpu, 2);
    assert_eq!(cpu.pc(), 0x204);
}

#[test]
fn skip_when_key_not_pressed() {
    let mut cpu = boot(vec![0x60, 0x05, 0xE0, 0xA1]);
    run_n(&mut cpu, 2);
    assert_eq!(cpu.pc(), 0x206);
    let mut cpu = boot(vec![0x60, 0x05, 0xE0, 0xA1]);
    cpu.set_key(5, true);
    run_n(&mut cpu, 2);
    assert_eq!(cpu.pc(), 0x204);
}

#[test]
fn wait_key_holds_pc_until_pressed() {
    let mut cpu = boot(vec![0xF0, 0x0A]);
    cpu.run_with(0);
    assert_eq!(cpu.pc(), 0x200);
    cpu.run_with(0);
    assert_eq!(cpu.pc(), 0x200);
    cpu.set_key(0xC, true);
    cpu.set_key(0x3, true);
    cpu.run_with(0);
    // The lowest-indexed pressed key lands in Vx.
    assert_eq!(cpu.v_reg(0), 0x3);
    assert_eq!(cpu.pc(), 0x202);
}

#[test]
fn index_add_sets_overflow_flag() {
    let mut cpu = boot(vec![0xAF, 0xFF, 0x60, 0x01, 0xF0, 0x1E]);
    run_n(&mut cpu, 3);
    assert_eq!(cpu.i_reg(), 0x1000);
    assert_eq!(cpu.v_reg(0xF), 1);
    let mut cpu = boot(vec![0xA0, 0x10, 0x60, 0x01, 0xF0, 0x1E]);
    run_n(&mut cpu, 3);
    assert_eq!(cpu.i_reg(), 0x11);
    assert_eq!(cpu.v_reg(0xF), 0);
}

#[test]
fn font_lookup_points_at_glyph() {
    let mut cpu = boot(vec![0x60, 0x0A, 0xF0, 0x29]);
    run_n(&mut cpu, 2);
    assert_eq!(cpu.i_reg(), 50);
    // The glyph for the digit A.
    let glyph: Vec<u8> = (0..5).map(|k| cpu.mem_byte(50 + k)).collect();
    assert_eq!(glyph, vec![0xF0, 0x90, 0xF0, 0x90, 0x90]);
}

#[test]
fn big_font_lookup_points_past_small_font() {
    let mut cpu = boot(vec![0x60, 0x02, 0xF0, 0x30]);
    run_n(&mut cpu, 2);
    assert_eq!(cpu.i_reg(), 100);
}

#[test]
fn rom_error_reports_too_large() {
    let mut cpu = Cpu::new();
    let rom = vec![0u8; 3584];
    assert_eq!(cpu.load_bin(&rom), Err(RomError::TooLarge));
}

#[test]
fn wait_key_sees_the_sixteenth_key() {
    let mut cpu = boot(vec![0xF0, 0x0A]);
    cpu.set_key(0xF, true);
    cpu.run_with(0);
    assert_eq!(cpu.v_reg(0), 0xF);
    assert_eq!(cpu.pc(), 0x202);
}

#[test]
fn key_skip_with_out_of_range_register() {
    // A register value past the 16 keys names no key.
    let mut cpu = boot(vec![0x60, 0xFF, 0xE0, 0x9E]);
    run_n(&mut cpu, 2);
    assert_eq!(cpu.pc(), 0x204);
    let mut cpu = boot(vec![0x60, 0xFF, 0xE0, 0xA1]);
    run_n(&mut cpu, 2);
    assert_eq!(cpu.pc(), 0x206);
}

#[test]
fn bcd_wraps_at_memory_top() {
    let mut cpu = boot(vec![0x60, 0x7B, 0xAF, 0xFF, 0xF0, 0x33]);
    run_n(&mut cpu, 3);
    assert_eq!(cpu.mem_byte(0xFFF), 1);
    assert_eq!(cpu.mem_byte(0), 2);
    assert_eq!(cpu.mem_byte(1), 3);
}
