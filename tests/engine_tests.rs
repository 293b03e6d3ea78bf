use chip8::engine::{
    can_emulate_cycle, decode_and_execute, emulate_cycle, execute, fetch, load_rom, update_timers,
};
use chip8::error::{Chip8Error, InstructionError};
use chip8::memory::Memory;
use chip8::screen::Screen;

fn machine() -> (Memory, Screen) {
    (Memory::new(), Screen::new())
}

fn run(memory: &mut Memory, screen: &mut Screen, op: u16, legacy: bool) -> Result<(), InstructionError> {
    execute(op, screen, memory, legacy, 0)
}

fn reg(memory: &Memory, id: u8) -> u8 {
    memory.get_var_register(id).unwrap()
}

fn set(memory: &mut Memory, id: u8, value: u8) {
    memory.set_var_register(id, value).unwrap();
}

#[test]
fn add_sets_carry_on_overflow() {
    let (mut m, mut s) = machine();
    set(&mut m, 1, 0xFE);
    set(&mut m, 2, 0x05);
    assert_eq!(run(&mut m, &mut s, 0x8124, false), Ok(()));
    assert_eq!(reg(&m, 1), 0x03);
    assert_eq!(reg(&m, 0xF), 1);
    set(&mut m, 1, 0x01);
    set(&mut m, 2, 0x01);
    assert_eq!(run(&mut m, &mut s, 0x8124, false), Ok(()));
    assert_eq!(reg(&m, 1), 0x02);
    assert_eq!(reg(&m, 0xF), 0);
}

#[test]
fn sub_x_minus_y_flags_no_borrow() {
    let (mut m, mut s) = machine();
    set(&mut m, 1, 0x05);
    set(&mut m, 2, 0x03);
    assert_eq!(run(&mut m, &mut s, 0x8125, false), Ok(()));
    assert_eq!(reg(&m, 1), 0x02);
    assert_eq!(reg(&m, 0xF), 1);
    set(&mut m, 1, 0x03);
    set(&mut m, 2, 0x05);
    assert_eq!(run(&mut m, &mut s, 0x8125, false), Ok(()));
    assert_eq!(reg(&m, 1), 0xFE);
    assert_eq!(reg(&m, 0xF), 0);
}

#[test]
fn sub_y_minus_x_wraps_on_borrow() {
    let (mut m, mut s) = machine();
    set(&mut m, 1, 0x03);
    set(&mut m, 2, 0x05);
    assert_eq!(run(&mut m, &mut s, 0x8127, false), Ok(()));
    assert_eq!(reg(&m, 1), 0x02);
    assert_eq!(reg(&m, 0xF), 1);
    set(&mut m, 1, 0x05);
    set(&mut m, 2, 0x03);
    assert_eq!(run(&mut m, &mut s, 0x8127, false), Ok(()));
    assert_eq!(reg(&m, 1), 0xFE);
    assert_eq!(reg(&m, 0xF), 0);
    set(&mut m, 1, 0x04);
    set(&mut m, 2, 0x04);
    assert_eq!(run(&mut m, &mut s, 0x8127, false), Ok(()));
    assert_eq!(reg(&m, 1), 0x00);
    assert_eq!(reg(&m, 0xF), 0);
}

#[test]
fn logic_and_copy_operations() {
    let (mut m, mut s) = machine();
    set(&mut m, 1, 0b1100);
    set(&mut m, 2, 0b1010);
    run(&mut m, &mut s, 0x8121, false).unwrap();
    assert_eq!(reg(&m, 1), 0b1110);
    set(&mut m, 1, 0b1100);
    run(&mut m, &mut s, 0x8122, false).unwrap();
    assert_eq!(reg(&m, 1), 0b1000);
    set(&mut m, 1, 0b1100);
    run(&mut m, &mut s, 0x8123, false).unwrap();
    assert_eq!(reg(&m, 1), 0b0110);
    run(&mut m, &mut s, 0x8120, false).unwrap();
    assert_eq!(reg(&m, 1), 0b1010);
}

#[test]
fn shift_right_legacy_uses_y_modern_ignores_it() {
    let (mut m, mut s) = machine();
    set(&mut m, 1, 0x03);
    set(&mut m, 2, 0x10);
    run(&mut m, &mut s, 0x8126, false).unwrap();
    assert_eq!(reg(&m, 1), 0x01);
    assert_eq!(reg(&m, 0xF), 1);
    set(&mut m, 1, 0x03);
    run(&mut m, &mut s, 0x8126, true).unwrap();
    assert_eq!(reg(&m, 1), 0x08);
    assert_eq!(reg(&m, 0xF), 0);
}

#[test]
fn shift_left_flag_is_raw_high_bit() {
    let (mut m, mut s) = machine();
    set(&mut m, 1, 0x81);
    set(&mut m, 2, 0x01);
    run(&mut m, &mut s, 0x812E, false).unwrap();
    assert_eq!(reg(&m, 1), 0x02);
    assert_eq!(reg(&m, 0xF), 0x80);
    set(&mut m, 1, 0x81);
    run(&mut m, &mut s, 0x812E, true).unwrap();
    assert_eq!(reg(&m, 1), 0x02);
    assert_eq!(reg(&m, 0xF), 0);
}

#[test]
fn drawing_twice_turns_pixel_off_and_flags_collision() {
    let (mut m, mut s) = machine();
    m.write_ram(0x300, &[0x80]);
    run(&mut m, &mut s, 0xA300, false).unwrap();
    set(&mut m, 0, 5);
    set(&mut m, 1, 7);
    run(&mut m, &mut s, 0xD011, false).unwrap();
    assert_eq!(s.get_pixel(5, 7), Ok(true));
    assert_eq!(reg(&m, 0xF), 0);
    assert!(s.take_frame());
    run(&mut m, &mut s, 0xD011, false).unwrap();
    assert_eq!(s.get_pixel(5, 7), Ok(false));
    assert_eq!(reg(&m, 0xF), 1);
}

#[test]
fn drawing_clips_at_edges_and_wraps_start() {
    let (mut m, mut s) = machine();
    m.write_ram(0x300, &[0xFF, 0xFF]);
    m.set_index_register(0x300);
    set(&mut m, 0, 60);
    set(&mut m, 1, 31);
    run(&mut m, &mut s, 0xD012, false).unwrap();
    for x in 60..64u8 {
        assert_eq!(s.get_pixel(x, 31), Ok(true));
    }
    assert_eq!(s.get_pixel(59, 31), Ok(false));
    assert_eq!(s.get_pixel(0, 31), Ok(false));
    assert_eq!(s.get_pixel(60, 0), Ok(false));
    assert_eq!(s.get_pixel(0, 0), Ok(false));
    set(&mut m, 0, 64 + 2);
    set(&mut m, 1, 32 + 1);
    run(&mut m, &mut s, 0xD011, false).unwrap();
    assert_eq!(s.get_pixel(2, 1), Ok(true));
    assert_eq!(s.get_pixel(9, 1), Ok(true));
    assert_eq!(s.get_pixel(10, 1), Ok(false));
}

#[test]
fn clear_screen_opcode() {
    let (mut m, mut s) = machine();
    s.set_pixel(3, 4, true).unwrap();
    run(&mut m, &mut s, 0x00E0, false).unwrap();
    assert_eq!(s.get_pixel(3, 4), Ok(false));
    assert!(s.take_frame());
}

#[test]
fn key_wait_repeats_until_key_down() {
    let (mut m, mut s) = machine();
    m.write_ram(0x200, &[0xF3, 0x0A]);
    assert_eq!(emulate_cycle(&mut m, &mut s, false), Ok(()));
    assert_eq!(m.pc(), 0x200);
    assert_eq!(emulate_cycle(&mut m, &mut s, false), Ok(()));
    assert_eq!(m.pc(), 0x200);
    s.key_pressed(0xB);
    s.key_pressed(0x9);
    assert_eq!(emulate_cycle(&mut m, &mut s, false), Ok(()));
    assert_eq!(m.pc(), 0x202);
    assert_eq!(reg(&m, 3), 0x9);
}

#[test]
fn bcd_of_255() {
    let (mut m, mut s) = machine();
    set(&mut m, 2, 0xFF);
    m.set_index_register(0x400);
    run(&mut m, &mut s, 0xF233, false).unwrap();
    assert_eq!(m.read_ram_cell(0x400), 2);
    assert_eq!(m.read_ram_cell(0x401), 5);
    assert_eq!(m.read_ram_cell(0x402), 5);
    set(&mut m, 2, 7);
    run(&mut m, &mut s, 0xF233, false).unwrap();
    assert_eq!(m.read_ram_cell(0x400), 0);
    assert_eq!(m.read_ram_cell(0x401), 0);
    assert_eq!(m.read_ram_cell(0x402), 7);
}

#[test]
fn font_lookup_masks_low_nibble() {
    let (mut m, mut s) = machine();
    set(&mut m, 4, 0x0A);
    run(&mut m, &mut s, 0xF429, false).unwrap();
    assert_eq!(m.index_register(), 0x0050 + 5 * 0x0A);
    set(&mut m, 4, 0x1A);
    run(&mut m, &mut s, 0xF429, false).unwrap();
    assert_eq!(m.index_register(), 0x0050 + 5 * 0x0A);
    assert_eq!(m.read_ram_cell(0x0082), 0xF0);
}

#[test]
fn invalid_opcodes_are_reported_with_opcode() {
    let (mut m, mut s) = machine();
    for op in [0x0123u16, 0x812F, 0xE1FF, 0xF1FF, 0x00FF] {
        assert_eq!(
            run(&mut m, &mut s, op, false),
            Err(InstructionError { opcode: op, error: Chip8Error::InvalidOpcode })
        );
    }
    assert_eq!(m.pc(), 0x200);
}

#[test]
fn return_with_empty_stack_fails() {
    let (mut m, mut s) = machine();
    assert_eq!(
        run(&mut m, &mut s, 0x00EE, false),
        Err(InstructionError { opcode: 0x00EE, error: Chip8Error::EmptyStack })
    );
}

#[test]
fn call_and_return() {
    let (mut m, mut s) = machine();
    run(&mut m, &mut s, 0x2400, false).unwrap();
    assert_eq!(m.pc(), 0x400);
    run(&mut m, &mut s, 0x2600, false).unwrap();
    assert_eq!(m.pc(), 0x600);
    run(&mut m, &mut s, 0x00EE, false).unwrap();
    assert_eq!(m.pc(), 0x400);
    run(&mut m, &mut s, 0x00EE, false).unwrap();
    assert_eq!(m.pc(), 0x200);
}

#[test]
fn key_skips_and_out_of_range_key() {
    let (mut m, mut s) = machine();
    set(&mut m, 1, 0x20);
    assert_eq!(
        run(&mut m, &mut s, 0xE19E, false),
        Err(InstructionError { opcode: 0xE19E, error: Chip8Error::OutOfRangeKey(0x20) })
    );
    assert_eq!(
        run(&mut m, &mut s, 0xE100, false),
        Err(InstructionError { opcode: 0xE100, error: Chip8Error::InvalidOpcode })
    );
    set(&mut m, 1, 5);
    run(&mut m, &mut s, 0xE19E, false).unwrap();
    assert_eq!(m.pc(), 0x200);
    run(&mut m, &mut s, 0xE1A1, false).unwrap();
    assert_eq!(m.pc(), 0x202);
    s.key_pressed(5);
    run(&mut m, &mut s, 0xE19E, false).unwrap();
    assert_eq!(m.pc(), 0x204);
    run(&mut m, &mut s, 0xE1A1, false).unwrap();
    assert_eq!(m.pc(), 0x204);
}

#[test]
fn conditional_skips() {
    let (mut m, mut s) = machine();
    set(&mut m, 1, 0x42);
    set(&mut m, 2, 0x42);
    run(&mut m, &mut s, 0x3142, false).unwrap();
    assert_eq!(m.pc(), 0x202);
    run(&mut m, &mut s, 0x3143, false).unwrap();
    assert_eq!(m.pc(), 0x202);
    run(&mut m, &mut s, 0x4143, false).unwrap();
    assert_eq!(m.pc(), 0x204);
    run(&mut m, &mut s, 0x4142, false).unwrap();
    assert_eq!(m.pc(), 0x204);
    run(&mut m, &mut s, 0x5120, false).unwrap();
    assert_eq!(m.pc(), 0x206);
    run(&mut m, &mut s, 0x9120, false).unwrap();
    assert_eq!(m.pc(), 0x206);
    set(&mut m, 2, 0x41);
    run(&mut m, &mut s, 0x9120, false).unwrap();
    assert_eq!(m.pc(), 0x208);
    run(&mut m, &mut s, 0x5120, false).unwrap();
    assert_eq!(m.pc(), 0x208);
}

#[test]
fn load_and_add_immediate_wraps_without_flag() {
    let (mut m, mut s) = machine();
    set(&mut m, 0xF, 0x42);
    run(&mut m, &mut s, 0x61FF, false).unwrap();
    assert_eq!(reg(&m, 1), 0xFF);
    run(&mut m, &mut s, 0x7102, false).unwrap();
    assert_eq!(reg(&m, 1), 0x01);
    assert_eq!(reg(&m, 0xF), 0x42);
}

#[test]
fn jumps_and_index() {
    let (mut m, mut s) = machine();
    run(&mut m, &mut s, 0x1ABC, false).unwrap();
    assert_eq!(m.pc(), 0xABC);
    run(&mut m, &mut s, 0xA123, false).unwrap();
    assert_eq!(m.index_register(), 0x123);
    set(&mut m, 0, 1);
    set(&mut m, 2, 5);
    run(&mut m, &mut s, 0xB234, false).unwrap();
    assert_eq!(m.pc(), 0x239);
    run(&mut m, &mut s, 0xB234, true).unwrap();
    assert_eq!(m.pc(), 0x235);
}

#[test]
fn random_byte_is_masked() {
    let (mut m, mut s) = machine();
    execute(0xC10F, &mut s, &mut m, false, 0xAB).unwrap();
    assert_eq!(reg(&m, 1), 0x0B);
    set(&mut m, 2, 0x77);
    decode_and_execute(0xC200, &mut s, &mut m, false).unwrap();
    assert_eq!(reg(&m, 2), 0);
    for _ in 0..20 {
        decode_and_execute(0xC30F, &mut s, &mut m, false).unwrap();
        assert!(reg(&m, 3) <= 0x0F);
    }
}

#[test]
fn timer_opcodes() {
    let (mut m, mut s) = machine();
    set(&mut m, 1, 9);
    run(&mut m, &mut s, 0xF115, false).unwrap();
    assert_eq!(m.delay_register(), 9);
    run(&mut m, &mut s, 0xF118, false).unwrap();
    assert_eq!(m.sound_register(), 9);
    m.decrement_delay();
    run(&mut m, &mut s, 0xF207, false).unwrap();
    assert_eq!(reg(&m, 2), 8);
}

#[test]
fn add_to_index_flags_past_0fff() {
    let (mut m, mut s) = machine();
    m.set_index_register(0xFFF);
    set(&mut m, 1, 2);
    run(&mut m, &mut s, 0xF11E, false).unwrap();
    assert_eq!(m.index_register(), 0x1001);
    assert_eq!(reg(&m, 0xF), 1);
    set(&mut m, 0xF, 0);
    m.set_index_register(0x10);
    run(&mut m, &mut s, 0xF11E, false).unwrap();
    assert_eq!(m.index_register(), 0x12);
    assert_eq!(reg(&m, 0xF), 0);
    m.set_index_register(0xFFFF);
    run(&mut m, &mut s, 0xF11E, false).unwrap();
    assert_eq!(m.index_register(), 0x0001);
}

#[test]
fn register_block_store_and_load() {
    let (mut m, mut s) = machine();
    set(&mut m, 0, 1);
    set(&mut m, 1, 2);
    set(&mut m, 2, 3);
    set(&mut m, 3, 4);
    m.set_index_register(0x500);
    run(&mut m, &mut s, 0xF255, false).unwrap();
    assert_eq!(m.read_ram_cell(0x500), 1);
    assert_eq!(m.read_ram_cell(0x501), 2);
    assert_eq!(m.read_ram_cell(0x502), 3);
    assert_eq!(m.read_ram_cell(0x503), 0);
    assert_eq!(m.index_register(), 0x500);
    run(&mut m, &mut s, 0xF255, true).unwrap();
    assert_eq!(m.index_register(), 0x503);
    m.write_ram(0x600, &[9, 8, 7]);
    m.set_index_register(0x600);
    run(&mut m, &mut s, 0xF165, false).unwrap();
    assert_eq!(reg(&m, 0), 9);
    assert_eq!(reg(&m, 1), 8);
    assert_eq!(reg(&m, 2), 3);
    assert_eq!(m.index_register(), 0x600);
    run(&mut m, &mut s, 0xF265, true).unwrap();
    assert_eq!(reg(&m, 2), 7);
    assert_eq!(m.index_register(), 0x603);
}

#[test]
fn fetch_reads_big_endian_and_steps() {
    let mut m = Memory::new();
    m.write_ram(0x200, &[0x12, 0x34]);
    assert_eq!(fetch(&mut m), 0x1234);
    assert_eq!(m.pc(), 0x202);
}

#[test]
fn cycle_runs_program_and_reports_errors() {
    let (mut m, mut s) = machine();
    load_rom(&mut m, &[0x61, 0x05, 0x71, 0x03, 0x00, 0x00]);
    assert_eq!(m.read_ram_cell(0x200), 0x61);
    emulate_cycle(&mut m, &mut s, false).unwrap();
    emulate_cycle(&mut m, &mut s, false).unwrap();
    assert_eq!(reg(&m, 1), 8);
    assert_eq!(
        emulate_cycle(&mut m, &mut s, false),
        Err(InstructionError { opcode: 0x0000, error: Chip8Error::InvalidOpcode })
    );
    assert_eq!(m.pc(), 0x206);
}

#[test]
fn cycle_bounds_check() {
    let (mut m, s) = machine();
    assert!(can_emulate_cycle(&m, &s));
    m.jump_pc(0xFFF);
    assert!(!can_emulate_cycle(&m, &s));
    m.jump_pc(0x200);
    m.write_ram(0x200, &[0xF0, 0x33]);
    m.set_index_register(0xFFE);
    assert!(!can_emulate_cycle(&m, &s));
    m.set_index_register(0xFFD);
    assert!(can_emulate_cycle(&m, &s));
    m.write_ram(0x200, &[0xD0, 0x1F]);
    m.set_index_register(0xFF8);
    assert!(!can_emulate_cycle(&m, &s));
    m.set_index_register(0xFF1);
    assert!(can_emulate_cycle(&m, &s));
}

#[test]
fn timers_tick_only_when_interval_elapsed() {
    let mut m = Memory::new();
    m.set_delay_register(3);
    m.set_sounds_register(0);
    assert!(update_timers(&mut m, true));
    assert_eq!(m.delay_register(), 2);
    assert_eq!(m.sound_register(), 0);
    assert!(!update_timers(&mut m, false));
    assert_eq!(m.delay_register(), 2);
}

#[test]
fn writes_into_the_font_are_refused() {
    let (mut m, s) = machine();
    m.write_ram(0x200, &[0xF0, 0x33]);
    m.set_index_register(0x60);
    assert!(!can_emulate_cycle(&m, &s));
    m.set_index_register(0x4E);
    assert!(!can_emulate_cycle(&m, &s));
    m.set_index_register(0x4D);
    assert!(can_emulate_cycle(&m, &s));
    m.set_index_register(0xA0);
    assert!(can_emulate_cycle(&m, &s));
    m.write_ram(0x200, &[0xF2, 0x55]);
    m.set_index_register(0x4E);
    assert!(!can_emulate_cycle(&m, &s));
    m.write_ram(0x200, &[0xF2, 0x65]);
    assert!(can_emulate_cycle(&m, &s));
}

#[test]
fn font_stays_in_place_after_a_program_runs() {
    let (mut m, mut s) = machine();
    load_rom(&mut m, &[0x60, 0xFF, 0xA3, 0x00, 0xF0, 0x33, 0xF2, 0x55]);
    for _ in 0..3 {
        assert!(can_emulate_cycle(&m, &s));
        emulate_cycle(&mut m, &mut s, false).unwrap();
    }
    assert_eq!(m.read_ram_cell(0x300), 2);
    assert_eq!(m.read_ram_cell(0x302), 5);
    assert!(can_emulate_cycle(&m, &s));
    emulate_cycle(&mut m, &mut s, false).unwrap();
    assert_eq!(m.read_ram_cell(0x300), 0xFF);
    assert_eq!(m.read_ram_cell(0x50), 0xF0);
    assert_eq!(m.read_ram_cell(0x9F), 0x80);
}
