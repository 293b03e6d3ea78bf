//! The interpreter: fetch, decode and one handler per opcode family, each
//! proved to do what `semantics` says.

use vstd::prelude::*;
use crate::error::{Chip8Error, InstructionError};
use crate::memory::{Memory, MemoryView, overwrite, clear_of_font, FONT_BASE, RAM_SIZE};
use crate::screen::{Screen, ScreenView, PIXEL_COUNT};
use crate::semantics::{
    op_x, op_family, lemma_fields, with_reg, skipped, with_flag_then_reg, alu_spec, any_pressed,
    is_lowest_pressed, lowest_pressed, bcd_digits, advance_index, f_spec, f_in_bounds,
    key_skip_spec, zero_spec, sprite_hits, sprite_rows, drawn_pixels, collides, visible_rows,
    draw_spec, execute_spec, in_bounds, outcome_matches, opcode_at, fetched, cycle_in_bounds,
    cycle_spec,
};

verus! {

/// 8XY4: register X := X + Y; the flag is the carry out of eight bits.
fn add(memory: &mut Memory, x: u8, vx: u8, vy: u8)
    requires
        x < 16,
    ensures
        final(memory)@ == with_flag_then_reg(
            old(memory)@,
            if vx + vy > 255 { 1 } else { 0 },
            x,
            ((vx + vy) % 256) as u8,
        ),
{
    let res: u16 = vx as u16 + vy as u16;
    if res > 255 {
        let _ = memory.set_var_register(0xF, 1);
    } else {
        let _ = memory.set_var_register(0xF, 0);
    }
    let _ = memory.set_var_register(x, (res % 256) as u8);
}

/// 8XY5: register X := X - Y, wrapping; the flag is 1 when X > Y.
fn sub_x_y(memory: &mut Memory, x: u8, vx: u8, vy: u8)
    requires
        x < 16,
    ensures
        final(memory)@ == with_flag_then_reg(
            old(memory)@,
            if vx > vy { 1 } else { 0 },
            x,
            ((vx - vy + 256) % 256) as u8,
        ),
{
    let res: u8 = vx.wrapping_sub(vy);
    if vx > vy {
        let _ = memory.set_var_register(0xF, 1);
    } else {
        let _ = memory.set_var_register(0xF, 0);
    }
    let _ = memory.set_var_register(x, res);
}

/// 8XY7: register X := Y - X, wrapping; the flag is 1 when Y > X.
fn sub_y_x(memory: &mut Memory, x: u8, vx: u8, vy: u8)
    requires
        x < 16,
    ensures
        final(memory)@ == with_flag_then_reg(
            old(memory)@,
            if vy > vx { 1 } else { 0 },
            x,
            ((vy - vx + 256) % 256) as u8,
        ),
{
    let res: u8 = vy.wrapping_sub(vx);
    if vy > vx {
        let _ = memory.set_var_register(0xF, 1);
    } else {
        let _ = memory.set_var_register(0xF, 0);
    }
    let _ = memory.set_var_register(x, res);
}

/// 8XY6: shifts right by one the value of X, or in legacy mode that of Y;
/// the flag gets the bit shifted out.
fn shift_right(memory: &mut Memory, x: u8, vx: u8, vy: u8, old_instructions: bool)
    requires
        x < 16,
    ensures
        final(memory)@ == with_flag_then_reg(
            old(memory)@,
            (if old_instructions { vy } else { vx }) & 1,
            x,
            (if old_instructions { vy } else { vx }) >> 1,
        ),
{
    proof {
        memory.lemma_shape();
    }
    let mut value = vx;
    if old_instructions {
        let _ = memory.set_var_register(x, vy);
        value = vy;
    }
    let _ = memory.set_var_register(0xF, value & 1);
    let _ = memory.set_var_register(x, value >> 1);
    proof {
        let m0 = old(memory)@;
        let v = if old_instructions { vy } else { vx };
        if old_instructions {
            assert(memory@.regs =~= with_flag_then_reg(m0, v & 1, x, v >> 1).regs);
        }
    }
}

/// 8XYE: shifts left by one the value of X, or in legacy mode that of Y;
/// the flag gets the high bit in place (0 or 0x80).
fn shift_left(memory: &mut Memory, x: u8, vx: u8, vy: u8, old_instructions: bool)
    requires
        x < 16,
    ensures
        final(memory)@ == with_flag_then_reg(
            old(memory)@,
            (if old_instructions { vy } else { vx }) & 0x80,
            x,
            (((if old_instructions { vy } else { vx }) * 2) % 256) as u8,
        ),
{
    proof {
        memory.lemma_shape();
    }
    let mut value = vx;
    if old_instructions {
        let _ = memory.set_var_register(x, vy);
        value = vy;
    }
    let _ = memory.set_var_register(0xF, value & 0x80);
    let shifted: u8 = ((value as u16 * 2) % 256) as u8;
    let _ = memory.set_var_register(x, shifted);
    proof {
        let m0 = old(memory)@;
        let v = if old_instructions { vy } else { vx };
        if old_instructions {
            assert(memory@.regs =~= with_flag_then_reg(m0, v & 0x80, x, ((v * 2) % 256) as u8).regs);
        }
    }
}

/// The 8XY_ family: register-to-register logic and arithmetic.
fn basic_operations(op_code: u16, memory: &mut Memory, old_instructions: bool) -> (r: Result<(), Chip8Error>)
    requires
        op_family(op_code) == 0x8000,
    ensures
        match alu_spec(old(memory)@, op_code, old_instructions) {
            Ok(m) => r == Ok::<(), Chip8Error>(()) && final(memory)@ == m,
            Err(e) => r == Err::<(), Chip8Error>(e) && final(memory)@ == old(memory)@,
        },
{
    proof {
        lemma_fields(op_code);
        memory.lemma_shape();
    }
    let x = ((op_code & 0x0F00) >> 8) as u8;
    let y = ((op_code & 0x00F0) >> 4) as u8;
    let vx = match memory.get_var_register(x) {
        Ok(v) => v,
        Err(e) => return Err(e),
    };
    let vy = match memory.get_var_register(y) {
        Ok(v) => v,
        Err(e) => return Err(e),
    };
    let sub = op_code & 0x000F;
    if sub == 0 {
        memory.set_var_register(x, vy)
    } else if sub == 1 {
        memory.set_var_register(x, vx | vy)
    } else if sub == 2 {
        memory.set_var_register(x, vx & vy)
    } else if sub == 3 {
        memory.set_var_register(x, vx ^ vy)
    } else if sub == 4 {
        crate::engine::add(memory, x, vx, vy);
        Ok(())
    } else if sub == 5 {
        sub_x_y(memory, x, vx, vy);
        Ok(())
    } else if sub == 6 {
        shift_right(memory, x, vx, vy, old_instructions);
        Ok(())
    } else if sub == 7 {
        sub_y_x(memory, x, vx, vy);
        Ok(())
    } else if sub == 0xE {
        shift_left(memory, x, vx, vy, old_instructions);
        Ok(())
    } else {
        Err(Chip8Error::InvalidOpcode)
    }
}

/// FX65: registers 0 to X are loaded from RAM at the index register; legacy
/// mode then moves the index register past them.
fn load_registers(memory: &mut Memory, x: u8, old_instructions: bool)
    requires
        x < 16,
        old(memory)@.index + x + 1 <= RAM_SIZE,
    ensures
        final(memory)@ == advance_index(
            MemoryView {
                regs: old(memory)@.ram.subrange(old(memory)@.index as int, old(memory)@.index + x + 1)
                    + old(memory)@.regs.skip(x + 1),
                ..old(memory)@
            },
            x,
            old_instructions,
        ),
{
    proof {
        memory.lemma_shape();
    }
    let index = memory.index_register();
    let ghost m0 = memory@;
    let mut i: u8 = 0;
    assert(m0.regs =~= m0.ram.subrange(index as int, index as int) + m0.regs.skip(0));
    while i <= x
        invariant
            x < 16,
            i <= x + 1,
            index == m0.index,
            index + x + 1 <= RAM_SIZE,
            m0.regs.len() == 16,
            m0.ram.len() == RAM_SIZE,
            memory@ == (MemoryView {
                regs: m0.ram.subrange(index as int, index + i) + m0.regs.skip(i as int),
                ..m0
            }),
        decreases x + 1 - i,
    {
        let register = memory.read_ram_cell(index + i as u16);
        let _ = memory.set_var_register(i, register);
        assert(memory@.regs =~= m0.ram.subrange(index as int, index + i + 1) + m0.regs.skip(i + 1));
        i = i + 1;
    }
    if old_instructions {
        memory.set_index_register(index + x as u16 + 1u16);
    }
}

/// FX55: registers 0 to X are stored to RAM at the index register; legacy
/// mode then moves the index register past them.
fn store_registers(memory: &mut Memory, x: u8, old_instructions: bool)
    requires
        x < 16,
        old(memory)@.index + x + 1 <= RAM_SIZE,
        clear_of_font(old(memory)@.index as int, x + 1),
    ensures
        final(memory)@ == advance_index(
            MemoryView {
                ram: overwrite(old(memory)@.ram, old(memory)@.index as int, old(memory)@.regs.take(x + 1)),
                ..old(memory)@
            },
            x,
            old_instructions,
        ),
{
    proof {
        memory.lemma_shape();
    }
    let index = memory.index_register();
    let mut register_buffer: Vec<u8> = Vec::with_capacity(x as usize + 1);
    let mut i: u8 = 0;
    while i <= x
        invariant
            x < 16,
            i <= x + 1,
            memory@.regs.len() == 16,
            memory@ == old(memory)@,
            register_buffer@ == memory@.regs.take(i as int),
        decreases x + 1 - i,
    {
        let value = match memory.get_var_register(i) {
            Ok(v) => v,
            Err(_) => 0,
        };
        register_buffer.push(value);
        assert(register_buffer@ =~= memory@.regs.take(i + 1));
        i = i + 1;
    }
    memory.write_ram(index, register_buffer.as_slice());
    if old_instructions {
        memory.set_index_register(index + x as u16 + 1u16);
    }
}

/// FX33: the decimal digits of `vx` go to RAM at the index register,
/// hundreds first.
fn to_digits(memory: &mut Memory, vx: u8)
    requires
        old(memory)@.index + 3 <= RAM_SIZE,
        clear_of_font(old(memory)@.index as int, 3),
    ensures
        final(memory)@ == (MemoryView {
            ram: overwrite(old(memory)@.ram, old(memory)@.index as int, bcd_digits(vx)),
            ..old(memory)@
        }),
{
    let index_register = memory.index_register();
    let digits: [u8; 3] = [vx / 100, (vx / 10) % 10, vx % 10];
    assert(digits@ =~= bcd_digits(vx));
    memory.write_ram(index_register, &digits);
}

/// FX29: the index register points at the font sprite of the low nibble of
/// `vx`.
fn get_font_char(memory: &mut Memory, vx: u8)
    ensures
        final(memory)@ == (MemoryView { index: (FONT_BASE + 5 * (vx % 16)) as u16, ..old(memory)@ }),
{
    let char = vx & 0x0F;
    assert(vx & 0x0F == vx % 16) by (bit_vector);
    memory.set_index_register(FONT_BASE + 5 * char as u16)
}

/// FX0A: with a key down, register X gets the lowest-numbered one; with none,
/// the program counter steps back so that the instruction runs again.
fn wait_for_keyinput(memory: &mut Memory, screen: &Screen, x: u8)
    requires
        x < 16,
        !any_pressed(screen@.keys) ==> old(memory)@.pc >= 2,
    ensures
        any_pressed(screen@.keys) ==> final(memory)@ == with_reg(old(memory)@, x, lowest_pressed(screen@.keys) as u8),
        !any_pressed(screen@.keys) ==> final(memory)@ == (MemoryView { pc: (old(memory)@.pc - 2) as u16, ..old(memory)@ }),
{
    if screen.any_key_pressed() {
        let key = screen.get_pressed_key();
        proof {
            let k = key as int;
            assert(is_lowest_pressed(screen@.keys, k));
            let c = lowest_pressed(screen@.keys);
            if c != k {
                if c < k {
                    assert(!screen@.keys[c]);
                } else {
                    assert(!screen@.keys[k]);
                }
            }
        }
        let _ = memory.set_var_register(x, key);
    } else {
        memory.decrement_pc();
    }
}

/// FX1E: the index register gets `vx` added, kept to sixteen bits; the flag
/// is set when the sum passes 0x0FFF and left alone otherwise.
fn add_to_index(memory: &mut Memory, vx: u8)
    ensures
        final(memory)@ == (MemoryView {
            index: ((old(memory)@.index + vx) % 0x10000) as u16,
            ..(if old(memory)@.index + vx > 0x0FFF { with_reg(old(memory)@, 0xF, 1) } else { old(memory)@ })
        }),
{
    let res: u32 = memory.index_register() as u32 + vx as u32;
    if res > 0x0FFF {
        let _ = memory.set_var_register(0xF, 1);
    }
    memory.set_index_register((res % 0x10000) as u16);
}

/// The FX__ family: timers, index register, key wait, font, decimal digits
/// and register blocks.
fn f_instructions(
    op_code: u16,
    x: u8,
    memory: &mut Memory,
    screen: &Screen,
    old_instructions: bool,
) -> (r: Result<(), Chip8Error>)
    requires
        x == op_x(op_code),
        f_in_bounds(old(memory)@, screen@.keys, op_code),
    ensures
        match f_spec(old(memory)@, screen@.keys, op_code, old_instructions) {
            Ok(m) => r == Ok::<(), Chip8Error>(()) && final(memory)@ == m,
            Err(e) => r == Err::<(), Chip8Error>(e) && final(memory)@ == old(memory)@,
        },
{
    proof {
        lemma_fields(op_code);
    }
    let vx = match memory.get_var_register(x) {
        Ok(v) => v,
        Err(e) => return Err(e),
    };
    let delay_timer = memory.delay_register();
    let sub = op_code & 0x00FF;
    if sub == 0x0007 {
        memory.set_var_register(x, delay_timer)
    } else if sub == 0x0015 {
        memory.set_delay_register(vx);
        Ok(())
    } else if sub == 0x0018 {
        memory.set_sounds_register(vx);
        Ok(())
    } else if sub == 0x001E {
        add_to_index(memory, vx);
        Ok(())
    } else if sub == 0x000A {
        wait_for_keyinput(memory, screen, x);
        Ok(())
    } else if sub == 0x0029 {
        get_font_char(memory, vx);
        Ok(())
    } else if sub == 0x0033 {
        to_digits(memory, vx);
        Ok(())
    } else if sub == 0x0055 {
        store_registers(memory, x, old_instructions);
        Ok(())
    } else if sub == 0x0065 {
        load_registers(memory, x, old_instructions);
        Ok(())
    } else {
        Err(Chip8Error::InvalidOpcode)
    }
}

/// EX9E / EXA1: skips the next instruction when the key named by register X
/// is down / is up.
fn skip_if_key(opcode: u16, x: u8, memory: &mut Memory, screen: &Screen) -> (r: Result<(), Chip8Error>)
    requires
        x == op_x(opcode),
        old(memory)@.pc <= 0xFFFD,
    ensures
        match key_skip_spec(old(memory)@, screen@.keys, opcode) {
            Ok(m) => r == Ok::<(), Chip8Error>(()) && final(memory)@ == m,
            Err(e) => r == Err::<(), Chip8Error>(e) && final(memory)@ == old(memory)@,
        },
{
    proof {
        lemma_fields(opcode);
    }
    let sub = opcode & 0x00FF;
    if sub != 0x009E && sub != 0x00A1 {
        return Err(Chip8Error::InvalidOpcode);
    }
    let vx = match memory.get_var_register(x) {
        Ok(v) => v,
        Err(e) => return Err(e),
    };
    let is_pressed = match screen.key_state(vx) {
        Ok(p) => p,
        Err(e) => return Err(e),
    };
    if sub == 0x009E {
        if is_pressed {
            memory.increment_pc()
        }
    } else {
        if !is_pressed {
            memory.increment_pc()
        }
    }
    Ok(())
}

/// BNNN: jumps to NNN plus register 0 (legacy mode) or register X; a
/// register id above 0xF is refused.
fn jump_with_offset(memory: &mut Memory, x: u8, nnn: u16, old_instructions: bool) -> (r: Result<(), Chip8Error>)
    requires
        nnn < 4096,
    ensures
        !old_instructions && x > 15 ==> r == Err::<(), Chip8Error>(Chip8Error::OutOfRangeRegister(x))
            && final(memory)@ == old(memory)@,
        old_instructions || x <= 15 ==> r == Ok::<(), Chip8Error>(()) && final(memory)@ == (MemoryView {
            pc: (nnn + old(memory)@.regs[if old_instructions { 0int } else { x as int }]) as u16,
            ..old(memory)@
        }),
{
    let offset = if old_instructions {
        match memory.get_var_register(0) {
            Ok(v) => v,
            Err(e) => return Err(e),
        }
    } else {
        match memory.get_var_register(x) {
            Ok(v) => v,
            Err(e) => return Err(e),
        }
    };
    memory.jump_pc(nnn + offset as u16);
    Ok(())
}

/// 9XY0: skips the next instruction when registers X and Y differ; register
/// ids above 0xF are refused, X first.
fn skip_if_neq(x: u8, y: u8, memory: &mut Memory) -> (r: Result<(), Chip8Error>)
    requires
        old(memory)@.pc <= 0xFFFD,
    ensures
        x > 15 ==> r == Err::<(), Chip8Error>(Chip8Error::OutOfRangeRegister(x)) && final(memory)@ == old(memory)@,
        x <= 15 && y > 15 ==> r == Err::<(), Chip8Error>(Chip8Error::OutOfRangeRegister(y))
            && final(memory)@ == old(memory)@,
        x <= 15 && y <= 15 ==> r == Ok::<(), Chip8Error>(()) && final(memory)@ == if old(memory)@.regs[x as int]
            != old(memory)@.regs[y as int] {
            skipped(old(memory)@)
        } else {
            old(memory)@
        },
{
    let vx = match memory.get_var_register(x) {
        Ok(v) => v,
        Err(e) => return Err(e),
    };
    let vy = match memory.get_var_register(y) {
        Ok(v) => v,
        Err(e) => return Err(e),
    };
    if vx != vy {
        memory.increment_pc();
    }
    Ok(())
}

/// 5XY0: skips the next instruction when registers X and Y are equal;
/// register ids above 0xF are refused, X first.
fn skip_if_eq(x: u8, y: u8, memory: &mut Memory) -> (r: Result<(), Chip8Error>)
    requires
        old(memory)@.pc <= 0xFFFD,
    ensures
        x > 15 ==> r == Err::<(), Chip8Error>(Chip8Error::OutOfRangeRegister(x)) && final(memory)@ == old(memory)@,
        x <= 15 && y > 15 ==> r == Err::<(), Chip8Error>(Chip8Error::OutOfRangeRegister(y))
            && final(memory)@ == old(memory)@,
        x <= 15 && y <= 15 ==> r == Ok::<(), Chip8Error>(()) && final(memory)@ == if old(memory)@.regs[x as int]
            == old(memory)@.regs[y as int] {
            skipped(old(memory)@)
        } else {
            old(memory)@
        },
{
    let vx = match memory.get_var_register(x) {
        Ok(v) => v,
        Err(e) => return Err(e),
    };
    let vy = match memory.get_var_register(y) {
        Ok(v) => v,
        Err(e) => return Err(e),
    };
    if vx == vy {
        memory.increment_pc();
    }
    Ok(())
}

/// 4XNN: skips the next instruction when register X differs from NN; a
/// register id above 0xF is refused.
fn skip_if_neq_im(x: u8, nn: u8, memory: &mut Memory) -> (r: Result<(), Chip8Error>)
    requires
        old(memory)@.pc <= 0xFFFD,
    ensures
        x > 15 ==> r == Err::<(), Chip8Error>(Chip8Error::OutOfRangeRegister(x)) && final(memory)@ == old(memory)@,
        x <= 15 ==> r == Ok::<(), Chip8Error>(())
            && final(memory)@ == if old(memory)@.regs[x as int] != nn { skipped(old(memory)@) } else { old(memory)@ },
{
    let vx = match memory.get_var_register(x) {
        Ok(v) => v,
        Err(e) => return Err(e),
    };
    if vx != nn {
        memory.increment_pc();
    }
    Ok(())
}

/// 3XNN: skips the next instruction when register X equals NN; a register id
/// above 0xF is refused.
fn skip_if_eq_im(x: u8, nn: u8, memory: &mut Memory) -> (r: Result<(), Chip8Error>)
    requires
        old(memory)@.pc <= 0xFFFD,
    ensures
        x > 15 ==> r == Err::<(), Chip8Error>(Chip8Error::OutOfRangeRegister(x)) && final(memory)@ == old(memory)@,
        x <= 15 ==> r == Ok::<(), Chip8Error>(())
            && final(memory)@ == if old(memory)@.regs[x as int] == nn { skipped(old(memory)@) } else { old(memory)@ },
{
    let vx = match memory.get_var_register(x) {
        Ok(v) => v,
        Err(e) => return Err(e),
    };
    if vx == nn {
        memory.increment_pc();
    }
    Ok(())
}

/// 7XNN: adds NN to register X, wrapping, with the flag left alone; a
/// register id above 0xF is refused.
fn add_var_register(memory: &mut Memory, x: u8, nn: u8) -> (r: Result<(), Chip8Error>)
    ensures
        x > 15 ==> r == Err::<(), Chip8Error>(Chip8Error::OutOfRangeRegister(x)) && final(memory)@ == old(memory)@,
        x <= 15 ==> r == Ok::<(), Chip8Error>(())
            && final(memory)@ == with_reg(old(memory)@, x, ((old(memory)@.regs[x as int] + nn) % 256) as u8),
{
    let curr_var = match memory.get_var_register(x) {
        Ok(v) => v,
        Err(e) => return Err(e),
    };
    let result: u16 = nn as u16 + curr_var as u16;
    memory.set_var_register(x, (result % 256) as u8)
}

/// 00E0 clears the screen; 00EE returns from a subroutine.
fn zero_instructions(op_code: u16, screen: &mut Screen, memory: &mut Memory) -> (r: Result<(), Chip8Error>)
    ensures
        match zero_spec(old(memory)@, old(screen)@, op_code) {
            Ok((m, s)) => r == Ok::<(), Chip8Error>(()) && final(memory)@ == m && final(screen)@ == s,
            Err(e) => r == Err::<(), Chip8Error>(e) && final(memory)@ == old(memory)@ && final(screen)@ == old(screen)@,
        },
{
    if op_code == 0x00E0 {
        screen.clear();
        Ok(())
    } else if op_code == 0x00EE {
        let adress = match memory.pop_stack() {
            Ok(a) => a,
            Err(e) => return Err(e),
        };
        memory.jump_pc(adress);
        Ok(())
    } else {
        Err(Chip8Error::InvalidOpcode)
    }
}

/// 2NNN: pushes the program counter and jumps to NNN.
fn call_subroutine(nnn: u16, memory: &mut Memory)
    ensures
        final(memory)@ == (MemoryView { stack: old(memory)@.stack.push(old(memory)@.pc), pc: nnn, ..old(memory)@ }),
{
    let pc = memory.pc();
    memory.push_stack(pc);
    memory.jump_pc(nnn)
}

/// Pixel `i` comes before sprite position `(r, c)` in drawing order.
spec fn drawn_before(x_off: int, y_off: int, i: int, r: int, c: int) -> bool {
    let py = i / 64 - y_off;
    let px = i % 64 - x_off;
    py < r || (py == r && px < c)
}

/// The grid once the sprite positions before `(r, c)` have been drawn.
spec fn partial_pixels(p0: Seq<bool>, sprite: Seq<u8>, x_off: int, y_off: int, r: int, c: int) -> Seq<bool> {
    Seq::new(p0.len(), |i: int| p0[i] != (sprite_hits(sprite, x_off, y_off, i) && drawn_before(x_off, y_off, i, r, c)))
}

/// Whether a sprite position before `(r, c)` covered a pixel that was on.
spec fn partial_collides(p0: Seq<bool>, sprite: Seq<u8>, x_off: int, y_off: int, r: int, c: int) -> bool {
    exists|i: int|
        0 <= i < p0.len() && sprite_hits(sprite, x_off, y_off, i) && drawn_before(x_off, y_off, i, r, c) && p0[i]
}

/// Drawing position `(r, c)` reaches pixel `(x_off + c) + (y_off + r) * 64`
/// and no other.
proof fn lemma_draw_step(sprite: Seq<u8>, x_off: int, y_off: int, r: int, c: int)
    requires
        0 <= x_off < 64,
        0 <= y_off < 32,
        0 <= r < sprite.len(),
        y_off + r < 32,
        0 <= c < 8,
        x_off + c < 64,
    ensures
        ({
            let i0 = (x_off + c) + (y_off + r) * 64;
            &&& 0 <= i0 < PIXEL_COUNT
            &&& i0 % 64 == x_off + c
            &&& i0 / 64 == y_off + r
            &&& !drawn_before(x_off, y_off, i0, r, c)
            &&& drawn_before(x_off, y_off, i0, r, c + 1)
            &&& sprite_hits(sprite, x_off, y_off, i0) == (sprite[r] & (0x80u8 >> (c as u8)) != 0)
            &&& forall|i: int|
                i != i0 ==> (drawn_before(x_off, y_off, i, r, c + 1) == drawn_before(x_off, y_off, i, r, c))
        }),
{
    let i0 = (x_off + c) + (y_off + r) * 64;
    assert(i0 % 64 == x_off + c && i0 / 64 == y_off + r);
    assert forall|i: int| i != i0 implies (drawn_before(x_off, y_off, i, r, c + 1) == drawn_before(x_off, y_off, i, r, c)) by {
        if drawn_before(x_off, y_off, i, r, c + 1) && !drawn_before(x_off, y_off, i, r, c) {
            assert(i == 64 * (i / 64) + i % 64);
        }
    }
}

/// DXYN: XORs an `n`-row sprite from RAM at the index register onto the grid
/// at (register X mod 64, register Y mod 32), clipped at the right and bottom
/// edges; the flag reports whether a lit pixel was turned off.
fn draw_sprite(x: u8, y: u8, n: u8, memory: &mut Memory, screen: &mut Screen) -> (r: Result<(), Chip8Error>)
    requires
        x < 16,
        y < 16,
        old(memory)@.index + visible_rows(n, (old(memory)@.regs[y as int] % 32) as int) <= RAM_SIZE,
    ensures
        r == Ok::<(), Chip8Error>(()),
        (final(memory)@, final(screen)@) == draw_spec(old(memory)@, old(screen)@, x, y, n),
{
    proof {
        memory.lemma_shape();
    }
    let ghost m0 = memory@;
    let ghost s0 = screen@;
    let ghost p0 = screen@.pixels;
    let index_register = memory.index_register();
    let x_off = match memory.get_var_register(x) {
        Ok(v) => v % 64,
        Err(e) => return Err(e),
    };
    let y_off = match memory.get_var_register(y) {
        Ok(v) => v % 32,
        Err(e) => return Err(e),
    };
    let ghost sprite = sprite_rows(m0, n);
    let rows: u8 = if n < 32 - y_off { n } else { 32 - y_off };
    let cols: u8 = if 8 < 64 - x_off { 8 } else { 64 - x_off };
    let mut vf: u8 = 0;
    let mut row: u8 = 0;
    proof {
        assert(partial_pixels(p0, sprite, x_off as int, y_off as int, 0, 0) =~= p0);
        if partial_collides(p0, sprite, x_off as int, y_off as int, 0, 0) {
            let w = choose|i: int|
                0 <= i < p0.len() && sprite_hits(sprite, x_off as int, y_off as int, i)
                    && drawn_before(x_off as int, y_off as int, i, 0, 0) && p0[i];
            assert(false);
        }
    }
    while row < rows
        invariant
            memory@ == m0,
            index_register == m0.index,
            x_off < 64,
            y_off < 32,
            x_off == m0.regs[x as int] % 64,
            y_off == m0.regs[y as int] % 32,
            rows == visible_rows(n, y_off as int),
            cols == (if 8 < 64 - x_off { 8 } else { 64 - x_off }),
            m0.index + rows <= RAM_SIZE,
            m0.ram.len() == RAM_SIZE,
            sprite == sprite_rows(m0, n),
            row <= rows,
            screen@ == (ScreenView { pixels: partial_pixels(p0, sprite, x_off as int, y_off as int, row as int, 0), ..s0 }),
            vf == (if partial_collides(p0, sprite, x_off as int, y_off as int, row as int, 0) { 1u8 } else { 0u8 }),
        decreases rows - row,
    {
        let row_sprite_bits = memory.read_ram_cell(index_register + row as u16);
        assert(row_sprite_bits == sprite[row as int]);
        let y_cord = y_off + row;
        let mut col: u8 = 0;
        while col < cols
            invariant
                memory@ == m0,
                x_off < 64,
                y_off < 32,
                row < rows,
                rows == visible_rows(n, y_off as int),
                cols == (if 8 < 64 - x_off { 8 } else { 64 - x_off }),
                y_cord == y_off + row,
                row_sprite_bits == sprite[row as int],
                sprite == sprite_rows(m0, n),
                col <= cols,
                screen@ == (ScreenView { pixels: partial_pixels(p0, sprite, x_off as int, y_off as int, row as int, col as int), ..s0 }),
                vf == (if partial_collides(p0, sprite, x_off as int, y_off as int, row as int, col as int) { 1u8 } else { 0u8 }),
            decreases cols - col,
        {
            let x_cord = x_off + col;
            let ghost i0 = (x_cord as int) + (y_cord as int) * 64;
            proof {
                lemma_draw_step(sprite, x_off as int, y_off as int, row as int, col as int);
            }
            let ghost before = partial_pixels(p0, sprite, x_off as int, y_off as int, row as int, col as int);
            let ghost after = partial_pixels(p0, sprite, x_off as int, y_off as int, row as int, col as int + 1);
            let new_pixel = (row_sprite_bits & (128u8 >> col)) != 0;
            if new_pixel {
                let curr_pixel = match screen.get_pixel(x_cord, y_cord) {
                    Ok(p) => p,
                    Err(e) => return Err(e),
                };
                assert(curr_pixel == p0[i0]);
                if curr_pixel {
                    vf = 1;
                }
                let _ = screen.set_pixel(x_cord, y_cord, !curr_pixel);
                assert(screen@.pixels =~= after);
            } else {
                assert(before =~= after);
            }
            proof {
                let was = partial_collides(p0, sprite, x_off as int, y_off as int, row as int, col as int);
                let now = partial_collides(p0, sprite, x_off as int, y_off as int, row as int, col as int + 1);
                if was {
                    let w = choose|i: int|
                        0 <= i < p0.len() && sprite_hits(sprite, x_off as int, y_off as int, i)
                            && drawn_before(x_off as int, y_off as int, i, row as int, col as int) && p0[i];
                    assert(drawn_before(x_off as int, y_off as int, w, row as int, col as int + 1));
                }
                if now {
                    let w = choose|i: int|
                        0 <= i < p0.len() && sprite_hits(sprite, x_off as int, y_off as int, i)
                            && drawn_before(x_off as int, y_off as int, i, row as int, col as int + 1) && p0[i];
                    if w != i0 {
                        assert(drawn_before(x_off as int, y_off as int, w, row as int, col as int));
                    }
                }
                if new_pixel && p0[i0] {
                    assert(now);
                }
            }
            col = col + 1;
        }
        proof {
            let r = row as int;
            let c = cols as int;
            assert forall|i: int| sprite_hits(sprite, x_off as int, y_off as int, i)
                implies drawn_before(x_off as int, y_off as int, i, r, c) == drawn_before(x_off as int, y_off as int, i, r + 1, 0) by {}
            assert(partial_pixels(p0, sprite, x_off as int, y_off as int, r, c)
                =~= partial_pixels(p0, sprite, x_off as int, y_off as int, r + 1, 0));
            if partial_collides(p0, sprite, x_off as int, y_off as int, r, c) {
                let w = choose|i: int|
                    0 <= i < p0.len() && sprite_hits(sprite, x_off as int, y_off as int, i)
                        && drawn_before(x_off as int, y_off as int, i, r, c) && p0[i];
                assert(drawn_before(x_off as int, y_off as int, w, r + 1, 0));
            }
            if partial_collides(p0, sprite, x_off as int, y_off as int, r + 1, 0) {
                let w = choose|i: int|
                    0 <= i < p0.len() && sprite_hits(sprite, x_off as int, y_off as int, i)
                        && drawn_before(x_off as int, y_off as int, i, r + 1, 0) && p0[i];
                assert(drawn_before(x_off as int, y_off as int, w, r, c));
            }
        }
        row = row + 1;
    }
    proof {
        let r = rows as int;
        assert forall|i: int| sprite_hits(sprite, x_off as int, y_off as int, i)
            implies drawn_before(x_off as int, y_off as int, i, r, 0) by {}
        assert(partial_pixels(p0, sprite, x_off as int, y_off as int, r, 0)
            =~= drawn_pixels(p0, sprite, x_off as int, y_off as int));
        if collides(p0, sprite, x_off as int, y_off as int) {
            let w = choose|i: int| 0 <= i < p0.len() && sprite_hits(sprite, x_off as int, y_off as int, i) && p0[i];
            assert(drawn_before(x_off as int, y_off as int, w, r, 0));
        }
    }
    let _ = memory.set_var_register(0xF, vf);
    screen.draw();
    Ok(())
}

/// Relies on `rand::random`: a byte from the thread-local generator. Nothing
/// is known of its value.
#[verifier::external_body]
fn random_byte() -> u8 {
    rand::random::<u8>()
}

/// Runs one decoded instruction, with `random_byte` as the byte that CXNN
/// masks. An error leaves the machine and the screen as they were and is
/// tagged with the opcode.
pub fn execute(
    op_code: u16,
    screen: &mut Screen,
    memory: &mut Memory,
    old_instructions: bool,
    random_byte: u8,
) -> (r: Result<(), InstructionError>)
    requires
        in_bounds(old(memory)@, old(screen)@, op_code),
    ensures
        outcome_matches(
            execute_spec(old(memory)@, old(screen)@, op_code, old_instructions, random_byte),
            op_code,
            old(memory)@,
            old(screen)@,
            final(memory)@,
            final(screen)@,
            r,
        ),
{
    proof {
        lemma_fields(op_code);
        memory.lemma_shape();
    }
    let x = ((op_code & 0x0F00) >> 8) as u8;
    let y = ((op_code & 0x00F0) >> 4) as u8;
    let n = (op_code & 0x000F) as u8;
    let nn = (op_code & 0x00FF) as u8;
    let nnn = op_code & 0x0FFF;
    let family = op_code & 0xF000;
    let res: Result<(), Chip8Error> = if family == 0x0000 {
        zero_instructions(op_code, screen, memory)
    } else if family == 0x1000 {
        memory.jump_pc(nnn);
        Ok(())
    } else if family == 0x2000 {
        call_subroutine(nnn, memory);
        Ok(())
    } else if family == 0x3000 {
        skip_if_eq_im(x, nn, memory)
    } else if family == 0x4000 {
        skip_if_neq_im(x, nn, memory)
    } else if family == 0x5000 {
        skip_if_eq(x, y, memory)
    } else if family == 0x6000 {
        memory.set_var_register(x, nn)
    } else if family == 0x7000 {
        add_var_register(memory, x, nn)
    } else if family == 0x8000 {
        basic_operations(op_code, memory, old_instructions)
    } else if family == 0x9000 {
        skip_if_neq(x, y, memory)
    } else if family == 0xA000 {
        memory.set_index_register(nnn);
        Ok(())
    } else if family == 0xB000 {
        jump_with_offset(memory, x, nnn, old_instructions)
    } else if family == 0xC000 {
        memory.set_var_register(x, random_byte & nn)
    } else if family == 0xD000 {
        draw_sprite(x, y, n, memory, screen)
    } else if family == 0xE000 {
        skip_if_key(op_code, x, memory, screen)
    } else if family == 0xF000 {
        f_instructions(op_code, x, memory, screen, old_instructions)
    } else {
        Err(Chip8Error::InvalidOpcode)
    };
    match res {
        Ok(()) => Ok(()),
        Err(error) => Err(InstructionError { opcode: op_code, error }),
    }
}

/// Runs one decoded instruction; CXNN draws its byte from the random number
/// generator. What follows holds for the byte that was drawn.
pub fn decode_and_execute(
    op_code: u16,
    screen: &mut Screen,
    memory: &mut Memory,
    old_instructions: bool,
) -> (r: Result<(), InstructionError>)
    requires
        in_bounds(old(memory)@, old(screen)@, op_code),
    ensures
        exists|b: u8|
            outcome_matches(
                #[trigger] execute_spec(old(memory)@, old(screen)@, op_code, old_instructions, b),
                op_code,
                old(memory)@,
                old(screen)@,
                final(memory)@,
                final(screen)@,
                r,
            ),
{
    let byte = if op_code & 0xF000 == 0xC000 {
        random_byte()
    } else {
        0
    };
    let r = execute(op_code, screen, memory, old_instructions, byte);
    assert(outcome_matches(
        execute_spec(old(memory)@, old(screen)@, op_code, old_instructions, byte),
        op_code,
        old(memory)@,
        old(screen)@,
        memory@,
        screen@,
        r,
    ));
    r
}

/// Reads the opcode at the program counter and steps the counter past it.
pub fn fetch(memory: &mut Memory) -> (r: u16)
    requires
        old(memory)@.pc + 1 < RAM_SIZE,
    ensures
        r == opcode_at(old(memory)@),
        final(memory)@ == fetched(old(memory)@),
{
    let ins_mem = memory.fetch_instruction();
    memory.increment_pc();
    ((ins_mem.0 as u16) << 8) | (ins_mem.1 as u16)
}

/// One fetch/decode/execute cycle. The counter is stepped before the
/// instruction runs, so an error leaves the machine as the fetch left it.
pub fn emulate_cycle(memory: &mut Memory, screen: &mut Screen, old_instructions: bool) -> (r: Result<(), InstructionError>)
    requires
        cycle_in_bounds(old(memory)@, old(screen)@),
    ensures
        exists|b: u8|
            outcome_matches(
                #[trigger] cycle_spec(old(memory)@, old(screen)@, old_instructions, b),
                opcode_at(old(memory)@),
                fetched(old(memory)@),
                old(screen)@,
                final(memory)@,
                final(screen)@,
                r,
            ),
{
    let op_code = fetch(memory);
    let r = decode_and_execute(op_code, screen, memory, old_instructions);
    proof {
        let b = choose|b: u8|
            outcome_matches(
                #[trigger] execute_spec(fetched(old(memory)@), old(screen)@, op_code, old_instructions, b),
                op_code,
                fetched(old(memory)@),
                old(screen)@,
                memory@,
                screen@,
                r,
            );
        assert(cycle_spec(old(memory)@, old(screen)@, old_instructions, b)
            == execute_spec(fetched(old(memory)@), old(screen)@, op_code, old_instructions, b));
    }
    r
}

/// Whether the next cycle stays in bounds, so that `emulate_cycle` may run.
pub fn can_emulate_cycle(memory: &Memory, screen: &Screen) -> (r: bool)
    ensures
        r == cycle_in_bounds(memory@, screen@),
{
    proof {
        memory.lemma_shape();
    }
    let pc = memory.pc();
    if pc >= 4095 {
        return false;
    }
    let ins_mem = memory.fetch_instruction();
    let op_code = ((ins_mem.0 as u16) << 8) | (ins_mem.1 as u16);
    proof {
        lemma_fields(op_code);
    }
    let next_pc: u32 = pc as u32 + 2;
    let family = op_code & 0xF000;
    let index = memory.index_register() as u32;
    if family == 0x3000 || family == 0x4000 || family == 0x5000 || family == 0x9000 || family == 0xE000 {
        next_pc <= 0xFFFD
    } else if family == 0xD000 {
        let y = ((op_code & 0x00F0) >> 4) as u8;
        let n = (op_code & 0x000F) as u8;
        let y_off = match memory.get_var_register(y) {
            Ok(v) => v % 32,
            Err(_) => 0,
        };
        let rows: u32 = if n < 32 - y_off { n as u32 } else { (32 - y_off) as u32 };
        index + rows <= 4096
    } else if family == 0xF000 {
        let x = ((op_code & 0x0F00) >> 8) as u32;
        let sub = op_code & 0x00FF;
        if sub == 0x0033 {
            index + 3 <= 4096 && (index >= 0xA0 || index + 3 <= 0x50)
        } else if sub == 0x0055 {
            index + x + 1 <= 4096 && (index >= 0xA0 || index + x + 1 <= 0x50)
        } else if sub == 0x0065 {
            index + x + 1 <= 4096
        } else if sub == 0x000A {
            screen.any_key_pressed() || next_pc >= 2
        } else {
            true
        }
    } else {
        true
    }
}

/// The 60 Hz timer step: when a tick interval has passed both timers count
/// down (stopping at zero) and the tick clock is to be restarted, so that the
/// next step waits a whole interval again; otherwise nothing changes. Returns
/// whether the tick clock should be restarted.
pub fn update_timers(memory: &mut Memory, interval_elapsed: bool) -> (restart: bool)
    ensures
        restart == interval_elapsed,
        interval_elapsed ==> final(memory)@ == (MemoryView {
            delay: if old(memory)@.delay == 0 { 0 } else { (old(memory)@.delay - 1) as u8 },
            sound: if old(memory)@.sound == 0 { 0 } else { (old(memory)@.sound - 1) as u8 },
            ..old(memory)@
        }),
        !interval_elapsed ==> final(memory)@ == old(memory)@,
{
    if interval_elapsed {
        memory.decrement_delay();
        memory.decrement_sound();
        true
    } else {
        false
    }
}

/// Copies a program into RAM at the program counter; it must fit and keep
/// clear of the font.
pub fn load_rom(memory: &mut Memory, rom: &[u8])
    requires
        old(memory)@.pc + rom@.len() <= RAM_SIZE,
        clear_of_font(old(memory)@.pc as int, rom@.len() as int),
    ensures
        final(memory)@ == (MemoryView { ram: overwrite(old(memory)@.ram, old(memory)@.pc as int, rom@), ..old(memory)@ }),
{
    let pc = memory.pc();
    memory.write_ram(pc, rom);
}

} // verus!
