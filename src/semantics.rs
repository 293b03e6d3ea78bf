//! What each opcode does, stated over the abstract machine and screen, and
//! the laws that follow from it.

use vstd::prelude::*;
use crate::error::{Chip8Error, InstructionError};
use crate::memory::{
    MemoryView, overwrite, clear_of_font, font_intact, font_sprites, lemma_overwrite_keeps_font, FONT_BASE,
    RAM_SIZE,
};
use crate::screen::{ScreenView, PIXEL_COUNT};

verus! {

/// Second nibble of an opcode: a register id.
pub open spec fn op_x(op: u16) -> u8 {
    ((op & 0x0F00) >> 8) as u8
}

/// Third nibble of an opcode: a register id.
pub open spec fn op_y(op: u16) -> u8 {
    ((op & 0x00F0) >> 4) as u8
}

/// Fourth nibble of an opcode.
pub open spec fn op_n(op: u16) -> u8 {
    (op & 0x000F) as u8
}

/// Low byte of an opcode.
pub open spec fn op_nn(op: u16) -> u8 {
    (op & 0x00FF) as u8
}

/// Low three nibbles of an opcode: an address.
pub open spec fn op_nnn(op: u16) -> u16 {
    op & 0x0FFF
}

/// Top nibble of an opcode, in place: the instruction family.
pub open spec fn op_family(op: u16) -> u16 {
    op & 0xF000
}

/// Every field that decoding takes out of an opcode is in range.
pub proof fn lemma_fields(op: u16)
    ensures
        op_x(op) < 16,
        op_y(op) < 16,
        op_n(op) < 16,
        op_nnn(op) < 4096,
        (op & 0x0F00) >> 8 < 16,
        (op & 0x00F0) >> 4 < 16,
        op & 0x000F < 16,
        op & 0x00FF < 256,
{
    assert(op & 0x00FF < 256) by (bit_vector);
    assert((op & 0x0F00) >> 8 < 16) by (bit_vector);
    assert((op & 0x00F0) >> 4 < 16) by (bit_vector);
    assert(op & 0x000F < 16) by (bit_vector);
    assert(op & 0x0FFF < 4096) by (bit_vector);
}

/// `m` with register `x` set to `v`.
pub open spec fn with_reg(m: MemoryView, x: u8, v: u8) -> MemoryView {
    MemoryView { regs: m.regs.update(x as int, v), ..m }
}

/// `m` with the next instruction skipped.
pub open spec fn skipped(m: MemoryView) -> MemoryView {
    MemoryView { pc: (m.pc + 2) as u16, ..m }
}

/// `m` with the flag register set to `flag`, then register `x` to `v`.
pub open spec fn with_flag_then_reg(m: MemoryView, flag: u8, x: u8, v: u8) -> MemoryView {
    with_reg(with_reg(m, 0xF, flag), x, v)
}

/// What `8XY_` does, in mode `legacy`, with `vx` and `vy` the two registers.
pub open spec fn alu_spec(m: MemoryView, op: u16, legacy: bool) -> Result<MemoryView, Chip8Error> {
    let x = op_x(op);
    let vx = m.regs[x as int];
    let vy = m.regs[op_y(op) as int];
    let shifted = if legacy { vy } else { vx };
    let sub = op_n(op);
    if sub == 0 {
        Ok(with_reg(m, x, vy))
    } else if sub == 1 {
        Ok(with_reg(m, x, vx | vy))
    } else if sub == 2 {
        Ok(with_reg(m, x, vx & vy))
    } else if sub == 3 {
        Ok(with_reg(m, x, vx ^ vy))
    } else if sub == 4 {
        Ok(with_flag_then_reg(m, if vx + vy > 255 { 1 } else { 0 }, x, ((vx + vy) % 256) as u8))
    } else if sub == 5 {
        Ok(with_flag_then_reg(m, if vx > vy { 1 } else { 0 }, x, ((vx - vy + 256) % 256) as u8))
    } else if sub == 6 {
        Ok(with_flag_then_reg(m, shifted & 1, x, shifted >> 1))
    } else if sub == 7 {
        Ok(
            with_flag_then_reg(
                m,
                if vy > vx { 1 } else { 0 },
                x,
                ((vy - vx + 256) % 256) as u8,
            ),
        )
    } else if sub == 0xE {
        Ok(with_flag_then_reg(m, shifted & 0x80, x, ((shifted * 2) % 256) as u8))
    } else {
        Err(Chip8Error::InvalidOpcode)
    }
}

/// Whether any key is down.
pub open spec fn any_pressed(keys: Seq<bool>) -> bool {
    exists|k: int| 0 <= k < 16 && keys[k]
}

/// Whether `k` is the lowest-numbered key that is down.
pub open spec fn is_lowest_pressed(keys: Seq<bool>, k: int) -> bool {
    0 <= k < 16 && keys[k] && forall|j: int| 0 <= j < k ==> !keys[j]
}

/// The lowest-numbered key that is down (meaningful when one is).
pub open spec fn lowest_pressed(keys: Seq<bool>) -> int {
    choose|k: int| is_lowest_pressed(keys, k)
}

/// The hundreds, tens and ones digits of `v`.
pub open spec fn bcd_digits(v: u8) -> Seq<u8> {
    seq![v / 100, (v / 10) % 10, v % 10]
}

/// `m` with the index register moved past a block of `x + 1` registers, in
/// legacy mode only.
pub open spec fn advance_index(m: MemoryView, x: u8, legacy: bool) -> MemoryView {
    if legacy {
        MemoryView { index: (m.index + x + 1) as u16, ..m }
    } else {
        m
    }
}

/// What `FX__` does, in mode `legacy`, with the keypad in `keys`.
pub open spec fn f_spec(m: MemoryView, keys: Seq<bool>, op: u16, legacy: bool) -> Result<MemoryView, Chip8Error> {
    let x = op_x(op);
    let vx = m.regs[x as int];
    let sub = op_nn(op);
    if sub == 0x07 {
        Ok(with_reg(m, x, m.delay))
    } else if sub == 0x15 {
        Ok(MemoryView { delay: vx, ..m })
    } else if sub == 0x18 {
        Ok(MemoryView { sound: vx, ..m })
    } else if sub == 0x1E {
        let sum = m.index + vx;
        let flagged = if sum > 0x0FFF { with_reg(m, 0xF, 1) } else { m };
        Ok(MemoryView { index: (sum % 0x10000) as u16, ..flagged })
    } else if sub == 0x0A {
        if any_pressed(keys) {
            Ok(with_reg(m, x, lowest_pressed(keys) as u8))
        } else {
            Ok(MemoryView { pc: (m.pc - 2) as u16, ..m })
        }
    } else if sub == 0x29 {
        Ok(MemoryView { index: (FONT_BASE + 5 * (vx % 16)) as u16, ..m })
    } else if sub == 0x33 {
        Ok(MemoryView { ram: overwrite(m.ram, m.index as int, bcd_digits(vx)), ..m })
    } else if sub == 0x55 {
        Ok(advance_index(MemoryView { ram: overwrite(m.ram, m.index as int, m.regs.take(x + 1)), ..m }, x, legacy))
    } else if sub == 0x65 {
        Ok(
            advance_index(
                MemoryView { regs: m.ram.subrange(m.index as int, m.index + x + 1) + m.regs.skip(x + 1), ..m },
                x,
                legacy,
            ),
        )
    } else {
        Err(Chip8Error::InvalidOpcode)
    }
}

/// The memory accesses of an `FX__` opcode stay inside RAM, its writes keep
/// clear of the font, and a key-wait
/// that finds no key down can step the program counter back.
pub open spec fn f_in_bounds(m: MemoryView, keys: Seq<bool>, op: u16) -> bool {
    let sub = op_nn(op);
    &&& sub == 0x33 ==> m.index + 3 <= RAM_SIZE && clear_of_font(m.index as int, 3)
    &&& (sub == 0x55 || sub == 0x65) ==> m.index + op_x(op) + 1 <= RAM_SIZE
    &&& sub == 0x55 ==> clear_of_font(m.index as int, op_x(op) + 1)
    &&& (sub == 0x0A && !any_pressed(keys)) ==> m.pc >= 2
}

/// What `EX__` does with the keypad in `keys`.
pub open spec fn key_skip_spec(m: MemoryView, keys: Seq<bool>, op: u16) -> Result<MemoryView, Chip8Error> {
    let key = m.regs[op_x(op) as int];
    let sub = op_nn(op);
    if sub != 0x9E && sub != 0xA1 {
        Err(Chip8Error::InvalidOpcode)
    } else if key > 15 {
        Err(Chip8Error::OutOfRangeKey(key))
    } else if sub == 0x9E {
        Ok(if keys[key as int] { skipped(m) } else { m })
    } else {
        Ok(if !keys[key as int] { skipped(m) } else { m })
    }
}

/// What `00E0` and `00EE` do.
pub open spec fn zero_spec(m: MemoryView, s: ScreenView, op: u16) -> Result<(MemoryView, ScreenView), Chip8Error> {
    if op == 0x00E0 {
        Ok((m, cleared(s)))
    } else if op == 0x00EE {
        if m.stack.len() == 0 {
            Err(Chip8Error::EmptyStack)
        } else {
            Ok((MemoryView { stack: m.stack.drop_last(), pc: m.stack.last(), ..m }, s))
        }
    } else {
        Err(Chip8Error::InvalidOpcode)
    }
}

/// `s` with every pixel off and a frame to present.
pub open spec fn cleared(s: ScreenView) -> ScreenView {
    ScreenView { pixels: Seq::new(PIXEL_COUNT as nat, |i: int| false), frame_pending: true, ..s }
}

/// Whether pixel `i` lies under a set bit of `sprite` drawn with its top-left
/// corner at `(x_off, y_off)`. Nothing wraps: rows and columns that would
/// fall off the grid are clipped.
pub open spec fn sprite_hits(sprite: Seq<u8>, x_off: int, y_off: int, i: int) -> bool {
    let px = i % 64;
    let py = i / 64;
    &&& 0 <= i < PIXEL_COUNT
    &&& y_off <= py < y_off + sprite.len()
    &&& x_off <= px < x_off + 8
    &&& sprite[py - y_off] & (0x80u8 >> ((px - x_off) as u8)) != 0
}

/// The `n` sprite rows that DXYN reads from RAM at the index register.
pub open spec fn sprite_rows(m: MemoryView, n: u8) -> Seq<u8> {
    Seq::new(n as nat, |r: int| m.ram[m.index + r])
}

/// The grid after XOR-ing the sprite onto `pixels`.
pub open spec fn drawn_pixels(pixels: Seq<bool>, sprite: Seq<u8>, x_off: int, y_off: int) -> Seq<bool> {
    Seq::new(pixels.len(), |i: int| pixels[i] != sprite_hits(sprite, x_off, y_off, i))
}

/// Whether the sprite covers a pixel that was already on.
pub open spec fn collides(pixels: Seq<bool>, sprite: Seq<u8>, x_off: int, y_off: int) -> bool {
    exists|i: int| 0 <= i < pixels.len() && sprite_hits(sprite, x_off, y_off, i) && pixels[i]
}

/// Number of sprite rows that fit on the grid below row `y_off`.
pub open spec fn visible_rows(n: u8, y_off: int) -> int {
    if n < 32 - y_off { n as int } else { 32 - y_off }
}

/// What DXYN does: sprite of `n` rows at (register X mod 64, register Y mod 32).
pub open spec fn draw_spec(m: MemoryView, s: ScreenView, x: u8, y: u8, n: u8) -> (MemoryView, ScreenView) {
    let sprite = sprite_rows(m, n);
    let x_off = (m.regs[x as int] % 64) as int;
    let y_off = (m.regs[y as int] % 32) as int;
    (
        with_reg(m, 0xF, if collides(s.pixels, sprite, x_off, y_off) { 1 } else { 0 }),
        ScreenView { pixels: drawn_pixels(s.pixels, sprite, x_off, y_off), frame_pending: true, ..s },
    )
}

/// What one instruction does to the machine and the screen, or the error it
/// raises; `rnd` is the random byte that CXNN would use.
pub open spec fn execute_spec(
    m: MemoryView,
    s: ScreenView,
    op: u16,
    legacy: bool,
    rnd: u8,
) -> Result<(MemoryView, ScreenView), Chip8Error> {
    let x = op_x(op);
    let nn = op_nn(op);
    let nnn = op_nnn(op);
    let vx = m.regs[x as int];
    let vy = m.regs[op_y(op) as int];
    let family = op_family(op);
    if family == 0x0000 {
        zero_spec(m, s, op)
    } else if family == 0x1000 {
        Ok((MemoryView { pc: nnn, ..m }, s))
    } else if family == 0x2000 {
        Ok((MemoryView { stack: m.stack.push(m.pc), pc: nnn, ..m }, s))
    } else if family == 0x3000 {
        Ok((if vx == nn { skipped(m) } else { m }, s))
    } else if family == 0x4000 {
        Ok((if vx != nn { skipped(m) } else { m }, s))
    } else if family == 0x5000 {
        Ok((if vx == vy { skipped(m) } else { m }, s))
    } else if family == 0x6000 {
        Ok((with_reg(m, x, nn), s))
    } else if family == 0x7000 {
        Ok((with_reg(m, x, ((vx + nn) % 256) as u8), s))
    } else if family == 0x8000 {
        match alu_spec(m, op, legacy) {
            Ok(m2) => Ok((m2, s)),
            Err(e) => Err(e),
        }
    } else if family == 0x9000 {
        Ok((if vx != vy { skipped(m) } else { m }, s))
    } else if family == 0xA000 {
        Ok((MemoryView { index: nnn, ..m }, s))
    } else if family == 0xB000 {
        Ok((MemoryView { pc: (nnn + m.regs[if legacy { 0int } else { x as int }]) as u16, ..m }, s))
    } else if family == 0xC000 {
        Ok((with_reg(m, x, rnd & nn), s))
    } else if family == 0xD000 {
        Ok(draw_spec(m, s, x, op_y(op), op_n(op)))
    } else if family == 0xE000 {
        match key_skip_spec(m, s.keys, op) {
            Ok(m2) => Ok((m2, s)),
            Err(e) => Err(e),
        }
    } else if family == 0xF000 {
        match f_spec(m, s.keys, op, legacy) {
            Ok(m2) => Ok((m2, s)),
            Err(e) => Err(e),
        }
    } else {
        Err(Chip8Error::InvalidOpcode)
    }
}

/// The instruction stays inside RAM and inside the program counter's range:
/// a skip can step the counter, a draw, a digit store or a register block
/// fits in RAM from the index register on, and a key-wait can step back.
pub open spec fn in_bounds(m: MemoryView, s: ScreenView, op: u16) -> bool {
    let family = op_family(op);
    &&& (family == 0x3000 || family == 0x4000 || family == 0x5000 || family == 0x9000 || family == 0xE000)
        ==> m.pc <= 0xFFFD
    &&& family == 0xD000 ==> m.index + visible_rows(op_n(op), (m.regs[op_y(op) as int] % 32) as int) <= RAM_SIZE
    &&& family == 0xF000 ==> f_in_bounds(m, s.keys, op)
}

/// The state after an instruction agrees with `expected`; on an error the
/// state is as it was and the error carries the opcode.
pub open spec fn outcome_matches(
    expected: Result<(MemoryView, ScreenView), Chip8Error>,
    op: u16,
    m_before: MemoryView,
    s_before: ScreenView,
    m_after: MemoryView,
    s_after: ScreenView,
    r: Result<(), InstructionError>,
) -> bool {
    match expected {
        Ok((m, s)) => r == Ok::<(), InstructionError>(()) && m_after == m && s_after == s,
        Err(e) => r == Err::<(), InstructionError>(InstructionError { opcode: op, error: e })
            && m_after == m_before && s_after == s_before,
    }
}

/// The opcode stored at the program counter, high byte first.
pub open spec fn opcode_at(m: MemoryView) -> u16 {
    ((m.ram[m.pc as int] as u16) << 8) | (m.ram[m.pc + 1] as u16)
}

/// `m` once the opcode at the program counter has been fetched.
pub open spec fn fetched(m: MemoryView) -> MemoryView {
    MemoryView { pc: (m.pc + 2) as u16, ..m }
}

/// A whole cycle can run: the opcode lies inside RAM and, once fetched,
/// stays in bounds.
pub open spec fn cycle_in_bounds(m: MemoryView, s: ScreenView) -> bool {
    m.pc + 1 < RAM_SIZE && in_bounds(fetched(m), s, opcode_at(m))
}

/// What one fetch/decode/execute cycle does, with `rnd` as the random byte.
pub open spec fn cycle_spec(m: MemoryView, s: ScreenView, legacy: bool, rnd: u8) -> Result<(MemoryView, ScreenView), Chip8Error> {
    execute_spec(fetched(m), s, opcode_at(m), legacy, rnd)
}

/// When some key is down, a lowest-numbered one exists.
proof fn lemma_lowest_exists(keys: Seq<bool>, k: int)
    requires
        0 <= k < 16,
        keys[k],
    ensures
        is_lowest_pressed(keys, lowest_pressed(keys)),
    decreases k,
{
    if exists|j: int| 0 <= j < k && keys[j] {
        let j = choose|j: int| 0 <= j < k && keys[j];
        lemma_lowest_exists(keys, j);
    } else {
        assert(is_lowest_pressed(keys, k));
    }
}

/// Drawing the same sprite twice at the same place gives the grid back, and
/// the second draw reports a collision exactly when the sprite covers a pixel
/// that was off before the first draw (the first draw lit it).
pub proof fn lemma_draw_twice(m: MemoryView, s: ScreenView, x: u8, y: u8, n: u8)
    requires
        m.regs.len() == 16,
        x < 15,
        y < 15,
    ensures
        ({
            let (m1, s1) = draw_spec(m, s, x, y, n);
            let (m2, s2) = draw_spec(m1, s1, x, y, n);
            let sprite = sprite_rows(m, n);
            let x_off = (m.regs[x as int] % 64) as int;
            let y_off = (m.regs[y as int] % 32) as int;
            &&& s2.pixels == s.pixels
            &&& m2.regs[0xF] == (if exists|i: int|
                0 <= i < s.pixels.len() && sprite_hits(sprite, x_off, y_off, i) && !s.pixels[i] { 1u8 } else { 0u8 })
        }),
{
    let (m1, s1) = draw_spec(m, s, x, y, n);
    let (m2, s2) = draw_spec(m1, s1, x, y, n);
    let sprite = sprite_rows(m, n);
    let x_off = (m.regs[x as int] % 64) as int;
    let y_off = (m.regs[y as int] % 32) as int;
    assert(sprite_rows(m1, n) =~= sprite);
    assert(m1.regs[x as int] == m.regs[x as int]);
    assert(m1.regs[y as int] == m.regs[y as int]);
    assert(s2.pixels =~= s.pixels);
    let lit = exists|i: int| 0 <= i < s.pixels.len() && sprite_hits(sprite, x_off, y_off, i) && !s.pixels[i];
    if lit {
        let w = choose|i: int| 0 <= i < s.pixels.len() && sprite_hits(sprite, x_off, y_off, i) && !s.pixels[i];
        assert(s1.pixels[w]);
    }
    if collides(s1.pixels, sprite, x_off, y_off) {
        let w = choose|i: int| 0 <= i < s1.pixels.len() && sprite_hits(sprite, x_off, y_off, i) && s1.pixels[i];
        assert(!s.pixels[w]);
    }
}

/// A key-wait (FX0A) with no key down leaves the machine exactly as it was
/// over a whole cycle: the fetch steps the counter forward by 2 and the
/// instruction steps it back. With a key down the counter moves on by 2 and
/// register X gets the lowest-numbered key that is down.
pub proof fn lemma_key_wait_cycle(m: MemoryView, s: ScreenView, legacy: bool, rnd: u8)
    requires
        m.regs.len() == 16,
        s.keys.len() == 16,
        m.pc + 1 < RAM_SIZE,
        op_family(opcode_at(m)) == 0xF000,
        op_nn(opcode_at(m)) == 0x0A,
    ensures
        !any_pressed(s.keys) ==> cycle_spec(m, s, legacy, rnd) == Ok::<(MemoryView, ScreenView), Chip8Error>((m, s)),
        any_pressed(s.keys) ==> ({
            let k = lowest_pressed(s.keys);
            &&& is_lowest_pressed(s.keys, k)
            &&& fetched(m).pc == m.pc + 2
            &&& cycle_spec(m, s, legacy, rnd) == Ok::<(MemoryView, ScreenView), Chip8Error>(
                (with_reg(fetched(m), op_x(opcode_at(m)), k as u8), s),
            )
        }),
{
    if any_pressed(s.keys) {
        let k = choose|k: int| 0 <= k < 16 && s.keys[k];
        lemma_lowest_exists(s.keys, k);
    }
}

/// 8XY6 in legacy mode shifts a copy of register Y: X gets Y >> 1 and the
/// flag gets Y's low bit. In modern mode Y is never read: X gets X >> 1 and
/// the flag X's low bit, whatever register Y holds.
pub proof fn lemma_shift_right_modes(m: MemoryView, op: u16, y_value: u8)
    requires
        m.regs.len() == 16,
        op_family(op) == 0x8000,
        op_n(op) == 6,
        op_x(op) != 0xF,
    ensures
        ({
            let x = op_x(op) as int;
            let y = op_y(op);
            let legacy = alu_spec(m, op, true);
            let modern = alu_spec(m, op, false);
            let modern_other_y = alu_spec(with_reg(m, y, y_value), op, false);
            &&& legacy is Ok && modern is Ok && modern_other_y is Ok
            &&& legacy.unwrap().regs[x] == m.regs[y as int] >> 1
            &&& legacy.unwrap().regs[0xF] == m.regs[y as int] & 1
            &&& modern.unwrap().regs[x] == m.regs[x] >> 1
            &&& modern.unwrap().regs[0xF] == m.regs[x] & 1
            &&& y as int != x ==> modern_other_y.unwrap().regs[x] == modern.unwrap().regs[x]
            &&& y as int != x ==> modern_other_y.unwrap().regs[0xF] == modern.unwrap().regs[0xF]
        }),
{
    lemma_fields(op);
}

/// No instruction that runs in bounds changes the built-in font.
pub proof fn lemma_execute_keeps_font(m: MemoryView, s: ScreenView, op: u16, legacy: bool, rnd: u8)
    requires
        font_intact(m.ram),
        m.regs.len() == 16,
        in_bounds(m, s, op),
        execute_spec(m, s, op, legacy, rnd) is Ok,
    ensures
        font_intact(execute_spec(m, s, op, legacy, rnd).unwrap().0.ram),
{
    lemma_fields(op);
    let x = op_x(op);
    if op_family(op) == 0xF000 && op_nn(op) == 0x33 {
        lemma_overwrite_keeps_font(m.ram, m.index as int, bcd_digits(m.regs[x as int]));
    }
    if op_family(op) == 0xF000 && op_nn(op) == 0x55 {
        lemma_overwrite_keeps_font(m.ram, m.index as int, m.regs.take(x + 1));
    }
}

/// After FX29 the index register points at the five-byte glyph of the low
/// nibble of register X, which the font holds in place.
pub proof fn lemma_font_glyph(m: MemoryView, keys: Seq<bool>, op: u16, legacy: bool)
    requires
        font_intact(m.ram),
        m.regs.len() == 16,
        op_nn(op) == 0x29,
    ensures
        ({
            let digit = m.regs[op_x(op) as int] % 16;
            let i = f_spec(m, keys, op, legacy).unwrap().index as int;
            &&& f_spec(m, keys, op, legacy) is Ok
            &&& i == FONT_BASE + 5 * digit
            &&& m.ram.subrange(i, i + 5) == font_sprites().subrange(5 * digit, 5 * digit + 5)
        }),
{
    lemma_fields(op);
    let digit = m.regs[op_x(op) as int] % 16;
    let i = FONT_BASE + 5 * digit;
    assert(m.ram.subrange(i, i + 5) =~= m.ram.subrange(FONT_BASE as int, 0xA0).subrange(5 * digit, 5 * digit + 5));
}

} // verus!
