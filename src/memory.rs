//! The machine's storage: RAM with the built-in font, registers, timers,
//! program counter and call stack.

use vstd::prelude::*;
use crate::error::Chip8Error;

verus! {

/// Number of addressable bytes of RAM.
pub const RAM_SIZE: usize = 4096;

/// Address of the first byte of the built-in font.
pub const FONT_BASE: u16 = 0x50;

/// Address just past the last byte of the built-in font.
pub const FONT_END: u16 = 0xA0;

/// Address at which a program is loaded and execution starts.
pub const START_ADDRESS: u16 = 0x200;

/// The sixteen hexadecimal digit sprites, five rows each.
pub open spec fn font_sprites() -> Seq<u8> {
    seq![
        0xF0u8, 0x90, 0x90, 0x90, 0xF0, // 0
        0x20, 0x60, 0x20, 0x20, 0x70, // 1
        0xF0, 0x10, 0xF0, 0x80, 0xF0, // 2
        0xF0, 0x10, 0xF0, 0x10, 0xF0, // 3
        0x90, 0x90, 0xF0, 0x10, 0x10, // 4
        0xF0, 0x80, 0xF0, 0x10, 0xF0, // 5
        0xF0, 0x80, 0xF0, 0x90, 0xF0, // 6
        0xF0, 0x10, 0x20, 0x40, 0x40, // 7
        0xF0, 0x90, 0xF0, 0x90, 0xF0, // 8
        0xF0, 0x90, 0xF0, 0x10, 0xF0, // 9
        0xF0, 0x90, 0xF0, 0x90, 0x90, // A
        0xE0, 0x90, 0xE0, 0x90, 0xE0, // B
        0xF0, 0x80, 0x80, 0x80, 0xF0, // C
        0xE0, 0x90, 0x90, 0x90, 0xE0, // D
        0xF0, 0x80, 0xF0, 0x80, 0xF0, // E
        0xF0, 0x80, 0xF0, 0x80, 0x80, // F
    ]
}

/// RAM as it is at power-on: zero everywhere but the font.
pub open spec fn initial_ram() -> Seq<u8> {
    Seq::new(
        RAM_SIZE as nat,
        |i: int|
            if FONT_BASE <= i < FONT_BASE + 80 {
                font_sprites()[i - FONT_BASE]
            } else {
                0u8
            },
    )
}

/// RAM holds 4096 bytes with the built-in font in place.
pub open spec fn font_intact(ram: Seq<u8>) -> bool {
    ram.len() == RAM_SIZE && ram.subrange(FONT_BASE as int, FONT_END as int) == font_sprites()
}

/// The `len` bytes from `address` on lie wholly before or wholly after the
/// font.
pub open spec fn clear_of_font(address: int, len: int) -> bool {
    address >= FONT_END || address + len <= FONT_BASE
}

/// Writing bytes that are clear of the font leaves the font in place.
pub proof fn lemma_overwrite_keeps_font(ram: Seq<u8>, at: int, m: Seq<u8>)
    requires
        font_intact(ram),
        clear_of_font(at, m.len() as int),
    ensures
        font_intact(overwrite(ram, at, m)),
{
    assert(overwrite(ram, at, m).subrange(FONT_BASE as int, FONT_END as int)
        =~= ram.subrange(FONT_BASE as int, FONT_END as int));
}

/// `s` with the bytes of `m` written over it from position `at` on.
pub open spec fn overwrite(s: Seq<u8>, at: int, m: Seq<u8>) -> Seq<u8> {
    Seq::new(s.len(), |i: int| if at <= i < at + m.len() { m[i - at] } else { s[i] })
}

/// Register `id` of `m` written with `v`, or the error for an id above 0xF.
pub open spec fn register_write(m: MemoryView, id: u8, v: u8) -> Result<MemoryView, Chip8Error> {
    if id <= 15 {
        Ok(MemoryView { regs: m.regs.update(id as int, v), ..m })
    } else {
        Err(Chip8Error::OutOfRangeRegister(id))
    }
}

/// Register `id` of `m`, or the error for an id above 0xF.
pub open spec fn register_read(m: MemoryView, id: u8) -> Result<u8, Chip8Error> {
    if id <= 15 {
        Ok(m.regs[id as int])
    } else {
        Err(Chip8Error::OutOfRangeRegister(id))
    }
}

/// A read of the register just written gives the value written, and every
/// other register reads as before; an id above 0xF fails on write and on read.
pub proof fn lemma_register_write_read(m: MemoryView, id: u8, other: u8, v: u8)
    requires
        m.regs.len() == 16,
    ensures
        id <= 15 ==> register_write(m, id, v) is Ok,
        id <= 15 ==> register_read(register_write(m, id, v).unwrap(), id) == Ok::<u8, Chip8Error>(v),
        id <= 15 && other != id ==> register_read(register_write(m, id, v).unwrap(), other) == register_read(m, other),
        id > 15 ==> register_write(m, id, v) == Err::<MemoryView, Chip8Error>(Chip8Error::OutOfRangeRegister(id)),
        id > 15 ==> register_read(m, id) == Err::<u8, Chip8Error>(Chip8Error::OutOfRangeRegister(id)),
{
}

/// The call stack is last in, first out: popping right after pushing `a`
/// gives `a` back and leaves the stack as it was before the push.
pub proof fn lemma_push_then_pop(m: MemoryView, a: u16)
    ensures
        ({
            let pushed = MemoryView { stack: m.stack.push(a), ..m };
            &&& pushed.stack.len() > 0
            &&& pushed.stack.last() == a
            &&& pushed.stack.drop_last() == m.stack
        }),
{
    assert(m.stack.push(a).drop_last() =~= m.stack);
}

/// The abstract state of the machine's storage.
pub struct MemoryView {
    pub ram: Seq<u8>,
    pub stack: Seq<u16>,
    pub index: u16,
    pub delay: u8,
    pub sound: u8,
    pub pc: u16,
    pub regs: Seq<u8>,
}

/// The 4096 bytes of RAM, with the built-in font kept in place.
struct Ram {
    bytes: [u8; 4096],
}

/// RAM, registers, timers, program counter and call stack of one machine.
pub struct Memory {
    ram: Ram,
    stack: Vec<u16>,
    index_register: u16,
    delay_register: u8,
    sound_register: u8,
    program_counter: u16,
    var_registers: [u8; 16],
}

impl View for Memory {
    type V = MemoryView;

    closed spec fn view(&self) -> MemoryView {
        MemoryView {
            ram: self.ram.bytes@,
            stack: self.stack@,
            index: self.index_register,
            delay: self.delay_register,
            sound: self.sound_register,
            pc: self.program_counter,
            regs: self.var_registers@,
        }
    }
}

impl Ram {
    /// The font is loaded once, at construction, and never written again.
    #[verifier::type_invariant]
    spec fn inv(&self) -> bool {
        font_intact(self.bytes@)
    }
}

impl Memory {
    /// RAM always holds 4096 bytes and there are always 16 variable registers.
    pub proof fn lemma_shape(&self)
        ensures
            self@.ram.len() == RAM_SIZE,
            self@.regs.len() == 16,
    {
    }

    /// A fresh machine: font loaded, everything else zero, the program counter
    /// at the load address and an empty call stack.
    pub fn new() -> (m: Self)
        ensures
            m@.ram == initial_ram(),
            font_intact(m@.ram),
            m@.stack == Seq::<u16>::empty(),
            m@.index == 0,
            m@.delay == 0,
            m@.sound == 0,
            m@.pc == START_ADDRESS,
            m@.regs == Seq::new(16, |i: int| 0u8),
    {
        let mut ram: [u8; 4096] = [0u8; 4096];
        let fonts: [u8; 80] = [
            0xF0, 0x90, 0x90, 0x90, 0xF0, // 0
            0x20, 0x60, 0x20, 0x20, 0x70, // 1
            0xF0, 0x10, 0xF0, 0x80, 0xF0, // 2
            0xF0, 0x10, 0xF0, 0x10, 0xF0, // 3
            0x90, 0x90, 0xF0, 0x10, 0x10, // 4
            0xF0, 0x80, 0xF0, 0x10, 0xF0, // 5
            0xF0, 0x80, 0xF0, 0x90, 0xF0, // 6
            0xF0, 0x10, 0x20, 0x40, 0x40, // 7
            0xF0, 0x90, 0xF0, 0x90, 0xF0, // 8
            0xF0, 0x90, 0xF0, 0x10, 0xF0, // 9
            0xF0, 0x90, 0xF0, 0x90, 0x90, // A
            0xE0, 0x90, 0xE0, 0x90, 0xE0, // B
            0xF0, 0x80, 0x80, 0x80, 0xF0, // C
            0xE0, 0x90, 0x90, 0x90, 0xE0, // D
            0xF0, 0x80, 0xF0, 0x80, 0xF0, // E
            0xF0, 0x80, 0xF0, 0x80, 0x80, // F
        ];
        assert(fonts@ =~= font_sprites());
        let mut i: usize = 0;
        while i < 80
            invariant
                i <= 80,
                fonts@ == font_sprites(),
                ram@ =~= Seq::new(
                    RAM_SIZE as nat,
                    |j: int| if FONT_BASE <= j < FONT_BASE + i { font_sprites()[j - FONT_BASE] } else { 0u8 },
                ),
            decreases 80 - i,
        {
            ram[0x50 + i] = fonts[i];
            i = i + 1;
        }
        assert(ram@ =~= initial_ram());
        assert(ram@.subrange(FONT_BASE as int, FONT_END as int) =~= font_sprites());
        let m = Memory {
            ram: Ram { bytes: ram },
            stack: Vec::new(),
            index_register: 0,
            delay_register: 0,
            sound_register: 0,
            var_registers: [0u8; 16],
            program_counter: START_ADDRESS,
        };
        assert(m@.regs =~= Seq::new(16, |i: int| 0u8));
        m
    }

    pub fn set_index_register(&mut self, adress: u16)
        ensures
            final(self)@ == (MemoryView { index: adress, ..old(self)@ }),
    {
        self.index_register = adress
    }

    pub fn index_register(&self) -> (r: u16)
        ensures
            r == self@.index,
    {
        self.index_register
    }

    /// Writes register `id`; ids above 0xF are refused and change nothing.
    pub fn set_var_register(&mut self, id: u8, var: u8) -> (r: Result<(), Chip8Error>)
        ensures
            match register_write(old(self)@, id, var) {
                Ok(m) => r == Ok::<(), Chip8Error>(()) && final(self)@ == m,
                Err(e) => r == Err::<(), Chip8Error>(e) && final(self)@ == old(self)@,
            },
    {
        if id > 15 {
            return Err(Chip8Error::OutOfRangeRegister(id));
        }
        self.var_registers[id as usize] = var;
        assert(self@.regs =~= old(self)@.regs.update(id as int, var));
        Ok(())
    }

    /// Reads register `id`; ids above 0xF are refused.
    pub fn get_var_register(&self, id: u8) -> (r: Result<u8, Chip8Error>)
        ensures
            r == register_read(self@, id),
    {
        if id > 15 {
            return Err(Chip8Error::OutOfRangeRegister(id));
        }
        Ok(self.var_registers[id as usize])
    }

    pub fn jump_pc(&mut self, adress: u16)
        ensures
            final(self)@ == (MemoryView { pc: adress, ..old(self)@ }),
    {
        self.program_counter = adress;
    }

    pub fn increment_pc(&mut self)
        requires
            old(self)@.pc <= 0xFFFD,
        ensures
            final(self)@ == (MemoryView { pc: (old(self)@.pc + 2) as u16, ..old(self)@ }),
    {
        self.program_counter += 2;
    }

    pub fn pc(&self) -> (r: u16)
        ensures
            r == self@.pc,
    {
        self.program_counter
    }

    /// Removes and returns the most recently pushed address.
    pub fn pop_stack(&mut self) -> (r: Result<u16, Chip8Error>)
        ensures
            old(self)@.stack.len() > 0 ==> r == Ok::<u16, Chip8Error>(old(self)@.stack.last())
                && final(self)@ == (MemoryView { stack: old(self)@.stack.drop_last(), ..old(self)@ }),
            old(self)@.stack.len() == 0 ==> r == Err::<u16, Chip8Error>(Chip8Error::EmptyStack)
                && final(self)@ == old(self)@,
    {
        match self.stack.pop() {
            Some(val) => Ok(val),
            None => Err(Chip8Error::EmptyStack),
        }
    }

    pub fn push_stack(&mut self, adress: u16)
        ensures
            final(self)@ == (MemoryView { stack: old(self)@.stack.push(adress), ..old(self)@ }),
    {
        self.stack.push(adress)
    }

    /// The two bytes at the program counter; the counter is left as it is.
    pub fn fetch_instruction(&self) -> (r: (u8, u8))
        requires
            self@.pc + 1 < RAM_SIZE,
        ensures
            r == (self@.ram[self@.pc as int], self@.ram[self@.pc + 1]),
            font_intact(self@.ram),
    {
        proof {
            use_type_invariant(&self.ram);
        }
        (self.ram.bytes[self.program_counter as usize], self.ram.bytes[self.program_counter as usize + 1])
    }

    /// Copies `mem` into RAM from `address` on.
    pub fn write_ram(&mut self, address: u16, mem: &[u8])
        requires
            address + mem@.len() <= RAM_SIZE,
            clear_of_font(address as int, mem@.len() as int),
        ensures
            final(self)@ == (MemoryView { ram: overwrite(old(self)@.ram, address as int, mem@), ..old(self)@ }),
    {
        let mut i: usize = 0;
        assert(overwrite(self@.ram, address as int, mem@.take(0)) =~= self@.ram);
        while i < mem.len()
            invariant
                i <= mem@.len(),
                address + mem@.len() <= RAM_SIZE,
                clear_of_font(address as int, mem@.len() as int),
                self@ == (MemoryView {
                    ram: overwrite(old(self)@.ram, address as int, mem@.take(i as int)),
                    ..old(self)@
                }),
            decreases mem@.len() - i,
        {
            proof {
                use_type_invariant(&self.ram);
                lemma_overwrite_keeps_font(self@.ram, address + i, seq![mem[i as int]]);
                assert(overwrite(self@.ram, address + i, seq![mem[i as int]])
                    =~= self@.ram.update(address + i, mem[i as int]));
            }
            self.ram.bytes[i + address as usize] = mem[i];
            i = i + 1;
            assert(self@.ram =~= overwrite(old(self)@.ram, address as int, mem@.take(i as int)));
        }
        assert(mem@.take(i as int) =~= mem@);
    }

    pub fn read_ram_cell(&self, address: u16) -> (r: u8)
        requires
            address < RAM_SIZE,
        ensures
            r == self@.ram[address as int],
            font_intact(self@.ram),
    {
        proof {
            use_type_invariant(&self.ram);
        }
        self.ram.bytes[address as usize]
    }

    /// Counts the sound timer down by one, stopping at zero.
    pub fn decrement_sound(&mut self)
        ensures
            final(self)@ == (MemoryView {
                sound: if old(self)@.sound == 0 { 0 } else { (old(self)@.sound - 1) as u8 },
                ..old(self)@
            }),
    {
        if self.sound_register != 0 {
            self.sound_register -= 1;
        }
    }

    /// Counts the delay timer down by one, stopping at zero.
    pub fn decrement_delay(&mut self)
        ensures
            final(self)@ == (MemoryView {
                delay: if old(self)@.delay == 0 { 0 } else { (old(self)@.delay - 1) as u8 },
                ..old(self)@
            }),
    {
        if self.delay_register != 0 {
            self.delay_register -= 1;
        }
    }

    pub fn delay_register(&self) -> (r: u8)
        ensures
            r == self@.delay,
    {
        self.delay_register
    }

    pub fn sound_register(&self) -> (r: u8)
        ensures
            r == self@.sound,
    {
        self.sound_register
    }

    pub fn set_delay_register(&mut self, register: u8)
        ensures
            final(self)@ == (MemoryView { delay: register, ..old(self)@ }),
    {
        self.delay_register = register
    }

    pub fn set_sounds_register(&mut self, register: u8)
        ensures
            final(self)@ == (MemoryView { sound: register, ..old(self)@ }),
    {
        self.sound_register = register
    }

    pub fn decrement_pc(&mut self)
        requires
            old(self)@.pc >= 2,
        ensures
            final(self)@ == (MemoryView { pc: (old(self)@.pc - 2) as u16, ..old(self)@ }),
    {
        self.program_counter -= 2
    }
}

} // verus!
