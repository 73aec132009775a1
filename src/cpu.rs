use vstd::prelude::*;

use crate::error::Chip8Error;
use crate::interconnect::{
    blit, collides, valid_screen, word_at, Interconnect, END_RESERVED, RAM_SIZE,
};

verus! {

/// Width of one instruction in bytes.
pub const INSTRUCTION_SIZE: u16 = 2;

/// Depth of the call stack.
pub const STACK_SIZE: usize = 16;

/// Index of the flag register `VF`.
pub const FLAG_REGISTER: u8 = 0xF;

/// One decoded instruction word.
#[derive(Debug, Clone, Copy, PartialEq, Eq, Structural)]
pub enum Instruction {
    /// `6XNN`: `VX := NN`.
    LoadByte { x: u8, byte: u8 },
    /// `ANNN`: `I := NNN`.
    LoadIndex { addr: u16 },
    /// `DXYN`: draw the `N` bytes at `I` at column `VX`, row `VY`; `VF` := collision.
    Draw { x: u8, y: u8, rows: u8 },
    /// `2NNN`: push `PC`, jump to `NNN`.
    Call { addr: u16 },
    /// `FX33`: the decimal digits of `VX` at `I`, `I + 1`, `I + 2`.
    StoreBcd { x: u8 },
    /// Any word without a handler.
    Unsupported { word: u16 },
}

/// The instruction that word `w` encodes.
pub open spec fn decode_spec(w: u16) -> Instruction {
    let op = w >> 12u16;
    let x = ((w >> 8u16) & 0xFu16) as u8;
    let y = ((w >> 4u16) & 0xFu16) as u8;
    let n = (w & 0xFu16) as u8;
    let nn = (w & 0xFFu16) as u8;
    let nnn = w & 0xFFFu16;
    if op == 0x6 {
        Instruction::LoadByte { x, byte: nn }
    } else if op == 0xA {
        Instruction::LoadIndex { addr: nnn }
    } else if op == 0xD {
        Instruction::Draw { x, y, rows: n }
    } else if op == 0x2 {
        Instruction::Call { addr: nnn }
    } else if op == 0xF && nn == 0x33 {
        Instruction::StoreBcd { x }
    } else {
        Instruction::Unsupported { word: w }
    }
}

/// Splits an instruction word into its operation and operands.
pub fn decode(instr: u16) -> (r: Instruction)
    ensures
        r == decode_spec(instr),
{
    let op = instr >> 12u16;
    let x = ((instr >> 8u16) & 0xFu16) as u8;
    let y = ((instr >> 4u16) & 0xFu16) as u8;
    let n = (instr & 0xFu16) as u8;
    let nn = (instr & 0xFFu16) as u8;
    let nnn = instr & 0xFFFu16;
    if op == 0x6 {
        Instruction::LoadByte { x, byte: nn }
    } else if op == 0xA {
        Instruction::LoadIndex { addr: nnn }
    } else if op == 0xD {
        Instruction::Draw { x, y, rows: n }
    } else if op == 0x2 {
        Instruction::Call { addr: nnn }
    } else if op == 0xF && nn == 0x33 {
        Instruction::StoreBcd { x }
    } else {
        Instruction::Unsupported { word: instr }
    }
}

/// The whole machine as mathematical values.
pub struct CpuState {
    pub pc: u16,
    pub sp: u8,
    pub stack: Seq<u16>,
    pub v: Seq<u8>,
    pub i: u16,
    pub dt: u8,
    pub st: u8,
    pub mem: Seq<u8>,
    pub screen: Seq<u8>,
    pub keys: Seq<bool>,
    pub halted: bool,
}

impl CpuState {
    pub open spec fn wf(self) -> bool {
        &&& self.sp <= STACK_SIZE
        &&& self.stack.len() == STACK_SIZE
        &&& self.v.len() == 16
        &&& self.mem.len() == RAM_SIZE
        &&& valid_screen(self.screen)
        &&& self.keys.len() == 16
    }
}

/// The decimal digits of `v`: hundreds, tens, ones.
pub open spec fn bcd_digits(v: u8) -> (u8, u8, u8) {
    ((v / 100) as u8, ((v / 10) % 10) as u8, (v % 10) as u8)
}

/// The effect of executing word `w` in state `s`: the next state, or the
/// error, in which case the state stays as it was.
pub open spec fn exec_spec(s: CpuState, w: u16) -> Result<CpuState, Chip8Error> {
    let next = (s.pc + INSTRUCTION_SIZE) as u16;
    match decode_spec(w) {
        Instruction::LoadByte { x, byte } => Ok(CpuState { v: s.v.update(x as int, byte), pc: next, ..s }),
        Instruction::LoadIndex { addr } => Ok(CpuState { i: addr, pc: next, ..s }),
        Instruction::Draw { x, y, rows } => {
            if s.i + rows > RAM_SIZE {
                Err(Chip8Error::OutOfBounds)
            } else {
                let sprite = s.mem.subrange(s.i as int, s.i + rows);
                let vx = s.v[x as int] as int;
                let vy = s.v[y as int] as int;
                let flag: u8 = if collides(s.screen, vx, vy, sprite) {
                    1
                } else {
                    0
                };
                Ok(
                    CpuState {
                        screen: blit(s.screen, vx, vy, sprite),
                        v: s.v.update(FLAG_REGISTER as int, flag),
                        pc: next,
                        ..s
                    },
                )
            }
        },
        Instruction::Call { addr } => {
            if s.sp >= STACK_SIZE {
                Err(Chip8Error::StackOverflow)
            } else {
                Ok(
                    CpuState {
                        stack: s.stack.update(s.sp as int, s.pc),
                        sp: (s.sp + 1) as u8,
                        pc: addr,
                        ..s
                    },
                )
            }
        },
        Instruction::StoreBcd { x } => {
            if s.i + 3 > RAM_SIZE {
                Err(Chip8Error::OutOfBounds)
            } else {
                let d = bcd_digits(s.v[x as int]);
                Ok(
                    CpuState {
                        mem: s.mem.update(s.i as int, d.0).update(s.i + 1, d.1).update(
                            s.i + 2,
                            d.2,
                        ),
                        pc: next,
                        ..s
                    },
                )
            }
        },
        Instruction::Unsupported { word } => Err(Chip8Error::UnsupportedOpcode(word)),
    }
}

/// One fetch-decode-execute cycle from state `s`.
pub open spec fn step_spec(s: CpuState) -> Result<CpuState, Chip8Error> {
    if s.pc + 1 < RAM_SIZE {
        exec_spec(s, word_at(s.mem, s.pc as int))
    } else {
        Err(Chip8Error::OutOfBounds)
    }
}

/// The dispatch loop from state `s`: it stops cleanly at a halt request and
/// otherwise at the first error, giving the state then reached.
pub open spec fn run_spec(s: CpuState) -> (CpuState, Result<(), Chip8Error>)
    decreases 16 - s.sp, 0x10000 - s.pc,
{
    if s.halted || s.sp > STACK_SIZE {
        (s, Ok(()))
    } else {
        match step_spec(s) {
            Ok(t) => run_spec(t),
            Err(e) => (s, Err(e)),
        }
    }
}

/// `6XNN` followed by reading `VX` gives `NN`, for every register and byte.
pub proof fn lemma_load_byte_then_read(s: CpuState, x: u8, nn: u8)
    requires
        s.wf(),
        x < 16,
    ensures
        exec_spec(s, 0x6000u16 | ((x as u16) << 8u16) | (nn as u16)) matches Ok(t) && t.v[x as int]
            == nn,
{
    let w = 0x6000u16 | ((x as u16) << 8u16) | (nn as u16);
    assert(w >> 12u16 == 0x6 && ((w >> 8u16) & 0xFu16) as u8 == x && (w & 0xFFu16) as u8 == nn)
        by (bit_vector)
        requires
            x < 16,
            w == 0x6000u16 | ((x as u16) << 8u16) | (nn as u16),
    ;
}

/// `ANNN` followed by reading `I` gives `NNN`, for every 12-bit address.
pub proof fn lemma_load_index_then_read(s: CpuState, nnn: u16)
    requires
        nnn < 0x1000,
    ensures
        exec_spec(s, 0xA000u16 | nnn) matches Ok(t) && t.i == nnn,
{
    let w = 0xA000u16 | nnn;
    assert(w >> 12u16 == 0xA && (w & 0xFFFu16) == nnn) by (bit_vector)
        requires
            nnn < 0x1000,
            w == 0xA000u16 | nnn,
    ;
}

/// `2NNN` pushes `PC` and jumps while fewer than sixteen calls are on the
/// stack, and raises `StackOverflow`, changing nothing, once sixteen are.
pub proof fn lemma_call_depth(s: CpuState, nnn: u16)
    requires
        s.wf(),
        nnn < 0x1000,
    ensures
        s.sp < STACK_SIZE ==> (exec_spec(s, 0x2000u16 | nnn) matches Ok(t) && t.wf() && t.sp == s.sp
            + 1 && t.pc == nnn && t.stack[s.sp as int] == s.pc),
        s.sp == STACK_SIZE ==> exec_spec(s, 0x2000u16 | nnn) == Err::<CpuState, Chip8Error>(
            Chip8Error::StackOverflow,
        ),
{
    let w = 0x2000u16 | nnn;
    assert(w >> 12u16 == 0x2 && (w & 0xFFFu16) == nnn) by (bit_vector)
        requires
            nnn < 0x1000,
            w == 0x2000u16 | nnn,
    ;
}

/// A word whose operation has no handler raises `UnsupportedOpcode` with that
/// word (and `step` then leaves the machine unchanged).
pub proof fn lemma_unknown_opcode(s: CpuState, w: u16)
    requires
        w >> 12u16 != 0x2,
        w >> 12u16 != 0x6,
        w >> 12u16 != 0xA,
        w >> 12u16 != 0xD,
        w >> 12u16 != 0xF || (w & 0xFFu16) != 0x33,
    ensures
        exec_spec(s, w) == Err::<CpuState, Chip8Error>(Chip8Error::UnsupportedOpcode(w)),
{
    assert((w >> 12u16 != 0xF || (w & 0xFFu16) != 0x33) ==> (w >> 12u16 != 0xF || (w
        & 0xFFu16) as u8 != 0x33)) by (bit_vector);
}

/// The execution engine: register file, call stack, and the machine's
/// memory and display.
#[derive(Debug)]
pub struct Cpu {
    interconnect: Interconnect,
    pc: u16,
    stack: [u16; 16],
    sp: u8,
    v: [u8; 16],
    i: u16,
    dt: u8,
    st: u8,
}

impl View for Cpu {
    type V = CpuState;

    closed spec fn view(&self) -> CpuState {
        CpuState {
            pc: self.pc,
            sp: self.sp,
            stack: self.stack@,
            v: self.v@,
            i: self.i,
            dt: self.dt,
            st: self.st,
            mem: self.interconnect.mem(),
            screen: self.interconnect.screen(),
            keys: self.interconnect.keys(),
            halted: self.interconnect.halted(),
        }
    }
}

impl Cpu {
    pub open spec fn wf(&self) -> bool {
        self@.wf()
    }

    /// A machine at power-on around `interconnect`: `PC` at 0x200, every
    /// register, timer and stack slot zero.
    pub fn new(interconnect: Interconnect) -> (r: Cpu)
        requires
            interconnect.wf(),
        ensures
            r.wf(),
            r@ == (CpuState {
                pc: END_RESERVED as u16,
                sp: 0,
                stack: Seq::new(16, |k: int| 0u16),
                v: Seq::new(16, |k: int| 0u8),
                i: 0,
                dt: 0,
                st: 0,
                mem: interconnect.mem(),
                screen: interconnect.screen(),
                keys: interconnect.keys(),
                halted: interconnect.halted(),
            }),
    {
        let r = Cpu {
            interconnect,
            pc: END_RESERVED as u16,
            stack: [0u16; 16],
            sp: 0,
            v: [0u8; 16],
            i: 0,
            dt: 0,
            st: 0,
        };
        proof {
            r.interconnect.lemma_keys_len();
        }
        assert(r@.stack =~= Seq::new(16, |k: int| 0u16));
        assert(r@.v =~= Seq::new(16, |k: int| 0u8));
        r
    }

    /// The value of general register `V{reg}`; `InvalidRegister` above 0xF.
    pub fn get_reg(&self, reg: u8) -> (r: Result<u8, Chip8Error>)
        requires
            self.wf(),
        ensures
            reg < 16 ==> r == Ok::<u8, Chip8Error>(self@.v[reg as int]),
            reg >= 16 ==> r == Err::<u8, Chip8Error>(Chip8Error::InvalidRegister),
    {
        if reg < 16 {
            Ok(self.v[reg as usize])
        } else {
            Err(Chip8Error::InvalidRegister)
        }
    }

    /// Sets general register `V{reg}` to `byte`; `InvalidRegister`, with
    /// nothing changed, above 0xF.
    pub fn set_reg(&mut self, reg: u8, byte: u8) -> (r: Result<(), Chip8Error>)
        requires
            old(self).wf(),
        ensures
            final(self).wf(),
            reg < 16 ==> r is Ok && final(self)@ == (CpuState {
                v: old(self)@.v.update(reg as int, byte),
                ..old(self)@
            }),
            reg >= 16 ==> r == Err::<(), Chip8Error>(Chip8Error::InvalidRegister),
            reg >= 16 ==> final(self)@ == old(self)@,
    {
        if reg < 16 {
            self.v[reg as usize] = byte;
            Ok(())
        } else {
            Err(Chip8Error::InvalidRegister)
        }
    }

    /// The program counter.
    pub fn pc(&self) -> (r: u16)
        ensures
            r == self@.pc,
    {
        self.pc
    }

    /// The stack pointer: the number of calls on the call stack.
    pub fn sp(&self) -> (r: u8)
        ensures
            r == self@.sp,
    {
        self.sp
    }

    /// The index register `I`.
    pub fn i(&self) -> (r: u16)
        ensures
            r == self@.i,
    {
        self.i
    }

    /// The delay timer.
    pub fn dt(&self) -> (r: u8)
        ensures
            r == self@.dt,
    {
        self.dt
    }

    /// The sound timer.
    pub fn st(&self) -> (r: u8)
        ensures
            r == self@.st,
    {
        self.st
    }

    /// The memory, display and host flags, for reading.
    pub fn interconnect(&self) -> (r: &Interconnect)
        ensures
            r.mem() == self@.mem,
            r.screen() == self@.screen,
            r.keys() == self@.keys,
            r.halted() == self@.halted,
            self.wf() ==> r.wf(),
    {
        &self.interconnect
    }

    /// Executes instruction word `instr`: the new state is `exec_spec`'s; on
    /// an error nothing changes. Control flow sets `PC`; every other
    /// instruction advances it by one instruction.
    fn execute_instruction(&mut self, instr: u16) -> (r: Result<(), Chip8Error>)
        requires
            old(self).wf(),
            old(self)@.pc + 1 < RAM_SIZE,
        ensures
            final(self).wf(),
            r is Ok <==> exec_spec(old(self)@, instr) is Ok,
            r is Ok ==> exec_spec(old(self)@, instr) == Ok::<CpuState, Chip8Error>(final(self)@),
            r matches Err(e) ==> exec_spec(old(self)@, instr) == Err::<CpuState, Chip8Error>(e),
            r is Err ==> final(self)@ == old(self)@,
    {
        proof {
            assert(((instr >> 8u16) & 0xFu16) < 16) by (bit_vector);
            assert(((instr >> 4u16) & 0xFu16) < 16) by (bit_vector);
            assert((instr & 0xFu16) < 16) by (bit_vector);
        }
        match decode(instr) {
            Instruction::LoadByte { x, byte } => {
                match self.set_reg(x, byte) {
                    Ok(()) => {},
                    Err(e) => return Err(e),
                }
            },
            Instruction::LoadIndex { addr } => {
                self.i = addr;
            },
            Instruction::Draw { x, y, rows } => {
                let sprite = match self.interconnect.read_block(self.i, rows as usize) {
                    Ok(b) => b,
                    Err(e) => return Err(e),
                };
                let vx = match self.get_reg(x) {
                    Ok(b) => b,
                    Err(e) => return Err(e),
                };
                let vy = match self.get_reg(y) {
                    Ok(b) => b,
                    Err(e) => return Err(e),
                };
                let collision = self.interconnect.draw(vx as usize, vy as usize, sprite);
                self.v[FLAG_REGISTER as usize] = collision;
            },
            Instruction::Call { addr } => {
                if self.sp as usize >= STACK_SIZE {
                    return Err(Chip8Error::StackOverflow);
                }
                // The return address is recorded on the explicit stack; the
                // dispatch loop carries on at the callee.
                self.stack[self.sp as usize] = self.pc;
                self.sp += 1;
                self.pc = addr;
                return Ok(());
            },
            Instruction::StoreBcd { x } => {
                let value = match self.get_reg(x) {
                    Ok(b) => b,
                    Err(e) => return Err(e),
                };
                let digits: Vec<u8> = vec![value / 100, value / 10 % 10, value % 10];
                match self.interconnect.write_block(self.i, digits.as_slice()) {
                    Ok(()) => {},
                    Err(e) => return Err(e),
                }
                proof {
                    let s = old(self)@;
                    let d = bcd_digits(s.v[x as int]);
                    assert(self@.mem =~= s.mem.update(s.i as int, d.0).update(s.i + 1, d.1).update(
                        s.i + 2,
                        d.2,
                    ));
                }
            },
            Instruction::Unsupported { word } => {
                return Err(Chip8Error::UnsupportedOpcode(word));
            },
        }
        self.pc = self.pc + INSTRUCTION_SIZE;
        Ok(())
    }

    /// One fetch-decode-execute cycle: the word at `PC` is executed, as
    /// `step_spec` says; on an error nothing changes.
    pub fn step(&mut self) -> (r: Result<(), Chip8Error>)
        requires
            old(self).wf(),
        ensures
            final(self).wf(),
            r is Ok <==> step_spec(old(self)@) is Ok,
            r is Ok ==> step_spec(old(self)@) == Ok::<CpuState, Chip8Error>(final(self)@),
            r matches Err(e) ==> step_spec(old(self)@) == Err::<CpuState, Chip8Error>(e),
            r is Err ==> final(self)@ == old(self)@,
    {
        let word = match self.interconnect.read_word(self.pc) {
            Ok(w) => w,
            Err(e) => return Err(e),
        };
        self.execute_instruction(word)
    }

    /// Executes instructions one at a time until the host has asked to halt
    /// (`Ok`) or an instruction fails (that error), as `run_spec` says.
    pub fn run(&mut self) -> (r: Result<(), Chip8Error>)
        requires
            old(self).wf(),
        ensures
            final(self).wf(),
            (final(self)@, r) == run_spec(old(self)@),
    {
        loop
            invariant
                self.wf(),
                run_spec(self@) == run_spec(old(self)@),
            decreases 16 - self.sp, 0x10000 - self.pc,
        {
            if self.interconnect.is_halted() {
                return Ok(());
            }
            let ghost before = self@;
            match self.step() {
                Ok(()) => {},
                Err(e) => return Err(e),
            }
            assert(run_spec(before) == run_spec(self@));
        }
    }

    /// Records the host's key states and halt request.
    pub fn handle_input(&mut self, keys: [bool; 16], quit: bool)
        requires
            old(self).wf(),
        ensures
            final(self).wf(),
            final(self)@ == (CpuState { keys: keys@, halted: old(self)@.halted || quit, ..old(self)@ }),
    {
        self.interconnect.handle_input(keys, quit);
    }

    /// One 60 Hz tick: each timer above zero counts down by one.
    pub fn tick_timers(&mut self)
        requires
            old(self).wf(),
        ensures
            final(self).wf(),
            final(self)@ == (CpuState {
                dt: if old(self)@.dt > 0 { (old(self)@.dt - 1) as u8 } else { 0 },
                st: if old(self)@.st > 0 { (old(self)@.st - 1) as u8 } else { 0 },
                ..old(self)@
            }),
    {
        if self.dt > 0 {
            self.dt -= 1;
        }
        if self.st > 0 {
            self.st -= 1;
        }
    }
}

} // verus!
