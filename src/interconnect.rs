use vstd::prelude::*;

use crate::error::Chip8Error;

verus! {

/// Size of the address space in bytes.
pub const RAM_SIZE: usize = 4096;

/// First address of the program space; below it lie interpreter data and fonts.
pub const END_RESERVED: usize = 0x200;

/// Bytes in one font glyph.
pub const CHARACTER_SIZE: usize = 5;

/// Display width and height in pixels.
pub const DISPLAY_WIDTH: usize = 64;
pub const DISPLAY_HEIGHT: usize = 32;
pub const DISPLAY_SIZE: usize = 2048;

/// The sixteen hexadecimal glyphs `0`..`F`, five rows each, stored from address 0.
pub open spec fn font_table() -> Seq<u8> {
    seq![
        0xF0u8, 0x90, 0x90, 0x90, 0xF0, // 0
        0x20, 0x60, 0x20, 0x20, 0x70, // 1
        0xF0, 0x10, 0xF0, 0x80, 0xF0, // 2
        0xF0, 0x10, 0xF0, 0x10, 0xF0, // 3
        0x90, 0x90, 0xF0, 0x10, 0x10, // 4
        0xF0, 0x80, 0xF0, 0x10, 0xF0, // 5
        0xF0, 0x80, 0xF0, 0x90, 0xF0, // 6
        0xF0, 0x10, 0x20, 0x40, 0x40, // 7
        0xF0, 0x90, 0xF0, 0x90, 0xF0, // 8
        0xF0, 0x90, 0xF0, 0x10, 0xF0, // 9
        0xF0, 0x90, 0xF0, 0x90, 0x90, // A
        0xE0, 0x90, 0xE0, 0x90, 0xE0, // B
        0xF0, 0x80, 0x80, 0x80, 0xF0, // C
        0xE0, 0x90, 0x90, 0x90, 0xE0, // D
        0xF0, 0x80, 0xF0, 0x80, 0xF0, // E
        0xF0, 0x80, 0xF0, 0x80, 0x80, // F
    ]
}

/// Memory at power-on: the font table, then zeros, with `rom` copied from 0x200.
pub open spec fn initial_memory(rom: Seq<u8>) -> Seq<u8> {
    Seq::new(
        RAM_SIZE as nat,
        |a: int|
            if a < font_table().len() {
                font_table()[a]
            } else if END_RESERVED <= a < END_RESERVED + rom.len() {
                rom[a - END_RESERVED]
            } else {
                0u8
            },
    )
}

fn font_bytes() -> (r: Vec<u8>)
    ensures
        r@ == font_table(),
{
    let r: Vec<u8> = vec![
        0xF0u8, 0x90, 0x90, 0x90, 0xF0, 0x20, 0x60, 0x20, 0x20, 0x70,
        0xF0, 0x10, 0xF0, 0x80, 0xF0, 0xF0, 0x10, 0xF0, 0x10, 0xF0,
        0x90, 0x90, 0xF0, 0x10, 0x10, 0xF0, 0x80, 0xF0, 0x10, 0xF0,
        0xF0, 0x80, 0xF0, 0x90, 0xF0, 0xF0, 0x10, 0x20, 0x40, 0x40,
        0xF0, 0x90, 0xF0, 0x90, 0xF0, 0xF0, 0x90, 0xF0, 0x10, 0xF0,
        0xF0, 0x90, 0xF0, 0x90, 0x90, 0xE0, 0x90, 0xE0, 0x90, 0xE0,
        0xF0, 0x80, 0x80, 0x80, 0xF0, 0xE0, 0x90, 0x90, 0x90, 0xE0,
        0xF0, 0x80, 0xF0, 0x80, 0xF0, 0xF0, 0x80, 0xF0, 0x80, 0x80,
    ];
    assert(r@ =~= font_table());
    r
}

/// Big-endian word made of the bytes at `addr` and `addr + 1`.
pub open spec fn word_at(mem: Seq<u8>, addr: int) -> u16 {
    (mem[addr] as int * 256 + mem[addr + 1] as int) as u16
}

/// Bit `c` of a sprite row, counted from the most significant bit.
pub open spec fn sprite_bit(byte: u8, c: int) -> u8 {
    (byte >> ((7 - c) as u8)) & 1u8
}

/// Sprite row that lands on the display row of cell `k`, when drawn from row `y`.
pub open spec fn sprite_row(y: int, k: int) -> int {
    (k / DISPLAY_WIDTH as int - y) % DISPLAY_HEIGHT as int
}

/// Sprite column that lands on the display column of cell `k`, when drawn from column `x`.
pub open spec fn sprite_col(x: int, k: int) -> int {
    (k % DISPLAY_WIDTH as int - x) % DISPLAY_WIDTH as int
}

/// The sprite bit XORed into display cell `k` (row-major, 64 cells a row) when
/// `sprite` is drawn at column `x`, row `y`; both axes wrap. 0 where the sprite
/// does not reach.
pub open spec fn sprite_mask(x: int, y: int, sprite: Seq<u8>, k: int) -> u8 {
    let r = sprite_row(y, k);
    let c = sprite_col(x, k);
    if r < sprite.len() && c < 8 {
        sprite_bit(sprite[r], c)
    } else {
        0u8
    }
}

/// The display after XOR-drawing `sprite` at column `x`, row `y`.
pub open spec fn blit(screen: Seq<u8>, x: int, y: int, sprite: Seq<u8>) -> Seq<u8> {
    Seq::new(screen.len(), |k: int| screen[k] ^ sprite_mask(x, y, sprite, k))
}

/// Drawing `sprite` at (`x`, `y`) turns the lit cell `k` off.
pub open spec fn flips_off(screen: Seq<u8>, x: int, y: int, sprite: Seq<u8>, k: int) -> bool {
    screen[k] == 1 && (screen[k] ^ sprite_mask(x, y, sprite, k)) == 0
}

/// Some lit pixel is turned off by drawing `sprite` at (`x`, `y`).
pub open spec fn collides(screen: Seq<u8>, x: int, y: int, sprite: Seq<u8>) -> bool {
    exists|k: int| 0 <= k < screen.len() && #[trigger] flips_off(screen, x, y, sprite, k)
}

/// A display of the right size whose pixels are all 0 or 1.
pub open spec fn valid_screen(screen: Seq<u8>) -> bool {
    &&& screen.len() == DISPLAY_SIZE
    &&& forall|k: int| 0 <= k < screen.len() ==> #[trigger] screen[k] <= 1
}

/// Cell `k` is reached by sprite rows before `i`, or by row `i` before bit `j`.
spec fn drawn_before(x: int, y: int, k: int, i: int, j: int) -> bool {
    sprite_row(y, k) < i || (sprite_row(y, k) == i && sprite_col(x, k) < j)
}

/// The display part way through a draw.
spec fn partial_blit(screen: Seq<u8>, x: int, y: int, sprite: Seq<u8>, i: int, j: int) -> Seq<u8> {
    Seq::new(
        screen.len(),
        |k: int|
            if drawn_before(x, y, k, i, j) {
                screen[k] ^ sprite_mask(x, y, sprite, k)
            } else {
                screen[k]
            },
    )
}

spec fn partial_collides(screen: Seq<u8>, x: int, y: int, sprite: Seq<u8>, i: int, j: int) -> bool {
    exists|k: int|
        0 <= k < screen.len() && drawn_before(x, y, k, i, j) && #[trigger] flips_off(
            screen,
            x,
            y,
            sprite,
            k,
        )
}

proof fn lemma_xor_facts()
    ensures
        forall|a: u8| #[trigger] (a ^ 0u8) == a,
        forall|a: u8, b: u8| a <= 1 && b <= 1 ==> #[trigger] (a ^ b) <= 1,
        forall|a: u8, b: u8| #[trigger] ((a ^ b) ^ b) == a,
        forall|a: u8, c: u8| #[trigger] ((a >> c) & 1u8) <= 1,
        forall|a: u8| #[trigger] (0u8 ^ a) == a,
        forall|a: u8| #[trigger] (a ^ a) == 0,
{
    assert(forall|a: u8| #[trigger] (0u8 ^ a) == a) by (bit_vector);
    assert(forall|a: u8| #[trigger] (a ^ a) == 0) by (bit_vector);
    assert(forall|a: u8| #[trigger] (a ^ 0u8) == a) by (bit_vector);
    assert(forall|a: u8, b: u8| a <= 1 && b <= 1 ==> #[trigger] (a ^ b) <= 1) by (bit_vector);
    assert(forall|a: u8, b: u8| #[trigger] ((a ^ b) ^ b) == a) by (bit_vector);
    assert(forall|a: u8, c: u8| #[trigger] ((a >> c) & 1u8) <= 1) by (bit_vector);
}

proof fn lemma_wrap_row(a: int, y: int, i: int)
    requires
        y >= 0,
        0 <= a < 32,
        0 <= i < 32,
    ensures
        (a - y) % 32 == i <==> a == (y % 32 + i) % 32,
{
}

proof fn lemma_wrap_col(a: int, x: int, j: int)
    requires
        x >= 0,
        0 <= a < 64,
        0 <= j < 64,
    ensures
        (a - x) % 64 == j <==> a == (x % 64 + j) % 64,
{
}

/// The cell that sprite row `i`, bit `j` lands on is the one whose sprite row
/// and column are `i` and `j`.
proof fn lemma_target_cell(x: int, y: int, i: int, j: int, k: int)
    requires
        x >= 0,
        y >= 0,
        0 <= i < DISPLAY_HEIGHT,
        0 <= j < 8,
        0 <= k < DISPLAY_SIZE,
    ensures
        (sprite_row(y, k) == i && sprite_col(x, k) == j) <==> k == ((y % 32 + i) % 32) * 64 + (
        x % 64 + j) % 64,
{
    let q = k / 64;
    let m = k % 64;
    assert(k == q * 64 + m && 0 <= q < 32 && 0 <= m < 64);
    lemma_wrap_row(q, y, i);
    lemma_wrap_col(m, x, j);
    let t = ((y % 32 + i) % 32) * 64 + (x % 64 + j) % 64;
    let rq = (y % 32 + i) % 32;
    let rm = (x % 64 + j) % 64;
    assert(0 <= rq < 32 && 0 <= rm < 64);
    assert(k == t ==> q == rq && m == rm);
}

/// Drawing the same sprite twice at the same place restores every pixel, and
/// the second draw reports a collision wherever the first lit a dark pixel.
pub proof fn lemma_draw_twice(screen: Seq<u8>, x: int, y: int, sprite: Seq<u8>)
    ensures
        blit(blit(screen, x, y, sprite), x, y, sprite) == screen,
        (exists|k: int|
            0 <= k < screen.len() && screen[k] == 0 && #[trigger] blit(screen, x, y, sprite)[k]
                == 1) ==> collides(blit(screen, x, y, sprite), x, y, sprite),
{
    lemma_xor_facts();
    assert(blit(blit(screen, x, y, sprite), x, y, sprite) =~= screen);
    if exists|k: int|
        0 <= k < screen.len() && screen[k] == 0 && #[trigger] blit(screen, x, y, sprite)[k] == 1 {
        let k = choose|k: int|
            0 <= k < screen.len() && screen[k] == 0 && #[trigger] blit(screen, x, y, sprite)[k]
                == 1;
        let m = sprite_mask(x, y, sprite, k);
        assert(m == 1);
        assert(flips_off(blit(screen, x, y, sprite), x, y, sprite, k));
    }
}

/// Memory, display and host-facing flags of the machine.
#[derive(Debug)]
pub struct Interconnect {
    input_state: [bool; 16],
    halt: bool,
    ram: Vec<u8>,
    display: Vec<u8>,
}

impl Interconnect {
    /// The 4096 bytes of memory.
    pub closed spec fn mem(&self) -> Seq<u8> {
        self.ram@
    }

    /// The display, row-major, 64 one-byte pixels a row.
    pub closed spec fn screen(&self) -> Seq<u8> {
        self.display@
    }

    /// The state of the sixteen keys `0x0`..`0xF`.
    pub closed spec fn keys(&self) -> Seq<bool> {
        self.input_state@
    }

    /// Whether the host has asked the dispatch loop to stop.
    pub closed spec fn halted(&self) -> bool {
        self.halt
    }

    pub proof fn lemma_keys_len(&self)
        ensures
            self.keys().len() == 16,
    {
    }

    pub open spec fn wf(&self) -> bool {
        &&& self.mem().len() == RAM_SIZE
        &&& valid_screen(self.screen())
    }

    /// A machine with `rom` loaded at 0x200, the font table at 0, a dark
    /// display, no key down and no halt; `OutOfBounds` when `rom` does not fit
    /// below 0x1000.
    pub fn new(rom: Vec<u8>) -> (r: Result<Interconnect, Chip8Error>)
        ensures
            r is Ok <==> rom@.len() <= RAM_SIZE - END_RESERVED,
            r is Err ==> r == Err::<Interconnect, Chip8Error>(Chip8Error::OutOfBounds),
            r matches Ok(ic) ==> {
                &&& ic.wf()
                &&& ic.mem() == initial_memory(rom@)
                &&& ic.screen() == Seq::new(DISPLAY_SIZE as nat, |k: int| 0u8)
                &&& ic.keys() == Seq::new(16, |k: int| false)
                &&& !ic.halted()
            },
    {
        if rom.len() > RAM_SIZE - END_RESERVED {
            return Err(Chip8Error::OutOfBounds);
        }
        // Zeros, with the program image copied to the start of the program space.
        let mut ram: Vec<u8> = Vec::new();
        let mut a: usize = 0;
        while a < RAM_SIZE
            invariant
                a <= RAM_SIZE,
                rom@.len() <= RAM_SIZE - END_RESERVED,
                ram@.len() == a,
                forall|b: int|
                    0 <= b < a ==> #[trigger] ram@[b] == (if END_RESERVED <= b < END_RESERVED
                        + rom@.len() {
                        rom@[b - END_RESERVED]
                    } else {
                        0u8
                    }),
            decreases RAM_SIZE - a,
        {
            if END_RESERVED <= a && a < END_RESERVED + rom.len() {
                ram.push(rom[a - END_RESERVED]);
            } else {
                ram.push(0);
            }
            a += 1;
        }
        let mut display: Vec<u8> = Vec::new();
        let mut k: usize = 0;
        while k < DISPLAY_SIZE
            invariant
                k <= DISPLAY_SIZE,
                display@ == Seq::new(k as nat, |p: int| 0u8),
            decreases DISPLAY_SIZE - k,
        {
            display.push(0);
            k += 1;
        }
        let mut interconnect = Interconnect {
            input_state: [false; 16],
            halt: false,
            ram,
            display,
        };
        interconnect.dump_fonts();
        assert(interconnect.mem() =~= initial_memory(rom@));
        assert(interconnect.input_state@ =~= Seq::new(16, |k: int| false));
        Ok(interconnect)
    }

    /// Copies the font table to addresses 0..80.
    fn dump_fonts(&mut self)
        requires
            old(self).mem().len() == RAM_SIZE,
        ensures
            final(self).mem() == font_table() + old(self).mem().subrange(
                font_table().len() as int,
                RAM_SIZE as int,
            ),
            final(self).screen() == old(self).screen(),
            final(self).keys() == old(self).keys(),
            final(self).halted() == old(self).halted(),
    {
        let fonts = font_bytes();
        let mut k: usize = 0;
        while k < fonts.len()
            invariant
                fonts@ == font_table(),
                k <= fonts@.len(),
                self.ram@.len() == RAM_SIZE,
                forall|b: int| 0 <= b < k ==> #[trigger] self.ram@[b] == fonts@[b],
                forall|b: int| k <= b < RAM_SIZE ==> #[trigger] self.ram@[b] == old(self).ram@[b],
                self.display == old(self).display,
                self.input_state == old(self).input_state,
                self.halt == old(self).halt,
            decreases fonts@.len() - k,
        {
            self.ram.set(k, fonts[k]);
            k += 1;
        }
        assert(self.mem() =~= font_table() + old(self).mem().subrange(
            font_table().len() as int,
            RAM_SIZE as int,
        ));
    }

    /// The byte at `addr`; `OutOfBounds` past 0xFFF.
    pub fn read_byte(&self, addr: u16) -> (r: Result<u8, Chip8Error>)
        requires
            self.wf(),
        ensures
            addr < RAM_SIZE ==> r == Ok::<u8, Chip8Error>(self.mem()[addr as int]),
            addr >= RAM_SIZE ==> r == Err::<u8, Chip8Error>(Chip8Error::OutOfBounds),
    {
        if (addr as usize) < RAM_SIZE {
            Ok(self.ram[addr as usize])
        } else {
            Err(Chip8Error::OutOfBounds)
        }
    }

    /// Stores `value` at `addr`; `OutOfBounds`, with nothing changed, past 0xFFF.
    pub fn write_byte(&mut self, addr: u16, value: u8) -> (r: Result<(), Chip8Error>)
        requires
            old(self).wf(),
        ensures
            final(self).wf(),
            addr < RAM_SIZE ==> r is Ok && final(self).mem() == old(self).mem().update(
                addr as int,
                value,
            ),
            addr >= RAM_SIZE ==> r == Err::<(), Chip8Error>(Chip8Error::OutOfBounds),
            addr >= RAM_SIZE ==> final(self).mem() == old(self).mem(),
            final(self).screen() == old(self).screen(),
            final(self).keys() == old(self).keys(),
            final(self).halted() == old(self).halted(),
    {
        if (addr as usize) < RAM_SIZE {
            self.ram.set(addr as usize, value);
            Ok(())
        } else {
            Err(Chip8Error::OutOfBounds)
        }
    }

    /// The `len` bytes from `addr` on; `OutOfBounds` when they reach past 0xFFF.
    pub fn read_block(&self, addr: u16, len: usize) -> (r: Result<Vec<u8>, Chip8Error>)
        requires
            self.wf(),
        ensures
            addr + len <= RAM_SIZE ==> (r matches Ok(b) && b@ == self.mem().subrange(
                addr as int,
                addr + len,
            )),
            addr + len > RAM_SIZE ==> r == Err::<Vec<u8>, Chip8Error>(Chip8Error::OutOfBounds),
    {
        let base = addr as usize;
        if base > RAM_SIZE || len > RAM_SIZE - base {
            return Err(Chip8Error::OutOfBounds);
        }
        let mut block: Vec<u8> = Vec::new();
        let mut k: usize = 0;
        while k < len
            invariant
                self.wf(),
                base == addr,
                base + len <= RAM_SIZE,
                k <= len,
                block@ == self.mem().subrange(base as int, base + k),
            decreases len - k,
        {
            block.push(self.ram[base + k]);
            k += 1;
            assert(block@ =~= self.mem().subrange(base as int, base + k));
        }
        Ok(block)
    }

    /// Stores `bytes` from `addr` on; `OutOfBounds`, with nothing changed,
    /// when they would reach past 0xFFF.
    pub fn write_block(&mut self, addr: u16, bytes: &[u8]) -> (r: Result<(), Chip8Error>)
        requires
            old(self).wf(),
        ensures
            final(self).wf(),
            addr + bytes@.len() <= RAM_SIZE ==> r is Ok && final(self).mem() == old(
                self,
            ).mem().subrange(0, addr as int) + bytes@ + old(self).mem().subrange(
                addr + bytes@.len(),
                RAM_SIZE as int,
            ),
            addr + bytes@.len() > RAM_SIZE ==> r == Err::<(), Chip8Error>(
                Chip8Error::OutOfBounds,
            ),
            addr + bytes@.len() > RAM_SIZE ==> final(self).mem() == old(self).mem(),
            final(self).screen() == old(self).screen(),
            final(self).keys() == old(self).keys(),
            final(self).halted() == old(self).halted(),
    {
        let base = addr as usize;
        let len = bytes.len();
        if base > RAM_SIZE || len > RAM_SIZE - base {
            return Err(Chip8Error::OutOfBounds);
        }
        let mut k: usize = 0;
        while k < len
            invariant
                self.wf(),
                base == addr,
                len == bytes@.len(),
                base + len <= RAM_SIZE,
                k <= len,
                old(self).mem().len() == RAM_SIZE,
                forall|b: int|
                    0 <= b < RAM_SIZE ==> #[trigger] self.mem()[b] == (if base <= b < base + k {
                        bytes@[b - base]
                    } else {
                        old(self).mem()[b]
                    }),
                self.display == old(self).display,
                self.input_state == old(self).input_state,
                self.halt == old(self).halt,
            decreases len - k,
        {
            self.ram.set(base + k, bytes[k]);
            k += 1;
        }
        assert(self.mem() =~= old(self).mem().subrange(0, base as int) + bytes@ + old(
            self,
        ).mem().subrange(base + len, RAM_SIZE as int));
        Ok(())
    }

    /// Reads a big-endian 16-bit word at `addr`, as the fetch of an
    /// instruction does; `OutOfBounds` when `addr + 1` is past 0xFFF.
    pub fn read_word(&self, addr: u16) -> (r: Result<u16, Chip8Error>)
        requires
            self.wf(),
        ensures
            addr + 1 < RAM_SIZE ==> r == Ok::<u16, Chip8Error>(word_at(self.mem(), addr as int)),
            addr + 1 >= RAM_SIZE ==> r == Err::<u16, Chip8Error>(Chip8Error::OutOfBounds),
    {
        let a = addr as usize;
        if a + 1 < RAM_SIZE {
            let hi = self.ram[a] as u16;
            let lo = self.ram[a + 1] as u16;
            Ok(hi * 256 + lo)
        } else {
            Err(Chip8Error::OutOfBounds)
        }
    }

    /// The memory address of the glyph for hexadecimal digit `font`.
    pub fn get_font(&self, font: u8) -> (r: u16)
        ensures
            r == font * CHARACTER_SIZE,
    {
        let glyph_size = CHARACTER_SIZE as u16;
        assert(glyph_size == 5);
        font as u16 * glyph_size
    }

    /// The pixel at `row`, `col`: 1 when lit, 0 when dark.
    pub fn pixel(&self, row: usize, col: usize) -> (r: u8)
        requires
            self.wf(),
            row < DISPLAY_HEIGHT,
            col < DISPLAY_WIDTH,
        ensures
            r == self.screen()[row * DISPLAY_WIDTH + col],
            r <= 1,
    {
        self.display[row * DISPLAY_WIDTH + col]
    }

    /// Records the key states and, when `quit` is set, the host's request to halt.
    pub fn handle_input(&mut self, keys: [bool; 16], quit: bool)
        ensures
            final(self).keys() == keys@,
            final(self).halted() == (old(self).halted() || quit),
            final(self).mem() == old(self).mem(),
            final(self).screen() == old(self).screen(),
    {
        self.input_state = keys;
        if quit {
            self.halt = true;
        }
    }

    /// The key states last recorded.
    pub fn key_state(&self) -> (r: [bool; 16])
        ensures
            r@ == self.keys(),
    {
        self.input_state
    }

    /// Whether the host has asked the dispatch loop to stop.
    pub fn is_halted(&self) -> (r: bool)
        ensures
            r == self.halted(),
    {
        self.halt
    }

    /// XOR-draws `sprite`, one byte a row and most significant bit first, with
    /// its top left corner at column `x`, row `y`; both axes wrap. The sprite
    /// is at most as tall as the display, so no two of its rows meet. Returns 1
    /// when some lit pixel was turned off, else 0.
    pub fn draw(&mut self, x: usize, y: usize, sprite: Vec<u8>) -> (r: u8)
        requires
            old(self).wf(),
            sprite@.len() <= DISPLAY_HEIGHT,
        ensures
            final(self).wf(),
            final(self).screen() == blit(old(self).screen(), x as int, y as int, sprite@),
            r == (if collides(old(self).screen(), x as int, y as int, sprite@) {
                1u8
            } else {
                0u8
            }),
            final(self).mem() == old(self).mem(),
            final(self).keys() == old(self).keys(),
            final(self).halted() == old(self).halted(),
    {
        let ghost s0 = self.display@;
        let ghost xi = x as int;
        let ghost yi = y as int;
        proof {
            lemma_xor_facts();
        }
        let x0 = x % DISPLAY_WIDTH;
        let y0 = y % DISPLAY_HEIGHT;
        let mut collision: u8 = 0;
        let mut i: usize = 0;
        while i < sprite.len()
            invariant
                i <= sprite@.len() <= DISPLAY_HEIGHT,
                x0 == x % 64,
                y0 == y % 32,
                s0 == old(self).display@,
                xi == x as int,
                yi == y as int,
                valid_screen(s0),
                valid_screen(self.display@),
                self.display@ == partial_blit(s0, xi, yi, sprite@, i as int, 0),
                collision == (if partial_collides(s0, xi, yi, sprite@, i as int, 0) {
                    1u8
                } else {
                    0u8
                }),
                self.ram == old(self).ram,
                self.input_state == old(self).input_state,
                self.halt == old(self).halt,
            decreases sprite@.len() - i,
        {
            let row = (y0 + i) % DISPLAY_HEIGHT;
            let byte = sprite[i];
            let mut j: usize = 0;
            while j < 8
                invariant
                    i < sprite@.len() <= DISPLAY_HEIGHT,
                    j <= 8,
                    x0 == x % 64,
                    y0 == y % 32,
                    row == (y0 + i) % 32,
                    byte == sprite@[i as int],
                    s0 == old(self).display@,
                    xi == x as int,
                    yi == y as int,
                    valid_screen(s0),
                    valid_screen(self.display@),
                    self.display@ == partial_blit(s0, xi, yi, sprite@, i as int, j as int),
                    collision == (if partial_collides(s0, xi, yi, sprite@, i as int, j as int) {
                        1u8
                    } else {
                        0u8
                    }),
                    self.ram == old(self).ram,
                    self.input_state == old(self).input_state,
                    self.halt == old(self).halt,
                decreases 8 - j,
            {
                let bit = (byte >> ((7 - j) as u8)) & 1u8;
                let index = row * DISPLAY_WIDTH + (x0 + j) % DISPLAY_WIDTH;
                let prev = self.display[index];
                let now = prev ^ bit;
                proof {
                    lemma_xor_facts();
                    let ii = i as int;
                    let jj = j as int;
                    assert forall|k: int| 0 <= k < DISPLAY_SIZE implies ((sprite_row(yi, k) == ii
                        && sprite_col(xi, k) == jj) <==> k == index) by {
                        lemma_target_cell(xi, yi, ii, jj, k);
                    }
                    assert(sprite_mask(xi, yi, sprite@, index as int) == bit);
                    assert(!drawn_before(xi, yi, index as int, ii, jj));
                    assert(prev == s0[index as int]);
                }
                self.display.set(index, now);
                if prev == 1 && now == 0 {
                    collision = 1;
                }
                proof {
                    let ii = i as int;
                    let jj = j as int;
                    assert(self.display@ =~= partial_blit(s0, xi, yi, sprite@, ii, jj + 1));
                    if prev == 1 && now == 0 {
                        assert(flips_off(s0, xi, yi, sprite@, index as int));
                        assert(drawn_before(xi, yi, index as int, ii, jj + 1));
                    }
                    if partial_collides(s0, xi, yi, sprite@, ii, jj + 1) {
                        let k = choose|k: int|
                            0 <= k < s0.len() && drawn_before(xi, yi, k, ii, jj + 1)
                                && #[trigger] flips_off(s0, xi, yi, sprite@, k);
                        if k != index {
                            assert(drawn_before(xi, yi, k, ii, jj));
                        }
                    }
                    if partial_collides(s0, xi, yi, sprite@, ii, jj) {
                        let k = choose|k: int|
                            0 <= k < s0.len() && drawn_before(xi, yi, k, ii, jj)
                                && #[trigger] flips_off(s0, xi, yi, sprite@, k);
                        assert(drawn_before(xi, yi, k, ii, jj + 1));
                    }
                }
                j += 1;
            }
            proof {
                lemma_xor_facts();
                let ii = i as int;
                assert forall|k: int|
                    0 <= k < DISPLAY_SIZE && drawn_before(xi, yi, k, ii, 8) != drawn_before(
                        xi,
                        yi,
                        k,
                        ii + 1,
                        0,
                    ) implies sprite_mask(xi, yi, sprite@, k) == 0 by {
                    assert(0 <= sprite_col(xi, k) < 64);
                }
                assert(self.display@ =~= partial_blit(s0, xi, yi, sprite@, ii + 1, 0));
                if partial_collides(s0, xi, yi, sprite@, ii, 8) {
                    let k = choose|k: int|
                        0 <= k < s0.len() && drawn_before(xi, yi, k, ii, 8)
                            && #[trigger] flips_off(s0, xi, yi, sprite@, k);
                    assert(drawn_before(xi, yi, k, ii + 1, 0));
                }
                if partial_collides(s0, xi, yi, sprite@, ii + 1, 0) {
                    let k = choose|k: int|
                        0 <= k < s0.len() && drawn_before(xi, yi, k, ii + 1, 0)
                            && #[trigger] flips_off(s0, xi, yi, sprite@, k);
                    if !drawn_before(xi, yi, k, ii, 8) {
                        assert(sprite_mask(xi, yi, sprite@, k) == 0);
                        assert(s0[k] ^ 0u8 == s0[k]);
                    }
                }
            }
            i += 1;
        }
        proof {
            lemma_xor_facts();
            let n = sprite@.len() as int;
            assert forall|k: int| 0 <= k < DISPLAY_SIZE && !drawn_before(xi, yi, k, n, 0) implies
                sprite_mask(xi, yi, sprite@, k) == 0 by {}
            assert(self.display@ =~= blit(s0, xi, yi, sprite@));
            if collides(s0, xi, yi, sprite@) {
                let k = choose|k: int|
                    0 <= k < s0.len() && #[trigger] flips_off(s0, xi, yi, sprite@, k);
                assert(drawn_before(xi, yi, k, n, 0));
            }
        }
        collision
    }

    /// Turns every pixel off.
    pub fn clear_display(&mut self)
        requires
            old(self).wf(),
        ensures
            final(self).wf(),
            final(self).screen() == Seq::new(DISPLAY_SIZE as nat, |k: int| 0u8),
            final(self).mem() == old(self).mem(),
            final(self).keys() == old(self).keys(),
            final(self).halted() == old(self).halted(),
    {
        let mut k: usize = 0;
        while k < DISPLAY_SIZE
            invariant
                k <= DISPLAY_SIZE,
                self.display@.len() == DISPLAY_SIZE,
                forall|p: int| 0 <= p < k ==> #[trigger] self.display@[p] == 0,
                self.ram == old(self).ram,
                self.input_state == old(self).input_state,
                self.halt == old(self).halt,
            decreases DISPLAY_SIZE - k,
        {
            self.display.set(k, 0);
            k += 1;
        }
        assert(self.screen() =~= Seq::new(DISPLAY_SIZE as nat, |k: int| 0u8));
    }
}

} // verus!
