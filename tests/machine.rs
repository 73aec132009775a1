use chip8::{decode, Chip8Error, Cpu, Instruction, Interconnect};

fn machine(rom: Vec<u8>) -> Cpu {
    Cpu::new(Interconnect::new(rom).unwrap())
}

fn lit_count(ic: &Interconnect) -> usize {
    let mut n = 0;
    for row in 0..32 {
        for col in 0..64 {
            n += ic.pixel(row, col) as usize;
        }
    }
    n
}

#[test]
fn load_byte_then_read_every_register_and_byte() {
    for x in 0u8..16 {
        for nn in 0u16..256 {
            let mut cpu = machine(vec![0x60 | x, nn as u8]);
            assert_eq!(cpu.step(), Ok(()));
            assert_eq!(cpu.get_reg(x), Ok(nn as u8));
            assert_eq!(cpu.pc(), 0x202);
        }
    }
}

#[test]
fn load_index_then_read() {
    for nnn in [0x000u16, 0x123, 0x200, 0xABC, 0xFFF] {
        let mut cpu = machine(vec![0xA0 | (nnn >> 8) as u8, nnn as u8]);
        assert_eq!(cpu.step(), Ok(()));
        assert_eq!(cpu.i(), nnn);
        assert_eq!(cpu.pc(), 0x202);
    }
}

fn bcd_of(value: u8) -> (u8, u8, u8) {
    // V3 := value; I := 0x300; store the digits of V3.
    let mut cpu = machine(vec![0x63, value, 0xA3, 0x00, 0xF3, 0x33]);
    for _ in 0..3 {
        assert_eq!(cpu.step(), Ok(()));
    }
    let ic = cpu.interconnect();
    (
        ic.read_byte(0x300).unwrap(),
        ic.read_byte(0x301).unwrap(),
        ic.read_byte(0x302).unwrap(),
    )
}

#[test]
fn bcd_of_zero_seven_and_max() {
    assert_eq!(bcd_of(0), (0, 0, 0));
    assert_eq!(bcd_of(7), (0, 0, 7));
    assert_eq!(bcd_of(255), (2, 5, 5));
    assert_eq!(bcd_of(40), (0, 4, 0));
    assert_eq!(bcd_of(109), (1, 0, 9));
}

#[test]
fn bcd_past_memory_end_is_out_of_bounds() {
    // I := 0xFFE leaves room for two digits only.
    let mut cpu = machine(vec![0xAF, 0xFE, 0xF0, 0x33]);
    assert_eq!(cpu.step(), Ok(()));
    assert_eq!(cpu.step(), Err(Chip8Error::OutOfBounds));
    assert_eq!(cpu.pc(), 0x202);
    assert_eq!(cpu.interconnect().read_byte(0xFFE), Ok(0));
}

#[test]
fn draw_twice_restores_display() {
    let mut ic = Interconnect::new(vec![]).unwrap();
    assert_eq!(ic.draw(10, 4, vec![0xFF, 0x0F]), 0);
    let sprite = vec![0xA5, 0x3C, 0xFF];
    let mut before = Vec::new();
    for row in 0..32 {
        for col in 0..64 {
            before.push(ic.pixel(row, col));
        }
    }
    let first = ic.draw(12, 3, sprite.clone());
    assert_eq!(first, 1);
    let second = ic.draw(12, 3, sprite);
    assert_eq!(second, 1);
    for row in 0..32 {
        for col in 0..64 {
            assert_eq!(ic.pixel(row, col), before[row * 64 + col]);
        }
    }
}

#[test]
fn full_row_sprite_collides_only_on_second_draw() {
    let mut ic = Interconnect::new(vec![]).unwrap();
    assert_eq!(ic.draw(0, 0, vec![0xFF]), 0);
    assert_eq!(lit_count(&ic), 8);
    assert_eq!(ic.draw(0, 0, vec![0xFF]), 1);
    assert_eq!(lit_count(&ic), 0);
}

#[test]
fn draw_wraps_columns_at_right_edge() {
    let mut ic = Interconnect::new(vec![]).unwrap();
    assert_eq!(ic.draw(63, 0, vec![0xC0]), 0);
    assert_eq!(ic.pixel(0, 63), 1);
    assert_eq!(ic.pixel(0, 0), 1);
    assert_eq!(lit_count(&ic), 2);
}

#[test]
fn draw_wraps_full_width_sprite_at_right_edge() {
    let mut ic = Interconnect::new(vec![]).unwrap();
    assert_eq!(ic.draw(63, 0, vec![0xFF]), 0);
    assert_eq!(ic.pixel(0, 63), 1);
    for col in 0..7 {
        assert_eq!(ic.pixel(0, col), 1);
    }
    assert_eq!(ic.pixel(0, 7), 0);
    assert_eq!(lit_count(&ic), 8);
}

#[test]
fn draw_wraps_rows_at_bottom_edge() {
    let mut ic = Interconnect::new(vec![]).unwrap();
    assert_eq!(ic.draw(0, 31, vec![0x80, 0x80, 0x80]), 0);
    assert_eq!(ic.pixel(31, 0), 1);
    assert_eq!(ic.pixel(0, 0), 1);
    assert_eq!(ic.pixel(1, 0), 1);
    assert_eq!(lit_count(&ic), 3);
}

#[test]
fn draw_coordinates_wrap_modulo_display() {
    let mut ic = Interconnect::new(vec![]).unwrap();
    assert_eq!(ic.draw(64 + 5, 32 + 2, vec![0x80]), 0);
    assert_eq!(ic.pixel(2, 5), 1);
    assert_eq!(lit_count(&ic), 1);
}

#[test]
fn draw_instruction_sets_flag_register() {
    // I := glyph 0; V0 := 5; V1 := 3; draw 5 rows at (V0, V1) twice.
    let mut cpu = machine(vec![0xA0, 0x00, 0x60, 0x05, 0x61, 0x03, 0xD0, 0x15, 0xD0, 0x15]);
    for _ in 0..4 {
        assert_eq!(cpu.step(), Ok(()));
    }
    assert_eq!(cpu.get_reg(0xF), Ok(0));
    let ic = cpu.interconnect();
    // Glyph 0 top row is 0xF0: four lit pixels from column 5 on row 3.
    for col in 5..9 {
        assert_eq!(ic.pixel(3, col), 1);
    }
    assert_eq!(ic.pixel(3, 9), 0);
    assert_eq!(ic.pixel(4, 5), 1);
    assert_eq!(ic.pixel(4, 6), 0);
    assert_eq!(lit_count(ic), 14);
    assert_eq!(cpu.step(), Ok(()));
    assert_eq!(cpu.get_reg(0xF), Ok(1));
    assert_eq!(lit_count(cpu.interconnect()), 0);
    assert_eq!(cpu.pc(), 0x20A);
}

#[test]
fn draw_sprite_past_memory_end_is_out_of_bounds() {
    let mut cpu = machine(vec![0xAF, 0xFE, 0xD0, 0x03]);
    assert_eq!(cpu.step(), Ok(()));
    assert_eq!(cpu.step(), Err(Chip8Error::OutOfBounds));
    assert_eq!(cpu.pc(), 0x202);
    assert_eq!(lit_count(cpu.interconnect()), 0);
}

fn call_chain() -> Vec<u8> {
    // Each instruction calls the one after it: 0x200 calls 0x202, and so on.
    let mut rom = Vec::new();
    for k in 0..17u16 {
        let target = 0x202 + 2 * k;
        rom.push(0x20 | (target >> 8) as u8);
        rom.push(target as u8);
    }
    rom
}

#[test]
fn sixteen_calls_then_stack_overflow() {
    let mut cpu = machine(call_chain());
    for k in 0..16u16 {
        assert_eq!(cpu.step(), Ok(()));
        assert_eq!(cpu.sp() as u16, k + 1);
        assert_eq!(cpu.pc(), 0x202 + 2 * k);
    }
    assert_eq!(cpu.step(), Err(Chip8Error::StackOverflow));
    assert_eq!(cpu.sp(), 16);
    assert_eq!(cpu.pc(), 0x220);
}

#[test]
fn run_stops_at_stack_overflow() {
    let mut cpu = machine(call_chain());
    assert_eq!(cpu.run(), Err(Chip8Error::StackOverflow));
    assert_eq!(cpu.sp(), 16);
}

#[test]
fn unknown_opcode_changes_nothing() {
    for word in [0x00E0u16, 0x0123, 0x1234, 0x8AB4, 0xF065, 0xE09E] {
        let mut cpu = machine(vec![0x6A, 0x42, (word >> 8) as u8, word as u8]);
        assert_eq!(cpu.step(), Ok(()));
        assert_eq!(cpu.step(), Err(Chip8Error::UnsupportedOpcode(word)));
        assert_eq!(cpu.pc(), 0x202);
        assert_eq!(cpu.i(), 0);
        assert_eq!(cpu.sp(), 0);
        assert_eq!(cpu.get_reg(0xA), Ok(0x42));
        assert_eq!(cpu.interconnect().read_word(0x202), Ok(word));
    }
}

#[test]
fn font_address_and_glyph() {
    let ic = Interconnect::new(vec![]).unwrap();
    assert_eq!(ic.get_font(0xA), 50);
    assert_eq!(ic.get_font(0x0), 0);
    assert_eq!(ic.get_font(0xF), 75);
    let glyph_a = [0xF0, 0x90, 0xF0, 0x90, 0x90];
    for (k, byte) in glyph_a.iter().enumerate() {
        assert_eq!(ic.read_byte(50 + k as u16), Ok(*byte));
    }
    assert_eq!(ic.read_block(0, 5), Ok(vec![0xF0, 0x90, 0x90, 0x90, 0xF0]));
    assert_eq!(ic.read_block(75, 5), Ok(vec![0xF0, 0x80, 0xF0, 0x80, 0x80]));
    assert_eq!(ic.read_byte(80), Ok(0));
}

#[test]
fn rom_loads_at_program_space() {
    let ic = Interconnect::new(vec![0x12, 0x34, 0x56]).unwrap();
    assert_eq!(ic.read_word(0x200), Ok(0x1234));
    assert_eq!(ic.read_byte(0x202), Ok(0x56));
    assert_eq!(ic.read_byte(0x203), Ok(0));
    assert_eq!(ic.read_byte(0x1FF), Ok(0));
    assert!(!ic.is_halted());
    assert_eq!(ic.key_state(), [false; 16]);
    assert_eq!(lit_count(&ic), 0);
}

#[test]
fn largest_rom_fits_and_one_more_byte_does_not() {
    let ic = Interconnect::new(vec![0xAB; 0xE00]).unwrap();
    assert_eq!(ic.read_byte(0xFFF), Ok(0xAB));
    assert!(matches!(
        Interconnect::new(vec![0; 0xE01]),
        Err(Chip8Error::OutOfBounds)
    ));
}

#[test]
fn memory_bounds() {
    let mut ic = Interconnect::new(vec![]).unwrap();
    assert_eq!(ic.read_byte(0x1000), Err(Chip8Error::OutOfBounds));
    assert_eq!(ic.read_word(0xFFE), Ok(0));
    assert_eq!(ic.read_word(0xFFF), Err(Chip8Error::OutOfBounds));
    assert_eq!(ic.write_byte(0xFFF, 9), Ok(()));
    assert_eq!(ic.read_byte(0xFFF), Ok(9));
    assert_eq!(ic.write_byte(0x1000, 9), Err(Chip8Error::OutOfBounds));
    assert_eq!(ic.write_block(0xFFE, &[1, 2]), Ok(()));
    assert_eq!(ic.read_word(0xFFE), Ok(0x0102));
    assert_eq!(ic.write_block(0xFFF, &[3, 4]), Err(Chip8Error::OutOfBounds));
    assert_eq!(ic.read_byte(0xFFF), Ok(2));
    assert_eq!(ic.read_block(0xFFF, 2), Err(Chip8Error::OutOfBounds));
}

#[test]
fn register_index_bounds() {
    let mut cpu = machine(vec![]);
    assert_eq!(cpu.set_reg(0xF, 7), Ok(()));
    assert_eq!(cpu.get_reg(0xF), Ok(7));
    assert_eq!(cpu.get_reg(0x10), Err(Chip8Error::InvalidRegister));
    assert_eq!(cpu.set_reg(0x10, 1), Err(Chip8Error::InvalidRegister));
}

#[test]
fn power_on_state() {
    let cpu = machine(vec![]);
    assert_eq!(cpu.pc(), 0x200);
    assert_eq!(cpu.sp(), 0);
    assert_eq!(cpu.i(), 0);
    assert_eq!(cpu.dt(), 0);
    assert_eq!(cpu.st(), 0);
    for reg in 0..16 {
        assert_eq!(cpu.get_reg(reg), Ok(0));
    }
}

#[test]
fn run_ends_when_fetch_leaves_memory() {
    // Every word loads V0; the program counter walks to the end of memory.
    let rom: Vec<u8> = (0..0xE00).map(|k| if k % 2 == 0 { 0x60 } else { 0x11 }).collect();
    let mut cpu = machine(rom);
    assert_eq!(cpu.run(), Err(Chip8Error::OutOfBounds));
    assert_eq!(cpu.pc(), 0x1000);
    assert_eq!(cpu.get_reg(0), Ok(0x11));
}

#[test]
fn run_returns_at_once_when_halted() {
    let mut cpu = machine(vec![0x60, 0x01]);
    let mut keys = [false; 16];
    keys[3] = true;
    cpu.handle_input(keys, true);
    assert!(cpu.interconnect().is_halted());
    assert_eq!(cpu.interconnect().key_state(), keys);
    assert_eq!(cpu.run(), Ok(()));
    assert_eq!(cpu.pc(), 0x200);
    assert_eq!(cpu.get_reg(0), Ok(0));
}

#[test]
fn input_without_quit_keeps_running() {
    let mut ic = Interconnect::new(vec![]).unwrap();
    ic.handle_input([true; 16], false);
    assert!(!ic.is_halted());
    assert_eq!(ic.key_state(), [true; 16]);
    ic.handle_input([false; 16], true);
    ic.handle_input([false; 16], false);
    assert!(ic.is_halted());
}

#[test]
fn timers_stay_at_zero() {
    let mut cpu = machine(vec![]);
    cpu.tick_timers();
    assert_eq!(cpu.dt(), 0);
    assert_eq!(cpu.st(), 0);
}

#[test]
fn clear_display_turns_all_pixels_off() {
    let mut ic = Interconnect::new(vec![]).unwrap();
    ic.draw(30, 10, vec![0xFF, 0xFF, 0xFF]);
    assert_eq!(lit_count(&ic), 24);
    ic.clear_display();
    assert_eq!(lit_count(&ic), 0);
}

#[test]
fn decode_each_family() {
    assert_eq!(decode(0x6A12), Instruction::LoadByte { x: 0xA, byte: 0x12 });
    assert_eq!(decode(0xA2F0), Instruction::LoadIndex { addr: 0x2F0 });
    assert_eq!(decode(0xD125), Instruction::Draw { x: 1, y: 2, rows: 5 });
    assert_eq!(decode(0x2ABC), Instruction::Call { addr: 0xABC });
    assert_eq!(decode(0xF733), Instruction::StoreBcd { x: 7 });
    assert_eq!(decode(0xF755), Instruction::Unsupported { word: 0xF755 });
    assert_eq!(decode(0x00EE), Instruction::Unsupported { word: 0x00EE });
}
