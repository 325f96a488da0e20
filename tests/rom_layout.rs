use rom_schem::blockstate::BlockState;
use rom_schem::error::SchemError;
use rom_schem::rom::{check_layout, find_program_lines, find_soul_torches, order_lines, program_rom, BitLine};
use rom_schem::schematic::{Pos, Schematic};

const INERT: &str = "minecraft:soul_wall_torch";
const ACTIVE: &str = "minecraft:redstone_wall_torch";

fn torch() -> BlockState {
    BlockState::with_props(INERT, vec![("facing".to_string(), "north".to_string())])
}

/// Eight rows of sixteen lines: row `r` at height `r`, line `z` of the row at depth
/// `z`, bit `b` of the line at `x = b`. The markers go in a scrambled order, and a
/// few other blocks lie around.
fn rom_grid() -> Schematic {
    let mut g = Schematic::new();
    for k in 0..2048i64 {
        let s = (k * 769) % 2048;
        let (r, z, b) = (s / 256, (s / 16) % 16, s % 16);
        g.set_block(Pos { x: b, y: r, z }, torch());
    }
    g.set_block(Pos { x: 20, y: 0, z: 0 }, BlockState::stone());
    g.set_block(Pos { x: -3, y: 5, z: 7 }, BlockState::new("minecraft:redstone_wire"));
    g
}

fn state_at(g: &Schematic, p: Pos) -> &BlockState {
    g.block_at(p).unwrap()
}

#[test]
fn finds_all_markers() {
    let g = rom_grid();
    let ms = find_soul_torches(&g);
    assert_eq!(ms.len(), 2048);
    assert!(!ms.contains(&Pos { x: 20, y: 0, z: 0 }));
}

#[test]
fn full_layout_groups_into_128_lines_of_16() {
    let g = rom_grid();
    let lines = find_program_lines(&g);
    assert_eq!(lines.len(), 128);
    for l in &lines {
        assert_eq!(l.bits.len(), 16);
        for (i, p) in l.bits.iter().enumerate() {
            assert_eq!(p.x, i as i64);
            assert_eq!((p.y, p.z), (l.y, l.z));
        }
    }
    assert_eq!(check_layout(&lines), Ok(()));
}

#[test]
fn one_marker_missing_is_malformed() {
    let mut g = rom_grid();
    g.set_block(Pos { x: 4, y: 2, z: 9 }, BlockState::stone());
    assert_eq!(find_soul_torches(&g).len(), 2047);
    let lines = find_program_lines(&g);
    assert_eq!(lines.len(), 128);
    assert_eq!(lines.iter().filter(|l| l.bits.len() == 15).count(), 1);
    assert_eq!(check_layout(&lines), Err(SchemError::MalformedLayout));
    assert_eq!(program_rom(g, vec![1]).err(), Some(SchemError::MalformedLayout));
}

#[test]
fn extra_line_is_malformed() {
    let mut g = rom_grid();
    for b in 0..16 {
        g.set_block(Pos { x: b, y: 30, z: 30 }, torch());
    }
    let lines = find_program_lines(&g);
    assert_eq!(lines.len(), 129);
    assert_eq!(check_layout(&lines), Err(SchemError::MalformedLayout));
}

#[test]
fn lines_ordered_row_major_then_by_z() {
    let g = rom_grid();
    let ordered = order_lines(find_program_lines(&g)).unwrap();
    assert_eq!(ordered.len(), 128);
    for (t, line) in ordered.iter().enumerate() {
        let t = t as i64;
        for (b, p) in line.iter().enumerate() {
            assert_eq!(*p, Pos { x: b as i64, y: t / 16, z: t % 16 });
        }
    }
}

#[test]
fn ordering_ignores_input_order() {
    let g = rom_grid();
    let mut lines = find_program_lines(&g);
    lines.reverse();
    let a = order_lines(lines).unwrap();
    let b = order_lines(find_program_lines(&g)).unwrap();
    assert_eq!(a, b);
}

#[test]
fn ordering_without_a_candidate_is_ambiguous() {
    let line = |y: i64, z: i64| BitLine { y, z, bits: vec![Pos { x: 0, y, z }] };
    let lines: Vec<BitLine> = (0..128).map(|k| line(k, 0)).collect();
    assert_eq!(order_lines(lines).err(), Some(SchemError::AmbiguousLayout));
}

#[test]
fn imprint_sets_bits_zero_and_two_of_line_zero() {
    let g = rom_grid();
    let out = program_rom(g, vec![0b0000_0000_0000_0101]).unwrap();
    for x in 0..16 {
        let b = state_at(&out, Pos { x, y: 0, z: 0 });
        if x == 0 || x == 2 {
            assert_eq!(b.to_text(), format!("{}[facing=north]", ACTIVE));
        } else {
            assert_eq!(b.to_text(), format!("{}[facing=north]", INERT));
        }
    }
    for r in 0..8 {
        for z in 0..16 {
            if r == 0 && z == 0 {
                continue;
            }
            for x in 0..16 {
                assert_eq!(state_at(&out, Pos { x, y: r, z }).id(), INERT);
            }
        }
    }
    assert_eq!(state_at(&out, Pos { x: 20, y: 0, z: 0 }).to_text(), "minecraft:air");
    assert_eq!(state_at(&out, Pos { x: -3, y: 5, z: 7 }).to_text(), "minecraft:air");
    assert_eq!(out.blocks().len(), 2050);
}

#[test]
fn imprint_ignores_words_past_the_last_line() {
    let g = rom_grid();
    let mut program = vec![0u16; 129];
    program[127] = 0x8000;
    program[128] = 0xFFFF;
    let out = program_rom(g, program).unwrap();
    assert_eq!(state_at(&out, Pos { x: 15, y: 7, z: 15 }).id(), ACTIVE);
    assert_eq!(out.blocks().iter().filter(|(_, b)| b.id() == ACTIVE).count(), 1);
}

#[test]
fn imprint_twice_with_empty_program_is_imprint_once() {
    let once = program_rom(rom_grid(), vec![0, 0, 0]).unwrap();
    let twice = program_rom(program_rom(rom_grid(), vec![0, 0, 0]).unwrap(), vec![0, 0, 0]).unwrap();
    assert_eq!(once.blocks().len(), twice.blocks().len());
    for ((p, a), (q, b)) in once.blocks().iter().zip(twice.blocks().iter()) {
        assert_eq!(p, q);
        assert_eq!(a.to_text(), b.to_text());
    }
}

#[test]
fn imprint_twice_with_set_bits_loses_the_layout() {
    let once = program_rom(rom_grid(), vec![1]).unwrap();
    assert_eq!(program_rom(once, vec![1]).err(), Some(SchemError::MalformedLayout));
}

#[test]
fn same_input_gives_same_output() {
    let a = program_rom(rom_grid(), vec![0x1234, 0xFFFF]).unwrap();
    let b = program_rom(rom_grid(), vec![0x1234, 0xFFFF]).unwrap();
    for ((p, x), (q, y)) in a.blocks().iter().zip(b.blocks().iter()) {
        assert_eq!(p, q);
        assert_eq!(x.to_text(), y.to_text());
    }
}
