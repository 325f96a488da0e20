use rom_schem::blockstate::BlockState;
use rom_schem::codec::{decode_block_data, decode_palette, SchemBlockEntity, SchemFormat};
use rom_schem::error::SchemError;
use rom_schem::schematic::{BlockEntity, Metadata, Pos, Schematic};

fn small_grid() -> Schematic {
    let mut g = Schematic::new();
    g.original_data_version = 3465;
    g.original_offset = [1, 2, 3];
    g.set_block(Pos { x: 10, y: 5, z: 20 }, BlockState::stone());
    g.set_block(
        Pos { x: 11, y: 5, z: 21 },
        BlockState::with_props("minecraft:lever", vec![("powered".to_string(), "true".to_string())]),
    );
    g
}

fn format_with(palette: Vec<(String, i32)>, block_data: Vec<u8>, width: i16, length: i16) -> SchemFormat {
    SchemFormat {
        block_data,
        block_entities: Vec::new(),
        data_version: 1,
        height: 1,
        length,
        metadata: Metadata { offset_x: 0, offset_y: 0, offset_z: 0 },
        offset: vec![0, 0, 0],
        palette,
        palette_max: 0,
        version: 2,
        width,
    }
}

#[test]
fn bounding_box_of_grid() {
    let g = small_grid();
    assert_eq!((g.min_x(), g.max_x()), (10, 12));
    assert_eq!((g.min_y(), g.max_y()), (5, 6));
    assert_eq!((g.min_z(), g.max_z()), (20, 22));
    assert_eq!((g.width(), g.height(), g.length()), (2, 1, 2));
    let e = Schematic::new();
    assert_eq!((e.min_x(), e.max_x(), e.len_y()), (0, 0, 0));
}

#[test]
fn encode_numbers_palette_in_cell_order() {
    let g = small_grid();
    let (data, pal) = g.encode_block_data().unwrap();
    assert_eq!(pal, vec!["minecraft:stone".to_string(), "minecraft:air".to_string(), "minecraft:lever[powered=true]".to_string()]);
    assert_eq!(data, vec![0, 1, 1, 2]);
}

#[test]
fn to_format_fields() {
    let f = small_grid().to_format().unwrap();
    assert_eq!((f.width, f.height, f.length), (2, 1, 2));
    assert_eq!(f.version, 2);
    assert_eq!(f.palette_max, 3);
    assert_eq!(f.offset, vec![1, 2, 3]);
    assert_eq!(f.data_version, 3465);
    assert_eq!(f.palette[2], ("minecraft:lever[powered=true]".to_string(), 2));
}

#[test]
fn decode_of_encode_restores_blocks_shifted_to_origin() {
    let f = small_grid().to_format().unwrap();
    let g = Schematic::from_format(f).unwrap();
    assert_eq!(g.blocks().len(), 4);
    assert_eq!(g.block_at(Pos { x: 0, y: 0, z: 0 }).unwrap().to_text(), "minecraft:stone");
    assert_eq!(g.block_at(Pos { x: 1, y: 0, z: 0 }).unwrap().to_text(), "minecraft:air");
    assert_eq!(g.block_at(Pos { x: 1, y: 0, z: 1 }).unwrap().to_text(), "minecraft:lever[powered=true]");
    assert_eq!(g.original_offset, [1, 2, 3]);
    assert_eq!(g.original_width, 2);
}

#[test]
fn cleared_blocks_shrink_the_box() {
    let mut g = small_grid();
    g.set_block(Pos { x: 11, y: 5, z: 21 }, BlockState::air());
    let f = g.to_format().unwrap();
    assert_eq!((f.width, f.length), (2, 2));
    let mut h = Schematic::new();
    h.set_block(Pos { x: 4, y: 4, z: 4 }, BlockState::stone());
    let f = h.to_format().unwrap();
    assert_eq!((f.width, f.height, f.length), (1, 1, 1));
    assert_eq!(f.block_data, vec![0]);
}

#[test]
fn large_palette_index_takes_two_bytes() {
    let mut g = Schematic::new();
    for x in 0..130 {
        g.set_block(Pos { x, y: 0, z: 0 }, BlockState::new(&format!("minecraft:b{}", x)));
    }
    let (data, pal) = g.encode_block_data().unwrap();
    assert_eq!(pal.len(), 130);
    assert_eq!(&data[127..], &[127, 0x80, 0x01, 0x81, 0x01]);
    let g2 = Schematic::from_format(g.to_format().unwrap()).unwrap();
    assert_eq!(g2.block_at(Pos { x: 129, y: 0, z: 0 }).unwrap().id(), "minecraft:b129");
}

#[test]
fn palette_index_out_of_table() {
    let pal = vec![("minecraft:stone".to_string(), 0), ("minecraft:air".to_string(), 2)];
    assert_eq!(decode_palette(&pal).err(), Some(SchemError::InvalidPaletteIndex { index: 2 }));
    let pal = vec![("minecraft:stone".to_string(), -1)];
    assert_eq!(decode_palette(&pal).err(), Some(SchemError::InvalidPaletteIndex { index: -1 }));
}

#[test]
fn palette_entry_that_does_not_parse() {
    let pal = vec![("minecraft:torch[lit]".to_string(), 0)];
    assert_eq!(decode_palette(&pal).err(), Some(SchemError::MalformedProperty));
}

#[test]
fn block_data_referring_to_empty_slot() {
    let pal = vec![("minecraft:stone".to_string(), 0), ("minecraft:dirt".to_string(), 0)];
    let table = decode_palette(&pal).unwrap();
    assert_eq!(decode_block_data(&vec![0, 1], 2, 1, &table).err(), Some(SchemError::MissingPaletteEntry { index: 1 }));
    assert_eq!(decode_block_data(&vec![0, 5], 2, 1, &table).err(), Some(SchemError::InvalidPaletteIndex { index: 5 }));
}

#[test]
fn block_data_with_overlong_varint() {
    let f = format_with(vec![("minecraft:stone".to_string(), 0)], vec![0, 0x80, 0x80, 0x80, 0x80, 0x80, 0x00], 2, 1);
    assert_eq!(Schematic::from_format(f).err(), Some(SchemError::VarintOverflow { offset: 1 }));
}

#[test]
fn decode_cell_positions() {
    let f = format_with(vec![("minecraft:stone".to_string(), 0), ("minecraft:air".to_string(), 1)], vec![0, 1, 1, 0, 0, 1], 3, 2);
    let g = Schematic::from_format(f).unwrap();
    assert_eq!(g.blocks()[5].0, Pos { x: 2, y: 0, z: 1 });
    assert_eq!(g.blocks()[3].0, Pos { x: 0, y: 0, z: 1 });
    let f = format_with(vec![("minecraft:stone".to_string(), 0)], vec![0; 7], 3, 2);
    let g = Schematic::from_format(f).unwrap();
    assert_eq!(g.blocks()[6].0, Pos { x: 0, y: 1, z: 0 });
}

#[test]
fn zero_width_with_data_is_invalid() {
    let f = format_with(vec![("minecraft:stone".to_string(), 0)], vec![0], 0, 1);
    assert_eq!(Schematic::from_format(f).err(), Some(SchemError::InvalidDimensions));
}

#[test]
fn offset_needs_three_coordinates() {
    let mut f = format_with(vec![("minecraft:stone".to_string(), 0)], vec![0], 1, 1);
    f.offset = vec![1, 2];
    assert_eq!(Schematic::from_format(f).err(), Some(SchemError::MalformedPosition));
}

#[test]
fn box_wider_than_format_is_too_large() {
    let mut g = Schematic::new();
    g.set_block(Pos { x: 0, y: 0, z: 0 }, BlockState::stone());
    g.set_block(Pos { x: 40000, y: 0, z: 0 }, BlockState::stone());
    assert_eq!(g.encode_block_data().err(), Some(SchemError::GridTooLarge));
    assert_eq!(g.to_format().err(), Some(SchemError::GridTooLarge));
}

#[test]
fn block_entities_pass_through() {
    let mut g = small_grid();
    g.block_entities.push((
        Pos { x: 10, y: 5, z: 20 },
        BlockEntity { id: "minecraft:sign".to_string(), props: vec![("Color".to_string(), nbt::Value::String("red".to_string()))] },
    ));
    assert!(g.is_well_formed());
    let f = g.to_format().unwrap();
    assert_eq!(f.block_entities.len(), 1);
    assert_eq!(f.block_entities[0].id, "minecraft:sign");
    assert_eq!(f.block_entities[0].pos, vec![10, 5, 20]);
    let back = Schematic::from_format(f).unwrap();
    assert_eq!(back.block_entities.len(), 1);
    assert_eq!(back.block_entities[0].0, Pos { x: 10, y: 5, z: 20 });
    assert_eq!(back.block_entities[0].1.props[0].1, nbt::Value::String("red".to_string()));
}

#[test]
fn entity_position_needs_three_coordinates() {
    let mut f = format_with(vec![("minecraft:stone".to_string(), 0)], vec![0], 1, 1);
    f.block_entities.push(SchemBlockEntity { id: "minecraft:chest".to_string(), pos: vec![1, 2], props: Vec::new() });
    assert_eq!(Schematic::from_format(f).err(), Some(SchemError::MalformedPosition));
}
