use rom_schem::blockstate::BlockState;
use rom_schem::error::SchemError;

fn pairs(ps: &[(&str, &str)]) -> Vec<(String, String)> {
    ps.iter().map(|(k, v)| (k.to_string(), v.to_string())).collect()
}

#[test]
fn parse_plain_identifier() {
    let b = BlockState::from_str("minecraft:stone").unwrap();
    assert_eq!(b.id(), "minecraft:stone");
    assert!(b.props().is_empty());
}

#[test]
fn parse_properties() {
    let b = BlockState::from_str("minecraft:wall_torch[facing=north,lit=true]").unwrap();
    assert_eq!(b.id(), "minecraft:wall_torch");
    assert_eq!(b.props(), &pairs(&[("facing", "north"), ("lit", "true")]));
}

#[test]
fn parse_splits_at_first_equals() {
    let b = BlockState::from_str("a[k=v=w]").unwrap();
    assert_eq!(b.props(), &pairs(&[("k", "v=w")]));
}

#[test]
fn parse_rejects_entry_without_equals() {
    assert_eq!(BlockState::from_str("a[b]").err(), Some(SchemError::MalformedProperty));
    assert_eq!(BlockState::from_str("a[]").err(), Some(SchemError::MalformedProperty));
    assert_eq!(BlockState::from_str("a[x=1,y]").err(), Some(SchemError::MalformedProperty));
}

#[test]
fn format_text() {
    let b = BlockState::with_props("minecraft:lever", pairs(&[("face", "wall"), ("powered", "false")]));
    assert_eq!(b.to_text(), "minecraft:lever[face=wall,powered=false]");
    assert_eq!(BlockState::air().to_text(), "minecraft:air");
}

#[test]
fn parse_of_format_gives_back_the_state() {
    let b = BlockState::with_props("minecraft:repeater", pairs(&[("delay", "2"), ("facing", "east")]));
    let back = BlockState::from_str(&b.to_text()).unwrap();
    assert_eq!(back.id(), b.id());
    assert_eq!(back.props(), b.props());
}

#[test]
fn new_identifier_keeps_properties() {
    let b = BlockState::with_props("minecraft:soul_wall_torch", pairs(&[("facing", "south")]));
    let c = b.same_props_new_id("minecraft:redstone_wall_torch");
    assert_eq!(c.to_text(), "minecraft:redstone_wall_torch[facing=south]");
    assert!(c.has_id("minecraft:redstone_wall_torch"));
    assert!(!c.has_id("minecraft:soul_wall_torch"));
}
