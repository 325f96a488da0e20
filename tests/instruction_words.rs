use rom_schem::instruction::{Condition, Instruction, ReducedRegister, Register};
use rom_schem::shorthands;

#[test]
fn nop_word() {
    assert_eq!(shorthands::nop().encode(), 0x8088);
}

#[test]
fn jmp_word() {
    assert_eq!(shorthands::jmp(0).encode(), 0xA000);
    assert_eq!(shorthands::jmp(0x42).encode(), 0xA042);
}

#[test]
fn relative_jump_word() {
    assert_eq!(shorthands::jmp_rel(-1).encode(), 0xA1FF);
    assert_eq!(shorthands::jeq_rel(3).encode(), 0xA703);
}

#[test]
fn arithmetic_words() {
    assert_eq!(shorthands::add(ReducedRegister::Rra, Register::Rb, Register::Rc).encode(), 0x3012);
    assert_eq!(shorthands::sub_carry(ReducedRegister::Rrh, Register::Rpc, Register::Rout).encode(), 0x2FFA);
    assert_eq!(shorthands::cmp_0(ReducedRegister::Rrc).encode(), 0x2288);
}

#[test]
fn move_words() {
    assert_eq!(shorthands::cmoveq(Register::Ra, Register::Rb).encode(), 0x8601);
    let m = Instruction::Move { condition: Condition::Carry, set_flags: true, src: Register::Rin, dst: Register::Rflags };
    assert_eq!(m.encode(), 0x8FBE);
}

#[test]
fn register_numbers() {
    assert_eq!(Register::from_num(15), Some(Register::Rpc));
    assert_eq!(Register::from_num(16), None);
    assert_eq!(ReducedRegister::from_num(8), None);
    assert_eq!(Register::Rh.reduce(), Some(ReducedRegister::Rrh));
    assert_eq!(Register::Rnull.reduce(), None);
    assert_eq!(Condition::from_num(7), Some(Condition::Carry));
    assert_eq!(ReducedRegister::Rre.into_register(), Register::Re);
}
