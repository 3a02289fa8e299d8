use lib::project2::stack_builder::{StackBuilder, USER_STACK_SIZE, USER_STACK_TOP};

fn at(b: &StackBuilder, addr: usize, len: usize) -> Vec<u8> {
    b.stack.load(addr, len).unwrap()
}

#[test]
fn new_stack_is_empty_and_zeroed() {
    let b = StackBuilder::new().unwrap();
    assert_eq!(b.sp(), 0x4748_0000);
    assert_eq!(b.stack.base, USER_STACK_TOP - USER_STACK_SIZE);
    assert_eq!(b.stack.bytes.len(), 0x10000);
    assert!(b.stack.bytes.iter().all(|x| *x == 0));
}

#[test]
fn strings_land_where_the_arguments_are_expected() {
    // The arguments of `/bin/ls -l foo bar`, pushed last first.
    let mut b = StackBuilder::new().unwrap();
    assert_eq!(b.push_str("bar"), 0x4747fffc);
    assert_eq!(b.push_str("foo"), 0x4747fff8);
    assert_eq!(b.push_str("-l"), 0x4747fff5);
    assert_eq!(b.push_str("/bin/ls"), 0x4747ffed);
    assert_eq!(at(&b, 0x4747ffed, 19), b"/bin/ls\0-l\0foo\0bar\0".to_vec());
}

#[test]
fn align_rounds_the_stack_pointer_down() {
    let mut b = StackBuilder::new().unwrap();
    b.push_str("/bin/ls");
    assert_eq!(b.sp(), 0x4747fff8);
    b.push_bytes(&[1, 2, 3]);
    assert_eq!(b.sp(), 0x4747fff5);
    b.align(8);
    assert_eq!(b.sp(), 0x4747fff0);
    b.align(8);
    assert_eq!(b.sp(), 0x4747fff0);
    b.align(16);
    assert_eq!(b.sp(), 0x4747fff0);
}

#[test]
fn push_usize_is_little_endian() {
    let mut b = StackBuilder::new().unwrap();
    let sp = b.push_usize(0x0102_0304_0506_0708);
    assert_eq!(sp, USER_STACK_TOP - 8);
    assert_eq!(at(&b, sp, 8), vec![8, 7, 6, 5, 4, 3, 2, 1]);
    assert_eq!(b.finish(), USER_STACK_TOP - 8);
}
