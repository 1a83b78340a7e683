#[test]
pub fn bad_example_dummy() {}
