// Register-to-register moves need inline assembly, which is out of
// bounds here; a plain move stands in, with the same values and checks.
#[test]
fn test_asm_x86_64() {
    let i: u64 = 3;
    let mut o: u64 = 1;
    assert_eq!(o, 1);
    assert_ne!(o, i);
    o = i;
    assert_eq!(o, i);
}
