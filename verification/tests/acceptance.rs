#[test]
fn ac1_compilation_and_tests_pass() {
    // If this test compiles and runs, the crate compiled successfully.
    assert!(true, "crate compiled; clippy gate is run by harness");
}
