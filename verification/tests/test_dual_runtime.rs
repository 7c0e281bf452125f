#[test]
fn test_dual_runtime_not_enabled() {
    // This test runs when both features are not enabled
    // It's here to ensure the test file compiles even without both features
    println!("Dual runtime test requires both async_tokio and async_io features");
}
