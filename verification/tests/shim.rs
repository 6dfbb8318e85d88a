use cargo_fuzz_core::callgraph_shim::{cargo_toml, LIB_RS};

#[test]
fn shim_cargo_toml_is_pure_rust() {
    let manifest = cargo_toml("0.4.99");
    assert!(manifest.contains("name = \"libfuzzer-sys\""));
    assert!(!manifest.contains("build ="));
    assert!(!manifest.contains("[build-dependencies]"));
}

#[test]
fn shim_cargo_toml_has_the_version() {
    let manifest = cargo_toml("0.4.99");
    assert!(manifest.contains("version = \"0.4.99\""));
    assert!(!cargo_toml("1.2.3").contains("0.4.99"));
}

#[test]
fn shim_runtime_exports_rust_main_and_normalizes_pcs() {
    assert!(LIB_RS.contains("pub extern \"C\" fn main() -> i32"));
    assert!(LIB_RS.contains("/proc/self/maps"));
    assert!(LIB_RS.contains("runtime_pc.checked_sub(base)"));
    assert!(!LIB_RS.contains("thread_local!"));
    assert!(!LIB_RS.contains("main.c"));
}
