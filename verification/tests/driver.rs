use taint::driver::{compile_time_sysroot, sysroot_args, BuildEnv};

fn env() -> BuildEnv {
    BuildEnv {
        rustc_stage: None,
        rustup_home: None,
        multirust_home: None,
        rustup_toolchain: None,
        multirust_toolchain: None,
        rust_sysroot: None,
    }
}

fn s(text: &str) -> Option<String> {
    Some(text.to_string())
}

#[test]
fn no_sysroot_while_the_compiler_is_built() {
    let e = BuildEnv { rustc_stage: s("1"), rustup_home: s("/h"), rustup_toolchain: s("t"), ..env() };
    assert!(e.can_name_sysroot());
    assert_eq!(compile_time_sysroot(&e), None);
}

#[test]
fn sysroot_from_rustup() {
    let e = BuildEnv { rustup_home: s("/home/u/.rustup"), rustup_toolchain: s("nightly-x86_64"), ..env() };
    assert!(e.can_name_sysroot());
    assert_eq!(compile_time_sysroot(&e), s("/home/u/.rustup/toolchains/nightly-x86_64"));
}

#[test]
fn sysroot_from_multirust_when_rustup_is_silent() {
    let e = BuildEnv { multirust_home: s("/m"), multirust_toolchain: s("stable"), ..env() };
    assert_eq!(compile_time_sysroot(&e), s("/m/toolchains/stable"));
    let mixed = BuildEnv { rustup_home: s("/r"), multirust_home: s("/m"), multirust_toolchain: s("stable"), ..env() };
    assert_eq!(compile_time_sysroot(&mixed), s("/r/toolchains/stable"));
}

#[test]
fn sysroot_from_the_variable_when_home_or_toolchain_is_missing() {
    let e = BuildEnv { rustup_home: s("/r"), rust_sysroot: s("/opt/rust"), ..env() };
    assert!(e.can_name_sysroot());
    assert_eq!(compile_time_sysroot(&e), s("/opt/rust"));
    let both = BuildEnv { rustup_home: s("/r"), rustup_toolchain: s("t"), rust_sysroot: s("/opt/rust"), ..env() };
    assert_eq!(compile_time_sysroot(&both), s("/r/toolchains/t"));
}

#[test]
fn environment_that_names_nothing_is_recognised() {
    assert!(!env().can_name_sysroot());
    let e = BuildEnv { rustup_home: s("/r"), ..env() };
    assert!(!e.can_name_sysroot());
}

#[test]
fn sysroot_is_appended_to_the_arguments() {
    let args = vec!["taint".to_string(), "main.rs".to_string()];
    assert_eq!(sysroot_args(args, s("/opt/rust")), vec!["taint", "main.rs", "--sysroot", "/opt/rust"]);
}

#[test]
fn given_sysroot_is_kept() {
    let args = vec!["taint".to_string(), "--sysroot".to_string(), "/mine".to_string()];
    assert_eq!(sysroot_args(args, s("/opt/rust")), vec!["taint", "--sysroot", "/mine"]);
}

#[test]
fn arguments_stay_as_they_are_without_a_sysroot() {
    let args = vec!["taint".to_string()];
    assert_eq!(sysroot_args(args, None), vec!["taint"]);
    assert_eq!(sysroot_args(vec![], s("/x")), vec!["--sysroot", "/x"]);
}
