use escapepod::paths::{cargo_profile, escapepod_bin, target_dir};

#[test]
fn cargo_profile_names_the_build() {
    assert_eq!(cargo_profile(true), "debug");
    assert_eq!(cargo_profile(false), "release");
}

#[test]
fn target_dir_joins_workspace_and_profile() {
    assert_eq!(target_dir("/src/ws", "debug"), "/src/ws/target/debug");
    assert_eq!(target_dir("/src/ws", "release"), "/src/ws/target/release");
}

#[test]
fn escapepod_bin_sits_in_the_target_dir() {
    assert_eq!(escapepod_bin("/src/ws/target/debug"), "/src/ws/target/debug/escapepod");
}
