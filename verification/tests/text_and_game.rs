//! Tests of the text helpers, the game directory type, and settings
//! values.

use ori_rando_installer::game::GameDir;
use ori_rando_installer::settings::LaunchType;
use ori_rando_installer::text::{file_name_of, str_eq, u64_to_string};

#[test]
fn u64_to_string_exact_values() {
    assert_eq!(u64_to_string(0), "0");
    assert_eq!(u64_to_string(7), "7");
    assert_eq!(u64_to_string(10), "10");
    assert_eq!(u64_to_string(407), "407");
    assert_eq!(u64_to_string(18446744073709551615), "18446744073709551615");
}

#[test]
fn file_name_of_handles_both_separators() {
    assert_eq!(file_name_of("a/b/c.dll"), "c.dll");
    assert_eq!(file_name_of(r"C:\x\y.dll"), "y.dll");
    assert_eq!(file_name_of("plain.dll"), "plain.dll");
    assert_eq!(file_name_of(""), "");
    assert_eq!(file_name_of("dir/"), "");
}

#[test]
fn str_eq_is_exact() {
    assert!(str_eq("", ""));
    assert!(str_eq("abc", "abc"));
    assert!(!str_eq("abc", "abd"));
    assert!(!str_eq("abc", "ab"));
    assert!(str_eq("päth/ü", "päth/ü"));
}

#[test]
fn game_dir_derives_managed_path() {
    let dir = GameDir::new("steam/common/ori".to_owned());
    assert_eq!(dir.install, "steam/common/ori");
    assert_eq!(dir.managed, "steam/common/ori/oriDE_Data/Managed");
}

#[test]
fn game_dir_is_set_only_with_install_path() {
    assert!(!GameDir::default().is_set());
    assert!(!GameDir::new(String::new()).is_set());
    assert!(GameDir::new("x".to_owned()).is_set());
}

#[test]
fn game_exe_path_is_inside_install_dir() {
    let dir = GameDir::new("steam/ori".to_owned());
    assert_eq!(dir.game_exe_path(), "steam/ori/oriDE.exe");
}

#[test]
fn launch_type_labels() {
    assert_eq!(LaunchType::Steam.display_string(), "Steam");
    assert_eq!(LaunchType::File.display_string(), "File");
    assert_ne!(LaunchType::Steam, LaunchType::File);
}
