//! Tests of catalog deduplication, backup decisions, and naming.

use ori_rando_installer::dll_classifier::{DllClassification, RandoVersion};
use ori_rando_installer::dll_management::{
    different_version, format_dll, install_target_path, organize_scan_results,
    should_backup_target, sort_and_filter_duplicates, unique_name_for_dll, GameDir, OriDll,
    OriDllKind,
};

fn v(major: u64, minor: u64, patch: u64) -> RandoVersion {
    RandoVersion { major, minor, patch }
}

fn entry(kind: OriDllKind, path: &str) -> OriDll {
    OriDll {
        kind,
        path: path.to_owned(),
        display_name: path.rsplit('/').next().unwrap().to_owned(),
    }
}

#[test]
fn five_candidates_dedup_to_three() {
    let dlls = vec![
        entry(OriDllKind::Vanilla, "m/a.dll"),
        entry(OriDllKind::Vanilla, "m/b.dll"),
        entry(OriDllKind::Rando(v(1, 0, 0)), "m/c.dll"),
        entry(OriDllKind::Rando(v(1, 0, 0)), "m/d.dll"),
        entry(OriDllKind::UnknownRando(42), "m/e.dll"),
    ];
    let (current, catalog) = organize_scan_results(dlls, "m/none.dll");
    assert!(current.is_none());
    assert_eq!(catalog.len(), 3);
    assert_eq!(catalog[0].kind, OriDllKind::Vanilla);
    assert_eq!(catalog[1].kind, OriDllKind::Rando(v(1, 0, 0)));
    assert_eq!(catalog[2].kind, OriDllKind::UnknownRando(42));
}

#[test]
fn catalog_is_sorted_by_kind_order() {
    let dlls = vec![
        entry(OriDllKind::UnknownRando(9), "m/a.dll"),
        entry(OriDllKind::Rando(v(2, 0, 0)), "m/b.dll"),
        entry(OriDllKind::UnknownRando(3), "m/c.dll"),
        entry(OriDllKind::Rando(v(1, 5, 0)), "m/d.dll"),
        entry(OriDllKind::Vanilla, "m/e.dll"),
    ];
    let (_, catalog) = organize_scan_results(dlls, "m/none.dll");
    assert_eq!(
        catalog.iter().map(|d| d.kind).collect::<Vec<_>>(),
        vec![
            OriDllKind::Vanilla,
            OriDllKind::Rando(v(1, 5, 0)),
            OriDllKind::Rando(v(2, 0, 0)),
            OriDllKind::UnknownRando(3),
            OriDllKind::UnknownRando(9),
        ]
    );
}

#[test]
fn current_entry_is_found_and_reported() {
    let installed = "m/Assembly-CSharp.dll";
    let dlls = vec![
        entry(OriDllKind::Rando(v(1, 0, 0)), "m/other.dll"),
        entry(OriDllKind::Vanilla, installed),
    ];
    let (current, catalog) = organize_scan_results(dlls, installed);
    let current = current.expect("current must be found");
    assert_eq!(current.kind, OriDllKind::Vanilla);
    assert_eq!(current.path, installed);
    assert_eq!(catalog.len(), 2);
}

#[test]
fn duplicate_of_current_survives_at_other_path() {
    // The current build duplicates a copy at another path: the copy is
    // the representative kept in the catalog, so the backup decision
    // sees that the build is already preserved elsewhere.
    let installed = "m/Assembly-CSharp.dll";
    let dlls = vec![
        entry(OriDllKind::Vanilla, installed),
        entry(OriDllKind::Vanilla, "m/backup.dll"),
        entry(OriDllKind::Rando(v(1, 0, 0)), "m/r.dll"),
    ];
    let (current, catalog) = organize_scan_results(dlls, installed);
    assert!(current.is_some());
    assert_eq!(catalog.len(), 2);
    let vanilla = catalog.iter().find(|d| d.kind == OriDllKind::Vanilla).unwrap();
    assert_eq!(vanilla.path, "m/backup.dll");
    assert!(!should_backup_target(installed, DllClassification::Vanilla, &catalog));
}

#[test]
fn sort_and_filter_without_current() {
    let mut dlls = vec![
        entry(OriDllKind::Rando(v(1, 0, 0)), "m/a.dll"),
        entry(OriDllKind::Rando(v(1, 0, 0)), "m/b.dll"),
    ];
    sort_and_filter_duplicates(&mut dlls, None);
    assert_eq!(dlls.len(), 1);
    assert_eq!(dlls[0].path, "m/a.dll");
}

#[test]
fn backup_needed_only_when_no_copy_exists() {
    let target = "m/Assembly-CSharp.dll";
    let catalog = vec![
        entry(OriDllKind::Vanilla, "m/vanilla.dll"),
        entry(OriDllKind::Rando(v(1, 2, 3)), target),
    ];
    // A vanilla copy exists away from the target: no backup.
    assert!(!should_backup_target(target, DllClassification::Vanilla, &catalog));
    // The versioned build is known only at the target path itself: backup.
    assert!(should_backup_target(
        target,
        DllClassification::Rando(v(1, 2, 3)),
        &catalog
    ));
    // An unknown build matches nothing: backup.
    assert!(should_backup_target(
        target,
        DllClassification::UnknownRando(7),
        &catalog
    ));
    // Differing versions do not count as copies.
    assert!(should_backup_target(
        target,
        DllClassification::Rando(v(9, 9, 9)),
        &catalog
    ));
}

#[test]
fn backup_names_are_deterministic() {
    let dir = "m";
    assert_eq!(
        unique_name_for_dll(dir, DllClassification::Vanilla, false),
        "m/Assembly-CSharp.vanilla.dll"
    );
    assert_eq!(
        unique_name_for_dll(dir, DllClassification::UnknownRando(5), false),
        "m/Assembly-CSharp.rando.dll"
    );
    assert_eq!(
        unique_name_for_dll(dir, DllClassification::Rando(v(1, 2, 3)), false),
        "m/Assembly-CSharp.rando.1.2.3.dll"
    );
    assert_eq!(
        unique_name_for_dll(dir, DllClassification::Invalid, false),
        "m/Assembly-CSharp.unknown.dll"
    );
}

#[test]
fn taken_backup_name_gets_random_suffix() {
    let deterministic = unique_name_for_dll("m", DllClassification::Vanilla, false);
    let suffixed = unique_name_for_dll("m", DllClassification::Vanilla, true);
    assert_ne!(deterministic, suffixed);
    // `<stem>.<10 chars>.dll` is 11 bytes longer than `<stem>.dll`.
    assert_eq!(suffixed.len(), deterministic.len() + 11);
    assert!(suffixed.starts_with("m/Assembly-CSharp.vanilla."));
    assert!(suffixed.ends_with(".dll"));
    let suffix = &suffixed["m/Assembly-CSharp.vanilla.".len()..suffixed.len() - 4];
    assert_eq!(suffix.len(), 10);
}

#[test]
fn managed_dir_and_target_path() {
    let game_dir = GameDir::new("C:/Games/Ori".to_owned());
    assert_eq!(game_dir.managed, "C:/Games/Ori/oriDE_Data/Managed");
    assert_eq!(
        install_target_path(&game_dir),
        "C:/Games/Ori/oriDE_Data/Managed/Assembly-CSharp.dll"
    );
}

#[test]
fn ori_dll_new_filters_ineligible_classifications() {
    assert!(OriDll::new("m/a.dll".to_owned(), DllClassification::Invalid).is_none());
    assert!(OriDll::new("m/a.dll".to_owned(), DllClassification::NonDe).is_none());

    let dll = OriDll::new("m/sub/a.dll".to_owned(), DllClassification::Vanilla).unwrap();
    assert_eq!(dll.kind, OriDllKind::Vanilla);
    assert_eq!(dll.path, "m/sub/a.dll");
    assert_eq!(dll.display_name, "a.dll");

    let dll = OriDll::new("plain.dll".to_owned(), DllClassification::Rando(v(1, 0, 0))).unwrap();
    assert_eq!(dll.display_name, "plain.dll");

    let dll = OriDll::new(
        r"C:\win\style\b.dll".to_owned(),
        DllClassification::UnknownRando(1),
    )
    .unwrap();
    assert_eq!(dll.display_name, "b.dll");
}

#[test]
fn format_dll_labels() {
    assert_eq!(format_dll(&None), "<None>");
    let vanilla = entry(OriDllKind::Vanilla, "m/a.dll");
    assert_eq!(format_dll(&Some(vanilla)), "Vanilla");
    let rando = entry(OriDllKind::Rando(v(2, 3, 4)), "m/b.dll");
    assert_eq!(format_dll(&Some(rando)), "Rando v2.3.4");
    let unknown = entry(OriDllKind::UnknownRando(1), "m/mystery.dll");
    assert_eq!(format_dll(&Some(unknown)), "Rando [mystery.dll]");
}

#[test]
fn different_version_compares_kinds() {
    let a = entry(OriDllKind::Rando(v(1, 0, 0)), "m/a.dll");
    let b = entry(OriDllKind::Rando(v(1, 0, 1)), "m/b.dll");
    let a2 = entry(OriDllKind::Rando(v(1, 0, 0)), "m/c.dll");
    assert!(different_version(&Some(a.clone()), &Some(b.clone())));
    assert!(!different_version(&Some(a.clone()), &Some(a2.clone())));
    assert!(different_version(&Some(a.clone()), &None));
    assert!(!different_version(&None, &Some(b)));
    assert!(!different_version(&None, &None));
}

#[test]
fn ori_dll_display_string() {
    assert_eq!(
        entry(OriDllKind::Vanilla, "m/a.dll").display_string(),
        "Vanilla"
    );
    assert_eq!(
        entry(OriDllKind::Rando(v(3, 0, 12)), "m/b.dll").display_string(),
        "Rando (3.0.12)"
    );
    assert_eq!(
        entry(OriDllKind::UnknownRando(1), "m/odd.dll").display_string(),
        "Rando (unknown) [odd.dll]"
    );
}
