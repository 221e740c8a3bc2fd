use gd_gear_compare::save_parser::DirEntryInfo;
use gd_gear_compare::settings::{validate_save_dir, SaveDirListing, Settings};

#[test]
fn a_file_is_not_a_save_folder() {
    assert_eq!(
        validate_save_dir("C:\\x", &SaveDirListing::NotAFolder).unwrap_err(),
        "C:\\x is not a folder"
    );
}

#[test]
fn an_unreadable_folder_reports_why() {
    assert_eq!(
        validate_save_dir("D:\\s", &SaveDirListing::Unreadable("access denied".to_string())).unwrap_err(),
        "could not read D:\\s: access denied"
    );
}

#[test]
fn a_save_folder_needs_a_character_subfolder() {
    let listing = SaveDirListing::Entries(vec![
        DirEntryInfo { name: Some("_file.txt".to_string()), is_dir: false },
        DirEntryInfo { name: Some("Other".to_string()), is_dir: true },
    ]);
    let err = validate_save_dir("E:\\main", &listing).unwrap_err();
    assert!(err.starts_with("E:\\main doesn't look like a Grim Dawn save folder"));
    assert!(err.contains("\"_YourCharacterName\""));
    let listing = SaveDirListing::Entries(vec![DirEntryInfo { name: Some("_Hero".to_string()), is_dir: true }]);
    assert!(validate_save_dir("E:\\main", &listing).is_ok());
}

#[test]
fn default_settings_have_no_override() {
    assert!(Settings::default().save_dir_override.is_none());
}
