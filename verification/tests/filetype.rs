use datkit::filetype::FileType;

#[test]
fn extension_classification() {
    assert_eq!(FileType::new("pal"), Some(FileType::Pal));
    assert_eq!(FileType::new("PAL"), Some(FileType::Pal));
    assert_eq!(FileType::new("Frm"), Some(FileType::Frm));
    assert_eq!(FileType::new("dat"), Some(FileType::Dat));
    assert_eq!(FileType::new("acm"), Some(FileType::Acm));
    assert_eq!(FileType::new("MVE"), Some(FileType::Mve));
    assert_eq!(FileType::new("txt"), None);
    assert_eq!(FileType::new(""), None);
}
