use nuci::models::{
    default_package_manager, FileContent, PackageAction, PkgBackend, SopsConfig, SopsFiles,
};

#[test]
fn backends_by_name() {
    assert_eq!(PkgBackend::from_name("apk"), PkgBackend::Apk);
    assert_eq!(PkgBackend::from_name("opkg"), PkgBackend::Opkg);
    assert_eq!(PkgBackend::from_name(""), PkgBackend::Opkg);
    assert_eq!(PkgBackend::from_name("APK"), PkgBackend::Opkg);
    assert_eq!(
        PkgBackend::from_name(&default_package_manager()),
        PkgBackend::Opkg
    );
}

#[test]
fn package_entries_ask_for_install_or_removal() {
    let install = PackageAction::parse("luci");
    assert_eq!(install, PackageAction::Install("luci".into()));
    assert_eq!(install.name(), "luci");
    assert!(!install.is_remove());

    let remove = PackageAction::parse("-wpad");
    assert_eq!(remove, PackageAction::Remove("wpad".into()));
    assert_eq!(remove.name(), "wpad");
    assert_eq!(remove.quoted_name(), "'wpad'");
    assert!(remove.is_remove());

    assert_eq!(
        PackageAction::parse("--x"),
        PackageAction::Remove("-x".into())
    );
    assert_eq!(PackageAction::parse("a'b").quoted_name(), "'a'\\''b'");
}

#[test]
fn file_contents() {
    assert_eq!(FileContent::default(), FileContent::Text(String::new()));
    assert!(FileContent::default().is_empty());
    assert!(FileContent::Base64(String::new()).is_empty());
    assert!(!FileContent::Text("x".into()).is_empty());
    assert!(!FileContent::Base64("AA==".into()).is_empty());
}

#[test]
fn no_encrypted_secrets_by_default() {
    assert!(SopsConfig::default().sops.is_none());
    assert!(SopsFiles::default().files.is_empty());
}
