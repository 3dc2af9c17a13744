use tuliprox_store::ui_names::{
    str_eq, ExplorerAction, InputFormPage, StrmFormPage, TableAction, TargetFormPage,
};

#[test]
fn input_form_pages_roundtrip() {
    for p in [
        InputFormPage::Main,
        InputFormPage::Options,
        InputFormPage::Staged,
        InputFormPage::Advanced,
        InputFormPage::Alias,
    ] {
        assert_eq!(InputFormPage::from_name(p.name()), Ok(p));
        assert_eq!(p.name().parse::<InputFormPage>(), Ok(p));
    }
    assert_eq!(InputFormPage::Staged.name(), "Staged");
    assert_eq!(
        InputFormPage::from_name("main"),
        Err("Unknown input form page: main".to_string())
    );
}

#[test]
fn small_form_pages_and_actions() {
    assert_eq!(StrmFormPage::from_name("Options"), Ok(StrmFormPage::Options));
    assert_eq!(StrmFormPage::from_name("X"), Err("Unknown strm output form page: X".to_string()));
    assert_eq!(TargetFormPage::Main.name(), "Main");
    assert_eq!(TargetFormPage::from_name(""), Err("Unknown target form page: ".to_string()));
    assert_eq!(TableAction::from_name("refresh"), Ok(TableAction::Refresh));
    assert_eq!(TableAction::Delete.name(), "delete");
    assert_eq!(TableAction::from_name("Edit"), Err("Unknown TableAction: Edit".to_string()));
    assert_eq!(
        ExplorerAction::from_name("copy_link_provider_url"),
        Ok(ExplorerAction::CopyLinkProviderUrl)
    );
    assert_eq!(ExplorerAction::CopyLinkTuliproxWebPlayerUrl.name(), "copy_link_tuliprox_webplayer_url");
}

#[test]
fn string_equality() {
    assert!(str_eq("abc", "abc"));
    assert!(!str_eq("abc", "abd"));
    assert!(!str_eq("ab", "abc"));
    assert!(str_eq("", ""));
    assert!(str_eq("ü", "ü"));
}
