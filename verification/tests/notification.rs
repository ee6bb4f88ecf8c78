use autorenamer::file_ops::{gen_home, icon_path, notification_body, notification_summary};

#[test]
fn summary_names_the_season() {
    assert_eq!(notification_summary(1), "Renaming Season 1 complete");
    assert_eq!(notification_summary(12), "Renaming Season 12 complete");
    assert_eq!(notification_summary(-3), "Renaming Season -3 complete");
    assert_eq!(notification_summary(i32::MIN), format!("Renaming Season {} complete", i32::MIN));
}

#[test]
fn body_gives_the_count() {
    assert_eq!(notification_body(0), "A total of 0 episodes renamed");
    assert_eq!(notification_body(50000), "A total of 50000 episodes renamed");
    assert_eq!(
        notification_body(usize::MAX),
        format!("A total of {} episodes renamed", usize::MAX)
    );
}

#[test]
fn icon_lies_below_the_home_directory() {
    assert_eq!(icon_path("/home/alice"), "/home/alice/.config/notification_icons/anime.svg");
    assert_eq!(icon_path("/home/alice/"), "/home/alice/.config/notification_icons/anime.svg");
    assert_eq!(icon_path("/"), "/.config/notification_icons/anime.svg");
    assert_eq!(icon_path(""), ".config/notification_icons/anime.svg");
    for home in ["/home/alice", "/home/alice/", "/", "", "rel", "\u{e9}/"] {
        let joined = std::path::Path::new(home).join(".config/notification_icons/anime.svg");
        assert_eq!(icon_path(home), joined.to_str().unwrap());
    }
}

#[test]
fn home_is_the_one_that_dirs_gives() {
    let expected = dirs::home_dir().and_then(|home| home.to_str().map(|text| text.to_string()));
    assert_eq!(gen_home(), expected);
}
