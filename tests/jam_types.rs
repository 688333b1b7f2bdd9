use rating_exchange::jam_types::JamType;


#[test]
fn itch_jam_link_example_is_valid() {
    assert!(JamType::Itch
        .normalize_jam_link(JamType::Itch.jam_link_example())
        .is_some());
}

#[test]
fn itch_jam_link_valid_without_trailing_slash() {
    assert!(JamType::Itch
        .normalize_jam_link("https://itch.io/jam/bevy-jam-2")
        .is_some());
}

#[test]
fn itch_jam_link_valid_with_trailing_slash() {
    assert!(JamType::Itch
        .normalize_jam_link("https://itch.io/jam/bevy_jam_2/")
        .is_some());
}

#[test]
fn itch_jam_link_invalid() {
    assert!(JamType::Itch
        .normalize_jam_link("https://itch.io/jam/bevy-jam-2/rate/1675016")
        .is_none());
}

#[test]
fn itch_jam_entry_link_invalid() {
    assert!(JamType::Itch
        .normalize_jam_link("https://redteapot.itch.io/one-clicker")
        .is_none());
}

#[test]
fn itch_jam_entry_example_is_valid() {
    let jam = JamType::Itch
        .normalize_jam_link(JamType::Itch.jam_link_example())
        .unwrap();

    let entry = JamType::Itch.jam_entry_link_example(&jam);
    assert!(JamType::Itch
        .normalize_jam_entry_link(&jam, &entry)
        .is_some());
}

#[test]
fn itch_jam_entry_link_valid_without_trailing_slash() {
    assert!(JamType::Itch
        .normalize_jam_entry_link(
            "https://itch.io/jam/bevy-jam-2",
            "https://itch.io/jam/bevy-jam-2/rate/1675016"
        )
        .is_some());
}

#[test]
fn itch_jam_entry_link_valid_with_trailing_slash() {
    assert!(JamType::Itch
        .normalize_jam_entry_link(
            "https://itch.io/jam/bevy-jam-2",
            "https://itch.io/jam/bevy-jam-2/rate/1675016/"
        )
        .is_some());
}

#[test]
fn itch_jam_pages_are_not_entries() {
    assert!(JamType::Itch
        .normalize_jam_link("https://itch.io/jam/foo_bar_1234567890/entries")
        .is_none());
    assert!(JamType::Itch
        .normalize_jam_link("https://itch.io/jam/foo_bar_1234567890/entries/")
        .is_none());

    assert!(JamType::Itch
        .normalize_jam_link("https://itch.io/jam/foo_bar_1234567890/results")
        .is_none());
    assert!(JamType::Itch
        .normalize_jam_link("https://itch.io/jam/foo_bar_1234567890/results/")
        .is_none());

    assert!(JamType::Itch
        .normalize_jam_link("https://itch.io/jam/foo_bar_1234567890/community")
        .is_none());
    assert!(JamType::Itch
        .normalize_jam_link("https://itch.io/jam/foo_bar_1234567890/community/")
        .is_none());

    assert!(JamType::Itch
        .normalize_jam_link("https://itch.io/jam/foo_bar_1234567890/screenshots")
        .is_none());
    assert!(JamType::Itch
        .normalize_jam_link("https://itch.io/jam/foo_bar_1234567890/screenshots/")
        .is_none());

    assert!(JamType::Itch
        .normalize_jam_link("https://itch.io/jam/foo_bar-123456-7890/feed")
        .is_none());
    assert!(JamType::Itch
        .normalize_jam_link("https://itch.io/jam/foo_bar-123456-7890/feed/")
        .is_none());
}

#[test]
fn itch_jam_entry_pages_are_not_entries() {
    assert!(JamType::Itch
        .normalize_jam_entry_link(
            "https://itch.io/jam/foo_bar_1234567890",
            "https://itch.io/jam/foo_bar_1234567890"
        )
        .is_none());
    assert!(JamType::Itch
        .normalize_jam_entry_link(
            "https://itch.io/jam/foo_bar_1234567890",
            "https://itch.io/jam/foo_bar_1234567890/"
        )
        .is_none());

    assert!(JamType::Itch
        .normalize_jam_entry_link(
            "https://itch.io/jam/foo_bar_1234567890",
            "https://itch.io/jam/foo_bar_1234567890/entries"
        )
        .is_none());
    assert!(JamType::Itch
        .normalize_jam_entry_link(
            "https://itch.io/jam/foo_bar_1234567890",
            "https://itch.io/jam/foo_bar_1234567890/entries/"
        )
        .is_none());

    assert!(JamType::Itch
        .normalize_jam_entry_link(
            "https://itch.io/jam/foo_bar_1234567890",
            "https://itch.io/jam/foo_bar_1234567890/results"
        )
        .is_none());
    assert!(JamType::Itch
        .normalize_jam_entry_link(
            "https://itch.io/jam/foo_bar_1234567890",
            "https://itch.io/jam/foo_bar_1234567890/results/"
        )
        .is_none());

    assert!(JamType::Itch
        .normalize_jam_entry_link(
            "https://itch.io/jam/foo_bar_1234567890",
            "https://itch.io/jam/foo_bar_1234567890/community"
        )
        .is_none());
    assert!(JamType::Itch
        .normalize_jam_entry_link(
            "https://itch.io/jam/foo_bar_1234567890",
            "https://itch.io/jam/foo_bar_1234567890/community/"
        )
        .is_none());

    assert!(JamType::Itch
        .normalize_jam_entry_link(
            "https://itch.io/jam/foo_bar_1234567890",
            "https://itch.io/jam/foo_bar_1234567890/screenshots"
        )
        .is_none());
    assert!(JamType::Itch
        .normalize_jam_entry_link(
            "https://itch.io/jam/foo_bar_1234567890",
            "https://itch.io/jam/foo_bar_1234567890/screenshots/"
        )
        .is_none());

    assert!(JamType::Itch
        .normalize_jam_entry_link(
            "https://itch.io/jam/foo_bar-123456-7890",
            "https://itch.io/jam/foo_bar-123456-7890/feed"
        )
        .is_none());
    assert!(JamType::Itch
        .normalize_jam_entry_link(
            "https://itch.io/jam/foo_bar-123456-7890",
            "https://itch.io/jam/foo_bar-123456-7890/feed/"
        )
        .is_none());
}

#[test]
fn ludum_dare_jam_link_example_is_valid() {
    assert!(JamType::LudumDare
        .normalize_jam_link(JamType::LudumDare.jam_link_example())
        .is_some());
}

#[test]
fn ludum_dare_jam_link_valid_without_trailing_slash() {
    assert!(JamType::LudumDare
        .normalize_jam_link("https://ldjam.com/events/ludum-dare/49")
        .is_some());
}

#[test]
fn ludum_dare_jam_link_valid_with_trailing_slash() {
    assert!(JamType::LudumDare
        .normalize_jam_link("https://ldjam.com/events/ludum-dare/49/")
        .is_some());
}

#[test]
fn ludum_dare_jam_entry_example_is_valid() {
    let jam = JamType::LudumDare
        .normalize_jam_link(JamType::LudumDare.jam_link_example())
        .unwrap();

    let entry = JamType::LudumDare.jam_entry_link_example(&jam);
    assert!(JamType::LudumDare
        .normalize_jam_entry_link(&jam, &entry)
        .is_some());
}

#[test]
fn ludum_dare_jam_entry_link_valid_without_trailing_slash() {
    assert!(JamType::LudumDare
        .normalize_jam_entry_link(
            "https://ldjam.com/events/ludum-dare/49",
            "https://ldjam.com/events/ludum-dare/49/unstable98-exe"
        )
        .is_some());
}

#[test]
fn ludum_dare_jam_entry_link_valid_with_trailing_slash() {
    assert!(JamType::LudumDare
        .normalize_jam_entry_link(
            "https://ldjam.com/events/ludum-dare/49",
            "https://ldjam.com/events/ludum-dare/49/unstable98-exe/"
        )
        .is_some());
}

#[test]
fn ludum_dare_jam_link_invalid() {
    assert!(JamType::Itch
        .normalize_jam_link("https://ldjam.com/events/ludum-dare/49/unstable98-exe")
        .is_none());
}

#[test]
fn ludum_dare_jam_entry_link_invalid() {
    assert!(JamType::Itch
        .normalize_jam_link("https://itch.io/jam/bevy-jam-2/rate/1675016")
        .is_none());
}

#[test]
fn ludum_dare_jam_pages_are_not_entries() {
    assert!(JamType::LudumDare
        .normalize_jam_link("https://ldjam.com/events/ludum-dare/5/results")
        .is_none());
    assert!(JamType::LudumDare
        .normalize_jam_link("https://ldjam.com/events/ludum-dare/6/results/")
        .is_none());

    assert!(JamType::LudumDare
        .normalize_jam_link("https://ldjam.com/events/ludum-dare/78/games")
        .is_none());
    assert!(JamType::LudumDare
        .normalize_jam_link("https://ldjam.com/events/ludum-dare/90/games/")
        .is_none());

    assert!(JamType::LudumDare
        .normalize_jam_link("https://ldjam.com/events/ludum-dare/500/theme")
        .is_none());
    assert!(JamType::LudumDare
        .normalize_jam_link("https://ldjam.com/events/ludum-dare/512/theme/")
        .is_none());

    assert!(JamType::LudumDare
        .normalize_jam_link("https://ldjam.com/events/ludum-dare/49/stats")
        .is_none());
    assert!(JamType::LudumDare
        .normalize_jam_link("https://ldjam.com/events/ludum-dare/49/stats/")
        .is_none());
}

#[test]
fn ludum_dare_jam_entry_pages_are_not_entries() {
    assert!(JamType::LudumDare
        .normalize_jam_entry_link(
            "https://ldjam.com/events/ludum-dare/5",
            "https://ldjam.com/events/ludum-dare/5/results"
        )
        .is_none());
    assert!(JamType::LudumDare
        .normalize_jam_entry_link(
            "https://ldjam.com/events/ludum-dare/6",
            "https://ldjam.com/events/ludum-dare/6/results/"
        )
        .is_none());

    assert!(JamType::LudumDare
        .normalize_jam_entry_link(
            "https://ldjam.com/events/ludum-dare/5",
            "https://ldjam.com/events/ludum-dare/5/results"
        )
        .is_none());
    assert!(JamType::LudumDare
        .normalize_jam_entry_link(
            "https://ldjam.com/events/ludum-dare/6",
            "https://ldjam.com/events/ludum-dare/6/results/"
        )
        .is_none());

    assert!(JamType::LudumDare
        .normalize_jam_entry_link(
            "https://ldjam.com/events/ludum-dare/78",
            "https://ldjam.com/events/ludum-dare/78/games"
        )
        .is_none());
    assert!(JamType::LudumDare
        .normalize_jam_entry_link(
            "https://ldjam.com/events/ludum-dare/90",
            "https://ldjam.com/events/ludum-dare/90/games/"
        )
        .is_none());

    assert!(JamType::LudumDare
        .normalize_jam_entry_link(
            "https://ldjam.com/events/ludum-dare/500",
            "https://ldjam.com/events/ludum-dare/500/theme"
        )
        .is_none());
    assert!(JamType::LudumDare
        .normalize_jam_entry_link(
            "https://ldjam.com/events/ludum-dare/512",
            "https://ldjam.com/events/ludum-dare/512/theme/"
        )
        .is_none());

    assert!(JamType::LudumDare
        .normalize_jam_entry_link(
            "https://ldjam.com/events/ludum-dare/49",
            "https://ldjam.com/events/ludum-dare/49/stats"
        )
        .is_none());
    assert!(JamType::LudumDare
        .normalize_jam_entry_link(
            "https://ldjam.com/events/ludum-dare/49",
            "https://ldjam.com/events/ludum-dare/49/stats/"
        )
        .is_none());
}

#[test]
fn jam_links_are_canonicalised() {
    assert_eq!(
        JamType::Itch.normalize_jam_link("https://itch.io/jam/bevy_jam_2/"),
        Some("https://itch.io/jam/bevy_jam_2".to_string())
    );
    assert_eq!(
        JamType::LudumDare.normalize_jam_link("https://ldjam.com/events/ludum-dare/49/"),
        Some("https://ldjam.com/events/ludum-dare/49".to_string())
    );
    assert_eq!(JamType::Itch.normalize_jam_link("https://itch.io/jam/"), None);
    assert_eq!(JamType::Itch.normalize_jam_link("https://itch.io/jam/Caps"), None);
    assert_eq!(JamType::LudumDare.normalize_jam_link("https://ldjam.com/events/ludum-dare/4x"), None);
}

#[test]
fn entry_links_are_canonicalised() {
    assert_eq!(
        JamType::Itch.normalize_jam_entry_link(
            "https://itch.io/jam/bevy-jam-2",
            "https://itch.io/jam/bevy-jam-2/rate/1675016/"
        ),
        Some("https://itch.io/jam/bevy-jam-2/rate/1675016".to_string())
    );
    assert_eq!(
        JamType::Itch.normalize_jam_entry_link(
            "https://itch.io/jam/bevy-jam-2",
            "https://itch.io/jam/bevy-jam-2/rate/"
        ),
        None
    );
    assert_eq!(
        JamType::LudumDare.normalize_jam_entry_link(
            "https://ldjam.com/events/ludum-dare/49",
            "https://ldjam.com/events/ludum-dare/49/unstable98-exe/"
        ),
        Some("https://ldjam.com/events/ludum-dare/49/unstable98-exe".to_string())
    );
    assert_eq!(
        JamType::LudumDare.normalize_jam_entry_link(
            "https://ldjam.com/events/ludum-dare/49",
            "https://ldjam.com/events/ludum-dare/50/some-game"
        ),
        None
    );
}

#[test]
fn entry_link_examples() {
    assert_eq!(
        JamType::Itch.jam_entry_link_example("https://itch.io/jam/x"),
        "https://itch.io/jam/x/rate/123456"
    );
    assert_eq!(
        JamType::LudumDare.jam_entry_link_example("https://ldjam.com/events/ludum-dare/1"),
        "https://ldjam.com/events/ludum-dare/1/example-game"
    );
}

#[test]
fn jam_link_example_values() {
    assert_eq!(JamType::Itch.jam_link_example(), "https://itch.io/jam/example-jam");
    assert_eq!(JamType::LudumDare.jam_link_example(), "https://ldjam.com/events/ludum-dare/123456");
}
