use local_search::config::Config;
use local_search::theme::{Color, Theme, ThemeColors};

#[test]
fn new_keeps_the_three_channels() {
    let c = Color::new(1, 2, 3);
    assert_eq!((c.r, c.g, c.b), (1, 2, 3));
}

#[test]
fn to_hex_writes_lower_case_digits() {
    assert_eq!(Color::new(0x18, 0xcc, 0xff).to_hex(), "#18ccff");
    assert_eq!(Color::new(0, 0, 0).to_hex(), "#000000");
    assert_eq!(Color::new(0x0a, 0xb0, 0x09).to_hex(), "#0ab009");
}

#[test]
fn from_hex_reads_both_cases() {
    let c = Color::from_hex("#1E1e2E").unwrap();
    assert_eq!((c.r, c.g, c.b), (0x1e, 0x1e, 0x2e));
    let c = Color::from_hex("#ffffff").unwrap();
    assert_eq!((c.r, c.g, c.b), (255, 255, 255));
}

#[test]
fn from_hex_reads_a_plus_sign_and_one_digit() {
    let c = Color::from_hex("#+f+0+a").unwrap();
    assert_eq!((c.r, c.g, c.b), (15, 0, 10));
}

#[test]
fn from_hex_refuses_what_is_not_a_color() {
    assert!(Color::from_hex("").is_none());
    assert!(Color::from_hex("181818").is_none());
    assert!(Color::from_hex("#18181").is_none());
    assert!(Color::from_hex("#1818188").is_none());
    assert!(Color::from_hex("#18181g").is_none());
    assert!(Color::from_hex("#1818-1").is_none());
    assert!(Color::from_hex("#18181+").is_none());
    assert!(Color::from_hex("#\u{e9}1234").is_none());
    assert!(Color::from_hex("#a\u{e9}123").is_none());
}

#[test]
fn hex_round_trip_gives_the_color_back() {
    for (r, g, b) in [(0u8, 0u8, 0u8), (255, 255, 255), (0x12, 0xab, 0x0f), (9, 10, 16)] {
        let c = Color::from_hex(&Color::new(r, g, b).to_hex()).unwrap();
        assert_eq!((c.r, c.g, c.b), (r, g, b));
    }
}

fn channels(c: &ThemeColors) -> [(u8, u8, u8); 5] {
    [
        (c.background_color.r, c.background_color.g, c.background_color.b),
        (c.foreground_color.r, c.foreground_color.g, c.foreground_color.b),
        (c.idle_color.r, c.idle_color.g, c.idle_color.b),
        (c.hovered_color.r, c.hovered_color.g, c.hovered_color.b),
        (c.clicked_color.r, c.clicked_color.g, c.clicked_color.b),
    ]
}

#[test]
fn get_all_colors_of_the_built_in_themes() {
    assert_eq!(
        channels(&Theme::Default.get_all_colors()),
        [
            (0x18, 0x18, 0x18),
            (0xcc, 0xcc, 0xcc),
            (0x20, 0x20, 0x20),
            (0x30, 0x30, 0x30),
            (0x40, 0x40, 0x40)
        ]
    );
    assert_eq!(
        channels(&Theme::CatppuccinLatte.get_all_colors()),
        [
            (0xef, 0xf1, 0xf5),
            (0x4c, 0x4f, 0x69),
            (0xdc, 0x8a, 0x78),
            (0xdd, 0x78, 0x78),
            (0xea, 0x76, 0xcb)
        ]
    );
    assert_eq!(
        channels(&Theme::CatppuccinMocha.get_all_colors()),
        [
            (0x1e, 0x1e, 0x2e),
            (0xcd, 0xd6, 0xf4),
            (0x31, 0x32, 0x44),
            (0x45, 0x47, 0x5a),
            (0x58, 0x5b, 0x70)
        ]
    );
}

#[test]
fn get_all_colors_of_a_custom_theme_are_its_own() {
    let colors = ThemeColors {
        background_color: Color::new(1, 2, 3),
        foreground_color: Color::new(4, 5, 6),
        idle_color: Color::new(7, 8, 9),
        hovered_color: Color::new(10, 11, 12),
        clicked_color: Color::new(13, 14, 15),
    };
    assert_eq!(
        channels(&Theme::Custom(colors).get_all_colors()),
        [(1, 2, 3), (4, 5, 6), (7, 8, 9), (10, 11, 12), (13, 14, 15)]
    );
}

#[test]
fn default_theme_and_color() {
    assert!(matches!(Theme::default(), Theme::Default));
    let c = Color::default();
    assert_eq!((c.r, c.g, c.b), (0, 0, 0));
}

#[test]
fn default_config_has_no_directory() {
    let config = Config::default();
    assert!(config.document_directories.is_empty());
    assert!(config.font_name.is_none());
    assert!(matches!(config.theme, Theme::Default));
}

#[test]
fn config_with_base_directory_lists_only_that_directory() {
    let config = Config::with_base_directory(String::from("/home/user/Documents/local-search"));
    assert_eq!(config.document_directories, vec![String::from("/home/user/Documents/local-search")]);
    assert!(config.font_name.is_none());
    assert!(matches!(config.theme, Theme::Default));
}
