use podspine::metrics::{split_buckets, ErrorKind};
use podspine::ui::{
    percent_encode, qr_svg, qr_svg_sized, strip_scheme, subscribe_links, Theme, STYLE,
};

#[test]
fn error_labels_are_stable_snake_case() {
    assert_eq!(ErrorKind::NotFound.as_label(), "not_found");
    assert_eq!(ErrorKind::Forbidden.as_label(), "forbidden");
    assert_eq!(ErrorKind::Internal.as_label(), "internal");
}

#[test]
fn split_buckets_are_ascending_and_positive() {
    let buckets = split_buckets();
    assert!(buckets.windows(2).all(|w| w[0] < w[1]));
    assert!(buckets.iter().all(|b| *b > 0));
}

#[test]
fn an_unencodable_qr_yields_an_empty_string_not_a_panic() {
    let too_long = "u".repeat(4000);
    assert!(qr_svg_sized(&too_long, 180).is_empty());
    assert!(qr_svg_sized("http://podspine.test/feed/abc.xml", 180).contains("<svg"));
}

#[test]
fn style_supports_os_dark_mode() {
    assert!(STYLE.contains("color-scheme: light dark"));
    assert!(STYLE.contains("@media (prefers-color-scheme: dark)"));
    assert!(STYLE.contains("--bg:#18181b"));
}

#[test]
fn subscribe_links_cover_major_apps_and_strip_scheme() {
    let links = subscribe_links("https://ex.com/feed/abc.xml");
    let apple = links.iter().find(|l| l.name == "Apple Podcasts").unwrap();
    assert_eq!(apple.url, "podcast://ex.com/feed/abc.xml");
    let oc = links.iter().find(|l| l.name == "Overcast").unwrap();
    assert!(oc.url.contains("url=https%3A%2F%2Fex.com%2Ffeed%2Fabc.xml"));
    for app in ["Pocket Casts", "Castro", "AntennaPod", "Podcast Addict"] {
        assert!(links.iter().any(|l| l.name == app), "missing {app}");
    }
}

#[test]
fn qr_encodes_without_panicking() {
    assert!(qr_svg("http://x/feed/a.xml").contains("<svg"));
    let _ = qr_svg("");
}

#[test]
fn a_larger_code_is_another_picture() {
    assert_ne!(qr_svg_sized("http://x", 180), qr_svg_sized("http://x", 600));
    assert_eq!(qr_svg("http://x"), qr_svg_sized("http://x", 180));
}

#[test]
fn text_is_encoded_byte_by_byte() {
    assert_eq!(percent_encode("a-b_c.d~e"), "a-b_c.d~e");
    assert_eq!(percent_encode("a b/é"), "a%20b%2F%C3%A9");
    assert_eq!(strip_scheme("http://h/x"), "h/x");
    assert_eq!(strip_scheme("https://h/x"), "h/x");
    assert_eq!(strip_scheme("ftp://h/x"), "ftp://h/x");
}

#[test]
fn a_theme_that_is_kept_is_the_theme_that_is_read() {
    for theme in [Theme::Light, Theme::Dark] {
        assert_eq!(Theme::parse(theme.cookie_value().unwrap()), theme);
        assert_eq!(theme.attr(), theme.cookie_value());
    }
    assert_eq!(Theme::System.cookie_value(), None);
    assert_eq!(Theme::parse("nonsense"), Theme::System);
    assert_eq!(Theme::default(), Theme::System);
}
