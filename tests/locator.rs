use img_cache::locator::{extension, file_name, sanitize};
use img_cache::url_to_file;

#[test]
fn sanitize_replaces_everything_but_letters_and_digits() {
    assert_eq!(sanitize("a-b/c.d?e=1"), "a_b_c_d_e_1");
    assert_eq!(sanitize(""), "");
}

#[test]
fn sanitize_keeps_non_ascii_letters() {
    assert_eq!(sanitize("café ü"), "café_ü");
}

#[test]
fn extension_comes_from_the_url_path_not_the_query() {
    assert_eq!(
        extension("https://cards.scryfall.io/normal/front/6/d/6da045f8.jpg?1562404626"),
        Some("jpg".to_string())
    );
    assert_eq!(extension("https://example.com/api/versions?page=2.png"), None);
    assert_eq!(extension("not a url.png"), None);
    assert_eq!(extension("https://example.com/a."), None);
}

#[test]
fn file_name_re_appends_the_extension() {
    assert_eq!(
        file_name("https://cards.scryfall.io/normal/front/6/d/6da045f8.jpg?1562404626"),
        "https___cards_scryfall_io_normal_front_6_d_6da045f8_jpg_1562404626.jpg"
    );
    assert_eq!(file_name("https://example.com/api"), "https___example_com_api");
}

#[test]
fn url_to_file_joins_the_cache_directory() {
    assert_eq!(
        url_to_file("/tmp/img", "https://example.com/x.png"),
        "/tmp/img/https___example_com_x_png.png"
    );
    assert_eq!(url_to_file("/tmp/img", "plain"), "/tmp/img/plain");
}
