use derivers::text::{extension_of, fill_placeholders, push_decimal, rfind, to_hex_upper};

#[test]
fn decimal_numerals() {
    let mut s = String::new();
    push_decimal(&mut s, 0);
    assert_eq!(s, "0");
    let mut s = String::from("n=");
    push_decimal(&mut s, 4_294_967_295);
    assert_eq!(s, "n=4294967295");
    let mut s = String::new();
    push_decimal(&mut s, 1080);
    assert_eq!(s, "1080");
}

#[test]
fn hex_is_upper_case_and_two_digits_per_byte() {
    assert_eq!(to_hex_upper(&vec![]), "");
    assert_eq!(to_hex_upper(&vec![0x00, 0x0a, 0xbe, 0xef, 0xff]), "000ABEEFFF");
}

#[test]
fn placeholders_are_filled() {
    assert_eq!(
        fill_placeholders("https://tile.openstreetmap.org/{z}/{x}/{y}.png", 10, 544, 370),
        "https://tile.openstreetmap.org/10/544/370.png"
    );
}

#[test]
fn every_occurrence_of_a_placeholder_is_filled() {
    assert_eq!(fill_placeholders("{x}-{x}/{y}{z}", 3, 1, 2), "1-1/23");
}

#[test]
fn other_braces_stay() {
    assert_eq!(fill_placeholders("{a}{zz}{z{x}}{", 9, 8, 7), "{a}{zz}{z8}{");
    assert_eq!(fill_placeholders("", 9, 8, 7), "");
    assert_eq!(fill_placeholders("{z", 9, 8, 7), "{z");
}

#[test]
fn text_beyond_ascii_is_kept() {
    assert_eq!(fill_placeholders("käse/{z}/ü", 4, 0, 0), "käse/4/ü");
}

#[test]
fn extension_follows_the_last_dot_of_the_last_segment() {
    assert_eq!(extension_of("https://a.b/c/7.png"), Some("png".to_string()));
    assert_eq!(extension_of("track.gpx.gz"), Some("gz".to_string()));
    assert_eq!(extension_of("https://a.b/c/7.png?key=1"), Some("png?key=1".to_string()));
    assert_eq!(extension_of("dir.d/file"), None);
    assert_eq!(extension_of("https://a.b/c/7"), None);
    assert_eq!(extension_of("dir/.hidden"), None);
    assert_eq!(extension_of(".hidden.txt"), Some("txt".to_string()));
    assert_eq!(extension_of("name."), Some(String::new()));
    assert_eq!(extension_of(""), None);
    assert_eq!(extension_of("a/b/"), None);
}

#[test]
fn rfind_finds_the_last_occurrence_before_the_end() {
    assert_eq!(rfind("a/b/c", 5, '/'), Some(3));
    assert_eq!(rfind("a/b/c", 3, '/'), Some(1));
    assert_eq!(rfind("a/b/c", 1, '/'), None);
    assert_eq!(rfind("abc", 3, '/'), None);
    assert_eq!(rfind("", 0, '/'), None);
}
