use jira_etl::markup::{
    decimal_string, find_segm, is_base64, parse_base64_image, parse_jira_markup,
    strip_base64_images,
};

const FIX: &str =
    "Text  {color}data:image/png;base64,ABC123 {noformat} more {{data:image/jpeg;base64,XYZ456}}";

#[test]
fn remove_images() {
    let fs = parse_jira_markup(&FIX);

    let fst = fs.get(0).unwrap();
    assert_eq!("color", &FIX[fst.text.start..fst.text.end]);
    let _snd = fs.get(1).unwrap();

    assert_eq!(3, fs.len());
}

#[test]
fn markup_positions() {
    let fs = parse_jira_markup(FIX);
    let got: Vec<_> = fs
        .iter()
        .map(|s| (s.start_marker.clone(), s.text.clone(), s.end_marker.clone()))
        .collect();
    assert_eq!(
        got,
        vec![(7..8, 7..12, 12..13), (43..44, 30..38, 51..52), (59..60, 7..37, 89..90)]
    );
    // the text range of a later segment is relative to the end of the previous one
    assert_eq!(&FIX[13 + 30..13 + 38], "noformat");
}

#[test]
fn markup_without_tags() {
    assert!(parse_jira_markup("").is_empty());
    assert!(parse_jira_markup("no tags here").is_empty());
    assert!(parse_jira_markup("open { only").is_empty());
    assert!(parse_jira_markup("} closed first").is_empty());
}

#[test]
fn markup_empty_tag() {
    let fs = parse_jira_markup("{}");
    assert_eq!(fs.len(), 1);
    assert_eq!(fs[0].start_marker, 1..2);
    assert_eq!(fs[0].text, 1..1);
    assert_eq!(fs[0].end_marker, 1..2);
}

#[test]
fn markup_multibyte_text_uses_byte_offsets() {
    let s = "é{ü}";
    let fs = parse_jira_markup(s);
    assert_eq!(fs.len(), 1);
    assert_eq!(fs[0].text, 3..5);
    assert_eq!(&s[fs[0].text.start..fs[0].text.end], "ü");
}

#[test]
fn segm_found() {
    assert_eq!(find_segm("a{bc}d", "{", "}"), Some(2..4));
    assert_eq!(find_segm("x{{tag}}y", "{{", "}}"), Some(3..6));
    assert_eq!(find_segm("a}b{c}", "{", "}"), Some(4..5));
}

#[test]
fn segm_missing() {
    assert_eq!(find_segm("abc", "{", "}"), None);
    assert_eq!(find_segm("a{bc", "{", "}"), None);
    assert_eq!(find_segm("a}b{c", "{", "}"), None);
}

#[test]
fn segm_empty_needles_match_at_once() {
    assert_eq!(find_segm("abc", "", ""), Some(0..0));
}

#[test]
fn base64_chars() {
    for c in ['A', 'Z', 'a', 'z', '0', '9', '+', '/', '='] {
        assert!(is_base64(c));
    }
    for c in [' ', '-', '_', '}', 'é', ';'] {
        assert!(!is_base64(c));
    }
}

#[test]
fn base64_image_split() {
    assert_eq!(
        parse_base64_image("data:image/png;base64,ABC123 rest of it"),
        Some(("png", "ABC123", "rest of it"))
    );
    assert_eq!(
        parse_base64_image("data:image/jpeg;base64,XYZ456}}"),
        Some(("jpeg", "XYZ456", "}"))
    );
    assert_eq!(
        parse_base64_image("data:image/svg+xml;base64,;"),
        Some(("svg+xml", "", ""))
    );
}

#[test]
fn base64_image_at_end_of_string() {
    assert_eq!(
        parse_base64_image("data:image/png;base64,ABC123"),
        Some(("png", "ABC123", ""))
    );
    assert_eq!(parse_base64_image("data:image/png;base64,"), Some(("png", "", "")));
}

#[test]
fn base64_image_rejected() {
    assert_eq!(parse_base64_image("data:text/png;base64,ABC "), None);
    assert_eq!(parse_base64_image("data:image/png,base64,ABC "), None);
    assert_eq!(parse_base64_image("data:image/png;base32,ABC "), None);
    assert_eq!(parse_base64_image(""), None);
}

#[test]
fn base64_image_reassembles() {
    let s = "data:image/gif;base64,R0lG==\nafter";
    let (mime, data, rest) = parse_base64_image(s).unwrap();
    assert_eq!(format!("data:image/{};base64,{}\n{}", mime, data, rest), s);
}

#[test]
fn stripping_replaces_images() {
    assert_eq!(strip_base64_images("x data:image/png;base64,AAAA y", "K-1"), "x !K-1_1.png! y");
    assert_eq!(
        strip_base64_images("a data:image/png;base64,ABC= b data:image/jpeg;base64,Zz+/ c", "K-2"),
        "a !K-2_1.png! b !K-2_2.jpeg! c"
    );
    assert_eq!(strip_base64_images("data:image/gif;base64,R0lG", "K"), "!K_1.gif!");
}

#[test]
fn stripping_keeps_content_without_images() {
    let s = "before data:image/;base64,ABC after data:image/png;base32,AB data:image/png;base64, end";
    assert_eq!(strip_base64_images(s, "KEY-1"), s);
    assert_eq!(strip_base64_images("", "KEY-1"), "");
    assert_eq!(strip_base64_images("é ü", "KEY-1"), "é ü");
}

#[test]
fn stripping_numbers_past_nine() {
    let one = "data:image/png;base64,A ";
    let content = one.repeat(11);
    let out = strip_base64_images(&content, "K");
    assert!(out.ends_with("!K_10.png! !K_11.png! "));
}

#[test]
fn decimal_numbers() {
    assert_eq!(decimal_string(0), "0");
    assert_eq!(decimal_string(7), "7");
    assert_eq!(decimal_string(10), "10");
    assert_eq!(decimal_string(1234567), "1234567");
    assert_eq!(decimal_string(usize::MAX), usize::MAX.to_string());
}
