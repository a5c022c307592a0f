use markdown_image_paths::{convert_paths, decode_text, ConvertResult};

fn convert(content: &str, prefix: &str) -> ConvertResult {
    convert_paths(content, prefix).unwrap()
}

fn pairs(r: &ConvertResult) -> Vec<(String, String)> {
    r.changes
        .iter()
        .map(|c| (c.old_path.clone(), c.new_path.clone()))
        .collect()
}

fn pair(old: &str, new: &str) -> (String, String) {
    (old.to_string(), new.to_string())
}

#[test]
fn rewrites_windows_and_relative_paths() {
    let r = convert("![a](C:\\imgs\\x.png) and ![b](./y.jpg)", "assets");
    assert_eq!(r.content, "![a](assets/x.png) and ![b](assets/y.jpg)");
    assert_eq!(
        pairs(&r),
        vec![
            pair("C:\\imgs\\x.png", "assets/x.png"),
            pair("./y.jpg", "assets/y.jpg")
        ]
    );
}

#[test]
fn path_already_in_place_is_not_reported() {
    let r = convert("![a](assets/x.png)", "assets");
    assert_eq!(r.content, "![a](assets/x.png)");
    assert!(r.changes.is_empty());
}

#[test]
fn text_without_images_is_unchanged() {
    let r = convert("plain text", "assets");
    assert_eq!(r.content, "plain text");
    assert!(r.changes.is_empty());
}

#[test]
fn empty_text() {
    let r = convert("", "assets");
    assert_eq!(r.content, "");
    assert!(r.changes.is_empty());
}

#[test]
fn second_pass_changes_nothing() {
    let input = "intro ![a](C:\\imgs\\x.png)\n![](../up/y.jpg) tail ![c](z.gif)";
    let first = convert(input, "img/out");
    assert_eq!(
        first.content,
        "intro ![a](img/out/x.png)\n![](img/out/y.jpg) tail ![c](img/out/z.gif)"
    );
    assert_eq!(first.changes.len(), 3);
    let second = convert(&first.content, "img/out");
    assert_eq!(second.content, first.content);
    assert!(second.changes.is_empty());
}

#[test]
fn file_names_are_kept() {
    let r = convert("![a](a\\b/c\\d.png) ![b](http://h/e/f.svg?v=2)", "p");
    assert_eq!(
        pairs(&r),
        vec![
            pair("a\\b/c\\d.png", "p/d.png"),
            pair("http://h/e/f.svg?v=2", "p/f.svg?v=2")
        ]
    );
}

#[test]
fn one_change_per_differing_path() {
    let r = convert("![a](p/x.png) ![b](y.png) ![c](p/x.png)", "p");
    assert_eq!(r.content, "![a](p/x.png) ![b](p/y.png) ![c](p/x.png)");
    assert_eq!(pairs(&r), vec![pair("y.png", "p/y.png")]);
}

#[test]
fn text_around_references_is_kept() {
    let r = convert("# T\n\nsee ![x](a/b.png), [link](c/d.png) and ![y]", "q");
    assert_eq!(r.content, "# T\n\nsee ![x](q/b.png), [link](c/d.png) and ![y]");
}

#[test]
fn empty_prefix_gives_leading_slash() {
    let r = convert("![a](dir/x.png)", "");
    assert_eq!(r.content, "![a](/x.png)");
    assert_eq!(pairs(&r), vec![pair("dir/x.png", "/x.png")]);
}

#[test]
fn trailing_separator_gives_empty_file_name() {
    let r = convert("![a](dir/sub/)", "assets");
    assert_eq!(r.content, "![a](assets/)");
    assert_eq!(pairs(&r), vec![pair("dir/sub/", "assets/")]);
}

#[test]
fn empty_path_is_not_a_reference() {
    let r = convert("![a]() ![b](x.png)", "s");
    assert_eq!(r.content, "![a]() ![b](s/x.png)");
    assert_eq!(r.changes.len(), 1);
}

#[test]
fn unclosed_reference_is_left_alone() {
    let r = convert("![a](x.png and more ![b] [y.png]", "s");
    assert_eq!(r.content, "![a](x.png and more ![b] [y.png]");
    assert!(r.changes.is_empty());
}

#[test]
fn a_later_parenthesis_closes_an_open_path() {
    let r = convert("![a](x.png and ![b](y.png)", "s");
    assert_eq!(r.content, "![a](s/x.png and ![b](y.png)");
    assert_eq!(
        pairs(&r),
        vec![pair("x.png and ![b](y.png", "s/x.png and ![b](y.png")]
    );
}

#[test]
fn first_closing_parenthesis_ends_the_path() {
    let r = convert("![a](x(1).png)", "s");
    assert_eq!(r.content, "![a](s/x(1).png)");
    assert_eq!(pairs(&r), vec![pair("x(1", "s/x(1")]);
}

#[test]
fn alt_text_may_hold_an_image_opening() {
    let r = convert("![![a](b.png)", "s");
    assert_eq!(r.content, "![![a](s/b.png)");
}

#[test]
fn non_ascii_text_and_paths() {
    let r = convert("图片 ![示例](图片\\猫.png) 完", "资源");
    assert_eq!(r.content, "图片 ![示例](资源/猫.png) 完");
    assert_eq!(pairs(&r), vec![pair("图片\\猫.png", "资源/猫.png")]);
}

#[test]
fn decodes_valid_utf8_exactly() {
    let bytes = "![a](猫.png)".as_bytes().to_vec();
    assert_eq!(decode_text(&bytes), "![a](猫.png)");
}

#[test]
fn decodes_invalid_bytes_with_replacement() {
    let bytes: Vec<u8> = vec![b'a', 0xff, b'b', 0xc3];
    assert_eq!(decode_text(&bytes), "a\u{FFFD}b\u{FFFD}");
}
