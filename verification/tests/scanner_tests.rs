use mdbook_drawio::rewrite::replace_links;
use mdbook_drawio::scanner::scan_links;

#[test]
fn test_link_extraction() {
    let content = "\nhello world\n![blahalala](blah-page1.drawio)\nblkafjaklfj\n";

    let expected_content = "\nhello world\n![blahalala](blah-page1.svg)\nblkafjaklfj\n";

    let new_content = replace_links(content);

    assert_eq!(new_content.0, vec!["blah.drawio"]);
    assert_eq!(new_content.1, expected_content);
}

#[test]
fn test_link_extraction_mutli() {
    let content =
        "\nhello world\n![blahalala](blah-page1.drawio)\n![blahalala](diagram-Woooo.drawio)\nblkafjaklfj\n";

    let expected_content =
        "\nhello world\n![blahalala](blah-page1.svg)\n![blahalala](diagram-Woooo.svg)\nblkafjaklfj\n";

    let new_content = replace_links(content);

    assert_eq!(new_content.0, vec!["blah.drawio", "diagram.drawio"]);
    assert_eq!(new_content.1, expected_content);
}

#[test]
fn no_matches_is_identity() {
    let content = "hello world, nothing to see here.\n![plain image](pic.png)\n";
    let (links, out) = replace_links(content);
    assert!(links.is_empty());
    assert_eq!(out, content);
}

#[test]
fn empty_text_is_identity() {
    let (links, out) = replace_links("");
    assert!(links.is_empty());
    assert_eq!(out, "");
}

#[test]
fn target_without_hyphen_does_not_match() {
    let content = "![a](blah.drawio)";
    let (links, out) = replace_links(content);
    assert!(links.is_empty());
    assert_eq!(out, content);
}

#[test]
fn link_broken_by_newline_does_not_match() {
    let content = "![a](blah-\npage1.drawio)";
    let (links, out) = replace_links(content);
    assert!(links.is_empty());
    assert_eq!(out, content);
}

#[test]
fn base_name_splits_at_last_hyphen() {
    let ms = scan_links("![x](testdiagram-Page-1.drawio)");
    assert_eq!(ms.len(), 1);
    assert_eq!(ms[0].base, "testdiagram-Page");
    assert_eq!(ms[0].page, "1");

    let (links, out) = replace_links("![x](testdiagram-Page-1.drawio)");
    assert_eq!(links, vec!["testdiagram-Page.drawio"]);
    assert_eq!(out, "![x](testdiagram-Page-1.svg)");
}

#[test]
fn scan_reports_exact_spans() {
    let content = "ab ![alt](dir/base-p.drawio) cd";
    let ms = scan_links(content);
    assert_eq!(ms.len(), 1);
    assert_eq!(ms[0].start, 3);
    assert_eq!(ms[0].prefix_end, 9);
    assert_eq!(ms[0].end, 28);
    assert_eq!(ms[0].base, "dir/base");
    assert_eq!(ms[0].page, "p");
    assert_eq!(&content[3..28], "![alt](dir/base-p.drawio)");
}

#[test]
fn unmatched_spans_are_preserved_byte_for_byte() {
    let content = "AAA![a](x-1.drawio)BBB![b](y-2.drawio)CCC";
    let (_, out) = replace_links(content);
    assert_eq!(out, "AAA![a](x-1.svg)BBB![b](y-2.svg)CCC");
    assert!(out.starts_with("AAA"));
    assert!(out.contains("BBB"));
    assert!(out.ends_with("CCC"));
}

#[test]
fn matches_are_left_to_right_and_disjoint() {
    let ms = scan_links("![a](x-1.drawio)![b](y-2.drawio)");
    assert_eq!(ms.len(), 2);
    assert!(ms[0].end <= ms[1].start);
    assert_eq!(ms[0].base, "x");
    assert_eq!(ms[1].base, "y");
}
