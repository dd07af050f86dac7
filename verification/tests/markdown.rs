use rex_core::markdown::format_markdown;

#[test]
fn formats_rex_blocks_only() {
    let doc = "# Title\n```rex\nx=1\n[1,2]\n```\ntext\n```rexd\nfoo=1\n```\n";
    assert_eq!(
        format_markdown(doc),
        "# Title\n```rex\nx = 1\n[ 1, 2 ]\n```\ntext\n```rexd\nfoo=1\n```\n"
    );
}

#[test]
fn keeps_other_fences_and_crlf_lines() {
    let doc = "a\r\n```js\nx=1\n```\r\nb";
    assert_eq!(format_markdown(doc), "a\n```js\nx=1\n```\nb\n");
    assert_eq!(format_markdown(""), "");
}

#[test]
fn unclosed_block_lines_are_dropped() {
    assert_eq!(format_markdown("a\n```rex\ny\n"), "a\n```rex\n");
}

#[test]
fn empty_block_formats_to_an_empty_line() {
    assert_eq!(format_markdown("```rex\n```\n"), "```rex\n\n```\n");
}
