use northstar::document::{
    AltText, Document, Heading, HeadingLevel, Item, Link, LinkLabel, Preformatted,
    PreformattedText, Quote, Text, UnorderedListItem,
};

#[test]
fn new_document_is_empty() {
    let document = Document::new();
    assert_eq!(document.to_string(), "");
}

#[test]
fn default_document_is_empty() {
    let document = Document::default();
    assert_eq!(document.to_string(), "");
}

#[test]
fn add_item_appends_a_line() {
    let mut document = Document::new();
    let text = Text::new_lossy("foo");
    document.add_item(Item::Text(text));
    assert_eq!(document.to_string(), "foo\n");
}

#[test]
fn add_items_appends_in_order() {
    let mut document = Document::new();
    let items: Vec<Item> = vec!["foo", "bar", "baz"]
        .into_iter()
        .map(Text::new_lossy)
        .map(Item::Text)
        .collect();
    document.add_items(items);
    assert_eq!(document.to_string(), "foo\nbar\nbaz\n");
}

#[test]
fn add_blank_line_renders_empty_line() {
    let mut document = Document::new();
    document.add_blank_line();
    assert_eq!(document.to_string(), "\n");
}

#[test]
fn add_text_escapes_special_starts() {
    let mut document = Document::new();
    document.add_text("hello\n* world!");
    assert_eq!(document.to_string(), "hello\n * world!\n");
}

#[test]
fn add_text_escapes_every_special_start() {
    let mut document = Document::new();
    document.add_text("=> link\n```code\n# heading\n* item\n> quote\nplain");
    assert_eq!(
        document.to_string(),
        " => link\n ```code\n # heading\n * item\n > quote\nplain\n"
    );
}

#[test]
fn add_text_splits_crlf_lines() {
    let mut document = Document::new();
    document.add_text("a\r\nb\n");
    assert_eq!(document.to_string(), "a\nb\n");
}

#[test]
fn add_text_of_empty_text_adds_nothing() {
    let mut document = Document::new();
    document.add_text("");
    assert_eq!(document.to_string(), "");
}

#[test]
fn add_text_keeps_empty_middle_lines() {
    let mut document = Document::new();
    document.add_text("a\n\nb");
    assert_eq!(document.to_string(), "a\n\nb\n");
}

#[test]
fn add_link_with_label() {
    let mut document = Document::new();
    document.add_link("https://wikipedia.org", "Wiki\n\nWiki");
    assert_eq!(document.to_string(), "=> https://wikipedia.org/ Wiki Wiki\n");
}

#[test]
fn add_link_without_label_renders_target_only() {
    let mut document = Document::new();
    document.add_link_without_label("https://wikipedia.org");
    assert_eq!(document.to_string(), "=> https://wikipedia.org/\n");
}

#[test]
fn add_link_with_unparsable_uri_falls_back_to_dot() {
    let mut document = Document::new();
    document.add_link("not a uri", "label");
    assert_eq!(document.to_string(), "=> . label\n");
}

#[test]
fn add_link_with_relative_reference() {
    let mut document = Document::new();
    document.add_link_without_label("foo/bar.gmi");
    assert_eq!(document.to_string(), "=> foo/bar.gmi\n");
}

#[test]
fn add_preformatted_without_alt() {
    let mut document = Document::new();
    document.add_preformatted("a\n b\n  c");
    assert_eq!(document.to_string(), "```\na\n b\n  c\n```\n");
}

#[test]
fn add_preformatted_with_alt_text() {
    let mut document = Document::new();
    document.add_preformatted_with_alt("rust", "fn main() {\n}\n");
    assert_eq!(document.to_string(), "```rust\nfn main() {\n}\n```\n");
}

#[test]
fn add_preformatted_escapes_toggle_lines() {
    let mut document = Document::new();
    document.add_preformatted_with_alt("a\nb", "```\nx");
    assert_eq!(document.to_string(), "```a b\n ```\nx\n```\n");
}

#[test]
fn add_heading_levels() {
    let mut document = Document::new();
    document.add_heading(HeadingLevel::H1, "Welcome!");
    document.add_heading(HeadingLevel::H2, "Second");
    document.add_heading(HeadingLevel::H3, "Third");
    assert_eq!(document.to_string(), "# Welcome!\n## Second\n### Third\n");
}

#[test]
fn add_heading_folds_and_escapes() {
    let mut document = Document::new();
    document.add_heading(HeadingLevel::H1, "#tag\n\nline");
    assert_eq!(document.to_string(), "#  #tag line\n");
}

#[test]
fn add_unordered_list_items() {
    let mut document = Document::new();
    document.add_unordered_list_item("milk");
    document.add_unordered_list_item("eggs");
    assert_eq!(document.to_string(), "* milk\n* eggs\n");
}

#[test]
fn add_unordered_list_item_folds_lines() {
    let mut document = Document::new();
    document.add_unordered_list_item("a\r\nb\n\nc");
    assert_eq!(document.to_string(), "* a b c\n");
}

#[test]
fn add_quote_lines() {
    let mut document = Document::new();
    document.add_quote("I think,\ntherefore I am");
    assert_eq!(document.to_string(), "> I think,\n> therefore I am\n");
}

#[test]
fn add_quote_escapes_quote_start() {
    let mut document = Document::new();
    document.add_quote(">nested");
    assert_eq!(document.to_string(), ">  >nested\n");
}

#[test]
fn adders_chain() {
    let mut document = Document::new();
    document
        .add_heading(HeadingLevel::H1, "Title")
        .add_blank_line()
        .add_text("body")
        .add_unordered_list_item("x");
    assert_eq!(document.to_string(), "# Title\n\nbody\n* x\n");
}

#[test]
fn text_new_lossy_keeps_first_line() {
    let mut document = Document::new();
    document.add_item(Item::Text(Text::new_lossy("a\nb")));
    document.add_item(Item::Text(Text::new_lossy("=>x\ny")));
    assert_eq!(document.to_string(), "a\n =>x\n");
}

#[test]
fn text_blank_is_empty_line() {
    let mut document = Document::new();
    document.add_item(Item::Text(Text::blank()));
    assert_eq!(document.to_string(), "\n");
}

#[test]
fn items_built_by_hand_render() {
    let mut document = Document::new();
    document.add_item(Item::Link(Link {
        uri: String::from("gemini://example.org/"),
        label: Some(LinkLabel::from_lossy("Example\nSite")),
    }));
    document.add_item(Item::Preformatted(Preformatted {
        alt: AltText::new_lossy("alt\r\ntext"),
        lines: vec![PreformattedText::new_lossy("```x"), PreformattedText::new_lossy("y")],
    }));
    document.add_item(Item::Heading(Heading::new_lossy(HeadingLevel::H2, "h")));
    document.add_item(Item::UnorderedListItem(UnorderedListItem::new_lossy("u")));
    document.add_item(Item::Quote(Quote::new_lossy("q\nr")));
    assert_eq!(
        document.to_string(),
        "=> gemini://example.org/ Example Site\n```alt text\n ```x\ny\n```\n## h\n* u\n> q\n"
    );
}

#[test]
fn lone_carriage_return_is_kept_in_folded_text() {
    let mut document = Document::new();
    document.add_unordered_list_item("a\rb");
    assert_eq!(document.to_string(), "* a\rb\n");
}

#[test]
fn escaping_an_escaped_line_changes_nothing() {
    let mut document = Document::new();
    document.add_text("=> x\n");
    let once = document.to_string();
    let mut again = Document::new();
    again.add_text(&once);
    assert_eq!(once, " => x\n");
    assert_eq!(again.to_string(), once);
}

#[test]
fn folding_a_folded_label_changes_nothing() {
    let mut document = Document::new();
    document.add_unordered_list_item("a\n\nb\r\nc");
    document.add_unordered_list_item("a b c");
    assert_eq!(document.to_string(), "* a b c\n* a b c\n");
}

#[test]
fn default_text_is_blank_line() {
    let mut document = Document::new();
    document.add_item(Item::Text(Text::default()));
    assert_eq!(document.to_string(), "\n");
}

#[test]
fn link_targets_are_single_lines() {
    let mut document = Document::new();
    document.add_link_without_label("a\nb");
    document.add_link_without_label("gemini://host/p%0Aq");
    assert_eq!(document.to_string(), "=> .\n=> gemini://host/p%0Aq\n");
}
