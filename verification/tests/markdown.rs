use manotz::markdown::frontmatter::parse_frontmatter;
use manotz::markdown::link::parse_markdown_links;
use manotz::markdown::wikilink::parse_wikilinks;
use manotz::markdown::{extract_note_links, highlight, style_for, HighlightKind};
use manotz::render::Colour;

#[test]
fn parse_frontmatter_extracts_inline_aliases() {
    let content = "---\naliases: [TODO List, Tasks]\n---# Notes";
    let frontmatter = parse_frontmatter(content).unwrap();

    assert_eq!(frontmatter.aliases, vec!["TODO List", "Tasks"]);
}

#[test]
fn parse_frontmatter_extracts_yaml_list_aliases() {
    let content = "---\naliases:\n - TODO List\n - Tasks\n---\n&Notes";
    let frontmatter = parse_frontmatter(content).unwrap();

    assert_eq!(frontmatter.aliases, vec!["TODO List", "Tasks"]);
}

#[test]
fn parse_frontmatter_handles_inline_aliases_with_trailing_comments() {
    let content = "---\naliases: [TODO List, Tasks] # inline comment\n---\n# Notes";
    let frontmatter = parse_frontmatter(content).unwrap();

    assert_eq!(frontmatter.aliases, vec!["TODO List", "Tasks"]);
}

#[test]
fn parse_frontmatter_handles_yaml_list_aliases_with_comments() {
    let content = "---\naliases:\n  - TODO List # urgent item\n  - \"Project #9\" # secondary\n---\n# Notes";
    let frontmatter = parse_frontmatter(content).unwrap();

    assert_eq!(frontmatter.aliases, vec!["TODO List", "Project #9"]);
}

#[test]
fn parse_frontmatter_handles_utf8_bom() {
    let content = "\u{feff}---\naliases: [TODO List]\n---\n# Notes";
    let frontmatter = parse_frontmatter(content).unwrap();

    assert_eq!(frontmatter.aliases, vec!["TODO List"]);
}

#[test]
fn parse_frontmatter_ignores_non_fence_dashes() {
    let content = "---\naliases: [TODO List]\n# line with --- inside\n---\n# Notes";
    let frontmatter = parse_frontmatter(content).unwrap();

    assert_eq!(frontmatter.aliases, vec!["TODO List"]);
}

#[test]
fn parse_frontmatter_without_fence_is_none() {
    assert!(parse_frontmatter("# Notes\n---\n").is_none());
    assert!(parse_frontmatter("--- title\naliases: [A]\n---\n").is_none());
    assert!(parse_frontmatter("---\naliases: [A]\n").is_none());
}

#[test]
fn parse_frontmatter_list_ends_at_other_key_and_skips_empty_items() {
    let content = "---\naliases:\n  - 'One'\n  - \"\"\ntags: x\n  - Two\naliases: [, Three ,]\n---\n";
    let frontmatter = parse_frontmatter(content).unwrap();
    assert_eq!(frontmatter.aliases, vec!["One", "Three"]);
}

#[test]
fn parse_frontmatter_with_no_aliases_is_empty() {
    let frontmatter = parse_frontmatter("---\ntitle: x\n---\nbody").unwrap();
    assert!(frontmatter.aliases.is_empty());
}

#[test]
fn parse_markdown_link_simple() {
    let text = "Check out the [Rust Guide](rust.md) for details.";
    let links = parse_markdown_links(text);

    assert_eq!(links.len(), 1);
    assert_eq!(links[0].dest, "rust.md");
    assert_eq!(links[0].heading, None);
    assert_eq!(links[0].display, "Rust Guide");
    assert_eq!(links[0].span, (14, 35));
}

#[test]
fn parse_markdown_link_with_heading_and_local_anchor() {
    let text = "See [Installation](guide.md#install) and [Jump](#intro).";
    let links = parse_markdown_links(text);
    assert_eq!(links.len(), 2);

    assert_eq!(links[0].dest, "guide.md");
    assert_eq!(links[0].heading, Some("install"));
    assert_eq!(links[0].display, "Installation");

    assert_eq!(links[1].dest, "");
    assert_eq!(links[1].heading, Some("intro"));
    assert_eq!(links[1].display, "Jump");
}

#[test]
fn markdown_link_distinguishes_external_and_internal() {
    let text = "Internal: [Doc](doc.md). External: [Web](https://example.com)
  and [Mail](mailto:hi@test.com).";
    let links = parse_markdown_links(text);

    assert_eq!(links.len(), 3);
    assert!(!links[0].is_external());
    assert!(links[1].is_external());
    assert!(links[2].is_external());
}

#[test]
fn highlight_atx_heading() {
    let text = "# Heading";
    let spans = highlight(text);

    assert!(
        spans
            .iter()
            .any(|h| { h.kind == HighlightKind::Heading && h.start == 0 && h.end == 9 }),
        "expected a Heading highlight for {text:?}, got {spans:?}"
    );
}

#[test]
fn highlight_emphasis() {
    let text = "*hi*";
    let spans = highlight(text);

    assert!(
        spans
            .iter()
            .any(|h| { h.kind == HighlightKind::Emphasis && h.start == 0 && h.end == 4 }),
        "expected Emphasis for {text:?}, got {spans:?}"
    );
}

#[test]
fn highlight_bold() {
    let text = "**bold**";
    let spans = highlight(text);

    assert!(
        spans
            .iter()
            .any(|h| { h.kind == HighlightKind::Bold && h.start == 0 && h.end == 8 }),
        "expected Bold for {text:?}, got {spans:?}"
    );
}

#[test]
fn highlight_code() {
    let text = "`code`";
    let spans = highlight(text);

    assert!(
        spans
            .iter()
            .any(|h| { h.kind == HighlightKind::Code && h.start == 0 && h.end == 6 }),
        "expected Code for {text:?}, got {spans:?}"
    )
}

#[test]
fn highlight_link() {
    let text = "[hi](note.md)";
    let spans = highlight(text);

    assert!(
        spans
            .iter()
            .any(|h| { h.kind == HighlightKind::Link && h.start == 0 && h.end == 13 }),
        "expected Link for {text:?}, got {spans:?}"
    );
}

#[test]
fn style_for_heading_is_bold_lavender() {
    let style = style_for(HighlightKind::Heading);
    assert!(style.bold);
    assert_eq!(style.fg, Some(Colour::Rgb(190, 180, 255)));
    assert_eq!(style.bg, None);
}

#[test]
fn style_for_emphasis_is_muted_rose() {
    let style = style_for(HighlightKind::Emphasis);
    assert!(!style.bold);
    assert_eq!(style.fg, Some(Colour::Rgb(220, 160, 180)));
    assert_eq!(style.bg, None);
}

#[test]
fn style_for_bold_is_warm_white() {
    let style = style_for(HighlightKind::Bold);
    assert!(style.bold);
    assert_eq!(style.fg, Some(Colour::Rgb(240, 230, 210)));
    assert_eq!(style.bg, None);
}

#[test]
fn style_for_code_is_chip() {
    let style = style_for(HighlightKind::Code);
    assert!(!style.bold);
    assert_eq!(style.fg, Some(Colour::Rgb(180, 200, 180)));
    assert_eq!(style.bg, Some(Colour::Rgb(40, 44, 52)));
}

#[test]
fn style_for_link_is_blue() {
    let style = style_for(HighlightKind::Link);
    assert!(!style.bold);
    assert_eq!(style.fg, Some(Colour::Rgb(100, 180, 255)));
    assert_eq!(style.bg, None);
}

#[test]
fn extract_note_links_unifies_wikilinks_and_markdown_links() {
    let text = "Start with [[Rust]] and check [Cargo](cargo.md). Skip [Web](https://rust-lang.org).";
    let links = extract_note_links(text);

    assert_eq!(links.len(), 2);

    assert_eq!(links[0].target, "Rust");
    assert_eq!(links[0].display, "Rust");
    assert_eq!(links[0].span, (11, 19));

    assert_eq!(links[1].target, "cargo.md");
    assert_eq!(links[1].display, "Cargo");
    assert_eq!(links[1].span, (30, 47));
}

#[test]
fn extract_note_links_orders_by_start_offset() {
    let text = "[First](a.md) then [[Second]] then [Third](c.md#part)";
    let links = extract_note_links(text);
    assert_eq!(links.len(), 3);
    assert_eq!(links[0].target, "a.md");
    assert_eq!(links[1].target, "Second");
    assert_eq!(links[2].target, "c.md");
    assert_eq!(links[2].heading, Some("part"));
    assert!(links[0].span.0 < links[1].span.0 && links[1].span.0 < links[2].span.0);
}

#[test]
fn parse_wikilinks_extracts_all_patterns() {
    let text = "See [[Note]], [[Note|alias]], [[Note#Heading]], and [[Note#Heading|custom]]. Also [[#Local Heading]].";

    let links = parse_wikilinks(text);
    assert_eq!(links.len(), 5);

    assert_eq!(links[0].target, "Note");
    assert_eq!(links[0].heading, None);
    assert_eq!(links[0].display, "Note");

    assert_eq!(links[1].target, "Note");
    assert_eq!(links[1].heading, None);
    assert_eq!(links[1].display, "alias");

    assert_eq!(links[2].target, "Note");
    assert_eq!(links[2].heading, Some("Heading"));

    assert_eq!(links[3].target, "Note");
    assert_eq!(links[3].heading, Some("Heading"));
    assert_eq!(links[3].display, "custom");

    assert_eq!(links[4].target, "");
    assert_eq!(links[4].heading, Some("Local Heading"));
}

#[test]
fn parse_wikilinks_trims_and_stops_at_unclosed_link() {
    let text = "[[  Spaced Note  |  Shown  ]] and [[never closed";
    let links = parse_wikilinks(text);
    assert_eq!(links.len(), 1);
    assert_eq!(links[0].target, "Spaced Note");
    assert_eq!(links[0].display, "Shown");
    assert_eq!(links[0].span, (0, 29));
}

#[test]
fn parse_wikilinks_spans_count_bytes() {
    let text = "é [[ö]]";
    let links = parse_wikilinks(text);
    assert_eq!(links.len(), 1);
    assert_eq!(links[0].target, "ö");
    assert_eq!(links[0].span, (3, 9));
}

#[test]
fn frontmatter_needs_an_opening_line_and_a_closing_fence() {
    assert!(parse_frontmatter("# Notes").is_none());
    assert!(parse_frontmatter("---\naliases: [A]").is_none());
    assert!(parse_frontmatter("--- x\naliases: [A]\n---").is_none());
    assert!(parse_frontmatter("---aliases: [A]\n---").is_none());
    let f = parse_frontmatter("\u{feff}  ---  \naliases: [A]\n  --- \n").unwrap();
    assert_eq!(f.aliases, vec!["A"]);
}
