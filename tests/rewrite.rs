use mathjax_inline::{same_text, InlinePattern, Mathjax};

fn rewrite(text: &str) -> String {
    Mathjax::new().rewrite(text)
}

#[test]
fn text_without_dollars_is_unchanged() {
    let text = "Plain prose,\nwith two lines and a backslash \\ here.";
    assert_eq!(rewrite(text), text);
}

#[test]
fn empty_text_is_unchanged() {
    assert_eq!(rewrite(""), "");
}

#[test]
fn block_math_is_preserved() {
    assert_eq!(rewrite("$$a+b$$"), "$$a+b$$");
}

#[test]
fn escaped_dollar_is_preserved() {
    assert_eq!(rewrite("\\$5"), "\\$5");
}

#[test]
fn simple_pair_is_converted() {
    assert_eq!(rewrite("$x$"), "\\( x \\)");
}

#[test]
fn mixed_content_converts_only_the_inline_pair() {
    assert_eq!(
        rewrite("The cost is \\$5, and $x+y$ is the formula, not $$z$$."),
        "The cost is \\$5, and \\( x+y \\) is the formula, not $$z$$."
    );
}

#[test]
fn odd_count_leaves_last_delimiter_opening() {
    assert_eq!(rewrite("$a$ and $b"), "\\( a \\) and \\( b");
}

#[test]
fn two_pairs_alternate() {
    assert_eq!(
        rewrite("Let $a$ and $b$ be given."),
        "Let \\( a \\) and \\( b \\) be given."
    );
}

#[test]
fn delimiters_at_both_ends_of_the_text() {
    assert_eq!(rewrite("$ab"), "\\( ab");
    assert_eq!(rewrite("ab$"), "ab\\( ");
}

#[test]
fn triple_dollar_is_left_alone() {
    assert_eq!(rewrite("$$$"), "$$$");
    assert_eq!(rewrite("a $$$ b"), "a $$$ b");
}

#[test]
fn delimiter_after_escaped_dollar_counts() {
    assert_eq!(rewrite("\\$ $x$"), "\\$ \\( x \\)");
}

#[test]
fn multibyte_text_around_delimiters() {
    assert_eq!(rewrite("é $α$ ü"), "é \\( α \\) ü");
}

#[test]
fn rewriting_twice_equals_rewriting_once() {
    let inputs = [
        "$x$",
        "$a$ and $b",
        "The cost is \\$5, and $x+y$ is the formula, not $$z$$.",
        "\\$$x$",
    ];
    for text in inputs {
        let once = rewrite(text);
        assert_eq!(rewrite(&once), once);
    }
}

#[test]
fn pattern_rewrite_matches_preprocessor() {
    let pattern = InlinePattern::new();
    assert_eq!(pattern.rewrite("x $y$ z"), "x \\( y \\) z");
}

#[test]
fn run_rewrites_every_chapter_independently() {
    let mut chapters = vec![
        String::from("$a$"),
        String::from("$b"),
        String::from("none"),
        String::from("$c$"),
    ];
    Mathjax::new().run(&mut chapters);
    assert_eq!(
        chapters,
        vec![
            String::from("\\( a \\)"),
            String::from("\\( b"),
            String::from("none"),
            String::from("\\( c \\)"),
        ]
    );
}

#[test]
fn run_on_no_chapters_succeeds() {
    let mut chapters: Vec<String> = Vec::new();
    Mathjax::new().run(&mut chapters);
    assert!(chapters.is_empty());
}

#[test]
fn long_text_is_rewritten_in_full() {
    let mut text = "a".repeat(300_000);
    text.push_str("$x$");
    text.push_str(&"b".repeat(300_000));
    let mut expected = "a".repeat(300_000);
    expected.push_str("\\( x \\)");
    expected.push_str(&"b".repeat(300_000));
    assert_eq!(rewrite(&text), expected);
}

#[test]
fn output_length_grows_by_two_per_delimiter() {
    let text = "$a$ and $b$ and $c";
    let out = rewrite(text);
    assert_eq!(out.chars().count(), text.chars().count() + 2 * 5);
    assert_eq!(out.matches('$').count(), 0);
}

#[test]
fn sentinel_renderer_is_not_supported() {
    assert!(!Mathjax::new().supports_renderer("not-supported"));
}

#[test]
fn other_renderers_are_supported() {
    let pre = Mathjax::new();
    assert!(pre.supports_renderer("html"));
    assert!(pre.supports_renderer(""));
    assert!(pre.supports_renderer("not-supported2"));
    assert!(pre.supports_renderer("not-supporte"));
}

#[test]
fn name_is_inline_mathjax() {
    assert_eq!(Mathjax::new().name(), "inline-mathjax");
}

#[test]
fn same_text_compares_characters() {
    assert!(same_text("abc", "abc"));
    assert!(!same_text("abc", "abd"));
    assert!(!same_text("ab", "abc"));
    assert!(same_text("", ""));
}
