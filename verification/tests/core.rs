use cdiff::distance::levenshtein;
use cdiff::extract::extract_blocks;
use cdiff::marks::rewrite_footnote_marks;
use cdiff::matching::{best_match, match_blocks};
use cdiff::pipeline::cdiff_texts;
use cdiff::reconcile::align_blocks;
use cdiff::renumber::{
    extract_footnotes, format_fn_fragment, format_fn_id, format_fragment, skip_chars,
    sort_by_index, usize_to_string, Renumbering,
};
use cdiff::text::{join_blocks, join_lines, normalize_text};

fn chars(s: &str) -> Vec<char> {
    s.chars().collect()
}

fn strings(v: &[&str]) -> Vec<String> {
    v.iter().map(|s| s.to_string()).collect()
}

#[test]
fn levenshtein_exact_values() {
    assert_eq!(levenshtein(&chars("kitten"), &chars("sitting")), 3);
    assert_eq!(levenshtein(&chars(""), &chars("abc")), 3);
    assert_eq!(levenshtein(&chars("abc"), &chars("")), 3);
    assert_eq!(levenshtein(&chars("same"), &chars("same")), 0);
    assert_eq!(levenshtein(&chars("flaw"), &chars("lawn")), 2);
}

#[test]
fn near_perfect_short_circuit_takes_first() {
    let source = strings(&["hello world", "hello world"]);
    assert_eq!(best_match(&source, "hello world"), Some(0));
}

#[test]
fn scan_keeps_strictly_better_later_match() {
    let source = strings(&["abcd", "abc"]);
    assert_eq!(best_match(&source, "abc"), Some(1));
}

#[test]
fn equal_distances_keep_the_earlier_block() {
    let source = strings(&["ab", "ba"]);
    assert_eq!(best_match(&source, "aa"), Some(0));
}

#[test]
fn near_perfect_short_circuit_on_long_blocks() {
    // One extra character among a thousand is within the near-zero
    // cutoff, so the scan stops before it ever sees the exact copy.
    let exact = "a".repeat(1000);
    let close = format!("{}b", exact);
    let source = vec![close, exact.clone()];
    assert_eq!(best_match(&source, &exact), Some(0));
}

#[test]
fn nonempty_source_always_matches() {
    let source = strings(&["abc"]);
    assert_eq!(best_match(&source, "zzzzzz"), Some(0));
}

#[test]
fn empty_source_never_matches() {
    let source: Vec<String> = Vec::new();
    assert_eq!(best_match(&source, "anything"), None);
}

#[test]
fn match_blocks_keeps_current_order() {
    let source = strings(&["A"]);
    let current = strings(&["A", "Z"]);
    let labeled = match_blocks(&source, &current);
    assert_eq!(labeled.len(), 2);
    assert_eq!(labeled[0].text, "A");
    assert_eq!(labeled[0].index, Some(0));
    assert_eq!(labeled[1].text, "Z");
    assert_eq!(labeled[1].index, Some(0));
}

#[test]
fn reordering_scenario() {
    let source = strings(&["A", "B", "C"]);
    let current = strings(&["C", "A"]);
    let (source_out, current_out) = align_blocks(&source, &current);
    assert_eq!(source_out, strings(&["A", "B", "C"]));
    assert_eq!(current_out, strings(&["A", "", "C"]));
}

#[test]
fn deletion_scenario() {
    let source = strings(&["A", "B"]);
    let current = strings(&["A"]);
    let (source_out, current_out) = align_blocks(&source, &current);
    assert_eq!(source_out, strings(&["A", "B"]));
    assert_eq!(current_out, strings(&["A", ""]));
}

#[test]
fn insertion_scenario_pads_source() {
    let source: Vec<String> = Vec::new();
    let current = strings(&["Z"]);
    let (source_out, current_out) = align_blocks(&source, &current);
    assert_eq!(source_out, strings(&[""]));
    assert_eq!(current_out, strings(&["Z"]));
}

#[test]
fn identical_sequences_round_trip() {
    let source = strings(&["A", "B"]);
    let current = strings(&["A", "B"]);
    let (source_out, current_out) = align_blocks(&source, &current);
    assert_eq!(source_out, source);
    assert_eq!(current_out, source);
}

#[test]
fn output_lengths_always_equal() {
    let source = strings(&["one", "two", "three"]);
    let current = strings(&["three", "four", "one", "five"]);
    let (source_out, current_out) = align_blocks(&source, &current);
    assert_eq!(source_out.len(), current_out.len());
}

#[test]
fn extracts_normalized_blocks_in_document_order() {
    let html = "<html><body><p>Hello <b>world</b></p><h1>Title</h1>\
                <ul><li>  item   one </li></ul><p>   </p></body></html>";
    let blocks = extract_blocks(html);
    assert_eq!(blocks, strings(&["Hello world", "Title", "item one"]));
}

#[test]
fn extraction_is_deterministic() {
    let html = "<html><body><h2>A</h2><p>b c</p></body></html>";
    assert_eq!(extract_blocks(html), extract_blocks(html));
}

#[test]
fn whitespace_only_element_contributes_no_block() {
    let html = "<html><body><p> \n\t </p><p>kept</p></body></html>";
    assert_eq!(extract_blocks(html), strings(&["kept"]));
}

#[test]
fn footnote_anchor_rewritten_to_brackets() {
    let html = "see <a class=\"fn\" href=\"#1\" id=\"fn-1\">1</a> end";
    assert_eq!(rewrite_footnote_marks(html), "see [1] end");
}

#[test]
fn footnote_rewrite_idempotent_on_bracketed_text() {
    let html = "see <a class=\"fn\" href=\"#1\" id=\"fn-1\">12</a> end";
    let once = rewrite_footnote_marks(html);
    let twice = rewrite_footnote_marks(&once);
    assert_eq!(once, "see [12] end");
    assert_eq!(twice, once);
    assert_eq!(rewrite_footnote_marks("plain [3] text"), "plain [3] text");
}

#[test]
fn extraction_normalizes_footnote_markers() {
    let html = "<html><body><p>note<a class=\"fn\" href=\"#3\" id=\"fn-3\">3</a></p></body></html>";
    assert_eq!(extract_blocks(html), strings(&["note[3]"]));
}

#[test]
fn blocks_join_with_blank_lines() {
    assert_eq!(join_blocks(&strings(&["a", "b", "c"])), "a\n\nb\n\nc");
    assert_eq!(join_blocks(&strings(&["only"])), "only");
    assert_eq!(join_blocks(&strings(&[])), "");
}

#[test]
fn lines_join_with_newlines() {
    assert_eq!(join_lines(&strings(&["x", "y"])), "x\ny");
}

#[test]
fn normalize_collapses_and_trims() {
    assert_eq!(normalize_text("  a \n\n b\t"), "a b");
    assert_eq!(normalize_text(" \n "), "");
    assert_eq!(normalize_text("plain"), "plain");
}

#[test]
fn renumbering_assigns_one_based_indices() {
    let mut ren = Renumbering::new();
    assert_eq!(ren.record("10".to_string()), 1);
    assert_eq!(ren.record("4".to_string()), 2);
    assert_eq!(ren.lookup(&"10".to_string()), Some(1));
    assert_eq!(ren.lookup(&"4".to_string()), Some(2));
    assert_eq!(ren.lookup(&"x".to_string()), None);
}

#[test]
fn decimal_formatting() {
    assert_eq!(usize_to_string(0), "0");
    assert_eq!(usize_to_string(42), "42");
    assert_eq!(usize_to_string(120), "120");
    assert_eq!(format_fragment(7), "#7");
    assert_eq!(format_fn_id(7), "fn-7");
    assert_eq!(format_fn_fragment(7), "#fn-7");
}

#[test]
fn skip_chars_drops_prefix() {
    assert_eq!(skip_chars("#fn-12", 4), "12");
    assert_eq!(skip_chars("#5", 1), "5");
    assert_eq!(skip_chars("ab", 5), "");
}

#[test]
fn footnotes_sort_by_new_index() {
    let v = vec![
        ("c".to_string(), 3usize),
        ("a".to_string(), 1usize),
        ("b".to_string(), 2usize),
    ];
    let sorted = sort_by_index(v);
    assert_eq!(
        sorted,
        vec![
            ("a".to_string(), 1usize),
            ("b".to_string(), 2usize),
            ("c".to_string(), 3usize),
        ]
    );
}

#[test]
fn footnote_entries_extracted_in_order() {
    let html = "<html><body><div class=\"footnotes\"><ul>\
                <li><a name=\"1\">1</a> first</li>\
                <li><a name=\"2\">2</a> second</li>\
                </ul></div></body></html>";
    let items = extract_footnotes(html);
    assert_eq!(items.len(), 2);
    assert!(items[0].contains("first"));
    assert!(items[1].contains("second"));
    assert!(items[0].starts_with("<li"));
}

#[test]
fn identical_documents_give_identical_texts() {
    let html = "<html><body><p>alpha</p><p>beta</p></body></html>";
    let (source_text, current_text) = cdiff_texts(html, html);
    assert_eq!(source_text, "alpha\n\nbeta");
    assert_eq!(current_text, source_text);
}
