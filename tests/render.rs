use std::collections::HashSet;
use tree_viz::dot::{draw_tree, VizTree};
use tree_viz::identity::assign_fingerprint;
use tree_viz::text::{normalize, push_decimal, push_sanitized_name, sanitize};
use tree_viz::{draw_nodes, TreeVizNode};

#[derive(Debug, Clone, Hash)]
struct Tree1 {
    name: String,
    children: Vec<Tree1>,
}

impl ToString for Tree1 {
    fn to_string(&self) -> String {
        return self.name.clone();
    }
}

impl TreeVizNode for Tree1 {
    fn children(&self) -> Vec<Self>
    where
        Self: Sized,
    {
        self.children.clone()
    }
}

fn leaf(label: &str, hash: u64) -> VizTree {
    VizTree { label: label.to_string(), hash, children: vec![] }
}

fn node(label: &str, hash: u64, children: Vec<VizTree>) -> VizTree {
    VizTree { label: label.to_string(), hash, children }
}

fn chars(s: &str) -> Vec<char> {
    s.chars().collect()
}

fn text(v: &[char]) -> String {
    v.iter().collect()
}

fn sanitized_name(s: &str) -> String {
    let mut out = Vec::new();
    push_sanitized_name(&mut out, s);
    text(&out)
}

#[test]
fn sync_correctness() {
    let tree1: Tree1 = Tree1 {
        name: String::from("Root"),
        children: vec![
            Tree1 {
                name: String::from("Child1"),
                children: vec![],
            },
            Tree1 {
                name: String::from("Child2"),
                children: vec![],
            },
        ],
    };
    let expected = r#"digraph Correct {11854684405404351146 [label="Root"];1720413889726253583 [label="Child1"];11854684405404351146 -> 1720413889726253583;11883667564293945662 [label="Child2"];11854684405404351146 -> 11883667564293945662;}"#;
    let result = draw_nodes("Correct", tree1);
    assert_eq!(expected, result);
}

#[test]
fn root_with_two_children() {
    let t = node("Root", 10, vec![leaf("Child1", 20), leaf("Child2", 30)]);
    let doc = draw_tree("Correct", &t);
    assert_eq!(
        doc,
        r#"digraph Correct {10 [label="Root"];20 [label="Child1"];10 -> 20;30 [label="Child2"];10 -> 30;}"#
    );
    assert_eq!(doc.matches("[label=").count(), 3);
    assert_eq!(doc.matches(" -> ").count(), 2);
    assert!(!doc.contains(";;"));
}

#[test]
fn single_node_tree() {
    let doc = draw_tree("G", &leaf("Alone", 5));
    assert_eq!(doc, r#"digraph G {5 [label="Alone"];}"#);
    assert_eq!(doc.matches("[label=").count(), 1);
    assert_eq!(doc.matches(" -> ").count(), 0);
}

#[test]
fn single_node_through_trait() {
    let t = Tree1 { name: String::from("Only"), children: vec![] };
    let doc = draw_nodes("One", t);
    assert!(doc.starts_with("digraph One {"));
    assert!(doc.ends_with("[label=\"Only\"];}"));
    assert_eq!(doc.matches("[label=").count(), 1);
    assert_eq!(doc.matches(" -> ").count(), 0);
}

#[test]
fn identical_nodes_get_distinct_fingerprints() {
    let t = node("R", 7, vec![leaf("x", 7), leaf("x", 7), leaf("y", 8)]);
    let doc = draw_tree("D", &t);
    assert_eq!(
        doc,
        r#"digraph D {7 [label="R"];8 [label="x"];7 -> 8;9 [label="x"];7 -> 9;10 [label="y"];7 -> 10;}"#
    );
}

#[test]
fn identical_subtrees_through_trait() {
    let twin = Tree1 { name: String::from("Twin"), children: vec![] };
    let t = Tree1 { name: String::from("Top"), children: vec![twin.clone(), twin] };
    let doc = draw_nodes("Twins", t);
    let ids: Vec<&str> = doc
        .split(';')
        .filter(|s| s.contains("[label=\"Twin\"]"))
        .map(|s| s.split(' ').next().unwrap())
        .collect();
    assert_eq!(ids.len(), 2);
    let a: u64 = ids[0].parse().unwrap();
    let b: u64 = ids[1].parse().unwrap();
    assert_eq!(b, a.wrapping_add(1));
}

#[test]
fn probing_wraps_past_the_largest_value() {
    let t = node("a", u64::MAX, vec![leaf("b", u64::MAX)]);
    let doc = draw_tree("W", &t);
    assert_eq!(
        doc,
        r#"digraph W {18446744073709551615 [label="a"];0 [label="b"];18446744073709551615 -> 0;}"#
    );
}

#[test]
fn nested_order_is_preorder() {
    let t = node("r", 1, vec![node("a", 2, vec![leaf("a1", 3)]), leaf("b", 4)]);
    let doc = draw_tree("P", &t);
    assert_eq!(
        doc,
        r#"digraph P {1 [label="r"];2 [label="a"];1 -> 2;3 [label="a1"];2 -> 3;4 [label="b"];1 -> 4;}"#
    );
}

#[test]
fn graph_name_keeps_punctuation() {
    let doc = draw_tree("My Graph!", &leaf("n", 1));
    assert!(doc.starts_with("digraph MyGraph! {"));
    assert_eq!(sanitized_name("My Graph!"), "MyGraph!");
}

#[test]
fn graph_name_drops_non_ascii() {
    assert_eq!(sanitized_name("Grüße Welt"), "GreWelt");
    assert_eq!(sanitized_name(""), "");
    assert_eq!(sanitized_name("  "), "");
}

#[test]
fn sanitizing_twice_changes_nothing() {
    for s in ["My Graph!", "a b\tc", "ünï cødé", "plain"] {
        let once = sanitized_name(s);
        assert_eq!(sanitized_name(&once), once);
    }
    for s in ["Root", "héllo wörld", "tab\there", ""] {
        let once = sanitize(s);
        assert_eq!(sanitize(&once), once);
    }
}

#[test]
fn quotes_in_labels_are_escaped() {
    assert_eq!(sanitize(r#"say "hi""#), r#"say \"hi\""#);
    let doc = draw_tree("Q", &leaf(r#"a"b"#, 3));
    assert_eq!(doc, r#"digraph Q {3 [label="a\"b"];}"#);
}

#[test]
fn non_ascii_label_becomes_empty() {
    assert_eq!(sanitize("日本"), "");
    let doc = draw_tree("E", &leaf("日本", 2));
    assert_eq!(doc, r#"digraph E {2 [label=""];}"#);
}

#[test]
fn line_breaks_in_labels_are_joined() {
    let doc = draw_tree("L", &leaf("one \n two", 4));
    assert_eq!(doc, r#"digraph L {4 [label="onetwo"];}"#);
}

#[test]
fn normalize_trims_and_drops_bare_semicolons() {
    let out = normalize(&chars("  a b  \n;\n\t;  \n c;\r\n\n"));
    assert_eq!(text(&out), "a bc;");
    assert_eq!(text(&normalize(&chars(""))), "");
    assert_eq!(text(&normalize(&chars(";;"))), ";;");
}

#[test]
fn decimal_numerals() {
    let mut out = Vec::new();
    push_decimal(&mut out, 0);
    out.push(' ');
    push_decimal(&mut out, 1203);
    out.push(' ');
    push_decimal(&mut out, u64::MAX);
    assert_eq!(text(&out), "0 1203 18446744073709551615");
}

#[test]
fn fingerprint_probes_to_next_free() {
    let mut seen: HashSet<u64> = HashSet::new();
    assert_eq!(assign_fingerprint(5, &mut seen), 5);
    assert_eq!(assign_fingerprint(5, &mut seen), 6);
    assert_eq!(assign_fingerprint(4, &mut seen), 4);
    assert_eq!(assign_fingerprint(4, &mut seen), 7);
    assert_eq!(seen.len(), 4);
    assert!(seen.contains(&7));
}

#[test]
fn fingerprint_wraps_to_zero() {
    let mut seen: HashSet<u64> = HashSet::new();
    assert_eq!(assign_fingerprint(u64::MAX, &mut seen), u64::MAX);
    assert_eq!(assign_fingerprint(u64::MAX, &mut seen), 0);
    assert_eq!(assign_fingerprint(u64::MAX, &mut seen), 1);
}

#[test]
fn bare_semicolon_line_inside_label_is_dropped() {
    let doc = draw_tree("S", &leaf("x\n;\ny", 4));
    assert_eq!(doc, r#"digraph S {4 [label="xy"];}"#);
}

#[test]
fn backslash_before_quote_is_kept() {
    assert_eq!(sanitize(r#"\""#), r#"\\""#);
    assert_eq!(sanitize("\""), "\\\"");
    assert_eq!(sanitize(""), "");
}

#[test]
fn snapshot_reads_the_callers_tree() {
    let t = Tree1 {
        name: String::from("A"),
        children: vec![Tree1 { name: String::from("B"), children: vec![] }],
    };
    let s = tree_viz::snapshot(&t);
    assert_eq!(s.label, "A");
    assert_eq!(s.children.len(), 1);
    assert_eq!(s.children[0].label, "B");
    assert_eq!(s.hash, tree_viz::content_hash(&t));
    assert_eq!(draw_nodes("G", t.clone()), draw_tree("G", &s));
}
