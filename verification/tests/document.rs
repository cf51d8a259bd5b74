use abstract_gui::model::{AttrValue, Document, TreeChild, ValidationError};
use abstract_gui::parse::parse_document;
use abstract_gui::render::render_tree_section;
use abstract_gui::validate::{page_nodes, validate_document};

fn parse(text: &str) -> Result<Document, ValidationError> {
    parse_document(text)
}

fn messages(errors: &[ValidationError]) -> Vec<String> {
    errors.iter().map(|e| e.message.clone()).collect()
}

const DEMO: &str = r#"app: Demo

nav:
  GlobalNav:
    - Home
    - Products
    - AdminRoot

  ProductTabs:
    - ProductDetail
    - ProductReviews

inherit:
  RootLayout:
    - Products
    - AdminRoot:
        - AdminUsers

drill:
  Home:
    - Products:
        - ProductDetail:
            - ProductReviews
    - AdminRoot:
        - AdminUsers

pages:
  Home:
    path: /
    nav: [GlobalNav]

  Products:
    path: /products
    nav: [GlobalNav]

  ProductDetail:
    path: /products/:id
    nav: [GlobalNav, ProductTabs]
"#;

#[test]
fn parses_and_validates_demo() {
    let doc = parse(DEMO).expect("parse demo");
    validate_document(&doc).expect("validate demo");
}

#[test]
fn rejects_drill_node_missing_from_inherit_leaves() {
    let src = r#"
app: Bad
drill:
  Home:
    - Missing
inherit:
  RootLayout:
    - Home
nav:
  GlobalNav: [Home, Ghost]
node:
  Home:
    path: /
"#;
    let doc = parse(src).expect("parse");
    let errors = validate_document(&doc).expect_err("should fail");
    assert!(errors.iter().any(|err| err.message.contains("Ghost")));
}

#[test]
fn demo_reads_every_section() {
    let doc = parse(DEMO).expect("parse demo");
    assert_eq!(doc.app, Some("Demo".to_string()));
    assert_eq!(doc.nav.len(), 2);
    assert_eq!(doc.nav.key_at(0), "GlobalNav");
    assert_eq!(doc.nav.key_at(1), "ProductTabs");
    assert_eq!(
        doc.nav.value_at(0),
        &vec!["Home".to_string(), "Products".to_string(), "AdminRoot".to_string()]
    );
    assert_eq!(
        doc.nav.value_at(1),
        &vec!["ProductDetail".to_string(), "ProductReviews".to_string()]
    );
    assert_eq!(doc.inherit.len(), 1);
    assert_eq!(
        doc.inherit.value_at(0),
        &vec![
            TreeChild::Leaf("Products".to_string()),
            TreeChild::Branch(
                "AdminRoot".to_string(),
                vec![TreeChild::Leaf("AdminUsers".to_string())]
            ),
        ]
    );
    assert_eq!(doc.drill.key_at(0), "Home");
    assert_eq!(doc.node.len(), 3);
    assert_eq!(doc.groups.len(), 0);
}

fn nav_attr(doc: &Document, page: &str) -> Vec<String> {
    let spec = doc.node.get(page).expect("page is recorded");
    match spec.attrs.get("nav") {
        Some(AttrValue::Vector(v)) => (0..v.len()).map(|i| v.get(i).to_string()).collect(),
        _ => panic!("nav attribute of {page}"),
    }
}

#[test]
fn demo_pages_declare_their_navs() {
    let doc = parse(DEMO).expect("parse demo");
    assert_eq!(doc.node.key_at(0), "Home");
    assert_eq!(doc.node.key_at(1), "ProductDetail");
    assert_eq!(doc.node.key_at(2), "Products");
    assert_eq!(nav_attr(&doc, "Home"), vec!["GlobalNav".to_string()]);
    assert_eq!(nav_attr(&doc, "Products"), vec!["GlobalNav".to_string()]);
    assert_eq!(
        nav_attr(&doc, "ProductDetail"),
        vec!["GlobalNav".to_string(), "ProductTabs".to_string()]
    );
    match doc.node.get("Products").expect("Products").attrs.get("path") {
        Some(AttrValue::Scalar(s)) => assert_eq!(s, "/products"),
        _ => panic!("path"),
    }
}

#[test]
fn pages_section_overrides_node_section() {
    let doc = parse("node:\n  A:\n    x: one\n  B:\n    y: two\npages:\n  A:\n    z: three\n")
        .expect("parse");
    assert_eq!(doc.node.len(), 2);
    let a = &doc.node.get("A").expect("A").attrs;
    assert_eq!(a.len(), 1);
    match a.get("z") {
        Some(AttrValue::Scalar(s)) => assert_eq!(s, "three"),
        _ => panic!("z"),
    }
    assert!(doc.node.get("B").expect("B").attrs.contains_key("y"));
}

#[test]
fn page_navs_are_checked_against_declared_navs() {
    assert_eq!(
        errors_of("nav:\n  G: [P]\ndrill:\n  P: []\npages:\n  P:\n    nav: [G, H]\n"),
        vec!["node `P` references unknown nav `H`".to_string()]
    );
}

#[test]
fn flow_list_is_shorthand_for_block_list() {
    let a = parse("nav:\n  foo: [bar, baz]\n").expect("flow");
    let b = parse("nav:\n  foo:\n    - bar\n    - baz\n").expect("block");
    assert_eq!(a.nav.value_at(0), &vec!["bar".to_string(), "baz".to_string()]);
    assert_eq!(a.nav.value_at(0), b.nav.value_at(0));
}

#[test]
fn nav_targets_keep_declared_order() {
    let doc = parse("nav:\n  N: [B, A]\n").expect("parse");
    assert_eq!(doc.nav.value_at(0), &vec!["B".to_string(), "A".to_string()]);
    let doc = parse("nav:\n  N: [b, a, b]\n").expect("parse");
    assert_eq!(
        doc.nav.value_at(0),
        &vec!["b".to_string(), "a".to_string(), "b".to_string()]
    );
}

#[test]
fn node_attributes_keep_their_kind() {
    let doc = parse(
        "node:\n  Home:\n    path: /\n    nav: [G]\n    count: 3\n    ok: true\n    none: null\n",
    )
    .expect("parse");
    let attrs = &doc.node.value_at(0).attrs;
    assert_eq!(attrs.len(), 5);
    match attrs.get("count") {
        Some(AttrValue::Scalar(s)) => assert_eq!(s, "3"),
        _ => panic!("count"),
    }
    match attrs.get("ok") {
        Some(AttrValue::Scalar(s)) => assert_eq!(s, "true"),
        _ => panic!("ok"),
    }
    match attrs.get("none") {
        Some(AttrValue::Scalar(s)) => assert_eq!(s, "null"),
        _ => panic!("none"),
    }
    match attrs.get("nav") {
        Some(AttrValue::Vector(v)) => {
            assert_eq!(v.len(), 1);
            assert_eq!(v.get(0), "G");
        }
        _ => panic!("nav"),
    }
}

#[test]
fn groups_keep_document_order() {
    let doc = parse("groups:\n  - id: Z\n    members: [b]\n  - id: A\n    members: []\n")
        .expect("parse");
    assert_eq!(doc.groups.len(), 2);
    assert_eq!(doc.groups[0].id, "Z");
    assert_eq!(doc.groups[1].id, "A");
    assert_eq!(doc.groups[1].members.len(), 0);
}

#[test]
fn later_duplicate_root_replaces_earlier() {
    let doc = parse("drill:\n  Home: [a]\n  !t Home: [b]\n").expect("parse");
    assert_eq!(doc.drill.len(), 1);
    assert_eq!(doc.drill.value_at(0), &vec![TreeChild::Leaf("b".to_string())]);
}

fn parse_err(text: &str) -> String {
    match parse(text) {
        Ok(_) => panic!("expected an error"),
        Err(e) => e.message,
    }
}

#[test]
fn reports_each_reading_error() {
    assert!(parse_err("a: [").starts_with("YAML parse error: "));
    assert_eq!(parse_err("- 1\n"), "top level must be a mapping");
    assert_eq!(parse_err("app: [x]\n"), "`app` must be a string");
    assert_eq!(parse_err("drill: [x]\n"), "`drill` must be a mapping");
    assert_eq!(parse_err("drill:\n  1: []\n"), "keys in `drill` must be strings");
    assert_eq!(
        parse_err("inherit:\n  R: x\n"),
        "entries in `inherit` must contain a sequence of children"
    );
    assert_eq!(
        parse_err("drill:\n  R:\n    - {a: [], b: []}\n"),
        "branch entries in `drill` must contain exactly one key"
    );
    assert_eq!(
        parse_err("drill:\n  R:\n    - 5\n"),
        "entries in `drill` must be strings or single-key mappings"
    );
    assert_eq!(parse_err("nav:\n  N: x\n"), "nav `N` must be a sequence");
    assert_eq!(parse_err("nav:\n  N: [1]\n"), "nav `N` must contain only strings");
    assert_eq!(
        parse_err("node:\n  H: [x]\n"),
        "node `H` must be a mapping of attributes"
    );
    assert_eq!(parse_err("node:\n  H:\n    1: x\n"), "keys in `node `H`` must be strings");
    assert_eq!(
        parse_err("node:\n  H:\n    a: {b: c}\n"),
        "node `H` attribute `a` must be scalar or vector"
    );
    assert_eq!(
        parse_err("node:\n  H:\n    a: !t x\n"),
        "node `H` attribute `a` must not use tags"
    );
    assert_eq!(
        parse_err("node:\n  H:\n    a: [1]\n"),
        "node `H` attribute `a` must contain only strings"
    );
    assert_eq!(parse_err("pages: [x]\n"), "`pages` must be a mapping");
    assert_eq!(
        parse_err("pages:\n  P: x\n"),
        "node `P` must be a mapping of attributes"
    );
    assert_eq!(parse_err("groups: x\n"), "`groups` must be a sequence");
    assert_eq!(parse_err("groups: [x]\n"), "group entries must be mappings");
    assert_eq!(parse_err("groups:\n  - members: []\n"), "group must define `id`");
    assert_eq!(parse_err("groups:\n  - id: [x]\n"), "group field `id` must be a string");
    assert_eq!(parse_err("groups:\n  - id: G\n"), "group `G` must define `members`");
    assert_eq!(
        parse_err("groups:\n  - id: G\n    members: x\n"),
        "group `G` members must be a sequence"
    );
}

#[test]
fn first_section_error_wins() {
    assert_eq!(parse_err("groups: x\napp: [y]\n"), "`app` must be a string");
}

#[test]
fn tags_are_looked_through_for_lists_and_texts() {
    let doc = parse("nav:\n  N: !t [!s a]\n").expect("parse");
    assert_eq!(doc.nav.value_at(0), &vec!["a".to_string()]);
}

#[test]
fn missing_sections_are_empty() {
    let doc = parse("other: 1\n").expect("parse");
    assert_eq!(doc.app, None);
    assert_eq!(doc.drill.len(), 0);
    assert_eq!(doc.inherit.len(), 0);
    assert_eq!(doc.nav.len(), 0);
    assert_eq!(doc.node.len(), 0);
    assert_eq!(doc.groups.len(), 0);
    validate_document(&doc).expect("empty document is valid");
}

fn errors_of(text: &str) -> Vec<String> {
    let doc = parse(text).expect("parse");
    match validate_document(&doc) {
        Ok(()) => Vec::new(),
        Err(errors) => messages(&errors),
    }
}

#[test]
fn reports_each_rule_in_order() {
    let src = "inherit:\n  R: [a, a]\ndrill:\n  D: [b, D]\nnav:\n  E: []\n  N: [zz, b]\nnode:\n  X:\n    nav: [N, Q]\ngroups:\n  - id: G\n    members: [a, nope]\n";
    assert_eq!(
        errors_of(src),
        vec![
            "inherit leaf `a` appears more than once".to_string(),
            "drill node `D` appears more than once".to_string(),
            "nav `E` must not be empty".to_string(),
            "nav `N` target `zz` must be a page".to_string(),
            "node `X` references unknown nav `Q`".to_string(),
            "group `G` member `nope` must be a page".to_string(),
        ]
    );
}

#[test]
fn childless_inner_branch_counts_as_leaf() {
    let src = "inherit:\n  R:\n    - A: []\n    - A\n";
    assert_eq!(
        errors_of(src),
        vec!["inherit leaf `A` appears more than once".to_string()]
    );
    assert!(errors_of("inherit:\n  R: []\nnav:\n  N: [R]\n")
        .contains(&"nav `N` target `R` must be a page".to_string()));
}

#[test]
fn pages_are_inherit_leaves_and_drill_nodes() {
    let src = "inherit:\n  R: [L]\ndrill:\n  D:\n    - {B: [C]}\nnav:\n  N: [L, D, B, C]\n";
    assert_eq!(errors_of(src), Vec::<String>::new());
    assert_eq!(
        errors_of("inherit:\n  R: [L]\nnav:\n  N: [R]\n"),
        vec!["nav `N` target `R` must be a page".to_string()]
    );
}

#[test]
fn scalar_nav_attribute_is_not_checked() {
    assert_eq!(errors_of("node:\n  X:\n    nav: Q\n"), Vec::<String>::new());
}

#[test]
fn layout_under_two_inherit_roots_is_refused() {
    let src = "inherit:\n  R1:\n    - X: [a]\n  R2:\n    - X: [b]\n";
    let doc = parse(src).expect("parse");
    let errors = validate_document(&doc).expect_err("X inherits from two parents");
    assert_eq!(
        messages(&errors),
        vec!["inherit layout `X` appears more than once".to_string()]
    );
}

#[test]
fn layout_that_is_also_a_leaf_is_refused() {
    assert_eq!(
        errors_of("inherit:\n  R1:\n    - X: [a]\n  R2:\n    - X\n"),
        vec!["inherit layout `X` appears more than once".to_string()]
    );
    assert_eq!(
        errors_of("inherit:\n  R:\n    - X\n    - Y:\n        - X: [a]\n"),
        vec!["inherit layout `X` appears more than once".to_string()]
    );
}

#[test]
fn layout_rules_leave_roots_and_childless_entries_alone() {
    assert_eq!(errors_of("inherit:\n  R1: [R2]\n  R2: [x]\n"), Vec::<String>::new());
    assert_eq!(errors_of("inherit:\n  R1:\n    - R2: [a]\n  R2: [b]\n"), Vec::<String>::new());
    assert_eq!(
        errors_of("inherit:\n  R1:\n    - X: []\n  R2:\n    - X: [a]\n"),
        vec!["inherit layout `X` appears more than once".to_string()]
    );
}

#[test]
fn repeats_are_reported_leaves_then_layouts_then_drill() {
    let src = "drill:\n  D: [D]\ninherit:\n  R1:\n    - X: [a]\n    - a\n  R2:\n    - X: [b]\n";
    assert_eq!(
        errors_of(src),
        vec![
            "inherit leaf `a` appears more than once".to_string(),
            "inherit layout `X` appears more than once".to_string(),
            "drill node `D` appears more than once".to_string(),
        ]
    );
}

#[test]
fn page_nodes_lists_pages_in_order() {
    let doc = parse(DEMO).expect("parse demo");
    assert_eq!(
        page_nodes(&doc).expect("demo is valid"),
        vec![
            "AdminRoot".to_string(),
            "AdminUsers".to_string(),
            "Home".to_string(),
            "ProductDetail".to_string(),
            "ProductReviews".to_string(),
            "Products".to_string(),
        ]
    );
    let bad = parse("inherit:\n  R: [a, a]\n").expect("parse");
    let errors = page_nodes(&bad).expect_err("invalid");
    assert_eq!(messages(&errors), vec!["inherit leaf `a` appears more than once".to_string()]);
}

#[test]
fn tree_sections_render_indented_in_pre_order() {
    let doc = parse(DEMO).expect("parse demo");
    assert_eq!(
        render_tree_section(&doc.drill),
        vec![
            "Home".to_string(),
            "  Products".to_string(),
            "    ProductDetail".to_string(),
            "      ProductReviews".to_string(),
            "  AdminRoot".to_string(),
            "    AdminUsers".to_string(),
        ]
    );
    assert_eq!(
        render_tree_section(&doc.inherit),
        vec![
            "RootLayout".to_string(),
            "  Products".to_string(),
            "  AdminRoot".to_string(),
            "    AdminUsers".to_string(),
        ]
    );
}

#[test]
fn tree_sections_render_roots_in_key_order() {
    let doc = parse("drill:\n  b: [x]\n  a: []\n  c:\n    - y: []\n    - z\n").expect("parse");
    assert_eq!(
        render_tree_section(&doc.drill),
        vec![
            "a".to_string(),
            "b".to_string(),
            "  x".to_string(),
            "c".to_string(),
            "  y".to_string(),
            "  z".to_string(),
        ]
    );
    let empty = parse("other: 1\n").expect("parse");
    assert_eq!(render_tree_section(&empty.inherit), Vec::<String>::new());
}
