use dearlystars::csv_rows::parse_csv;
use dearlystars::ez::EzBuilder;
use dearlystars::gld::Gld;
use dearlystars::gld_checks::gld_readable;
use dearlystars::nds_tree::SourceTreeNode;
use dearlystars::node_order::sort_nodes;
use dearlystars::pictures::png_target;

fn strings(v: &[&str]) -> Vec<String> {
    v.iter().map(|s| s.to_string()).collect()
}

#[test]
fn csv_plain_and_quoted_fields() {
    let rows = parse_csv("a,b,c\n\"x,y\",\"he said \"\"hi\"\"\",\n\"two\nlines\",z\r\n");
    assert_eq!(
        rows,
        vec![
            strings(&["a", "b", "c"]),
            strings(&["x,y", "he said \"hi\"", ""]),
            strings(&["two\nlines", "z"]),
        ]
    );
}

#[test]
fn csv_last_row_without_newline() {
    assert_eq!(parse_csv("a\nb"), vec![strings(&["a"]), strings(&["b"])]);
    assert_eq!(parse_csv(""), Vec::<Vec<String>>::new());
    assert_eq!(parse_csv("\n"), vec![strings(&[""])]);
}

fn file(name: &str) -> SourceTreeNode {
    SourceTreeNode { name: name.to_string(), children: None }
}

#[test]
fn nodes_sort_by_upper_case_names() {
    let sorted = sort_nodes(vec![file("b.txt"), file("A.txt"), file("_x"), file("a2")]);
    let names: Vec<&str> = sorted.iter().map(|n| n.name.as_str()).collect();
    assert_eq!(names, vec!["A.txt", "a2", "b.txt", "_x"]);
}

#[test]
fn png_names() {
    assert_eq!(png_target("AGL_TITLE_12"), Some(("AGL_TITLE".to_string(), 12)));
    assert_eq!(png_target("AGL_x"), None);
    assert_eq!(png_target("plain"), None);
    assert_eq!(png_target("_7"), Some((String::new(), 7)));
}

fn layout_gld(layout: u16, palette_offset: u16) -> Vec<u8> {
    let mut d = Vec::new();
    d.extend_from_slice(b"GLD\0");
    d.extend_from_slice(&2u16.to_le_bytes());
    d.extend_from_slice(&layout.to_le_bytes());
    for v in [0u32, 0, 0, 4, 4, 1] {
        d.extend_from_slice(&v.to_le_bytes());
    }
    d.extend_from_slice(&[0, 1, 1, 0, 0xFF, 0x7F, 0x1F, 0x80]);
    d.extend_from_slice(&0u32.to_le_bytes());
    for v in [palette_offset, 4, 2, 2, 0, 0, 0, 0, 0, 0] {
        d.extend_from_slice(&v.to_le_bytes());
    }
    d
}

#[test]
fn gld_checks() {
    assert!(gld_readable(&layout_gld(1, 0)));
    let mut unknown = layout_gld(3, 0);
    unknown.extend_from_slice(&[0, 0, 0, 0]);
    assert!(!gld_readable(&unknown));
    assert!(gld_readable(&layout_gld(3, 0)));
    assert!(!gld_readable(&layout_gld(1, 6)));
    assert!(gld_readable(&[]));
    let g = Gld::read(&layout_gld(1, 0), "s").unwrap();
    assert!(g.injectable(0));
    assert!(!g.injectable(1));
    assert!(g.extractable(0));
    assert!(!g.extractable(5));
}

#[test]
fn archive_entry_checks() {
    let b = EzBuilder::new(0);
    assert!(b.add_accepts("DIR_BEGIN", &[]));
    assert!(b.add_accepts("A.TXT", &[1, 2, 3]));
}
