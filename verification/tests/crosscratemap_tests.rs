use rustfind::crosscratemap::{
    crate_map_file, line_is_readable, map_text_is_readable, primary_map_text, read_cross_crate_map, read_line_entry,
    write_cross_crate_map, CrossCrateMap, CrossCrateMapItem, DefId, JumpDef, NodeInfo,
    TextFilePos,
};
use rustfind::text::chars_of;

fn item_of(m: &CrossCrateMap, krate: u32, node: u32) -> Option<(String, usize, usize, usize)> {
    m.get(DefId { krate, node })
        .map(|i| (i.fname.clone(), i.line, i.col, i.len))
}

fn some(f: &str, line: usize, col: usize, len: usize) -> Option<(String, usize, usize, usize)> {
    Some((f.to_string(), line, col, len))
}

#[test]
fn reads_node_record() {
    let m = read_cross_crate_map(2, "node\tmycrate\t12\t3\tsrc/a.rs\t5\t7\t9\tfn\tfoo\n");
    assert_eq!(item_of(&m, 2, 12), some("src/a.rs", 4, 7, 9));
    assert_eq!(item_of(&m, 2, 3), None);
    assert_eq!(item_of(&m, 0, 12), None);
}

#[test]
fn reads_older_layout() {
    let m = read_cross_crate_map(5, "mycrate\t12\tsrc/b.rs\t10\t0\t4\tstruct\tBar");
    assert_eq!(item_of(&m, 5, 12), some("src/b.rs", 9, 0, 4));
}

#[test]
fn passes_over_jdef_and_short_lines() {
    let text = "jdef\t1\t2\t3\t4\t5\t6\nshort\tline\n\n\tx\ty\tz\tw\tv\n";
    let m = read_cross_crate_map(1, text);
    // only the last line (six fields, older layout) is an entry
    assert_eq!(item_of(&m, 1, 0), some("y", usize::MAX, 0, 0));
    assert_eq!(item_of(&m, 1, 1), None);
    assert_eq!(item_of(&m, 1, 2), None);
}

#[test]
fn later_line_wins() {
    let text = "node\tc\t4\t0\tfirst.rs\t1\t1\t1\tk\ti\nnode\tc\t4\t0\tsecond.rs\t2\t2\t2\tk\ti\n";
    let m = read_cross_crate_map(0, text);
    assert_eq!(item_of(&m, 0, 4), some("second.rs", 1, 2, 2));
}

#[test]
fn unreadable_numbers_read_as_zero() {
    let m = read_cross_crate_map(3, "node\tc\tabc\t0\tf.rs\tx\t-1\t99999999999999999999999\tk\ti\n");
    // line 0 less one wraps to the largest index
    assert_eq!(item_of(&m, 3, 0), some("f.rs", usize::MAX, 0, 0));
}

#[test]
fn signs_and_truncation() {
    let m = read_cross_crate_map(-1, "node\tc\t-1\t0\tf.rs\t+3\t+4\t5\tk\ti\nnode\tc\t4294967298\t0\tg.rs\t1\t2\t3\tk\ti\n");
    assert_eq!(item_of(&m, u32::MAX, u32::MAX), some("f.rs", 2, 4, 5));
    assert_eq!(item_of(&m, u32::MAX, 2), some("g.rs", 0, 2, 3));
}

#[test]
fn empty_text_reads_as_empty_map() {
    let m = read_cross_crate_map(0, "");
    assert_eq!(item_of(&m, 0, 0), None);
}

#[test]
fn line_entry_of_record() {
    let line = chars_of("node\tc\t7\t1\tm.rs\t3\t2\t1\tk\ti");
    let (id, item) = read_line_entry(&line, 9).unwrap();
    assert_eq!(id, DefId { krate: 9, node: 7 });
    assert_eq!(item.fname, "m.rs");
    assert_eq!((item.line, item.col, item.len), (2, 2, 1));
    assert!(read_line_entry(&chars_of("jdef\t1\t2\t3\t4\t5"), 9).is_none());
    assert!(read_line_entry(&chars_of("a\tb\tc\td\te"), 9).is_none());
}

fn sample_nodes() -> Vec<NodeInfo> {
    vec![
        NodeInfo {
            node_id: 12,
            parent_id: 3,
            pos: Some(TextFilePos { fname: "src/a.rs".to_string(), line: 4, col: 7 }),
            len: 9,
            kind: "fn".to_string(),
            ident: "foo".to_string(),
        },
        NodeInfo {
            node_id: 13,
            parent_id: 12,
            pos: None,
            len: 2,
            kind: "expr".to_string(),
            ident: String::new(),
        },
    ]
}

fn sample_jumps() -> Vec<JumpDef> {
    vec![
        JumpDef { node_id: 20, def: DefId { krate: 0, node: 12 }, def_crate_name: String::new() },
        JumpDef { node_id: 21, def: DefId { krate: 3, node: 40 }, def_crate_name: "std".to_string() },
    ]
}

#[test]
fn writes_map_text() {
    let text = write_cross_crate_map("mycrate", &sample_nodes(), &sample_jumps(), true);
    assert_eq!(
        text,
        "node\tmycrate\t12\t3\tsrc/a.rs\t5\t7\t9\tfn\tfoo\njdef\t20\tmycrate\t12\njdef\t21\tstd\t40\n"
    );
}

#[test]
fn writes_older_layout() {
    let text = write_cross_crate_map("mycrate", &sample_nodes(), &Vec::new(), false);
    assert_eq!(text, "mycrate\t12\tsrc/a.rs\t5\t7\t9\tfn\tfoo\n");
}

#[test]
fn written_map_reads_back() {
    let mut nodes = sample_nodes();
    nodes.push(NodeInfo {
        node_id: u32::MAX,
        parent_id: 0,
        pos: Some(TextFilePos { fname: "z.rs".to_string(), line: usize::MAX, col: 0 }),
        len: usize::MAX,
        kind: "k\twith tab".to_string(),
        ident: "".to_string(),
    });
    for new_format in [true, false] {
        let text = write_cross_crate_map("mycrate", &nodes, &sample_jumps(), new_format);
        let m = read_cross_crate_map(7, &text);
        assert_eq!(item_of(&m, 7, 12), some("src/a.rs", 4, 7, 9));
        assert_eq!(item_of(&m, 7, 13), None);
        assert_eq!(item_of(&m, 7, u32::MAX), some("z.rs", usize::MAX, 0, usize::MAX));
        assert_eq!(item_of(&m, 7, 20), None);
        assert_eq!(item_of(&m, 7, 21), None);
    }
}

#[test]
fn merge_prefers_the_merged_map() {
    let mut a = CrossCrateMap::new();
    a.insert(DefId { krate: 1, node: 1 }, CrossCrateMapItem { fname: "a".to_string(), line: 1, col: 1, len: 1 });
    a.insert(DefId { krate: 1, node: 2 }, CrossCrateMapItem { fname: "a2".to_string(), line: 2, col: 2, len: 2 });
    let b = read_cross_crate_map(1, "node\tc\t2\t0\tb2\t4\t4\t4\tk\ti\nnode\tc\t3\t0\tb3\t6\t6\t6\tk\ti\n");
    a.merge(&b);
    assert_eq!(item_of(&a, 1, 1), some("a", 1, 1, 1));
    assert_eq!(item_of(&a, 1, 2), some("b2", 3, 4, 4));
    assert_eq!(item_of(&a, 1, 3), some("b3", 5, 6, 6));
    assert_eq!(item_of(&b, 1, 1), None);
}

#[test]
fn insert_replaces() {
    let mut m = CrossCrateMap::new();
    let id = DefId { krate: 4, node: 5 };
    m.insert(id, CrossCrateMapItem { fname: "x".to_string(), line: 0, col: 0, len: 0 });
    m.insert(id, CrossCrateMapItem { fname: "y".to_string(), line: 1, col: 2, len: 3 });
    assert_eq!(item_of(&m, 4, 5), some("y", 1, 2, 3));
    assert_eq!(item_of(&m, 5, 4), None);
}

#[test]
fn map_text_selection() {
    assert_eq!(primary_map_text(Some("node".to_string())), Some("node".to_string()));
    assert_eq!(primary_map_text(Some(String::new())), None);
    assert_eq!(primary_map_text(None), None);
}

#[test]
fn map_file_of_crate() {
    assert_eq!(crate_map_file("std"), "libstd/lib.rfx");
    assert_eq!(crate_map_file(""), "lib/lib.rfx");
}

#[test]
fn readability_of_map_text() {
    assert!(map_text_is_readable("node\tc\t1\t0\tf\t1\t1\t1\n"));
    assert!(map_text_is_readable("node\tc\t1\t0\tf\n"));
    assert!(!map_text_is_readable("node\tc\t1\t0\tf\t1\n"));
    assert!(!map_text_is_readable("jdef\t1\t2\t3\nnode\tc\t1\t0\tf\t1\t1"));
    assert!(map_text_is_readable("nodes\tc\t1\t0\tf\t1\n"));
    assert!(map_text_is_readable(""));
    assert!(line_is_readable(&chars_of("node\ta\tb\tc\td\te\tf\tg")));
    assert!(!line_is_readable(&chars_of("node\ta\tb\tc\td\te\tf")));
}
