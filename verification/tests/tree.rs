use caver::file::index::{FileContent, FileIndex, FileRecord, GuardedFile};
use caver::file::File;
use caver::search::SearchParams;

fn rec(name: &str, parent: u64) -> Option<FileRecord> {
    Some(FileRecord { name: name.to_string(), parent })
}

fn leaf(name: &str) -> File {
    File { name: name.to_string(), children: vec![] }
}

fn node(name: &str, children: Vec<File>) -> File {
    File { name: name.to_string(), children }
}

const FIRST: u64 = 24;
const ROOT: u64 = 5;

#[test]
fn build_volume_links_children_under_parents() {
    // ids: 24 docs(root), 25 notes.txt under 24, 26 tombstone,
    // 27 orphan pointing far outside the range, 28 pics(root),
    // 29 a.png under 28.
    let records = vec![
        rec("docs", ROOT),
        rec("notes.txt", FIRST),
        None,
        rec("orphan", 9999),
        rec("pics", ROOT),
        rec("a.png", FIRST + 4),
    ];
    let tree = FileIndex::build_volume("C:\\".to_string(), FIRST, ROOT, &records);
    let expected = node(
        "C:\\",
        vec![node("docs", vec![leaf("notes.txt")]), node("pics", vec![leaf("a.png")])],
    );
    assert_eq!(tree, expected);
}

#[test]
fn build_volume_excludes_unreachable_reference_cycles() {
    // 24 and 25 point at each other; 26 is a genuine root.
    let records = vec![rec("a", FIRST + 1), rec("b", FIRST), rec("ok", ROOT)];
    let tree = FileIndex::build_volume("D:\\".to_string(), FIRST, ROOT, &records);
    assert_eq!(tree, node("D:\\", vec![leaf("ok")]));
}

#[test]
fn build_volume_keeps_sibling_order_by_id() {
    let records = vec![
        rec("z-first", ROOT),
        rec("a-second", ROOT),
        rec("m-third", ROOT),
    ];
    let tree = FileIndex::build_volume("C:\\".to_string(), FIRST, ROOT, &records);
    assert_eq!(
        tree,
        node("C:\\", vec![leaf("z-first"), leaf("a-second"), leaf("m-third")]),
    );
}

#[test]
fn iterator_walks_preorder_with_paths() {
    let tree = node(
        "C:\\",
        vec![node("docs", vec![leaf("notes.txt")]), leaf("top.txt")],
    );
    let mut it = tree.iter();
    let mut seen: Vec<(String, String, bool)> = Vec::new();
    while let Some(e) = it.next() {
        seen.push((e.name, e.path, e.is_leaf));
    }
    assert_eq!(
        seen,
        vec![
            ("docs".to_string(), "C:\\docs".to_string(), false),
            ("notes.txt".to_string(), "C:\\docs\\notes.txt".to_string(), true),
            ("top.txt".to_string(), "C:\\top.txt".to_string(), true),
        ]
    );
}

#[test]
fn unguard_keeps_shape_and_names() {
    let guarded = GuardedFile {
        name: "root".to_string(),
        children: vec![
            GuardedFile { name: "a".to_string(), children: vec![] },
            GuardedFile {
                name: "b".to_string(),
                children: vec![GuardedFile { name: "c".to_string(), children: vec![] }],
            },
        ],
    };
    let plain = guarded.unguard();
    assert_eq!(plain, node("root", vec![leaf("a"), node("b", vec![leaf("c")])]));
}

#[test]
fn search_by_name_matches_only_the_file() {
    let snapshot = FileIndex {
        disks: vec![node("C:\\", vec![node("docs", vec![leaf("notes.txt")])])],
    };
    let params = SearchParams::from_str("notes").unwrap();
    let hits = snapshot.search(&params, &vec![]);
    assert_eq!(
        hits,
        vec![("notes.txt".to_string(), "C:\\docs\\notes.txt".to_string())]
    );
}

#[test]
fn content_search_never_reads_directories() {
    let snapshot = FileIndex {
        disks: vec![node("C:\\", vec![node("docs", vec![leaf("notes.txt")])])],
    };
    let params = SearchParams::from_str("content<args>").unwrap();
    // The file's text decides for the leaf; text recorded under the
    // directory's path changes nothing, because directories are never
    // opened for reading.
    let with_dir_text = vec![
        FileContent { path: "C:\\docs".to_string(), text: "args args".to_string() },
        FileContent { path: "C:\\docs\\notes.txt".to_string(), text: "no".to_string() },
    ];
    let without_dir_text = vec![
        FileContent { path: "C:\\docs\\notes.txt".to_string(), text: "no".to_string() },
    ];
    assert_eq!(
        snapshot.search(&params, &with_dir_text),
        snapshot.search(&params, &without_dir_text),
    );
    // A leaf whose text matches is found; the directory satisfies the
    // constraint without a read.
    let matching = vec![
        FileContent { path: "C:\\docs\\notes.txt".to_string(), text: "has args".to_string() },
    ];
    assert_eq!(
        snapshot.search(&params, &matching),
        vec![
            ("docs".to_string(), "C:\\docs".to_string()),
            ("notes.txt".to_string(), "C:\\docs\\notes.txt".to_string()),
        ]
    );
    // A leaf with no readable text does not match.
    assert_eq!(
        snapshot.search(&params, &vec![]),
        vec![("docs".to_string(), "C:\\docs".to_string())]
    );
}

#[test]
fn search_pending_lists_leaves_passing_other_fields() {
    let snapshot = FileIndex {
        disks: vec![node(
            "C:\\",
            vec![node("docs", vec![leaf("notes.txt"), leaf("other.md")])],
        )],
    };
    let params = SearchParams::from_str("notes content<x>").unwrap();
    assert_eq!(snapshot.search_pending(&params), vec!["C:\\docs\\notes.txt".to_string()]);
    let no_content = SearchParams::from_str("notes").unwrap();
    assert_eq!(snapshot.search_pending(&no_content), Vec::<String>::new());
}

#[test]
fn search_str_parses_and_searches() {
    let snapshot = FileIndex {
        disks: vec![node("C:\\", vec![node("docs", vec![leaf("main.rs")])])],
    };
    let contents = vec![FileContent {
        path: "C:\\docs\\main.rs".to_string(),
        text: "fn main() { let args = 1; }".to_string(),
    }];
    let hits = snapshot.search_str("main.rs content<args>", &contents).unwrap();
    assert_eq!(hits, vec![("main.rs".to_string(), "C:\\docs\\main.rs".to_string())]);
    assert!(snapshot.search_str("main.rs (", &contents).is_err());
}
