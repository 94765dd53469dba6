use mmdu::config::{ByteMode, CountMode, Report, ReportType};
use mmdu::depth;
use mmdu::ncdu::{Data, FSObj, FSTree};
use mmdu::policy::{Entry, Field, NcduEntry, UsageError};
use mmdu::total;
use mmdu::usage::Acc;

const SOURCE: &str = "1 1 0  4096 1 -- /data/test\n\
                      1 1 0  1024 5 -- /data/test/foo\n\
                      1 1 0  1024 5 -- /data/test/bar\n\
                      2 1 0  1024 2 -- /data/test/other\n\
                      1 1 0  4096 1 -- /data/test/a\n\
                      1 1 0  1024 5 -- /data/test/a/foo\n\
                      1 1 0  1024 5 -- /data/test/a/bar\n\
                      1 1 0  4096 1 -- /data/test/b\n\
                      1 1 0  1024 5 -- /data/test/b/foo\n\
                      2 1 0  1024 2 -- /data/test/b/other\n";

// The compact-form example report: the tree of `/data/test` with one object
// hard-linked four times under four paths.
const EXAMPLE: &str = "1 1 0  4096 1 -- /data/test\n\
                       2 1 0  4096 1 -- /data/test/a\n\
                       3 1 0  1024 1 -- /data/test/a/baz\n\
                       4 1 0  1024 4 -- /data/test/a/foo\n\
                       5 1 0  4096 1 -- /data/test/b\n\
                       4 1 0  1024 4 -- /data/test/b/bar\n\
                       4 1 0  1024 4 -- /data/test/bar\n\
                       4 1 0  1024 4 -- /data/test/foo\n";

fn acc(inodes: u64, bytes: u64) -> Acc {
    Acc { inodes, bytes }
}

fn row(path: &str, inodes: u64, bytes: u64) -> (Vec<u8>, Acc) {
    (path.as_bytes().to_vec(), acc(inodes, bytes))
}

#[test]
fn total() {
    let source = "1 1 0  4096 1 -- /data/test\n\
                  1 1 0  1024 3 -- /data/test/foo\n\
                  1 1 0  1024 3 -- /data/test/bar\n\
                  1 1 0  1024 3 -- /data/test/baz\n\
                  2 1 0  1024 2 -- /data/test/other\n";

    let once = total::sum(source.as_bytes(), false).unwrap();
    assert_eq!(acc(3, 6144), once);

    let many = total::sum(source.as_bytes(), true).unwrap();
    assert_eq!(acc(5, 8192), many);
}

#[test]
fn depth() {
    let once = vec![
        row("/data/test", 5, 14336),
        row("/data/test/a", 2, 5120),
        row("/data/test/b", 3, 6144),
    ];
    let result = depth::sum(b"/data/test", 1, SOURCE.as_bytes(), false).unwrap();
    assert_eq!(once, result);

    let many = vec![
        row("/data/test", 10, 19456),
        row("/data/test/a", 3, 6144),
        row("/data/test/b", 3, 6144),
    ];
    let result = depth::sum(b"/data/test", 1, SOURCE.as_bytes(), true).unwrap();
    assert_eq!(many, result);
}

#[test]
fn depth_parse_hardlinks_once() {
    let expected = vec![
        row("/data/test", 5, 14336),
        row("/data/test/a", 2, 5120),
        row("/data/test/b", 3, 6144),
    ];
    let sum = depth::sum(b"/data/test", 1, SOURCE.as_bytes(), false).unwrap();
    assert_eq!(expected, sum);
}

#[test]
fn depth_parse_hardlinks_many() {
    let expected = vec![
        row("/data/test", 10, 19456),
        row("/data/test/a", 3, 6144),
        row("/data/test/b", 3, 6144),
    ];
    let sum = depth::sum(b"/data/test", 1, SOURCE.as_bytes(), true).unwrap();
    assert_eq!(expected, sum);
}

#[test]
fn total_parse_hardlinks_once() {
    let sum = total::sum(EXAMPLE.as_bytes(), false).unwrap();
    assert_eq!(acc(5, 14336), sum);
}

#[test]
fn total_parse_hardlinks_many() {
    let sum = total::sum(EXAMPLE.as_bytes(), true).unwrap();
    assert_eq!(acc(8, 17408), sum);
}

#[test]
fn total_empty_report() {
    let sum = total::sum(b"", false).unwrap();
    assert_eq!(acc(0, 0), sum);
}

#[test]
fn parse_compact_line() {
    let entry = Entry::parse(b"17 3 0  4096 2 -- /data/test/x").unwrap();
    assert_eq!(entry.inode, 17);
    assert_eq!(entry.generation, 3);
    assert_eq!(entry.snapshot, 0);
    assert_eq!(entry.bytes, 4096);
    assert_eq!(entry.nlink, 2);
    assert_eq!(entry.path, b"/data/test/x".to_vec());
    assert_eq!(entry.bytes(), 4096);
    assert_eq!(entry.inode_str(), b"17".to_vec());
    assert_eq!(entry.bytes_str(), b"4096".to_vec());
    assert_eq!(entry.nlink_str(), b"2".to_vec());
    assert_eq!(entry.path(), &b"/data/test/x".to_vec());
}

#[test]
fn parse_round_trip() {
    // a path holding the separator text is still recovered exactly
    let line = b"8 1 0  512 1 -- /data/test/a -- b";
    let entry = Entry::parse(line).unwrap();
    assert_eq!(entry.path, b"/data/test/a -- b".to_vec());
    let rendered = entry.to_line();
    let again = Entry::parse(&rendered).unwrap();
    assert_eq!(entry, again);
}

#[test]
fn parse_missing_separator() {
    assert_eq!(
        Entry::parse(b"1 1 0  4096 1 /data/test"),
        Err(UsageError::MalformedRecord)
    );
}

#[test]
fn parse_short_line() {
    assert_eq!(
        Entry::parse(b"1 1 4096 1 -- /data/test"),
        Err(UsageError::MalformedRecord)
    );
}

#[test]
fn parse_relative_path() {
    assert_eq!(
        Entry::parse(b"1 1 0  4096 1 -- data/test"),
        Err(UsageError::MalformedRecord)
    );
}

#[test]
fn parse_bad_fields() {
    assert_eq!(
        Entry::parse(b"x 1 0  4096 1 -- /d"),
        Err(UsageError::FieldParseError(Field::Inode))
    );
    assert_eq!(
        Entry::parse(b"1 y 0  4096 1 -- /d"),
        Err(UsageError::FieldParseError(Field::Generation))
    );
    assert_eq!(
        Entry::parse(b"1 1 z  4096 1 -- /d"),
        Err(UsageError::FieldParseError(Field::Snapshot))
    );
    assert_eq!(
        Entry::parse(b"1 1 0  big 1 -- /d"),
        Err(UsageError::FieldParseError(Field::Size))
    );
    assert_eq!(
        Entry::parse(b"1 1 0  4096 many -- /d"),
        Err(UsageError::FieldParseError(Field::Nlink))
    );
    // a value too large for the field fails the same way
    assert_eq!(
        Entry::parse(b"99999999999999999999 1 0  4096 1 -- /d"),
        Err(UsageError::FieldParseError(Field::Inode))
    );
}

#[test]
fn parse_ncdu_line() {
    let entry = NcduEntry::parse(b"4 1 0  drwxr-xr-x 1 4096 8 -- /data/test").unwrap();
    assert_eq!(entry.inode, 4);
    assert_eq!(entry.mode, b"drwxr-xr-x".to_vec());
    assert_eq!(entry.nlink, 1);
    assert_eq!(entry.file_size, 4096);
    assert_eq!(entry.kb_allocated, 8);
    assert_eq!(entry.path, b"/data/test".to_vec());
    assert!(entry.dir_mode());

    let leaf = NcduEntry::parse(b"4 1 0  -rw-r--r-- 4 1024 2 -- /data/test/foo").unwrap();
    assert!(!leaf.dir_mode());
    assert_eq!(
        NcduEntry::parse(b"4 1 0  4096 1 -- /data/test"),
        Err(UsageError::MalformedRecord)
    );

    let round = NcduEntry::parse(&entry.to_line()).unwrap();
    assert_eq!(entry, round);
}

#[test]
fn total_bad_line_aborts() {
    let source = "1 1 0  4096 1 -- /data/test\ngarbage\n";
    assert_eq!(
        total::sum(source.as_bytes(), false),
        Err(UsageError::MalformedRecord)
    );
}

// Hard links of one inode are deduplicated in a total: four links of size
// 1024 count once deduplicated and four times otherwise.
#[test]
fn total_dedup_multiplicity() {
    let source = "4 1 0  1024 4 -- /d/a\n\
                  4 1 0  1024 4 -- /d/b\n\
                  4 1 0  1024 4 -- /d/c\n\
                  4 1 0  1024 4 -- /d/d\n";
    assert_eq!(acc(1, 1024), total::sum(source.as_bytes(), false).unwrap());
    assert_eq!(acc(4, 4096), total::sum(source.as_bytes(), true).unwrap());
}

// One hard-linked object under two sibling prefixes counts once in each
// sibling's rollup and once at the root.
#[test]
fn depth_scope_per_prefix() {
    let source = "1 1 0  4096 1 -- /root\n\
                  2 1 0  4096 1 -- /root/a\n\
                  3 1 0  4096 1 -- /root/b\n\
                  4 1 0  1024 4 -- /root/a/x\n\
                  4 1 0  1024 4 -- /root/b/y\n";
    let rows = depth::sum(b"/root", 1, source.as_bytes(), false).unwrap();
    let expected = vec![
        row("/root", 4, 13312),
        row("/root/a", 2, 5120),
        row("/root/b", 2, 5120),
    ];
    assert_eq!(expected, rows);
}

// A prefix that gathered a single object never appears in the output.
#[test]
fn depth_drops_singletons() {
    let source = "1 1 0  4096 1 -- /d\n\
                  4 1 0  1024 4 -- /d/foo\n\
                  4 1 0  1024 4 -- /d/a/foo\n\
                  4 1 0  1024 4 -- /d/b/bar\n";
    let rows = depth::sum(b"/d", 1, source.as_bytes(), false).unwrap();
    // the lone-object prefixes /d/foo, /d/a and /d/b are dropped
    assert_eq!(vec![row("/d", 2, 5120)], rows);
}

#[test]
fn depth_zero_is_total() {
    let rows = depth::sum(b"/data/test", 0, SOURCE.as_bytes(), false).unwrap();
    assert_eq!(vec![row("/data/test", 5, 14336)], rows);
    let t = total::sum(SOURCE.as_bytes(), false).unwrap();
    assert_eq!(t, rows[0].1);
}

#[test]
fn digit_rendering() {
    assert_eq!(mmdu::digits::u64_to_dec(0), b"0".to_vec());
    assert_eq!(mmdu::digits::u64_to_dec(18446744073709551615), b"18446744073709551615".to_vec());
    assert_eq!(mmdu::digits::parse_u64(b"18446744073709551615"), Some(u64::MAX));
    assert_eq!(mmdu::digits::parse_u64(b"18446744073709551616"), None);
    assert_eq!(mmdu::digits::parse_u64(b""), None);
    assert_eq!(mmdu::digits::parse_u64(b"12x"), None);
}

#[test]
fn path_components() {
    let comps = mmdu::paths::comps_of(b"/data//test/");
    assert_eq!(comps, vec![b"data".to_vec(), b"test".to_vec()]);
    assert_eq!(mmdu::paths::render_path(&comps), b"/data/test".to_vec());
    let empty = mmdu::paths::comps_of(b"/");
    assert_eq!(mmdu::paths::render_path(&empty), b"/".to_vec());
    assert_eq!(mmdu::paths::render_prefix(&comps, 1), b"/data".to_vec());
}

#[test]
fn config_values() {
    assert_eq!(ByteMode::FileSize, ByteMode::FileSize);
    assert_ne!(CountMode::Inodes, CountMode::Both);
    let report = Report { path_or_pattern: "{}/usage.csv".to_string(), tpe: ReportType::Du };
    assert_eq!(report.tpe, ReportType::Du);
    assert!(matches!(ReportType::Ncdu, ReportType::Ncdu));
}

#[test]
fn acc_operations() {
    let mut a = Acc::default();
    assert_eq!(a, Acc::zero());
    a.add_assign(100);
    a.add_assign(28);
    assert_eq!(a, acc(2, 128));
    assert_eq!(Acc::new(7), acc(1, 7));
}

#[test]
fn data_from_entry() {
    let dir = NcduEntry::parse(b"9 1 0  drwxr-xr-x 1 4096 8 -- /data/test").unwrap();
    assert_eq!(
        Data::from_entry(&dir),
        Data { file_size: 4096, kb_allocated: 8, nlink: 1, inode: 0 }
    );
    let linked = NcduEntry::parse(b"4 1 0  -rw-r--r-- 4 1024 2 -- /data/test/foo").unwrap();
    assert_eq!(
        Data::from_entry(&linked),
        Data { file_size: 1024, kb_allocated: 2, nlink: 4, inode: 4 }
    );
}

#[test]
fn data_write_fragments() {
    let plain = Data { file_size: 4096, kb_allocated: 0, nlink: 1, inode: 0 };
    assert_eq!(plain.write(), br#","asize":4096"#.to_vec());
    let linked = Data { file_size: 1024, kb_allocated: 2, nlink: 4, inode: 4 };
    assert_eq!(
        linked.write(),
        br#","asize":1024,"dsize":2048,"nlink":4,"ino":4"#.to_vec()
    );
    let empty = Data { file_size: 0, kb_allocated: 0, nlink: 1, inode: 0 };
    assert_eq!(empty.write(), Vec::<u8>::new());
}

// The extended-form example report: the same tree, with directory records
// arriving after some of their contents.
const NCDU_EXAMPLE: &str = "4 1 0  -rw-r--r-- 4 1024 0 -- /data/test/a/foo\n\
                            1 1 0  drwxr-xr-x 1 4096 0 -- /data/test\n\
                            2 1 0  drwxr-xr-x 1 4096 0 -- /data/test/a\n\
                            3 1 0  -rw-r--r-- 1 1024 0 -- /data/test/a/baz\n\
                            5 1 0  drwxr-xr-x 1 4096 0 -- /data/test/b\n\
                            4 1 0  -rw-r--r-- 4 1024 0 -- /data/test/b/bar\n\
                            4 1 0  -rw-r--r-- 4 1024 0 -- /data/test/bar\n\
                            4 1 0  -rw-r--r-- 4 1024 0 -- /data/test/foo\n";

fn comps(path: &str) -> Vec<Vec<u8>> {
    mmdu::paths::comps_of(path.as_bytes())
}

fn data(file_size: u64, nlink: u32, inode: u64) -> Data {
    Data { file_size, kb_allocated: 0, nlink, inode }
}

fn example_tree() -> FSTree {
    let a = FSTree {
        path: comps("/data/test/a"),
        data: data(4096, 1, 0),
        children: vec![
            (b"baz".to_vec(), FSObj::Node(data(1024, 1, 0))),
            (b"foo".to_vec(), FSObj::Node(data(1024, 4, 4))),
        ],
    };
    let b = FSTree {
        path: comps("/data/test/b"),
        data: data(4096, 1, 0),
        children: vec![(b"bar".to_vec(), FSObj::Node(data(1024, 4, 4)))],
    };
    FSTree {
        path: comps("/data/test"),
        data: data(4096, 1, 0),
        children: vec![
            (b"a".to_vec(), FSObj::Dir(a)),
            (b"b".to_vec(), FSObj::Dir(b)),
            (b"bar".to_vec(), FSObj::Node(data(1024, 4, 4))),
            (b"foo".to_vec(), FSObj::Node(data(1024, 4, 4))),
        ],
    }
}

#[test]
fn parse() {
    let result = mmdu::ncdu::sum(b"/data/test", NCDU_EXAMPLE.as_bytes()).unwrap();
    assert_eq!(example_tree(), result);
}

#[test]
fn insert_into_leaf_fails() {
    let source = "4 1 0  -rw-r--r-- 1 1024 0 -- /data/test/x\n\
                  5 1 0  -rw-r--r-- 1 1024 0 -- /data/test/x/deeper\n";
    assert_eq!(
        mmdu::ncdu::sum(b"/data/test", source.as_bytes()),
        Err(UsageError::InsertIntoLeaf)
    );
}

#[test]
fn write_empty() {
    let tree = FSTree {
        path: comps("/data/test"),
        data: data(4096, 1, 0),
        children: vec![],
    };
    let result = tree.write(b"0.1.0");
    let expected = "[1,2,{\"progname\":\"mmdu\",\"progver\":\"0.1.0\"},\n\
                    [{\"name\":\"/data/test\",\"asize\":4096}]]\n";
    assert_eq!(expected.as_bytes().to_vec(), result);
}

#[test]
fn write_flat() {
    let tree = FSTree {
        path: comps("/data/test"),
        data: Data { file_size: 4096, kb_allocated: 0, nlink: 1, inode: 1 },
        children: vec![
            (b"bar".to_vec(), FSObj::Node(data(1024, 2, 2))),
            (b"foo".to_vec(), FSObj::Node(data(1024, 2, 2))),
        ],
    };
    let result = tree.write(b"0.1.0");
    let expected = "[1,2,{\"progname\":\"mmdu\",\"progver\":\"0.1.0\"},\n\
                    [{\"name\":\"/data/test\",\"asize\":4096},\n\
                    {\"name\":\"bar\",\"asize\":1024,\"nlink\":2,\"ino\":2},\n\
                    {\"name\":\"foo\",\"asize\":1024,\"nlink\":2,\"ino\":2}]]\n";
    assert_eq!(expected.as_bytes().to_vec(), result);
}

#[test]
fn write_nested() {
    let result = example_tree().write(b"0.1.0");
    let expected = "[1,2,{\"progname\":\"mmdu\",\"progver\":\"0.1.0\"},\n\
                    [{\"name\":\"/data/test\",\"asize\":4096},\n\
                    [{\"name\":\"a\",\"asize\":4096},\n\
                    {\"name\":\"baz\",\"asize\":1024},\n\
                    {\"name\":\"foo\",\"asize\":1024,\"nlink\":4,\"ino\":4}],\n\
                    [{\"name\":\"b\",\"asize\":4096},\n\
                    {\"name\":\"bar\",\"asize\":1024,\"nlink\":4,\"ino\":4}],\n\
                    {\"name\":\"bar\",\"asize\":1024,\"nlink\":4,\"ino\":4},\n\
                    {\"name\":\"foo\",\"asize\":1024,\"nlink\":4,\"ino\":4}]]\n";
    assert_eq!(expected.as_bytes().to_vec(), result);
}

#[test]
fn ncdu_to_total() {
    let tree = example_tree();

    let hard_links_not_counted = tree.to_total(false, ByteMode::FileSize);
    assert_eq!(acc(5, 14336), hard_links_not_counted);

    let hard_links_counted = tree.to_total(true, ByteMode::FileSize);
    assert_eq!(acc(8, 17408), hard_links_counted);
}

#[test]
fn ncdu_to_depth() {
    let tree = example_tree();

    let expected_zero = vec![row("/data/test", 5, 14336)];
    assert_eq!(expected_zero, tree.to_depth(b"/data/test", 0, false, ByteMode::FileSize));

    let expected_one = vec![
        row("/data/test", 5, 14336),
        row("/data/test/a", 3, 6144),
        row("/data/test/b", 2, 5120),
    ];
    assert_eq!(expected_one, tree.to_depth(b"/data/test", 1, false, ByteMode::FileSize));
}

// The tree reduced with the allocation-unit accounting sums the other size
// column.
#[test]
fn ncdu_to_total_kb() {
    let tree = FSTree {
        path: comps("/d"),
        data: Data { file_size: 4096, kb_allocated: 4, nlink: 1, inode: 0 },
        children: vec![(b"x".to_vec(), FSObj::Node(Data {
            file_size: 1024,
            kb_allocated: 1,
            nlink: 1,
            inode: 0,
        }))],
    };
    assert_eq!(acc(2, 5), tree.to_total(false, ByteMode::KBAllocated));
}

// A path holding the separator text still parses when an earlier occurrence
// leaves too few metadata fields.
#[test]
fn parse_prefers_enough_fields() {
    let entry = Entry::parse(b"1 2 3 -- 4096 1 -- /x").unwrap();
    assert_eq!(entry.inode, 1);
    assert_eq!(entry.generation, 2);
    assert_eq!(entry.snapshot, 3);
    assert_eq!(entry.bytes, 4096);
    assert_eq!(entry.nlink, 1);
    assert_eq!(entry.path, b"/x".to_vec());
}

// Inserting the same record set in two different orders yields an identical
// tree.
#[test]
fn tree_order_independence() {
    let shuffled = "4 1 0  -rw-r--r-- 4 1024 0 -- /data/test/foo\n\
                    5 1 0  drwxr-xr-x 1 4096 0 -- /data/test/b\n\
                    3 1 0  -rw-r--r-- 1 1024 0 -- /data/test/a/baz\n\
                    4 1 0  -rw-r--r-- 4 1024 0 -- /data/test/b/bar\n\
                    1 1 0  drwxr-xr-x 1 4096 0 -- /data/test\n\
                    4 1 0  -rw-r--r-- 4 1024 0 -- /data/test/bar\n\
                    2 1 0  drwxr-xr-x 1 4096 0 -- /data/test/a\n\
                    4 1 0  -rw-r--r-- 4 1024 0 -- /data/test/a/foo\n";
    let one = mmdu::ncdu::sum(b"/data/test", NCDU_EXAMPLE.as_bytes()).unwrap();
    let two = mmdu::ncdu::sum(b"/data/test", shuffled.as_bytes()).unwrap();
    assert_eq!(one, two);
    assert_eq!(example_tree(), two);
}

// One hard-linked object amid unrelated records contributes once to a
// deduplicated total, whatever else the report holds.
#[test]
fn total_dedup_amid_others() {
    let source = "9 1 0  4096 1 -- /d\n\
                  4 1 0  1024 4 -- /d/a\n\
                  7 1 0  2048 1 -- /d/b\n\
                  4 1 0  1024 4 -- /d/c\n";
    let with = total::sum(source.as_bytes(), false).unwrap();
    let without = total::sum("9 1 0  4096 1 -- /d\n7 1 0  2048 1 -- /d/b\n".as_bytes(), false)
        .unwrap();
    assert_eq!(with.bytes, without.bytes + 1024);
    assert_eq!(with.inodes, without.inodes + 1);
}
