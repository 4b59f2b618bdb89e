use blockless_car::cid::{pb_cid, raw_cid, Cid};
use blockless_car::codec::Encoder;
use blockless_car::error::CarError;
use blockless_car::ipld::TreeValue;
use blockless_car::reader::{CarReader, CarReaderV1};
use blockless_car::stream::ByteCursor;
use blockless_car::unixfs::{FileType, Link, UnixFs};
use blockless_car::utils::archive_local::{archive_local, pipe_raw_cid, walk_dir, FsEntry};
use blockless_car::utils::cat_file::cat_ipld;
use blockless_car::utils::extract::{extract_ipld, extract_ipld_to_current_path, ExtractStep};
use blockless_car::utils::ls::{list, list_call, list_cid, list_entries};

fn file(name: &str, content: &[u8]) -> FsEntry {
    FsEntry::File { name: name.to_string(), size: content.len() as u64, content: content.to_vec() }
}

fn dir(name: &str, entries: Vec<FsEntry>) -> FsEntry {
    FsEntry::Directory { name: name.to_string(), size: 4096, entries }
}

fn sample_tree() -> Vec<FsEntry> {
    vec![
        file("a.txt", b"alpha"),
        dir("sub", vec![file("c.txt", b"charlie"), file("d.txt", b"delta")]),
        FsEntry::Other { name: "socket".to_string() },
        file("b.txt", b"bravo"),
    ]
}

fn open(tree: &Vec<FsEntry>) -> CarReaderV1 {
    let mut stream = archive_local(tree, ByteCursor::new(Vec::new())).unwrap();
    stream.rewind();
    CarReaderV1::new(stream).unwrap()
}

fn root_of(reader: &CarReaderV1) -> Cid {
    let roots = reader.header().roots();
    assert_eq!(roots.len(), 1);
    roots[0].clone()
}

fn dir_cid(links: Vec<(&str, u64, FileType, Cid)>) -> Cid {
    let mut node = UnixFs::default();
    node.file_type = FileType::Directory;
    for (name, size, guess_type, hash) in links {
        node.add_child(Link { hash, name: Some(name.to_string()), size: Some(size), guess_type });
    }
    let value: TreeValue = node.encode().unwrap();
    pb_cid(&value.to_dag_pb().unwrap())
}

#[test]
fn test_read() {
    let mut reader = open(&sample_tree());
    let roots = reader.header().roots();
    assert_eq!(roots.len(), 1);
    assert_eq!(reader.sections().len(), 6);
    for r in roots.iter() {
        let s_ipld = reader.ipld(r).unwrap();
        let unix_fs: Result<UnixFs, CarError> = UnixFs::from_ipld(&s_ipld);
        assert!(unix_fs.is_ok());
        let fs = unix_fs.unwrap();
        assert_eq!(fs.children.len(), 3);
        assert_eq!(fs.file_type(), FileType::Directory);
        let names: Vec<&str> = fs.children.iter().map(|l| l.name_ref()).collect();
        assert_eq!(names, vec!["a.txt", "sub", "b.txt"]);
    }
}

#[test]
fn the_root_is_the_hash_of_the_tree() {
    let reader = open(&sample_tree());
    let sub = dir_cid(vec![
        ("c.txt", 7, FileType::File, raw_cid(b"charlie")),
        ("d.txt", 5, FileType::File, raw_cid(b"delta")),
    ]);
    let root = dir_cid(vec![
        ("a.txt", 5, FileType::File, raw_cid(b"alpha")),
        ("sub", 4096, FileType::Directory, sub),
        ("b.txt", 5, FileType::File, raw_cid(b"bravo")),
    ]);
    assert_eq!(root_of(&reader), root);
}

#[test]
fn sections_lie_deepest_first() {
    let stream = archive_local(&sample_tree(), ByteCursor::new(Vec::new())).unwrap();
    let mut stream = stream;
    stream.rewind();
    let mut reader = CarReaderV1::new(stream).unwrap();
    let root = root_of(&reader);
    let mut sections = reader.sections();
    sections.sort_by_key(|s| s.pos());
    let order: Vec<Cid> = sections.iter().map(|s| s.cid()).collect();
    let sub = reader.unixfs(&root).unwrap().children[1].hash();
    assert_eq!(
        order,
        vec![raw_cid(b"charlie"), raw_cid(b"delta"), sub, raw_cid(b"alpha"), raw_cid(b"bravo"), root]
    );
}

#[test]
fn archiving_twice_gives_the_same_bytes() {
    let first = archive_local(&sample_tree(), ByteCursor::new(Vec::new())).unwrap().into_inner();
    let second = archive_local(&sample_tree(), ByteCursor::new(Vec::new())).unwrap().into_inner();
    assert_eq!(first, second);
}

#[test]
fn a_changed_byte_changes_the_file_and_its_ancestors_only() {
    let before = sample_tree();
    let mut after = sample_tree();
    after[1] = dir("sub", vec![file("c.txt", b"charlie"), file("d.txt", b"delta")]);
    if let FsEntry::Directory { entries, .. } = &mut after[1] {
        entries[0] = file("c.txt", b"charlif");
    }
    let mut r1 = open(&before);
    let mut r2 = open(&after);
    let root1 = root_of(&r1);
    let root2 = root_of(&r2);
    assert_ne!(root1, root2);
    let n1 = r1.unixfs(&root1).unwrap();
    let n2 = r2.unixfs(&root2).unwrap();
    assert_eq!(n1.children[0].hash(), n2.children[0].hash());
    assert_eq!(n1.children[2].hash(), n2.children[2].hash());
    assert_ne!(n1.children[1].hash(), n2.children[1].hash());
    let s1 = r1.unixfs(&n1.children[1].hash()).unwrap();
    let s2 = r2.unixfs(&n2.children[1].hash()).unwrap();
    assert_ne!(s1.children[0].hash(), s2.children[0].hash());
    assert_eq!(s1.children[1].hash(), s2.children[1].hash());
}

#[test]
fn an_empty_directory_is_one_section() {
    let mut reader = open(&vec![]);
    assert_eq!(reader.sections().len(), 1);
    let root = root_of(&reader);
    assert_eq!(reader.unixfs(&root).unwrap().children.len(), 0);
    assert_eq!(root, dir_cid(vec![]));
}

#[test]
fn walk_dir_finds_the_directories_parents_first() {
    let tree = vec![
        dir("a", vec![dir("a1", vec![]), file("f", b"1"), dir("a2", vec![])]),
        file("g", b"2"),
        dir("b", vec![dir("b1", vec![])]),
    ];
    let arena = walk_dir(&tree);
    let parents: Vec<Option<(usize, usize)>> = arena.iter().map(|p| p.parent).collect();
    assert_eq!(
        parents,
        vec![None, Some((0, 0)), Some((0, 2)), Some((2, 0)), Some((1, 0)), Some((1, 2))]
    );
    let counts: Vec<usize> = arena.iter().map(|p| p.node.children.len()).collect();
    assert_eq!(counts, vec![3, 3, 1, 0, 0, 0]);
    assert_eq!(arena[1].sources, vec![None, Some(&b"1"[..]), None]);
}

#[test]
fn a_file_is_streamed_with_the_size_that_was_reported() {
    let tree = vec![FsEntry::File { name: "f".into(), size: 3, content: b"abc".to_vec() }];
    let mut reader = open(&tree);
    assert_eq!(reader.read_section_data(&raw_cid(b"abc")).unwrap(), b"abc".to_vec());
}

#[test]
fn cat_gives_the_bytes_of_a_file() {
    let mut reader = open(&sample_tree());
    assert_eq!(cat_ipld(&mut reader, raw_cid(b"alpha")).unwrap(), b"alpha".to_vec());
    assert!(matches!(
        cat_ipld(&mut reader, raw_cid(b"absent")),
        Err(CarError::InvalidSection(_))
    ));
}

#[test]
fn cat_of_a_directory_gives_its_files_one_after_another() {
    let mut reader = open(&sample_tree());
    let root = root_of(&reader);
    assert_eq!(cat_ipld(&mut reader, root).unwrap(), b"alphabravocharliedelta".to_vec());
}

#[test]
fn search_file_cid_looks_at_the_children_of_the_roots() {
    let mut reader = open(&sample_tree());
    assert_eq!(reader.search_file_cid("b.txt").unwrap(), raw_cid(b"bravo"));
    assert_eq!(CarReader::search_file_cid(&mut reader, "a.txt").unwrap(), raw_cid(b"alpha"));
    match reader.search_file_cid("c.txt") {
        Err(CarError::InvalidFile(text)) => assert_eq!(text, "search c.txt fail."),
        other => panic!("unexpected: {:?}", other),
    }
}

#[test]
fn list_names_every_block_below_the_root() {
    let mut reader = open(&sample_tree());
    let root = root_of(&reader).to_string();
    let names = list(&mut reader).unwrap();
    assert_eq!(
        names,
        vec![
            root.clone(),
            format!("{}/a.txt", root),
            format!("{}/sub", root),
            format!("{}/b.txt", root),
            format!("{}/sub/c.txt", root),
            format!("{}/sub/d.txt", root),
        ]
    );
    let cids = list_cid(&mut reader).unwrap();
    assert_eq!(cids.len(), 6);
    assert_eq!(cids[1], raw_cid(b"alpha").to_string());
    let (entries, result) = list_entries(&mut reader);
    assert!(result.is_ok());
    assert_eq!(entries[5].cid, raw_cid(b"delta"));
    assert_eq!(entries[5].name, names[5]);
    let seen = std::cell::RefCell::new(Vec::new());
    list_call(&mut reader, |cid: &Cid, name: &str| seen.borrow_mut().push((cid.clone(), name.to_string())))
        .unwrap();
    assert_eq!(seen.borrow().len(), 6);
    assert_eq!(seen.borrow()[3], (raw_cid(b"bravo"), names[3].clone()));
}

#[test]
fn extract_lists_directories_before_what_is_in_them() {
    let mut reader = open(&sample_tree());
    let root = root_of(&reader);
    let text = root.to_string();
    let (steps, result) = extract_ipld_to_current_path(&mut reader, root.clone());
    assert!(result.is_ok());
    assert_eq!(
        steps,
        vec![
            ExtractStep::Directory { path: text.clone() },
            ExtractStep::File { path: format!("{}/a.txt", text), data: b"alpha".to_vec() },
            ExtractStep::Directory { path: format!("{}/sub", text) },
            ExtractStep::File { path: format!("{}/b.txt", text), data: b"bravo".to_vec() },
            ExtractStep::File { path: format!("{}/sub/c.txt", text), data: b"charlie".to_vec() },
            ExtractStep::File { path: format!("{}/sub/d.txt", text), data: b"delta".to_vec() },
        ]
    );
    let (under, result) = extract_ipld(&mut reader, root, Some("out"));
    assert!(result.is_ok());
    assert_eq!(under[0], ExtractStep::Directory { path: format!("out/{}", text) });
    assert_eq!(
        under[1],
        ExtractStep::File { path: format!("{}/a.txt", text), data: b"alpha".to_vec() }
    );
}

#[test]
fn extract_of_an_absent_block_fails() {
    let mut reader = open(&sample_tree());
    let (steps, result) = extract_ipld_to_current_path(&mut reader, raw_cid(b"absent"));
    assert!(steps.is_empty());
    assert!(matches!(result, Err(CarError::InvalidSection(_))));
}

#[test]
fn pipe_copies_and_names_what_was_copied() {
    let mut source = ByteCursor::new(b"skip-copied".to_vec());
    source.seek_from_start(5);
    let mut sink = ByteCursor::new(b"ab".to_vec());
    sink.seek_from_start(1);
    let cid = pipe_raw_cid(&mut source, &mut sink).unwrap();
    assert_eq!(cid, raw_cid(b"copied"));
    assert_ne!(cid, pb_cid(b"copied"));
    assert_eq!(sink.into_inner(), b"acopied".to_vec());
    assert_eq!(source.stream_position(), 11);
}

#[test]
fn a_packed_tree_reads_back_with_every_file_under_its_identifier() {
    let mut reader = open(&sample_tree());
    for content in [&b"alpha"[..], b"bravo", b"charlie", b"delta"] {
        assert_eq!(reader.read_section_data(&raw_cid(content)).unwrap(), content.to_vec());
    }
    let sub = dir_cid(vec![
        ("c.txt", 7, FileType::File, raw_cid(b"charlie")),
        ("d.txt", 5, FileType::File, raw_cid(b"delta")),
    ]);
    let root = dir_cid(vec![
        ("a.txt", 5, FileType::File, raw_cid(b"alpha")),
        ("sub", 4096, FileType::Directory, sub.clone()),
        ("b.txt", 5, FileType::File, raw_cid(b"bravo")),
    ]);
    assert_eq!(root_of(&reader), root);
    let held: Vec<Cid> = reader.sections().iter().map(|s| s.cid()).collect();
    assert!(held.contains(&root));
    assert!(held.contains(&sub));
    for s in reader.sections() {
        let cid = s.cid();
        let bytes = reader.read_section_data(&cid).unwrap();
        assert!(cid == raw_cid(&bytes) || cid == pb_cid(&bytes));
    }
}

#[test]
fn two_files_with_the_same_bytes_share_one_identifier() {
    let tree = vec![file("one", b"same"), file("two", b"same")];
    let mut reader = open(&tree);
    assert_eq!(reader.read_section_data(&raw_cid(b"same")).unwrap(), b"same".to_vec());
    assert_eq!(reader.sections().len(), 2);
}

#[test]
fn directories_and_files_of_every_depth_are_in_the_index() {
    let tree = vec![
        dir(
            "one",
            vec![
                dir("two", vec![dir("three", vec![file("deep.txt", b"deep")]), file("t", b"tt")]),
                file("o", b"ooo"),
            ],
        ),
        file("top", b"top"),
    ];
    let mut reader = open(&tree);
    let three = dir_cid(vec![("deep.txt", 4, FileType::File, raw_cid(b"deep"))]);
    let two = dir_cid(vec![
        ("three", 4096, FileType::Directory, three.clone()),
        ("t", 2, FileType::File, raw_cid(b"tt")),
    ]);
    let one = dir_cid(vec![
        ("two", 4096, FileType::Directory, two.clone()),
        ("o", 3, FileType::File, raw_cid(b"ooo")),
    ]);
    let root = dir_cid(vec![
        ("one", 4096, FileType::Directory, one.clone()),
        ("top", 3, FileType::File, raw_cid(b"top")),
    ]);
    assert_eq!(root_of(&reader), root);
    let held: Vec<Cid> = reader.sections().iter().map(|s| s.cid()).collect();
    assert_eq!(held.len(), 8);
    for c in [&three, &two, &one, &root] {
        assert!(held.contains(c));
    }
    for content in [&b"deep"[..], b"tt", b"ooo", b"top"] {
        assert_eq!(reader.read_section_data(&raw_cid(content)).unwrap(), content.to_vec());
    }
}

#[test]
fn a_tree_of_nothing_but_other_things_is_packed_as_an_empty_directory() {
    let tree = vec![FsEntry::Other { name: "pipe".to_string() }];
    let reader = open(&tree);
    assert_eq!(root_of(&reader), dir_cid(vec![]));
    assert_eq!(reader.sections().len(), 1);
}

#[test]
fn an_archive_longer_than_a_block_may_be_reads_back() {
    let twelve = 12usize << 20;
    let a = vec![1u8; twelve];
    let b = vec![2u8; twelve];
    let c = vec![3u8; twelve];
    let tree = vec![file("a", &a), file("b", &b), file("c", &c)];
    let packed = archive_local(&tree, ByteCursor::new(Vec::new())).unwrap().into_inner();
    assert!(packed.len() > (32 << 20));
    let stream = ByteCursor::new(packed);
    let mut reader = CarReaderV1::new(stream).unwrap();
    assert_eq!(reader.sections().len(), 4);
    assert_eq!(reader.read_section_data(&raw_cid(&b)).unwrap(), b);
}
