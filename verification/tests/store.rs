use chunkshare::store::{
    chunk_file, file_dir, get_own_chunks, is_file_dir, is_name_file, DirEntry, FileEntry,
};

fn file(name: &str, contents: &str) -> FileEntry {
    FileEntry { name: name.to_string(), contents: contents.to_string() }
}

fn dir(name: &str, files: Vec<FileEntry>) -> DirEntry {
    DirEntry { name: name.to_string(), is_dir: true, files }
}

#[test]
fn names_on_disk() {
    assert_eq!(file_dir(0xabc), "abc");
    assert_eq!(chunk_file(0), "0");
    assert_eq!(chunk_file(u64::MAX), "ffffffffffffffff");
    assert!(is_name_file("name"));
    assert!(!is_name_file("names"));
    assert!(is_file_dir("abc", true));
    assert!(!is_file_dir("abc", false));
    assert!(!is_file_dir("downloads", true));
}

#[test]
fn stored_file_is_found() {
    let entries = vec![
        dir("downloads", vec![file("whatever it is", "")]),
        DirEntry { name: "notes.txt".to_string(), is_dir: false, files: vec![] },
        dir(
            &file_dir(0xbeef),
            vec![
                file(&chunk_file(10), ""),
                file("name", "report.pdf"),
                file(&chunk_file(0), ""),
            ],
        ),
    ];
    let (chunks, names) = get_own_chunks(&entries).unwrap();
    assert_eq!(chunks.len(), 1);
    assert_eq!(chunks[&0xbeef], vec![10, 0]);
    assert_eq!(names.len(), 1);
    assert_eq!(names[&0xbeef], "report.pdf");
}

#[test]
fn file_without_a_name_is_unnamed() {
    let (chunks, names) = get_own_chunks(&vec![dir("1", vec![])]).unwrap();
    assert_eq!(chunks[&1], Vec::<u64>::new());
    assert_eq!(names[&1], "unnamed");
}

#[test]
fn later_directory_of_the_same_hash_wins() {
    let entries = vec![
        dir("1", vec![file("0", ""), file("name", "a")]),
        dir("01", vec![file("1", "")]),
    ];
    let (chunks, names) = get_own_chunks(&entries).unwrap();
    assert_eq!(chunks[&1], vec![1]);
    assert_eq!(names[&1], "a");
}

#[test]
fn last_name_wins() {
    let entries = vec![dir("1", vec![file("name", "a"), file("name", "b")])];
    assert_eq!(get_own_chunks(&entries).unwrap().1[&1], "b");
}

#[test]
fn unreadable_names_are_refused() {
    assert!(get_own_chunks(&vec![dir("photos", vec![])]).is_none());
    assert!(get_own_chunks(&vec![dir("1", vec![file("chunk", "")])]).is_none());
    assert!(get_own_chunks(&vec![dir("1", vec![]), dir("100000000000000000000000000000000", vec![])]).is_none());
    assert!(get_own_chunks(&vec![]).unwrap().0.is_empty());
}
