use react::fs::FileSystem;
use react::tree::{Dir, File, FileType, Node};

fn text_file(name: &str, content: &str) -> File {
    File::new_with_content(name.to_string(), content.as_bytes().to_vec(), 0, FileType::Text)
}

fn names(nodes: &Vec<&Node>) -> Vec<String> {
    let mut r = Vec::new();
    for node in nodes.iter() {
        match node {
            Node::File(f) => r.push(f.name.clone()),
            Node::Dir(d) => r.push(d.name.clone()),
        }
    }
    r
}

fn sample() -> FileSystem {
    let mut fs = FileSystem::new();
    assert_eq!(fs.root.add_dir("root"), Ok(true));
    let top = fs.root.lookup_dir("root").unwrap();
    assert_eq!(top.add_file(text_file("notes.txt", "hello world")), Ok(true));
    assert_eq!(top.add_dir("a"), Ok(true));
    assert_eq!(top.add_dir("b"), Ok(true));
    assert_eq!(top.add_file(text_file("todo.txt", "buy milk")), Ok(true));
    let a = top.lookup_dir("a").unwrap();
    assert_eq!(a.add_file(text_file("inner.txt", "hello again")), Ok(true));
    let b = top.lookup_dir("b").unwrap();
    assert_eq!(
        b.add_file(File::new_with_content("raw.bin".to_string(), vec![0xff, 0xfe, 0x00], 0, FileType::Binary)),
        Ok(true)
    );
    assert_eq!(
        b.add_file(File::new_with_content("broken.txt".to_string(), vec![b'h', 0xff, b'i'], 0, FileType::Text)),
        Ok(true)
    );
    fs
}

#[test]
fn new_file_is_an_empty_text_file() {
    let file = File::new("a.txt".to_string());
    assert_eq!(file.name, "a.txt");
    assert!(file.content.is_empty());
    assert!(file.type_ == FileType::Text);
    assert!(file.creation_time > 1_600_000_000);
}

#[test]
fn new_with_content_keeps_name_bytes_and_type() {
    let file = File::new_with_content("b".to_string(), vec![1, 2, 3], 5, FileType::Binary);
    assert_eq!(file.name, "b");
    assert_eq!(file.content, vec![1, 2, 3]);
    assert!(file.type_ == FileType::Binary);
    assert!(file.creation_time > 1_600_000_000);
}

#[test]
fn truncate_cuts_a_longer_file() {
    let file = text_file("f", "abcdef");
    let cut = file.truncate(2).unwrap();
    assert_eq!(cut.name, "f");
    assert_eq!(cut.content, b"ab".to_vec());
    assert!(cut.type_ == FileType::Text);
    assert_eq!(file.truncate(0).unwrap().content, Vec::<u8>::new());
    assert!(file.truncate(6).is_none());
    assert!(file.truncate(7).is_none());
    assert!(text_file("e", "").truncate(0).is_none());
}

#[test]
fn directories_are_added_once() {
    let mut dir = Dir::new("top".to_string());
    assert!(dir.is_empty());
    assert_eq!(dir.add_dir("a"), Ok(true));
    assert_eq!(dir.add_dir("a"), Err("Directory aalready exists!".to_string()));
    assert_eq!(dir.add_file(text_file("a", "")), Ok(true));
    assert_eq!(dir.add_file(text_file("a", "x")), Err("File aalready exists!".to_string()));
    assert!(!dir.is_empty());
    assert_eq!(dir.children.len(), 2);
    assert_eq!(dir.lookup_dir("a").unwrap().name, "a");
    assert!(dir.lookup_dir("a").unwrap().is_empty());
    assert_eq!(dir.lookup_file("a").unwrap().content, Vec::<u8>::new());
    assert!(dir.lookup_dir("A").is_none());
    assert!(dir.lookup_file("b").is_none());
}

#[test]
fn lookup_gives_the_child_to_change() {
    let mut dir = Dir::new("top".to_string());
    dir.add_dir("a").unwrap();
    dir.add_file(text_file("f", "old")).unwrap();
    dir.lookup_dir("a").unwrap().add_dir("inner").unwrap();
    dir.lookup_file("f").unwrap().content = b"new".to_vec();
    match &dir.children[0] {
        Node::Dir(a) => assert_eq!(names(&a.children.iter().collect()), vec!["inner"]),
        Node::File(_) => panic!("a directory was added first"),
    }
    match &dir.children[1] {
        Node::File(f) => assert_eq!(f.content, b"new".to_vec()),
        Node::Dir(_) => panic!("a file was added second"),
    }
}

#[test]
fn removing_directories() {
    let mut dir = Dir::new("top".to_string());
    dir.add_dir("a").unwrap();
    dir.add_dir("b").unwrap();
    dir.add_dir("c").unwrap();
    dir.lookup_dir("b").unwrap().add_dir("inner").unwrap();
    assert_eq!(dir.rm_dir("b"), Err("Error: directory is not empty".to_string()));
    assert_eq!(dir.rm_dir("x"), Err("Error: can't find directory x".to_string()));
    assert_eq!(dir.rm_dir("a"), Ok(true));
    // the last child has taken the place of the one removed
    assert_eq!(names(&dir.children.iter().collect()), vec!["c", "b"]);
    assert_eq!(dir.rm_dir("a"), Err("Error: can't find directory a".to_string()));
}

#[test]
fn removing_files() {
    let mut dir = Dir::new("top".to_string());
    dir.add_file(text_file("f", "")).unwrap();
    dir.add_dir("f").unwrap();
    dir.add_file(text_file("g", "")).unwrap();
    assert_eq!(dir.rm_file("h"), Err("Error: can't find file h".to_string()));
    assert_eq!(dir.rm_file("f"), Ok(true));
    assert_eq!(names(&dir.children.iter().collect()), vec!["g", "f"]);
    assert_eq!(dir.rm_file("f"), Err("Error: can't find file f".to_string()));
    assert_eq!(dir.rm_dir("f"), Ok(true));
}

#[test]
fn new_file_system_has_an_empty_root() {
    let fs = FileSystem::new();
    assert_eq!(fs.root.name, "root");
    assert!(fs.root.is_empty());
}

#[test]
fn paths_start_below_the_root() {
    let mut fs = sample();
    assert_eq!(fs.exists_path(&vec!["root", "a"]).unwrap().name, "a");
    assert_eq!(fs.exists_path(&vec!["ROOT", "B"]).unwrap().name, "b");
    assert!(fs.exists_path(&vec!["root"]).is_none());
    assert!(fs.exists_path(&vec!["a", "root"]).is_none());
    assert!(fs.exists_path(&vec!["root", "c"]).is_none());
    assert!(fs.exists_path(&vec!["root", "a", "inner.txt"]).is_none());
}

#[test]
fn a_path_needs_a_directory_called_root_in_the_root() {
    let mut fs = FileSystem::new();
    fs.mk_dir("root/a");
    assert!(fs.root.is_empty());
    fs.root.add_dir("a").unwrap();
    assert!(fs.exists_path(&vec!["root", "a"]).is_none());
}

#[test]
fn mk_dir_and_rm_dir() {
    let mut fs = sample();
    fs.mk_dir("root/a/docs");
    fs.mk_dir("root/a/docs");
    fs.mk_dir("root/missing/docs");
    fs.mk_dir("docs");
    let a = fs.exists_path(&vec!["root", "a"]).unwrap();
    assert_eq!(names(&a.children.iter().collect()), vec!["inner.txt", "docs"]);
    fs.mk_dir("root/a/docs/deep");
    fs.rm_dir("root/a/docs");
    assert!(fs.exists_path(&vec!["root", "a", "docs"]).is_some());
    fs.rm_dir("root/a/docs/deep");
    fs.rm_dir("root/a/docs");
    assert!(fs.exists_path(&vec!["root", "a", "docs"]).is_none());
    fs.rm_dir("root/a/nothing");
    fs.rm_dir("a");
    assert!(fs.exists_path(&vec!["root", "a"]).is_some());
}

#[test]
fn new_file_get_file_and_rm_file() {
    let mut fs = sample();
    fs.new_file("root/a", text_file("new.txt", "fresh"));
    fs.new_file("root/a", text_file("new.txt", "again"));
    fs.new_file("root/zzz", text_file("lost.txt", ""));
    assert_eq!(fs.get_file("root/a/new.txt").unwrap().content, b"fresh".to_vec());
    fs.get_file("root/a/new.txt").unwrap().content.push(b'!');
    assert_eq!(fs.get_file("ROOT/A/new.txt").unwrap().content, b"fresh!".to_vec());
    assert!(fs.get_file("root/a/New.txt").is_none());
    assert!(fs.get_file("root/zzz/lost.txt").is_none());
    assert!(fs.get_file("new.txt").is_none());
    fs.rm_file("root/a/new.txt");
    assert!(fs.get_file("root/a/new.txt").is_none());
    assert!(fs.get_file("root/a/inner.txt").is_some());
    fs.rm_file("root/a/new.txt");
    fs.rm_file("inner.txt");
    assert!(fs.get_file("root/a/inner.txt").is_some());
}

#[test]
fn filters_by_name_and_content() {
    let file = text_file("notes.txt", "hello world");
    assert!(FileSystem::filter_name("tes", &file));
    assert!(FileSystem::filter_name("", &file));
    assert!(!FileSystem::filter_name("Notes", &file));
    assert!(FileSystem::filter_content("o w", &file));
    assert!(!FileSystem::filter_content("ow", &file));
    let binary = File::new_with_content("b".to_string(), b"hello".to_vec(), 0, FileType::Binary);
    assert!(!FileSystem::filter_content("hello", &binary));
    let broken = File::new_with_content("t".to_string(), vec![b'h', 0xff, b'i'], 0, FileType::Text);
    assert!(!FileSystem::filter_content("h", &broken));
}

#[test]
fn filters_by_size_and_time() {
    let file = text_file("f", "12345");
    assert!(FileSystem::filter_larger("4", &file));
    assert!(!FileSystem::filter_larger("5", &file));
    assert!(FileSystem::filter_larger("+0", &file));
    assert!(FileSystem::filter_smaller("6", &file));
    assert!(!FileSystem::filter_smaller("5", &file));
    assert!(FileSystem::filter_smaller("0018446744073709551615"[2..].trim_start_matches('0'), &file));
    assert!(FileSystem::filter_newer("1600000000", &file));
    assert!(!FileSystem::filter_newer("18446744073709551615", &file));
    assert!(FileSystem::filter_older("18446744073709551615", &file));
    assert!(!FileSystem::filter_older("0", &file));
}

#[test]
fn filters_gives_the_queries_that_are_met() {
    let file = text_file("notes.txt", "hello world");
    assert_eq!(
        FileSystem::filters(&file, &["name:note", "content:xyz", "LARGER:3", "Content:hello", "smaller:3"]),
        Some(vec!["name:note", "LARGER:3", "Content:hello"])
    );
    assert_eq!(FileSystem::filters(&file, &["name:todo", "content:xyz"]), None);
    assert_eq!(FileSystem::filters(&file, &[]), None);
}

#[test]
fn queries_without_one_colon_or_with_another_key_are_met_by_nothing() {
    let file = text_file("a:b", "name");
    assert_eq!(FileSystem::filters(&file, &["name", "name:a:b", "", ":", "size:1", "nam:a", "name :a"]), None);
    assert_eq!(FileSystem::filters(&file, &["name:", "name:a"]), Some(vec!["name:", "name:a"]));
}

#[test]
fn search_goes_through_the_last_directory_first() {
    let mut fs = sample();
    let found = fs.search(&["name:t"]).unwrap();
    assert_eq!(names(found.nodes()), vec!["notes.txt", "todo.txt", "broken.txt", "inner.txt"]);
    assert_eq!(*found.queries(), vec!["name:t", "name:t", "name:t", "name:t"]);
}

#[test]
fn search_lists_the_queries_file_by_file() {
    let mut fs = sample();
    let queries = ["content:hello", "smaller:9", "name:raw"];
    let found = fs.search(&queries).unwrap();
    assert_eq!(names(found.nodes()), vec!["notes.txt", "todo.txt", "raw.bin", "broken.txt", "inner.txt"]);
    assert_eq!(
        *found.queries(),
        vec![
            "content:hello",
            "smaller:9",
            "smaller:9",
            "name:raw",
            "smaller:9",
            "content:hello"
        ]
    );
}

#[test]
fn search_without_a_match() {
    let mut fs = sample();
    assert!(fs.search(&["name:zzz", "larger:1000"]).is_none());
    assert!(fs.search(&[]).is_none());
    assert!(FileSystem::new().search(&["name:", "larger:not a number"]).is_none());
}
