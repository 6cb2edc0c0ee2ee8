use memfs::tree::same_text;
use memfs::{AlreadyExistsError, Directory};

#[test]
fn new_root_is_empty() {
    let root = Directory::new_root();
    assert_eq!(root.path().to_string(), "/");
    assert!(root.path().is_absolute());
    assert!(!root.is_writable);
    assert!(root.file_names().is_empty());
    assert!(root.dir_names().is_empty());
    assert!(root.dir("x").is_none());
    assert!(root.file("x").is_none());
}

#[test]
fn create_dir_makes_empty_child_with_its_path() {
    let mut root = Directory::new_root();
    {
        let child = root.create_dir("test".to_string()).unwrap();
        assert_eq!(child.path().to_string(), "/test");
        assert!(!child.is_writable);
        assert!(child.file_names().is_empty());
        assert!(child.dir_names().is_empty());
    }
    assert_eq!(root.dir_names(), vec!["test".to_string()]);
    assert!(root.file_names().is_empty());
    assert_eq!(root.dir("test").unwrap().path().to_string(), "/test");
}

#[test]
fn create_file_makes_empty_file_with_its_path() {
    let mut root = Directory::new_root();
    {
        let file = root.create_file("notes".to_string()).unwrap();
        assert_eq!(file.path().to_string(), "/notes");
        assert_eq!(file.data, "");
        assert!(!file.is_executable);
    }
    assert_eq!(root.file_names(), vec!["notes".to_string()]);
    assert!(root.dir_names().is_empty());
}

#[test]
fn create_dir_twice_fails_the_second_time() {
    let mut root = Directory::new_root();
    root.create_dir("a".to_string())
        .unwrap()
        .create_file("kept".to_string())
        .unwrap()
        .data = "still here".to_string();
    assert!(matches!(root.create_dir("a".to_string()), Err(AlreadyExistsError)));
    assert_eq!(root.dir_names(), vec!["a".to_string()]);
    let a = root.dir("a").unwrap();
    assert_eq!(a.file("kept").unwrap().data, "still here");
}

#[test]
fn create_file_twice_fails_the_second_time() {
    let mut root = Directory::new_root();
    root.create_file("f".to_string()).unwrap().data = "one".to_string();
    assert!(root.create_file("f".to_string()).is_err());
    assert_eq!(root.file_names(), vec!["f".to_string()]);
    assert_eq!(root.file("f").unwrap().data, "one");
}

#[test]
fn file_and_directory_may_share_a_name() {
    let mut root = Directory::new_root();
    assert!(root.create_dir("x".to_string()).is_ok());
    assert!(root.create_file("x".to_string()).is_ok());
    assert!(root.dir("x").is_some());
    assert!(root.file("x").is_some());
    assert!(root.create_dir("x".to_string()).is_err());
    assert!(root.create_file("x".to_string()).is_err());
}

#[test]
fn nested_creation_chains() {
    let mut root = Directory::new_root();
    root.create_dir("a".to_string())
        .unwrap()
        .create_dir("b".to_string())
        .unwrap()
        .create_file("c".to_string())
        .unwrap();
    let b = root.dir("a").unwrap().dir("b").unwrap();
    assert_eq!(b.path().to_string(), "/a/b");
    assert_eq!(b.file("c").unwrap().path().to_string(), "/a/b/c");
}

#[test]
fn names_are_listed_in_creation_order() {
    let mut root = Directory::new_root();
    for name in ["b", "a", "c"] {
        assert!(root.create_dir(name.to_string()).is_ok());
        assert!(root.create_file(format!("{}.txt", name)).is_ok());
    }
    assert_eq!(root.dir_names(), vec!["b".to_string(), "a".to_string(), "c".to_string()]);
    assert_eq!(
        root.file_names(),
        vec!["b.txt".to_string(), "a.txt".to_string(), "c.txt".to_string()]
    );
}

#[test]
fn file_mut_changes_only_that_file() {
    let mut root = Directory::new_root();
    assert!(root.create_file("a".to_string()).is_ok());
    assert!(root.create_file("b".to_string()).is_ok());
    {
        let b = root.file_mut("b").unwrap();
        b.data = "text".to_string();
        b.is_executable = true;
    }
    assert!(root.file_mut("zzz").is_none());
    assert_eq!(root.file("a").unwrap().data, "");
    assert!(!root.file("a").unwrap().is_executable);
    assert_eq!(root.file("b").unwrap().data, "text");
    assert!(root.file("b").unwrap().is_executable);
}

#[test]
fn dir_mut_reaches_the_child() {
    let mut root = Directory::new_root();
    assert!(root.create_dir("a".to_string()).is_ok());
    assert!(root.create_dir("b".to_string()).is_ok());
    root.dir_mut("b").unwrap().is_writable = true;
    assert!(root.dir_mut("b").unwrap().create_file("f".to_string()).is_ok());
    assert!(root.dir_mut("c").is_none());
    assert!(!root.dir("a").unwrap().is_writable);
    assert!(root.dir("b").unwrap().is_writable);
    assert_eq!(root.dir("b").unwrap().file_names(), vec!["f".to_string()]);
    assert!(root.dir("a").unwrap().file_names().is_empty());
}

#[test]
fn lookup_needs_the_exact_name() {
    let mut root = Directory::new_root();
    assert!(root.create_dir("abc".to_string()).is_ok());
    assert!(root.dir("ab").is_none());
    assert!(root.dir("abcd").is_none());
    assert!(root.dir("abd").is_none());
    assert!(root.dir("").is_none());
    assert!(root.dir("abc").is_some());
}

#[test]
fn empty_name_is_a_name() {
    let mut root = Directory::new_root();
    assert!(root.create_dir(String::new()).is_ok());
    assert!(root.create_dir(String::new()).is_err());
    assert_eq!(root.dir("").unwrap().path().to_string(), "/");
    assert_eq!(root.dir("").unwrap().path().components().len(), 1);
}

#[test]
fn same_text_compares_characters() {
    assert!(same_text("", ""));
    assert!(same_text("..", ".."));
    assert!(same_text("été", "été"));
    assert!(!same_text("a", ""));
    assert!(!same_text("", "a"));
    assert!(!same_text("abc", "abd"));
    assert!(!same_text("abc", "ab"));
    assert!(!same_text(".", ".."));
}

#[test]
fn already_exists_message() {
    assert_eq!(
        AlreadyExistsError.message(),
        "tried to create directory or file, but object with that name already existed"
    );
}

#[test]
fn file_accessors_read_and_change_the_file() {
    let mut root = Directory::new_root();
    {
        let file = root.create_file("run.sh".to_string()).unwrap();
        assert_eq!(file.contents(), "");
        assert!(!file.can_execute());
        file.set_contents("echo hi".to_string());
        file.set_executable(true);
        assert_eq!(file.path().to_string(), "/run.sh");
    }
    let file = root.file("run.sh").unwrap();
    assert_eq!(file.contents(), "echo hi");
    assert_eq!(file.data, "echo hi");
    assert!(file.can_execute());
    assert!(file.is_executable);
}

#[test]
fn directory_writable_flag() {
    let mut root = Directory::new_root();
    assert!(root.create_dir("d".to_string()).is_ok());
    assert!(!root.can_write());
    root.set_writable(true);
    assert!(root.can_write());
    assert!(root.is_writable);
    assert_eq!(root.dir_names(), vec!["d".to_string()]);
    assert_eq!(root.path().to_string(), "/");
    root.set_writable(false);
    assert!(!root.can_write());
}
