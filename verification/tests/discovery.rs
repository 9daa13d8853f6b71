use compdb_merge::walk::{
    classify_entry, concat_bytes, is_target_name, target_name_bytes, walk_tree, EntryAction,
    FsNode,
};

fn file(name: &str) -> FsNode {
    FsNode::File { name: name.as_bytes().to_vec() }
}

fn dir(name: &str, entries: Vec<FsNode>) -> FsNode {
    FsNode::Dir { name: name.as_bytes().to_vec(), entries }
}

#[test]
fn target_name_is_the_fragment_file_name() {
    assert_eq!(target_name_bytes(), b"compile_commands.json".to_vec());
}

#[test]
fn recognises_exact_target_name_only() {
    assert!(is_target_name(&b"compile_commands.json".to_vec()));
    assert!(!is_target_name(&b"compile_commands.JSON".to_vec()));
    assert!(!is_target_name(&b"compile_commands.json.bak".to_vec()));
    assert!(!is_target_name(&b"a_compile_commands.json".to_vec()));
    assert!(!is_target_name(&Vec::new()));
}

#[test]
fn directories_are_entered() {
    assert_eq!(classify_entry(true, &b"src".to_vec()), EntryAction::Recurse);
    assert_eq!(classify_entry(true, &b"compile_commands.json".to_vec()), EntryAction::Recurse);
}

#[test]
fn fragment_files_are_published() {
    assert_eq!(classify_entry(false, &b"compile_commands.json".to_vec()), EntryAction::Publish);
}

#[test]
fn other_files_are_ignored() {
    assert_eq!(classify_entry(false, &b"main.rs".to_vec()), EntryAction::Ignore);
    assert_eq!(classify_entry(false, &b"compile_commands".to_vec()), EntryAction::Ignore);
}

#[test]
fn walk_finds_every_fragment_exactly_once() {
    let tree = dir(
        "root",
        vec![
            file("compile_commands.json"),
            dir(
                "module_a",
                vec![file("compile_commands.json"), file("main.c"), dir("deep", vec![])],
            ),
            dir("module_b", vec![dir("inner", vec![file("compile_commands.json")])]),
            file("readme.txt"),
        ],
    );
    let found = walk_tree(&tree, &Vec::new());
    let expected: Vec<Vec<u8>> = vec![
        b"root/compile_commands.json".to_vec(),
        b"root/module_a/compile_commands.json".to_vec(),
        b"root/module_b/inner/compile_commands.json".to_vec(),
    ];
    assert_eq!(found, expected);
}

#[test]
fn walk_of_tree_without_fragments_finds_nothing() {
    let tree = dir("root", vec![dir("a", vec![file("x.c")]), file("y.h")]);
    assert_eq!(walk_tree(&tree, &Vec::new()), Vec::<Vec<u8>>::new());
}

#[test]
fn walk_respects_given_prefix() {
    let tree = file("compile_commands.json");
    let found = walk_tree(&tree, &b"base/".to_vec());
    assert_eq!(found, vec![b"base/compile_commands.json".to_vec()]);
}

#[test]
fn concat_joins_byte_vectors() {
    assert_eq!(concat_bytes(&b"ab".to_vec(), &b"cd".to_vec()), b"abcd".to_vec());
    assert_eq!(concat_bytes(&Vec::new(), &b"cd".to_vec()), b"cd".to_vec());
    assert_eq!(concat_bytes(&b"ab".to_vec(), &Vec::new()), b"ab".to_vec());
}
