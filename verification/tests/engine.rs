use tmpo::actions::{init, InitOpts};
use tmpo::catalog::Candidate;
use tmpo::context::{Context, Identity};
use tmpo::engine::{carry_out, copy, destination, WorkspaceTarget};
use tmpo::error::CoreError;
use tmpo::resolver::ResolvedRepository;
use tmpo::tree::{same_path, Entry, FileTree, Node, PathState};

fn path(segments: &[&str]) -> Vec<String> {
    segments.iter().map(|s| s.to_string()).collect()
}

fn dir(segments: &[&str]) -> Entry {
    Entry { path: path(segments), node: Node::Directory }
}

fn file(segments: &[&str], content: &[u8]) -> Entry {
    Entry { path: path(segments), node: Node::File(content.to_vec()) }
}

fn content(tree: &FileTree, segments: &[&str]) -> Option<Vec<u8>> {
    match tree.get(&path(segments)) {
        Some(Node::File(bytes)) => Some(bytes.clone()),
        _ => None,
    }
}

fn context() -> Context {
    Context {
        name: "demo".to_string(),
        repository: None,
        username: None,
        email: None,
        values: vec![("license".to_string(), "MIT".to_string())],
    }
}

fn target(replace: bool) -> WorkspaceTarget {
    WorkspaceTarget { directory: "/work".to_string(), name: "demo".to_string(), replace }
}

fn basic() -> Vec<Entry> {
    vec![
        file(&["README.md"], b"Project: {{name}}"),
        dir(&["{{name}}-config"]),
        file(&["{{name}}-config", "settings.yml"], b"license: {{license}}\n"),
    ]
}

fn written(tree: &FileTree, from: usize) -> Vec<Vec<String>> {
    (from..tree.len()).map(|i| tree.entry(i).path.clone()).collect()
}

#[test]
fn tree_keeps_what_was_written_last() {
    let mut tree = FileTree::new();
    assert_eq!(tree.len(), 0);
    assert_eq!(tree.state(&path(&["a"])), PathState::Absent);
    tree.insert(path(&["a"]), Node::Directory);
    tree.insert(path(&["a", "b"]), Node::File(b"one".to_vec()));
    tree.insert(path(&["a", "b"]), Node::File(b"two".to_vec()));
    assert_eq!(tree.len(), 3);
    assert_eq!(tree.state(&path(&["a"])), PathState::Directory);
    assert_eq!(tree.state(&path(&["a", "b"])), PathState::File);
    assert_eq!(tree.state(&path(&["b"])), PathState::Absent);
    assert_eq!(tree.state(&path(&[])), PathState::Absent);
    assert_eq!(content(&tree, &["a", "b"]), Some(b"two".to_vec()));
    assert!(tree.get(&path(&["a", "c"])).is_none());
    assert_eq!(tree.entry(1).path, path(&["a", "b"]));
}

#[test]
fn paths_compare_by_segments() {
    assert!(same_path(&path(&["a", "b"]), &path(&["a", "b"])));
    assert!(!same_path(&path(&["a", "b"]), &path(&["a"])));
    assert!(!same_path(&path(&["a", "b"]), &path(&["a", "c"])));
    assert!(!same_path(&path(&["a/b"]), &path(&["a", "b"])));
    assert!(same_path(&path(&[]), &path(&[])));
}

#[test]
fn destination_renders_each_segment() {
    let root = path(&["/work", "demo"]);
    assert_eq!(
        destination(&context(), &root, &path(&["{{name}}-config", "{{license}}.txt"])),
        path(&["/work", "demo", "demo-config", "MIT.txt"])
    );
    assert_eq!(destination(&context(), &root, &path(&[])), root);
    assert_eq!(
        destination(&context(), &path(&["{{name}}"]), &path(&["x"])),
        path(&["{{name}}", "x"])
    );
}

#[test]
fn carry_out_decides_by_what_is_there() {
    let mut tree = FileTree::new();
    assert!(carry_out(&mut tree, path(&["d"]), Node::Directory, false));
    assert!(carry_out(&mut tree, path(&["f"]), Node::File(b"old".to_vec()), false));
    assert_eq!(tree.len(), 2);
    assert!(carry_out(&mut tree, path(&["d"]), Node::Directory, true));
    assert_eq!(tree.len(), 2);
    assert!(carry_out(&mut tree, path(&["f"]), Node::File(b"new".to_vec()), false));
    assert_eq!(tree.len(), 2);
    assert_eq!(content(&tree, &["f"]), Some(b"old".to_vec()));
    assert!(carry_out(&mut tree, path(&["f"]), Node::File(b"new".to_vec()), true));
    assert_eq!(tree.len(), 3);
    assert_eq!(content(&tree, &["f"]), Some(b"new".to_vec()));
    assert!(!carry_out(&mut tree, path(&["f"]), Node::Directory, true));
    assert!(!carry_out(&mut tree, path(&["d"]), Node::File(b"x".to_vec()), true));
    assert!(!carry_out(&mut tree, path(&["d"]), Node::File(b"x".to_vec()), false));
    assert_eq!(tree.len(), 3);
    assert_eq!(tree.state(&path(&["d"])), PathState::Directory);
}

#[test]
fn copy_into_an_empty_tree() {
    let mut tree = FileTree::new();
    assert_eq!(copy(&basic(), &target(false), &context(), &mut tree), Ok(()));
    assert_eq!(tree.state(&path(&["/work", "demo"])), PathState::Directory);
    assert_eq!(content(&tree, &["/work", "demo", "README.md"]), Some(b"Project: demo".to_vec()));
    assert_eq!(tree.state(&path(&["/work", "demo", "demo-config"])), PathState::Directory);
    assert_eq!(
        content(&tree, &["/work", "demo", "demo-config", "settings.yml"]),
        Some(b"license: MIT\n".to_vec())
    );
    assert_eq!(
        written(&tree, 0),
        vec![
            path(&["/work", "demo"]),
            path(&["/work", "demo", "README.md"]),
            path(&["/work", "demo", "demo-config"]),
            path(&["/work", "demo", "demo-config", "settings.yml"]),
        ]
    );
}

#[test]
fn copy_of_an_empty_template_makes_the_directory() {
    let mut tree = FileTree::new();
    assert_eq!(copy(&Vec::new(), &target(false), &context(), &mut tree), Ok(()));
    assert_eq!(written(&tree, 0), vec![path(&["/work", "demo"])]);
    assert_eq!(copy(&Vec::new(), &target(false), &context(), &mut tree), Ok(()));
    assert_eq!(tree.len(), 1);
}

#[test]
fn copy_is_obstructed_by_a_file() {
    let mut tree = FileTree::new();
    tree.insert(path(&["/work", "demo"]), Node::File(b"in the way".to_vec()));
    assert_eq!(
        copy(&basic(), &target(true), &context(), &mut tree),
        Err(CoreError::TargetObstructed)
    );
    assert_eq!(tree.len(), 1);
    assert_eq!(content(&tree, &["/work", "demo"]), Some(b"in the way".to_vec()));
    assert_eq!(
        copy(&basic(), &target(false), &context(), &mut tree),
        Err(CoreError::TargetObstructed)
    );
    assert_eq!(tree.len(), 1);
}

#[test]
fn copy_goes_on_in_an_existing_directory() {
    let mut tree = FileTree::new();
    tree.insert(path(&["/work", "demo"]), Node::Directory);
    tree.insert(path(&["/work", "demo", "demo-config"]), Node::Directory);
    assert_eq!(copy(&basic(), &target(false), &context(), &mut tree), Ok(()));
    assert_eq!(
        written(&tree, 2),
        vec![
            path(&["/work", "demo", "README.md"]),
            path(&["/work", "demo", "demo-config", "settings.yml"]),
        ]
    );
}

#[test]
fn copy_keeps_existing_files_without_replace() {
    let mut tree = FileTree::new();
    tree.insert(path(&["/work", "demo"]), Node::Directory);
    tree.insert(path(&["/work", "demo", "README.md"]), Node::File(b"mine".to_vec()));
    assert_eq!(copy(&basic(), &target(false), &context(), &mut tree), Ok(()));
    assert_eq!(content(&tree, &["/work", "demo", "README.md"]), Some(b"mine".to_vec()));
    assert_eq!(
        content(&tree, &["/work", "demo", "demo-config", "settings.yml"]),
        Some(b"license: MIT\n".to_vec())
    );
    assert_eq!(
        written(&tree, 2),
        vec![
            path(&["/work", "demo", "demo-config"]),
            path(&["/work", "demo", "demo-config", "settings.yml"]),
        ]
    );
}

#[test]
fn copy_overwrites_existing_files_with_replace() {
    let mut tree = FileTree::new();
    tree.insert(path(&["/work", "demo"]), Node::Directory);
    tree.insert(path(&["/work", "demo", "README.md"]), Node::File(b"mine".to_vec()));
    tree.insert(path(&["/work", "demo", "other.txt"]), Node::File(b"other".to_vec()));
    assert_eq!(copy(&basic(), &target(true), &context(), &mut tree), Ok(()));
    assert_eq!(content(&tree, &["/work", "demo", "README.md"]), Some(b"Project: demo".to_vec()));
    assert_eq!(content(&tree, &["/work", "demo", "other.txt"]), Some(b"other".to_vec()));
}

#[test]
fn copy_twice_with_replace_gives_the_same_tree() {
    let mut tree = FileTree::new();
    tree.insert(path(&["/work", "demo"]), Node::Directory);
    tree.insert(path(&["/work", "demo", "README.md"]), Node::File(b"mine".to_vec()));
    assert_eq!(copy(&basic(), &target(true), &context(), &mut tree), Ok(()));
    let paths = [
        vec!["/work", "demo"],
        vec!["/work", "demo", "README.md"],
        vec!["/work", "demo", "demo-config"],
        vec!["/work", "demo", "demo-config", "settings.yml"],
    ];
    let first: Vec<Option<Vec<u8>>> = paths.iter().map(|p| content(&tree, p)).collect();
    let states: Vec<PathState> = paths.iter().map(|p| tree.state(&path(p))).collect();
    assert_eq!(copy(&basic(), &target(true), &context(), &mut tree), Ok(()));
    let second: Vec<Option<Vec<u8>>> = paths.iter().map(|p| content(&tree, p)).collect();
    let states_again: Vec<PathState> = paths.iter().map(|p| tree.state(&path(p))).collect();
    assert_eq!(first, second);
    assert_eq!(states, states_again);
}

#[test]
fn copy_stops_at_a_conflict_and_keeps_what_it_wrote() {
    let mut tree = FileTree::new();
    tree.insert(path(&["/work", "demo"]), Node::Directory);
    tree.insert(path(&["/work", "demo", "demo-config"]), Node::File(b"a file".to_vec()));
    assert_eq!(copy(&basic(), &target(true), &context(), &mut tree), Err(CoreError::CopyFailed));
    assert_eq!(content(&tree, &["/work", "demo", "README.md"]), Some(b"Project: demo".to_vec()));
    assert_eq!(content(&tree, &["/work", "demo", "demo-config"]), Some(b"a file".to_vec()));
    assert!(tree.get(&path(&["/work", "demo", "demo-config", "settings.yml"])).is_none());
    assert_eq!(written(&tree, 2), vec![path(&["/work", "demo", "README.md"])]);
}

#[test]
fn copy_fails_where_a_directory_is_in_the_way_of_a_file() {
    let mut tree = FileTree::new();
    tree.insert(path(&["/work", "demo", "README.md"]), Node::Directory);
    assert_eq!(copy(&basic(), &target(false), &context(), &mut tree), Err(CoreError::CopyFailed));
    assert_eq!(written(&tree, 1), vec![path(&["/work", "demo"])]);
}

#[test]
fn copy_leaves_binary_files_alone() {
    let png = vec![0x89, b'P', b'N', b'G', 0, b'{', b'{', b'n', b'a', b'm', b'e', b'}', b'}'];
    let files = vec![file(&["{{name}}.png"], &png)];
    let mut tree = FileTree::new();
    assert_eq!(copy(&files, &target(false), &context(), &mut tree), Ok(()));
    assert_eq!(content(&tree, &["/work", "demo", "demo.png"]), Some(png));
}

#[test]
fn copy_of_two_entries_with_one_destination() {
    let files = vec![file(&["{{name}}.txt"], b"first"), file(&["demo.txt"], b"second")];
    let mut tree = FileTree::new();
    assert_eq!(copy(&files, &target(false), &context(), &mut tree), Ok(()));
    assert_eq!(content(&tree, &["/work", "demo", "demo.txt"]), Some(b"first".to_vec()));
    let mut tree = FileTree::new();
    assert_eq!(copy(&files, &target(true), &context(), &mut tree), Ok(()));
    assert_eq!(content(&tree, &["/work", "demo", "demo.txt"]), Some(b"second".to_vec()));
}

fn opts(template: &str, replace: bool) -> InitOpts {
    InitOpts {
        name: "demo".to_string(),
        template: template.to_string(),
        directory: "/work".to_string(),
        repository: None,
        replace,
    }
}

fn catalog() -> Vec<Candidate> {
    vec![Candidate { name: "basic".to_string(), is_directory: true, has_file: true, summary: None }]
}

fn repository() -> ResolvedRepository {
    ResolvedRepository { name: "default".to_string(), local_path: "/r/default".to_string() }
}

fn nobody() -> Identity {
    Identity { username: None, email: None }
}

#[test]
fn init_makes_the_workspace() {
    let files = vec![
        file(&["README.md"], b"Project: {{name}}"),
        dir(&["{{name}}-config"]),
        file(&["{{name}}-config", "settings.yml"], b""),
    ];
    let mut tree = FileTree::new();
    let r = init(&opts("basic", false), &repository(), &catalog(), &Vec::new(), nobody(), &files, &mut tree);
    assert_eq!(r, Ok(()));
    assert_eq!(content(&tree, &["/work", "demo", "README.md"]), Some(b"Project: demo".to_vec()));
    assert_eq!(tree.state(&path(&["/work", "demo", "demo-config", "settings.yml"])), PathState::File);
    assert_eq!(tree.state(&path(&["/work", "demo", "demo-config"])), PathState::Directory);
}

#[test]
fn init_uses_identity_and_values() {
    let files = vec![file(&["AUTHORS"], b"{{username}} <{{email}}> {{license}} {{repository}} {{name}}")];
    let identity = Identity { username: Some("ada".to_string()), email: None };
    let values = vec![
        ("license".to_string(), "MIT".to_string()),
        ("name".to_string(), "ignored".to_string()),
    ];
    let mut request = opts("basic", false);
    request.repository = Some("default".to_string());
    let mut tree = FileTree::new();
    let r = init(&request, &repository(), &catalog(), &values, identity, &files, &mut tree);
    assert_eq!(r, Ok(()));
    assert_eq!(
        content(&tree, &["/work", "demo", "AUTHORS"]),
        Some(b"ada <{{email}}> MIT default demo".to_vec())
    );
}

#[test]
fn init_without_the_template_leaves_the_tree() {
    let mut tree = FileTree::new();
    let r = init(&opts("other", false), &repository(), &catalog(), &Vec::new(), nobody(), &basic(), &mut tree);
    assert_eq!(r, Err(CoreError::TemplateNotFound));
    assert_eq!(tree.len(), 0);
    let r = init(&opts("basic", false), &repository(), &Vec::new(), &Vec::new(), nobody(), &basic(), &mut tree);
    assert_eq!(r, Err(CoreError::NoTemplates));
    assert_eq!(tree.len(), 0);
}

#[test]
fn init_again_with_replace_repairs_a_workspace() {
    let mut tree = FileTree::new();
    tree.insert(path(&["/work", "demo"]), Node::Directory);
    tree.insert(path(&["/work", "demo", "README.md"]), Node::File(b"Proj".to_vec()));
    let r = init(&opts("basic", true), &repository(), &catalog(), &Vec::new(), nobody(), &basic(), &mut tree);
    assert_eq!(r, Ok(()));
    assert_eq!(content(&tree, &["/work", "demo", "README.md"]), Some(b"Project: demo".to_vec()));
    assert_eq!(tree.len(), 5);
}
