use treesize::node::Node;
use treesize::scan::{
    Entry, Probe, ScanError, ScanEvent, ScanProgress, ScanRequest, ScanResult, Scanner,
};

fn entry(name: &str, path: &str, probe: Probe) -> Entry {
    Entry { name: name.to_string(), path: path.to_string(), probe }
}

fn list(path: &str) -> ScanRequest {
    ScanRequest::List { path: path.to_string() }
}

fn go_on(progress: ScanProgress) -> Scanner {
    match progress {
        ScanProgress::Continue(scanner) => scanner,
        ScanProgress::Done(result) => panic!("scan ended early: {:?}", result),
    }
}

fn done(progress: ScanProgress) -> ScanResult {
    match progress {
        ScanProgress::Done(result) => result,
        ScanProgress::Continue(scanner) => panic!("scan goes on: {:?}", scanner.request()),
    }
}

fn started(root: &str, name: &str) -> Scanner {
    let scanner = Scanner::new(root.to_string(), name.to_string());
    assert_eq!(scanner.request(), ScanRequest::ProbeRoot { path: root.to_string() });
    let scanner = go_on(scanner.step(ScanEvent::RootProbed { found: true, is_dir: true }));
    assert_eq!(scanner.request(), list(root));
    scanner
}

fn names(nodes: &Vec<Node>) -> Vec<String> {
    nodes.iter().map(|n| n.name().clone()).collect()
}

#[test]
fn scan_builds_the_tree_of_a_small_directory() {
    let scanner = started("/root", "root");
    let scanner = go_on(scanner.step(ScanEvent::Listed {
        entries: vec![
            entry("a.txt", "/root/a.txt", Probe::File { size: 10 }),
            entry("sub", "/root/sub", Probe::Directory),
        ],
    }));
    assert_eq!(scanner.request(), list("/root/sub"));
    let scanner = go_on(scanner.step(ScanEvent::Listed {
        entries: vec![entry("b.txt", "/root/sub/b.txt", Probe::File { size: 20 })],
    }));
    assert_eq!(scanner.request(), ScanRequest::FinalPoll);
    let result = done(scanner.step(ScanEvent::Proceed));
    assert_eq!(result.root_path, "/root");
    assert!(result.error.is_none());
    let root = result.root_node.unwrap();
    assert_eq!(root.name(), "root");
    assert_eq!(root.path(), "/root");
    assert_eq!(root.size(), 30);
    assert_eq!(root.file_count(), 2);
    assert_eq!(names(root.children()), vec!["sub", "a.txt"]);
    assert_eq!(root.children()[0].size(), 20);
    assert_eq!(root.children()[0].path(), "/root/sub");
    assert_eq!(root.children()[1].size(), 10);
    assert_eq!(names(root.children()[0].children()), vec!["b.txt"]);
}

#[test]
fn scan_walks_depth_first_and_returns_to_the_parent() {
    let scanner = started("/r", "r");
    let scanner = go_on(scanner.step(ScanEvent::Listed {
        entries: vec![
            entry("d1", "/r/d1", Probe::Directory),
            entry("f", "/r/f", Probe::File { size: 1 }),
            entry("d2", "/r/d2", Probe::Directory),
        ],
    }));
    assert_eq!(scanner.request(), list("/r/d1"));
    let scanner = go_on(scanner.step(ScanEvent::Listed {
        entries: vec![
            entry("x", "/r/d1/x", Probe::File { size: 5 }),
            entry("in", "/r/d1/in", Probe::Directory),
        ],
    }));
    assert_eq!(scanner.request(), list("/r/d1/in"));
    let scanner = go_on(scanner.step(ScanEvent::Listed { entries: vec![] }));
    assert_eq!(scanner.request(), list("/r/d2"));
    let scanner = go_on(scanner.step(ScanEvent::Listed {
        entries: vec![entry("y", "/r/d2/y", Probe::File { size: 9 })],
    }));
    assert_eq!(scanner.request(), ScanRequest::FinalPoll);
    let root = done(scanner.step(ScanEvent::Proceed)).root_node.unwrap();
    assert_eq!(root.size(), 15);
    assert_eq!(root.file_count(), 3);
    assert_eq!(names(root.children()), vec!["d2", "d1", "f"]);
    let d1 = &root.children()[1];
    assert_eq!(names(d1.children()), vec!["x", "in"]);
    assert!(d1.children()[1].is_dir());
    assert_eq!(d1.children()[1].size(), 0);
    assert_eq!(d1.children()[1].file_count(), 0);
}

#[test]
fn cancellation_before_the_start_yields_cancelled() {
    let scanner = Scanner::new("/r".to_string(), "r".to_string());
    let result = done(scanner.step(ScanEvent::Cancelled));
    assert_eq!(result.root_path, "/r");
    assert!(result.root_node.is_none());
    assert_eq!(result.error, Some(ScanError::Cancelled));
}

#[test]
fn cancellation_in_the_middle_yields_cancelled_and_no_partial_tree() {
    let scanner = started("/r", "r");
    let scanner = go_on(scanner.step(ScanEvent::Listed {
        entries: vec![
            entry("f", "/r/f", Probe::File { size: 1 }),
            entry("d", "/r/d", Probe::Directory),
        ],
    }));
    assert_eq!(scanner.request(), list("/r/d"));
    let result = done(scanner.step(ScanEvent::Cancelled));
    assert!(result.root_node.is_none());
    assert_eq!(result.error, Some(ScanError::Cancelled));
}

#[test]
fn cancellation_at_the_last_poll_discards_the_whole_tree() {
    let scanner = started("/r", "r");
    let scanner = go_on(scanner.step(ScanEvent::Listed {
        entries: vec![entry("f", "/r/f", Probe::File { size: 1 })],
    }));
    assert_eq!(scanner.request(), ScanRequest::FinalPoll);
    let result = done(scanner.step(ScanEvent::Cancelled));
    assert!(result.root_node.is_none());
    assert_eq!(result.error, Some(ScanError::Cancelled));
}

#[test]
fn an_entry_that_was_not_visited_cancels_the_scan() {
    let scanner = started("/r", "r");
    let result = done(scanner.step(ScanEvent::Listed {
        entries: vec![
            entry("f", "/r/f", Probe::File { size: 1 }),
            entry("g", "/r/g", Probe::NotVisited),
        ],
    }));
    assert!(result.root_node.is_none());
    assert_eq!(result.error, Some(ScanError::Cancelled));
}

#[test]
fn missing_root_is_not_found() {
    let scanner = Scanner::new("/nowhere".to_string(), "nowhere".to_string());
    let result = done(scanner.step(ScanEvent::RootProbed { found: false, is_dir: false }));
    assert_eq!(result.root_path, "/nowhere");
    assert!(result.root_node.is_none());
    assert_eq!(result.error, Some(ScanError::NotFound));
}

#[test]
fn root_that_is_a_file_is_not_a_directory() {
    let scanner = Scanner::new("/r/a.txt".to_string(), "a.txt".to_string());
    let result = done(scanner.step(ScanEvent::RootProbed { found: true, is_dir: false }));
    assert!(result.root_node.is_none());
    assert_eq!(result.error, Some(ScanError::NotADirectory));
}

#[test]
fn unreadable_root_is_an_io_error() {
    let scanner = started("/r", "r");
    let result = done(scanner.step(ScanEvent::Unreadable { message: "permission denied".to_string() }));
    assert!(result.root_node.is_none());
    assert_eq!(result.error, Some(ScanError::IoError("permission denied".to_string())));
}

#[test]
fn unreadable_directory_below_the_root_counts_as_empty() {
    let scanner = started("/r", "r");
    let scanner = go_on(scanner.step(ScanEvent::Listed {
        entries: vec![
            entry("locked", "/r/locked", Probe::Directory),
            entry("f", "/r/f", Probe::File { size: 4 }),
        ],
    }));
    assert_eq!(scanner.request(), list("/r/locked"));
    let scanner = go_on(scanner.step(ScanEvent::Unreadable { message: "denied".to_string() }));
    assert_eq!(scanner.request(), ScanRequest::FinalPoll);
    let root = done(scanner.step(ScanEvent::Proceed)).root_node.unwrap();
    assert_eq!(root.size(), 4);
    assert_eq!(root.file_count(), 1);
    assert_eq!(names(root.children()), vec!["f", "locked"]);
    assert!(root.children()[1].is_dir());
    assert!(root.children()[1].children().is_empty());
}

#[test]
fn unsupported_entries_are_passed_over() {
    let scanner = started("/r", "r");
    let scanner = go_on(scanner.step(ScanEvent::Listed {
        entries: vec![
            entry("sock", "/r/sock", Probe::Unsupported),
            entry("f", "/r/f", Probe::File { size: 4 }),
            entry("pipe", "/r/pipe", Probe::Unsupported),
        ],
    }));
    let root = done(scanner.step(ScanEvent::Proceed)).root_node.unwrap();
    assert_eq!(names(root.children()), vec!["f"]);
    assert_eq!(root.size(), 4);
    assert_eq!(root.file_count(), 1);
}

#[test]
fn empty_root_gives_an_empty_tree() {
    let scanner = started("/r", "r");
    let scanner = go_on(scanner.step(ScanEvent::Listed { entries: vec![] }));
    let root = done(scanner.step(ScanEvent::Proceed)).root_node.unwrap();
    assert!(root.is_dir());
    assert_eq!(root.size(), 0);
    assert_eq!(root.file_count(), 0);
    assert!(root.children().is_empty());
}

#[test]
fn a_file_that_would_overflow_the_total_is_left_out() {
    let scanner = started("/r", "r");
    let scanner = go_on(scanner.step(ScanEvent::Listed {
        entries: vec![
            entry("huge", "/r/huge", Probe::File { size: u64::MAX - 5 }),
            entry("more", "/r/more", Probe::File { size: 10 }),
            entry("tiny", "/r/tiny", Probe::File { size: 5 }),
        ],
    }));
    let root = done(scanner.step(ScanEvent::Proceed)).root_node.unwrap();
    assert_eq!(root.size(), u64::MAX);
    assert_eq!(root.file_count(), 2);
    assert_eq!(names(root.children()), vec!["huge", "tiny"]);
}

#[test]
fn events_that_do_not_answer_the_request_change_nothing() {
    let scanner = Scanner::new("/r".to_string(), "r".to_string());
    let scanner = go_on(scanner.step(ScanEvent::Proceed));
    assert_eq!(scanner.request(), ScanRequest::ProbeRoot { path: "/r".to_string() });
    let scanner = go_on(scanner.step(ScanEvent::Listed { entries: vec![] }));
    assert_eq!(scanner.request(), ScanRequest::ProbeRoot { path: "/r".to_string() });
    let scanner = go_on(scanner.step(ScanEvent::RootProbed { found: true, is_dir: true }));
    let scanner = go_on(scanner.step(ScanEvent::Proceed));
    assert_eq!(scanner.request(), list("/r"));
    let scanner = go_on(scanner.step(ScanEvent::RootProbed { found: false, is_dir: false }));
    assert_eq!(scanner.request(), list("/r"));
    let scanner = go_on(scanner.step(ScanEvent::Listed { entries: vec![] }));
    let scanner = go_on(scanner.step(ScanEvent::Listed { entries: vec![] }));
    assert_eq!(scanner.request(), ScanRequest::FinalPoll);
}

enum Disk {
    File(String, u64),
    Dir(String, Option<Vec<Disk>>),
    Other(String),
}

impl Disk {
    fn name(&self) -> &str {
        match self {
            Disk::File(name, _) => name,
            Disk::Dir(name, _) => name,
            Disk::Other(name) => name,
        }
    }

    fn probe(&self) -> Probe {
        match self {
            Disk::File(_, size) => Probe::File { size: *size },
            Disk::Dir(..) => Probe::Directory,
            Disk::Other(_) => Probe::Unsupported,
        }
    }
}

fn lookup<'a>(root: &'a Disk, root_path: &str, path: &str) -> &'a Disk {
    let mut here = root;
    let below = &path[root_path.len()..];
    for name in below.split('/').filter(|part| !part.is_empty()) {
        here = match here {
            Disk::Dir(_, Some(entries)) => entries.iter().find(|e| e.name() == name).unwrap(),
            _ => panic!("not a listable directory"),
        };
    }
    here
}

fn answer(root: &Disk, root_path: &str, path: &str) -> ScanEvent {
    match lookup(root, root_path, path) {
        Disk::Dir(_, Some(entries)) => ScanEvent::Listed {
            entries: entries
                .iter()
                .map(|e| entry(e.name(), &format!("{}/{}", path, e.name()), e.probe()))
                .collect(),
        },
        Disk::Dir(_, None) => ScanEvent::Unreadable { message: "denied".to_string() },
        _ => panic!("asked to list something that is no directory"),
    }
}

fn scan(root: &Disk, root_path: &str) -> ScanResult {
    let mut scanner = Scanner::new(root_path.to_string(), root.name().to_string());
    loop {
        let event = match scanner.request() {
            ScanRequest::ProbeRoot { .. } => ScanEvent::RootProbed { found: true, is_dir: true },
            ScanRequest::List { path } => answer(root, root_path, &path),
            ScanRequest::FinalPoll => ScanEvent::Proceed,
        };
        match scanner.step(event) {
            ScanProgress::Continue(next) => scanner = next,
            ScanProgress::Done(result) => return result,
        }
    }
}

/// (name, size, file count, children) of the size tree that belongs to `disk`.
struct Expected(String, u64, u64, Vec<Expected>);

fn expected(disk: &Disk) -> Option<Expected> {
    match disk {
        Disk::File(name, size) => Some(Expected(name.clone(), *size, 1, vec![])),
        Disk::Other(_) => None,
        Disk::Dir(name, listing) => {
            let mut kids: Vec<Expected> = match listing {
                Some(entries) => entries.iter().filter_map(expected).collect(),
                None => vec![],
            };
            let size = kids.iter().map(|k| k.1).sum();
            let files = kids.iter().map(|k| k.2).sum();
            kids.sort_by(|a, b| b.1.cmp(&a.1));
            Some(Expected(name.clone(), size, files, kids))
        }
    }
}

fn same(node: &Node, want: &Expected) {
    assert_eq!(node.name(), &want.0);
    assert_eq!(node.size(), want.1);
    assert_eq!(node.file_count(), want.2);
    assert_eq!(node.children().len(), want.3.len());
    for (child, wanted) in node.children().iter().zip(want.3.iter()) {
        same(child, wanted);
    }
}

fn grown(depth: u32, seed: &mut u64) -> Vec<Disk> {
    let mut entries = Vec::new();
    let count = 2 + (*seed % 4);
    for i in 0..count {
        *seed = seed.wrapping_mul(6364136223846793005).wrapping_add(1442695040888963407);
        let pick = (*seed >> 33) % 10;
        let name = format!("e{}_{}", depth, i);
        if pick < 5 || depth == 0 {
            entries.push(Disk::File(name, (*seed >> 40) % 7));
        } else if pick < 8 {
            entries.push(Disk::Dir(name, Some(grown(depth - 1, seed))));
        } else if pick < 9 {
            entries.push(Disk::Dir(name, None));
        } else {
            entries.push(Disk::Other(name));
        }
    }
    entries
}

#[test]
fn scan_builds_the_size_tree_of_the_directory_tree() {
    for start in 1..40u64 {
        let mut seed = start;
        let root = Disk::Dir("root".to_string(), Some(grown(4, &mut seed)));
        let result = scan(&root, "/root");
        assert!(result.error.is_none());
        same(&result.root_node.unwrap(), &expected(&root).unwrap());
    }
}
