use treesize::cancel::CancelFlag;
use treesize::node::Node;
use treesize::roots::{candidates_with, list_roots, root_candidates, RootCandidate};
use treesize::scan::{ScanError, ScanResult};
use treesize::session::{Polled, ScanSession};

fn cancelled(path: &str) -> ScanResult {
    ScanResult { root_path: path.to_string(), root_node: None, error: Some(ScanError::Cancelled) }
}

fn tree(path: &str, size: u64) -> ScanResult {
    let f = Node::new_file("f".to_string(), format!("{}/f", path), size);
    let root = Node::new_dir("r".to_string(), path.to_string(), vec![f]);
    ScanResult { root_path: path.to_string(), root_node: Some(root), error: None }
}

#[test]
fn flag_is_clear_until_cancelled_and_then_stays_set() {
    let flag = CancelFlag::new();
    assert!(!flag.is_cancelled());
    flag.cancel();
    assert!(flag.is_cancelled());
    assert!(flag.is_cancelled());
}

#[test]
fn shared_flag_is_the_same_flag() {
    let flag = CancelFlag::new();
    let other = flag.share();
    assert!(!other.is_cancelled());
    flag.cancel();
    assert!(other.is_cancelled());
    let fresh = CancelFlag::new();
    assert!(!fresh.is_cancelled());
}

#[test]
fn session_hands_out_a_result_once() {
    let mut session = ScanSession::new();
    assert!(!session.is_scanning());
    assert!(session.poll().is_none());
    let ticket = session.begin().unwrap();
    assert!(session.is_scanning());
    assert!(session.poll().is_none());
    assert!(session.is_scanning());
    assert!(ticket.deliver(tree("/r", 42)).is_ok());
    let result = session.poll().unwrap();
    assert_eq!(result.root_path, "/r");
    assert_eq!(result.root_node.unwrap().size(), 42);
    assert!(!session.is_scanning());
    assert!(session.poll().is_none());
}

#[test]
fn session_begins_no_second_scan_while_one_runs() {
    let mut session = ScanSession::new();
    let ticket = session.begin().unwrap();
    assert!(session.begin().is_none());
    assert!(session.is_scanning());
    assert!(ticket.deliver(cancelled("/r")).is_ok());
    assert!(session.poll().is_some());
    assert!(session.begin().is_some());
}

#[test]
fn session_cancel_reaches_the_ticket_of_the_running_scan() {
    let mut session = ScanSession::new();
    assert!(!session.request_cancel());
    let ticket = session.begin().unwrap();
    assert!(!ticket.cancel_flag().is_cancelled());
    assert!(session.request_cancel());
    assert!(ticket.cancel_flag().is_cancelled());
    assert!(ticket.deliver(cancelled("/r")).is_ok());
    assert_eq!(session.poll().unwrap().error, Some(ScanError::Cancelled));
    let next = session.begin().unwrap();
    assert!(!next.cancel_flag().is_cancelled());
}

#[test]
fn session_keeps_waiting_when_the_other_side_is_gone() {
    let mut session = ScanSession::new();
    let ticket = session.begin().unwrap();
    drop(ticket);
    assert!(session.poll().is_none());
    assert!(session.is_scanning());
}

#[test]
fn result_comes_back_when_nobody_waits() {
    let mut session = ScanSession::new();
    let ticket = session.begin().unwrap();
    drop(session);
    let back = ticket.deliver(cancelled("/lost")).unwrap_err();
    assert_eq!(back.root_path, "/lost");
    assert_eq!(back.error, Some(ScanError::Cancelled));
}

#[test]
fn accept_takes_a_result_only_while_scanning() {
    let mut idle = ScanSession::new();
    assert!(idle.accept(Polled::Ready(cancelled("/r"))).is_none());
    assert!(!idle.is_scanning());
    let mut session = ScanSession::new();
    let _ticket = session.begin().unwrap();
    assert!(session.accept(Polled::Empty).is_none());
    assert!(session.is_scanning());
    assert!(session.accept(Polled::Disconnected).is_none());
    assert!(session.is_scanning());
    let result = session.accept(Polled::Ready(cancelled("/r"))).unwrap();
    assert_eq!(result.root_path, "/r");
    assert!(!session.is_scanning());
}

#[test]
fn candidates_are_the_root_and_then_the_home() {
    assert_eq!(candidates_with(None), vec!["/".to_string()]);
    assert_eq!(
        candidates_with(Some("/home/me".to_string())),
        vec!["/".to_string(), "/home/me".to_string()]
    );
    let found = root_candidates();
    assert_eq!(found[0], "/");
    assert!(found.len() <= 2);
}

#[test]
fn roots_are_the_candidates_that_are_directories() {
    let c = |path: &str, is_dir: bool| RootCandidate { path: path.to_string(), is_dir };
    assert_eq!(
        list_roots(vec![c("/", true), c("/home/me", true)]),
        vec!["/".to_string(), "/home/me".to_string()]
    );
    assert_eq!(list_roots(vec![c("/", true), c("/home/me", false)]), vec!["/".to_string()]);
    assert_eq!(
        list_roots(vec![c("C:\\", false), c("D:\\", true), c("E:\\", false), c("F:\\", true)]),
        vec!["D:\\".to_string(), "F:\\".to_string()]
    );
    assert!(list_roots(vec![]).is_empty());
}
