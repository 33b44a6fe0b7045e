use std::collections::BTreeMap;

use treesize::path::{FsPath, PathPart};
use treesize::transfer::{
    delete_request_for, delete_step, CopyEntry, DeleteOutcome, DeleteStage, FsEvent, FsRequest,
    Transfer, TransferError, TransferProgress,
};

/// A file system in memory: every path that exists, with the bytes of a
/// file or nothing for a directory. Renames can be made to fail, as they
/// do between two volumes.
#[derive(Clone, Debug, PartialEq, Eq)]
struct Volume {
    entries: BTreeMap<Vec<String>, Option<Vec<u8>>>,
    rename_works: bool,
}

fn key(path: &FsPath) -> Vec<String> {
    path.parts
        .iter()
        .filter_map(|part| match part {
            PathPart::Normal(name) => Some(name.clone()),
            _ => None,
        })
        .collect()
}

fn path(names: &[&str]) -> FsPath {
    let mut parts = vec![PathPart::Root];
    for name in names {
        parts.push(PathPart::Normal(name.to_string()));
    }
    FsPath { parts }
}

fn done(result: Result<(), String>) -> FsEvent {
    match result {
        Ok(()) => FsEvent::Succeeded,
        Err(message) => FsEvent::Failed { message },
    }
}

impl Volume {
    fn new(rename_works: bool) -> Volume {
        let mut entries = BTreeMap::new();
        entries.insert(Vec::new(), None);
        Volume { entries, rename_works }
    }

    fn dir(&mut self, names: &[&str]) {
        self.entries.insert(names.iter().map(|n| n.to_string()).collect(), None);
    }

    fn file(&mut self, names: &[&str], bytes: &[u8]) {
        self.entries.insert(names.iter().map(|n| n.to_string()).collect(), Some(bytes.to_vec()));
    }

    fn is_dir(&self, at: &Vec<String>) -> bool {
        matches!(self.entries.get(at), Some(None))
    }

    /// What lies at `at` and below it, with paths taken from `at`.
    fn subtree(&self, at: &[&str]) -> BTreeMap<Vec<String>, Option<Vec<u8>>> {
        let at: Vec<String> = at.iter().map(|n| n.to_string()).collect();
        self.entries
            .iter()
            .filter(|(k, _)| k.starts_with(&at))
            .map(|(k, v)| (k[at.len()..].to_vec(), v.clone()))
            .collect()
    }

    fn children(&self, at: &Vec<String>) -> Vec<CopyEntry> {
        self.entries
            .iter()
            .filter(|(k, _)| k.len() == at.len() + 1 && k.starts_with(at))
            .map(|(k, v)| CopyEntry { name: k[at.len()].clone(), is_dir: v.is_none() })
            .collect()
    }

    fn remove_tree(&mut self, at: &Vec<String>) {
        self.entries.retain(|k, _| !k.starts_with(at));
    }

    fn create_dir_all(&mut self, at: &Vec<String>) -> Result<(), String> {
        for len in 0..=at.len() {
            let prefix = at[..len].to_vec();
            match self.entries.get(&prefix) {
                Some(Some(_)) => return Err("a file is in the way".to_string()),
                Some(None) => {}
                None => {
                    self.entries.insert(prefix, None);
                }
            }
        }
        Ok(())
    }

    fn copy_file(&mut self, from: &Vec<String>, to: &Vec<String>) -> Result<(), String> {
        let bytes = match self.entries.get(from) {
            Some(Some(bytes)) => bytes.clone(),
            _ => return Err("no such file".to_string()),
        };
        if to.is_empty() || !self.is_dir(&to[..to.len() - 1].to_vec()) || self.is_dir(to) {
            return Err("cannot write there".to_string());
        }
        self.entries.insert(to.clone(), Some(bytes));
        Ok(())
    }

    fn rename(&mut self, from: &Vec<String>, to: &Vec<String>) -> Result<(), String> {
        if !self.rename_works {
            return Err("cross-device link".to_string());
        }
        let moved: Vec<_> = self
            .entries
            .iter()
            .filter(|(k, _)| k.starts_with(from))
            .map(|(k, v)| (k.clone(), v.clone()))
            .collect();
        if moved.is_empty() {
            return Err("no such file".to_string());
        }
        self.remove_tree(from);
        for (k, v) in moved {
            let mut target = to.clone();
            target.extend_from_slice(&k[from.len()..]);
            self.entries.insert(target, v);
        }
        Ok(())
    }

    fn perform(&mut self, request: &FsRequest) -> FsEvent {
        match request {
            FsRequest::ProbeDestination { path } | FsRequest::ProbeSource { path } => {
                let at = key(path);
                FsEvent::Probed { found: self.entries.contains_key(&at), is_dir: self.is_dir(&at) }
            }
            FsRequest::Rename { from, to } => done(self.rename(&key(from), &key(to))),
            FsRequest::Stat { path } => match self.entries.get(&key(path)) {
                Some(content) => FsEvent::Kind { is_dir: content.is_none() },
                None => FsEvent::Failed { message: "no such file".to_string() },
            },
            FsRequest::CopyFile { from, to } => done(self.copy_file(&key(from), &key(to))),
            FsRequest::CreateDirAll { path } => done(self.create_dir_all(&key(path))),
            FsRequest::ReadDir { path } => {
                let at = key(path);
                if self.is_dir(&at) {
                    FsEvent::Listed { entries: self.children(&at) }
                } else {
                    FsEvent::Failed { message: "not a directory".to_string() }
                }
            }
            FsRequest::RemoveDirAll { path } => {
                let at = key(path);
                if self.is_dir(&at) {
                    self.remove_tree(&at);
                    FsEvent::Succeeded
                } else {
                    FsEvent::Failed { message: "not a directory".to_string() }
                }
            }
            FsRequest::RemoveFile { path } => match self.entries.remove(&key(path)) {
                Some(Some(_)) => FsEvent::Succeeded,
                Some(None) => {
                    self.entries.insert(key(path), None);
                    FsEvent::Failed { message: "is a directory".to_string() }
                }
                None => FsEvent::Failed { message: "no such file".to_string() },
            },
        }
    }

    fn copy_or_move(&mut self, src: &[&str], dest_dir: &[&str], is_cut: bool) -> Result<(), TransferError> {
        let mut transfer = Transfer::copy_or_move(path(src), path(dest_dir), is_cut, None);
        loop {
            let event = self.perform(&transfer.request());
            match transfer.step(event) {
                TransferProgress::Continue(next) => transfer = next,
                TransferProgress::Done(result) => return result,
            }
        }
    }

    fn delete(&mut self, at: &[&str]) -> Result<(), TransferError> {
        let target = path(at);
        let mut stage = DeleteStage::Stat;
        loop {
            let event = self.perform(&delete_request_for(&target, stage));
            match delete_step(stage, event) {
                DeleteOutcome::Next(next) => stage = next,
                DeleteOutcome::Finished(result) => return result,
            }
        }
    }
}

fn sample(rename_works: bool) -> Volume {
    let mut volume = Volume::new(rename_works);
    volume.dir(&["a"]);
    volume.dir(&["a", "src"]);
    volume.file(&["a", "src", "one.txt"], b"one");
    volume.dir(&["a", "src", "deep"]);
    volume.file(&["a", "src", "deep", "two.bin"], &[0, 1, 2, 255]);
    volume.dir(&["a", "src", "deep", "empty"]);
    volume.file(&["a", "src", "zero"], b"");
    volume.file(&["a", "lone.txt"], b"lone");
    volume.dir(&["b"]);
    volume.file(&["b", "kept"], b"kept");
    volume
}

#[test]
fn move_onto_itself_fails_and_changes_nothing() {
    for rename_works in [true, false] {
        let mut volume = sample(rename_works);
        let before = volume.clone();
        assert_eq!(
            volume.copy_or_move(&["a", "src"], &["a", "src"], true),
            Err(TransferError::SelfNestedMove)
        );
        assert_eq!(volume, before);
        assert_eq!(
            volume.copy_or_move(&["a", "src"], &["a", "src", "deep"], true),
            Err(TransferError::SelfNestedMove)
        );
        assert_eq!(volume, before);
    }
}

#[test]
fn refused_operations_change_nothing() {
    let mut volume = sample(true);
    let before = volume.clone();
    assert_eq!(
        volume.copy_or_move(&["a", "src"], &["nowhere"], false),
        Err(TransferError::InvalidDestination)
    );
    assert_eq!(
        volume.copy_or_move(&["a", "src"], &["a", "lone.txt"], true),
        Err(TransferError::InvalidDestination)
    );
    assert_eq!(
        volume.copy_or_move(&["a", "missing"], &["b"], true),
        Err(TransferError::SourceNotFound)
    );
    assert_eq!(
        volume.copy_or_move(&["a", "lone.txt"], &["a", "lone.txt"], true),
        Err(TransferError::InvalidDestination)
    );
    assert_eq!(volume, before);
}

#[test]
fn move_across_volumes_leaves_an_identical_copy_and_no_source() {
    let mut volume = sample(false);
    let source = volume.subtree(&["a", "src"]);
    assert_eq!(volume.copy_or_move(&["a", "src"], &["b"], true), Ok(()));
    assert!(volume.subtree(&["a", "src"]).is_empty());
    assert_eq!(volume.subtree(&["b", "src"]), source);
    assert_eq!(volume.entries.get(&vec!["b".to_string(), "kept".to_string()]), Some(&Some(b"kept".to_vec())));
    assert_eq!(volume.subtree(&["a"]).len(), 2);
}

#[test]
fn move_within_a_volume_gives_the_same_end_state() {
    let mut renamed = sample(true);
    let mut copied = sample(false);
    assert_eq!(renamed.copy_or_move(&["a", "src"], &["b"], true), Ok(()));
    assert_eq!(copied.copy_or_move(&["a", "src"], &["b"], true), Ok(()));
    assert_eq!(renamed.entries, copied.entries);
}

#[test]
fn move_of_a_single_file_across_volumes() {
    let mut volume = sample(false);
    assert_eq!(volume.copy_or_move(&["a", "lone.txt"], &["b"], true), Ok(()));
    assert!(volume.subtree(&["a", "lone.txt"]).is_empty());
    assert_eq!(
        volume.entries.get(&vec!["b".to_string(), "lone.txt".to_string()]),
        Some(&Some(b"lone".to_vec()))
    );
}

#[test]
fn copy_leaves_the_source_and_an_identical_copy() {
    let mut volume = sample(true);
    let source = volume.subtree(&["a", "src"]);
    assert_eq!(volume.copy_or_move(&["a", "src"], &["b"], false), Ok(()));
    assert_eq!(volume.subtree(&["a", "src"]), source);
    assert_eq!(volume.subtree(&["b", "src"]), source);
}

#[test]
fn failed_copy_is_reported_and_not_rolled_back() {
    let mut volume = sample(false);
    // a file where the copy of the directory `deep` would go
    volume.dir(&["b", "src"]);
    volume.file(&["b", "src", "deep"], b"in the way");
    let result = volume.copy_or_move(&["a", "src"], &["b"], true);
    assert_eq!(result, Err(TransferError::IoError("a file is in the way".to_string())));
    // nothing of the source is removed, and nothing that was copied is taken back
    assert_eq!(volume.subtree(&["a", "src"]), sample(false).subtree(&["a", "src"]));
}

#[test]
fn delete_removes_a_tree_or_a_single_file() {
    let mut volume = sample(true);
    assert_eq!(volume.delete(&["a", "src"]), Ok(()));
    assert!(volume.subtree(&["a", "src"]).is_empty());
    assert_eq!(volume.delete(&["a", "lone.txt"]), Ok(()));
    assert_eq!(volume.subtree(&["a"]).len(), 1);
    assert_eq!(
        volume.delete(&["a", "lone.txt"]),
        Err(TransferError::IoError("no such file".to_string()))
    );
    assert_eq!(volume.subtree(&["b"]).len(), 2);
}
