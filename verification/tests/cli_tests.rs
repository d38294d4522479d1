use cp2::copy::{ChunkAction, FileCopy};
use cp2::error::CopyError;
use cp2::scheduler::{
    clamp_concurrency, entry_name, progress_label, target_path, validate_source, Admission,
    CopyTask, PathKind,
    Scheduler,
};
use cp2::walk::{DirEntry, TreeWalk, WalkAction, WalkEvent};
use std::collections::{BTreeMap, BTreeSet};

// What the in-memory file system of these tests holds at a path.
#[derive(Debug, Clone, PartialEq)]
enum Node {
    Dir,
    File(Vec<u8>),
}

type MemFs = BTreeMap<String, Node>;

const TMP: &str = "/tmp/t";

fn create_dir_all(fs: &mut MemFs, path: &str) {
    let mut prefix = String::new();
    for part in path.split('/').filter(|p| !p.is_empty()) {
        prefix.push('/');
        prefix.push_str(part);
        fs.entry(prefix.clone()).or_insert(Node::Dir);
    }
}

fn parent_of(path: &str) -> String {
    match path.rfind('/') {
        Some(at) => path[..at].to_string(),
        None => String::new(),
    }
}

// Helper to create a source directory with a specific structure for testing.
fn create_test_src(fs: &mut MemFs, structure: &[(&str, &[u8])]) -> String {
    let source = format!("{}/source", TMP);
    create_dir_all(fs, &source);
    for (path, content) in structure {
        let full_path = format!("{}/{}", source, path.trim_end_matches('/'));
        if path.ends_with('/') {
            create_dir_all(fs, &full_path);
        } else {
            create_dir_all(fs, &parent_of(&full_path));
            fs.insert(full_path, Node::File(content.to_vec()));
        }
    }
    source
}

fn relative_paths(fs: &MemFs, dir: &str) -> BTreeSet<String> {
    let prefix = format!("{}/", dir);
    fs.keys().filter(|k| k.starts_with(&prefix)).map(|k| k[prefix.len()..].to_string()).collect()
}

// Helper to verify that the contents of two directories are identical.
fn assert_dirs_equal(fs: &MemFs, dir1: &str, dir2: &str) {
    let paths1 = relative_paths(fs, dir1);
    let paths2 = relative_paths(fs, dir2);
    assert_eq!(paths1, paths2, "Directory structures are not equal");
}

// The text of a path that the library hands out.
fn text(path: &[u8]) -> String {
    String::from_utf8(path.to_vec()).unwrap()
}

fn bytes(path: &str) -> Vec<u8> {
    path.as_bytes().to_vec()
}

fn target(destination: &str, source: &str) -> String {
    text(&target_path(destination.as_bytes(), source.as_bytes()))
}

// The label of an entry, as the program shows it.
fn label(source: &str) -> String {
    progress_label(&text(&entry_name(source.as_bytes())))
}

fn probe(fs: &MemFs, path: &str) -> PathKind {
    match fs.get(path) {
        Some(Node::Dir) => PathKind::Directory,
        Some(Node::File(_)) => PathKind::File,
        None => PathKind::Missing,
    }
}

fn read_dir(fs: &MemFs, dir: &str) -> Option<Vec<DirEntry>> {
    if fs.get(dir) != Some(&Node::Dir) {
        return None;
    }
    let prefix = format!("{}/", dir);
    Some(
        fs.iter()
            .filter(|(k, _)| k.starts_with(&prefix) && !k[prefix.len()..].contains('/'))
            .map(|(k, v)| DirEntry { name: bytes(&k[prefix.len()..]), is_dir: *v == Node::Dir })
            .collect(),
    )
}

fn copy_file(fs: &mut MemFs, from: &str, to: &str) -> Result<u64, String> {
    let data = match fs.get(from) {
        Some(Node::File(bytes)) => bytes.clone(),
        _ => return Err(format!("cannot open {}", from)),
    };
    if fs.get(&parent_of(to)) != Some(&Node::Dir) {
        return Err(format!("cannot create {}", to));
    }
    let mut written: Vec<u8> = Vec::new();
    let mut copy = FileCopy::new();
    let mut at = 0;
    loop {
        let n = 3.min(data.len() - at);
        match copy.chunk_read(n) {
            ChunkAction::Finish => break,
            ChunkAction::Write { .. } => {
                written.extend_from_slice(&data[at..at + n]);
                at += n;
            }
        }
    }
    fs.insert(to.to_string(), Node::File(written));
    Ok(copy.total_bytes())
}

fn copy_dir_recursive(fs: &mut MemFs, from: &str, to: &str) -> Result<(), CopyError> {
    let mut walk = TreeWalk::new(bytes("/cwd"), bytes(from), bytes(to));
    let mut listings: Vec<Vec<DirEntry>> = Vec::new();
    loop {
        let event = match walk.pending() {
            WalkAction::Finished => return Ok(()),
            WalkAction::Failed(error) => return Err(error.duplicate()),
            WalkAction::CreateDir { path } => {
                create_dir_all(fs, &text(path));
                WalkEvent::Completed
            }
            WalkAction::OpenDir { path } => match read_dir(fs, &text(path)) {
                Some(mut entries) => {
                    entries.reverse();
                    listings.push(entries);
                    WalkEvent::Completed
                }
                None => WalkEvent::Failed(format!("cannot list {}", text(path))),
            },
            WalkAction::NextEntry => match listings.last_mut().and_then(|l| l.pop()) {
                Some(entry) => WalkEvent::Entry(entry),
                None => {
                    listings.pop();
                    WalkEvent::EndOfDir
                }
            },
            WalkAction::CopyFile { source, dest } => match copy_file(fs, &text(source), &text(dest)) {
                Ok(_) => WalkEvent::Completed,
                Err(cause) => WalkEvent::Failed(cause),
            },
        };
        walk.advance(event);
    }
}

fn run_task(fs: &mut MemFs, task: &CopyTask) -> bool {
    if task.is_dir {
        copy_dir_recursive(fs, &text(&task.source), &text(&task.dest)).is_ok()
    } else {
        copy_file(fs, &text(&task.source), &text(&task.dest)).is_ok()
    }
}

struct Report {
    overall_failed: bool,
    errors: Vec<String>,
    most_in_flight: usize,
}

// Runs a copy request against the in-memory file system. The units of work
// that hold a slot end one after the other: the one started last goes
// first when `last_first` is set, the one started first otherwise.
fn run_copy(
    fs: &mut MemFs,
    sources: &[&str],
    destination: &str,
    recursive: bool,
    concurrency: usize,
    last_first: bool,
) -> Report {
    let mut scheduler = Scheduler::new(bytes(destination), recursive, concurrency, 16);
    let mut errors = Vec::new();
    for source in sources {
        if let Admission::Rejected(error) = scheduler.submit(bytes(source), probe(fs, source)) {
            errors.push(format!("{}: {}", error.message(), source));
        }
    }
    let mut in_flight: Vec<CopyTask> = Vec::new();
    let mut most_in_flight = 0;
    loop {
        while let Some(task) = scheduler.next_task() {
            in_flight.push(task);
        }
        assert_eq!(scheduler.running(), in_flight.len());
        assert!(in_flight.len() <= scheduler.limit());
        most_in_flight = most_in_flight.max(in_flight.len());
        if in_flight.is_empty() {
            break;
        }
        let task = if last_first { in_flight.pop().unwrap() } else { in_flight.remove(0) };
        let ok = run_task(fs, &task);
        scheduler.task_finished(task.index, ok);
    }
    assert!(scheduler.is_done());
    Report { overall_failed: scheduler.overall_failed(), errors, most_in_flight }
}

#[test]
fn test_copy_single_file_succeeds() {
    let mut fs = MemFs::new();
    let source_path = format!("{}/source", TMP);
    create_dir_all(&mut fs, &source_path);
    let dest_path = format!("{}/dest", TMP);
    create_dir_all(&mut fs, &dest_path);

    let file_to_copy = format!("{}/file.txt", source_path);
    fs.insert(file_to_copy.clone(), Node::File(b"content".to_vec()));

    let report = run_copy(&mut fs, &[&file_to_copy], &dest_path, false, 4, false);

    assert!(!report.overall_failed);

    let expected_dest_file = format!("{}/file.txt", dest_path);
    assert!(fs.contains_key(&expected_dest_file));
    assert_eq!(fs.get(&expected_dest_file), Some(&Node::File(b"content".to_vec())));
}

#[test]
fn test_copy_dir_without_recursive_flag_fails() {
    let mut fs = MemFs::new();
    let source_path = format!("{}/source", TMP);
    create_dir_all(&mut fs, &source_path);
    let dest_path = format!("{}/dest", TMP);
    create_dir_all(&mut fs, &dest_path);

    let report = run_copy(&mut fs, &[&source_path], &dest_path, false, 4, false);

    assert!(report.overall_failed);
    assert!(report.errors[0].contains("Source path is a directory, but recursive flag is not set"));
}

#[test]
fn test_copy_dir_with_recursive_flag_succeeds() {
    let mut fs = MemFs::new();
    let dest_path = format!("{}/dest", TMP);
    create_dir_all(&mut fs, &dest_path);

    let source_path = create_test_src(&mut fs, &[("f1.txt", b"1"), ("sub/f2.txt", b"2")]);

    let report = run_copy(&mut fs, &[&source_path], &dest_path, true, 4, false);

    assert!(!report.overall_failed);

    let expected_dest = format!("{}/source", dest_path);
    assert_dirs_equal(&fs, &source_path, &expected_dest);
}

#[test]
fn test_non_existent_source_fails() {
    let mut fs = MemFs::new();
    let dest_path = format!("{}/dest", TMP);
    create_dir_all(&mut fs, &dest_path);

    let report = run_copy(&mut fs, &["non-existent-file"], &dest_path, false, 4, false);

    assert!(report.overall_failed);
    assert!(report.errors[0].contains("Source path does not exist"));
}

#[test]
fn one_file_copied_and_one_missing_reports_failure() {
    let mut fs = MemFs::new();
    create_dir_all(&mut fs, "/dest");
    fs.insert("/A".to_string(), Node::File(b"12345".to_vec()));

    let report = run_copy(&mut fs, &["/A", "/B"], "/dest", false, 4, false);

    assert!(report.overall_failed);
    assert_eq!(fs.get("/dest/A"), Some(&Node::File(b"12345".to_vec())));
    assert_eq!(report.errors, vec!["Source path does not exist: /B"]);
    assert_eq!(report.most_in_flight, 1);
}

#[test]
fn one_slot_and_eight_slots_give_the_same_tree_and_flag() {
    let mut start = MemFs::new();
    create_dir_all(&mut start, "/dest");
    create_dir_all(&mut start, "/src/tree/inner");
    start.insert("/src/tree/inner/x".to_string(), Node::File(b"x".to_vec()));
    start.insert("/src/tree/y".to_string(), Node::File(b"yy".to_vec()));
    for name in ["a", "b", "c", "d", "e", "f", "g", "h", "i"] {
        start.insert(format!("/src/{}", name), Node::File(name.as_bytes().to_vec()));
    }
    let sources = [
        "/src/a", "/src/b", "/src/missing", "/src/tree", "/src/c", "/src/d", "/src/e", "/src/f",
        "/src/g", "/src/h", "/src/i",
    ];

    let mut serial = start.clone();
    let one = run_copy(&mut serial, &sources, "/dest", true, 1, false);
    assert_eq!(one.most_in_flight, 1);

    for last_first in [false, true] {
        let mut parallel = start.clone();
        let eight = run_copy(&mut parallel, &sources, "/dest", true, 8, last_first);
        assert_eq!(eight.most_in_flight, 8);
        assert_eq!(eight.overall_failed, one.overall_failed);
        assert_eq!(eight.errors, one.errors);
        assert_eq!(parallel, serial);
    }
    assert!(one.overall_failed);
    assert_dirs_equal(&serial, "/src/tree", "/dest/tree");
    assert_eq!(serial.get("/dest/tree/inner/x"), Some(&Node::File(b"x".to_vec())));
}

#[test]
fn all_sources_invalid_ends_at_once_with_failure() {
    let mut fs = MemFs::new();
    create_dir_all(&mut fs, "/dest");
    create_dir_all(&mut fs, "/dir");
    let report = run_copy(&mut fs, &["/nope", "/dir"], "/dest", false, 4, false);
    assert!(report.overall_failed);
    assert_eq!(report.most_in_flight, 0);
    assert_eq!(report.errors.len(), 2);
}

#[test]
fn no_sources_is_a_success() {
    let mut fs = MemFs::new();
    let report = run_copy(&mut fs, &[], "/dest", false, 4, false);
    assert!(!report.overall_failed);
}

#[test]
fn a_failing_task_sets_the_flag_and_frees_its_slot() {
    let mut scheduler = Scheduler::new(bytes("/dest"), false, 2, 8);
    assert_eq!(scheduler.limit(), 2);
    for name in ["a", "b", "c"] {
        assert_eq!(scheduler.submit(bytes(name), PathKind::File), Admission::File);
    }
    let first = scheduler.next_task().unwrap();
    let second = scheduler.next_task().unwrap();
    assert_eq!((first.index, second.index), (0, 1));
    assert_eq!(scheduler.next_task(), None);
    assert_eq!(scheduler.running(), 2);
    scheduler.task_finished(1, false);
    assert!(scheduler.overall_failed());
    assert_eq!(scheduler.running(), 1);
    let third = scheduler.next_task().unwrap();
    assert_eq!(
        third,
        CopyTask { index: 2, source: bytes("c"), dest: bytes("/dest/c"), is_dir: false }
    );
    assert!(!scheduler.is_done());
    scheduler.task_finished(0, true);
    scheduler.task_finished(2, true);
    assert!(scheduler.is_done());
    assert!(scheduler.overall_failed());
}

#[test]
fn a_report_for_a_task_that_is_not_running_is_ignored() {
    let mut scheduler = Scheduler::new(bytes("/dest"), false, 2, 8);
    scheduler.submit(bytes("a"), PathKind::File);
    scheduler.task_finished(0, false);
    scheduler.task_finished(7, false);
    assert!(!scheduler.overall_failed());
    assert_eq!(scheduler.running(), 0);
    assert!(scheduler.next_task().is_some());
    scheduler.task_finished(0, true);
    scheduler.task_finished(0, false);
    assert!(!scheduler.overall_failed());
    assert!(scheduler.is_done());
}

#[test]
fn concurrency_is_clamped_to_the_processing_units() {
    assert_eq!(clamp_concurrency(4, 8), 4);
    assert_eq!(clamp_concurrency(8, 8), 8);
    assert_eq!(clamp_concurrency(64, 8), 8);
    assert_eq!(clamp_concurrency(0, 8), 0);
    assert_eq!(Scheduler::new(bytes("/d"), true, 64, 8).limit(), 8);
}

#[test]
fn sources_are_validated_before_they_are_scheduled() {
    assert_eq!(validate_source(PathKind::File, false), Admission::File);
    assert_eq!(validate_source(PathKind::File, true), Admission::File);
    assert_eq!(validate_source(PathKind::Directory, true), Admission::Directory);
    assert_eq!(
        validate_source(PathKind::Directory, false),
        Admission::Rejected(CopyError::SourceIsDirectoryWithoutRecursion)
    );
    assert_eq!(
        validate_source(PathKind::Missing, true),
        Admission::Rejected(CopyError::SourceNotFound)
    );
    assert_eq!(validate_source(PathKind::Other, true), Admission::Skipped);
}

#[test]
fn an_entry_that_is_neither_file_nor_directory_is_passed_over() {
    let mut scheduler = Scheduler::new(bytes("/dest"), true, 2, 8);
    assert_eq!(scheduler.submit(bytes("/dev/null"), PathKind::Other), Admission::Skipped);
    assert!(scheduler.is_done());
    assert!(!scheduler.overall_failed());
    assert_eq!(scheduler.next_task(), None);
}

#[test]
fn entries_are_copied_under_their_final_name() {
    assert_eq!(target("/dest", "/src/a.txt"), "/dest/a.txt");
    assert_eq!(target("/dest/", "a.txt"), "/dest/a.txt");
    assert_eq!(target("dest", "dir/sub/"), "dest/sub");
    assert_eq!(target("dest", "dir/./"), "dest/dir");
    assert_eq!(target("dest", ".."), "dest/..");
    assert_eq!(target("dest", "/"), "/");
    assert_eq!(target("", "a/b"), "b");
}

#[test]
fn labels_show_the_trimmed_name() {
    assert_eq!(label("/src/file.txt"), "Copying file.txt");
    assert_eq!(
        label("/src/a_file_with_quite_a_long_name_indeed.tar.gz"),
        "Copying a_file_with_q...ndeed.tar.gz"
    );
    assert_eq!(label(".."), "Copying ..");
}

#[test]
fn error_messages() {
    assert_eq!(CopyError::SourceNotFound.message(), "Source path does not exist");
    assert_eq!(
        CopyError::SourceIsDirectoryWithoutRecursion.message(),
        "Source path is a directory, but recursive flag is not set"
    );
    assert_eq!(CopyError::DestinationInsideSource.message(), "cannot copy a directory into itself");
    assert_eq!(CopyError::Io("broken pipe".to_string()).message(), "broken pipe");
    assert_eq!(CopyError::Io("x".to_string()).duplicate(), CopyError::Io("x".to_string()));
}

#[test]
fn entries_with_different_names_are_copied_to_separate_places() {
    let first = cp2::copy::normalize_path(&target_path(b"/dest", b"/src/one/data"));
    let second = cp2::copy::normalize_path(&target_path(b"/dest", b"/other/data2"));
    assert_ne!(first, second);
    assert!(!first.is_strictly_inside(&second));
    assert!(!second.is_strictly_inside(&first));
    let below_first = cp2::copy::normalize_path(b"/dest/data/x/y");
    assert!(below_first.is_strictly_inside(&first));
    assert!(!below_first.is_strictly_inside(&second));
}

#[test]
fn a_name_that_is_not_text_is_kept_byte_for_byte() {
    let odd: Vec<u8> = vec![b'f', 0xff, 0xfe, b'.', b'x'];
    let mut source = b"/src/".to_vec();
    source.extend_from_slice(&odd);
    assert_eq!(entry_name(&source), odd);
    let mut expected = b"/dest/".to_vec();
    expected.extend_from_slice(&odd);
    assert_eq!(target_path(b"/dest", &source), expected);

    let mut walk = TreeWalk::new(bytes("/"), bytes("/src"), bytes("/dest"));
    walk.advance(WalkEvent::Completed);
    walk.advance(WalkEvent::Completed);
    walk.advance(WalkEvent::Entry(DirEntry { name: odd.clone(), is_dir: false }));
    assert_eq!(walk.pending(), &WalkAction::CopyFile { source, dest: expected });
}
