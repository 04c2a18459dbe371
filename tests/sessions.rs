use read_write_procmem_windows::directory::{exe_name_len, get_proc_list, get_tuple, find_index, Probe, ProcessRecord};
use read_write_procmem_windows::session::{get_cmd, zeroed_buffer, AttachOutcome, Session, Step};
use read_write_procmem_windows::command::ParseError;

fn probe(name: &str, pid: u32, capability: Option<u64>) -> Probe<u64> {
    Probe { name: name.to_string(), pid, capability }
}

fn sample_directory() -> Vec<ProcessRecord<u64>> {
    get_proc_list(vec![
        probe("System", 4, Some(400)),
        probe("secure.exe", 8, None),
        probe("app.exe", 12, Some(1200)),
    ])
}

#[test]
fn directory_skips_unopened_processes() {
    let dir = sample_directory();
    assert_eq!(dir.len(), 2);
    assert_eq!(dir[0].name, "System");
    assert_eq!(dir[0].pid, 4);
    assert_eq!(dir[0].capability, 400);
    assert_eq!(dir[1].name, "app.exe");
    assert_eq!(dir[1].pid, 12);
    assert_eq!(dir[1].capability, 1200);
    assert!(dir.iter().all(|r| r.pid != 8));
}

#[test]
fn empty_directory() {
    let dir: Vec<ProcessRecord<u64>> = get_proc_list(vec![probe("a", 1, None)]);
    assert!(dir.is_empty());
    assert!(get_tuple(&dir, 1).is_none());
}

#[test]
fn lookup_by_identifier() {
    let dir = sample_directory();
    assert_eq!(get_tuple(&dir, 12).map(|r| r.capability), Some(1200));
    assert!(get_tuple(&dir, 8).is_none());
    assert_eq!(find_index(&dir, 4), Some(0));
}

#[test]
fn lookup_takes_first_of_equal_identifiers() {
    let dir = get_proc_list(vec![probe("a", 5, Some(1)), probe("b", 5, Some(2))]);
    assert_eq!(get_tuple(&dir, 5).map(|r| r.capability), Some(1));
}

#[test]
fn name_length_stops_at_nul() {
    assert_eq!(exe_name_len(b"app.exe\0\0\0"), 7);
    assert_eq!(exe_name_len(b"\0abc"), 0);
    assert_eq!(exe_name_len(b"abc"), 3);
    assert_eq!(exe_name_len(b""), 0);
}

#[test]
fn new_session_is_unattached() {
    let s: Session<u64> = Session::new();
    assert_eq!(s.pid(), 0);
    assert!(s.capability().is_none());
}

#[test]
fn attach_then_read() {
    let mut s: Session<u64> = Session::new();
    assert!(matches!(get_cmd(&s, "P 4"), Step::Attach(4)));
    match s.attach(sample_directory(), 4) {
        AttachOutcome::Attached { unused, superseded } => {
            assert_eq!(unused.len(), 1);
            assert_eq!(unused[0].pid, 12);
            assert!(superseded.is_none());
        }
        AttachOutcome::NotFound { .. } => panic!("pid 4 is in the directory"),
    }
    assert_eq!(s.pid(), 4);
    assert_eq!(s.capability(), Some(&400));
    match get_cmd(&s, "R 0x10 4") {
        Step::Read { pid, address, length } => {
            assert_eq!((pid, address, length), (4, 0x10, 4));
            assert_eq!(zeroed_buffer(length), vec![0u8; 4]);
        }
        _ => panic!("expected a read"),
    }
}

#[test]
fn write_while_attached() {
    let mut s: Session<u64> = Session::new();
    let _ = s.attach(sample_directory(), 12);
    match get_cmd(&s, "W 0x10 \\x90\\x90") {
        Step::Write { address, bytes } => {
            assert_eq!(address, 0x10);
            assert_eq!(bytes, vec![0x90, 0x90]);
        }
        _ => panic!("expected a write"),
    }
    assert!(matches!(get_cmd(&s, "R 0x10 2"), Step::Read { pid: 12, address: 0x10, length: 2 }));
}

#[test]
fn unrecognized_line_keeps_session() {
    let mut s: Session<u64> = Session::new();
    let _ = s.attach(sample_directory(), 4);
    assert!(matches!(get_cmd(&s, "Q"), Step::Prompt));
    assert_eq!(s.pid(), 4);
    assert_eq!(s.capability(), Some(&400));
}

#[test]
fn malformed_line_is_rejected() {
    let s: Session<u64> = Session::new();
    assert!(matches!(get_cmd(&s, "R 0x10"), Step::Rejected(ParseError::MissingArgument)));
    assert!(matches!(get_cmd(&s, "W 0x10 \\x9"), Step::Rejected(ParseError::BadLiteral)));
}

#[test]
fn attach_to_absent_process_keeps_session() {
    let mut s: Session<u64> = Session::new();
    let _ = s.attach(sample_directory(), 4);
    match s.attach(sample_directory(), 8) {
        AttachOutcome::NotFound { unused } => assert_eq!(unused.len(), 2),
        AttachOutcome::Attached { .. } => panic!("pid 8 could not be opened"),
    }
    assert_eq!(s.pid(), 4);
    assert_eq!(s.capability(), Some(&400));
}

#[test]
fn reattach_releases_previous_capability() {
    let mut s: Session<u64> = Session::new();
    let _ = s.attach(sample_directory(), 4);
    match s.attach(sample_directory(), 12) {
        AttachOutcome::Attached { unused, superseded } => {
            assert_eq!(superseded, Some(400));
            assert_eq!(unused.len(), 1);
            assert_eq!(unused[0].capability, 400);
        }
        AttachOutcome::NotFound { .. } => panic!("pid 12 is in the directory"),
    }
    assert_eq!(s.pid(), 12);
    assert_eq!(s.capability(), Some(&1200));
}

#[test]
fn zero_length_read_buffer() {
    assert!(zeroed_buffer(0).is_empty());
}

#[test]
fn attach_to_zero_is_refused() {
    let dir = get_proc_list(vec![probe("Idle", 0, Some(7)), probe("System", 4, Some(400))]);
    let mut s: Session<u64> = Session::new();
    match s.attach(dir, 0) {
        AttachOutcome::NotFound { unused } => assert_eq!(unused.len(), 2),
        AttachOutcome::Attached { .. } => panic!("identifier 0 stands for no process"),
    }
    assert_eq!(s.pid(), 0);
    assert!(s.capability().is_none());
}

#[test]
fn attach_to_zero_keeps_attached_session() {
    let mut s: Session<u64> = Session::new();
    let _ = s.attach(sample_directory(), 12);
    let dir = get_proc_list(vec![probe("Idle", 0, Some(7))]);
    assert!(matches!(s.attach(dir, 0), AttachOutcome::NotFound { .. }));
    assert_eq!(s.pid(), 12);
    assert_eq!(s.capability(), Some(&1200));
}
