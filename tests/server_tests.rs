use rpiboot_rs_lib::error::BootError;
use rpiboot_rs_lib::file_server::{Backend, FileCommand, FileMessage, FileServer, ServerState};

fn archive_with(name: &str, payload: &[u8]) -> Vec<u8> {
    let mut h = vec![0u8; 512];
    h[..name.len()].copy_from_slice(name.as_bytes());
    let size = format!("{:011o}\0", payload.len());
    h[124..136].copy_from_slice(size.as_bytes());
    h.extend_from_slice(payload);
    while h.len() % 512 != 0 {
        h.push(0);
    }
    h.extend(vec![0u8; 1024]);
    h
}

fn msg(command: FileCommand, name: &str) -> FileMessage {
    FileMessage { command, fname: name.to_string() }
}

#[test]
fn unconfigured_source_fails_every_operation() {
    let mut s = FileServer::new(None, false, None);
    assert!(matches!(s.backend(), Err(BootError::SourceNotConfigured)));
    assert_eq!(s.get_file_size("a", Ok(vec![1, 2])), Err(BootError::SourceNotConfigured));
    assert_eq!(s.read_file("a", Ok(vec![1, 2])), Err(BootError::SourceNotConfigured));
    assert_eq!(s.handle_message(&msg(FileCommand::ReadFile, "a"), Ok(vec![1])), Err(BootError::SourceNotConfigured));
    assert_eq!(s.state, ServerState::Terminated);
    let t = FileServer::new(Some("dir".to_string()), true, None);
    assert_eq!(t.read_file("a", Ok(vec![1])), Err(BootError::SourceNotConfigured));
}

#[test]
fn backend_follows_configuration() {
    let s = FileServer::new(Some("boot".to_string()), false, Some("x.tar".to_string()));
    assert!(matches!(s.backend(), Ok(Backend::Directory(d)) if d == "boot"));
    let t = FileServer::new(None, true, Some("x.tar".to_string()));
    assert!(matches!(t.backend(), Ok(Backend::Archive(p)) if p == "x.tar"));
}

#[test]
fn size_then_data_from_archive() {
    let a = archive_with("start.elf", &[9u8; 700]);
    let mut s = FileServer::new(None, true, Some("boot.tar".to_string()));
    let size = s.handle_message(&msg(FileCommand::GetFileSize, "START.ELF"), Ok(a.clone()));
    assert_eq!(size, Ok(Some(vec![0xbc, 0x02, 0, 0])));
    assert_eq!(s.state, ServerState::AwaitingCommand);
    let data = s.handle_message(&msg(FileCommand::ReadFile, "start.elf"), Ok(a));
    assert_eq!(data, Ok(Some(vec![9u8; 700])));
    assert_eq!(s.get_file_size("start.elf", Ok(archive_with("start.elf", &[1u8; 3]))), Ok(3));
}

#[test]
fn directory_serves_stored_bytes() {
    let mut s = FileServer::new(Some("boot".to_string()), false, None);
    assert_eq!(s.handle_message(&msg(FileCommand::GetFileSize, "cmdline.txt"), Ok(vec![1, 2, 3])), Ok(Some(vec![3, 0, 0, 0])));
    assert_eq!(s.handle_message(&msg(FileCommand::ReadFile, "cmdline.txt"), Ok(vec![1, 2, 3])), Ok(Some(vec![1, 2, 3])));
}

#[test]
fn storage_error_ends_session() {
    let mut s = FileServer::new(Some("boot".to_string()), false, None);
    assert_eq!(s.handle_message(&msg(FileCommand::GetFileSize, "x"), Err(BootError::IoError)), Err(BootError::IoError));
    assert_eq!(s.state, ServerState::Terminated);
    assert_eq!(s.handle_message(&msg(FileCommand::ReadFile, "x"), Ok(vec![1])), Ok(None));
}

#[test]
fn missing_entry_ends_session() {
    let mut s = FileServer::new(None, true, Some("boot.tar".to_string()));
    let a = archive_with("a", b"1");
    assert_eq!(s.handle_message(&msg(FileCommand::GetFileSize, "b"), Ok(a)), Err(BootError::NotFound));
    assert_eq!(s.state, ServerState::Terminated);
}

#[test]
fn done_terminates_without_reply() {
    let mut s = FileServer::new(Some("boot".to_string()), false, None);
    assert_eq!(s.handle_message(&msg(FileCommand::Done, ""), Ok(Vec::new())), Ok(None));
    assert_eq!(s.state, ServerState::Terminated);
    assert_eq!(s.handle_message(&msg(FileCommand::GetFileSize, "x"), Ok(vec![1])), Ok(None));
}

#[test]
fn end_session_terminates() {
    let mut s = FileServer::new(Some("boot".to_string()), false, None);
    s.end_session();
    assert_eq!(s.state, ServerState::Terminated);
    assert_eq!(s.handle_message(&msg(FileCommand::ReadFile, "x"), Ok(vec![1])), Ok(None));
}

#[test]
fn unconfigured_size_request_fails() {
    let mut s = FileServer::new(None, true, None);
    assert_eq!(s.handle_message(&msg(FileCommand::GetFileSize, "a"), Ok(vec![1])), Err(BootError::SourceNotConfigured));
    assert_eq!(s.state, ServerState::Terminated);
}
