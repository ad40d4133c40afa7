//! The file-serving state machine: one device command in, one reply out.
use vstd::bytes::{spec_u32_from_le_bytes, spec_u32_to_le_bytes, u32_to_le_bytes, lemma_auto_spec_u32_to_from_le_bytes};
use vstd::prelude::*;
use vstd::utf8::encode_utf8;

use crate::archive::{archive_lookup, bootfiles_read};
use crate::error::{bytes_result, BootError};

verus! {

/// A command issued by the device.
#[derive(Clone, Copy, Debug, PartialEq, Eq, Structural)]
pub enum FileCommand {
    GetFileSize,
    ReadFile,
    Done,
}

/// A decoded device message: a command and the file name it carries.
pub struct FileMessage {
    pub command: FileCommand,
    pub fname: String,
}

/// Where the server stands between commands.
#[derive(Clone, Copy, Debug, PartialEq, Eq, Structural)]
pub enum ServerState {
    AwaitingCommand,
    Terminated,
}

/// The storage that a request is served from.
#[derive(Debug)]
pub enum Backend {
    /// An archive file, scanned for the requested entry.
    Archive(String),
    /// A directory, from which the requested file is read whole.
    Directory(String),
}

/// The file server of one device session. Its source configuration is fixed
/// when it is made; only its state changes.
pub struct FileServer {
    pub directory: Option<String>,
    pub use_tar: bool,
    pub tar_path: Option<String>,
    pub state: ServerState,
}

/// What a request is served from under a configuration, or `None` when the
/// configuration names no usable source.
pub open spec fn backend_of(use_tar: bool, tar_path: Option<String>, directory: Option<String>) -> Option<(bool, Seq<char>)> {
    if use_tar {
        match tar_path {
            Some(p) => Some((true, p@)),
            None => None,
        }
    } else {
        match directory {
            Some(d) => Some((false, d@)),
            None => None,
        }
    }
}

/// The bytes served for `name`, given what was read from the storage that
/// `backend` names: the whole archive, or the whole file of the directory.
pub open spec fn served_bytes(
    backend: Option<(bool, Seq<char>)>,
    name: Seq<char>,
    stored: Result<Seq<u8>, BootError>,
) -> Result<Seq<u8>, BootError> {
    match backend {
        None => Err(BootError::SourceNotConfigured),
        Some((archive, _)) => match stored {
            Err(e) => Err(e),
            Ok(data) => if archive {
                archive_lookup(data, encode_utf8(name))
            } else {
                Ok(data)
            },
        },
    }
}

/// The reply to a command: the 4-byte little-endian size, the file's bytes,
/// or nothing for `Done`. A size that does not fit the 4-byte reply cannot be
/// sent: it fails with `TransferError` rather than announce a wrong length.
pub open spec fn reply_of(
    command: FileCommand,
    backend: Option<(bool, Seq<char>)>,
    name: Seq<char>,
    stored: Result<Seq<u8>, BootError>,
) -> Result<Option<Seq<u8>>, BootError> {
    match command {
        FileCommand::Done => Ok(None),
        FileCommand::GetFileSize => match served_bytes(backend, name, stored) {
            Ok(data) => if data.len() <= u32::MAX {
                Ok(Some(spec_u32_to_le_bytes(data.len() as u32)))
            } else {
                Err(BootError::TransferError)
            },
            Err(e) => Err(e),
        },
        FileCommand::ReadFile => match served_bytes(backend, name, stored) {
            Ok(data) => Ok(Some(data)),
            Err(e) => Err(e),
        },
    }
}

pub open spec fn reply_view(r: Result<Option<Vec<u8>>, BootError>) -> Result<Option<Seq<u8>>, BootError> {
    match r {
        Ok(Some(v)) => Ok(Some(v@)),
        Ok(None) => Ok(None),
        Err(e) => Err(e),
    }
}

impl FileServer {
    pub open spec fn backend_spec(&self) -> Option<(bool, Seq<char>)> {
        backend_of(self.use_tar, self.tar_path, self.directory)
    }

    /// A server awaiting its first command.
    pub fn new(directory: Option<String>, use_tar: bool, tar_path: Option<String>) -> (r: FileServer)
        ensures
            r.directory == directory,
            r.use_tar == use_tar,
            r.tar_path == tar_path,
            r.state == ServerState::AwaitingCommand,
    {
        FileServer { directory, use_tar, tar_path, state: ServerState::AwaitingCommand }
    }

    /// The storage to read for a request: the archive when `use_tar` is set,
    /// else the directory. Fails with `SourceNotConfigured` when that one is
    /// not given.
    pub fn backend(&self) -> (r: Result<Backend, BootError>)
        ensures
            match r {
                Ok(Backend::Archive(p)) => self.backend_spec() == Some((true, p@)),
                Ok(Backend::Directory(d)) => self.backend_spec() == Some((false, d@)),
                Err(e) => self.backend_spec() is None && e == BootError::SourceNotConfigured,
            },
    {
        if self.use_tar {
            match &self.tar_path {
                Some(p) => Ok(Backend::Archive(p.clone())),
                None => Err(BootError::SourceNotConfigured),
            }
        } else {
            match &self.directory {
                Some(d) => Ok(Backend::Directory(d.clone())),
                None => Err(BootError::SourceNotConfigured),
            }
        }
    }

    /// The bytes of `fname`, given `stored`, what was read from the storage
    /// that `backend` names. Errors of the storage pass through unchanged.
    pub fn read_file(&self, fname: &str, stored: Result<Vec<u8>, BootError>) -> (r: Result<Vec<u8>, BootError>)
        ensures
            bytes_result(r) == served_bytes(self.backend_spec(), fname@, bytes_result(stored)),
    {
        if self.use_tar {
            if self.tar_path.is_none() {
                return Err(BootError::SourceNotConfigured);
            }
        } else if self.directory.is_none() {
            return Err(BootError::SourceNotConfigured);
        }
        match stored {
            Err(e) => Err(e),
            Ok(data) => if self.use_tar {
                bootfiles_read(data.as_slice(), fname)
            } else {
                Ok(data)
            },
        }
    }

    /// The length of `fname`, given `stored` as for `read_file`.
    pub fn get_file_size(&self, fname: &str, stored: Result<Vec<u8>, BootError>) -> (r: Result<usize, BootError>)
        ensures
            match served_bytes(self.backend_spec(), fname@, bytes_result(stored)) {
                Ok(data) => data.len() <= usize::MAX && r == Ok::<usize, BootError>(data.len() as usize),
                Err(e) => r == Err::<usize, BootError>(e),
            },
    {
        match self.read_file(fname, stored) {
            Ok(data) => Ok(data.len()),
            Err(e) => Err(e),
        }
    }

    /// Ends the session, as when writing a reply to the device failed.
    pub fn end_session(&mut self)
        ensures
            final(self).directory == old(self).directory,
            final(self).use_tar == old(self).use_tar,
            final(self).tar_path == old(self).tar_path,
            final(self).state == ServerState::Terminated,
    {
        self.state = ServerState::Terminated;
    }

    /// Handles one command and returns the reply to write, if any; `stored`
    /// is what was read from the storage that `backend` names (`Done` reads
    /// nothing and ignores it). `Done` and any failure end the session; a
    /// session that has ended answers nothing.
    pub fn handle_message(&mut self, msg: &FileMessage, stored: Result<Vec<u8>, BootError>) -> (r: Result<Option<Vec<u8>>, BootError>)
        ensures
            final(self).directory == old(self).directory,
            final(self).use_tar == old(self).use_tar,
            final(self).tar_path == old(self).tar_path,
            old(self).state == ServerState::Terminated ==> r == Ok::<Option<Vec<u8>>, BootError>(None)
                && final(self).state == ServerState::Terminated,
            old(self).state == ServerState::AwaitingCommand ==> {
                &&& reply_view(r) == reply_of(msg.command, old(self).backend_spec(), msg.fname@, bytes_result(stored))
                &&& final(self).state == (if r is Ok && msg.command != FileCommand::Done {
                    ServerState::AwaitingCommand
                } else {
                    ServerState::Terminated
                })
            },
            old(self).state == ServerState::AwaitingCommand && old(self).backend_spec() is None
                && msg.command != FileCommand::Done ==> r == Err::<Option<Vec<u8>>, BootError>(
                BootError::SourceNotConfigured,
            ),
    {
        if self.state == ServerState::Terminated {
            return Ok(None);
        }
        match msg.command {
            FileCommand::GetFileSize => match self.get_file_size(msg.fname.as_str(), stored) {
                Ok(size) => {
                    if size as u64 > 0xffff_ffff {
                        self.state = ServerState::Terminated;
                        return Err(BootError::TransferError);
                    }
                    let reply = u32_to_le_bytes(size as u32);
                    Ok(Some(reply))
                },
                Err(e) => {
                    self.state = ServerState::Terminated;
                    Err(e)
                },
            },
            FileCommand::ReadFile => match self.read_file(msg.fname.as_str(), stored) {
                Ok(data) => Ok(Some(data)),
                Err(e) => {
                    self.state = ServerState::Terminated;
                    Err(e)
                },
            },
            FileCommand::Done => {
                self.state = ServerState::Terminated;
                Ok(None)
            },
        }
    }
}

/// The size a `GetFileSize` reply announces is the length of what `ReadFile`
/// returns for the same name and stored bytes: when the size reply is sent,
/// the data reply is sent too and its length reads back from the 4 bytes;
/// the size reply is sent whenever the data reply is and its length fits
/// 32 bits.
pub proof fn lemma_size_reply_matches_data(
    backend: Option<(bool, Seq<char>)>,
    name: Seq<char>,
    stored: Result<Seq<u8>, BootError>,
)
    ensures
        match reply_of(FileCommand::GetFileSize, backend, name, stored) {
            Ok(Some(size)) => size.len() == 4 && match reply_of(FileCommand::ReadFile, backend, name, stored) {
                Ok(Some(data)) => spec_u32_from_le_bytes(size) == data.len(),
                _ => false,
            },
            _ => true,
        },
        match reply_of(FileCommand::ReadFile, backend, name, stored) {
            Ok(Some(data)) => data.len() <= u32::MAX ==> reply_of(FileCommand::GetFileSize, backend, name, stored) is Ok,
            _ => true,
        },
{
    lemma_auto_spec_u32_to_from_le_bytes();
    match served_bytes(backend, name, stored) {
        Ok(data) => {
            if data.len() <= u32::MAX {
                let x = data.len() as u32;
                assert(spec_u32_to_le_bytes(x).len() == 4);
                assert(spec_u32_from_le_bytes(spec_u32_to_le_bytes(x)) == x);
            }
        },
        Err(_) => {},
    }
}

/// With neither an archive nor a directory configured, every command but
/// `Done` fails with `SourceNotConfigured`, whatever was stored.
pub proof fn lemma_unconfigured_source_fails(
    use_tar: bool,
    command: FileCommand,
    name: Seq<char>,
    stored: Result<Seq<u8>, BootError>,
)
    ensures
        backend_of(use_tar, None, None) is None,
        served_bytes(backend_of(use_tar, None, None), name, stored) == Err::<Seq<u8>, BootError>(
            BootError::SourceNotConfigured,
        ),
        command != FileCommand::Done ==> reply_of(command, backend_of(use_tar, None, None), name, stored)
            == Err::<Option<Seq<u8>>, BootError>(BootError::SourceNotConfigured),
{
}

} // verus!
