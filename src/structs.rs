//! The messages that the two peers exchange, and their abstract views.
use vstd::prelude::*;

verus! {

/// Identity of a stored record.
pub type Id = i32;

/// A three-part protocol version.
#[derive(Debug, Clone, Copy, PartialEq, Eq, Structural)]
pub struct Version {
    pub major: u32,
    pub minor: u32,
    pub patch: u32,
}

/// First message of a session, from sender to receiver.
#[derive(Debug, Clone)]
pub struct AuthRequest {
    pub version: Version,
    pub token: String,
}

/// The receiver's answer to an `AuthRequest`.
#[derive(Debug, Clone)]
pub struct AuthResponse {
    pub success: bool,
    pub failure_reason: String,
}

/// The file that the sender offers.
#[derive(Debug, Clone)]
pub struct FileDescription {
    pub name: String,
    pub size: u64,
    pub packet_size: u64,
}

/// What the receiver already holds of an offered file.
#[derive(Debug, Clone, Copy, PartialEq, Eq, Structural)]
pub enum FileStatusEnum {
    Exists,
    Resumeable,
    Nonexistent,
}

/// Where a transfer starts, and in which packets it goes.
#[derive(Debug, Clone, Copy, PartialEq, Eq, Structural)]
pub struct FileStatus {
    pub id: Id,
    pub status: FileStatusEnum,
    pub request_packet: u64,
    pub packet_size: u64,
    pub total_packets: u64,
}

/// The receiver's answer to a `FileDescription`.
#[derive(Debug, Clone)]
pub enum FileDescriptionResponse {
    Status(FileStatus),
    FailMessage(String),
}

/// One packet of the file.
#[derive(Debug, Clone)]
pub struct FilePart {
    pub part_num: u64,
    pub data: Vec<u8>,
}

/// The receiver's acknowledgement of a `FilePart`.
#[derive(Debug, Clone)]
pub struct FilePartResponse {
    pub success: bool,
    pub message: String,
}

/// Abstract value of an `AuthRequest`.
pub struct AuthRequestView {
    pub version: Version,
    pub token: Seq<char>,
}

/// Abstract value of an `AuthResponse`.
pub struct AuthResponseView {
    pub success: bool,
    pub failure_reason: Seq<char>,
}

/// Abstract value of a `FileDescription`.
pub struct FileDescriptionView {
    pub name: Seq<char>,
    pub size: u64,
    pub packet_size: u64,
}

/// Abstract value of a `FileDescriptionResponse`.
pub enum FileDescriptionResponseView {
    Status(FileStatus),
    FailMessage(Seq<char>),
}

/// Abstract value of a `FilePart`.
pub struct FilePartView {
    pub part_num: u64,
    pub data: Seq<u8>,
}

/// Abstract value of a `FilePartResponse`.
pub struct FilePartResponseView {
    pub success: bool,
    pub message: Seq<char>,
}

impl View for Version {
    type V = Version;

    open spec fn view(&self) -> Version {
        *self
    }
}

impl View for FileStatusEnum {
    type V = FileStatusEnum;

    open spec fn view(&self) -> FileStatusEnum {
        *self
    }
}

impl View for FileStatus {
    type V = FileStatus;

    open spec fn view(&self) -> FileStatus {
        *self
    }
}

impl View for AuthRequest {
    type V = AuthRequestView;

    open spec fn view(&self) -> AuthRequestView {
        AuthRequestView { version: self.version, token: self.token@ }
    }
}

impl View for AuthResponse {
    type V = AuthResponseView;

    open spec fn view(&self) -> AuthResponseView {
        AuthResponseView { success: self.success, failure_reason: self.failure_reason@ }
    }
}

impl View for FileDescription {
    type V = FileDescriptionView;

    open spec fn view(&self) -> FileDescriptionView {
        FileDescriptionView { name: self.name@, size: self.size, packet_size: self.packet_size }
    }
}

impl View for FileDescriptionResponse {
    type V = FileDescriptionResponseView;

    open spec fn view(&self) -> FileDescriptionResponseView {
        match self {
            FileDescriptionResponse::Status(s) => FileDescriptionResponseView::Status(*s),
            FileDescriptionResponse::FailMessage(m) => FileDescriptionResponseView::FailMessage(
                m@,
            ),
        }
    }
}

impl View for FilePart {
    type V = FilePartView;

    open spec fn view(&self) -> FilePartView {
        FilePartView { part_num: self.part_num, data: self.data@ }
    }
}

impl View for FilePartResponse {
    type V = FilePartResponseView;

    open spec fn view(&self) -> FilePartResponseView {
        FilePartResponseView { success: self.success, message: self.message@ }
    }
}

impl FileStatus {
    /// What the receiver already holds of the file.
    pub fn get_status(&self) -> (r: FileStatusEnum)
        ensures
            r == self.status,
    {
        self.status
    }
}

impl FileDescription {
    /// The same description with another packet size.
    pub fn with_packet_size(self, packet_size: u64) -> (r: Self)
        ensures
            r@ == (FileDescriptionView { packet_size, ..self@ }),
    {
        FileDescription { packet_size, ..self }
    }
}

} // verus!
