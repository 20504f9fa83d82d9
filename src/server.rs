//! The receiver's decisions for one connection: the handshake and the
//! transfer plan. Reading, writing and the datastore stay with the caller,
//! which performs what these functions decide.
use vstd::prelude::*;

use crate::db::{DbFile, UserAuth};
use crate::sizing::{lemma_packet_count_is_ceiling, num_packets, packet_count};
use crate::structs::{AuthResponse, FileDescription, FileStatus, FileStatusEnum, Id, Version};
use crate::text::{decimal, push_decimal};
use crate::version::{compare_versions, compatible, version_text, VersionCompatibility};
use crate::MIN_PACKET_SIZE;

verus! {

/// The refusal sent to a sender whose version this receiver cannot serve.
pub open spec fn version_refusal(server: Version, client: Version) -> Seq<char> {
    "Failed to authenticate: Client version ("@ + version_text(client)
        + ") is not compatible with server version ("@ + version_text(server) + ")"@
}

/// Checks the sender's version: `None` to go on, or the failed
/// `AuthResponse` to send before closing the connection.
pub fn version_gate(server_version: &Version, client_version: &Version) -> (r: Option<
    AuthResponse,
>)
    ensures
        r is None <==> compatible(*server_version, *client_version),
        r matches Some(resp) ==> !resp.success && resp.failure_reason@ == version_refusal(
            *server_version,
            *client_version,
        ),
{
    match compare_versions(server_version, client_version) {
        VersionCompatibility::Compatible => None,
        VersionCompatibility::Incompatible => {
            let mut m = String::from_str("Failed to authenticate: Client version (");
            m.append(client_version.to_string().as_str());
            m.append(") is not compatible with server version (");
            m.append(server_version.to_string().as_str());
            m.append(")");
            Some(AuthResponse { success: false, failure_reason: m })
        },
    }
}

/// Settles the token check from the credential that the token resolved
/// to, if any: the response to send, and the owner identity to attribute
/// new transfers to, present exactly when the token was found.
pub fn token_gate(found: Option<&UserAuth>) -> (r: (AuthResponse, Option<Id>))
    ensures
        r.0.success <==> found is Some,
        found matches Some(u) ==> r.1 == Some(u.id) && r.0.failure_reason@.len() == 0,
        found is None ==> r.1 is None && r.0.failure_reason@ == "Invalid Token/Token Not Found"@,
{
    match found {
        Some(u) => (AuthResponse { success: true, failure_reason: String::new() }, Some(u.id)),
        None => (
            AuthResponse {
                success: false,
                failure_reason: String::from_str("Invalid Token/Token Not Found"),
            },
            None,
        ),
    }
}

/// A transfer about to be recorded for the first time.
#[derive(Debug, Clone)]
pub struct NewTransfer {
    pub filename: String,
    pub size: u64,
    pub total_packets: u64,
    pub packet_size: u64,
}

impl NewTransfer {
    /// Its packets have a size, and just cover the file.
    pub open spec fn wf(&self) -> bool {
        &&& self.packet_size > 0
        &&& self.total_packets == packet_count(self.packet_size as nat, self.size as nat)
    }

    /// Offset of the one byte written to pre-size the file, so that later
    /// positional writes never grow it; an empty file needs none.
    pub fn last_byte(&self) -> (r: Option<u64>)
        ensures
            r == (if self.size == 0 {
                None
            } else {
                Some((self.size - 1) as u64)
            }),
    {
        if self.size == 0 {
            None
        } else {
            Some(self.size - 1)
        }
    }

    /// The record for this transfer once the datastore has given it the
    /// identity `id`, and the status to report: nothing stored yet.
    pub fn record(&self, id: Id, inserted_by_id: Id, created_date: i64) -> (r: (DbFile, FileStatus))
        requires
            self.wf(),
        ensures
            r.0.wf(),
            r.0.id == id,
            r.0.filename@ == self.filename@,
            r.0.current_packet == 0,
            r.0.total_packets == self.total_packets,
            r.0.packet_size == self.packet_size,
            r.0.inserted_by_id == inserted_by_id,
            r.0.created_date == created_date,
            r.1 == (FileStatus {
                id,
                status: FileStatusEnum::Nonexistent,
                request_packet: 0,
                packet_size: self.packet_size,
                total_packets: self.total_packets,
            }),
    {
        proof {
            lemma_packet_count_is_ceiling(self.packet_size as nat, self.size as nat);
        }
        let rec = DbFile::new(
            id,
            self.filename.clone(),
            self.total_packets,
            self.packet_size,
            inserted_by_id,
            created_date,
        );
        let status = FileStatus {
            id,
            status: FileStatusEnum::Nonexistent,
            request_packet: 0,
            packet_size: self.packet_size,
            total_packets: self.total_packets,
        };
        (rec, status)
    }
}

/// What the receiver does with an offered file.
#[derive(Debug)]
pub enum Plan {
    /// Refuse it with this message and close the connection.
    Reject(String),
    /// A record exists: open its file (re-creating it if it is gone),
    /// move to `seek`, the resume point's offset (absent only where that
    /// offset is beyond what a `u64` holds, which leaves no packet to
    /// receive), and report `status`.
    Open { record: DbFile, status: FileStatus, seek: Option<u64> },
    /// No record exists: record this transfer and create its file.
    Create(NewTransfer),
}

/// The status that a stored record reports; the record's packet size and
/// count win over whatever the sender asked for.
pub open spec fn status_of(rec: DbFile) -> FileStatus {
    FileStatus {
        id: rec.id,
        status: if rec.current_packet == rec.total_packets {
            FileStatusEnum::Exists
        } else {
            FileStatusEnum::Resumeable
        },
        request_packet: rec.current_packet,
        packet_size: rec.packet_size,
        total_packets: rec.total_packets,
    }
}

/// The refusal of a packet size below the minimum.
pub open spec fn packet_size_refusal(packet_size: u64) -> Seq<char> {
    "Invalid Packet Size: Packet Size ("@ + decimal(packet_size as nat) + ") must be >= "@
        + decimal(MIN_PACKET_SIZE as nat)
}

/// Plans the transfer of the offered file `desc`, given the record found
/// under its name.
pub fn plan_transfer(desc: &FileDescription, existing: Option<DbFile>) -> (r: Plan)
    requires
        existing matches Some(rec) ==> rec.wf(),
    ensures
        desc.packet_size < MIN_PACKET_SIZE ==> (r matches Plan::Reject(m) && m@
            == packet_size_refusal(desc.packet_size)),
        desc.packet_size >= MIN_PACKET_SIZE && existing is Some ==> (r matches Plan::Open {
            record,
            status,
            seek,
        } && {
            let old_rec = existing->Some_0;
            &&& record == old_rec
            &&& status == status_of(old_rec)
            &&& seek == (if old_rec.current_packet * old_rec.packet_size <= u64::MAX {
                Some((old_rec.current_packet * old_rec.packet_size) as u64)
            } else {
                None
            })
            &&& !old_rec.is_complete() ==> seek is Some
        }),
        desc.packet_size >= MIN_PACKET_SIZE && existing is None ==> (r matches Plan::Create(n) && {
            &&& n.wf()
            &&& n.filename@ == desc.name@
            &&& n.size == desc.size
            &&& n.packet_size == desc.packet_size
        }),
{
    if desc.packet_size < MIN_PACKET_SIZE {
        let mut m = String::from_str("Invalid Packet Size: Packet Size (");
        push_decimal(&mut m, desc.packet_size);
        m.append(") must be >= ");
        push_decimal(&mut m, MIN_PACKET_SIZE);
        return Plan::Reject(m);
    }
    match existing {
        Some(rec) => {
            let complete = rec.current_packet == rec.total_packets;
            let status = FileStatus {
                id: rec.id,
                status: if complete {
                    FileStatusEnum::Exists
                } else {
                    FileStatusEnum::Resumeable
                },
                request_packet: rec.current_packet,
                packet_size: rec.packet_size,
                total_packets: rec.total_packets,
            };
            let seek = rec.current_packet.checked_mul(rec.packet_size);
            proof {
                if !complete {
                    let t = rec.total_packets as nat;
                    let c = rec.current_packet as nat;
                    let ps = rec.packet_size as nat;
                    assert(c * ps <= (t - 1) * ps) by (nonlinear_arith)
                        requires
                            c <= t - 1,
                    ;
                }
            }
            Plan::Open { record: rec, status, seek }
        },
        None => {
            let total_packets = num_packets(desc.packet_size, desc.size);
            Plan::Create(
                NewTransfer {
                    filename: desc.name.clone(),
                    size: desc.size,
                    total_packets,
                    packet_size: desc.packet_size,
                },
            )
        },
    }
}

/// The file names that sessions are transferring right now. A session
/// claims its file's name before it plans and releases it when it ends, so
/// two sessions never write one file at the same time.
#[derive(Debug)]
pub struct ActiveTransfers {
    names: Vec<String>,
}

impl ActiveTransfers {
    /// Whether a session holds the name `n`.
    pub closed spec fn holds(&self, n: Seq<char>) -> bool {
        exists|i: int| 0 <= i < self.names@.len() && #[trigger] self.names@[i]@ == n
    }

    /// No name is held twice.
    pub closed spec fn wf(&self) -> bool {
        forall|i: int, j: int|
            0 <= i < j < self.names@.len() ==> #[trigger] self.names@[i]@ != #[trigger] self.names@[j]@
    }

    /// No name held.
    pub fn new() -> (r: ActiveTransfers)
        ensures
            r.wf(),
            forall|n: Seq<char>| !r.holds(n),
    {
        ActiveTransfers { names: Vec::new() }
    }

    fn position(&self, name: &String) -> (r: Option<usize>)
        ensures
            r matches Some(i) ==> i < self.names@.len() && self.names@[i as int]@ == name@,
            r is None ==> !self.holds(name@),
    {
        let mut i: usize = 0;
        while i < self.names.len()
            invariant
                i <= self.names@.len(),
                forall|k: int| 0 <= k < i ==> self.names@[k]@ != name@,
            decreases self.names@.len() - i,
        {
            if self.names[i] == *name {
                return Some(i);
            }
            i = i + 1;
        }
        None
    }

    /// Claims `name` for the calling session: `true` exactly when no other
    /// session held it. The name is held afterwards either way.
    pub fn try_claim(&mut self, name: &str) -> (r: bool)
        requires
            old(self).wf(),
        ensures
            final(self).wf(),
            r == !old(self).holds(name@),
            forall|n: Seq<char>| final(self).holds(n) <==> (old(self).holds(n) || n == name@),
    {
        let name = String::from_str(name);
        match self.position(&name) {
            Some(_) => false,
            None => {
                let ghost before = self.names@;
                self.names.push(name);
                proof {
                    let after = self.names@;
                    assert(after[before.len() as int] == name);
                    assert forall|n: Seq<char>| #[trigger] self.holds(n) <==> (exists|i: int|
                        0 <= i < before.len() && before[i]@ == n) || n == name@ by {
                        if self.holds(n) {
                            let i = choose|i: int| 0 <= i < after.len() && #[trigger] after[i]@ == n;
                            if i < before.len() {
                                assert(before[i] == after[i]);
                            }
                        }
                        if exists|i: int| 0 <= i < before.len() && before[i]@ == n {
                            let i = choose|i: int| 0 <= i < before.len() && before[i]@ == n;
                            assert(after[i] == before[i]);
                        }
                    }
                }
                true
            },
        }
    }

    /// Gives `name` up; no session holds it afterwards.
    pub fn release(&mut self, name: &str)
        requires
            old(self).wf(),
        ensures
            final(self).wf(),
            forall|n: Seq<char>| final(self).holds(n) <==> (old(self).holds(n) && n != name@),
    {
        let name = String::from_str(name);
        match self.position(&name) {
            None => {},
            Some(i) => {
                let ghost before = self.names@;
                self.names.remove(i);
                proof {
                    let after = self.names@;
                    assert forall|n: Seq<char>| #[trigger] self.holds(n) <==> ((exists|k: int|
                        0 <= k < before.len() && before[k]@ == n) && n != name@) by {
                        if self.holds(n) {
                            let k = choose|k: int| 0 <= k < after.len() && #[trigger] after[k]@ == n;
                            if k < i {
                                assert(after[k] == before[k]);
                            } else {
                                assert(after[k] == before[k + 1]);
                            }
                        }
                        if (exists|k: int| 0 <= k < before.len() && before[k]@ == n) && n != name@ {
                            let k = choose|k: int| 0 <= k < before.len() && before[k]@ == n;
                            if k < i {
                                assert(after[k] == before[k]);
                            } else {
                                assert(k != i);
                                assert(after[k - 1] == before[k]);
                            }
                        }
                    }
                }
            },
        }
    }
}

} // verus!
