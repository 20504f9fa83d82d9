//! The durable records: transfer progress per file name, and credentials.
//! Reading and writing them in a datastore is the caller's business; these
//! types hold what the protocol decides on.
use vstd::prelude::*;

use crate::structs::Id;

verus! {

/// Progress of one file's transfer. Its packet count and packet size are
/// fixed when it is made; only the current packet moves, one at a time.
#[derive(Debug, Clone)]
pub struct DbFile {
    pub id: Id,
    pub filename: String,
    pub current_packet: u64,
    pub total_packets: u64,
    pub packet_size: u64,
    pub inserted_by_id: Id,
    /// Seconds since the Unix epoch, UTC.
    pub created_date: i64,
}

/// A bearer token and the identity it stands for.
#[derive(Debug, Clone)]
pub struct UserAuth {
    pub id: Id,
    pub token: String,
    pub notes: Option<String>,
    /// Seconds since the Unix epoch, UTC.
    pub created_date: i64,
}

impl DbFile {
    /// A record never runs past its last packet, and its packets have a size.
    pub open spec fn wf(&self) -> bool {
        &&& self.current_packet <= self.total_packets
        &&& self.packet_size > 0
        &&& self.total_packets == 0 || (self.total_packets - 1) * self.packet_size <= u64::MAX
    }

    /// Whether the record keeps its invariant; a record read back from a
    /// datastore is checked with this before use.
    pub fn is_valid(&self) -> (r: bool)
        ensures
            r == self.wf(),
    {
        if self.current_packet > self.total_packets || self.packet_size == 0 {
            return false;
        }
        if self.total_packets == 0 {
            return true;
        }
        let t = self.total_packets - 1;
        let ps = self.packet_size;
        let ok = t <= u64::MAX / ps;
        proof {
            assert(ok <==> t * ps <= u64::MAX) by (nonlinear_arith)
                requires
                    ok == (t <= u64::MAX / ps),
                    ps > 0,
            {
                if t <= u64::MAX / ps {
                    assert(t * ps <= (u64::MAX / ps) * ps);
                } else {
                    assert(t >= u64::MAX / ps + 1);
                    assert(t * ps >= (u64::MAX / ps + 1) * ps);
                }
            }
        }
        ok
    }

    /// Every packet has been stored.
    pub open spec fn is_complete(&self) -> bool {
        self.current_packet == self.total_packets
    }

    /// A fresh record, with no packet stored yet.
    pub fn new(
        id: Id,
        filename: String,
        total_packets: u64,
        packet_size: u64,
        inserted_by_id: Id,
        created_date: i64,
    ) -> (r: DbFile)
        requires
            packet_size > 0,
            total_packets == 0 || (total_packets - 1) * packet_size <= u64::MAX,
        ensures
            r.wf(),
            r.current_packet == 0,
            r.id == id,
            r.filename@ == filename@,
            r.total_packets == total_packets,
            r.packet_size == packet_size,
            r.inserted_by_id == inserted_by_id,
            r.created_date == created_date,
    {
        DbFile {
            id,
            filename,
            current_packet: 0,
            total_packets,
            packet_size,
            inserted_by_id,
            created_date,
        }
    }

    /// The index of the next packet not yet stored.
    pub fn current_packet(&self) -> (r: u64)
        ensures
            r == self.current_packet,
    {
        self.current_packet
    }

    /// The record after one more packet has been stored; every other field
    /// is kept.
    pub fn inc_current_packet(self) -> (r: Self)
        requires
            self.wf(),
            !self.is_complete(),
        ensures
            r.wf(),
            r.current_packet == self.current_packet + 1,
            r.id == self.id,
            r.filename@ == self.filename@,
            r.total_packets == self.total_packets,
            r.packet_size == self.packet_size,
            r.inserted_by_id == self.inserted_by_id,
            r.created_date == self.created_date,
    {
        DbFile { current_packet: self.current_packet + 1, ..self }
    }
}

} // verus!
