//! The packet pump. A file of `size` bytes travels as numbered packets of
//! `packet_size` bytes (the last may be short); the receiver takes them
//! strictly in order, writes each at its own offset, and only then counts
//! it as stored. This module models a receiver and proves that resuming,
//! and re-delivering a part that was stored but never acknowledged, leave
//! the same file as one uninterrupted transfer.
use vstd::prelude::*;

use crate::db::DbFile;
use crate::sizing::{lemma_packet_count_is_ceiling, packet_count};
use crate::structs::{FilePart, FilePartResponse, FilePartView};
use crate::text::{decimal, push_decimal};

verus! {

/// The file `f` after `d` is written at offset `off`; a write past the end
/// grows the file, and a gap before it reads as zeros.
pub open spec fn write_at(f: Seq<u8>, off: nat, d: Seq<u8>) -> Seq<u8> {
    let len = if off + d.len() > f.len() {
        off + d.len()
    } else {
        f.len()
    };
    Seq::new(
        len,
        |j: int|
            if off <= j < off + d.len() {
                d[j - off]
            } else if j < f.len() {
                f[j]
            } else {
                0u8
            },
    )
}

/// Where packet `i` of a file of `size` bytes ends.
pub open spec fn packet_end(size: nat, packet_size: nat, i: nat) -> nat {
    if (i + 1) * packet_size <= size {
        (i + 1) * packet_size
    } else {
        size
    }
}

/// The bytes of packet `i` of `src`.
pub open spec fn packet_bytes(src: Seq<u8>, packet_size: nat, i: nat) -> Seq<u8> {
    src.subrange((i * packet_size) as int, packet_end(src.len(), packet_size, i) as int)
}

/// The part that a sender sends as packet `i` of `src`.
pub open spec fn sent_part(src: Seq<u8>, packet_size: nat, i: nat) -> FilePartView {
    FilePartView { part_num: i as u64, data: packet_bytes(src, packet_size, i) }
}

/// What a receiver holds: the file's bytes and its progress record.
pub struct Receiver {
    pub file: Seq<u8>,
    pub current: nat,
    pub total: nat,
    pub packet_size: nat,
}

/// A receiver at packet `current` of `total` takes only the part numbered
/// `current`, and only if it fits in a packet.
pub open spec fn part_accepted(current: nat, total: nat, packet_size: nat, part: FilePartView) -> bool {
    &&& current < total
    &&& part.part_num == current
    &&& part.data.len() <= packet_size
}

/// One receive: an accepted part is written at its offset and then counted;
/// any other part closes the connection (`None`) with nothing written.
pub open spec fn receive(m: Receiver, part: FilePartView) -> Option<Receiver> {
    if part_accepted(m.current, m.total, m.packet_size, part) {
        Some(
            Receiver {
                file: write_at(m.file, part.part_num as nat * m.packet_size, part.data),
                current: m.current + 1,
                ..m
            },
        )
    } else {
        None
    }
}

/// The receiver after a sender delivers every packet of `src` from the
/// receiver's resume point to the end.
pub open spec fn complete(m: Receiver, src: Seq<u8>) -> Option<Receiver>
    decreases m.total - m.current,
{
    if m.current >= m.total {
        Some(m)
    } else {
        match receive(m, sent_part(src, m.packet_size, m.current)) {
            None => None,
            Some(n) => complete(n, src),
        }
    }
}

/// The first `n` bytes of `f` are those of `src`.
pub open spec fn holds_prefix(f: Seq<u8>, src: Seq<u8>, n: nat) -> bool {
    forall|j: int| 0 <= j < n && j < src.len() ==> f[j] == src[j]
}

/// A receiver set up for `src`: the file pre-sized to it, the packet count
/// derived from it, and every packet before the resume point stored.
pub open spec fn ready_for(m: Receiver, src: Seq<u8>) -> bool {
    &&& m.packet_size > 0
    &&& src.len() <= u64::MAX
    &&& m.total == packet_count(m.packet_size, src.len())
    &&& m.current <= m.total
    &&& m.file.len() == src.len()
    &&& holds_prefix(m.file, src, m.current * m.packet_size)
}

proof fn lemma_packet_in_file(size: nat, packet_size: nat, i: nat)
    requires
        packet_size > 0,
        i < packet_count(packet_size, size),
    ensures
        i * packet_size < size,
        i * packet_size <= packet_end(size, packet_size, i) <= size,
        packet_end(size, packet_size, i) - i * packet_size <= packet_size,
        (i + 1) * packet_size == i * packet_size + packet_size,
        packet_end(size, packet_size, i) == size || packet_end(size, packet_size, i) == (i + 1)
            * packet_size,
{
    lemma_packet_count_is_ceiling(packet_size, size);
    let t = packet_count(packet_size, size);
    assert(i * packet_size <= (t - 1) * packet_size) by (nonlinear_arith)
        requires
            i <= t - 1,
            packet_size > 0,
    ;
    assert((i + 1) * packet_size == i * packet_size + packet_size) by (nonlinear_arith);
}

/// From any resume point, delivering the remaining packets leaves the
/// receiver holding exactly `src`, with every packet counted.
pub proof fn lemma_complete_yields_source(m: Receiver, src: Seq<u8>)
    requires
        ready_for(m, src),
    ensures
        complete(m, src) == Some(
            Receiver { file: src, current: m.total, total: m.total, packet_size: m.packet_size },
        ),
    decreases m.total - m.current,
{
    let ps = m.packet_size;
    if m.current >= m.total {
        lemma_packet_count_is_ceiling(ps, src.len());
        assert(m.file =~= src);
    } else {
        let i = m.current;
        lemma_packet_in_file(src.len(), ps, i);
        lemma_packet_count_is_ceiling(ps, src.len());
        assert(i < u64::MAX) by (nonlinear_arith)
            requires
                i * ps < src.len(),
                src.len() <= u64::MAX,
                ps > 0,
        ;
        let part = sent_part(src, ps, i);
        let n = Receiver { file: write_at(m.file, i * ps, part.data), current: i + 1, ..m };
        assert(receive(m, part) == Some(n));
        assert(n.file.len() == src.len());
        assert(holds_prefix(n.file, src, n.current * ps));
        lemma_complete_yields_source(n, src);
    }
}

/// Resuming at any packet `k` that the receiver durably holds, and
/// completing, leaves the same file as sending the whole file from packet
/// zero: both hold exactly the source.
pub proof fn lemma_resume_matches_uninterrupted(fresh: Receiver, resumed: Receiver, src: Seq<u8>)
    requires
        ready_for(fresh, src),
        fresh.current == 0,
        ready_for(resumed, src),
        resumed.packet_size == fresh.packet_size,
    ensures
        complete(resumed, src) == complete(fresh, src),
        complete(fresh, src) matches Some(done) && done.file == src,
{
    lemma_complete_yields_source(fresh, src);
    lemma_complete_yields_source(resumed, src);
}

/// Writing the same bytes at the same offset twice is writing them once.
pub proof fn lemma_write_at_idempotent(f: Seq<u8>, off: nat, d: Seq<u8>)
    ensures
        write_at(write_at(f, off, d), off, d) == write_at(f, off, d),
{
    assert(write_at(write_at(f, off, d), off, d) =~= write_at(f, off, d));
}

/// A part that was written but not yet counted when the receiver stopped,
/// and is sent again after it restarts, leaves the file and the progress
/// as one delivery does.
pub proof fn lemma_redelivery_is_idempotent(m: Receiver, part: FilePartView)
    requires
        part_accepted(m.current, m.total, m.packet_size, part),
    ensures
        receive(
            Receiver { file: write_at(m.file, part.part_num as nat * m.packet_size, part.data), ..m },
            part,
        ) == receive(m, part),
{
    lemma_write_at_idempotent(m.file, part.part_num as nat * m.packet_size, part.data);
}

/// A part out of sequence is never taken: the connection closes and the
/// file is not written.
pub proof fn lemma_out_of_order_rejected(m: Receiver, part: FilePartView)
    requires
        part.part_num != m.current,
    ensures
        receive(m, part) is None,
{
}

/// The receiver that a progress record and the file's bytes make up.
pub open spec fn receiver_of(record: DbFile, file: Seq<u8>) -> Receiver {
    Receiver {
        file,
        current: record.current_packet as nat,
        total: record.total_packets as nat,
        packet_size: record.packet_size as nat,
    }
}

/// Why a receiver at `current` of `total` refuses `part`.
pub open spec fn refusal_text(current: nat, total: nat, packet_size: nat, part: FilePartView) -> Seq<
    char,
> {
    if part.part_num != current {
        "Part Num: "@ + decimal(part.part_num as nat) + " != Expected Num: "@ + decimal(current)
    } else if current >= total {
        "No part expected after the last one"@
    } else {
        "Packet too large ("@ + decimal(part.data.len()) + " > "@ + decimal(packet_size) + ")"@
    }
}

/// Decides what a receiver with progress `record` does with `part`: the
/// file offset to write its data at, or the failure to send back before
/// closing the connection.
pub fn receive_part(record: &DbFile, part: &FilePart) -> (r: Result<u64, FilePartResponse>)
    requires
        record.wf(),
    ensures
        r is Ok <==> part_accepted(
            record.current_packet as nat,
            record.total_packets as nat,
            record.packet_size as nat,
            part@,
        ),
        r matches Ok(off) ==> off == part.part_num * record.packet_size,
        forall|f: Seq<u8>|
            #[trigger] receive(receiver_of(*record, f), part@) == match r {
                Ok(off) => Some(
                    Receiver {
                        file: write_at(f, off as nat, part.data@),
                        current: (record.current_packet + 1) as nat,
                        total: record.total_packets as nat,
                        packet_size: record.packet_size as nat,
                    },
                ),
                Err(_) => None,
            },
        r matches Err(resp) ==> !resp.success && resp.message@ == refusal_text(
            record.current_packet as nat,
            record.total_packets as nat,
            record.packet_size as nat,
            part@,
        ),
{
    let current = record.current_packet;
    if part.part_num != current {
        let mut message = String::from_str("Part Num: ");
        push_decimal(&mut message, part.part_num);
        message.append(" != Expected Num: ");
        push_decimal(&mut message, current);
        return Err(FilePartResponse { success: false, message });
    }
    if current >= record.total_packets {
        let message = String::from_str("No part expected after the last one");
        return Err(FilePartResponse { success: false, message });
    }
    let len = part.data.len() as u64;
    if len > record.packet_size {
        let mut message = String::from_str("Packet too large (");
        push_decimal(&mut message, len);
        message.append(" > ");
        push_decimal(&mut message, record.packet_size);
        message.append(")");
        return Err(FilePartResponse { success: false, message });
    }
    proof {
        let t = record.total_packets as nat;
        let ps = record.packet_size as nat;
        assert(current * ps <= (t - 1) * ps) by (nonlinear_arith)
            requires
                current <= t - 1,
        ;
    }
    Ok(current * record.packet_size)
}

/// After the data of the current part is written: the record with that
/// part counted, and the acknowledgement to send once the record is
/// durable.
pub fn part_written(record: DbFile) -> (r: (DbFile, FilePartResponse))
    requires
        record.wf(),
        !record.is_complete(),
    ensures
        r.0.wf(),
        r.0.current_packet == record.current_packet + 1,
        r.0.id == record.id,
        r.0.filename@ == record.filename@,
        r.0.total_packets == record.total_packets,
        r.0.packet_size == record.packet_size,
        r.0.inserted_by_id == record.inserted_by_id,
        r.0.created_date == record.created_date,
        r.1.success,
        r.1.message@.len() == 0,
{
    (record.inc_current_packet(), FilePartResponse { success: true, message: String::new() })
}

/// Where packet `i` of a file of `file_size` bytes starts, and how many
/// bytes it has.
pub fn packet_range(packet_size: u64, file_size: u64, i: u64) -> (r: (u64, u64))
    requires
        packet_size > 0,
        i < packet_count(packet_size as nat, file_size as nat),
    ensures
        r.0 == i * packet_size,
        r.0 + r.1 == packet_end(file_size as nat, packet_size as nat, i as nat),
{
    proof {
        lemma_packet_in_file(file_size as nat, packet_size as nat, i as nat);
    }
    let start = i * packet_size;
    let rest = file_size - start;
    let len = if rest < packet_size {
        rest
    } else {
        packet_size
    };
    (start, len)
}

/// Writes `data` into the in-memory file `file` at `off`, as a positional
/// write does: a gap before it reads as zeros.
pub fn write_into(file: &mut Vec<u8>, off: usize, data: &[u8])
    requires
        off + data@.len() <= usize::MAX,
    ensures
        final(file)@ == write_at(old(file)@, off as nat, data@),
{
    let ghost old_file = file@;
    while file.len() < off
        invariant
            off + data@.len() <= usize::MAX,
            file@.len() >= old_file.len(),
            file@.len() <= off || file@.len() == old_file.len(),
            forall|j: int| 0 <= j < old_file.len() ==> file@[j] == old_file[j],
            forall|j: int| old_file.len() <= j < file@.len() ==> file@[j] == 0u8,
        decreases off - file@.len(),
    {
        file.push(0u8);
    }
    let ghost padded = file@;
    assert(write_at(padded, off as nat, data@.take(0)) =~= padded);
    let mut j: usize = 0;
    while j < data.len()
        invariant
            off + data@.len() <= usize::MAX,
            padded.len() >= off,
            j <= data@.len(),
            file@ =~= write_at(padded, off as nat, data@.take(j as int)),
        decreases data@.len() - j,
    {
        let ghost before = file@;
        if off + j < file.len() {
            file.set(off + j, data[j]);
        } else {
            file.push(data[j]);
        }
        proof {
            let t1 = data@.take(j + 1);
            assert(file@ =~= write_at(padded, off as nat, t1)) by {
                assert forall|k: int| 0 <= k < file@.len() implies file@[k] == write_at(
                    padded,
                    off as nat,
                    t1,
                )[k] by {
                    if off <= k < off + j {
                        assert(t1[k - off] == data@.take(j as int)[k - off]);
                    }
                }
            }
        }
        j = j + 1;
    }
    proof {
        assert(data@.take(data@.len() as int) =~= data@);
        assert(final(file)@ =~= write_at(old_file, off as nat, data@));
    }
}


/// The receiver after it takes `parts` in turn, up to the first one it
/// refuses (which closes the connection), and how many it took.
pub open spec fn receive_each(m: Receiver, parts: Seq<FilePartView>) -> (Receiver, nat)
    decreases parts.len(),
{
    if parts.len() == 0 {
        (m, 0)
    } else {
        match receive(m, parts[0]) {
            None => (m, 0),
            Some(n) => {
                let (last, taken) = receive_each(n, parts.skip(1));
                (last, taken + 1)
            },
        }
    }
}

/// The parts that a sender sends of `src`, from packet `from` to `to`.
pub open spec fn sent_parts(src: Seq<u8>, packet_size: nat, from: nat, to: nat) -> Seq<
    FilePartView,
> {
    Seq::new((to - from) as nat, |i: int| sent_part(src, packet_size, (from + i) as nat))
}

proof fn lemma_step_ready(m: Receiver, src: Seq<u8>)
    requires
        ready_for(m, src),
        m.current < m.total,
    ensures
        receive(m, sent_part(src, m.packet_size, m.current)) matches Some(n) && ready_for(n, src)
            && n.current == m.current + 1 && n.total == m.total && n.packet_size == m.packet_size,
{
    let ps = m.packet_size;
    let i = m.current;
    lemma_packet_in_file(src.len(), ps, i);
    lemma_packet_count_is_ceiling(ps, src.len());
    assert(i < u64::MAX) by (nonlinear_arith)
        requires
            i * ps < src.len(),
            src.len() <= u64::MAX,
            ps > 0,
    ;
    let part = sent_part(src, ps, i);
    let n = Receiver { file: write_at(m.file, i * ps, part.data), current: i + 1, ..m };
    assert(receive(m, part) == Some(n));
    assert(n.file.len() == src.len());
    assert(holds_prefix(n.file, src, n.current * ps));
}

/// A receiver ready for `src` that is sent every remaining packet takes
/// them all and then holds exactly `src`, every packet counted.
pub proof fn lemma_receive_remaining(m: Receiver, src: Seq<u8>)
    requires
        ready_for(m, src),
    ensures
        receive_each(m, sent_parts(src, m.packet_size, m.current, m.total)) == (
            Receiver { file: src, current: m.total, total: m.total, packet_size: m.packet_size },
            (m.total - m.current) as nat,
        ),
    decreases m.total - m.current,
{
    let parts = sent_parts(src, m.packet_size, m.current, m.total);
    if m.current >= m.total {
        lemma_packet_count_is_ceiling(m.packet_size, src.len());
        assert(m.file =~= src);
    } else {
        lemma_step_ready(m, src);
        let n = receive(m, sent_part(src, m.packet_size, m.current))->Some_0;
        assert(parts[0] == sent_part(src, m.packet_size, m.current));
        assert(parts.skip(1) =~= sent_parts(src, m.packet_size, n.current, n.total));
        lemma_receive_remaining(n, src);
    }
}

/// The abstract values of `parts`.
pub open spec fn part_views(parts: Seq<FilePart>) -> Seq<FilePartView> {
    parts.map_values(|p: FilePart| p@)
}

/// The packet pump over an in-memory file: takes `parts` in order into
/// `file` and the progress record, and gives the record after them and
/// the response to each part it read, the last a refusal where one came.
pub fn receive_into(record: DbFile, file: &mut Vec<u8>, parts: &Vec<FilePart>) -> (r: (
    DbFile,
    Vec<FilePartResponse>,
))
    requires
        record.wf(),
        record.total_packets * record.packet_size <= usize::MAX,
    ensures
        ({
            let (done, taken) = receive_each(
                receiver_of(record, old(file)@),
                part_views(parts@),
            );
            &&& final(file)@ == done.file
            &&& r.0.wf()
            &&& r.0.id == record.id
            &&& r.0.total_packets == record.total_packets
            &&& r.0.packet_size == record.packet_size
            &&& r.0.current_packet == done.current
            &&& r.1@.len() == (if taken < parts@.len() {
                taken + 1
            } else {
                taken
            })
            &&& forall|i: int| 0 <= i < r.1@.len() ==> (#[trigger] r.1@[i].success <==> i < taken)
        }),
{
    let ghost views = part_views(parts@);
    let ghost start = receiver_of(record, file@);
    let ghost id = record.id;
    let ghost total = record.total_packets;
    let ghost ps = record.packet_size;
    let mut record = record;
    let mut responses: Vec<FilePartResponse> = Vec::new();
    let mut i: usize = 0;
    let mut refused = false;
    assert(views.skip(0) =~= views);
    while i < parts.len() && !refused
        invariant
            record.wf(),
            record.id == id,
            record.total_packets == total,
            record.packet_size == ps,
            total * ps <= usize::MAX,
            i <= parts@.len(),
            views == part_views(parts@),
            refused ==> i < parts@.len() && responses@.len() == i + 1,
            !refused ==> responses@.len() == i,
            forall|k: int| 0 <= k < responses@.len() ==> ((#[trigger] responses@[k]).success <==> k < i),
            refused ==> receive_each(start, views) == (receiver_of(record, file@), i as nat),
            !refused ==> receive_each(start, views) == ({
                let (done, taken) = receive_each(receiver_of(record, file@), views.skip(i as int));
                (done, (taken + i) as nat)
            }),
        decreases parts@.len() - i, if refused { 0int } else { 1int },
    {
        let part = &parts[i];
        let ghost cur = receiver_of(record, file@);
        proof {
            assert(views.skip(i as int)[0] == part@);
            assert(views.skip(i as int).skip(1) =~= views.skip(i + 1));
        }
        match receive_part(&record, part) {
            Err(refusal) => {
                assert(receive(cur, part@) is None);
                assert(receive_each(cur, views.skip(i as int)) == (cur, 0nat));
                responses.push(refusal);
                refused = true;
            },
            Ok(off) => {
                proof {
                    let c = record.current_packet as nat;
                    assert(off + part.data@.len() <= total * ps) by (nonlinear_arith)
                        requires
                            off == c * ps,
                            c + 1 <= total,
                            part.data@.len() <= ps,
                    ;
                }
                write_into(file, off as usize, part.data.as_slice());
                let (next, ack) = part_written(record);
                record = next;
                responses.push(ack);
                proof {
                    assert(receive(cur, part@) == Some(receiver_of(record, file@)));
                }
                i = i + 1;
            },
        }
    }
    proof {
        if !refused {
            assert(views.skip(i as int) =~= Seq::<FilePartView>::empty());
        }
    }
    (record, responses)
}

} // verus!
