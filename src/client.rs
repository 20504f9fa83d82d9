//! The sender's decisions for one connection: whether the handshake
//! succeeded, and which packets to send after the receiver's answer.
use vstd::prelude::*;

use crate::sizing::{num_packets, packet_count};
use crate::structs::{
    AuthResponse, FileDescription, FileDescriptionResponse, FileStatusEnum,
};
use crate::text::{decimal, push_decimal};
use crate::MIN_PACKET_SIZE;

verus! {

/// The refusal, before connecting, of a packet size below the minimum.
pub open spec fn small_packet_text(packet_size: u64) -> Seq<char> {
    "packet size ("@ + decimal(packet_size as nat) + ") must be >= "@ + decimal(
        MIN_PACKET_SIZE as nat,
    )
}

/// Checks the packet size that the sender was asked to use.
pub fn check_packet_size(packet_size: u64) -> (r: Result<(), String>)
    ensures
        r is Ok <==> packet_size >= MIN_PACKET_SIZE,
        r matches Err(m) ==> m@ == small_packet_text(packet_size),
{
    if packet_size < MIN_PACKET_SIZE {
        let mut m = String::from_str("packet size (");
        push_decimal(&mut m, packet_size);
        m.append(") must be >= ");
        push_decimal(&mut m, MIN_PACKET_SIZE);
        Err(m)
    } else {
        Ok(())
    }
}

/// Reads the receiver's answer to the handshake: success, or the reason
/// it gave, prefixed for the user.
pub fn auth_outcome(resp: &AuthResponse) -> (r: Result<(), String>)
    ensures
        r is Ok <==> resp.success,
        r matches Err(m) ==> m@ == "Authentication failure: "@ + resp.failure_reason@,
{
    if resp.success {
        Ok(())
    } else {
        let mut m = String::from_str("Authentication failure: ");
        m.append(resp.failure_reason.as_str());
        Err(m)
    }
}

/// The failure when the receiver asks for a packet past the end.
pub open spec fn request_past_end_text(request: u64, count: nat) -> Seq<char> {
    "The receiver asks for packet "@ + decimal(request as nat) + " of only "@ + decimal(count)
}

/// What the sender does after the receiver answered its file description.
#[derive(Debug, Clone, PartialEq, Eq)]
pub enum SendPlan {
    /// The transfer cannot go on, for this reason.
    Failed(String),
    /// The receiver already holds the whole file: nothing is sent.
    AlreadyComplete,
    /// Send packets `from` up to `to`, exclusive, of `packet_size` bytes.
    Send { from: u64, to: u64, packet_size: u64 },
}

/// Decides which packets of `desc` to send, given the receiver's answer.
/// The packet size that the receiver reports wins over the one offered.
pub fn plan_send(desc: &FileDescription, resp: &FileDescriptionResponse) -> (r: SendPlan)
    ensures
        resp matches FileDescriptionResponse::FailMessage(m) ==> (r matches SendPlan::Failed(f)
            && f@ == m@),
        resp matches FileDescriptionResponse::Status(st) ==> {
            &&& st.packet_size == 0 ==> (r matches SendPlan::Failed(f) && f@
                == "The receiver reported no packet size"@)
            &&& st.packet_size > 0 && st.status == FileStatusEnum::Exists ==> r
                == SendPlan::AlreadyComplete
            &&& st.packet_size > 0 && st.status != FileStatusEnum::Exists ==> {
                let n = packet_count(st.packet_size as nat, desc.size as nat);
                if st.request_packet <= n {
                    r == SendPlan::Send {
                        from: st.request_packet,
                        to: n as u64,
                        packet_size: st.packet_size,
                    }
                } else {
                    (r matches SendPlan::Failed(f) && f@ == request_past_end_text(
                        st.request_packet,
                        n,
                    ))
                }
            }
        },
{
    match resp {
        FileDescriptionResponse::FailMessage(m) => SendPlan::Failed(m.clone()),
        FileDescriptionResponse::Status(st) => {
            if st.packet_size == 0 {
                return SendPlan::Failed(String::from_str("The receiver reported no packet size"));
            }
            if st.status == FileStatusEnum::Exists {
                return SendPlan::AlreadyComplete;
            }
            let n = num_packets(st.packet_size, desc.size);
            if st.request_packet <= n {
                SendPlan::Send { from: st.request_packet, to: n, packet_size: st.packet_size }
            } else {
                let mut m = String::from_str("The receiver asks for packet ");
                push_decimal(&mut m, st.request_packet);
                m.append(" of only ");
                push_decimal(&mut m, n);
                SendPlan::Failed(m)
            }
        },
    }
}

} // verus!
