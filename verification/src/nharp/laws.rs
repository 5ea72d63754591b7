//! What NHARP packets promise: where their fields stand and what their operations are.
use crate::bytes;
use crate::nharp::packet::NharpPacket;
use crate::nharp::packet;
use crate::nharp::Operation;
use crate::nharp;
use vstd::prelude::*;

verus! {

/// The fields of a packet stand in this order: the operation, the NodeID of the target, that of the
/// sender, and the hardware address of the sender.
pub proof fn law_packet_layout(p: NharpPacket)
    ensures
        ({
            let s = packet::packet_bytes(p);
            &&& s.len() == 15
            &&& s[0] == p.oper
            &&& s.subrange(1, 5) == bytes::native_bytes(p.target_node_id as nat, 4)
            &&& s.subrange(5, 9) == bytes::native_bytes(p.source_node_id as nat, 4)
            &&& s.subrange(9, 15) == p.source_mac@
        }),
{
    let s = packet::packet_bytes(p);
    packet::law_packet_round_trip(p, p);
    bytes::lemma_machine_round_trip(0, p.target_node_id, 0);
    bytes::lemma_machine_round_trip(0, p.source_node_id, 0);
    assert(s.subrange(1, 5) =~= bytes::native_bytes(p.target_node_id as nat, 4));
    assert(s.subrange(5, 9) =~= bytes::native_bytes(p.source_node_id as nat, 4));
    assert(s.subrange(9, 15) =~= p.source_mac@);
}

/// A request is operation 1 and a reply operation 2.
pub proof fn law_operations(op: Operation)
    ensures
        nharp::operation_code(op) == 1 <==> op == Operation::Request,
        nharp::operation_code(op) == 2 <==> op == Operation::Reply,
{
}

} // verus!
