//! What the control socket promises of every command.
use crate::ctl::PingCommandView;
use crate::ctl;
use crate::iface;
use crate::number;
use crate::text;
use vstd::prelude::*;
use vstd::string::*;

verus! {

/// A command is understood exactly if it starts with `PING` and has five words. The second is the
/// destination, the third the source, the fourth the index and the fifth the payload. An index that
/// is no number is 0, and a payload that is not hexadecimal is the one byte 0xEE.
pub proof fn law_ping_command(s: Seq<char>, w: Seq<Seq<char>>)
    requires
        text::words_of(s) == w,
    ensures
        ctl::ping_command(s) is Some <==> s.len() >= 4 && s.take(4) == "PING"@ && w.len() == 5,
        ctl::ping_command(s) matches Some(c) ==> {
            &&& c.dst_addr == w[1]
            &&& c.src_addr == w[2]
            &&& iface::index_value(w[3]) matches Some(v) ==> c.ifindex == v
            &&& iface::index_value(w[3]) is None ==> c.ifindex == 0
            &&& number::unhex(w[4]) matches Some(p) ==> c.payload == p
            &&& number::unhex(w[4]) is None ==> c.payload == seq![0xEEu8]
        },
{
    reveal_strlit("PING");
}

} // verus!
