//! The commands of the control socket.
use crate::iface;
use crate::number;
use crate::text;
use vstd::prelude::*;
use vstd::string::*;
use vstd::utf8::*;

pub mod laws;

verus! {

/// The command to send a ping.
pub struct PingCommand {
    pub dst_addr: String,
    pub src_addr: String,
    pub ifindex: u32,
    pub payload: Vec<u8>,
}

/// What a [`PingCommand`] holds.
#[verifier::ext_equal]
pub struct PingCommandView {
    pub dst_addr: Seq<char>,
    pub src_addr: Seq<char>,
    pub ifindex: u32,
    pub payload: Seq<u8>,
}

impl View for PingCommand {
    type V = PingCommandView;

    open spec fn view(&self) -> PingCommandView {
        PingCommandView {
            dst_addr: self.dst_addr@,
            src_addr: self.src_addr@,
            ifindex: self.ifindex,
            payload: self.payload@,
        }
    }
}

/// The command that the text `s` gives: it starts with `PING` and has five words, the last four
/// being the destination, the source, the interface index and the payload in hexadecimal. An
/// index that is no number counts as 0, and a payload that is not hexadecimal as the one byte
/// 0xEE.
pub open spec fn ping_command(s: Seq<char>) -> Option<PingCommandView> {
    let parts = text::words_of(s);
    if text::starts_with(s, "PING"@) && parts.len() == 5 {
        Some(
            PingCommandView {
                dst_addr: parts[1],
                src_addr: parts[2],
                ifindex: match iface::index_value(parts[3]) {
                    Some(v) => v as u32,
                    None => 0,
                },
                payload: match number::unhex(parts[4]) {
                    Some(p) => p,
                    None => seq![0xEEu8],
                },
            },
        )
    } else {
        None
    }
}

/// Reads a command.
pub fn parse_ping(cmd: &str) -> (res: Option<PingCommand>)
    ensures
        match res {
            Some(c) => ping_command(cmd@) == Some(c@),
            None => ping_command(cmd@) is None,
        },
{
    if !text::has_prefix(cmd, "PING") {
        return None;
    }
    let parts = text::words(cmd);
    let ghost all = text::words_of(cmd@);
    assert(all.len() == parts@.len());
    if parts.len() != 5 {
        return None;
    }
    assert forall|i: int| 0 <= i < 5 implies all[i] == (#[trigger] parts@[i])@ by {
        assert(text::views(parts@)[i] == parts@[i]@);
    }
    let ifindex: u32 = match iface::ifname_to_index(parts[3].as_str()) {
        Some(idx) => idx,
        None => 0,
    };
    let payload: Vec<u8> = match number::hex_decode(parts[4].as_str()) {
        Some(p) => p,
        None => {
            let mut p: Vec<u8> = Vec::new();
            p.push(0xEE);
            assert(p@ =~= seq![0xEEu8]);
            p
        },
    };
    Some(PingCommand { dst_addr: parts[1].clone(), src_addr: parts[2].clone(), ifindex, payload })
}

/// Reads a command out of the bytes that came in.
pub fn read_command(buf: &[u8]) -> (res: Option<PingCommand>)
    ensures
        match res {
            Some(c) => ping_command(text::lossy_text(buf@)) == Some(c@),
            None => ping_command(text::lossy_text(buf@)) is None,
        },
        valid_utf8(buf@) ==> match res {
            Some(c) => ping_command(decode_utf8(buf@)) == Some(c@),
            None => ping_command(decode_utf8(buf@)) is None,
        },
{
    let cmd = text::from_utf8_lossy(buf);
    proof {
        encode_utf8_decode_utf8(cmd@);
    }
    parse_ping(cmd.as_str())
}

} // verus!
