//! The ping tool: the command that it sends, the answers that it accepts and what it counts.
use crate::cfg::{expand_tilde, find_entry, AddressEntry, AddressView, TildeErr};
use crate::cfg;
use crate::ctl;
use crate::daemon;
use crate::forward;
use crate::iface;
use crate::number;
use crate::text;
use vstd::prelude::*;
use vstd::string::*;

pub mod laws;

verus! {

/// Why there is no source address.
#[derive(Debug, Clone, Copy, PartialEq, Eq, Structural)]
pub enum SourceErr {
    /// The interface is not configured.
    NotConfigured,
    /// The interface has no address.
    NoAddress,
    /// The interface has more than one address, and no source was given.
    ManyAddresses,
    /// No interface was given, and more than one is configured.
    ManyInterfaces,
    /// No interface was given, and none is configured.
    NoInterface,
    /// No interface was given, and the only one has more than one address.
    OnlyManyAddresses,
    /// No interface was given, and the only one has no address.
    OnlyNoAddress,
    /// The address has a tilde that could not be expanded.
    Tilde(TildeErr),
}

/// The interface and address that `address` on `ifname` gives.
pub open spec fn source_at(ifname: Seq<char>, address: Seq<char>, config: Seq<AddressView>) -> Result<
    (Seq<char>, Seq<char>),
    SourceErr,
> {
    match cfg::expanded(address, ifname, config) {
        Ok(a) => Ok((ifname, a)),
        Err(e) => Err(SourceErr::Tilde(e)),
    }
}

/// The interface and source address of a ping: the first address of the interface `dev`, or of
/// the only one where none is given. More than one address is accepted only if an interface
/// and a source were given.
pub open spec fn source_of(
    dev: Option<Seq<char>>,
    src_given: bool,
    config: Seq<AddressView>,
) -> Result<(Seq<char>, Seq<char>), SourceErr> {
    match dev {
        Some(dev) => {
            let p = cfg::entry_pos(config, dev);
            if p >= config.len() {
                Err(SourceErr::NotConfigured)
            } else if config[p].addresses.len() > 1 && !src_given {
                Err(SourceErr::ManyAddresses)
            } else if config[p].addresses.len() == 0 {
                Err(SourceErr::NoAddress)
            } else {
                source_at(dev, config[p].addresses[0], config)
            }
        },
        None => if config.len() > 1 {
            Err(SourceErr::ManyInterfaces)
        } else if config.len() == 0 {
            Err(SourceErr::NoInterface)
        } else if config[0].addresses.len() > 1 {
            Err(SourceErr::OnlyManyAddresses)
        } else if config[0].addresses.len() == 0 {
            Err(SourceErr::OnlyNoAddress)
        } else {
            source_at(config[0].ifname, config[0].addresses[0], config)
        },
    }
}

fn expand_source(ifname: &str, address: &str, config: &[AddressEntry]) -> (res: Result<
    (String, String),
    SourceErr,
>)
    ensures
        match res {
            Ok(v) => source_at(ifname@, address@, cfg::address_table(config@)) == Ok::<
                (Seq<char>, Seq<char>),
                SourceErr,
            >((v.0@, v.1@)),
            Err(e) => source_at(ifname@, address@, cfg::address_table(config@)) == Err::<
                (Seq<char>, Seq<char>),
                SourceErr,
            >(e),
        },
{
    match expand_tilde(address, ifname, config) {
        Ok(a) => Ok((ifname.to_owned(), a)),
        Err(e) => Err(SourceErr::Tilde(e)),
    }
}

/// Finds the interface and source address of a ping.
///
/// * `dev` - the interface, if one was given
/// * `src` - the source address, if one was given
/// * `config` - the configured addresses
pub fn resolve_src(dev: Option<&str>, src: Option<&str>, config: &[AddressEntry]) -> (res: Result<
    (String, String),
    SourceErr,
>)
    ensures
        ({
            let given = match dev {
                Some(d) => Some(d@),
                None => None,
            };
            let source = source_of(given, src is Some, cfg::address_table(config@));
            match res {
                Ok(v) => source == Ok::<(Seq<char>, Seq<char>), SourceErr>((v.0@, v.1@)),
                Err(e) => source == Err::<(Seq<char>, Seq<char>), SourceErr>(e),
            }
        }),
{
    let ghost table = cfg::address_table(config@);
    match dev {
        Some(dev) => match find_entry(config, dev) {
            Some(p) => {
                let addrs = &config[p].addresses;
                assert(table[p as int] == config@[p as int]@);
                assert(table[p as int].addresses.len() == addrs@.len());
                if addrs.len() > 1 && src.is_none() {
                    Err(SourceErr::ManyAddresses)
                } else if addrs.len() == 0 {
                    Err(SourceErr::NoAddress)
                } else {
                    assert(table[p as int].addresses[0] == addrs@[0]@);
                    expand_source(dev, addrs[0].as_str(), config)
                }
            },
            None => Err(SourceErr::NotConfigured),
        },
        None => {
            if config.len() > 1 {
                Err(SourceErr::ManyInterfaces)
            } else if config.len() == 0 {
                Err(SourceErr::NoInterface)
            } else {
                let addrs = &config[0].addresses;
                assert(table[0] == config@[0]@);
                assert(table[0].addresses.len() == addrs@.len());
                if addrs.len() > 1 {
                    Err(SourceErr::OnlyManyAddresses)
                } else if addrs.len() == 0 {
                    Err(SourceErr::OnlyNoAddress)
                } else {
                    assert(table[0].addresses[0] == addrs@[0]@);
                    expand_source(config[0].ifname.as_str(), addrs[0].as_str(), config)
                }
            }
        },
    }
}

/// The byte of the payload pattern at `i`: one more than the place, modulo 256.
pub open spec fn pattern_byte(i: int) -> u8 {
    ((i + 1) % 256) as u8
}

/// Fills the first `size` bytes of `buf` with the payload pattern.
pub fn fill_payload(size: usize, buf: &mut [u8])
    requires
        size <= old(buf)@.len(),
    ensures
        final(buf)@ == Seq::new(
            old(buf)@.len(),
            |i: int|
                if i < size {
                    pattern_byte(i)
                } else {
                    old(buf)@[i]
                },
        ),
{
    let mut i: usize = 0;
    while i < size
        invariant
            size <= buf@.len(),
            i <= size,
            buf@ == Seq::new(
                old(buf)@.len(),
                |j: int|
                    if j < i {
                        pattern_byte(j)
                    } else {
                        old(buf)@[j]
                    },
            ),
        decreases size - i,
    {
        buf[i] = ((i % 256) as u8).wrapping_add(1);
        i += 1;
    }
}

/// The text of the command to send a ping.
pub open spec fn ping_text(
    dst: Seq<char>,
    src: Seq<char>,
    ifindex: u32,
    payload: Seq<u8>,
) -> Seq<char> {
    "PING "@ + dst + " "@ + src + " "@ + number::dec_text(ifindex as nat) + " "@
        + number::hex_text(payload) + "\n"@
}

/// Writes the command to send a ping.
pub fn ping_request(dst: &str, src: &str, ifindex: u32, payload: &[u8]) -> (res: String)
    ensures
        res@ == ping_text(dst@, src@, ifindex, payload@),
{
    let mut cmd = String::new();
    cmd.append("PING ");
    cmd.append(dst);
    cmd.append(" ");
    cmd.append(src);
    cmd.append(" ");
    number::push_u32(&mut cmd, ifindex);
    cmd.append(" ");
    let hex = number::hex_encode(payload);
    cmd.append(hex.as_str());
    cmd.append("\n");
    assert(cmd@ =~= ping_text(dst@, src@, ifindex, payload@));
    cmd
}

/// What an answer is.
#[derive(Debug, Clone, Copy, PartialEq, Eq, Structural)]
pub enum PongCheck {
    /// The pong that is waited for.
    Match,
    /// Anything else.
    Other,
    /// A pong without two addresses.
    Malformed,
}

/// What the answer `response` to a ping from `src` to `dst` is: a pong names its own source and
/// destination, in this order.
pub open spec fn pong_check(response: Seq<char>, dst: Seq<char>, src: Seq<char>) -> PongCheck {
    let parts = text::words_of(text::trim_of(response));
    if !text::starts_with(response, "PONG"@) {
        PongCheck::Other
    } else if parts.len() < 3 {
        PongCheck::Malformed
    } else if parts[1] == dst && parts[2] == src {
        PongCheck::Match
    } else {
        PongCheck::Other
    }
}

/// Checks the answer to a ping from `src` to `dst`.
pub fn check_pong(response: &str, dst: &str, src: &str) -> (res: PongCheck)
    ensures
        res == pong_check(response@, dst@, src@),
{
    if !text::has_prefix(response, "PONG") {
        return PongCheck::Other;
    }
    let trimmed = text::trim(response);
    let parts = text::words(trimmed.as_str());
    let ghost all = text::words_of(text::trim_of(response@));
    assert(all.len() == parts@.len());
    if parts.len() < 3 {
        return PongCheck::Malformed;
    }
    assert(all[1] == parts@[1]@);
    assert(all[2] == parts@[2]@);
    if text::str_eq(parts[1].as_str(), dst) && text::str_eq(parts[2].as_str(), src) {
        PongCheck::Match
    } else {
        PongCheck::Other
    }
}

/// Appends what came in to the answer so far.
pub fn push_response(response: &mut String, buf: &[u8])
    ensures
        final(response)@ == old(response)@ + text::lossy_text(buf@),
{
    let more = text::from_utf8_lossy(buf);
    response.append(more.as_str());
}

/// Whether another ping is sent after `attempt` of them, where `count` is how many were asked
/// for and 0 means no limit.
pub fn more_attempts(count: u32, attempt: u32) -> (res: bool)
    ensures
        res == (attempt < u32::MAX && (count == 0 || attempt < count)),
{
    !(count != 0 && attempt >= count || attempt >= u32::MAX)
}

/// How many pings were sent, and how many of them were answered.
#[derive(Debug, Clone, Copy, PartialEq, Eq, Structural)]
pub struct PingCount {
    pub attempt: u32,
    pub success: u32,
}

/// No more pings are answered than were sent.
pub open spec fn is_sound(count: PingCount) -> bool {
    count.success <= count.attempt
}

/// What happens while an answer is waited for.
#[derive(Debug, Clone, Copy, PartialEq, Eq, Structural)]
pub enum PingEvent {
    /// Something came in.
    Answer(PongCheck),
    /// Nothing came in for a while.
    Silence,
}

/// What an event means for the attempt.
#[derive(Debug, Clone, Copy, PartialEq, Eq, Structural)]
pub enum AttemptStep {
    /// It goes on.
    Wait,
    /// The ping was answered.
    Answered,
    /// The ping was lost.
    Lost,
    /// A pong without two addresses came in, and the tool cannot go on.
    Broken,
}

/// How long an answer is waited for, in milliseconds.
pub const ATTEMPT_MS: u64 = 2000;

/// What an event means, `elapsed_ms` after the ping was sent: the awaited pong ends the attempt,
/// and so does silence once two seconds have passed.
pub open spec fn attempt_step(event: PingEvent, elapsed_ms: u64) -> AttemptStep {
    match event {
        PingEvent::Answer(PongCheck::Match) => AttemptStep::Answered,
        PingEvent::Answer(PongCheck::Other) => AttemptStep::Wait,
        PingEvent::Answer(PongCheck::Malformed) => AttemptStep::Broken,
        PingEvent::Silence => if elapsed_ms >= ATTEMPT_MS {
            AttemptStep::Lost
        } else {
            AttemptStep::Wait
        },
    }
}

/// The count once the attempt has taken a step: an attempt that ends is counted, and an answered
/// one as a success.
pub open spec fn counted(count: PingCount, step: AttemptStep) -> PingCount {
    PingCount {
        attempt: if step == AttemptStep::Answered || step == AttemptStep::Lost {
            (count.attempt + 1) as u32
        } else {
            count.attempt
        },
        success: if step == AttemptStep::Answered {
            (count.success + 1) as u32
        } else {
            count.success
        },
    }
}

/// Takes a step of an attempt, `elapsed_ms` after its ping was sent.
pub fn next_step(event: PingEvent, elapsed_ms: u64, count: PingCount) -> (res: (
    AttemptStep,
    PingCount,
))
    requires
        is_sound(count),
        count.attempt < u32::MAX,
    ensures
        res.0 == attempt_step(event, elapsed_ms),
        res.1 == counted(count, res.0),
        is_sound(res.1),
{
    match event {
        PingEvent::Answer(PongCheck::Match) => (
            AttemptStep::Answered,
            PingCount { attempt: count.attempt + 1, success: count.success + 1 },
        ),
        PingEvent::Answer(PongCheck::Other) => (AttemptStep::Wait, count),
        PingEvent::Answer(PongCheck::Malformed) => (AttemptStep::Broken, count),
        PingEvent::Silence => if elapsed_ms >= ATTEMPT_MS {
            (
                AttemptStep::Lost,
                PingCount { attempt: count.attempt + 1, success: count.success },
            )
        } else {
            (AttemptStep::Wait, count)
        },
    }
}

/// How many of a hundred pings were lost, rounded down; all of them where none was sent.
pub fn loss_percent(success: u32, attempt: u32) -> (res: u32)
    requires
        success <= attempt,
        (attempt - success) * 100 <= u32::MAX,
    ensures
        res == (if attempt > 0 {
            ((attempt - success) * 100) / attempt as int
        } else {
            100
        }),
{
    let failed: u32 = attempt - success;
    if attempt > 0 {
        (failed * 100) / attempt
    } else {
        100
    }
}

/// The command that the ping tool sends is understood as it was meant, where the addresses are
/// words and the payload is not empty.
pub proof fn law_ping_command_round_trip(
    dst: Seq<char>,
    src: Seq<char>,
    ifindex: u32,
    payload: Seq<u8>,
)
    requires
        dst.len() > 0,
        src.len() > 0,
        text::no_white(dst),
        text::no_white(src),
        payload.len() > 0,
    ensures
        ctl::ping_command(ping_text(dst, src, ifindex, payload)) == Some(
            ctl::PingCommandView { dst_addr: dst, src_addr: src, ifindex, payload },
        ),
{
    let index = number::dec_text(ifindex as nat);
    let hex = number::hex_text(payload);
    let s = ping_text(dst, src, ifindex, payload);
    reveal_strlit("PING");
    reveal_strlit("PING ");
    reveal_strlit(" ");
    reveal_strlit("\n");
    number::law_decimal_round_trip(ifindex as nat);
    number::law_hex_round_trip(payload);
    number::lemma_digits_no_white(ifindex as nat, payload);
    let none = Seq::<char>::empty();
    let r4 = hex.push('\n') + none;
    let r3 = index.push(' ') + r4;
    let r2 = src.push(' ') + r3;
    let r1 = dst.push(' ') + r2;
    assert(s =~= "PING"@.push(' ') + r1);
    assert(text::no_white("PING"@));
    text::lemma_word_then("PING"@, ' ', r1);
    text::lemma_word_then(dst, ' ', r2);
    text::lemma_word_then(src, ' ', r3);
    text::lemma_word_then(index, ' ', r4);
    text::lemma_word_then(hex, '\n', none);
    assert(text::words_of(none) =~= Seq::<Seq<char>>::empty());
    let parts = text::words_of(s);
    assert(parts =~= seq!["PING"@, dst, src, index, hex]);
    assert(s.take(4) =~= "PING"@);
    text::lemma_one_word(index);
    assert(iface::index_value(parts[3]) == Some(ifindex as nat));
    assert(number::unhex(parts[4]) == Some(payload));
}

/// The message of the daemon about a pong is accepted by the ping tool that waits for it, where
/// the network parts hold no white space.
pub proof fn law_pong_accepted(d: forward::DynamicView)
    requires
        text::no_white(daemon::net_text(d.src_netpart)),
        text::no_white(daemon::net_text(d.dst_netpart)),
    ensures
        pong_check(
            daemon::pong_message(d),
            daemon::addr_text(d.src_netpart, d.src_node_id),
            daemon::addr_text(d.dst_netpart, d.dst_node_id),
        ) == PongCheck::Match,
{
    let a = daemon::addr_text(d.src_netpart, d.src_node_id);
    let b = daemon::addr_text(d.dst_netpart, d.dst_node_id);
    let s = daemon::pong_message(d);
    reveal_strlit("PONG");
    reveal_strlit("PONG ");
    reveal_strlit(" ");
    reveal_strlit("\n");
    lemma_addr_text_word(d.src_netpart, d.src_node_id);
    lemma_addr_text_word(d.dst_netpart, d.dst_node_id);
    let rest = a.push(' ') + b;
    let t = "PONG"@.push(' ') + rest;
    assert(s =~= t.push('\n'));
    assert(s[0] == 'P');
    assert(text::trim_start_of(s) == s);
    assert(s.drop_last() =~= t);
    assert(t.last() == b.last());
    assert(!text::is_white(b.last()));
    assert(text::trim_end_of(t) == t);
    assert(text::trim_of(s) == t);
    assert(text::no_white("PONG"@));
    text::lemma_word_then("PONG"@, ' ', rest);
    text::lemma_word_then(a, ' ', b);
    text::lemma_one_word(b);
    assert(text::words_of(t) =~= seq!["PONG"@, a, b]);
    assert(s.take(4) =~= "PONG"@);
}

proof fn lemma_addr_text_word(net: Seq<u8>, node_id: u32)
    requires
        text::no_white(daemon::net_text(net)),
    ensures
        text::no_white(daemon::addr_text(net, node_id)),
        daemon::addr_text(net, node_id).len() > 0,
{
    let n = daemon::net_text(net);
    let digits = number::dec_text(node_id as nat);
    let a = daemon::addr_text(net, node_id);
    reveal_strlit(":");
    number::lemma_digits_no_white(node_id as nat, Seq::empty());
    assert forall|i: int| 0 <= i < a.len() implies !text::is_white(#[trigger] a[i]) by {
        if i < n.len() {
            assert(a[i] == n[i]);
        } else if i > n.len() {
            assert(a[i] == digits[i - n.len() - 1]);
        }
    }
}

} // verus!
