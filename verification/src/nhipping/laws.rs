//! What the ping tool promises of every configuration and every answer.
use crate::cfg::AddressView;
use crate::cfg;
use crate::nhipping::{AttemptStep, PingCount, PingEvent, PongCheck, SourceErr};
use crate::nhipping;
use crate::number;
use crate::text;
use vstd::prelude::*;
use vstd::string::*;

verus! {

/// Where an interface is given, a ping leaves over it, from the expansion of the first address of
/// the first entry `p` with its name. It is refused exactly if there is no such entry, the entry has
/// no address, it has several and no source was given, or its address cannot be expanded.
pub proof fn law_source_of_device(
    dev: Seq<char>,
    src_given: bool,
    config: Seq<AddressView>,
    p: int,
)
    requires
        0 <= p <= config.len(),
        forall|i: int| 0 <= i < p ==> (#[trigger] config[i]).ifname != dev,
        p < config.len() ==> config[p].ifname == dev,
    ensures
        ({
            let res = nhipping::source_of(Some(dev), src_given, config);
            if p == config.len() {
                res == Err::<(Seq<char>, Seq<char>), SourceErr>(SourceErr::NotConfigured)
            } else if config[p].addresses.len() == 0 {
                res == Err::<(Seq<char>, Seq<char>), SourceErr>(SourceErr::NoAddress)
            } else if config[p].addresses.len() > 1 && !src_given {
                res == Err::<(Seq<char>, Seq<char>), SourceErr>(SourceErr::ManyAddresses)
            } else {
                match cfg::expanded(config[p].addresses[0], dev, config) {
                    Ok(a) => res is Ok && res.unwrap().0 == dev && res.unwrap().1 == a,
                    Err(e) => res == Err::<(Seq<char>, Seq<char>), SourceErr>(SourceErr::Tilde(e)),
                }
            }
        }),
{
    cfg::lemma_entry_pos(config, dev, p);
}

/// Where no interface is given, a ping leaves over the only one that is configured, from the
/// expansion of its only address. It is refused exactly if there is not one interface with one
/// address, or that address cannot be expanded.
pub proof fn law_source_of_only_device(src_given: bool, config: Seq<AddressView>)
    ensures
        ({
            let res = nhipping::source_of(None, src_given, config);
            if config.len() == 0 {
                res == Err::<(Seq<char>, Seq<char>), SourceErr>(SourceErr::NoInterface)
            } else if config.len() > 1 {
                res == Err::<(Seq<char>, Seq<char>), SourceErr>(SourceErr::ManyInterfaces)
            } else if config[0].addresses.len() == 0 {
                res == Err::<(Seq<char>, Seq<char>), SourceErr>(SourceErr::OnlyNoAddress)
            } else if config[0].addresses.len() > 1 {
                res == Err::<(Seq<char>, Seq<char>), SourceErr>(SourceErr::OnlyManyAddresses)
            } else {
                match cfg::expanded(config[0].addresses[0], config[0].ifname, config) {
                    Ok(a) => res is Ok && res.unwrap().0 == config[0].ifname && res.unwrap().1 == a,
                    Err(e) => res == Err::<(Seq<char>, Seq<char>), SourceErr>(SourceErr::Tilde(e)),
                }
            }
        }),
{
}

/// The payload counts up from 1, and over from 255 to 0.
pub proof fn law_pattern(i: int)
    requires
        i >= 0,
    ensures
        nhipping::pattern_byte(0) == 1,
        nhipping::pattern_byte(i) < 255 ==> nhipping::pattern_byte(i + 1) == nhipping::pattern_byte(
            i,
        ) + 1,
        nhipping::pattern_byte(i) == 255 ==> nhipping::pattern_byte(i + 1) == 0,
{
}

/// The pong that is waited for names the pinged address first and the own one second, and no other
/// pong is taken for it. What does not start as a pong is something else, and a pong with fewer than
/// two addresses is malformed.
pub proof fn law_pong(
    a: Seq<char>,
    b: Seq<char>,
    rest: Seq<char>,
    dst: Seq<char>,
    src: Seq<char>,
)
    requires
        a.len() > 0,
        b.len() > 0,
        text::no_white(a),
        text::no_white(b),
    ensures
        nhipping::pong_check("PONG "@ + a.push(' ') + b.push('\n'), dst, src) == (if a == dst && b
            == src {
            PongCheck::Match
        } else {
            PongCheck::Other
        }),
        nhipping::pong_check("PONG "@ + a.push('\n'), dst, src) == PongCheck::Malformed,
        nhipping::pong_check("PONG"@, dst, src) == PongCheck::Malformed,
        rest.len() < 4 || rest.take(4) != "PONG"@ ==> nhipping::pong_check(rest, dst, src)
            == PongCheck::Other,
{
    reveal_strlit("PONG");
    reveal_strlit("PONG ");
    let w = "PONG"@;
    assert(text::no_white(w));
    let none = Seq::<char>::empty();
    let s = "PONG "@ + a.push(' ') + b.push('\n');
    let t = w.push(' ') + (a.push(' ') + b);
    assert(s =~= none + t + seq!['\n']);
    assert(t[0] == 'P');
    assert(t.last() == b[b.len() - 1]);
    text::laws::law_trim(none, t, seq!['\n']);
    text::laws::law_words(w, ' ', a.push(' ') + b);
    text::laws::law_words(a, ' ', b);
    text::laws::law_words(b, ' ', none);
    assert(text::words_of(t) =~= seq![w, a, b]);
    assert(s.take(4) =~= w);
    let s1 = "PONG "@ + a.push('\n');
    let t1 = w.push(' ') + a;
    assert(s1 =~= none + t1 + seq!['\n']);
    assert(t1[0] == 'P');
    assert(t1.last() == a[a.len() - 1]);
    text::laws::law_trim(none, t1, seq!['\n']);
    text::laws::law_words(w, ' ', a);
    text::laws::law_words(a, ' ', none);
    assert(text::words_of(t1) =~= seq![w, a]);
    assert(s1.take(4) =~= w);
    text::lemma_one_word(w);
    assert(w.take(4) =~= w);
}

/// An attempt ends with the awaited pong, whenever it comes, or with silence once two seconds have
/// passed. A malformed pong ends the tool, and anything else is waited through.
pub proof fn law_attempt(event: PingEvent, elapsed_ms: u64)
    ensures
        nhipping::attempt_step(event, elapsed_ms) == AttemptStep::Answered <==> event
            == PingEvent::Answer(PongCheck::Match),
        nhipping::attempt_step(event, elapsed_ms) == AttemptStep::Broken <==> event
            == PingEvent::Answer(PongCheck::Malformed),
        nhipping::attempt_step(event, elapsed_ms) == AttemptStep::Lost <==> event
            == PingEvent::Silence && elapsed_ms >= 2000,
{
}

/// Each attempt that ends is counted once, and as answered only if it was: what is lost is what was
/// sent and not answered.
pub proof fn law_count(count: PingCount, step: AttemptStep)
    requires
        count.success <= count.attempt < u32::MAX,
    ensures
        ({
            let after = nhipping::counted(count, step);
            let lost = after.attempt - after.success - (count.attempt - count.success);
            &&& after.success == count.success + (if step == AttemptStep::Answered {
                1int
            } else {
                0
            })
            &&& lost == (if step == AttemptStep::Lost {
                1int
            } else {
                0
            })
        }),
{
}

/// An answer is judged by its words, once the white space around it is gone: one that starts as a
/// pong is the awaited one exactly if its second word is the pinged address and its third the own
/// one.
pub proof fn law_pong_words(
    response: Seq<char>,
    w: Seq<Seq<char>>,
    dst: Seq<char>,
    src: Seq<char>,
)
    requires
        response.len() >= 4,
        response.take(4) == "PONG"@,
        text::words_of(text::trim_of(response)) == w,
    ensures
        nhipping::pong_check(response, dst, src) == PongCheck::Malformed <==> w.len() < 3,
        nhipping::pong_check(response, dst, src) == PongCheck::Match <==> w.len() >= 3 && w[1] == dst
            && w[2] == src,
{
    reveal_strlit("PONG");
}

/// The command to send a ping names the destination, the source, the index in decimal and the
/// payload in hexadecimal, with a space in front of each and a newline at the end.
pub proof fn law_ping_text(dst: Seq<char>, src: Seq<char>, ifindex: u32, payload: Seq<u8>)
    ensures
        nhipping::ping_text(dst, src, ifindex, payload) == "PING "@ + dst.push(' ') + src.push(' ')
            + number::dec_text(ifindex as nat).push(' ') + number::hex_text(payload).push('\n'),
{
    reveal_strlit(" ");
    reveal_strlit("\n");
    assert(nhipping::ping_text(dst, src, ifindex, payload) =~= "PING "@ + dst.push(' ') + src.push(
        ' ',
    ) + number::dec_text(ifindex as nat).push(' ') + number::hex_text(payload).push('\n'));
}

} // verus!
