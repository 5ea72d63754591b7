//! What the lookups of interfaces promise, whatever the kernel lists.
use crate::cfg;
use crate::iface::{IfaceFileView, LookupErr};
use crate::iface;
use crate::number;
use crate::text;
use vstd::prelude::*;
use vstd::string::*;

verus! {

/// Whether every character of `s` is white space.
pub open spec fn is_blank(s: Seq<char>) -> bool {
    forall|i: int| 0 <= i < s.len() ==> text::is_white(#[trigger] s[i])
}

/// An index is a decimal number of at most 32 bits, with or without white space around it.
pub proof fn law_index(l: Seq<char>, n: nat, r: Seq<char>)
    requires
        is_blank(l),
        is_blank(r),
    ensures
        iface::index_value(l + number::dec_text(n) + r) == (if n <= 0xFFFF_FFFF {
            Some(n)
        } else {
            None
        }),
        iface::index_value(l) is None,
{
    let m = number::dec_text(n);
    number::law_decimal_round_trip(n);
    number::lemma_digits_no_white(n, Seq::empty());
    assert(!text::is_white(m[0]));
    assert(!text::is_white(m[m.len() - 1]));
    text::laws::law_trim(l, m, r);
    number::laws::law_bounded(n, 0xFFFF_FFFF);
    let none = Seq::<char>::empty();
    text::laws::law_trim(l, none, none);
    assert(l + none + none =~= l);
}

/// The interface with an index is the first one whose file writes that index; files that write no
/// number, and files that cannot be read, are passed over.
pub proof fn law_name_of_index(files: Seq<IfaceFileView>, ifindex: u32, i: int)
    requires
        0 <= i <= files.len(),
        forall|j: int|
            0 <= j < i ==> ((#[trigger] files[j]).content is None || iface::index_value(
                files[j].content.unwrap(),
            ) != Some(ifindex as nat)),
        i < files.len() ==> files[i].content is Some && iface::index_value(
            files[i].content.unwrap(),
        ) == Some(ifindex as nat),
    ensures
        iface::name_of_index(files, ifindex) == (if i < files.len() {
            Some(files[i].name)
        } else {
            None
        }),
    decreases files.len(),
{
    if i > 0 {
        let rest = files.drop_first();
        assert(!iface::has_index(files[0], ifindex));
        assert forall|j: int| 0 <= j < i - 1 implies ((#[trigger] rest[j]).content is None
            || iface::index_value(rest[j].content.unwrap()) != Some(ifindex as nat)) by {
            assert(rest[j] == files[j + 1]);
        }
        law_name_of_index(rest, ifindex, i - 1);
    }
}

/// The interface with a hardware address is the first one whose file is that address, where every
/// file in front of it is a hardware address. The first that is not decides why there is none.
pub proof fn law_name_of_mac(files: Seq<IfaceFileView>, mac: Seq<u8>, i: int)
    requires
        0 <= i <= files.len(),
        forall|j: int|
            0 <= j < i ==> (#[trigger] files[j]).content is Some && cfg::mac_value(
                files[j].content.unwrap(),
            ) is Ok && cfg::mac_value(files[j].content.unwrap()).unwrap() != mac,
    ensures
        i == files.len() ==> iface::name_of_mac(files, mac) == Err::<Seq<char>, LookupErr>(
            LookupErr::NotFound,
        ),
        i < files.len() && files[i].content is None ==> iface::name_of_mac(files, mac) == Err::<
            Seq<char>,
            LookupErr,
        >(LookupErr::Unreadable),
        i < files.len() && files[i].content is Some ==> match cfg::mac_value(
            files[i].content.unwrap(),
        ) {
            Err(e) => iface::name_of_mac(files, mac) == Err::<Seq<char>, LookupErr>(
                LookupErr::Mac(e),
            ),
            Ok(m) => m == mac ==> iface::name_of_mac(files, mac) == Ok::<Seq<char>, LookupErr>(
                files[i].name,
            ),
        },
    decreases files.len(),
{
    if i > 0 {
        let rest = files.drop_first();
        assert(files[0].content is Some);
        assert forall|j: int| 0 <= j < i - 1 implies (#[trigger] rest[j]).content is Some
            && cfg::mac_value(rest[j].content.unwrap()) is Ok && cfg::mac_value(
            rest[j].content.unwrap(),
        ).unwrap() != mac by {
            assert(rest[j] == files[j + 1]);
        }
        law_name_of_mac(rest, mac, i - 1);
        if i < files.len() {
            assert(rest[i - 1] == files[i]);
        }
    }
}

/// The interfaces that are used are all but the loopback interface and those without a name, in
/// order.
pub proof fn law_usable(a: Seq<Seq<char>>, b: Seq<Seq<char>>, name: Seq<char>)
    ensures
        iface::usable(a + b) == iface::usable(a) + iface::usable(b),
        iface::usable(seq![name]) == (if name.len() == 0 || name == "lo"@ {
            Seq::empty()
        } else {
            seq![name]
        }),
    decreases b.len(),
{
    let none = Seq::<Seq<char>>::empty();
    assert(seq![name].drop_last() =~= none);
    assert(iface::usable(none) =~= none);
    assert(none.push(name) =~= seq![name]);
    if b.len() == 0 {
        assert(a + b =~= a);
        assert(b =~= none);
        assert(iface::usable(a) + iface::usable(b) =~= iface::usable(a));
    } else {
        law_usable(a, b.drop_last(), name);
        assert((a + b).drop_last() =~= a + b.drop_last());
        assert((a + b).last() == b.last());
        assert(iface::usable(a + b) =~= iface::usable(a) + iface::usable(b));
    }
}

/// The tables of a host are pinned under its name, without the white space around it, and under
/// `default` where the name cannot be read.
pub proof fn law_pin_dir(l: Seq<char>, name: Seq<char>, r: Seq<char>)
    requires
        is_blank(l),
        is_blank(r),
        name.len() > 0 ==> !text::is_white(name[0]) && !text::is_white(name.last()),
    ensures
        iface::pin_dir_of(Some(l + name + r)) == "/sys/fs/bpf/nhip/"@ + name,
        iface::pin_dir_of(None) == "/sys/fs/bpf/nhip/"@ + "default"@,
{
    text::laws::law_trim(l, name, r);
    reveal_strlit("default");
    text::lemma_one_word("default"@);
}

} // verus!
