//! Network interfaces as the kernel lists them: names, indices and hardware addresses.
use crate::cfg::{parse_mac, MacErr};
use crate::cfg;
use crate::number;
use crate::text;
use vstd::prelude::*;
use vstd::string::*;

pub mod laws;

verus! {

/// The directory that lists the interfaces.
pub const NET_DIR: &'static str = "/sys/class/net";

/// An interface and the content of one of its files, if it could be read.
pub struct IfaceFile {
    pub name: String,
    pub content: Option<String>,
}

/// What an [`IfaceFile`] holds.
pub struct IfaceFileView {
    pub name: Seq<char>,
    pub content: Option<Seq<char>>,
}

impl View for IfaceFile {
    type V = IfaceFileView;

    open spec fn view(&self) -> IfaceFileView {
        IfaceFileView {
            name: self.name@,
            content: match self.content {
                Some(t) => Some(t@),
                None => None,
            },
        }
    }
}

/// What a list of interfaces and files holds.
pub open spec fn file_table(files: Seq<IfaceFile>) -> Seq<IfaceFileView> {
    files.map_values(|f: IfaceFile| f@)
}

/// The path of a file of the interface `ifname`.
pub fn iface_path(ifname: &str, file: &str) -> (res: String)
    ensures
        res@ == NET_DIR@ + "/"@ + ifname@ + "/"@ + file@,
{
    let mut res = String::new();
    res.append(NET_DIR);
    res.append("/");
    res.append(ifname);
    res.append("/");
    res.append(file);
    assert(res@ =~= NET_DIR@ + "/"@ + ifname@ + "/"@ + file@);
    res
}

/// The interface index that the content of an `ifindex` file writes.
pub open spec fn index_value(s: Seq<char>) -> Option<nat> {
    number::bounded_value(text::trim_of(s), 10, u32::MAX as nat)
}

/// Reads the content of an `ifindex` file: a decimal number, with or without white space
/// around it.
pub fn ifname_to_index(idx_str: &str) -> (res: Option<u32>)
    ensures
        match res {
            Some(v) => index_value(idx_str@) == Some(v as nat),
            None => index_value(idx_str@) is None,
        },
{
    let trimmed = text::trim(idx_str);
    number::parse_u32(trimmed.as_str())
}

/// Whether `f` is the readable `ifindex` file of the interface with the index `ifindex`.
pub open spec fn has_index(f: IfaceFileView, ifindex: u32) -> bool {
    match f.content {
        Some(s) => index_value(s) == Some(ifindex as nat),
        None => false,
    }
}

/// The name of the first interface whose `ifindex` file writes `ifindex`. Files that cannot
/// be read, or do not write a number, are passed over.
pub open spec fn name_of_index(files: Seq<IfaceFileView>, ifindex: u32) -> Option<Seq<char>>
    decreases files.len(),
{
    if files.len() == 0 {
        None
    } else if has_index(files[0], ifindex) {
        Some(files[0].name)
    } else {
        name_of_index(files.drop_first(), ifindex)
    }
}

/// The name of the interface with the index `ifindex`, where `files` holds the `ifindex`
/// files.
pub fn ifname_from_index(files: &[IfaceFile], ifindex: u32) -> (res: Option<String>)
    ensures
        match res {
            Some(name) => name_of_index(file_table(files@), ifindex) == Some(name@),
            None => name_of_index(file_table(files@), ifindex) is None,
        },
{
    let ghost table = file_table(files@);
    assert(table.skip(0) =~= table);
    for i in 0..files.len()
        invariant
            table == file_table(files@),
            name_of_index(table, ifindex) == name_of_index(table.skip(i as int), ifindex),
    {
        assert(table.skip(i as int).drop_first() =~= table.skip(i + 1));
        assert(table.skip(i as int)[0] == files@[i as int]@);
        match &files[i].content {
            Some(idx_str) => match ifname_to_index(idx_str.as_str()) {
                Some(idx) => {
                    if idx == ifindex {
                        return Some(files[i].name.clone());
                    }
                },
                None => {},
            },
            None => {},
        }
    }
    None
}

/// Reads the content of an `address` file: a hardware address, with or without white space
/// around it.
pub fn get_mac(content: &str) -> (res: Result<[u8; 6], MacErr>)
    ensures
        match res {
            Ok(m) => cfg::mac_value(text::trim_of(content@)) == Ok::<Seq<u8>, MacErr>(m@),
            Err(e) => cfg::mac_value(text::trim_of(content@)) == Err::<Seq<u8>, MacErr>(e),
        },
{
    let trimmed = text::trim(content);
    parse_mac(trimmed.as_str())
}

/// The names of `names` that the daemon uses: all but the loopback interface.
pub open spec fn usable(names: Seq<Seq<char>>) -> Seq<Seq<char>>
    decreases names.len(),
{
    if names.len() == 0 {
        Seq::empty()
    } else {
        let before = usable(names.drop_last());
        if names.last() != "lo"@ && names.last().len() != 0 {
            before.push(names.last())
        } else {
            before
        }
    }
}

/// The interfaces that the daemon uses, if there are any.
pub fn get_ifaces(names: &[String]) -> (res: Option<Vec<String>>)
    ensures
        match res {
            Some(v) => text::views(v@) == usable(text::views(names@)) && v@.len() > 0,
            None => usable(text::views(names@)).len() == 0,
        },
{
    let ghost all = text::views(names@);
    let mut ifaces: Vec<String> = Vec::new();
    assert(text::views(ifaces@) =~= usable(all.take(0)));
    for i in 0..names.len()
        invariant
            all == text::views(names@),
            text::views(ifaces@) == usable(all.take(i as int)),
    {
        assert(all.take(i + 1).drop_last() =~= all.take(i as int));
        assert(all.take(i + 1).last() == names@[i as int]@);
        if !text::str_eq(names[i].as_str(), "lo") && !names[i].as_str().is_empty() {
            let name = names[i].clone();
            let ghost before = text::views(ifaces@);
            ifaces.push(name);
            assert(text::views(ifaces@) =~= before.push(name@));
        }
    }
    assert(all.take(all.len() as int) =~= all);
    assert(text::views(ifaces@).len() == ifaces@.len());
    if ifaces.is_empty() {
        None
    } else {
        Some(ifaces)
    }
}

/// Why no interface was found for a hardware address.
#[derive(Debug, Clone, Copy, PartialEq, Eq, Structural)]
pub enum LookupErr {
    /// An `address` file could not be read.
    Unreadable,
    /// An `address` file does not hold a hardware address.
    Mac(MacErr),
    /// No interface has the address.
    NotFound,
}

/// The name of the first interface whose `address` file is exactly `mac`. A file in front of
/// it that cannot be read, or holds anything else than a hardware address, ends the search.
pub open spec fn name_of_mac(files: Seq<IfaceFileView>, mac: Seq<u8>) -> Result<
    Seq<char>,
    LookupErr,
>
    decreases files.len(),
{
    if files.len() == 0 {
        Err(LookupErr::NotFound)
    } else {
        match files[0].content {
            None => Err(LookupErr::Unreadable),
            Some(s) => match cfg::mac_value(s) {
                Err(e) => Err(LookupErr::Mac(e)),
                Ok(m) => if m == mac {
                    Ok(files[0].name)
                } else {
                    name_of_mac(files.drop_first(), mac)
                },
            },
        }
    }
}

/// Whether two hardware addresses are the same.
pub fn mac_eq(a: &[u8; 6], b: &[u8; 6]) -> (res: bool)
    ensures
        res == (a@ == b@),
{
    for i in 0..6usize
        invariant
            forall|j: int| 0 <= j < i ==> a@[j] == b@[j],
    {
        if a[i] != b[i] {
            return false;
        }
    }
    assert(a@ =~= b@);
    true
}

/// The name of the interface with the hardware address `mac`, where `files` holds the
/// `address` files.
pub fn get_ifname_from_mac(files: &[IfaceFile], mac: &[u8; 6]) -> (res: Result<String, LookupErr>)
    ensures
        match res {
            Ok(name) => name_of_mac(file_table(files@), mac@) == Ok::<Seq<char>, LookupErr>(name@),
            Err(e) => name_of_mac(file_table(files@), mac@) == Err::<Seq<char>, LookupErr>(e),
        },
{
    let ghost table = file_table(files@);
    assert(table.skip(0) =~= table);
    for i in 0..files.len()
        invariant
            table == file_table(files@),
            name_of_mac(table, mac@) == name_of_mac(table.skip(i as int), mac@),
    {
        assert(table.skip(i as int).drop_first() =~= table.skip(i + 1));
        assert(table.skip(i as int)[0] == files@[i as int]@);
        match &files[i].content {
            None => {
                return Err(LookupErr::Unreadable);
            },
            Some(s) => match parse_mac(s.as_str()) {
                Err(e) => {
                    return Err(LookupErr::Mac(e));
                },
                Ok(m) => {
                    if mac_eq(&m, mac) {
                        return Ok(files[i].name.clone());
                    }
                },
            },
        }
    }
    Err(LookupErr::NotFound)
}

/// The name that stands for the host: what its `hostname` file writes, or `default` where
/// that cannot be read.
pub open spec fn host_name(content: Option<Seq<char>>) -> Seq<char> {
    text::trim_of(
        match content {
            Some(s) => s,
            None => "default"@,
        },
    )
}

/// The directory in which the tables of the host are pinned.
pub open spec fn pin_dir_of(hostname: Option<Seq<char>>) -> Seq<char> {
    "/sys/fs/bpf/nhip/"@ + host_name(hostname)
}

/// The directory in which the tables of the host are pinned, where `hostname` is the content of
/// its `hostname` file, if that could be read.
pub fn pin_dir(hostname: Option<&str>) -> (res: String)
    ensures
        res@ == pin_dir_of(
            match hostname {
                Some(s) => Some(s@),
                None => None,
            },
        ),
{
    let name = match hostname {
        Some(s) => text::trim(s),
        None => text::trim("default"),
    };
    let mut res = String::new();
    res.append("/sys/fs/bpf/nhip/");
    res.append(name.as_str());
    assert(res@ =~= "/sys/fs/bpf/nhip/"@ + name@);
    res
}

/// The path at which the table `map` of the host is pinned.
pub fn pin_path(hostname: Option<&str>, map: &str) -> (res: String)
    ensures
        res@ == pin_dir_of(
            match hostname {
                Some(s) => Some(s@),
                None => None,
            },
        ) + "/"@ + map@,
{
    let mut res = pin_dir(hostname);
    res.append("/");
    res.append(map);
    res
}

} // verus!
