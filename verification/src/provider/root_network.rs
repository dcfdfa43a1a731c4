//! Whether this machine is on a tunnel of an allowed network.
//!
//! Being on a network is a sign of presence and no root of trust. What a caller
//! names counts only for the ceremony that makes the root key; otherwise the
//! network comes out of a signed policy.

use vstd::prelude::*;

use crate::error::{fault_of, Error};
use crate::numbers::{natural_of, parse_natural};
use crate::provider::address::{coloned, dotted, read_coloned, read_dotted, IpAddr};
use crate::provider::network::{
    associated, associated_with_any_ssid, wifi_authorized, wifi_verdict, WifiLink, WifiLinkView,
};
use crate::provider::policy::{
    corporate_network, network_place, CorporateNetwork, CorporateNetworkView, NetworkMode,
    ProviderPolicy,
};
use crate::text::{
    begins_with, char_views, chars_of, has_prefix, lent_text, lowercase, lowered, one_of, part,
    pieces, split_at, text_of, text_views, trim, trimmed,
};

verus! {

/// A block of addresses that have their first bits in common.
#[allow(inconsistent_fields)]
#[derive(Clone, Copy, Debug, PartialEq, Eq, Structural)]
pub enum Network {
    V4 { addr: u32, prefix: u8 },
    V6 { addr: u128, prefix: u8 },
}

/// An address of this machine, and what its interface looks like.
#[derive(Debug)]
pub struct LocalAddress {
    pub iface: String,
    pub addr: IpAddr,
    pub is_tunnel: bool,
    pub is_wifi: bool,
}

#[verifier::ext_equal]
pub struct LocalAddressView {
    pub iface: Seq<char>,
    pub addr: IpAddr,
    pub is_tunnel: bool,
    pub is_wifi: bool,
}

impl View for LocalAddress {
    type V = LocalAddressView;

    open spec fn view(&self) -> LocalAddressView {
        LocalAddressView {
            iface: self.iface@,
            addr: self.addr,
            is_tunnel: self.is_tunnel,
            is_wifi: self.is_wifi,
        }
    }
}

pub open spec fn address_views(addrs: Seq<LocalAddress>) -> Seq<LocalAddressView> {
    Seq::new(addrs.len(), |i: int| addrs[i]@)
}

/// The mask of the first `prefix` bits.
pub open spec fn mask_v4(prefix: u8) -> u32 {
    if prefix == 0 {
        0
    } else {
        !0u32 << ((32 - prefix) as u32)
    }
}

/// The mask of the first `prefix` bits.
pub open spec fn mask_v6(prefix: u8) -> u128 {
    if prefix == 0 {
        0
    } else {
        !0u128 << ((128 - prefix) as u128)
    }
}

/// The mask of the first `prefix` bits.
pub fn ipv4_mask(prefix: u8) -> (r: u32)
    requires
        prefix <= 32,
    ensures
        r == mask_v4(prefix),
{
    if prefix == 0 {
        0
    } else {
        !0u32 << ((32 - prefix) as u32)
    }
}

/// The mask of the first `prefix` bits.
pub fn ipv6_mask(prefix: u8) -> (r: u128)
    requires
        prefix <= 128,
    ensures
        r == mask_v6(prefix),
{
    if prefix == 0 {
        0
    } else {
        !0u128 << ((128 - prefix) as u128)
    }
}

impl Network {
    /// A network has no more common bits than its addresses have.
    pub open spec fn wf(self) -> bool {
        match self {
            Network::V4 { prefix, .. } => prefix <= 32,
            Network::V6 { prefix, .. } => prefix <= 128,
        }
    }

    /// The address has the network's first bits.
    pub open spec fn covers(self, ip: IpAddr) -> bool {
        match (self, ip) {
            (Network::V4 { addr, prefix }, IpAddr::V4(host)) => host & mask_v4(prefix) == addr
                & mask_v4(prefix),
            (Network::V6 { addr, prefix }, IpAddr::V6(host)) => host & mask_v6(prefix) == addr
                & mask_v6(prefix),
            _ => false,
        }
    }

    /// Whether an address is in the network.
    pub fn contains(self, ip: IpAddr) -> (r: bool)
        requires
            self.wf(),
        ensures
            r == self.covers(ip),
    {
        match (self, ip) {
            (Network::V4 { addr, prefix }, IpAddr::V4(host)) => {
                let mask: u32 = ipv4_mask(prefix);
                (host & mask) == (addr & mask)
            },
            (Network::V6 { addr, prefix }, IpAddr::V6(host)) => {
                let mask: u128 = ipv6_mask(prefix);
                (host & mask) == (addr & mask)
            },
            _ => false,
        }
    }
}

/// An address is in a network exactly if the two agree up to the prefix: shifted
/// down by the other bits, they are the same number.
pub proof fn first_bits_decide(addr: u32, prefix: u8, host: u32)
    requires
        1 <= prefix <= 32,
    ensures
        (Network::V4 { addr, prefix }).covers(IpAddr::V4(host)) <==> host >> ((32 - prefix) as u32)
            == addr >> ((32 - prefix) as u32),
{
    let shift: u32 = (32 - prefix) as u32;
    assert((host & (!0u32 << shift) == addr & (!0u32 << shift)) <==> (host >> shift == addr
        >> shift)) by (bit_vector)
        requires
            shift < 32,
    ;
}

proof fn lemma_shift_keeps_first_bits(x: u128, shift: u128)
    requires
        shift < 128,
    ensures
        x & (!0u128 << shift) == (x >> shift) << shift,
        ((x >> shift) << shift) >> shift == x >> shift,
{
    assert(x & (!0u128 << shift) == (x >> shift) << shift) by (bit_vector)
        requires
            shift < 128,
    ;
    assert(((x >> shift) << shift) >> shift == x >> shift) by (bit_vector)
        requires
            shift < 128,
    ;
}

/// An address is in a network of the longer kind exactly if the two agree up to
/// the prefix.
pub proof fn first_bits_decide_v6(addr: u128, prefix: u8, host: u128)
    requires
        1 <= prefix <= 128,
    ensures
        (Network::V6 { addr, prefix }).covers(IpAddr::V6(host)) <==> host >> ((128 - prefix)
            as u128) == addr >> ((128 - prefix) as u128),
{
    let shift: u128 = (128 - prefix) as u128;
    lemma_shift_keeps_first_bits(host, shift);
    lemma_shift_keeps_first_bits(addr, shift);
}

/// A network without a prefix bit holds every address of its kind.
pub proof fn no_prefix_covers_all(addr: u32, host: u32)
    ensures
        (Network::V4 { addr, prefix: 0 }).covers(IpAddr::V4(host)),
{
    assert(host & 0u32 == 0u32) by (bit_vector);
    assert(addr & 0u32 == 0u32) by (bit_vector);
}

/// Where the first slash stands.
pub open spec fn slash_place(s: Seq<char>) -> Option<int>
    decreases s.len(),
{
    if s.len() == 0 {
        None
    } else {
        match slash_place(s.drop_last()) {
            Some(i) => Some(i),
            None => if s.last() == '/' {
                Some(s.len() - 1)
            } else {
                None
            },
        }
    }
}

/// How many bits a text behind the slash states: all of them, where there is no
/// slash.
pub open spec fn prefix_of(s: Option<Seq<char>>, bits: int) -> Option<u8> {
    match s {
        None => Some(bits as u8),
        Some(text) => match natural_of(text) {
            Some(n) => if n <= bits {
                Some(n as u8)
            } else {
                None
            },
            None => None,
        },
    }
}

/// The network that an address and a prefix stand for. A colon makes the address
/// one of the longer kind.
pub open spec fn network_from(address: Seq<char>, prefix: Option<Seq<char>>) -> Option<Network> {
    if address.contains(':') {
        match (coloned(address), prefix_of(prefix, 128)) {
            (Some(n), Some(prefix)) => Some(Network::V6 { addr: n as u128, prefix }),
            _ => None,
        }
    } else {
        match (dotted(address), prefix_of(prefix, 32)) {
            (Some(n), Some(prefix)) => Some(Network::V4 { addr: n as u32, prefix }),
            _ => None,
        }
    }
}

/// The network that a text stands for: an address, and behind a slash how many
/// bits are common.
pub open spec fn network_of(spec: Seq<char>) -> Option<Network> {
    let text = trimmed(spec);
    match slash_place(text) {
        None => network_from(text, None),
        Some(at) => network_from(text.take(at), Some(text.skip(at + 1))),
    }
}

fn find_slash(chars: &Vec<char>) -> (r: Option<usize>)
    ensures
        slash_place(chars@) == (match r {
            Some(i) => Some(i as int),
            None => None,
        }),
        r matches Some(i) ==> i < chars@.len(),
{
    let mut i: usize = 0;
    assert(chars@.take(0) =~= Seq::<char>::empty());
    while i < chars.len()
        invariant
            i <= chars.len(),
            slash_place(chars@.take(i as int)) is None,
        decreases chars.len() - i,
    {
        proof {
            assert(chars@.take(i + 1).drop_last() =~= chars@.take(i as int));
            assert(chars@.take(i + 1).last() == chars@[i as int]);
        }
        if chars[i] == '/' {
            proof {
                lemma_slash_stays(chars@, i + 1);
            }
            return Some(i);
        }
        i += 1;
    }
    assert(chars@.take(i as int) =~= chars@);
    None
}

proof fn lemma_slash_stays(s: Seq<char>, n: int)
    requires
        0 <= n <= s.len(),
        slash_place(s.take(n)) is Some,
    ensures
        slash_place(s) == slash_place(s.take(n)),
    decreases s.len() - n,
{
    if n == s.len() {
        assert(s.take(n) =~= s);
    } else {
        assert(s.take(n + 1).drop_last() =~= s.take(n));
        lemma_slash_stays(s, n + 1);
    }
}

fn has_colon(chars: &Vec<char>) -> (r: bool)
    ensures
        r == chars@.contains(':'),
{
    let mut i: usize = 0;
    while i < chars.len()
        invariant
            i <= chars.len(),
            forall|k: int| 0 <= k < i ==> chars@[k] != ':',
        decreases chars.len() - i,
    {
        if chars[i] == ':' {
            return true;
        }
        i += 1;
    }
    false
}

fn read_prefix(text: &Option<Vec<char>>, bits: u8) -> (r: Option<u8>)
    ensures
        r == prefix_of(
            match *text {
                Some(chars) => Some(chars@),
                None => None,
            },
            bits as int,
        ),
        r matches Some(prefix) ==> prefix <= bits,
{
    match text {
        None => Some(bits),
        Some(chars) => match parse_natural(text_of(chars.as_slice()).as_str(), bits as u64) {
            Some(n) => Some(n as u8),
            None => None,
        },
    }
}

fn read_network(chars: &Vec<char>) -> (r: Option<Network>)
    ensures
        r == network_of(chars@),
        r matches Some(network) ==> network.wf(),
{
    let text = trim(chars.as_slice());
    let (address, prefix) = match find_slash(&text) {
        None => {
            let whole = part(text.as_slice(), 0, text.len());
            assert(whole@ =~= text@);
            (whole, None)
        },
        Some(at) => {
            let total: usize = text.len();
            let head = part(text.as_slice(), 0, at);
            let tail = part(text.as_slice(), at + 1, total);
            assert(head@ =~= text@.take(at as int));
            assert(tail@ =~= text@.skip(at + 1));
            (head, Some(tail))
        },
    };
    if has_colon(&address) {
        match (read_coloned(&address), read_prefix(&prefix, 128)) {
            (Some(addr), Some(prefix)) => Some(Network::V6 { addr, prefix }),
            _ => None,
        }
    } else {
        match (read_dotted(&address), read_prefix(&prefix, 32)) {
            (Some(addr), Some(prefix)) => Some(Network::V4 { addr, prefix }),
            _ => None,
        }
    }
}

/// The network that a text stands for.
pub fn parse_network(spec: &str) -> (r: Result<Network, Error>)
    ensures
        match r {
            Ok(network) => network_of(spec@) == Some(network) && network.wf(),
            Err(e) => network_of(spec@) is None && e == Error::InvalidRootNetwork,
        },
{
    let chars = chars_of(spec);
    match read_network(&chars) {
        Some(network) => Ok(network),
        None => Err(Error::InvalidRootNetwork),
    }
}

/// The parts of a list, without white space around them and without empty ones.
pub open spec fn listed(parts: Seq<Seq<char>>) -> Seq<Seq<char>>
    decreases parts.len(),
{
    if parts.len() == 0 {
        Seq::empty()
    } else {
        let before = listed(parts.drop_last());
        let part = trimmed(parts.last());
        if part.len() == 0 {
            before
        } else {
            before.push(part)
        }
    }
}

/// The parts of several lists, one list after the other.
pub open spec fn all_listed(items: Seq<Seq<char>>, separators: Seq<char>) -> Seq<Seq<char>>
    decreases items.len(),
{
    if items.len() == 0 {
        Seq::empty()
    } else {
        all_listed(items.drop_last(), separators) + listed(
            pieces(items.last(), one_of(separators)),
        )
    }
}

/// Appends the parts of a list.
pub fn push_listed(out: &mut Vec<String>, item: &str, separators: &[char])
    ensures
        text_views(final(out)@) == text_views(old(out)@) + listed(
            pieces(item@, one_of(separators@)),
        ),
{
    let ghost before = text_views(out@);
    let chars = chars_of(item);
    let parts = split_at(chars.as_slice(), separators);
    let ghost views = char_views(parts@);
    let mut i: usize = 0;
    assert(views.take(0) =~= Seq::<Seq<char>>::empty());
    assert(text_views(out@) =~= before + listed(views.take(0)));
    while i < parts.len()
        invariant
            i <= parts.len(),
            views == char_views(parts@),
            text_views(out@) == before + listed(views.take(i as int)),
        decreases parts.len() - i,
    {
        let ghost shorter = text_views(out@);
        proof {
            assert(views[i as int] == parts@[i as int]@);
            assert(views.take(i + 1).drop_last() =~= views.take(i as int));
            assert(views.take(i + 1).last() == views[i as int]);
        }
        let inner = trim(parts[i].as_slice());
        if inner.len() > 0 {
            out.push(text_of(inner.as_slice()));
            assert(text_views(out@) =~= shorter.push(inner@));
        }
        i += 1;
        assert(text_views(out@) =~= before + listed(views.take(i as int)));
    }
    assert(views.take(i as int) =~= views);
}

/// What is listed by the caller, or else in the environment.
pub open spec fn cli_or_env(
    cli: Seq<Seq<char>>,
    env: Option<Seq<char>>,
    separators: Seq<char>,
) -> Seq<Seq<char>> {
    let given = all_listed(cli, separators);
    if given.len() > 0 {
        given
    } else {
        match env {
            Some(text) => listed(pieces(text, one_of(separators))),
            None => Seq::empty(),
        }
    }
}

/// What is listed by the caller, or else in the environment.
pub fn listed_by_cli_or_env(cli: &Vec<String>, env: Option<&str>, separators: &[char]) -> (r: Vec<
    String,
>)
    ensures
        text_views(r@) == cli_or_env(text_views(cli@), lent_text(env), separators@),
{
    let ghost given = text_views(cli@);
    let mut out: Vec<String> = Vec::new();
    let mut i: usize = 0;
    assert(given.take(0) =~= Seq::<Seq<char>>::empty());
    assert(text_views(out@) =~= all_listed(given.take(0), separators@));
    while i < cli.len()
        invariant
            i <= cli.len(),
            given == text_views(cli@),
            text_views(out@) == all_listed(given.take(i as int), separators@),
        decreases cli.len() - i,
    {
        proof {
            assert(given[i as int] == cli@[i as int]@);
            assert(given.take(i + 1).drop_last() =~= given.take(i as int));
            assert(given.take(i + 1).last() == given[i as int]);
        }
        push_listed(&mut out, cli[i].as_str(), separators);
        i += 1;
    }
    assert(given.take(i as int) =~= given);
    if out.len() == 0 {
        if let Some(text) = env {
            let ghost none = text_views(out@);
            push_listed(&mut out, text, separators);
            assert(none + listed(pieces(text@, one_of(separators@))) =~= listed(
                pieces(text@, one_of(separators@)),
            ));
        }
    }
    out
}

/// The networks that texts stand for, if each of them does.
pub open spec fn networks_of(parts: Seq<Seq<char>>) -> Option<Seq<Network>>
    decreases parts.len(),
{
    if parts.len() == 0 {
        Some(Seq::empty())
    } else {
        match (networks_of(parts.drop_last()), network_of(parts.last())) {
            (Some(front), Some(last)) => Some(front.push(last)),
            _ => None,
        }
    }
}

/// Every network is one.
pub open spec fn networks_wf(networks: Seq<Network>) -> bool {
    forall|i: int| 0 <= i < networks.len() ==> (#[trigger] networks[i]).wf()
}

proof fn lemma_networks_spoiled(parts: Seq<Seq<char>>, n: int)
    requires
        0 <= n <= parts.len(),
        networks_of(parts.take(n)) is None,
    ensures
        networks_of(parts) is None,
    decreases parts.len() - n,
{
    if n == parts.len() {
        assert(parts.take(n) =~= parts);
    } else {
        assert(parts.take(n + 1).drop_last() =~= parts.take(n));
        lemma_networks_spoiled(parts, n + 1);
    }
}

/// The networks that texts stand for.
pub fn parse_networks(parts: &Vec<String>) -> (r: Result<Vec<Network>, Error>)
    ensures
        match r {
            Ok(networks) => networks_of(text_views(parts@)) == Some(networks@) && networks_wf(
                networks@,
            ),
            Err(e) => networks_of(text_views(parts@)) is None && e == Error::InvalidRootNetwork,
        },
{
    let ghost views = text_views(parts@);
    let mut out: Vec<Network> = Vec::new();
    let mut i: usize = 0;
    assert(views.take(0) =~= Seq::<Seq<char>>::empty());
    while i < parts.len()
        invariant
            i <= parts.len(),
            views == text_views(parts@),
            networks_of(views.take(i as int)) == Some(out@),
            networks_wf(out@),
        decreases parts.len() - i,
    {
        proof {
            assert(views[i as int] == parts@[i as int]@);
            assert(views.take(i + 1).drop_last() =~= views.take(i as int));
            assert(views.take(i + 1).last() == views[i as int]);
        }
        match parse_network(parts[i].as_str()) {
            Ok(network) => {
                out.push(network);
            },
            Err(e) => {
                proof {
                    lemma_networks_spoiled(views, i + 1);
                }
                return Err(e);
            },
        }
        i += 1;
    }
    assert(views.take(i as int) =~= views);
    Ok(out)
}

/// The networks that some parts of a list stand for, of which there has to be
/// one.
pub open spec fn some_networks(parts: Seq<Seq<char>>) -> Result<Seq<Network>, Error> {
    if parts.len() == 0 {
        Err(Error::RootNetworkRequired)
    } else {
        match networks_of(parts) {
            Some(networks) => Ok(networks),
            None => Err(Error::InvalidRootNetwork),
        }
    }
}

/// The result of reading networks.
pub open spec fn networks_result(r: Result<Vec<Network>, Error>) -> Result<Seq<Network>, Error> {
    match r {
        Ok(networks) => Ok(networks@),
        Err(e) => Err(e),
    }
}

/// The networks of a list, of which there has to be one.
pub fn parse_network_list(spec: &str) -> (r: Result<Vec<Network>, Error>)
    ensures
        networks_result(r) == some_networks(
            listed(pieces(spec@, one_of(seq![',', ' ', '\n']))),
        ),
        r matches Ok(networks) ==> networks_wf(networks@),
{
    let separators: [char; 3] = [',', ' ', '\n'];
    let mut parts: Vec<String> = Vec::new();
    let ghost none = text_views(parts@);
    push_listed(&mut parts, spec, &separators);
    proof {
        assert(separators@ =~= seq![',', ' ', '\n']);
        let found = listed(pieces(spec@, one_of(seq![',', ' ', '\n'])));
        assert(none + found =~= found);
    }
    if parts.len() == 0 {
        return Err(Error::RootNetworkRequired);
    }
    parse_networks(&parts)
}

/// The networks that the caller names, or else the environment, of which there
/// has to be one.
pub fn networks_from_cli_or_env(cli: &Vec<String>, env: Option<&str>) -> (r: Result<
    Vec<Network>,
    Error,
>)
    ensures
        networks_result(r) == some_networks(
            cli_or_env(text_views(cli@), lent_text(env), seq![',', ' ', '\n']),
        ),
        r matches Ok(networks) ==> networks_wf(networks@),
{
    let separators: [char; 3] = [',', ' ', '\n'];
    assert(separators@ =~= seq![',', ' ', '\n']);
    let parts = listed_by_cli_or_env(cli, env, &separators);
    if parts.len() == 0 {
        return Err(Error::RootNetworkRequired);
    }
    parse_networks(&parts)
}

/// The networks that the caller names, or else the environment, if any.
pub fn optional_networks_from_cli_or_env(cli: &Vec<String>, env: Option<&str>) -> (r: Result<
    Vec<Network>,
    Error,
>)
    ensures
        ({
            let parts = cli_or_env(text_views(cli@), lent_text(env), seq![',', ' ', '\n']);
            match r {
                Ok(networks) => networks_of(parts) == Some(networks@) && networks_wf(networks@),
                Err(e) => networks_of(parts) is None && e == Error::InvalidRootNetwork,
            }
        }),
{
    match networks_from_cli_or_env(cli, env) {
        Ok(networks) => Ok(networks),
        Err(Error::RootNetworkRequired) => {
            let none: Vec<Network> = Vec::new();
            Ok(none)
        },
        Err(e) => Err(e),
    }
}

/// The name of an interface that tunnels.
pub open spec fn tunnel_name(name: Seq<char>) -> bool {
    let s = lowered(name);
    ||| begins_with(s, "tun"@)
    ||| begins_with(s, "tap"@)
    ||| begins_with(s, "wg"@)
    ||| begins_with(s, "utun"@)
    ||| begins_with(s, "tailscale"@)
    ||| begins_with(s, "ts-"@)
    ||| begins_with(s, "proton"@)
    ||| begins_with(s, "nordlynx"@)
    ||| begins_with(s, "ppp"@)
    ||| begins_with(s, "sit"@)
    ||| begins_with(s, "gre"@)
    ||| begins_with(s, "ipsec"@)
    ||| begins_with(s, "zt"@)
    ||| begins_with(s, "oc"@)
    ||| begins_with(s, "cscotun"@)
    ||| begins_with(s, "gpd"@)
}

/// Whether a name is that of an interface that tunnels.
pub fn is_tunnel_name(name: &str) -> (r: bool)
    ensures
        r == tunnel_name(name@),
{
    let chars = lowercase(chars_of(name).as_slice());
    let s = chars.as_slice();
    has_prefix(s, "tun") || has_prefix(s, "tap") || has_prefix(s, "wg") || has_prefix(s, "utun")
        || has_prefix(s, "tailscale") || has_prefix(s, "ts-") || has_prefix(s, "proton")
        || has_prefix(s, "nordlynx") || has_prefix(s, "ppp") || has_prefix(s, "sit") || has_prefix(
        s,
        "gre",
    ) || has_prefix(s, "ipsec") || has_prefix(s, "zt") || has_prefix(s, "oc") || has_prefix(
        s,
        "cscotun",
    ) || has_prefix(s, "gpd")
}

/// The hardware types of interfaces that tunnel.
pub open spec fn tunnel_arphrd(kind: int) -> bool {
    kind == 256 || kind == 512 || kind == 768 || kind == 769 || kind == 776 || kind == 778 || kind
        == 823 || kind == 65534
}

/// Whether a hardware type is that of an interface that tunnels.
pub fn is_tunnel_arphrd(kind: u32) -> (r: bool)
    ensures
        r == tunnel_arphrd(kind as int),
{
    kind == 256 || kind == 512 || kind == 768 || kind == 769 || kind == 776 || kind == 778 || kind
        == 823 || kind == 65534
}

/// Whether a text states the hardware type of an interface that tunnels.
pub fn arphrd_text_is_tunnel(text: &str) -> (r: bool)
    ensures
        r == (natural_of(trimmed(text@)) matches Some(kind) && tunnel_arphrd(kind as int)),
{
    let inner = text_of(trim(chars_of(text).as_slice()).as_slice());
    match parse_natural(inner.as_str(), 0xffff_ffff) {
        Some(kind) => is_tunnel_arphrd(kind as u32),
        None => false,
    }
}

/// Some network holds the address.
pub open spec fn covered(networks: Seq<Network>, ip: IpAddr) -> bool {
    exists|k: int| 0 <= k < networks.len() && (#[trigger] networks[k]).covers(ip)
}

/// Whether some network holds the address.
pub fn is_covered(networks: &Vec<Network>, ip: IpAddr) -> (r: bool)
    requires
        networks_wf(networks@),
    ensures
        r == covered(networks@, ip),
{
    let mut k: usize = 0;
    while k < networks.len()
        invariant
            k <= networks.len(),
            networks_wf(networks@),
            forall|m: int| 0 <= m < k ==> !(#[trigger] networks@[m]).covers(ip),
        decreases networks.len() - k,
    {
        assert(networks@[k as int].wf());
        if networks[k].contains(ip) {
            return true;
        }
        k += 1;
    }
    false
}

/// Some address on a tunnel is in one of the networks.
pub open spec fn on_tunnel(networks: Seq<Network>, addrs: Seq<LocalAddressView>) -> bool {
    exists|i: int|
        0 <= i < addrs.len() && (#[trigger] addrs[i]).is_tunnel && covered(networks, addrs[i].addr)
}

/// Whether some address on a tunnel is in one of the networks.
pub fn authorized_on_tunnel(networks: &Vec<Network>, addrs: &Vec<LocalAddress>) -> (r: bool)
    requires
        networks_wf(networks@),
    ensures
        r == on_tunnel(networks@, address_views(addrs@)),
{
    let ghost views = address_views(addrs@);
    let mut i: usize = 0;
    while i < addrs.len()
        invariant
            i <= addrs.len(),
            views == address_views(addrs@),
            networks_wf(networks@),
            forall|k: int|
                0 <= k < i ==> !((#[trigger] views[k]).is_tunnel && covered(
                    networks@,
                    views[k].addr,
                )),
        decreases addrs.len() - i,
    {
        assert(views[i as int] == addrs@[i as int]@);
        if addrs[i].is_tunnel && is_covered(networks, addrs[i].addr) {
            return true;
        }
        i += 1;
    }
    false
}

/// Refuses a machine that is not on a tunnel of one of the networks.
pub fn require_authorized_tunnel(networks: &Vec<Network>, addrs: &Vec<LocalAddress>) -> (r: Result<
    (),
    Error,
>)
    requires
        networks_wf(networks@),
    ensures
        fault_of(r) == (if on_tunnel(networks@, address_views(addrs@)) {
            None
        } else {
            Some(Error::RootNetworkRequired)
        }),
{
    if authorized_on_tunnel(networks, addrs) {
        Ok(())
    } else {
        Err(Error::RootNetworkRequired)
    }
}

/// By what a network is named: a signed policy, or the caller.
pub enum NetworkAuthority<'a> {
    Signed { policy: &'a ProviderPolicy, network_id: &'a str },
    CallerCidr(Vec<Network>),
}

/// Why a machine is not on a network of a policy, if it is not.
pub open spec fn presence_fault(
    network: CorporateNetworkView,
    addrs: Seq<LocalAddressView>,
    links: Seq<WifiLinkView>,
) -> Option<Error> {
    match network.mode {
        NetworkMode::Vpn => match networks_of(network.cidrs) {
            None => Some(Error::InvalidRootNetwork),
            Some(networks) => if on_tunnel(networks, addrs) {
                None
            } else {
                Some(Error::RootNetworkRequired)
            },
        },
        NetworkMode::Wifi => match wifi_verdict(network, links, addrs) {
            Err(e) => Some(e),
            Ok(authorized) => if authorized {
                None
            } else {
                Some(Error::RootNetworkRequired)
            },
        },
        NetworkMode::Ethernet => Some(Error::ProviderNetworkModeUnsupported),
    }
}

/// Refuses a machine that is not on a network of a policy.
pub fn require_signed_network_presence(
    network: &CorporateNetwork,
    addrs: &Vec<LocalAddress>,
    wifi: &Vec<WifiLink>,
) -> (r: Result<(), Error>)
    ensures
        fault_of(r) == presence_fault(
            network@,
            address_views(addrs@),
            crate::provider::network::link_views(wifi@),
        ),
{
    match network.mode {
        NetworkMode::Vpn => match parse_networks(&network.cidrs) {
            Ok(networks) => require_authorized_tunnel(&networks, addrs),
            Err(e) => Err(e),
        },
        NetworkMode::Wifi => match wifi_authorized(network, wifi, addrs) {
            Ok(authorized) => if authorized {
                Ok(())
            } else {
                Err(Error::RootNetworkRequired)
            },
            Err(e) => Err(e),
        },
        NetworkMode::Ethernet => Err(Error::ProviderNetworkModeUnsupported),
    }
}

/// Refuses a machine that is not on the named network of a signed policy. A
/// network that the caller names carries no authority.
pub fn authorize_corporate_network(
    authority: NetworkAuthority<'_>,
    addrs: &Vec<LocalAddress>,
    wifi: &Vec<WifiLink>,
) -> (r: Result<(), Error>)
    ensures
        fault_of(r) == (match authority {
            NetworkAuthority::CallerCidr(_) => Some(Error::CallerNetworkNotAuthoritative),
            NetworkAuthority::Signed { policy, network_id } => match network_place(
                policy.network_views(),
                network_id@,
            ) {
                None => Some(Error::InvalidProviderPolicy),
                Some(i) => presence_fault(
                    policy.network_views()[i],
                    address_views(addrs@),
                    crate::provider::network::link_views(wifi@),
                ),
            },
        }),
{
    match authority {
        NetworkAuthority::CallerCidr(_) => Err(Error::CallerNetworkNotAuthoritative),
        NetworkAuthority::Signed { policy, network_id } => {
            match corporate_network(policy, network_id) {
                Ok(network) => require_signed_network_presence(network, addrs, wifi),
                Err(e) => Err(e),
            }
        },
    }
}

/// The machine is where the root key may be made: on a tunnel of one of the
/// networks, or on a wireless network of one of the names.
pub open spec fn ceremony_present(
    networks: Seq<Network>,
    ssids: Seq<Seq<char>>,
    addrs: Seq<LocalAddressView>,
    links: Seq<WifiLinkView>,
) -> bool {
    on_tunnel(networks, addrs) || associated(ssids, links)
}

/// Refuses to make the root key elsewhere than on one of the named networks.
pub fn require_root_ceremony(
    networks: &Vec<Network>,
    ssids: &Vec<String>,
    addrs: &Vec<LocalAddress>,
    wifi: &Vec<WifiLink>,
) -> (r: Result<(), Error>)
    requires
        networks_wf(networks@),
    ensures
        fault_of(r) == (if ceremony_present(
            networks@,
            text_views(ssids@),
            address_views(addrs@),
            crate::provider::network::link_views(wifi@),
        ) {
            None
        } else {
            Some(Error::RootNetworkRequired)
        }),
{
    if authorized_on_tunnel(networks, addrs) || associated_with_any_ssid(ssids, wifi) {
        Ok(())
    } else {
        Err(Error::RootNetworkRequired)
    }
}

/// Without a network and without a name nothing is authorized.
pub proof fn nothing_named_authorizes_nothing(
    addrs: Seq<LocalAddressView>,
    links: Seq<WifiLinkView>,
)
    ensures
        !ceremony_present(Seq::empty(), Seq::empty(), addrs, links),
{
}

/// A text without a slash is an address of which all bits count. Otherwise what stands
/// before the first slash is the address, and behind it how many bits count.
pub proof fn slash_parts_address_and_prefix(address: Seq<char>, prefix: Seq<char>)
    requires
        !address.contains('/'),
    ensures
        trimmed(address) == address ==> network_of(address) == network_from(address, None),
        trimmed(address.push('/') + prefix) == address.push('/') + prefix ==> network_of(
            address.push('/') + prefix,
        ) == network_from(address, Some(prefix)),
{
    let all = address.push('/') + prefix;
    lemma_first_slash(address, prefix);
    assert(all.take(address.len() as int) =~= address);
    assert(all.skip(address.len() as int + 1) =~= prefix);
    lemma_no_slash(address);
}

proof fn lemma_no_slash(s: Seq<char>)
    requires
        !s.contains('/'),
    ensures
        slash_place(s) is None,
    decreases s.len(),
{
    if s.len() > 0 {
        assert forall|i: int| 0 <= i < s.len() - 1 implies s.drop_last()[i] != '/' by {
            assert(s.contains(s[i]));
        }
        lemma_no_slash(s.drop_last());
        assert(s.contains(s.last()));
    }
}

proof fn lemma_first_slash(a: Seq<char>, b: Seq<char>)
    requires
        !a.contains('/'),
    ensures
        slash_place(a.push('/') + b) == Some(a.len() as int),
    decreases b.len(),
{
    let all = a.push('/') + b;
    if b.len() > 0 {
        assert(all.drop_last() =~= a.push('/') + b.drop_last());
        lemma_first_slash(a, b.drop_last());
    } else {
        assert(all.drop_last() =~= a);
        lemma_no_slash(a);
    }
}

/// A dotted address makes a network with up to 32 bits in common, and one between colons a
/// network with up to 128.
pub proof fn networks_have_so_many_bits(address: Seq<char>, prefix: Seq<char>)
    ensures
        network_from(address, None) is Some <==> (if address.contains(':') {
            coloned(address) is Some
        } else {
            dotted(address) is Some
        }),
        network_from(address, Some(prefix)) is Some <==> {
            &&& network_from(address, None) is Some
            &&& natural_of(prefix) is Some
            &&& natural_of(prefix)->0 <= (if address.contains(':') {
                128
            } else {
                32nat
            })
        },
        !address.contains(':') && network_from(address, None) is Some ==> network_from(
            address,
            None,
        ) == Some(Network::V4 { addr: dotted(address)->0 as u32, prefix: 32 }),
        !address.contains(':') && network_from(address, Some(prefix)) is Some ==> network_from(
            address,
            Some(prefix),
        ) == Some(
            Network::V4 { addr: dotted(address)->0 as u32, prefix: natural_of(prefix)->0 as u8 },
        ),
        address.contains(':') && network_from(address, None) is Some ==> network_from(
            address,
            None,
        ) == Some(Network::V6 { addr: coloned(address)->0 as u128, prefix: 128 }),
        address.contains(':') && network_from(address, Some(prefix)) is Some ==> network_from(
            address,
            Some(prefix),
        ) == Some(
            Network::V6 { addr: coloned(address)->0 as u128, prefix: natural_of(prefix)->0 as u8 },
        ),
{
}

/// A list has the parts that are not blank, without the white space around them, in order.
pub proof fn blank_parts_are_not_listed(parts: Seq<Seq<char>>)
    ensures
        listed(parts) == parts.map_values(|p: Seq<char>| trimmed(p)).filter(
            |p: Seq<char>| p.len() > 0,
        ),
    decreases parts.len(),
{
    reveal(Seq::filter);
    let cut = |p: Seq<char>| trimmed(p);
    let kept = |p: Seq<char>| p.len() > 0;
    if parts.len() > 0 {
        blank_parts_are_not_listed(parts.drop_last());
        let all = parts.map_values(cut);
        assert(all.drop_last() =~= parts.drop_last().map_values(cut));
        assert(all.last() == trimmed(parts.last()));
    } else {
        assert(parts.map_values(cut).filter(kept) =~= Seq::<Seq<char>>::empty());
    }
}

/// What the caller lists is taken, and what the environment lists only where the caller
/// lists nothing.
pub proof fn caller_goes_before_the_environment(
    cli: Seq<Seq<char>>,
    env: Option<Seq<char>>,
    separators: Seq<char>,
)
    ensures
        (exists|k: int|
            0 <= k < cli.len() && listed(
                pieces(#[trigger] cli[k], one_of(separators)),
            ).len() > 0) ==> cli_or_env(cli, env, separators) == cli_or_env(cli, None, separators)
            && cli_or_env(cli, env, separators).len() > 0,
        (forall|k: int|
            0 <= k < cli.len() ==> listed(pieces(#[trigger] cli[k], one_of(separators))).len() == 0)
            ==> cli_or_env(cli, env, separators) == (match env {
            Some(text) => listed(pieces(text, one_of(separators))),
            None => Seq::empty(),
        }),
        cli.len() == 1 && listed(pieces(cli[0], one_of(separators))).len() > 0 ==> cli_or_env(
            cli,
            env,
            separators,
        ) == listed(pieces(cli[0], one_of(separators))),
{
    lemma_all_listed(cli, separators);
    if cli.len() == 1 {
        assert(cli.drop_last() =~= Seq::<Seq<char>>::empty());
        assert(all_listed(cli.drop_last(), separators) =~= Seq::<Seq<char>>::empty());
        assert(all_listed(cli, separators) =~= listed(pieces(cli[0], one_of(separators))));
    }
}

proof fn lemma_all_listed(items: Seq<Seq<char>>, separators: Seq<char>)
    ensures
        all_listed(items, separators).len() == 0 <==> forall|k: int|
            0 <= k < items.len() ==> listed(
                pieces(#[trigger] items[k], one_of(separators)),
            ).len() == 0,
    decreases items.len(),
{
    if items.len() > 0 {
        let front = items.drop_last();
        lemma_all_listed(front, separators);
        assert forall|k: int| 0 <= k < front.len() implies #[trigger] front[k] == items[k] by {}
        if all_listed(items, separators).len() == 0 {
            assert forall|k: int| 0 <= k < items.len() implies listed(
                pieces(#[trigger] items[k], one_of(separators)),
            ).len() == 0 by {
                if k < front.len() {
                    assert(front[k] == items[k]);
                }
            }
        }
        if forall|k: int|
            0 <= k < items.len() ==> listed(
                pieces(#[trigger] items[k], one_of(separators)),
            ).len() == 0 {
            assert forall|k: int| 0 <= k < front.len() implies listed(
                pieces(#[trigger] front[k], one_of(separators)),
            ).len() == 0 by {
                assert(front[k] == items[k]);
            }
            assert(listed(pieces(items[items.len() - 1], one_of(separators))).len() == 0);
        }
    }
}

/// Networks are read where each of the texts is one, and each as its own text says.
pub proof fn each_text_is_its_network(parts: Seq<Seq<char>>)
    ensures
        networks_of(parts) is Some <==> forall|i: int|
            0 <= i < parts.len() ==> network_of(#[trigger] parts[i]) is Some,
        networks_of(parts) matches Some(networks) ==> networks.len() == parts.len() && forall|
            i: int,
        |
            0 <= i < parts.len() ==> Some(#[trigger] networks[i]) == network_of(parts[i]),
    decreases parts.len(),
{
    if parts.len() > 0 {
        let front = parts.drop_last();
        each_text_is_its_network(front);
        assert forall|i: int| 0 <= i < front.len() implies #[trigger] front[i] == parts[i] by {}
        if networks_of(parts) is Some {
            let networks = networks_of(parts)->0;
            let before = networks_of(front)->0;
            assert forall|i: int| 0 <= i < parts.len() implies Some(#[trigger] networks[i])
                == network_of(parts[i]) by {
                if i < front.len() {
                    assert(networks[i] == before[i]);
                    assert(network_of(front[i]) == Some(before[i]));
                }
            }
            assert forall|i: int| 0 <= i < parts.len() implies network_of(#[trigger] parts[i])
                is Some by {
                assert(Some(networks[i]) == network_of(parts[i]));
            }
        }
        if forall|i: int| 0 <= i < parts.len() ==> network_of(#[trigger] parts[i]) is Some {
            assert forall|i: int| 0 <= i < front.len() implies network_of(#[trigger] front[i])
                is Some by {
                assert(network_of(parts[i]) is Some);
            }
            assert(network_of(parts[parts.len() - 1]) is Some);
        }
    }
}

/// Capitals do not count in the name of an interface, and an empty name is no tunnel's.
pub proof fn tunnel_names_in_either_case(name: Seq<char>)
    ensures
        tunnel_name(lowered(name)) == tunnel_name(name),
        name.len() < 2 ==> !tunnel_name(name),
{
    assert(lowered(lowered(name)) =~= lowered(name));
    reveal_strlit("tun");
    reveal_strlit("tap");
    reveal_strlit("wg");
    reveal_strlit("utun");
    reveal_strlit("tailscale");
    reveal_strlit("ts-");
    reveal_strlit("proton");
    reveal_strlit("nordlynx");
    reveal_strlit("ppp");
    reveal_strlit("sit");
    reveal_strlit("gre");
    reveal_strlit("ipsec");
    reveal_strlit("zt");
    reveal_strlit("oc");
    reveal_strlit("cscotun");
    reveal_strlit("gpd");
}

/// A name that goes on from the start of a tunnel's name, in small letters, is one.
pub proof fn tunnel_names_go_on(start: Seq<char>, rest: Seq<char>)
    requires
        lowered(start) == start,
        start == "tun"@ || start == "tap"@ || start == "wg"@ || start == "utun"@ || start
            == "tailscale"@ || start == "ts-"@ || start == "proton"@ || start == "nordlynx"@
            || start == "ppp"@ || start == "sit"@ || start == "gre"@ || start == "ipsec"@ || start
            == "zt"@ || start == "oc"@ || start == "cscotun"@ || start == "gpd"@,
    ensures
        tunnel_name(start + rest),
{
    let s = lowered(start + rest);
    assert(s.take(start.len() as int) =~= lowered(start));
}

/// The hardware types that tunnel.
pub proof fn hardware_types_that_tunnel(kind: int)
    ensures
        tunnel_arphrd(kind) <==> seq![256int, 512, 768, 769, 776, 778, 823, 65534].contains(kind),
{
    let kinds = seq![256int, 512, 768, 769, 776, 778, 823, 65534];
    assert(kinds[0] == 256 && kinds[1] == 512 && kinds[2] == 768 && kinds[3] == 769 && kinds[4]
        == 776 && kinds[5] == 778 && kinds[6] == 823 && kinds[7] == 65534);
}

/// A machine is on a tunnel of some networks exactly if one of its addresses is on an
/// interface that tunnels and in one of the networks.
pub proof fn tunnel_needs_an_address_in_a_network(
    networks: Seq<Network>,
    addrs: Seq<LocalAddressView>,
)
    ensures
        on_tunnel(networks, addrs) <==> exists|i: int, k: int|
            0 <= i < addrs.len() && 0 <= k < networks.len() && (#[trigger] addrs[i]).is_tunnel && (
            #[trigger] networks[k]).covers(addrs[i].addr),
{
    if on_tunnel(networks, addrs) {
        let i = choose|i: int|
            0 <= i < addrs.len() && (#[trigger] addrs[i]).is_tunnel && covered(
                networks,
                addrs[i].addr,
            );
        let k = choose|k: int|
            0 <= k < networks.len() && (#[trigger] networks[k]).covers(addrs[i].addr);
        assert(addrs[i].is_tunnel && networks[k].covers(addrs[i].addr));
    }
    if exists|i: int, k: int|
        0 <= i < addrs.len() && 0 <= k < networks.len() && (#[trigger] addrs[i]).is_tunnel && (
        #[trigger] networks[k]).covers(addrs[i].addr) {
        let (i, k) = choose|i: int, k: int|
            0 <= i < addrs.len() && 0 <= k < networks.len() && (#[trigger] addrs[i]).is_tunnel && (
            #[trigger] networks[k]).covers(addrs[i].addr);
        assert(covered(networks, addrs[i].addr));
    }
}

/// An address of one kind is in no network of the other.
pub proof fn kinds_of_addresses_do_not_mix(addr4: u32, addr6: u128, prefix: u8, ip4: u32, ip6: u128)
    ensures
        !(Network::V4 { addr: addr4, prefix }).covers(IpAddr::V6(ip6)),
        !(Network::V6 { addr: addr6, prefix }).covers(IpAddr::V4(ip4)),
        (Network::V6 { addr: addr6, prefix: 0 }).covers(IpAddr::V6(ip6)),
{
    assert(ip6 & 0 == 0u128) by (bit_vector);
    assert(addr6 & 0 == 0u128) by (bit_vector);
}

/// A network of a policy that is a tunnel asks for an address on a tunnel in one of its
/// blocks, a wireless one that it is joined, and any other is not supported.
pub proof fn presence_goes_by_the_mode(
    network: CorporateNetworkView,
    addrs: Seq<LocalAddressView>,
    links: Seq<WifiLinkView>,
)
    ensures
        network.mode == NetworkMode::Ethernet ==> presence_fault(network, addrs, links) == Some(
            Error::ProviderNetworkModeUnsupported,
        ),
        network.mode == NetworkMode::Vpn ==> {
            let blocks = networks_of(network.cidrs);
            &&& blocks is None ==> presence_fault(network, addrs, links) == Some(
                Error::InvalidRootNetwork,
            )
            &&& blocks is Some ==> (presence_fault(network, addrs, links) is None <==> on_tunnel(
                blocks->0,
                addrs,
            ))
            &&& blocks is Some && !on_tunnel(blocks->0, addrs) ==> presence_fault(
                network,
                addrs,
                links,
            ) == Some(Error::RootNetworkRequired)
        },
        network.mode == NetworkMode::Wifi ==> {
            &&& presence_fault(network, addrs, links) is None <==> wifi_verdict(
                network,
                links,
                addrs,
            ) == Ok::<bool, Error>(true)
            &&& wifi_verdict(network, links, addrs) == Ok::<bool, Error>(false) ==> presence_fault(
                network,
                addrs,
                links,
            ) == Some(Error::RootNetworkRequired)
        },
{
}

/// The root key may be made on a tunnel as well as on a named wireless network.
pub proof fn either_network_will_do(
    networks: Seq<Network>,
    ssids: Seq<Seq<char>>,
    addrs: Seq<LocalAddressView>,
    links: Seq<WifiLinkView>,
)
    ensures
        on_tunnel(networks, addrs) ==> ceremony_present(networks, ssids, addrs, links),
        associated(ssids, links) ==> ceremony_present(networks, ssids, addrs, links),
        ceremony_present(networks, Seq::empty(), addrs, links) <==> on_tunnel(networks, addrs),
        ceremony_present(Seq::empty(), ssids, addrs, links) <==> associated(ssids, links),
{
}

} // verus!
