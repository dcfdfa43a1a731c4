//! Wireless networks: their interfaces, and whether one of a policy is joined.
//!
//! Names, access points and blocks are never built in. An address may change, so
//! a network is known by its name, and where the policy says more, by that too.

use vstd::prelude::*;

use crate::encoding::hex_value;
use crate::error::Error;
use crate::provider::policy::{present, CorporateNetwork, CorporateNetworkView, NetworkMode};
use crate::provider::root_network::{
    address_views, cli_or_env, covered, is_covered, listed_by_cli_or_env, networks_of, networks_wf,
    parse_networks, LocalAddress, LocalAddressView, Network,
};
use crate::text::{
    begins_with, chars_of, has_prefix, lent_text, lower, lowercase, lowered, optional_text,
    text_equal, text_of, text_views, to_lower,
};

verus! {

/// A wireless network that is joined.
#[derive(Debug)]
pub struct WifiLink {
    pub iface: String,
    pub ssid: String,
    pub bssid: Option<String>,
}

#[verifier::ext_equal]
pub struct WifiLinkView {
    pub iface: Seq<char>,
    pub ssid: Seq<char>,
    pub bssid: Option<Seq<char>>,
}

impl View for WifiLink {
    type V = WifiLinkView;

    open spec fn view(&self) -> WifiLinkView {
        WifiLinkView { iface: self.iface@, ssid: self.ssid@, bssid: optional_text(self.bssid) }
    }
}

pub open spec fn link_views(links: Seq<WifiLink>) -> Seq<WifiLinkView> {
    Seq::new(links.len(), |i: int| links[i]@)
}

/// The name of a wireless interface.
pub open spec fn wifi_name(name: Seq<char>) -> bool {
    let s = lowered(name);
    ||| begins_with(s, "wlan"@)
    ||| begins_with(s, "wlp"@)
    ||| begins_with(s, "wlx"@)
    ||| begins_with(s, "wifi"@)
}

/// Whether a name is that of a wireless interface.
pub fn is_wifi_name(name: &str) -> (r: bool)
    ensures
        r == wifi_name(name@),
{
    let chars = lowercase(chars_of(name).as_slice());
    let s = chars.as_slice();
    has_prefix(s, "wlan") || has_prefix(s, "wlp") || has_prefix(s, "wlx") || has_prefix(s, "wifi")
}

/// The hexadecimal digits of a text, in small letters.
pub open spec fn hex_digits(s: Seq<char>) -> Seq<char>
    decreases s.len(),
{
    if s.len() == 0 {
        Seq::empty()
    } else {
        let before = hex_digits(s.drop_last());
        if hex_value(s.last()) is Some {
            before.push(lower(s.last()))
        } else {
            before
        }
    }
}

/// Twelve digits in pairs, with colons between them.
pub open spec fn paired(digits: Seq<char>) -> Seq<char> {
    Seq::new(
        17,
        |i: int|
            if i % 3 == 2 {
                ':'
            } else {
                digits[i / 3 * 2 + i % 3]
            },
    )
}

/// The form in which the hardware address of an access point is kept, if a text
/// holds one: whatever stands between its digits does not count.
pub open spec fn bssid_of(text: Seq<char>) -> Option<Seq<char>> {
    let digits = hex_digits(text);
    if digits.len() == 12 {
        Some(paired(digits))
    } else {
        None
    }
}

/// The form in which the hardware address of an access point is kept.
pub fn normalize_bssid(value: &str) -> (r: Result<String, Error>)
    ensures
        match r {
            Ok(normal) => bssid_of(value@) == Some(normal@),
            Err(e) => bssid_of(value@) is None && e == Error::InvalidProviderPolicy,
        },
{
    let chars = chars_of(value);
    let mut digits: Vec<char> = Vec::new();
    let mut i: usize = 0;
    assert(chars@.take(0) =~= Seq::<char>::empty());
    while i < chars.len()
        invariant
            i <= chars.len(),
            chars@ == value@,
            digits@ == hex_digits(chars@.take(i as int)),
        decreases chars.len() - i,
    {
        let c = chars[i];
        proof {
            assert(chars@.take(i + 1).drop_last() =~= chars@.take(i as int));
            assert(chars@.take(i + 1).last() == c);
        }
        if ('0' <= c && c <= '9') || ('a' <= c && c <= 'f') || ('A' <= c && c <= 'F') {
            digits.push(to_lower(c));
        }
        i += 1;
    }
    assert(chars@.take(i as int) =~= chars@);
    if digits.len() != 12 {
        return Err(Error::InvalidProviderPolicy);
    }
    let mut out: Vec<char> = Vec::new();
    let mut k: usize = 0;
    while k < 17
        invariant
            k <= 17,
            digits@.len() == 12,
            out@.len() == k,
            forall|m: int| 0 <= m < k ==> #[trigger] out@[m] == paired(digits@)[m],
        decreases 17 - k,
    {
        if k % 3 == 2 {
            out.push(':');
        } else {
            out.push(digits[k / 3 * 2 + k % 3]);
        }
        k += 1;
    }
    assert(out@ =~= paired(digits@));
    Ok(text_of(out.as_slice()))
}

/// The names of networks that the caller lists, or else the environment.
pub fn ssids_from_cli_or_env(cli: &Vec<String>, env: Option<&str>) -> (r: Vec<String>)
    ensures
        text_views(r@) == cli_or_env(text_views(cli@), lent_text(env), seq![',', '\n']),
{
    let separators: [char; 2] = [',', '\n'];
    assert(separators@ =~= seq![',', '\n']);
    listed_by_cli_or_env(cli, env, &separators)
}

/// A network with one of the names is joined.
pub open spec fn associated(ssids: Seq<Seq<char>>, links: Seq<WifiLinkView>) -> bool {
    exists|k: int|
        0 <= k < links.len() && (#[trigger] links[k]).ssid.len() > 0 && ssids.contains(
            links[k].ssid,
        )
}

/// Whether a network with one of the names is joined.
pub fn associated_with_any_ssid(ssids: &Vec<String>, links: &Vec<WifiLink>) -> (r: bool)
    ensures
        r == associated(text_views(ssids@), link_views(links@)),
{
    let ghost views = link_views(links@);
    let mut k: usize = 0;
    while k < links.len()
        invariant
            k <= links.len(),
            views == link_views(links@),
            forall|m: int|
                0 <= m < k ==> !((#[trigger] views[m]).ssid.len() > 0 && text_views(
                    ssids@,
                ).contains(views[m].ssid)),
        decreases links.len() - k,
    {
        assert(views[k as int] == links@[k as int]@);
        if !links[k].ssid.as_str().is_empty() && crate::text::contains_text(
            ssids,
            links[k].ssid.as_str(),
        ) {
            return true;
        }
        k += 1;
    }
    false
}

/// The access point is the wanted one, where one is wanted.
pub open spec fn access_point_fits(want: Option<Seq<char>>, have: Option<Seq<char>>) -> bool {
    want matches Some(want) ==> (have matches Some(have) && bssid_of(have) == Some(want))
}

/// Some address of the interface is in one of the networks, where there are any.
pub open spec fn subnet_fits(
    cidrs: Seq<Network>,
    iface: Seq<char>,
    addrs: Seq<LocalAddressView>,
) -> bool {
    cidrs.len() == 0 || exists|i: int|
        0 <= i < addrs.len() && (#[trigger] addrs[i]).is_wifi && addrs[i].iface == iface && covered(
            cidrs,
            addrs[i].addr,
        )
}

/// The joined network is the wanted one.
pub open spec fn link_fits(
    link: WifiLinkView,
    ssid: Seq<char>,
    want_bssid: Option<Seq<char>>,
    cidrs: Seq<Network>,
    addrs: Seq<LocalAddressView>,
) -> bool {
    link.ssid == ssid && access_point_fits(want_bssid, link.bssid) && subnet_fits(
        cidrs,
        link.iface,
        addrs,
    )
}

/// Whether a wireless network of a policy is joined, or what is wrong with the
/// policy.
pub open spec fn wifi_verdict(
    network: CorporateNetworkView,
    links: Seq<WifiLinkView>,
    addrs: Seq<LocalAddressView>,
) -> Result<bool, Error> {
    if network.mode != NetworkMode::Wifi {
        Ok(false)
    } else {
        match (present(network.ssid), crate::provider::policy::bssid_given(network.bssid_mac)) {
            (Some(ssid), Some(want_bssid)) => match networks_of(network.cidrs) {
                None => Err(Error::InvalidRootNetwork),
                Some(cidrs) => Ok(
                    exists|k: int|
                        0 <= k < links.len() && link_fits(
                            #[trigger] links[k],
                            ssid,
                            want_bssid,
                            cidrs,
                            addrs,
                        ),
                ),
            },
            _ => Err(Error::InvalidProviderPolicy),
        }
    }
}

fn check_subnet(cidrs: &Vec<Network>, iface: &str, addrs: &Vec<LocalAddress>) -> (r: bool)
    requires
        networks_wf(cidrs@),
    ensures
        r == subnet_fits(cidrs@, iface@, address_views(addrs@)),
{
    if cidrs.len() == 0 {
        return true;
    }
    let ghost views = address_views(addrs@);
    let mut i: usize = 0;
    while i < addrs.len()
        invariant
            i <= addrs.len(),
            views == address_views(addrs@),
            cidrs@.len() > 0,
            networks_wf(cidrs@),
            forall|k: int|
                0 <= k < i ==> !((#[trigger] views[k]).is_wifi && views[k].iface == iface@
                    && covered(cidrs@, views[k].addr)),
        decreases addrs.len() - i,
    {
        assert(views[i as int] == addrs@[i as int]@);
        if addrs[i].is_wifi && text_equal(addrs[i].iface.as_str(), iface) && is_covered(
            cidrs,
            addrs[i].addr,
        ) {
            return true;
        }
        i += 1;
    }
    false
}

fn check_link(
    link: &WifiLink,
    ssid: &str,
    want_bssid: &Option<String>,
    cidrs: &Vec<Network>,
    addrs: &Vec<LocalAddress>,
) -> (r: bool)
    requires
        networks_wf(cidrs@),
    ensures
        r == link_fits(
            link@,
            ssid@,
            optional_text(*want_bssid),
            cidrs@,
            address_views(addrs@),
        ),
{
    if !text_equal(link.ssid.as_str(), ssid) {
        return false;
    }
    if let Some(want) = want_bssid {
        let same = match &link.bssid {
            Some(have) => match normalize_bssid(have.as_str()) {
                Ok(normal) => text_equal(normal.as_str(), want.as_str()),
                Err(_) => false,
            },
            None => false,
        };
        if !same {
            return false;
        }
    }
    check_subnet(cidrs, link.iface.as_str(), addrs)
}

/// Whether a wireless network of a policy is joined.
pub fn wifi_authorized(
    network: &CorporateNetwork,
    links: &Vec<WifiLink>,
    addrs: &Vec<LocalAddress>,
) -> (r: Result<bool, Error>)
    ensures
        r == wifi_verdict(network@, link_views(links@), address_views(addrs@)),
{
    if network.mode != NetworkMode::Wifi {
        return Ok(false);
    }
    let ssid = match &network.ssid {
        Some(ssid) => {
            if ssid.as_str().is_empty() {
                return Err(Error::InvalidProviderPolicy);
            }
            ssid.as_str()
        },
        None => return Err(Error::InvalidProviderPolicy),
    };
    let want_bssid: Option<String> = match &network.bssid_mac {
        Some(raw) => {
            if raw.as_str().is_empty() {
                None
            } else {
                match normalize_bssid(raw.as_str()) {
                    Ok(normal) => Some(normal),
                    Err(e) => return Err(e),
                }
            }
        },
        None => None,
    };
    let cidrs = match parse_networks(&network.cidrs) {
        Ok(cidrs) => cidrs,
        Err(e) => return Err(e),
    };
    let ghost views = link_views(links@);
    let mut k: usize = 0;
    while k < links.len()
        invariant
            k <= links.len(),
            views == link_views(links@),
            networks_wf(cidrs@),
            network@.mode == NetworkMode::Wifi,
            present(network@.ssid) == Some(ssid@),
            crate::provider::policy::bssid_given(network@.bssid_mac) == Some(
                optional_text(want_bssid),
            ),
            networks_of(network@.cidrs) == Some(cidrs@),
            forall|m: int|
                0 <= m < k ==> !link_fits(
                    #[trigger] views[m],
                    ssid@,
                    optional_text(want_bssid),
                    cidrs@,
                    address_views(addrs@),
                ),
        decreases links.len() - k,
    {
        assert(views[k as int] == links@[k as int]@);
        if check_link(&links[k], ssid, &want_bssid, &cidrs, addrs) {
            assert(link_fits(
                views[k as int],
                ssid@,
                optional_text(want_bssid),
                cidrs@,
                address_views(addrs@),
            ));
            return Ok(true);
        }
        k += 1;
    }
    Ok(false)
}

proof fn lemma_hex_digits_join(a: Seq<char>, b: Seq<char>)
    ensures
        hex_digits(a + b) == hex_digits(a) + hex_digits(b),
    decreases b.len(),
{
    if b.len() == 0 {
        assert(a + b =~= a);
        assert(hex_digits(a) + hex_digits(b) =~= hex_digits(a));
    } else {
        assert((a + b).drop_last() =~= a + b.drop_last());
        assert((a + b).last() == b.last());
        lemma_hex_digits_join(a, b.drop_last());
        assert(hex_digits(a + b) =~= hex_digits(a) + hex_digits(b));
    }
}

/// What stands between the digits of a hardware address does not count: two texts
/// with the same digits are kept alike.
pub proof fn separators_do_not_count(a: Seq<char>, b: Seq<char>, separator: char)
    requires
        hex_value(separator) is None,
    ensures
        bssid_of(a + seq![separator] + b) == bssid_of(a + b),
{
    lemma_hex_digits_join(a + seq![separator], b);
    lemma_hex_digits_join(a, seq![separator]);
    lemma_hex_digits_join(a, b);
    let one = seq![separator];
    assert(one.drop_last() =~= Seq::<char>::empty());
    assert(hex_digits(one.drop_last()) =~= Seq::<char>::empty());
    assert(one.last() == separator);
    assert(hex_digits(a) + hex_digits(one) =~= hex_digits(a));
}

/// A name is that of a wireless interface exactly if it starts, in letters of either case,
/// as such names do.
pub proof fn wireless_names_start_so(name: Seq<char>, rest: Seq<char>)
    ensures
        wifi_name("wlan"@ + rest),
        wifi_name("wlp"@ + rest),
        wifi_name("wlx"@ + rest),
        wifi_name("wifi"@ + rest),
        wifi_name(lowered(name)) == wifi_name(name),
        name.len() > 0 && lower(name[0]) != 'w' ==> !wifi_name(name),
        name.len() < 3 ==> !wifi_name(name),
{
    reveal_strlit("wlan");
    reveal_strlit("wlp");
    reveal_strlit("wlx");
    reveal_strlit("wifi");
    assert(lowered("wlan"@ + rest).take(4) =~= "wlan"@);
    assert(lowered("wlp"@ + rest).take(3) =~= "wlp"@);
    assert(lowered("wlx"@ + rest).take(3) =~= "wlx"@);
    assert(lowered("wifi"@ + rest).take(4) =~= "wifi"@);
    assert(lowered(lowered(name)) =~= lowered(name));
    if name.len() > 0 && wifi_name(name) {
        let s = lowered(name);
        assert(s[0] == s.take(3)[0] || s[0] == s.take(4)[0]);
        if begins_with(s, "wlan"@) {
            assert(s.take(4)[0] == 'w');
        } else if begins_with(s, "wifi"@) {
            assert(s.take(4)[0] == 'w');
        } else if begins_with(s, "wlp"@) {
            assert(s.take(3)[0] == 'w');
        } else {
            assert(s.take(3)[0] == 'w');
        }
        assert(s[0] == lower(name[0]));
    }
}

/// The hardware address of an access point is kept as six pairs of small digits with colons
/// between them, where there are twelve digits, and not at all where there are not.
pub proof fn twelve_digits_are_kept_in_pairs(digits: Seq<char>, k: int)
    requires
        forall|i: int| 0 <= i < digits.len() ==> hex_value(#[trigger] digits[i]) is Some,
    ensures
        bssid_of(digits) is Some <==> digits.len() == 12,
        bssid_of(digits) matches Some(kept) ==> kept.len() == 17,
        digits.len() == 12 && 0 <= k < 6 ==> {
            let kept = bssid_of(digits)->0;
            &&& kept[3 * k] == lower(digits[2 * k])
            &&& kept[3 * k + 1] == lower(digits[2 * k + 1])
            &&& k < 5 ==> kept[3 * k + 2] == ':'
        },
{
    lemma_all_digits(digits);
}

proof fn lemma_all_digits(digits: Seq<char>)
    requires
        forall|i: int| 0 <= i < digits.len() ==> hex_value(#[trigger] digits[i]) is Some,
    ensures
        hex_digits(digits) == lowered(digits),
    decreases digits.len(),
{
    if digits.len() > 0 {
        let front = digits.drop_last();
        assert forall|i: int| 0 <= i < front.len() implies hex_value(#[trigger] front[i])
            is Some by {
            assert(front[i] == digits[i]);
        }
        lemma_all_digits(front);
        assert(hex_value(digits[digits.len() - 1]) is Some);
        assert(lowered(front).push(lower(digits.last())) =~= lowered(digits));
    } else {
        assert(lowered(digits) =~= Seq::<char>::empty());
    }
}

/// A joined network counts exactly if its name is not empty and one of those named.
pub proof fn named_networks_count(ssids: Seq<Seq<char>>, links: Seq<WifiLinkView>)
    ensures
        associated(ssids, links) <==> exists|j: int, k: int|
            0 <= j < ssids.len() && 0 <= k < links.len() && #[trigger] ssids[j] == (
            #[trigger] links[k]).ssid && links[k].ssid.len() > 0,
{
    if associated(ssids, links) {
        let k = choose|k: int|
            0 <= k < links.len() && (#[trigger] links[k]).ssid.len() > 0 && ssids.contains(
                links[k].ssid,
            );
        let j = choose|j: int| 0 <= j < ssids.len() && ssids[j] == links[k].ssid;
        assert(ssids[j] == links[k].ssid);
    }
}

/// A wireless network of a policy is joined exactly if some link has its name, its access
/// point where the policy names one, and on the same wireless interface an address in one
/// of its blocks where the policy names any.
pub proof fn wireless_network_is_joined(
    network: CorporateNetworkView,
    links: Seq<WifiLinkView>,
    addrs: Seq<LocalAddressView>,
)
    requires
        network.mode == NetworkMode::Wifi,
        network.ssid matches Some(name) && name.len() > 0,
        network.bssid_mac matches Some(mac) ==> mac.len() > 0 && bssid_of(mac) is Some,
        networks_of(network.cidrs) is Some,
    ensures
        ({
            let cidrs = networks_of(network.cidrs)->0;
            wifi_verdict(network, links, addrs) == Ok::<bool, Error>(
                exists|k: int|
                    0 <= k < links.len() && {
                        &&& (#[trigger] links[k]).ssid == network.ssid->0
                        &&& network.bssid_mac is Some ==> links[k].bssid is Some && bssid_of(
                            links[k].bssid->0,
                        ) == bssid_of(network.bssid_mac->0)
                        &&& cidrs.len() > 0 ==> exists|i: int, c: int|
                            0 <= i < addrs.len() && 0 <= c < cidrs.len() && (
                            #[trigger] addrs[i]).is_wifi && addrs[i].iface == links[k].iface && (
                            #[trigger] cidrs[c]).covers(addrs[i].addr)
                    },
            )
        }),
{
    let cidrs = networks_of(network.cidrs)->0;
    let ssid = network.ssid->0;
    let want = crate::provider::policy::bssid_given(network.bssid_mac)->0;
    assert forall|k: int| 0 <= k < links.len() implies (link_fits(
        #[trigger] links[k],
        ssid,
        want,
        cidrs,
        addrs,
    ) <==> {
        &&& links[k].ssid == network.ssid->0
        &&& network.bssid_mac is Some ==> links[k].bssid is Some && bssid_of(links[k].bssid->0)
            == bssid_of(network.bssid_mac->0)
        &&& cidrs.len() > 0 ==> exists|i: int, c: int|
            0 <= i < addrs.len() && 0 <= c < cidrs.len() && (#[trigger] addrs[i]).is_wifi
                && addrs[i].iface == links[k].iface && (#[trigger] cidrs[c]).covers(addrs[i].addr)
    }) by {
        let iface = links[k].iface;
        if subnet_fits(cidrs, iface, addrs) && cidrs.len() > 0 {
            let i = choose|i: int|
                0 <= i < addrs.len() && (#[trigger] addrs[i]).is_wifi && addrs[i].iface == iface
                    && covered(cidrs, addrs[i].addr);
            let c = choose|c: int|
                0 <= c < cidrs.len() && (#[trigger] cidrs[c]).covers(addrs[i].addr);
            assert(addrs[i].is_wifi && cidrs[c].covers(addrs[i].addr));
        }
        if exists|i: int, c: int|
            0 <= i < addrs.len() && 0 <= c < cidrs.len() && (#[trigger] addrs[i]).is_wifi
                && addrs[i].iface == iface && (#[trigger] cidrs[c]).covers(addrs[i].addr) {
            let (i, c) = choose|i: int, c: int|
                0 <= i < addrs.len() && 0 <= c < cidrs.len() && (#[trigger] addrs[i]).is_wifi
                    && addrs[i].iface == iface && (#[trigger] cidrs[c]).covers(addrs[i].addr);
            assert(covered(cidrs, addrs[i].addr));
        }
    }
}

/// A policy's network that is not wireless is never joined as one. One that has no name, or
/// an access point that is none, is no good, and neither is one with a block that is none.
pub proof fn faulty_wireless_networks(
    network: CorporateNetworkView,
    links: Seq<WifiLinkView>,
    addrs: Seq<LocalAddressView>,
)
    ensures
        network.mode != NetworkMode::Wifi ==> wifi_verdict(network, links, addrs) == Ok::<
            bool,
            Error,
        >(false),
        network.mode == NetworkMode::Wifi && (network.ssid is None || network.ssid->0.len() == 0)
            ==> wifi_verdict(network, links, addrs) == Err::<bool, Error>(
            Error::InvalidProviderPolicy,
        ),
        network.mode == NetworkMode::Wifi && network.bssid_mac is Some
            && network.bssid_mac->0.len() > 0 && bssid_of(network.bssid_mac->0) is None
            ==> wifi_verdict(network, links, addrs) == Err::<bool, Error>(
            Error::InvalidProviderPolicy,
        ),
        network.mode == NetworkMode::Wifi && network.ssid is Some && network.ssid->0.len() > 0
            && network.bssid_mac is None && networks_of(network.cidrs) is None ==> wifi_verdict(
            network,
            links,
            addrs,
        ) == Err::<bool, Error>(Error::InvalidRootNetwork),
{
}

} // verus!
