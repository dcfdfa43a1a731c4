//! What a signed provider policy says, and how one is put together.

use vstd::prelude::*;

use crate::encoding::{check_digest_text, hex_value, is_digest_text};
use crate::error::{fault_of, Error};
use crate::keys::KeyType;
use crate::provider::network::{bssid_of, normalize_bssid};
use crate::provider::root_network::{listed, push_listed};
use crate::text::{
    chars_of, contains_text, copy_text, lowercase, lowered, one_of, optional_text, part, pieces,
    text_equal, text_of, text_views, trim, trimmed,
};

verus! {

/// How a corporate network is joined.
#[derive(Clone, Copy, PartialEq, Eq, Debug, Structural)]
pub enum NetworkMode {
    Vpn,
    Wifi,
    Ethernet,
}

impl NetworkMode {
    pub open spec fn text(self) -> Seq<char> {
        match self {
            NetworkMode::Vpn => "vpn"@,
            NetworkMode::Wifi => "wifi"@,
            NetworkMode::Ethernet => "ethernet"@,
        }
    }

    /// The mode with a name.
    pub fn parse(name: &str) -> (r: Result<NetworkMode, Error>)
        ensures
            match r {
                Ok(mode) => mode.text() == name@,
                Err(e) => e == Error::InvalidProviderPolicy && forall|mode: NetworkMode|
                    #[trigger] mode.text() != name@,
            },
    {
        if text_equal(name, "vpn") {
            Ok(NetworkMode::Vpn)
        } else if text_equal(name, "wifi") {
            Ok(NetworkMode::Wifi)
        } else if text_equal(name, "ethernet") {
            Ok(NetworkMode::Ethernet)
        } else {
            Err(Error::InvalidProviderPolicy)
        }
    }
}

/// A network on which a provider may act.
#[derive(Debug)]
pub struct CorporateNetwork {
    pub network_id: String,
    pub mode: NetworkMode,
    pub cidrs: Vec<String>,
    pub ssid: Option<String>,
    pub bssid_mac: Option<String>,
    pub gateway_mac: Option<String>,
    pub verifier_public_key: Option<String>,
}

#[verifier::ext_equal]
pub struct CorporateNetworkView {
    pub network_id: Seq<char>,
    pub mode: NetworkMode,
    pub cidrs: Seq<Seq<char>>,
    pub ssid: Option<Seq<char>>,
    pub bssid_mac: Option<Seq<char>>,
    pub gateway_mac: Option<Seq<char>>,
    pub verifier_public_key: Option<Seq<char>>,
}

impl View for CorporateNetwork {
    type V = CorporateNetworkView;

    open spec fn view(&self) -> CorporateNetworkView {
        CorporateNetworkView {
            network_id: self.network_id@,
            mode: self.mode,
            cidrs: text_views(self.cidrs@),
            ssid: optional_text(self.ssid),
            bssid_mac: optional_text(self.bssid_mac),
            gateway_mac: optional_text(self.gateway_mac),
            verifier_public_key: optional_text(self.verifier_public_key),
        }
    }
}

pub open spec fn network_views(networks: Seq<CorporateNetwork>) -> Seq<CorporateNetworkView> {
    Seq::new(networks.len(), |i: int| networks[i]@)
}

/// What a hardware key may authorize.
#[derive(Clone, Copy, PartialEq, Eq, Debug, Structural)]
pub enum HardwareAuthority {
    ProviderApiRoot,
}

/// A hardware key that a policy names.
#[derive(Debug)]
pub struct HardwareAuthorityEntry {
    pub fingerprint: String,
    pub key_type: KeyType,
    pub authority: HardwareAuthority,
    pub revoked: bool,
}

/// What a signed policy says.
#[derive(Debug)]
pub struct ProviderPolicy {
    pub provider_id: String,
    pub policy_id: String,
    pub relay_public_key: [u8; 32],
    pub issued_at: String,
    pub expires_at: String,
    pub capabilities: u32,
    pub hardware_threshold: u8,
    pub hardware: Vec<HardwareAuthorityEntry>,
    pub networks: Vec<CorporateNetwork>,
    pub permissions: Vec<String>,
}

impl ProviderPolicy {
    pub open spec fn network_views(self) -> Seq<CorporateNetworkView> {
        network_views(self.networks@)
    }
}

/// Where the first network with an id stands.
pub open spec fn network_place(networks: Seq<CorporateNetworkView>, id: Seq<char>) -> Option<int>
    decreases networks.len(),
{
    if networks.len() == 0 {
        None
    } else {
        match network_place(networks.drop_last(), id) {
            Some(i) => Some(i),
            None => if networks.last().network_id == id {
                Some(networks.len() - 1)
            } else {
                None
            },
        }
    }
}

proof fn lemma_network_stays(networks: Seq<CorporateNetworkView>, id: Seq<char>, n: int)
    requires
        0 <= n <= networks.len(),
        network_place(networks.take(n), id) is Some,
    ensures
        network_place(networks, id) == network_place(networks.take(n), id),
    decreases networks.len() - n,
{
    if n == networks.len() {
        assert(networks.take(n) =~= networks);
    } else {
        assert(networks.take(n + 1).drop_last() =~= networks.take(n));
        lemma_network_stays(networks, id, n + 1);
    }
}

/// The network of a policy with an id.
pub fn corporate_network<'a>(policy: &'a ProviderPolicy, network_id: &str) -> (r: Result<
    &'a CorporateNetwork,
    Error,
>)
    ensures
        match r {
            Ok(network) => network_place(policy.network_views(), network_id@) matches Some(i)
                && network@ == policy.network_views()[i],
            Err(e) => network_place(policy.network_views(), network_id@) is None && e
                == Error::InvalidProviderPolicy,
        },
{
    let ghost all = policy.network_views();
    let mut i: usize = 0;
    assert(all.take(0) =~= Seq::<CorporateNetworkView>::empty());
    while i < policy.networks.len()
        invariant
            i <= policy.networks.len(),
            all == policy.network_views(),
            network_place(all.take(i as int), network_id@) is None,
        decreases policy.networks.len() - i,
    {
        proof {
            assert(all[i as int] == policy.networks@[i as int]@);
            assert(all.take(i + 1).drop_last() =~= all.take(i as int));
            assert(all.take(i + 1).last() == all[i as int]);
        }
        if text_equal(policy.networks[i].network_id.as_str(), network_id) {
            proof {
                lemma_network_stays(all, network_id@, i + 1);
            }
            return Ok(&policy.networks[i]);
        }
        i += 1;
    }
    assert(all.take(i as int) =~= all);
    Err(Error::InvalidProviderPolicy)
}

/// The form in which a fingerprint is kept: sixty-four hexadecimal digits in small
/// letters.
pub open spec fn normal_fingerprint(text: Seq<char>) -> Option<Seq<char>> {
    let inner = lowered(trimmed(text));
    if is_digest_text(inner) {
        Some(inner)
    } else {
        None
    }
}

/// The form in which a fingerprint is kept.
pub fn normalize_fingerprint(text: &str) -> (r: Result<String, Error>)
    ensures
        match r {
            Ok(fingerprint) => normal_fingerprint(text@) == Some(fingerprint@),
            Err(e) => normal_fingerprint(text@) is None && e == Error::InvalidProviderPolicy,
        },
{
    let inner = text_of(lowercase(trim(chars_of(text).as_slice()).as_slice()).as_slice());
    if check_digest_text(inner.as_str()) {
        Ok(inner)
    } else {
        Err(Error::InvalidProviderPolicy)
    }
}

/// Fingerprints in the form in which they are kept, if each of them has one.
pub open spec fn normal_fingerprints(texts: Seq<Seq<char>>) -> Option<Seq<Seq<char>>>
    decreases texts.len(),
{
    if texts.len() == 0 {
        Some(Seq::empty())
    } else {
        match (normal_fingerprints(texts.drop_last()), normal_fingerprint(texts.last())) {
            (Some(front), Some(last)) => Some(front.push(last)),
            _ => None,
        }
    }
}

proof fn lemma_fingerprints_spoiled(texts: Seq<Seq<char>>, n: int)
    requires
        0 <= n <= texts.len(),
        normal_fingerprints(texts.take(n)) is None,
    ensures
        normal_fingerprints(texts) is None,
    decreases texts.len() - n,
{
    if n == texts.len() {
        assert(texts.take(n) =~= texts);
    } else {
        assert(texts.take(n + 1).drop_last() =~= texts.take(n));
        lemma_fingerprints_spoiled(texts, n + 1);
    }
}

fn normalize_fingerprints(texts: &Vec<String>) -> (r: Result<Vec<String>, Error>)
    ensures
        match r {
            Ok(out) => normal_fingerprints(text_views(texts@)) == Some(text_views(out@)),
            Err(e) => normal_fingerprints(text_views(texts@)) is None && e
                == Error::InvalidProviderPolicy,
        },
{
    let ghost all = text_views(texts@);
    let mut out: Vec<String> = Vec::new();
    let mut i: usize = 0;
    assert(all.take(0) =~= Seq::<Seq<char>>::empty());
    assert(text_views(out@) =~= Seq::<Seq<char>>::empty());
    while i < texts.len()
        invariant
            i <= texts.len(),
            all == text_views(texts@),
            normal_fingerprints(all.take(i as int)) == Some(text_views(out@)),
        decreases texts.len() - i,
    {
        let ghost before = text_views(out@);
        proof {
            assert(all[i as int] == texts@[i as int]@);
            assert(all.take(i + 1).drop_last() =~= all.take(i as int));
            assert(all.take(i + 1).last() == all[i as int]);
        }
        match normalize_fingerprint(texts[i].as_str()) {
            Ok(fingerprint) => {
                let ghost added = fingerprint@;
                out.push(fingerprint);
                assert(text_views(out@) =~= before.push(added));
            },
            Err(e) => {
                proof {
                    lemma_fingerprints_spoiled(all, i + 1);
                }
                return Err(e);
            },
        }
        i += 1;
    }
    assert(all.take(i as int) =~= all);
    Ok(out)
}

/// The entries of a policy for hardware keys, of which some are revoked.
pub fn collect_hardware(fingerprints: &Vec<String>, revoked: &Vec<String>) -> (r: Result<
    Vec<HardwareAuthorityEntry>,
    Error,
>)
    ensures
        match (
            normal_fingerprints(text_views(revoked@)),
            normal_fingerprints(text_views(fingerprints@)),
        ) {
            (Some(gone), Some(named)) => r matches Ok(out) && {
                &&& out@.len() == named.len()
                &&& forall|i: int|
                    0 <= i < named.len() ==> {
                        let entry = #[trigger] out@[i];
                        &&& entry.fingerprint@ == named[i]
                        &&& entry.key_type == KeyType::Signing
                        &&& entry.authority == HardwareAuthority::ProviderApiRoot
                        &&& entry.revoked == gone.contains(named[i])
                    }
            },
            _ => fault_of(r) == Some(Error::InvalidProviderPolicy),
        },
{
    let gone = match normalize_fingerprints(revoked) {
        Ok(gone) => gone,
        Err(e) => return Err(e),
    };
    let named = match normalize_fingerprints(fingerprints) {
        Ok(named) => named,
        Err(e) => return Err(e),
    };
    let ghost names = text_views(named@);
    let mut out: Vec<HardwareAuthorityEntry> = Vec::new();
    let mut i: usize = 0;
    while i < named.len()
        invariant
            i <= named.len(),
            names == text_views(named@),
            out@.len() == i,
            forall|k: int|
                0 <= k < i ==> {
                    let entry = #[trigger] out@[k];
                    &&& entry.fingerprint@ == names[k]
                    &&& entry.key_type == KeyType::Signing
                    &&& entry.authority == HardwareAuthority::ProviderApiRoot
                    &&& entry.revoked == text_views(gone@).contains(names[k])
                },
        decreases named.len() - i,
    {
        assert(names[i as int] == named@[i as int]@);
        let is_revoked = contains_text(&gone, named[i].as_str());
        out.push(
            HardwareAuthorityEntry {
                fingerprint: named[i].as_str().to_owned(),
                key_type: KeyType::Signing,
                authority: HardwareAuthority::ProviderApiRoot,
                revoked: is_revoked,
            },
        );
        i += 1;
    }
    Ok(out)
}

/// Where the first colon stands.
pub open spec fn colon_place(s: Seq<char>) -> Option<int>
    decreases s.len(),
{
    if s.len() == 0 {
        None
    } else {
        match colon_place(s.drop_last()) {
            Some(i) => Some(i),
            None => if s.last() == ':' {
                Some(s.len() - 1)
            } else {
                None
            },
        }
    }
}

proof fn lemma_colon_stays(s: Seq<char>, n: int)
    requires
        0 <= n <= s.len(),
        colon_place(s.take(n)) is Some,
    ensures
        colon_place(s) == colon_place(s.take(n)),
    decreases s.len() - n,
{
    if n == s.len() {
        assert(s.take(n) =~= s);
    } else {
        assert(s.take(n + 1).drop_last() =~= s.take(n));
        lemma_colon_stays(s, n + 1);
    }
}

fn find_colon(chars: &Vec<char>) -> (r: Option<usize>)
    ensures
        colon_place(chars@) == (match r {
            Some(i) => Some(i as int),
            None => None,
        }),
        r matches Some(i) ==> i < chars@.len(),
{
    let mut i: usize = 0;
    assert(chars@.take(0) =~= Seq::<char>::empty());
    while i < chars.len()
        invariant
            i <= chars.len(),
            colon_place(chars@.take(i as int)) is None,
        decreases chars.len() - i,
    {
        proof {
            assert(chars@.take(i + 1).drop_last() =~= chars@.take(i as int));
            assert(chars@.take(i + 1).last() == chars@[i as int]);
        }
        if chars[i] == ':' {
            proof {
                lemma_colon_stays(chars@, i + 1);
            }
            return Some(i);
        }
        i += 1;
    }
    assert(chars@.take(i as int) =~= chars@);
    None
}

/// The id and the blocks that a text names: the id, and behind a colon the
/// blocks, between commas.
pub open spec fn named_network(spec: Seq<char>) -> (Seq<char>, Seq<Seq<char>>) {
    match colon_place(spec) {
        None => (spec, Seq::empty()),
        Some(at) => (spec.take(at), listed(pieces(spec.skip(at + 1), one_of(seq![','])))),
    }
}

/// The network that a text names, if it names one: a tunnel needs a block, and a
/// wireless network a name.
pub open spec fn network_from_spec(
    spec: Seq<char>,
    mode: NetworkMode,
    ssid: Option<Seq<char>>,
    bssid: Option<Seq<char>>,
) -> Option<CorporateNetworkView> {
    let (id, cidrs) = named_network(spec);
    if id.len() == 0 || (mode == NetworkMode::Vpn && cidrs.len() == 0) || (mode
        == NetworkMode::Wifi && ssid is None) {
        None
    } else {
        Some(
            CorporateNetworkView {
                network_id: id,
                mode,
                cidrs,
                ssid,
                bssid_mac: bssid,
                gateway_mac: None,
                verifier_public_key: None,
            },
        )
    }
}

/// The networks that texts name, if each of them names one.
pub open spec fn networks_from_specs(
    specs: Seq<Seq<char>>,
    mode: NetworkMode,
    ssid: Option<Seq<char>>,
    bssid: Option<Seq<char>>,
) -> Option<Seq<CorporateNetworkView>>
    decreases specs.len(),
{
    if specs.len() == 0 {
        Some(Seq::empty())
    } else {
        match (
            networks_from_specs(specs.drop_last(), mode, ssid, bssid),
            network_from_spec(specs.last(), mode, ssid, bssid),
        ) {
            (Some(front), Some(last)) => Some(front.push(last)),
            _ => None,
        }
    }
}

proof fn lemma_specs_spoiled(
    specs: Seq<Seq<char>>,
    mode: NetworkMode,
    ssid: Option<Seq<char>>,
    bssid: Option<Seq<char>>,
    n: int,
)
    requires
        0 <= n <= specs.len(),
        networks_from_specs(specs.take(n), mode, ssid, bssid) is None,
    ensures
        networks_from_specs(specs, mode, ssid, bssid) is None,
    decreases specs.len() - n,
{
    if n == specs.len() {
        assert(specs.take(n) =~= specs);
    } else {
        assert(specs.take(n + 1).drop_last() =~= specs.take(n));
        lemma_specs_spoiled(specs, mode, ssid, bssid, n + 1);
    }
}

/// A text that is there and not empty.
pub open spec fn present(text: Option<Seq<char>>) -> Option<Seq<char>> {
    match text {
        Some(text) => if text.len() > 0 {
            Some(text)
        } else {
            None
        },
        None => None,
    }
}

fn keep_present(text: Option<String>) -> (r: Option<String>)
    ensures
        optional_text(r) == present(optional_text(text)),
{
    match text {
        Some(text) => if text.as_str().is_empty() {
            None
        } else {
            Some(text)
        },
        None => None,
    }
}

/// The form in which the hardware address of an access point is kept, if one is
/// given: nothing, where none is.
pub open spec fn bssid_given(bssid: Option<Seq<char>>) -> Option<Option<Seq<char>>> {
    match present(bssid) {
        None => Some(None),
        Some(text) => match bssid_of(text) {
            Some(normal) => Some(Some(normal)),
            None => None,
        },
    }
}

fn read_network_spec(
    spec: &str,
    mode: NetworkMode,
    ssid: &Option<String>,
    bssid: &Option<String>,
) -> (r: Option<CorporateNetwork>)
    ensures
        network_from_spec(spec@, mode, optional_text(*ssid), optional_text(*bssid)) == (match r {
            Some(network) => Some(network@),
            None => None,
        }),
{
    let chars = chars_of(spec);
    let mut cidrs: Vec<String> = Vec::new();
    let ghost none = text_views(cidrs@);
    assert(none =~= Seq::<Seq<char>>::empty());
    let network_id = match find_colon(&chars) {
        None => spec.to_owned(),
        Some(at) => {
            let total: usize = chars.len();
            let head = part(chars.as_slice(), 0, at);
            let tail = part(chars.as_slice(), at + 1, total);
            assert(head@ =~= spec@.take(at as int));
            assert(tail@ =~= spec@.skip(at + 1));
            let separators: [char; 1] = [','];
            assert(separators@ =~= seq![',']);
            push_listed(&mut cidrs, text_of(tail.as_slice()).as_str(), &separators);
            proof {
                let found = listed(pieces(tail@, one_of(seq![','])));
                assert(none + found =~= found);
            }
            text_of(head.as_slice())
        },
    };
    if network_id.as_str().is_empty() {
        return None;
    }
    if mode == NetworkMode::Vpn && cidrs.len() == 0 {
        return None;
    }
    if mode == NetworkMode::Wifi && ssid.is_none() {
        return None;
    }
    Some(
        CorporateNetwork {
            network_id,
            mode,
            cidrs,
            ssid: copy_text(ssid),
            bssid_mac: copy_text(bssid),
            gateway_mac: None,
            verifier_public_key: None,
        },
    )
}

/// The networks of a policy, from what the caller names.
pub fn collect_networks(
    specs: &Vec<String>,
    mode: NetworkMode,
    ssid: Option<String>,
    bssid: Option<String>,
) -> (r: Result<Vec<CorporateNetwork>, Error>)
    ensures
        ({
            let name = present(optional_text(ssid));
            let wanted = match bssid_given(optional_text(bssid)) {
                None => None,
                Some(mac) => networks_from_specs(text_views(specs@), mode, name, mac),
            };
            match r {
                Ok(out) => wanted == Some(network_views(out@)),
                Err(e) => wanted is None && e == Error::InvalidProviderPolicy,
            }
        }),
{
    let kept_ssid = keep_present(ssid);
    let kept_bssid = match keep_present(bssid) {
        Some(value) => match normalize_bssid(value.as_str()) {
            Ok(normal) => Some(normal),
            Err(e) => return Err(e),
        },
        None => None,
    };
    let ghost all = text_views(specs@);
    let ghost name = optional_text(kept_ssid);
    let ghost mac = optional_text(kept_bssid);
    let mut out: Vec<CorporateNetwork> = Vec::new();
    let mut i: usize = 0;
    assert(all.take(0) =~= Seq::<Seq<char>>::empty());
    assert(network_views(out@) =~= Seq::<CorporateNetworkView>::empty());
    while i < specs.len()
        invariant
            i <= specs.len(),
            all == text_views(specs@),
            name == optional_text(kept_ssid),
            mac == optional_text(kept_bssid),
            name == present(optional_text(ssid)),
            bssid_given(optional_text(bssid)) == Some(mac),
            networks_from_specs(all.take(i as int), mode, name, mac) == Some(network_views(out@)),
        decreases specs.len() - i,
    {
        let ghost before = network_views(out@);
        proof {
            assert(all[i as int] == specs@[i as int]@);
            assert(all.take(i + 1).drop_last() =~= all.take(i as int));
            assert(all.take(i + 1).last() == all[i as int]);
        }
        match read_network_spec(specs[i].as_str(), mode, &kept_ssid, &kept_bssid) {
            Some(network) => {
                let ghost added = network@;
                out.push(network);
                assert(network_views(out@) =~= before.push(added));
            },
            None => {
                proof {
                    lemma_specs_spoiled(all, mode, name, mac, i + 1);
                }
                return Err(Error::InvalidProviderPolicy);
            },
        }
        i += 1;
    }
    assert(all.take(i as int) =~= all);
    Ok(out)
}

/// An id leads to the first network that has it, and to none where no network has it.
pub proof fn id_leads_to_its_network(networks: Seq<CorporateNetworkView>, id: Seq<char>)
    ensures
        network_place(networks, id) is Some <==> exists|i: int|
            0 <= i < networks.len() && (#[trigger] networks[i]).network_id == id,
        network_place(networks, id) matches Some(i) ==> 0 <= i < networks.len()
            && networks[i].network_id == id && forall|k: int|
            0 <= k < i ==> (#[trigger] networks[k]).network_id != id,
    decreases networks.len(),
{
    if networks.len() > 0 {
        let front = networks.drop_last();
        id_leads_to_its_network(front, id);
        assert forall|i: int| 0 <= i < front.len() implies #[trigger] networks[i] == front[i] by {}
        if exists|i: int| 0 <= i < front.len() && (#[trigger] front[i]).network_id == id {
            let i = choose|i: int| 0 <= i < front.len() && (#[trigger] front[i]).network_id == id;
            assert(networks[i].network_id == id);
        }
        if exists|i: int| 0 <= i < networks.len() && (#[trigger] networks[i]).network_id == id {
            let i = choose|i: int|
                0 <= i < networks.len() && (#[trigger] networks[i]).network_id == id;
            if i < front.len() {
                assert(front[i].network_id == id);
            }
        }
        if network_place(networks, id) is Some {
            let at = network_place(networks, id)->0;
            assert(networks[at].network_id == id);
        }
    }
}

/// A fingerprint is kept exactly if it is 64 hexadecimal digits in either case, white space
/// around it aside. It is kept in small letters.
pub proof fn fingerprints_are_kept_small(text: Seq<char>)
    ensures
        normal_fingerprint(text) is Some <==> trimmed(text).len() == 64 && forall|i: int|
            0 <= i < 64 ==> hex_value(#[trigger] trimmed(text)[i]) is Some,
        normal_fingerprint(text) matches Some(kept) ==> kept == lowered(trimmed(text)),
{
    let inner = trimmed(text);
    let small = lowered(inner);
    assert forall|i: int| 0 <= i < inner.len() implies (hex_value(#[trigger] small[i]) is Some
        <==> hex_value(inner[i]) is Some) by {}
    if normal_fingerprint(text) is Some {
        assert forall|i: int| 0 <= i < 64 implies hex_value(#[trigger] inner[i]) is Some by {
            assert(hex_value(small[i]) is Some);
        }
    }
    if inner.len() == 64 && forall|i: int| 0 <= i < 64 ==> hex_value(#[trigger] inner[i]) is Some {
        assert forall|i: int| 0 <= i < small.len() implies hex_value(#[trigger] small[i])
            is Some by {
            assert(hex_value(inner[i]) is Some);
        }
    }
}

/// Fingerprints are kept where each of the texts is one, and each as its own text says.
pub proof fn each_text_is_its_fingerprint(texts: Seq<Seq<char>>)
    ensures
        normal_fingerprints(texts) is Some <==> forall|i: int|
            0 <= i < texts.len() ==> normal_fingerprint(#[trigger] texts[i]) is Some,
        normal_fingerprints(texts) matches Some(kept) ==> kept.len() == texts.len() && forall|
            i: int,
        |
            0 <= i < texts.len() ==> Some(#[trigger] kept[i]) == normal_fingerprint(texts[i]),
    decreases texts.len(),
{
    if texts.len() > 0 {
        let front = texts.drop_last();
        each_text_is_its_fingerprint(front);
        assert forall|i: int| 0 <= i < front.len() implies #[trigger] front[i] == texts[i] by {}
        if normal_fingerprints(texts) is Some {
            let kept = normal_fingerprints(texts)->0;
            let before = normal_fingerprints(front)->0;
            assert forall|i: int| 0 <= i < texts.len() implies Some(#[trigger] kept[i])
                == normal_fingerprint(texts[i]) by {
                if i < front.len() {
                    assert(kept[i] == before[i]);
                    assert(normal_fingerprint(front[i]) == Some(before[i]));
                }
            }
            assert forall|i: int| 0 <= i < texts.len() implies normal_fingerprint(
                #[trigger] texts[i],
            ) is Some by {
                assert(Some(kept[i]) == normal_fingerprint(texts[i]));
            }
        }
        if forall|i: int| 0 <= i < texts.len() ==> normal_fingerprint(#[trigger] texts[i])
            is Some {
            assert forall|i: int| 0 <= i < front.len() implies normal_fingerprint(
                #[trigger] front[i],
            ) is Some by {
                assert(normal_fingerprint(texts[i]) is Some);
            }
            assert(normal_fingerprint(texts[texts.len() - 1]) is Some);
        }
    }
}

proof fn lemma_no_colon(s: Seq<char>)
    requires
        !s.contains(':'),
    ensures
        colon_place(s) is None,
    decreases s.len(),
{
    if s.len() > 0 {
        assert forall|i: int| 0 <= i < s.len() - 1 implies s.drop_last()[i] != ':' by {
            assert(s.contains(s[i]));
        }
        lemma_no_colon(s.drop_last());
        assert(s.contains(s.last()));
    }
}

proof fn lemma_first_colon(a: Seq<char>, b: Seq<char>)
    requires
        !a.contains(':'),
    ensures
        colon_place(a.push(':') + b) == Some(a.len() as int),
    decreases b.len(),
{
    let all = a.push(':') + b;
    if b.len() > 0 {
        assert(all.drop_last() =~= a.push(':') + b.drop_last());
        lemma_first_colon(a, b.drop_last());
    } else {
        assert(all.drop_last() =~= a);
        lemma_no_colon(a);
    }
}

/// The first colon parts the id of a network from its blocks, which commas part.
pub proof fn colon_parts_id_and_blocks(id: Seq<char>, blocks: Seq<char>)
    requires
        !id.contains(':'),
    ensures
        named_network(id) == (id, Seq::<Seq<char>>::empty()),
        named_network(id.push(':') + blocks) == (id, listed(pieces(blocks, one_of(seq![','])))),
{
    let all = id.push(':') + blocks;
    lemma_no_colon(id);
    lemma_first_colon(id, blocks);
    assert(all.take(id.len() as int) =~= id);
    assert(all.skip(id.len() as int + 1) =~= blocks);
}

/// A text names a network exactly if it has an id, a tunnel has a block, and a wireless
/// network a name. The network is as it was asked for, and says no more.
pub proof fn networks_that_can_be_named(
    spec: Seq<char>,
    mode: NetworkMode,
    ssid: Option<Seq<char>>,
    bssid: Option<Seq<char>>,
)
    ensures
        ({
            let (id, blocks) = named_network(spec);
            let network = network_from_spec(spec, mode, ssid, bssid);
            &&& network is Some <==> {
                &&& id.len() > 0
                &&& mode == NetworkMode::Vpn ==> blocks.len() > 0
                &&& mode == NetworkMode::Wifi ==> ssid is Some
            }
            &&& network matches Some(network) ==> {
                &&& network.network_id == id
                &&& network.mode == mode
                &&& network.cidrs == blocks
                &&& network.ssid == ssid
                &&& network.bssid_mac == bssid
                &&& network.gateway_mac is None
                &&& network.verifier_public_key is None
            }
        }),
{
}

/// Networks are named where each of the texts names one, and each as its own text says.
pub proof fn each_text_names_its_network(
    specs: Seq<Seq<char>>,
    mode: NetworkMode,
    ssid: Option<Seq<char>>,
    bssid: Option<Seq<char>>,
)
    ensures
        ({
            let all = networks_from_specs(specs, mode, ssid, bssid);
            &&& all is Some <==> forall|i: int|
                0 <= i < specs.len() ==> network_from_spec(#[trigger] specs[i], mode, ssid, bssid)
                    is Some
            &&& all matches Some(networks) ==> networks.len() == specs.len() && forall|i: int|
                0 <= i < specs.len() ==> Some(#[trigger] networks[i]) == network_from_spec(
                    specs[i],
                    mode,
                    ssid,
                    bssid,
                )
        }),
    decreases specs.len(),
{
    if specs.len() > 0 {
        let front = specs.drop_last();
        each_text_names_its_network(front, mode, ssid, bssid);
        assert forall|i: int| 0 <= i < front.len() implies #[trigger] front[i] == specs[i] by {}
        let all = networks_from_specs(specs, mode, ssid, bssid);
        if all is Some {
            let networks = all->0;
            let before = networks_from_specs(front, mode, ssid, bssid)->0;
            assert forall|i: int| 0 <= i < specs.len() implies Some(#[trigger] networks[i])
                == network_from_spec(specs[i], mode, ssid, bssid) by {
                if i < front.len() {
                    assert(networks[i] == before[i]);
                    assert(network_from_spec(front[i], mode, ssid, bssid) == Some(before[i]));
                }
            }
            assert forall|i: int| 0 <= i < specs.len() implies network_from_spec(
                #[trigger] specs[i],
                mode,
                ssid,
                bssid,
            ) is Some by {
                assert(Some(networks[i]) == network_from_spec(specs[i], mode, ssid, bssid));
            }
        }
        if forall|i: int|
            0 <= i < specs.len() ==> network_from_spec(#[trigger] specs[i], mode, ssid, bssid)
                is Some {
            assert forall|i: int| 0 <= i < front.len() implies network_from_spec(
                #[trigger] front[i],
                mode,
                ssid,
                bssid,
            ) is Some by {
                assert(network_from_spec(specs[i], mode, ssid, bssid) is Some);
            }
            assert(network_from_spec(specs[specs.len() - 1], mode, ssid, bssid) is Some);
        }
    }
}

/// An empty text is as good as none. An access point that is named has to be one.
pub proof fn empty_text_is_as_good_as_none(text: Seq<char>)
    ensures
        present(None) is None,
        text.len() == 0 ==> present(Some(text)) is None && bssid_given(Some(text)) == Some(
            None::<Seq<char>>,
        ),
        text.len() > 0 ==> present(Some(text)) == Some(text),
        text.len() > 0 && bssid_of(text) is None ==> bssid_given(Some(text)) is None,
        text.len() > 0 && bssid_of(text) is Some ==> bssid_given(Some(text)) == Some(
            bssid_of(text),
        ),
        bssid_given(None) == Some(None::<Seq<char>>),
{
}

} // verus!
