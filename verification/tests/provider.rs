//! Networks, radio links, and where a root key may be made.

use keyquorum::error::Error;
use keyquorum::provider::address::{parse_address, IpAddr};
use keyquorum::provider::network::{
    associated_with_any_ssid, is_wifi_name, normalize_bssid, ssids_from_cli_or_env,
    wifi_authorized, WifiLink,
};
use keyquorum::provider::policy::{
    collect_hardware, collect_networks, corporate_network, normalize_fingerprint, CorporateNetwork,
    NetworkMode, ProviderPolicy,
};
use keyquorum::provider::root_network::{
    arphrd_text_is_tunnel, authorize_corporate_network, authorized_on_tunnel, is_tunnel_arphrd,
    is_tunnel_name, networks_from_cli_or_env, optional_networks_from_cli_or_env, parse_network,
    parse_network_list, require_authorized_tunnel, require_root_ceremony, LocalAddress, Network,
    NetworkAuthority,
};

fn ip(text: &str) -> IpAddr {
    parse_address(text).unwrap()
}

fn wifi_net(ssid: &str, bssid: Option<&str>, cidrs: &[&str]) -> CorporateNetwork {
    CorporateNetwork {
        network_id: "corp-wifi".into(),
        mode: NetworkMode::Wifi,
        cidrs: cidrs.iter().map(|s| (*s).to_string()).collect(),
        ssid: Some(ssid.into()),
        bssid_mac: bssid.map(str::to_string),
        gateway_mac: None,
        verifier_public_key: None,
    }
}

fn link(ssid: &str, bssid: Option<&str>) -> WifiLink {
    WifiLink {
        iface: "wlan0".into(),
        ssid: ssid.into(),
        bssid: bssid.map(str::to_string),
    }
}

fn wifi_addr(text: &str) -> LocalAddress {
    LocalAddress {
        iface: "wlan0".into(),
        addr: ip(text),
        is_tunnel: false,
        is_wifi: true,
    }
}

fn tunnel_addr(text: &str) -> LocalAddress {
    LocalAddress {
        iface: "wg0".into(),
        addr: ip(text),
        is_tunnel: true,
        is_wifi: false,
    }
}

fn vpn_policy(cidrs: &[&str]) -> ProviderPolicy {
    ProviderPolicy {
        provider_id: "acme".into(),
        policy_id: "KQP-POL-TEST".into(),
        relay_public_key: [7u8; 32],
        issued_at: "2026-01-01 00:00:00".into(),
        expires_at: "2027-09-02 00:00:00".into(),
        capabilities: 1,
        hardware_threshold: 1,
        hardware: vec![],
        networks: vec![CorporateNetwork {
            network_id: "corp-vpn".into(),
            mode: NetworkMode::Vpn,
            cidrs: cidrs.iter().map(|s| (*s).to_string()).collect(),
            ssid: None,
            bssid_mac: None,
            gateway_mac: None,
            verifier_public_key: None,
        }],
        permissions: vec!["api-root.generate".into()],
    }
}

#[test]
fn ssid_match_does_not_require_a_fixed_ip() {
    let network = wifi_net("Office", None, &[]);
    let links = vec![link("Office", Some("aa:bb:cc:dd:ee:ff"))];
    let addrs = vec![wifi_addr("192.168.47.19")];
    assert!(wifi_authorized(&network, &links, &addrs).unwrap());
    let other_ip = vec![wifi_addr("10.1.2.3")];
    assert!(wifi_authorized(&network, &links, &other_ip).unwrap());
}

#[test]
fn optional_cidr_accepts_any_address_in_the_subnet() {
    let network = wifi_net("Office", None, &["192.168.10.0/24"]);
    let links = vec![link("Office", None)];
    assert!(wifi_authorized(&network, &links, &vec![wifi_addr("192.168.10.80")]).unwrap());
    assert!(!wifi_authorized(&network, &links, &vec![wifi_addr("10.8.0.2")]).unwrap());
}

#[test]
fn wrong_ssid_or_bssid_is_rejected() {
    let network = wifi_net("Office", Some("aa:bb:cc:dd:ee:ff"), &[]);
    let guest = vec![link("Guest", Some("aa:bb:cc:dd:ee:ff"))];
    assert!(!wifi_authorized(&network, &guest, &vec![]).unwrap());
    let other = vec![link("Office", Some("11:22:33:44:55:66"))];
    assert!(!wifi_authorized(&network, &other, &vec![]).unwrap());
}

#[test]
fn bssid_normalizes_separators() {
    assert_eq!(
        normalize_bssid("AA-BB-CC-DD-EE-FF").unwrap(),
        "aa:bb:cc:dd:ee:ff"
    );
    assert!(matches!(
        normalize_bssid("not-a-mac"),
        Err(Error::InvalidProviderPolicy)
    ));
}

#[test]
fn ceremony_ssid_list_matches_association() {
    let links = vec![link("Office", None)];
    assert!(associated_with_any_ssid(&vec!["Office".into()], &links));
    assert!(!associated_with_any_ssid(&vec!["Other".into()], &links));
}

#[test]
fn parse_ipv4_and_ipv6_cidrs() {
    let v4 = parse_network("10.8.0.0/24").unwrap();
    assert!(v4.contains(ip("10.8.0.12")));
    assert!(!v4.contains(ip("10.9.0.1")));
    let bare = parse_network("192.0.2.1").unwrap();
    assert!(bare.contains(ip("192.0.2.1")));
    assert!(!bare.contains(ip("192.0.2.2")));
    let v6 = parse_network("fd7a:115c:a1e0::/48").unwrap();
    assert!(v6.contains(ip("fd7a:115c:a1e0:a:0:0:0:1")));
    assert!(!v6.contains(ip("fd7b::1")));
    assert!(matches!(
        parse_network("not-a-cidr"),
        Err(Error::InvalidRootNetwork)
    ));
    assert!(matches!(
        parse_network_list(""),
        Err(Error::RootNetworkRequired)
    ));
}

#[test]
fn tunnel_names_and_arphrd() {
    assert!(is_tunnel_name("wg0"));
    assert!(is_tunnel_name("tun0"));
    assert!(is_tunnel_name("tailscale0"));
    assert!(is_tunnel_name("utun3"));
    assert!(!is_tunnel_name("eth0"));
    assert!(!is_tunnel_name("wlan0"));
    assert!(!is_tunnel_name("docker0"));
    assert!(is_tunnel_arphrd(65534));
    assert!(is_tunnel_arphrd(768));
    assert!(!is_tunnel_arphrd(1));
}

#[test]
fn only_tunnel_addresses_in_the_cidr_authorize() {
    let nets = parse_network_list("10.8.0.0/24").unwrap();
    let ok = vec![tunnel_addr("10.8.0.2")];
    assert!(authorized_on_tunnel(&nets, &ok));
    let lan = vec![LocalAddress {
        iface: "eth0".into(),
        addr: ip("10.8.0.2"),
        is_tunnel: false,
        is_wifi: false,
    }];
    assert!(!authorized_on_tunnel(&nets, &lan));
    let other = vec![tunnel_addr("192.168.1.9")];
    assert!(!authorized_on_tunnel(&nets, &other));
    assert!(!authorized_on_tunnel(&vec![], &ok));
}

#[test]
fn addresses_are_read_as_numbers() {
    assert_eq!(parse_address("0.0.0.0"), Some(IpAddr::V4(0)));
    assert_eq!(parse_address("10.8.0.2"), Some(IpAddr::V4(0x0a08_0002)));
    assert_eq!(parse_address("255.255.255.255"), Some(IpAddr::V4(0xffff_ffff)));
    assert_eq!(parse_address("::"), Some(IpAddr::V6(0)));
    assert_eq!(parse_address("::1"), Some(IpAddr::V6(1)));
    assert_eq!(parse_address("1::"), Some(IpAddr::V6(1 << 112)));
    assert_eq!(
        parse_address("2001:db8::8:800:200c:417a"),
        Some(IpAddr::V6(0x2001_0db8_0000_0000_0008_0800_200c_417a))
    );
    assert_eq!(
        parse_address("::ffff:192.0.2.128"),
        Some(IpAddr::V6(0xffff_c000_0280))
    );
    assert_eq!(
        parse_address("1:2:3:4:5:6:7:8"),
        Some(IpAddr::V6(0x0001_0002_0003_0004_0005_0006_0007_0008))
    );
    assert_eq!(
        parse_address("1:2:3:4:5:6:7::"),
        Some(IpAddr::V6(0x0001_0002_0003_0004_0005_0006_0007_0000))
    );
    for text in [
        "256.0.0.1", "01.2.3.4", "1.2.3", "1.2.3.4.5", "1:2:3:4:5:6:7", "1::2::3", "12345::",
        "g::", "", " 1.2.3.4", "1.2.3.4 ", ":1", "1:2:3:4:5:6:7:8:9",
    ] {
        assert_eq!(parse_address(text), None, "{text}");
    }
}

#[test]
fn a_prefix_covers_its_first_bits() {
    let net = parse_network("10.8.4.0/22").unwrap();
    assert!(net.contains(ip("10.8.7.255")));
    assert!(!net.contains(ip("10.8.8.0")));
    assert!(!net.contains(ip("::10.8.4.1")));
    assert!(parse_network("0.0.0.0/0").unwrap().contains(ip("203.0.113.9")));
    assert!(parse_network("::/0").unwrap().contains(ip("fe80::1")));
    assert!(!parse_network("::/0").unwrap().contains(ip("203.0.113.9")));
    assert_eq!(parse_network("10.0.0.0/33").unwrap_err(), Error::InvalidRootNetwork);
    assert_eq!(parse_network("::/129").unwrap_err(), Error::InvalidRootNetwork);
}

#[test]
fn lists_come_from_the_command_line_before_the_environment() {
    let cli = vec!["10.0.0.0/8, 192.0.2.1".to_string()];
    let nets = networks_from_cli_or_env(&cli, Some("172.16.0.0/12")).unwrap();
    assert_eq!(nets.len(), 2);
    assert!(matches!(nets[0], Network::V4 { prefix: 8, .. }));
    assert!(matches!(nets[1], Network::V4 { prefix: 32, .. }));
    let from_env = networks_from_cli_or_env(&vec![], Some("172.16.0.0/12")).unwrap();
    assert_eq!(from_env.len(), 1);
    assert_eq!(
        networks_from_cli_or_env(&vec![], None).unwrap_err(),
        Error::RootNetworkRequired
    );
    assert!(optional_networks_from_cli_or_env(&vec![], None).unwrap().is_empty());
    assert_eq!(
        ssids_from_cli_or_env(&vec!["Office,Lab".into()], Some("Home")),
        vec!["Office".to_string(), "Lab".to_string()]
    );
    assert_eq!(ssids_from_cli_or_env(&vec![], Some("Home")), vec!["Home".to_string()]);
}

#[test]
fn interfaces_are_told_apart() {
    assert!(is_wifi_name("wlan0"));
    assert!(!is_wifi_name("eth0"));
    assert!(arphrd_text_is_tunnel("65534\n"));
    assert!(!arphrd_text_is_tunnel("1\n"));
    assert!(!arphrd_text_is_tunnel("none"));
}

#[test]
fn a_ceremony_needs_a_tunnel_or_a_named_radio_link() {
    let nets = parse_network_list("10.8.0.0/24").unwrap();
    let on_tunnel = vec![tunnel_addr("10.8.0.2")];
    assert_eq!(require_authorized_tunnel(&nets, &on_tunnel), Ok(()));
    assert_eq!(
        require_authorized_tunnel(&nets, &vec![]),
        Err(Error::RootNetworkRequired)
    );
    let office = vec![link("Office", None)];
    assert_eq!(
        require_root_ceremony(&vec![], &vec!["Office".into()], &vec![], &office),
        Ok(())
    );
    assert_eq!(require_root_ceremony(&nets, &vec![], &on_tunnel, &vec![]), Ok(()));
    assert_eq!(
        require_root_ceremony(&vec![], &vec![], &on_tunnel, &office),
        Err(Error::RootNetworkRequired)
    );
}

#[test]
fn only_a_signed_policy_names_a_network() {
    let policy = vpn_policy(&["10.8.0.0/24"]);
    let addrs = vec![tunnel_addr("10.8.0.2")];
    let signed = NetworkAuthority::Signed {
        policy: &policy,
        network_id: "corp-vpn",
    };
    assert_eq!(authorize_corporate_network(signed, &addrs, &vec![]), Ok(()));
    assert_eq!(
        authorize_corporate_network(NetworkAuthority::CallerCidr(parse_network_list("10.8.0.0/24").unwrap()), &addrs, &vec![]),
        Err(Error::CallerNetworkNotAuthoritative)
    );
    assert_eq!(corporate_network(&policy, "corp-vpn").unwrap().network_id, "corp-vpn");
    assert!(corporate_network(&policy, "elsewhere").is_err());
}

#[test]
fn policies_are_collected_from_lists() {
    let fingerprint = "AB".repeat(32);
    assert_eq!(normalize_fingerprint(&fingerprint).unwrap(), "ab".repeat(32));
    assert_eq!(
        normalize_fingerprint("zz").unwrap_err(),
        Error::InvalidProviderPolicy
    );
    let hardware = collect_hardware(&vec![fingerprint.clone()], &vec![]).unwrap();
    assert_eq!(hardware.len(), 1);
    assert!(!hardware[0].revoked);
    let networks =
        collect_networks(&vec!["corp-vpn:10.8.0.0/24".into()], NetworkMode::Vpn, None, None)
            .unwrap();
    assert_eq!(networks[0].network_id, "corp-vpn");
    assert_eq!(networks[0].cidrs, vec!["10.8.0.0/24".to_string()]);
    assert_eq!(
        collect_networks(&vec!["corp-vpn".into()], NetworkMode::Vpn, None, None).unwrap_err(),
        Error::InvalidProviderPolicy
    );
}
