use tun_rs::ioctl::CTL_CODE;
use tun_rs::ip_version::{is_ipv6, IpVersionError};
use tun_rs::netsh::{add_secondary_dns, clear_dns_servers, command_outcome, trim, set_dns_servers, set_interface_name, set_primary_dns, DnsServersError};
use tun_rs::utf16::{decode_utf16, encode_utf16};

#[test]
fn utf16_encodes_with_a_terminating_zero() {
    assert_eq!(encode_utf16("ab"), vec![0x61, 0x62, 0]);
    assert_eq!(encode_utf16(""), vec![0]);
    assert_eq!(encode_utf16("é\u{1F600}"), vec![0xE9, 0xD83D, 0xDE00, 0]);
}

#[test]
fn utf16_decodes_up_to_the_first_zero() {
    assert_eq!(decode_utf16(&[0x68, 0x69, 0, 0x78]), "hi");
    assert_eq!(decode_utf16(&[0x68, 0x69]), "hi");
    assert_eq!(decode_utf16(&[0xD83D, 0xDE00]), "\u{1F600}");
    assert_eq!(decode_utf16(&[0xD800, 0x41, 0xDC00]), "\u{FFFD}A\u{FFFD}");
}

#[test]
fn utf16_roundtrip_of_strings_without_nul() {
    for s in ["", "Wintun", "SWD\\Wintun", "añb€\u{10FFFF}\u{1F600}z"] {
        assert_eq!(decode_utf16(&encode_utf16(s)), s);
    }
}

#[test]
fn netsh_rename_quotes_both_names() {
    assert_eq!(set_interface_name("eth0", "tun 1"), " netsh interface set interface name=\"eth0\" newname=\"tun 1\"");
    assert_eq!(set_interface_name("a\"b", "c"), format!(" netsh interface set interface name={:?} newname={:?}", "a\"b", "c"));
}

#[test]
fn netsh_dns_commands() {
    assert_eq!(clear_dns_servers(7, true), "netsh interface ipv4 set dnsservers 7 source=dhcp");
    assert_eq!(clear_dns_servers(4294967295, false), "netsh interface ipv6 set dnsservers 4294967295 source=dhcp");
    assert_eq!(clear_dns_servers(0, true), "netsh interface ipv4 set dnsservers 0 source=dhcp");
    assert_eq!(set_primary_dns(12, true, "8.8.8.8"), "netsh interface ipv4 set dnsservers 12 static 8.8.8.8 primary");
    assert_eq!(add_secondary_dns(12, false, "::1", 2), "netsh interface ipv6 add dnsservers 12 ::1 index=2");
}

#[test]
fn netsh_dns_server_list() {
    let servers = vec![(true, "8.8.8.8".to_string()), (true, "8.8.4.4".to_string()), (true, "1.1.1.1".to_string())];
    assert_eq!(
        set_dns_servers(3, &servers),
        Ok(vec![
            "netsh interface ipv4 set dnsservers 3 source=dhcp".to_string(),
            "netsh interface ipv4 set dnsservers 3 static 8.8.8.8 primary".to_string(),
            "netsh interface ipv4 add dnsservers 3 8.8.4.4 index=2".to_string(),
            "netsh interface ipv4 add dnsservers 3 1.1.1.1 index=3".to_string(),
        ])
    );
    assert_eq!(set_dns_servers(3, &[]), Err(DnsServersError::Empty));
    let mixed = vec![(true, "8.8.8.8".to_string()), (false, "2001:4860:4860::8888".to_string())];
    assert_eq!(set_dns_servers(3, &mixed), Err(DnsServersError::MixedFamilies));
}

#[test]
fn ctl_code_layout() {
    assert_eq!(CTL_CODE(0x22, 1, 0, 0), 0x0022_0004);
    assert_eq!(CTL_CODE(0x22, 6, 0, 0), 0x0022_0018);
    assert_eq!(CTL_CODE(0x22, 0x800, 3, 3), 0x0022_E003);
    assert_eq!(CTL_CODE(0x1_0022, 0, 0, 0), 0x0022_0000);
}

#[test]
fn ip_version_of_packets() {
    assert_eq!(is_ipv6(&[0x45, 0]), Ok(false));
    assert_eq!(is_ipv6(&[0x60]), Ok(true));
    assert_eq!(is_ipv6(&[]), Err(IpVersionError::Empty));
    assert_eq!(is_ipv6(&[0x50]), Err(IpVersionError::UnknownVersion { version: 5 }));
}

#[test]
fn command_outcome_reports_trimmed_output() {
    assert_eq!(command_outcome("netsh x", true, b"ignored", b"ignored"), Ok(()));
    assert_eq!(
        command_outcome("netsh x", false, b"", b"  bad thing\r\n"),
        Err(String::from("cmd=\"netsh x\",out=\"bad thing\""))
    );
    assert_eq!(
        command_outcome("netsh y", false, b"\tfrom stdout ", b""),
        Err(String::from("cmd=\"netsh y\",out=\"from stdout\""))
    );
    assert_eq!(command_outcome("netsh z", false, b"", b""), Err(String::from("cmd=\"netsh z\",out=\"\"")));
    // Not UTF-8: read as GBK (0xC4 0xE3 is U+4F60).
    assert_eq!(
        command_outcome("c", false, b"", &[0xC4, 0xE3]),
        Err(String::from("cmd=\"c\",out=\"\u{4F60}\""))
    );
}

#[test]
fn trim_drops_unicode_white_space() {
    assert_eq!(trim("\u{3000} a b \u{2028}\n"), String::from("a b"));
    assert_eq!(trim("   "), String::new());
}
