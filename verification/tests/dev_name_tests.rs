use tun_rs::dev_name::{device_unit, feth_ifr_name, parse_u32, DevNameError, IFNAMSIZ};

#[test]
fn unit_numbers_parse_as_std_parses_them() {
    for s in [
        "", "0", "7", "+7", "+", "-1", "007", "42x", "4294967295", "4294967296", "99999999999", "12 ", " 1", "+-1", "１",
    ] {
        let chars: Vec<char> = s.chars().collect();
        assert_eq!(parse_u32(&chars), s.parse::<u32>().ok(), "{s:?}");
    }
}

#[test]
fn device_names_give_unit_numbers() {
    assert_eq!(device_unit("utun3", "utun", Some(16)), Ok(3));
    assert_eq!(device_unit("tun12", "tun", None), Ok(12));
    assert_eq!(device_unit("tun+7", "tun", None), Ok(7));
    assert_eq!(device_unit("tap1", "tun", None), Err(DevNameError::BadPrefix));
    assert_eq!(device_unit("tu", "tun", None), Err(DevNameError::BadPrefix));
    assert_eq!(device_unit("tun", "tun", None), Err(DevNameError::BadNumber));
    assert_eq!(device_unit("tunx", "tun", None), Err(DevNameError::BadNumber));
    assert_eq!(device_unit("utun12345678901234", "utun", Some(16)), Err(DevNameError::TooLong));
    assert_eq!(device_unit("utun1234567890123", "utun", Some(17)), Err(DevNameError::BadNumber));
}

#[test]
fn feth_names_fill_the_name_field() {
    let mut expected = b"feth7".to_vec();
    expected.resize(IFNAMSIZ, 0);
    assert_eq!(feth_ifr_name("feth7"), Ok(expected));
    assert_eq!(feth_ifr_name("feth"), Ok({
        let mut v = b"feth".to_vec();
        v.resize(IFNAMSIZ, 0);
        v
    }));
    assert_eq!(feth_ifr_name("utun1"), Err(DevNameError::BadPrefix));
    assert_eq!(feth_ifr_name("fe"), Err(DevNameError::BadPrefix));
    assert_eq!(feth_ifr_name("feth0123456789ab"), Err(DevNameError::TooLong));
    assert_eq!(feth_ifr_name("feth0123456789a").map(|v| v.len()), Ok(IFNAMSIZ));
}
