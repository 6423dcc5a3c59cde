use mem_find::region::ParseRegionError;
use mem_find::{Perms, Region};

fn entry(pathname: &str) -> Region {
    Region {
        address: 0x08048000..0x08049000,
        perms: Perms { read: true, write: false, execute: true, shared: false },
        offset: 0,
        dev: "03:00".to_owned(),
        inode: 8312,
        pathname: pathname.to_owned(),
    }
}

#[test]
fn map() {
    let s = "08048000-08049000 r-xp 00000000 03:00 8312       /opt/test (deleted)";
    let map = Region {
        address: 0x08048000..0x08049000,
        perms: Perms { read: true, write: false, execute: true, shared: false },
        offset: 00000000,
        dev: "03:00".to_owned(),
        inode: 8312,
        pathname: "/opt/test (deleted)".to_owned(),
    };

    assert_eq!(map, s.parse().unwrap());
    assert_eq!(s, map.to_string());
}

#[test]
fn region_fields_of_line() {
    let region: Region =
        "7f5c8a400000-7f5c8a5b5000 rw-s 001a2000 fd:01 1048602 /usr/lib/libc.so.6".parse().unwrap();
    assert_eq!(region.address.start, 0x7f5c8a400000);
    assert_eq!(region.address.end, 0x7f5c8a5b5000);
    assert_eq!(region.perms, Perms { read: true, write: true, execute: false, shared: true });
    assert_eq!(region.offset, 0x1a2000);
    assert_eq!(region.dev, "fd:01");
    assert_eq!(region.inode, 1048602);
    assert_eq!(region.pathname, "/usr/lib/libc.so.6");
}

#[test]
fn region_pathname_is_rejoined_with_single_spaces() {
    let region: Region =
        "08048000-08049000 r-xp 00000000 03:00 8312 \t /opt/test \t\t (deleted)  ".parse().unwrap();
    assert_eq!(region, entry("/opt/test (deleted)"));
    let region: Region =
        "08048000-08049000 r-xp 00000000 03:00 8312 a  b\tc\rd\x0Ce\nf".parse().unwrap();
    assert_eq!(region.pathname, "a b c d e f");
}

#[test]
fn region_without_pathname() {
    let region: Region = "08048000-08049000 r-xp 00000000 03:00 8312".parse().unwrap();
    assert_eq!(region, entry(""));
    assert_eq!(region.to_string(), "08048000-08049000 r-xp 00000000 03:00 8312       ");
    assert_eq!(region.to_string().parse::<Region>(), Ok(entry("")));
}

#[test]
fn region_with_leading_whitespace() {
    let region: Region = "  \t08048000-08049000 r-xp 00000000 03:00 8312 [heap]".parse().unwrap();
    assert_eq!(region, entry("[heap]"));
}

#[test]
fn region_with_fewer_than_five_words_is_rejected() {
    assert_eq!("".parse::<Region>(), Err(ParseRegionError));
    assert_eq!("   ".parse::<Region>(), Err(ParseRegionError));
    assert_eq!("08048000-08049000".parse::<Region>(), Err(ParseRegionError));
    assert_eq!("08048000-08049000 r-xp".parse::<Region>(), Err(ParseRegionError));
    assert_eq!("08048000-08049000 r-xp 00000000".parse::<Region>(), Err(ParseRegionError));
    assert_eq!("08048000-08049000 r-xp 00000000 03:00".parse::<Region>(), Err(ParseRegionError));
    assert_eq!("08048000-08049000 r-xp 00000000 03:00 ".parse::<Region>(), Err(ParseRegionError));
}

#[test]
fn region_with_bad_address_is_rejected() {
    for address in [
        "0804800008049000",
        "-08049000",
        "08048000-",
        "08048000--08049000",
        "0804800g-08049000",
        "08048000-0x8049000",
        "08048000-08049000-",
        "+-08049000",
        "08048000_08049000",
        "ffffffffffffffff0-08049000",
        "08048000-10000000000000000",
    ] {
        let line = format!("{address} r-xp 00000000 03:00 8312");
        assert_eq!(line.parse::<Region>(), Err(ParseRegionError), "{line}");
    }
}

#[test]
fn region_with_inverted_range_is_rejected() {
    assert_eq!(
        "08049000-08048000 r-xp 00000000 03:00 8312".parse::<Region>(),
        Err(ParseRegionError)
    );
    let empty: Region = "08048000-08048000 r-xp 00000000 03:00 8312".parse().unwrap();
    assert_eq!(empty.address, 0x08048000..0x08048000);
}

#[test]
fn region_numbers_take_sign_case_and_zeros() {
    let region: Region =
        "+8048000-+0000000000000000000008049000 r-xp +0 03:00 +008312".parse().unwrap();
    assert_eq!(region, entry(""));
    let region: Region = "ABCDEF-abcdef0 r-xp Ff 03:00 0".parse().unwrap();
    assert_eq!(region.address, 0xabcdef..0xabcdef0);
    assert_eq!(region.offset, 0xff);
    assert_eq!(region.inode, 0);
}

#[test]
fn region_with_bad_fields_is_rejected() {
    for line in [
        "08048000-08049000 r-x 00000000 03:00 8312",
        "08048000-08049000 r-xpp 00000000 03:00 8312",
        "08048000-08049000 rwxq 00000000 03:00 8312",
        "08048000-08049000 r-xp 0000000g 03:00 8312",
        "08048000-08049000 r-xp -0 03:00 8312",
        "08048000-08049000 r-xp + 03:00 8312",
        "08048000-08049000 r-xp 10000000000000000 03:00 8312",
        "08048000-08049000 r-xp 00000000 03:00 83a2",
        "08048000-08049000 r-xp 00000000 03:00 -1",
        "08048000-08049000 r-xp 00000000 03:00 18446744073709551616",
        "08048000-08049000 r-xp 00000000 03:00 8312.0",
    ] {
        assert_eq!(line.parse::<Region>(), Err(ParseRegionError), "{line}");
    }
}

#[test]
fn region_takes_the_largest_numbers() {
    let region: Region =
        "0-ffffffffffffffff rwxs ffffffffffffffff 0 18446744073709551615 x".parse().unwrap();
    assert_eq!(region.address, 0..usize::MAX);
    assert_eq!(region.offset, usize::MAX);
    assert_eq!(region.inode, u64::MAX);
    assert_eq!(
        region.to_string(),
        "00000000-ffffffffffffffff rwxs ffffffffffffffff 0 18446744073709551615 x"
    );
    assert_eq!(region.to_string().parse::<Region>(), Ok(region));
}

#[test]
fn region_format_pads_numbers() {
    let region = Region {
        address: 0x1..0xabc,
        perms: Perms { read: false, write: true, execute: false, shared: true },
        offset: 0x123456789,
        dev: "00:00".to_owned(),
        inode: 1234567890,
        pathname: "[stack]".to_owned(),
    };
    assert_eq!(region.to_string(), "00000001-00000abc -w-s 123456789 00:00 1234567890 [stack]");
    let region = Region { inode: 0, ..region };
    assert_eq!(region.to_string(), "00000001-00000abc -w-s 123456789 00:00 0          [stack]");
}

#[test]
fn region_round_trip_of_canonical_values() {
    let pathnames =
        ["", "/bin/cat", "[vvar]", "/a dir/with spaces (deleted)", "/caf\u{e9}/\u{1F600}"];
    for pathname in pathnames {
        for (start, end) in [(0, 0), (0x1000, 0x2000), (0xffff_0000_0000, 0xffff_ffff_f000)] {
            let region = Region {
                address: start..end,
                perms: Perms { read: true, write: true, execute: false, shared: false },
                offset: end - start,
                dev: "fd:\u{e9}".to_owned(),
                inode: (start / 7) as u64,
                pathname: pathname.to_owned(),
            };
            assert_eq!(region.to_string().parse::<Region>(), Ok(region));
        }
    }
}

#[test]
fn region_from_characters() {
    let line: Vec<char> = "08048000-08049000 r-xp 00000000 03:00 8312 [heap]".chars().collect();
    assert_eq!(Region::parse_chars(&line), Ok(entry("[heap]")));
    assert_eq!(Region::parse_chars(&line[..38]), Err(ParseRegionError));
    assert_eq!(mem_find::region::parse_address_chars(&line[..17]), Some((0x08048000, 0x08049000)));
    assert_eq!(mem_find::region::parse_address_chars(&line[..8]), None);
}
