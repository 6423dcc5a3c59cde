use mem_find::extract::extract;
use mem_find::{Completeness, Event, FindIter, Finder, Request, ScanError, ScanItem};

const LINE: &str = "00001000-00001080 rw-p 00000000 00:00 0 [heap]";

fn started(needle: &'static [u8]) -> FindIter {
    let mut scan = Finder::new(needle).find_iter(42);
    assert_eq!(scan.resume(Event::Resume), Request::Open { pid: 42 });
    assert_eq!(scan.resume(Event::Opened), Request::ReadLine);
    scan
}

fn found(address: usize, text: &str, completeness: Completeness) -> Request {
    Request::Yield(ScanItem::Match { address, text: text.to_owned(), completeness })
}

fn failed(cause: ScanError) -> Request {
    Request::Yield(ScanItem::Error { cause })
}

fn region(len: usize, parts: &[(usize, &[u8])]) -> Vec<u8> {
    let mut bytes = vec![0xffu8; len];
    for (at, part) in parts {
        bytes[*at..*at + part.len()].copy_from_slice(part);
    }
    bytes
}

#[test]
fn scan_asks_to_open_until_told() {
    let mut scan = Finder::new(b"needle").find_iter(7);
    assert!(!scan.done());
    assert_eq!(scan.resume(Event::Resume), Request::Open { pid: 7 });
    assert_eq!(scan.resume(Event::Resume), Request::Open { pid: 7 });
    assert_eq!(scan.resume(Event::EndOfLines), Request::Open { pid: 7 });
    assert_eq!(scan.resume(Event::Line(LINE.to_owned())), Request::Open { pid: 7 });
    assert_eq!(scan.resume(Event::Opened), Request::ReadLine);
    assert!(!scan.done());
}

#[test]
fn scan_ends_when_opening_fails() {
    let mut scan = Finder::new(b"needle").find_iter(7);
    assert_eq!(scan.resume(Event::Resume), Request::Open { pid: 7 });
    assert_eq!(scan.resume(Event::OpenFailed), Request::Finished);
    assert!(scan.done());
    assert_eq!(scan.resume(Event::Opened), Request::Finished);
    assert_eq!(scan.resume(Event::Resume), Request::Finished);
}

#[test]
fn scan_ends_with_the_lines() {
    let mut scan = started(b"needle");
    assert_eq!(scan.resume(Event::Resume), Request::ReadLine);
    assert_eq!(scan.resume(Event::EndOfLines), Request::Finished);
    assert!(scan.done());
    assert_eq!(scan.resume(Event::Line(LINE.to_owned())), Request::Finished);
}

#[test]
fn scan_finds_terminated_needle() {
    let mut scan = started(b"needle");
    assert_eq!(
        scan.resume(Event::Line(LINE.to_owned())),
        Request::ReadRegion { start: 0x1000, len: 0x80 }
    );
    assert_eq!(scan.resume(Event::Resume), Request::ReadRegion { start: 0x1000, len: 0x80 });
    let bytes = region(0x80, &[(100, b"needle\0")]);
    assert_eq!(
        scan.resume(Event::Region(bytes)),
        found(0x1000 + 100, "needle", Completeness::Complete)
    );
    assert_eq!(scan.resume(Event::Resume), Request::ReadLine);
    assert_eq!(scan.resume(Event::EndOfLines), Request::Finished);
}

#[test]
fn scan_yields_matches_in_ascending_order() {
    let mut scan = started(b"ab");
    assert_eq!(
        scan.resume(Event::Line(LINE.to_owned())),
        Request::ReadRegion { start: 0x1000, len: 0x80 }
    );
    let bytes = region(0x80, &[(0, b"ab1\0"), (5, b"ab22\0"), (20, b"ab333\0")]);
    assert_eq!(scan.resume(Event::Region(bytes)), found(0x1000, "ab1", Completeness::Complete));
    assert_eq!(scan.resume(Event::Resume), found(0x1005, "ab22", Completeness::Complete));
    assert_eq!(scan.resume(Event::Resume), found(0x1014, "ab333", Completeness::Complete));
    assert_eq!(scan.resume(Event::Resume), Request::ReadLine);
}

#[test]
fn scan_passes_over_overlapping_matches() {
    let mut scan = started(b"aa");
    assert_eq!(
        scan.resume(Event::Line("10-15 r--p 0 0 0".to_owned())),
        Request::ReadRegion { start: 0x10, len: 5 }
    );
    assert_eq!(
        scan.resume(Event::Region(b"aaaaa".to_vec())),
        found(0x10, "aaaaa", Completeness::Truncated)
    );
    assert_eq!(scan.resume(Event::Resume), found(0x12, "aaa", Completeness::Truncated));
    assert_eq!(scan.resume(Event::Resume), Request::ReadLine);
}

#[test]
fn scan_of_region_without_match_goes_to_next_line() {
    let mut scan = started(b"needle");
    assert_eq!(
        scan.resume(Event::Line(LINE.to_owned())),
        Request::ReadRegion { start: 0x1000, len: 0x80 }
    );
    assert_eq!(scan.resume(Event::Region(region(0x80, &[(3, b"needl")]))), Request::ReadLine);
    assert_eq!(
        scan.resume(Event::Line("2000-2000 r--p 0 0 0".to_owned())),
        Request::ReadRegion { start: 0x2000, len: 0 }
    );
    assert_eq!(scan.resume(Event::Region(Vec::new())), Request::ReadLine);
}

#[test]
fn scan_skips_what_is_not_readable() {
    let mut scan = started(b"needle");
    for line in [
        "00001000-00001080 -w-p 00000000 00:00 0 [heap]",
        "00001000-00001080 ---s 00000000 00:00 0",
        "00001000-00001080 -wxp 00000000 00:00 0 /bin/needle",
    ] {
        assert_eq!(scan.resume(Event::Line(line.to_owned())), Request::ReadLine, "{line}");
    }
}

#[test]
fn scan_skips_the_pseudo_region() {
    let mut scan = started(b"needle");
    for line in [
        "00001000-00001080 r--p 00000000 00:00 0 [vvar]",
        "00001000-00001080 rw-p 00000000 00:00 0 [vvar_vclock]",
        "00001000-00001080 r-xp 00000000 00:00 0 [vvar (deleted)",
        "00001000-00001080 r-xp 00000000 00:00 0 [vvar",
    ] {
        assert_eq!(scan.resume(Event::Line(line.to_owned())), Request::ReadLine, "{line}");
    }
    for line in [
        "00001000-00001080 r--p 00000000 00:00 0 [vva",
        "00001000-00001080 r--p 00000000 00:00 0 [VVAR]",
        "00001000-00001080 r--p 00000000 00:00 0 x[vvar]",
        "00001000-00001080 r--p 00000000 00:00 0 [vdso]",
        "00001000-00001080 r--p 00000000 00:00 0",
    ] {
        assert_eq!(
            scan.resume(Event::Line(line.to_owned())),
            Request::ReadRegion { start: 0x1000, len: 0x80 },
            "{line}"
        );
        assert_eq!(scan.resume(Event::Region(vec![0; 0x80])), Request::ReadLine);
    }
}

#[test]
fn scan_yields_each_failure_and_goes_on() {
    let mut scan = started(b"needle");
    assert_eq!(scan.resume(Event::LineFailed), failed(ScanError::LineRead));
    assert_eq!(scan.resume(Event::Resume), Request::ReadLine);
    assert_eq!(scan.resume(Event::Line("not a region".to_owned())), failed(ScanError::LineParse));
    assert_eq!(scan.resume(Event::Resume), Request::ReadLine);
    assert_eq!(
        scan.resume(Event::Line(LINE.to_owned())),
        Request::ReadRegion { start: 0x1000, len: 0x80 }
    );
    assert_eq!(scan.resume(Event::RegionFailed), failed(ScanError::RegionRead));
    assert_eq!(scan.resume(Event::Resume), Request::ReadLine);
    assert_eq!(
        scan.resume(Event::Line(LINE.to_owned())),
        Request::ReadRegion { start: 0x1000, len: 0x80 }
    );
    assert_eq!(
        scan.resume(Event::Region(region(0x7f, &[(0, b"needle\0")]))),
        failed(ScanError::RegionRead)
    );
    assert_eq!(scan.resume(Event::Resume), Request::ReadLine);
    assert_eq!(
        scan.resume(Event::Line(LINE.to_owned())),
        Request::ReadRegion { start: 0x1000, len: 0x80 }
    );
    assert_eq!(
        scan.resume(Event::Region(region(0x80, &[(0x7a, b"needle")]))),
        found(0x107a, "needle", Completeness::Truncated)
    );
    assert!(!scan.done());
}

#[test]
fn scan_reads_no_region_before_its_line() {
    let lines = [
        LINE,
        "00002000-00002080 rw-p 00000000 00:00 0",
        "00003000-00003080 rw-p 00000000 00:00 0",
    ];
    let mut next_line = 0;
    let mut reads: Vec<usize> = Vec::new();
    let mut scan = Finder::new(b"needle").find_iter(1);
    let mut event = Event::Resume;
    let first = loop {
        match scan.resume(event) {
            Request::Open { .. } => event = Event::Opened,
            Request::ReadLine => {
                event = Event::Line(lines[next_line].to_owned());
                next_line += 1;
            }
            Request::ReadRegion { start, len } => {
                reads.push(start);
                event = Event::Region(region(len, &[(8, b"needle\0")]));
            }
            Request::Yield(item) => break item,
            Request::Finished => panic!("the scan ended before its first item"),
        }
    };
    assert_eq!(
        first,
        ScanItem::Match {
            address: 0x1008,
            text: "needle".to_owned(),
            completeness: Completeness::Complete
        }
    );
    assert_eq!(next_line, 1);
    assert_eq!(reads, vec![0x1000]);
}

#[test]
fn finder_is_reused_across_scans() {
    let needle = b"xyz".to_vec();
    let finder = Finder::new(&needle);
    for pid in [1, 2] {
        let mut scan = finder.find_iter(pid);
        assert_eq!(scan.resume(Event::Resume), Request::Open { pid });
        assert_eq!(scan.resume(Event::Opened), Request::ReadLine);
        assert_eq!(
            scan.resume(Event::Line("0-4 r--p 0 0 0".to_owned())),
            Request::ReadRegion { start: 0, len: 4 }
        );
        assert_eq!(
            scan.resume(Event::Region(b"xyz\0".to_vec())),
            found(0, "xyz", Completeness::Complete)
        );
    }
    let owned = finder.to_owned();
    drop(finder);
    drop(needle);
    assert_eq!(owned.offsets(b"..xyz..xyzxyz"), vec![2, 7, 10]);
    assert_eq!(owned.offsets(b"xy"), Vec::<usize>::new());
    assert_eq!(owned.offsets(b""), Vec::<usize>::new());
}

#[test]
fn extract_up_to_the_first_nul() {
    assert_eq!(extract(b"abc\0def\0"), ("abc".to_owned(), Completeness::Complete));
    assert_eq!(extract(b"\0abc"), (String::new(), Completeness::Complete));
    assert_eq!(extract("caf\u{e9}\0".as_bytes()), ("caf\u{e9}".to_owned(), Completeness::Complete));
}

#[test]
fn extract_replaces_what_is_not_text() {
    assert_eq!(extract(b"ab\xffcd\0"), ("ab\u{fffd}cd".to_owned(), Completeness::Complete));
    assert_eq!(extract(b"\xc3\0"), ("\u{fffd}".to_owned(), Completeness::Complete));
}

#[test]
fn extract_without_nul_is_truncated() {
    assert_eq!(extract(b""), (String::new(), Completeness::Truncated));
    assert_eq!(extract(b"abc"), ("abc".to_owned(), Completeness::Truncated));
    assert_eq!(extract(b"abc\xffdef"), ("abc".to_owned(), Completeness::Truncated));
    assert_eq!(extract(b"\xffabc"), (String::new(), Completeness::Truncated));
    assert_eq!(extract("ab\u{e9}cd".as_bytes()), ("ab".to_owned(), Completeness::Truncated));
}

#[test]
fn offsets_are_leftmost_and_do_not_overlap() {
    assert_eq!(Finder::new(b"aba").offsets(b"ababa"), vec![0]);
    assert_eq!(Finder::new(b"aba").offsets(b"abababa"), vec![0, 4]);
    assert_eq!(Finder::new(b"aa").offsets(b"aaaaa"), vec![0, 2]);
    assert_eq!(Finder::new(b"a").offsets(b"aaa"), vec![0, 1, 2]);
    assert_eq!(Finder::new(b"\0").offsets(b"a\0\0b\0"), vec![1, 2, 4]);
    assert_eq!(Finder::new(b"abc").offsets(b"abc"), vec![0]);
    assert_eq!(Finder::new(b"abcd").offsets(b"abc"), Vec::<usize>::new());
    let haystack: Vec<u8> = (0..200u8).cycle().take(1000).collect();
    assert_eq!(Finder::new(&[7, 8, 9]).offsets(&haystack), vec![7, 207, 407, 607, 807]);
}

#[test]
fn scan_made_from_an_owned_finder() {
    let finder = Finder::new(b"needle").to_owned();
    let mut scan = FindIter::new(finder, 3);
    assert_eq!(scan.resume(Event::Opened), Request::ReadLine);
    assert_eq!(
        scan.resume(Event::Line("ffff0000-ffff0010 r--s 0 0 0".to_owned())),
        Request::ReadRegion { start: 0xffff0000, len: 0x10 }
    );
    assert_eq!(
        scan.resume(Event::Region(b"needle haystack\0".to_vec())),
        found(0xffff0000, "needle haystack", Completeness::Complete)
    );
    assert_eq!(scan.resume(Event::RegionFailed), Request::ReadLine);
}
