//! One line of a process's memory map: the address range of a mapped region,
//! its permissions, file offset, device, inode and pathname.

use crate::chars::{
    chars_of, is_space, join, join_words, lemma_words_are_words, lemma_words_concat,
    lemma_words_of_join, lemma_words_of_spaces, lemma_words_of_word, next_word, no_space,
    push_all, string_of, words,
};
use crate::number::{
    all_digits, digits_of, is_digit, lemma_digits_of, lemma_leading_zeros,
    lemma_number_round_trip, pad_end, pad_start, parse_number, parse_radix, write_padded_end,
    write_padded_start,
};
use crate::perms::{lemma_perms_round_trip, Perms};
use libc::ino_t;
use std::ops::Range;
use std::str::FromStr;
use vstd::prelude::*;
use vstd::slice::slice_subrange;

verus! {

/// `Clone::clone` of std's `Range`, which the derived `Clone` of `Region`
/// calls. Nothing is claimed of the copy.
pub assume_specification<Idx>[ <std::ops::Range<Idx> as std::clone::Clone>::clone ](
    range: &std::ops::Range<Idx>,
) -> (copy: std::ops::Range<Idx>) where Idx: std::clone::Clone
;

/// A mapped region of a process's address space.
#[derive(PartialEq, Eq, Clone, Debug)]
pub struct Region {
    /// The addresses of the region: `start` is its first, `end` the one
    /// after its last.
    pub address: Range<usize>,
    pub perms: Perms,
    /// Where the region starts in the file it maps.
    pub offset: usize,
    /// The device of that file, as the map shows it.
    pub dev: String,
    /// The inode of that file, 0 where there is none.
    pub inode: ino_t,
    /// The path of that file, a label in brackets, or nothing.
    pub pathname: String,
}

/// The line was not a memory map entry.
#[derive(Debug, Clone, PartialEq, Eq)]
pub struct ParseRegionError;

/// What a `Region` holds, its texts as sequences of characters.
pub struct RegionView {
    pub start: usize,
    pub end: usize,
    pub perms: Perms,
    pub offset: usize,
    pub dev: Seq<char>,
    pub inode: ino_t,
    pub pathname: Seq<char>,
}

impl View for Region {
    type V = RegionView;

    open spec fn view(&self) -> RegionView {
        RegionView {
            start: self.address.start,
            end: self.address.end,
            perms: self.perms,
            offset: self.offset,
            dev: self.dev@,
            inode: self.inode,
            pathname: self.pathname@,
        }
    }
}

/// Where `c` first stands in `s`, or the length of `s` where it does not.
pub open spec fn find_char(s: Seq<char>, c: char) -> nat
    decreases s.len(),
{
    if s.len() == 0 || s[0] == c {
        0
    } else {
        1 + find_char(s.drop_first(), c)
    }
}

/// The address range that `word` writes: two hexadecimal numbers around the
/// first `-`, the first not above the second.
pub open spec fn parse_address(word: Seq<char>) -> Option<(usize, usize)> {
    let dash = find_char(word, '-') as int;
    if dash >= word.len() {
        None
    } else {
        match (
            parse_number(word.take(dash), 16, usize::MAX as nat),
            parse_number(word.skip(dash + 1), 16, usize::MAX as nat),
        ) {
            (Some(start), Some(end)) => if start <= end {
                Some((start as usize, end as usize))
            } else {
                None
            },
            _ => None,
        }
    }
}

/// The region that `line` describes: its first five words are the address
/// range, the permissions, the offset, the device and the inode, and the
/// words after them, joined by single spaces, are the pathname.
pub open spec fn parse_line(line: Seq<char>) -> Option<RegionView> {
    let w = words(line);
    if w.len() < 5 {
        None
    } else {
        match (
            parse_address(w[0]),
            Perms::decode(w[1]),
            parse_number(w[2], 16, usize::MAX as nat),
            parse_number(w[4], 10, ino_t::MAX as nat),
        ) {
            (Some(address), Some(perms), Some(offset), Some(inode)) => Some(
                RegionView {
                    start: address.0,
                    end: address.1,
                    perms,
                    offset: offset as usize,
                    dev: w[3],
                    inode: inode as ino_t,
                    pathname: join(w.skip(5)),
                },
            ),
            _ => None,
        }
    }
}

/// `n` in lower case hexadecimal, with zeros in front up to eight digits.
pub open spec fn hex8(n: usize) -> Seq<char> {
    pad_start(digits_of(n as nat, 16), '0', 8)
}

/// The line that describes `region`: the fields in order, a `-` between the
/// two addresses and a space between the fields; the inode in decimal with
/// spaces after it up to ten characters.
pub open spec fn format_line(region: RegionView) -> Seq<char> {
    hex8(region.start) + seq!['-'] + hex8(region.end) + seq![' '] + region.perms.encode()
        + seq![' '] + hex8(region.offset) + seq![' '] + region.dev + seq![' '] + pad_end(
        digits_of(region.inode as nat, 10),
        ' ',
        10,
    ) + seq![' '] + region.pathname
}

/// The region is one that a line can describe: its range is not inverted,
/// its device is one word, and its pathname is words with single spaces
/// between them.
pub open spec fn is_canonical(region: RegionView) -> bool {
    &&& region.start <= region.end
    &&& region.dev.len() > 0
    &&& no_space(region.dev)
    &&& join(words(region.pathname)) == region.pathname
}

/// Where `c` first stands in `s` is the place before which it does not
/// occur and at which it does.
pub proof fn lemma_find_char_is(s: Seq<char>, c: char, n: int)
    requires
        0 <= n <= s.len(),
        forall|i: int| 0 <= i < n ==> #[trigger] s[i] != c,
        n < s.len() ==> s[n] == c,
    ensures
        find_char(s, c) == n,
    decreases n,
{
    if n > 0 {
        let rest = s.drop_first();
        assert forall|i: int| 0 <= i < n - 1 implies #[trigger] rest[i] != c by {
            assert(rest[i] == s[i + 1]);
        }
        if n < s.len() {
            assert(rest[n - 1] == s[n]);
        }
        lemma_find_char_is(rest, c, n - 1);
    }
}

/// Reads an address range from all of `word`.
pub fn parse_address_chars(word: &[char]) -> (r: Option<(usize, usize)>)
    ensures
        r == parse_address(word@),
{
    let mut dash: usize = 0;
    while dash < word.len() && word[dash] != '-'
        invariant
            dash <= word@.len(),
            forall|i: int| 0 <= i < dash ==> #[trigger] word@[i] != '-',
        decreases word@.len() - dash,
    {
        dash += 1;
    }
    proof {
        lemma_find_char_is(word@, '-', dash as int);
    }
    if dash == word.len() {
        return None;
    }
    let start = match parse_radix(slice_subrange(word, 0, dash), 16, usize::MAX as u64) {
        Some(v) => v as usize,
        None => return None,
    };
    let end = match parse_radix(
        slice_subrange(word, dash + 1, word.len()),
        16,
        usize::MAX as u64,
    ) {
        Some(v) => v as usize,
        None => return None,
    };
    if start <= end {
        Some((start, end))
    } else {
        None
    }
}

impl Region {
    /// Reads a region from the characters of a line.
    pub fn parse_chars(line: &[char]) -> (r: Result<Region, ParseRegionError>)
        ensures
            match parse_line(line@) {
                Some(v) => r matches Ok(region) && region@ == v,
                None => r is Err,
            },
    {
        let ghost w = words(line@);
        assert(line@.skip(0) =~= line@);
        let (a0, b0) = match next_word(line, 0) {
            Some(found) => found,
            None => return Err(ParseRegionError),
        };
        let (a1, b1) = match next_word(line, b0) {
            Some(found) => found,
            None => return Err(ParseRegionError),
        };
        let (a2, b2) = match next_word(line, b1) {
            Some(found) => found,
            None => return Err(ParseRegionError),
        };
        let (a3, b3) = match next_word(line, b2) {
            Some(found) => found,
            None => return Err(ParseRegionError),
        };
        let (a4, b4) = match next_word(line, b3) {
            Some(found) => found,
            None => return Err(ParseRegionError),
        };
        proof {
            let rest = words(line@.skip(b4 as int));
            assert(w =~= seq![
                line@.subrange(a0 as int, b0 as int),
                line@.subrange(a1 as int, b1 as int),
                line@.subrange(a2 as int, b2 as int),
                line@.subrange(a3 as int, b3 as int),
                line@.subrange(a4 as int, b4 as int),
            ] + rest);
            assert(w.skip(5) =~= rest);
        }
        let address = match parse_address_chars(slice_subrange(line, a0, b0)) {
            Some(range) => range,
            None => return Err(ParseRegionError),
        };
        let perms = match Perms::parse_chars(slice_subrange(line, a1, b1)) {
            Some(perms) => perms,
            None => return Err(ParseRegionError),
        };
        let offset = match parse_radix(slice_subrange(line, a2, b2), 16, usize::MAX as u64) {
            Some(v) => v as usize,
            None => return Err(ParseRegionError),
        };
        let inode = match parse_radix(slice_subrange(line, a4, b4), 10, ino_t::MAX) {
            Some(v) => v,
            None => return Err(ParseRegionError),
        };
        let dev = string_of(slice_subrange(line, a3, b3));
        let pathname = join_words(line, b4);
        Ok(
            Region {
                address: address.0..address.1,
                perms,
                offset,
                dev,
                inode,
                pathname: string_of(pathname.as_slice()),
            },
        )
    }

    /// The line that describes this region.
    pub fn to_string(&self) -> (line: String)
        ensures
            line@ == format_line(self@),
    {
        let mut out: Vec<char> = Vec::new();
        write_padded_start(self.address.start as u64, 16, '0', 8, &mut out);
        out.push('-');
        write_padded_start(self.address.end as u64, 16, '0', 8, &mut out);
        out.push(' ');
        self.perms.write_chars(&mut out);
        out.push(' ');
        write_padded_start(self.offset as u64, 16, '0', 8, &mut out);
        out.push(' ');
        let dev = chars_of(self.dev.as_str());
        push_all(&mut out, dev.as_slice());
        out.push(' ');
        write_padded_end(self.inode, 10, ' ', 10, &mut out);
        out.push(' ');
        let pathname = chars_of(self.pathname.as_str());
        push_all(&mut out, pathname.as_slice());
        assert(out@ =~= format_line(self@));
        string_of(out.as_slice())
    }
}

impl FromStr for Region {
    type Err = ParseRegionError;

    /// Reads a region from a line of a memory map.
    fn from_str(s: &str) -> (r: Result<Region, ParseRegionError>)
        ensures
            match parse_line(s@) {
                Some(v) => r matches Ok(region) && region@ == v,
                None => r is Err,
            },
    {
        let line = chars_of(s);
        Region::parse_chars(line.as_slice())
    }
}

/// The word that writes an address range.
pub open spec fn address_word(start: usize, end: usize) -> Seq<char> {
    hex8(start) + seq!['-'] + hex8(end)
}

/// The inode as `format_line` writes it, with the spaces after it.
pub open spec fn inode_field(inode: ino_t) -> Seq<char> {
    pad_end(digits_of(inode as nat, 10), ' ', 10)
}

/// Digits hold neither whitespace nor `-`.
pub proof fn lemma_digits_are_plain(s: Seq<char>, radix: nat)
    requires
        all_digits(s, radix),
    ensures
        no_space(s),
        forall|i: int| 0 <= i < s.len() ==> #[trigger] s[i] != '-',
{
    assert forall|i: int| 0 <= i < s.len() implies !is_space(#[trigger] s[i]) && s[i] != '-' by {
        assert(is_digit(s[i], radix));
    }
}

/// A number written with `hex8` is digits alone, and reads back as itself.
pub proof fn lemma_hex8(n: usize)
    ensures
        hex8(n).len() > 0,
        all_digits(hex8(n), 16),
        parse_number(hex8(n), 16, usize::MAX as nat) == Some(n as nat),
{
    let digits = digits_of(n as nat, 16);
    lemma_digits_of(n as nat, 16);
    if digits.len() < 8 {
        lemma_leading_zeros((8 - digits.len()) as nat, digits, 16);
    }
    lemma_number_round_trip(n as nat, 16, 8, usize::MAX as nat);
}

/// The word of an address range reads back as that range.
pub proof fn lemma_address_round_trip(start: usize, end: usize)
    requires
        start <= end,
    ensures
        parse_address(address_word(start, end)) == Some((start, end)),
        address_word(start, end).len() > 0,
        no_space(address_word(start, end)),
{
    let word = address_word(start, end);
    let first = hex8(start);
    let second = hex8(end);
    lemma_hex8(start);
    lemma_hex8(end);
    lemma_digits_are_plain(first, 16);
    lemma_digits_are_plain(second, 16);
    assert forall|i: int| 0 <= i < first.len() implies #[trigger] word[i] != '-' by {
        assert(word[i] == first[i]);
    }
    lemma_find_char_is(word, '-', first.len() as int);
    assert(word.take(first.len() as int) =~= first);
    assert(word.skip(first.len() as int + 1) =~= second);
    assert forall|i: int| 0 <= i < word.len() implies !is_space(#[trigger] word[i]) by {
        if i < first.len() {
            assert(word[i] == first[i]);
        } else if i > first.len() {
            assert(word[i] == second[i - first.len() - 1]);
        }
    }
}

/// The words of a written line are its five fields, then the words of the
/// pathname.
pub proof fn lemma_format_words(region: RegionView)
    requires
        region.dev.len() > 0,
        no_space(region.dev),
        region.start <= region.end,
    ensures
        words(format_line(region)) == seq![
            address_word(region.start, region.end),
            region.perms.encode(),
            hex8(region.offset),
            region.dev,
            digits_of(region.inode as nat, 10),
        ] + words(region.pathname),
{
    let address = address_word(region.start, region.end);
    let perms = region.perms.encode();
    let offset = hex8(region.offset);
    let inode = digits_of(region.inode as nat, 10);
    let field = inode_field(region.inode);
    let upto1 = address + seq![' '] + perms;
    let upto2 = upto1 + seq![' '] + offset;
    let upto3 = upto2 + seq![' '] + region.dev;
    let upto4 = upto3 + seq![' '] + field;
    lemma_address_round_trip(region.start, region.end);
    lemma_words_of_word(address);
    assert(no_space(perms));
    lemma_words_of_word(perms);
    lemma_hex8(region.offset);
    lemma_digits_are_plain(offset, 16);
    lemma_words_of_word(offset);
    lemma_words_of_word(region.dev);
    lemma_digits_of(region.inode as nat, 10);
    lemma_digits_are_plain(inode, 10);
    lemma_words_of_word(inode);
    assert(words(field) == seq![inode]) by {
        if inode.len() < 10 {
            let pad = Seq::new((10 - inode.len()) as nat, |i: int| ' ');
            let rest = pad.drop_first();
            assert(field =~= inode + seq![' '] + rest);
            lemma_words_concat(inode, ' ', rest);
            lemma_words_of_spaces(rest);
            assert(seq![inode] + Seq::<Seq<char>>::empty() =~= seq![inode]);
        }
    }
    lemma_words_concat(address, ' ', perms);
    lemma_words_concat(upto1, ' ', offset);
    lemma_words_concat(upto2, ' ', region.dev);
    lemma_words_concat(upto3, ' ', field);
    lemma_words_concat(upto4, ' ', region.pathname);
    assert(format_line(region) =~= upto4 + seq![' '] + region.pathname);
    assert(words(upto4) =~= seq![address, perms, offset, region.dev, inode]);
}

/// Writing a region as a line and reading the line back gives the region.
pub proof fn lemma_region_round_trip(region: RegionView)
    requires
        is_canonical(region),
    ensures
        parse_line(format_line(region)) == Some(region),
{
    let w = words(format_line(region));
    let inode = digits_of(region.inode as nat, 10);
    lemma_format_words(region);
    lemma_address_round_trip(region.start, region.end);
    lemma_perms_round_trip(region.perms);
    lemma_hex8(region.offset);
    lemma_number_round_trip(region.inode as nat, 10, 0, ino_t::MAX as nat);
    assert(pad_start(inode, '0', 0) == inode);
    assert(w.skip(5) =~= words(region.pathname));
}

/// A line of fewer than five words describes no region.
pub proof fn lemma_short_line_rejected(line: Seq<char>)
    requires
        words(line).len() < 5,
    ensures
        parse_line(line) is None,
{
}

/// The pathname of a region read from a line is the words after the fifth,
/// with one space between each two.
pub proof fn lemma_pathname_is_rejoined(line: Seq<char>)
    requires
        parse_line(line) is Some,
    ensures
        parse_line(line)->0.pathname == join(words(line).skip(5)),
        parse_line(line)->0.dev == words(line)[3],
{
}

/// A region read from a line is one that a line can describe.
pub proof fn lemma_parsed_is_canonical(line: Seq<char>)
    requires
        parse_line(line) is Some,
    ensures
        is_canonical(parse_line(line)->0),
{
    let w = words(line);
    lemma_words_are_words(line);
    assert(w[3].len() > 0 && no_space(w[3]));
    let rest = w.skip(5);
    assert forall|i: int| 0 <= i < rest.len() implies (#[trigger] rest[i]).len() > 0 && no_space(
        rest[i],
    ) by {
        assert(rest[i] == w[i + 5]);
    }
    lemma_words_of_join(rest);
}

} // verus!
