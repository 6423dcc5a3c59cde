//! The scan of one process, as a machine that is resumed with what its
//! caller has read and answers with what it needs next or has found.
//!
//! The caller opens the memory map and the memory of the process, reads
//! lines and regions when asked, and hands each result back. The machine
//! does no work between two calls, and one call does no more than lead to
//! its one answer.

use crate::chars::chars_of;
use crate::extract::{extract, extract_text, Completeness};
use crate::region::{lemma_parsed_is_canonical, parse_line, Region, RegionView};
use crate::search::{is_scan, lemma_scan_is_scan, occurs_at, scan, Finder};
use libc::pid_t;
use std::str::FromStr;
use vstd::prelude::*;
use vstd::slice::slice_subrange;

verus! {

/// Why a line of the memory map gave no matches.
#[derive(PartialEq, Eq, Clone, Copy, Debug, Structural)]
pub enum ScanError {
    /// The line could not be read.
    LineRead,
    /// The line does not describe a region.
    LineParse,
    /// The memory of the region could not be read.
    RegionRead,
}

/// One result of a scan.
#[derive(PartialEq, Eq, Clone, Debug)]
pub enum ScanItem {
    /// The needle occurs at `address`, where `text` stands.
    Match { address: usize, text: String, completeness: Completeness },
    /// A line of the memory map was passed over.
    Error { cause: ScanError },
}

/// What a `ScanItem` holds, its text as a sequence of characters.
pub enum ScanItemView {
    Match { address: usize, text: Seq<char>, completeness: Completeness },
    Error { cause: ScanError },
}

impl View for ScanItem {
    type V = ScanItemView;

    open spec fn view(&self) -> ScanItemView {
        match *self {
            ScanItem::Match { address, text, completeness } => ScanItemView::Match {
                address,
                text: text@,
                completeness,
            },
            ScanItem::Error { cause } => ScanItemView::Error { cause },
        }
    }
}

/// What the caller hands to a scan when it resumes it.
#[derive(PartialEq, Eq, Clone, Debug)]
pub enum Event {
    /// Nothing: the caller asks the scan to go on.
    Resume,
    /// The memory map and the memory of the process are open.
    Opened,
    /// One of the two could not be opened.
    OpenFailed,
    /// The next line of the memory map.
    Line(String),
    /// The next line could not be read.
    LineFailed,
    /// The memory map has no more lines.
    EndOfLines,
    /// The bytes of the region that was asked for: as many as were asked
    /// for, any other number counting as a failed read.
    Region(Vec<u8>),
    /// The region that was asked for could not be read.
    RegionFailed,
}

/// What a scan answers when it is resumed.
#[derive(PartialEq, Eq, Clone, Debug)]
pub enum Request {
    /// Open the memory map and the memory of the process `pid`.
    Open { pid: pid_t },
    /// Read the next line of the memory map.
    ReadLine,
    /// Read exactly `len` bytes of memory at the address `start`.
    ReadRegion { start: usize, len: usize },
    /// Here is the next result.
    Yield(ScanItem),
    /// The scan has ended.
    Finished,
}

/// What a `Request` holds, with the item it yields as its view.
pub enum RequestView {
    Open { pid: pid_t },
    ReadLine,
    ReadRegion { start: usize, len: usize },
    Yield(ScanItemView),
    Finished,
}

impl View for Request {
    type V = RequestView;

    open spec fn view(&self) -> RequestView {
        match *self {
            Request::Open { pid } => RequestView::Open { pid },
            Request::ReadLine => RequestView::ReadLine,
            Request::ReadRegion { start, len } => RequestView::ReadRegion { start, len },
            Request::Yield(item) => RequestView::Yield(item@),
            Request::Finished => RequestView::Finished,
        }
    }
}

/// Where a scan stands between two calls.
pub enum Phase {
    /// The process has not been opened.
    NotStarted,
    /// The next line of the memory map is due.
    AtLine,
    /// The bytes of a region are due: `len` bytes at `start`.
    AtRegion { start: usize, len: usize },
    /// The matches in the region at `base` are being yielded: `offsets` are
    /// those found in `haystack`, and `next` of them have been yielded.
    EmittingMatches { base: usize, haystack: Seq<u8>, offsets: Seq<usize>, next: nat },
    /// The scan has ended.
    Done,
}

/// The pathname names the pseudo-region of kernel variables, which is not
/// read.
pub open spec fn is_pseudo(pathname: Seq<char>) -> bool {
    pathname.len() >= 5 && pathname.take(5) == seq!['[', 'v', 'v', 'a', 'r']
}

/// The region is searched: it is readable and no pseudo-region.
pub open spec fn is_eligible(region: RegionView) -> bool {
    region.perms.read && !is_pseudo(region.pathname)
}

/// Where a scan stands and what it answers once it has yielded `next` of
/// the matches at `offsets`: the next match, or the request for the next
/// line where none is left.
pub open spec fn emit(base: usize, haystack: Seq<u8>, offsets: Seq<usize>, next: nat) -> (
    Phase,
    RequestView,
) {
    if next < offsets.len() {
        let offset = offsets[next as int];
        let found = extract_text(haystack.skip(offset as int));
        (
            Phase::EmittingMatches { base, haystack, offsets, next: next + 1 },
            RequestView::Yield(
                ScanItemView::Match {
                    address: (base + offset) as usize,
                    text: found.0,
                    completeness: found.1,
                },
            ),
        )
    } else {
        (Phase::AtLine, RequestView::ReadLine)
    }
}

/// Where a scan stands and what it answers once it is given a line.
pub open spec fn after_line(line: Seq<char>) -> (Phase, RequestView) {
    match parse_line(line) {
        None => (
            Phase::AtLine,
            RequestView::Yield(ScanItemView::Error { cause: ScanError::LineParse }),
        ),
        Some(region) => if is_eligible(region) {
            let len = (region.end - region.start) as usize;
            (
                Phase::AtRegion { start: region.start, len },
                RequestView::ReadRegion { start: region.start, len },
            )
        } else {
            (Phase::AtLine, RequestView::ReadLine)
        },
    }
}

/// Where a scan stands and what it answers once it is given the bytes of
/// the region of `len` bytes at `start`.
pub open spec fn after_region(needle: Seq<u8>, start: usize, len: usize, bytes: Seq<u8>) -> (
    Phase,
    RequestView,
) {
    if bytes.len() == len {
        emit(start, bytes, scan(bytes, needle), 0)
    } else {
        (
            Phase::AtLine,
            RequestView::Yield(ScanItemView::Error { cause: ScanError::RegionRead }),
        )
    }
}

/// One step of a scan for `needle` in the process `pid`: where it stands
/// after `event` and what it answers. An event that does not answer what
/// the scan last asked for counts as `Resume`.
pub open spec fn step(needle: Seq<u8>, pid: pid_t, phase: Phase, event: Event) -> (
    Phase,
    RequestView,
) {
    match phase {
        Phase::NotStarted => match event {
            Event::Opened => (Phase::AtLine, RequestView::ReadLine),
            Event::OpenFailed => (Phase::Done, RequestView::Finished),
            _ => (Phase::NotStarted, RequestView::Open { pid }),
        },
        Phase::AtLine => match event {
            Event::Line(line) => after_line(line@),
            Event::LineFailed => (
                Phase::AtLine,
                RequestView::Yield(ScanItemView::Error { cause: ScanError::LineRead }),
            ),
            Event::EndOfLines => (Phase::Done, RequestView::Finished),
            _ => (Phase::AtLine, RequestView::ReadLine),
        },
        Phase::AtRegion { start, len } => match event {
            Event::Region(bytes) => after_region(needle, start, len, bytes@),
            Event::RegionFailed => (
                Phase::AtLine,
                RequestView::Yield(ScanItemView::Error { cause: ScanError::RegionRead }),
            ),
            _ => (phase, RequestView::ReadRegion { start, len }),
        },
        Phase::EmittingMatches { base, haystack, offsets, next } => emit(
            base,
            haystack,
            offsets,
            next,
        ),
        Phase::Done => (Phase::Done, RequestView::Finished),
    }
}

/// The phase is one that a scan for `needle` can be in: a region that is
/// due or being searched ends within the address space, and the matches
/// being yielded are those of the search of its bytes.
pub open spec fn is_reachable(needle: Seq<u8>, phase: Phase) -> bool {
    match phase {
        Phase::AtRegion { start, len } => start + len <= usize::MAX,
        Phase::EmittingMatches { base, haystack, offsets, next } => {
            &&& base + haystack.len() <= usize::MAX
            &&& offsets == scan(haystack, needle)
            &&& is_scan(haystack, needle, offsets)
            &&& next <= offsets.len()
        },
        _ => true,
    }
}

/// The stage of a scan, without what belongs to it.
#[derive(PartialEq, Eq, Clone, Copy, Debug, Structural)]
enum Stage {
    NotStarted,
    AtLine,
    AtRegion,
    EmittingMatches,
    Done,
}

/// A scan of the memory of one process for one needle.
#[must_use]
pub struct FindIter {
    finder: Finder<'static>,
    pid: pid_t,
    stage: Stage,
    /// The address of the region that is due or being searched.
    base: usize,
    /// The length of the region that is due.
    len: usize,
    /// The bytes of the region being searched.
    haystack: Vec<u8>,
    /// The offsets of the matches in `haystack`.
    offsets: Vec<usize>,
    /// How many of `offsets` have been yielded.
    next: usize,
}

impl FindIter {
    #[verifier::type_invariant]
    spec fn is_valid(self) -> bool {
        is_reachable(self.finder.needle(), self.phase())
    }

    /// The needle that this scan looks for.
    pub closed spec fn needle(self) -> Seq<u8> {
        self.finder.needle()
    }

    /// The process that this scan looks into.
    pub closed spec fn pid(self) -> pid_t {
        self.pid
    }

    /// Where this scan stands.
    pub closed spec fn phase(self) -> Phase {
        match self.stage {
            Stage::NotStarted => Phase::NotStarted,
            Stage::AtLine => Phase::AtLine,
            Stage::AtRegion => Phase::AtRegion { start: self.base, len: self.len },
            Stage::EmittingMatches => Phase::EmittingMatches {
                base: self.base,
                haystack: self.haystack@,
                offsets: self.offsets@,
                next: self.next as nat,
            },
            Stage::Done => Phase::Done,
        }
    }

    /// A scan of the process `pid` for the needle of `finder`, not started.
    pub fn new(finder: Finder<'static>, pid: pid_t) -> (scan: FindIter)
        ensures
            scan.needle() == finder.needle(),
            scan.pid() == pid,
            scan.phase() == Phase::NotStarted,
    {
        FindIter {
            finder,
            pid,
            stage: Stage::NotStarted,
            base: 0,
            len: 0,
            haystack: Vec::new(),
            offsets: Vec::new(),
            next: 0,
        }
    }

    /// Whether the scan has ended.
    pub fn done(&self) -> (ended: bool)
        ensures
            ended == (self.phase() == Phase::Done),
    {
        self.stage == Stage::Done
    }

    /// Takes what the caller hands in and goes on to the next answer: a
    /// request to the caller, a result, or the end of the scan.
    pub fn resume(&mut self, event: Event) -> (request: Request)
        ensures
            (final(self).phase(), request@) == step(
                old(self).needle(),
                old(self).pid(),
                old(self).phase(),
                event,
            ),
            final(self).needle() == old(self).needle(),
            final(self).pid() == old(self).pid(),
            is_reachable(final(self).needle(), final(self).phase()),
    {
        let request = match self.stage {
            Stage::NotStarted => match event {
                Event::Opened => {
                    self.stage = Stage::AtLine;
                    Request::ReadLine
                },
                Event::OpenFailed => {
                    self.stage = Stage::Done;
                    Request::Finished
                },
                _ => Request::Open { pid: self.pid },
            },
            Stage::AtLine => match event {
                Event::Line(line) => self.take_line(line.as_str()),
                Event::LineFailed => Request::Yield(ScanItem::Error { cause: ScanError::LineRead }),
                Event::EndOfLines => {
                    self.stage = Stage::Done;
                    Request::Finished
                },
                _ => Request::ReadLine,
            },
            Stage::AtRegion => match event {
                Event::Region(bytes) => self.take_region(bytes),
                Event::RegionFailed => {
                    self.stage = Stage::AtLine;
                    Request::Yield(ScanItem::Error { cause: ScanError::RegionRead })
                },
                _ => Request::ReadRegion { start: self.base, len: self.len },
            },
            Stage::EmittingMatches => self.emit_next(),
            Stage::Done => Request::Finished,
        };
        proof {
            use_type_invariant(&*self);
        }
        request
    }

    /// Reads a line of the memory map and asks for its region where that is
    /// to be searched.
    fn take_line(&mut self, line: &str) -> (request: Request)
        requires
            old(self).phase() == Phase::AtLine,
        ensures
            (final(self).phase(), request@) == after_line(line@),
            final(self).needle() == old(self).needle(),
            final(self).pid() == old(self).pid(),
    {
        let region = match Region::from_str(line) {
            Ok(region) => region,
            Err(_) => {
                return Request::Yield(ScanItem::Error { cause: ScanError::LineParse });
            },
        };
        if !region.perms.read || is_pseudo_path(region.pathname.as_str()) {
            return Request::ReadLine;
        }
        let start = region.address.start;
        let len = region.address.end - start;
        self.base = start;
        self.len = len;
        self.stage = Stage::AtRegion;
        Request::ReadRegion { start, len }
    }

    /// Searches the bytes of the region that was asked for and yields the
    /// first match.
    fn take_region(&mut self, bytes: Vec<u8>) -> (request: Request)
        requires
            old(self).phase() is AtRegion,
        ensures
            (final(self).phase(), request@) == after_region(
                old(self).needle(),
                old(self).phase()->start,
                old(self).phase()->len,
                bytes@,
            ),
            final(self).needle() == old(self).needle(),
            final(self).pid() == old(self).pid(),
    {
        proof {
            use_type_invariant(&*self);
        }
        if bytes.len() != self.len {
            self.stage = Stage::AtLine;
            return Request::Yield(ScanItem::Error { cause: ScanError::RegionRead });
        }
        let offsets = self.finder.offsets(bytes.as_slice());
        self.haystack = bytes;
        self.offsets = offsets;
        self.next = 0;
        self.stage = Stage::EmittingMatches;
        self.emit_next()
    }

    /// Yields the next match of the region being searched, or asks for the
    /// next line where none is left.
    fn emit_next(&mut self) -> (request: Request)
        requires
            old(self).phase() is EmittingMatches,
        ensures
            (final(self).phase(), request@) == emit(
                old(self).phase()->base,
                old(self).phase()->haystack,
                old(self).phase()->offsets,
                old(self).phase()->next,
            ),
            final(self).needle() == old(self).needle(),
            final(self).pid() == old(self).pid(),
    {
        proof {
            use_type_invariant(&*self);
        }
        if self.next < self.offsets.len() {
            let offset = self.offsets[self.next];
            assert(occurs_at(self.haystack@, self.finder.needle(), offset as int));
            let tail = slice_subrange(self.haystack.as_slice(), offset, self.haystack.len());
            let (text, completeness) = extract(tail);
            self.next = self.next + 1;
            Request::Yield(ScanItem::Match { address: self.base + offset, text, completeness })
        } else {
            self.stage = Stage::AtLine;
            self.haystack = Vec::new();
            self.offsets = Vec::new();
            Request::ReadLine
        }
    }
}

/// Whether a pathname names the pseudo-region of kernel variables.
fn is_pseudo_path(pathname: &str) -> (pseudo: bool)
    ensures
        pseudo == is_pseudo(pathname@),
{
    let chars = chars_of(pathname);
    if chars.len() < 5 {
        return false;
    }
    let pseudo = chars[0] == '[' && chars[1] == 'v' && chars[2] == 'v' && chars[3] == 'a'
        && chars[4] == 'r';
    assert(pseudo == (chars@.take(5) =~= seq!['[', 'v', 'v', 'a', 'r']));
    pseudo
}

impl<'n> Finder<'n> {
    /// A scan of the memory of the process `pid` for this finder's needle.
    pub fn find_iter(&self, pid: pid_t) -> (scan: FindIter)
        ensures
            scan.needle() == self.needle(),
            scan.pid() == pid,
            scan.phase() == Phase::NotStarted,
    {
        FindIter::new(self.to_owned(), pid)
    }
}

/// A region that is not readable, or that is the pseudo-region, is passed
/// over in silence whatever it holds: the scan asks for the next line, and
/// neither reads the region nor yields anything for it.
pub proof fn lemma_ineligible_is_skipped(needle: Seq<u8>, pid: pid_t, event: Event)
    requires
        event matches Event::Line(line) && parse_line(line@) matches Some(region) && (
        !region.perms.read || is_pseudo(region.pathname)),
    ensures
        step(needle, pid, Phase::AtLine, event) == (Phase::AtLine, RequestView::ReadLine),
{
}

/// The scan asks for the bytes of a region only when it is handed the line
/// that describes it, or is resumed while those bytes are due: it reads
/// nothing ahead of the lines it was given.
pub proof fn lemma_region_read_follows_line(
    needle: Seq<u8>,
    pid: pid_t,
    phase: Phase,
    event: Event,
)
    requires
        is_reachable(needle, phase),
        step(needle, pid, phase, event).1 is ReadRegion,
    ensures
        ({
            let (start, len) = (
                step(needle, pid, phase, event).1->start,
                step(needle, pid, phase, event).1->len,
            );
            ||| phase == (Phase::AtRegion { start, len })
            ||| {
                &&& phase == Phase::AtLine
                &&& event matches Event::Line(line)
                &&& parse_line(line@) matches Some(region)
                &&& is_eligible(region)
                &&& region.start == start
                &&& region.end - region.start == len
            }
        }),
{
    match phase {
        Phase::AtLine => {
            if let Event::Line(line) = event {
                lemma_parsed_is_canonical(line@);
            }
        },
        _ => {},
    }
}

/// A step that yields an item leaves the scan where no read is under way:
/// at a line that is still to be asked for, or among the matches of a
/// region that was read before.
pub proof fn lemma_yield_reads_nothing(needle: Seq<u8>, pid: pid_t, phase: Phase, event: Event)
    requires
        step(needle, pid, phase, event).1 is Yield,
    ensures
        step(needle, pid, phase, event).0 is AtLine || step(
            needle,
            pid,
            phase,
            event,
        ).0 is EmittingMatches,
{
}

/// The address at which the match number `k` of the region being searched
/// is yielded.
pub open spec fn match_address(phase: Phase, k: int) -> int
    recommends
        phase is EmittingMatches,
{
    phase->base + phase->offsets[k]
}

/// The matches of one region are yielded at addresses that ascend: a later
/// match lies at least the length of the needle above an earlier one, and
/// all lie within the region.
pub proof fn lemma_matches_ascend(needle: Seq<u8>, phase: Phase, i: int, j: int)
    requires
        is_reachable(needle, phase),
        phase is EmittingMatches,
        0 <= i < j < phase->offsets.len(),
    ensures
        match_address(phase, i) + needle.len() <= match_address(phase, j),
        phase->base <= match_address(phase, i),
        match_address(phase, j) + needle.len() <= phase->base + phase->haystack.len(),
{
    let offsets = phase->offsets;
    assert(offsets[i] + needle.len() <= offsets[j]);
    assert(occurs_at(phase->haystack, needle, offsets[j] as int));
}

/// While matches are being yielded, each step yields the match that is
/// next, at its address in the process, and counts it as yielded.
pub proof fn lemma_emitting_yields_in_order(needle: Seq<u8>, pid: pid_t, phase: Phase, event: Event)
    requires
        is_reachable(needle, phase),
        phase is EmittingMatches,
        phase->next < phase->offsets.len(),
    ensures
        step(needle, pid, phase, event).1 matches RequestView::Yield(
            ScanItemView::Match { address, .. },
        ) && address == match_address(phase, phase->next as int),
        step(needle, pid, phase, event).0 == (Phase::EmittingMatches {
            base: phase->base,
            haystack: phase->haystack,
            offsets: phase->offsets,
            next: phase->next + 1,
        }),
{
    let offsets = phase->offsets;
    assert(occurs_at(phase->haystack, needle, offsets[phase->next as int] as int));
}

/// Every step leads from a phase that a scan can be in to one that it can
/// be in.
pub proof fn lemma_step_keeps_reachable(needle: Seq<u8>, pid: pid_t, phase: Phase, event: Event)
    requires
        needle.len() > 0,
        is_reachable(needle, phase),
    ensures
        is_reachable(needle, step(needle, pid, phase, event).0),
{
    match phase {
        Phase::AtLine => {
            if let Event::Line(line) = event {
                if parse_line(line@) is Some {
                    lemma_parsed_is_canonical(line@);
                }
            }
        },
        Phase::AtRegion { start, len } => {
            if let Event::Region(bytes) = event {
                if bytes@.len() == len {
                    lemma_scan_is_scan(bytes@, needle);
                }
            }
        },
        _ => {},
    }
}

} // verus!
