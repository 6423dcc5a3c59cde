//! Substring search over the bytes of one region.

// The searcher of `memchr` goes by another name here: `Finder` is this
// crate's own type around it.
use memchr::memmem::Finder as Searcher;
use vstd::prelude::*;

verus! {

/// The searcher of the `memchr` crate, `memmem::Finder`: a needle together
/// with what was computed from it to find it fast.
#[verifier::external_type_specification]
#[verifier::external_body]
pub struct ExSearcher<'n>(Searcher<'n>);

/// The needle that a searcher was built for.
pub uninterp spec fn needle_of(searcher: &Searcher<'_>) -> Seq<u8>;

/// `needle` occurs in `haystack` at offset `at`.
pub open spec fn occurs_at(haystack: Seq<u8>, needle: Seq<u8>, at: int) -> bool {
    &&& 0 <= at
    &&& at + needle.len() <= haystack.len()
    &&& haystack.subrange(at, at + needle.len()) == needle
}

/// An occurrence listed in `offsets`, of length `len`, holds the offset `at`.
pub open spec fn covers(offsets: Seq<usize>, len: nat, at: int) -> bool {
    exists|k: int| 0 <= k < offsets.len() && #[trigger] offsets[k] <= at < offsets[k] + len
}

/// `offsets` lists, from the left, the occurrences of `needle` in `haystack`
/// that do not overlap an occurrence listed before them: each offset is an
/// occurrence, each starts at or after the end of those before it, and
/// every occurrence in `haystack` starts inside a listed one.
pub open spec fn is_scan(haystack: Seq<u8>, needle: Seq<u8>, offsets: Seq<usize>) -> bool {
    &&& forall|k: int|
        0 <= k < offsets.len() ==> occurs_at(haystack, needle, #[trigger] offsets[k] as int)
    &&& forall|i: int, j: int|
        #![trigger offsets[i], offsets[j]]
        0 <= i < j < offsets.len() ==> offsets[i] + needle.len() <= offsets[j]
    &&& forall|at: int|
        occurs_at(haystack, needle, at) ==> #[trigger] covers(offsets, needle.len(), at)
}

/// The occurrences of `needle` in `haystack` at or after `from`, from the
/// left, without those that overlap one taken before them.
pub open spec fn scan_from(haystack: Seq<u8>, needle: Seq<u8>, from: int) -> Seq<usize>
    decreases haystack.len() - from,
{
    if from < 0 || needle.len() == 0 || from + needle.len() > haystack.len() {
        Seq::empty()
    } else if occurs_at(haystack, needle, from) {
        seq![from as usize] + scan_from(haystack, needle, from + needle.len())
    } else {
        scan_from(haystack, needle, from + 1)
    }
}

/// The offsets at which a search of `haystack` for `needle` finds a match.
pub open spec fn scan(haystack: Seq<u8>, needle: Seq<u8>) -> Seq<usize> {
    scan_from(haystack, needle, 0)
}

/// Calls `memmem::Finder::new`, which builds a searcher that keeps the
/// given bytes as its needle.
#[verifier::external_body]
fn build<'n>(needle: &'n [u8]) -> (searcher: Searcher<'n>)
    ensures
        needle_of(&searcher) == needle@,
{
    Searcher::new(needle)
}

/// `memmem::Finder::into_owned` copies the needle where it was borrowed
/// and searches for the same bytes as before.
pub assume_specification<'n>[ Searcher::<'n>::into_owned ](searcher: Searcher<'n>) -> (owned:
    Searcher<'static>)
    ensures
        needle_of(&owned) == needle_of(&searcher),
;

/// `memmem::Finder::as_ref` gives a searcher that borrows the needle of
/// this one and searches for the same bytes.
pub assume_specification<'n, 'a>[ Searcher::<'n>::as_ref ](searcher: &'a Searcher<'n>) -> (borrowed:
    Searcher<'a>)
    ensures
        needle_of(&borrowed) == needle_of(searcher),
;

/// Calls `memmem::Finder::find_iter` and collects what it yields. Its
/// iterator starts at offset 0 and, each time, yields the first occurrence
/// of the needle at or after where it stands, then moves to the end of that
/// occurrence; it ends when no occurrence is left.
#[verifier::external_body]
fn all_offsets(searcher: &Searcher<'_>, haystack: &[u8]) -> (offsets: Vec<usize>)
    requires
        needle_of(searcher).len() > 0,
    ensures
        is_scan(haystack@, needle_of(searcher), offsets@),
{
    searcher.find_iter(haystack).collect()
}

/// What `scan_from` lists are occurrences at or after `from`, each at or
/// after the end of those before it, and every occurrence at or after
/// `from` starts inside one of them.
pub proof fn lemma_scan_from(haystack: Seq<u8>, needle: Seq<u8>, from: int)
    requires
        needle.len() > 0,
        0 <= from,
        haystack.len() <= usize::MAX,
    ensures
        forall|k: int|
            0 <= k < scan_from(haystack, needle, from).len() ==> from <= (#[trigger] scan_from(
                haystack,
                needle,
                from,
            )[k]) && occurs_at(haystack, needle, scan_from(haystack, needle, from)[k] as int),
        forall|i: int, j: int|
            #![trigger scan_from(haystack, needle, from)[i], scan_from(haystack, needle, from)[j]]
            0 <= i < j < scan_from(haystack, needle, from).len() ==> scan_from(
                haystack,
                needle,
                from,
            )[i] + needle.len() <= scan_from(haystack, needle, from)[j],
        forall|at: int|
            from <= at && occurs_at(haystack, needle, at) ==> #[trigger] covers(
                scan_from(haystack, needle, from),
                needle.len(),
                at,
            ),
    decreases haystack.len() - from,
{
    let found = scan_from(haystack, needle, from);
    if from + needle.len() > haystack.len() {
    } else if occurs_at(haystack, needle, from) {
        let next = from + needle.len();
        let rest = scan_from(haystack, needle, next);
        lemma_scan_from(haystack, needle, next);
        assert forall|k: int| 0 <= k < found.len() implies from <= (#[trigger] found[k])
            && occurs_at(haystack, needle, found[k] as int) by {
            if k > 0 {
                assert(found[k] == rest[k - 1]);
            }
        }
        assert forall|i: int, j: int|
            #![trigger found[i], found[j]]
            0 <= i < j < found.len() implies found[i] + needle.len() <= found[j] by {
            assert(found[j] == rest[j - 1]);
            if i > 0 {
                assert(found[i] == rest[i - 1]);
            }
        }
        assert forall|at: int|
            from <= at && occurs_at(haystack, needle, at) implies #[trigger] covers(
            found,
            needle.len(),
            at,
        ) by {
            if at < next {
                assert(found[0] <= at < found[0] + needle.len());
            } else {
                assert(covers(rest, needle.len(), at));
                let k = choose|k: int|
                    0 <= k < rest.len() && #[trigger] rest[k] <= at < rest[k] + needle.len();
                assert(found[k + 1] == rest[k]);
            }
        }
    } else {
        lemma_scan_from(haystack, needle, from + 1);
        assert(found == scan_from(haystack, needle, from + 1));
        assert forall|k: int| 0 <= k < found.len() implies from <= (#[trigger] found[k])
            && occurs_at(haystack, needle, found[k] as int) by {}
        assert forall|at: int|
            from <= at && occurs_at(haystack, needle, at) implies #[trigger] covers(
            found,
            needle.len(),
            at,
        ) by {
            assert(at != from);
        }
    }
}

/// The offsets of `scan` are a scan: a haystack that fits in memory has one
/// for every needle that is not empty.
pub proof fn lemma_scan_is_scan(haystack: Seq<u8>, needle: Seq<u8>)
    requires
        needle.len() > 0,
        haystack.len() <= usize::MAX,
    ensures
        is_scan(haystack, needle, scan(haystack, needle)),
{
    lemma_scan_from(haystack, needle, 0);
}

/// Two scans of one haystack for one needle agree on their first `count`
/// offsets.
proof fn lemma_scan_agree(
    haystack: Seq<u8>,
    needle: Seq<u8>,
    a: Seq<usize>,
    b: Seq<usize>,
    count: int,
)
    requires
        needle.len() > 0,
        is_scan(haystack, needle, a),
        is_scan(haystack, needle, b),
        0 <= count <= a.len(),
    ensures
        count <= b.len(),
        forall|k: int| 0 <= k < count ==> a[k] == b[k],
    decreases count,
{
    if count > 0 {
        let k = count - 1;
        lemma_scan_agree(haystack, needle, a, b, k);
        assert(occurs_at(haystack, needle, a[k] as int));
        assert(covers(b, needle.len(), a[k] as int));
        let m = choose|m: int| 0 <= m < b.len() && #[trigger] b[m] <= a[k] < b[m] + needle.len();
        assert(m >= k) by {
            if m < k {
                assert(a[m] + needle.len() <= a[k]);
            }
        }
        assert(b[k] <= a[k]) by {
            if m > k {
                assert(b[k] + needle.len() <= b[m]);
            }
        }
        assert(occurs_at(haystack, needle, b[k] as int));
        assert(covers(a, needle.len(), b[k] as int));
        let m2 = choose|m2: int|
            0 <= m2 < a.len() && #[trigger] a[m2] <= b[k] < a[m2] + needle.len();
        assert(m2 >= k) by {
            if m2 < k {
                assert(b[m2] + needle.len() <= b[k]);
            }
        }
        assert(a[k] <= b[k]) by {
            if m2 > k {
                assert(a[k] + needle.len() <= a[m2]);
            }
        }
    }
}

/// A haystack has one scan for a needle that is not empty.
pub proof fn lemma_scan_unique(haystack: Seq<u8>, needle: Seq<u8>, a: Seq<usize>, b: Seq<usize>)
    requires
        needle.len() > 0,
        is_scan(haystack, needle, a),
        is_scan(haystack, needle, b),
    ensures
        a == b,
{
    lemma_scan_agree(haystack, needle, a, b, a.len() as int);
    lemma_scan_agree(haystack, needle, b, a, b.len() as int);
    assert(a =~= b);
}

/// A searcher for one needle, built once and used on many regions.
pub struct Finder<'n> {
    searcher: Searcher<'n>,
}

impl<'n> Finder<'n> {
    #[verifier::type_invariant]
    spec fn searches_for_something(self) -> bool {
        needle_of(&self.searcher).len() > 0
    }

    /// The needle that this finder looks for.
    pub closed spec fn needle(self) -> Seq<u8> {
        needle_of(&self.searcher)
    }

    /// A finder for `needle`, which is not empty.
    pub fn new(needle: &'n [u8]) -> (finder: Finder<'n>)
        requires
            needle@.len() > 0,
        ensures
            finder.needle() == needle@,
    {
        Finder { searcher: build(needle) }
    }

    /// A finder for the same needle that borrows nothing.
    pub fn to_owned(&self) -> (owned: Finder<'static>)
        ensures
            owned.needle() == self.needle(),
    {
        proof {
            use_type_invariant(self);
        }
        Finder { searcher: self.searcher.as_ref().into_owned() }
    }

    /// The offsets in `haystack` of the occurrences of the needle, from the
    /// left, without those that overlap an earlier one.
    pub fn offsets(&self, haystack: &[u8]) -> (offsets: Vec<usize>)
        ensures
            self.needle().len() > 0,
            offsets@ == scan(haystack@, self.needle()),
            is_scan(haystack@, self.needle(), offsets@),
    {
        proof {
            use_type_invariant(self);
        }
        let offsets = all_offsets(&self.searcher, haystack);
        proof {
            assert(haystack@.len() == vstd::slice::spec_slice_len(haystack));
            lemma_scan_is_scan(haystack@, self.needle());
            lemma_scan_unique(
                haystack@,
                self.needle(),
                offsets@,
                scan(haystack@, self.needle()),
            );
        }
        offsets
    }
}

} // verus!
