//! Byte signatures with wildcards, and the search for their first occurrence.

use vstd::prelude::*;

verus! {

/// One element of a signature: a fixed byte, or a wildcard that matches any byte.
#[derive(Debug, Clone, Copy, PartialEq, Eq, Structural)]
pub enum SignatureByte {
    /// Matches exactly this byte.
    Byte(u8),
    /// Matches every byte.
    Any,
}

impl SignatureByte {
    /// Whether this element matches the byte `b`.
    pub open spec fn accepts(self, b: u8) -> bool {
        match self {
            SignatureByte::Byte(x) => x == b,
            SignatureByte::Any => true,
        }
    }

    /// Whether this element matches the byte `b`.
    pub fn matches(&self, b: u8) -> (r: bool)
        ensures
            r == self.accepts(b),
    {
        match self {
            SignatureByte::Byte(x) => *x == b,
            SignatureByte::Any => true,
        }
    }
}

/// An ordered pattern of fixed bytes and wildcards. It cannot be changed once
/// built and belongs to no process: one signature serves any number of scans.
#[derive(Debug, PartialEq, Eq)]
pub struct Signature {
    elements: Vec<SignatureByte>,
}

impl View for Signature {
    type V = Seq<SignatureByte>;

    closed spec fn view(&self) -> Seq<SignatureByte> {
        self.elements@
    }
}

/// The pattern matches the haystack at offset `at`: it fits there, and every
/// element accepts the byte it lies over.
pub open spec fn matches_at(haystack: Seq<u8>, pattern: Seq<SignatureByte>, at: int) -> bool {
    &&& 0 <= at
    &&& at + pattern.len() <= haystack.len()
    &&& forall|k: int|
        0 <= k < pattern.len() ==> (#[trigger] pattern[k]).accepts(haystack[at + k])
}

/// The lowest offset at or after `from` at which the pattern matches, if any.
pub open spec fn first_match_from(
    haystack: Seq<u8>,
    pattern: Seq<SignatureByte>,
    from: int,
) -> Option<int>
    decreases haystack.len() - from,
{
    if from < 0 || from + pattern.len() > haystack.len() {
        None
    } else if matches_at(haystack, pattern, from) {
        Some(from)
    } else {
        first_match_from(haystack, pattern, from + 1)
    }
}

/// The lowest offset at which the pattern matches the haystack, if any.
pub open spec fn first_match(haystack: Seq<u8>, pattern: Seq<SignatureByte>) -> Option<int> {
    first_match_from(haystack, pattern, 0)
}

/// `first_match_from` returns a matching offset with no match between `from`
/// and it, and returns `None` only when nothing matches from `from` on.
pub proof fn lemma_first_match_from(haystack: Seq<u8>, pattern: Seq<SignatureByte>, from: int)
    requires
        0 <= from,
    ensures
        match first_match_from(haystack, pattern, from) {
            Some(at) => {
                &&& from <= at
                &&& matches_at(haystack, pattern, at)
                &&& forall|j: int| from <= j < at ==> !matches_at(haystack, pattern, j)
            },
            None => forall|j: int| from <= j ==> !matches_at(haystack, pattern, j),
        },
    decreases haystack.len() - from,
{
    if from + pattern.len() > haystack.len() {
    } else if matches_at(haystack, pattern, from) {
    } else {
        lemma_first_match_from(haystack, pattern, from + 1);
    }
}

/// The first match is a match, nothing matches before it, and where there is
/// none the pattern matches nowhere.
pub proof fn lemma_first_match_is_lowest(haystack: Seq<u8>, pattern: Seq<SignatureByte>)
    ensures
        match first_match(haystack, pattern) {
            Some(at) => {
                &&& matches_at(haystack, pattern, at)
                &&& forall|j: int| j < at ==> !matches_at(haystack, pattern, j)
            },
            None => forall|j: int| !matches_at(haystack, pattern, j),
        },
{
    lemma_first_match_from(haystack, pattern, 0);
}

/// An offset that matches, with no match below it, is the first match.
pub proof fn lemma_lowest_is_first_match(haystack: Seq<u8>, pattern: Seq<SignatureByte>, at: int)
    requires
        matches_at(haystack, pattern, at),
        forall|j: int| 0 <= j < at ==> !matches_at(haystack, pattern, j),
    ensures
        first_match(haystack, pattern) == Some(at),
{
    lemma_first_match_from(haystack, pattern, 0);
}

/// Where no offset matches, there is no first match.
pub proof fn lemma_no_match_anywhere(haystack: Seq<u8>, pattern: Seq<SignatureByte>)
    requires
        forall|j: int| 0 <= j ==> !matches_at(haystack, pattern, j),
    ensures
        first_match(haystack, pattern) is None,
{
    lemma_first_match_from(haystack, pattern, 0);
}

impl Signature {
    /// Builds the signature with exactly these elements, in this order.
    pub fn new(elements: Vec<SignatureByte>) -> (s: Signature)
        ensures
            s@ == elements@,
    {
        Signature { elements }
    }

    /// The number of elements.
    pub fn len(&self) -> (n: usize)
        ensures
            n == self@.len(),
    {
        self.elements.len()
    }

    /// The element at position `i`.
    pub fn get(&self, i: usize) -> (e: SignatureByte)
        requires
            i < self@.len(),
        ensures
            e == self@[i as int],
    {
        self.elements[i]
    }

    /// Whether the signature matches `haystack` at offset `at`.
    pub fn matches_at(&self, haystack: &[u8], at: usize) -> (r: bool)
        ensures
            r == matches_at(haystack@, self@, at as int),
    {
        let n: usize = self.elements.len();
        if haystack.len() < n || at > haystack.len() - n {
            return false;
        }
        let mut k: usize = 0;
        while k < n
            invariant
                n == self.elements@.len(),
                at + n <= haystack@.len(),
                haystack@.len() <= usize::MAX,
                k <= n,
                forall|j: int| 0 <= j < k ==> (#[trigger] self@[j]).accepts(haystack@[at + j]),
            decreases n - k,
        {
            if !self.elements[k].matches(haystack[at + k]) {
                assert(!self@[k as int].accepts(haystack@[at + k]));
                return false;
            }
            k += 1;
        }
        true
    }
}

/// Searches `haystack` from left to right for the signature and returns the
/// lowest offset at which it matches, or `None` when it matches nowhere. An
/// empty signature matches at offset 0.
pub fn find_signature(haystack: &[u8], sign: &Signature) -> (r: Option<usize>)
    ensures
        match r {
            Some(at) => {
                &&& first_match(haystack@, sign@) == Some(at as int)
                &&& matches_at(haystack@, sign@, at as int)
                &&& forall|j: int| j < at ==> !matches_at(haystack@, sign@, j)
            },
            None => {
                &&& first_match(haystack@, sign@) is None
                &&& forall|j: int| !matches_at(haystack@, sign@, j)
            },
        },
{
    let n: usize = sign.len();
    if haystack.len() < n {
        proof {
            lemma_no_match_anywhere(haystack@, sign@);
        }
        return None;
    }
    let last: usize = haystack.len() - n;
    let mut at: usize = 0;
    loop
        invariant
            n == sign@.len(),
            last + n == haystack@.len(),
            at <= last,
            forall|j: int| 0 <= j < at ==> !matches_at(haystack@, sign@, j),
        decreases last - at,
    {
        if sign.matches_at(haystack, at) {
            proof {
                lemma_lowest_is_first_match(haystack@, sign@, at as int);
            }
            return Some(at);
        }
        if at == last {
            proof {
                lemma_no_match_anywhere(haystack@, sign@);
            }
            return None;
        }
        at += 1;
    }
}

} // verus!
