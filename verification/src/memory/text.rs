//! Byte-level text primitives that the parsers share.

use vstd::prelude::*;

verus! {

/// The length of the longest prefix of `s` that does not hold the byte `stop`.
pub open spec fn run_until(s: Seq<u8>, stop: u8) -> nat
    decreases s.len(),
{
    if s.len() > 0 && s[0] != stop {
        1 + run_until(s.skip(1), stop)
    } else {
        0
    }
}

/// A stretch without `stop` that ends at a `stop`, or at the end of the text,
/// is the run that `run_until` measures.
pub proof fn lemma_run_until_is(s: Seq<u8>, stop: u8, n: int)
    requires
        0 <= n <= s.len(),
        forall|i: int| 0 <= i < n ==> #[trigger] s[i] != stop,
        n < s.len() ==> s[n] == stop,
    ensures
        run_until(s, stop) == n,
    decreases n,
{
    if n > 0 {
        let rest = s.skip(1);
        assert forall|i: int| 0 <= i < n - 1 implies #[trigger] rest[i] != stop by {
            assert(rest[i] == s[i + 1]);
        }
        lemma_run_until_is(rest, stop, n - 1);
    }
}

/// Whether `b` is ASCII white space.
pub open spec fn is_space(b: u8) -> bool {
    b == 0x20 || (0x09 <= b <= 0x0d)
}

/// The length of the longest prefix of `s` that is white space.
pub open spec fn space_run(s: Seq<u8>) -> nat
    decreases s.len(),
{
    if s.len() > 0 && is_space(s[0]) {
        1 + space_run(s.skip(1))
    } else {
        0
    }
}

/// The length of the longest prefix of `s` that holds no white space.
pub open spec fn word_run(s: Seq<u8>) -> nat
    decreases s.len(),
{
    if s.len() > 0 && !is_space(s[0]) {
        1 + word_run(s.skip(1))
    } else {
        0
    }
}

/// The first field of `s` when fields are set apart by white space: what
/// stands between the white space that `s` begins with and the next white
/// space, or the end. It is empty when `s` holds nothing but white space.
pub open spec fn first_field(s: Seq<u8>) -> Seq<u8> {
    let rest = s.skip(space_run(s) as int);
    rest.take(word_run(rest) as int)
}

/// Whether `b` is ASCII white space.
pub fn is_blank(b: u8) -> (r: bool)
    ensures
        r == is_space(b),
{
    b == 0x20 || (0x09 <= b && b <= 0x0d)
}

/// The index of the first byte at or after `from` that is not white space,
/// or the length of the text when only white space is left.
pub fn skip_spaces(s: &[u8], from: usize) -> (end: usize)
    requires
        from <= s@.len(),
    ensures
        from <= end <= s@.len(),
        end == from + space_run(s@.skip(from as int)),
{
    let mut end: usize = from;
    while end < s.len() && is_blank(s[end])
        invariant
            from <= end <= s@.len(),
            space_run(s@.skip(from as int)) == (end - from) + space_run(s@.skip(end as int)),
        decreases s@.len() - end,
    {
        proof {
            assert(s@.skip(end as int).skip(1) =~= s@.skip(end + 1));
        }
        end += 1;
    }
    end
}

/// The index of the first white space at or after `from`, or the length of
/// the text when there is none.
pub fn skip_word(s: &[u8], from: usize) -> (end: usize)
    requires
        from <= s@.len(),
    ensures
        from <= end <= s@.len(),
        end == from + word_run(s@.skip(from as int)),
{
    let mut end: usize = from;
    while end < s.len() && !is_blank(s[end])
        invariant
            from <= end <= s@.len(),
            word_run(s@.skip(from as int)) == (end - from) + word_run(s@.skip(end as int)),
        decreases s@.len() - end,
    {
        proof {
            assert(s@.skip(end as int).skip(1) =~= s@.skip(end + 1));
        }
        end += 1;
    }
    end
}

/// The index of the first `stop` at or after `from`, or the length of the
/// text when there is none.
pub fn find_byte(s: &[u8], from: usize, stop: u8) -> (end: usize)
    requires
        from <= s@.len(),
    ensures
        from <= end <= s@.len(),
        end == from + run_until(s@.skip(from as int), stop),
{
    let mut end: usize = from;
    while end < s.len() && s[end] != stop
        invariant
            from <= end <= s@.len(),
            forall|i: int| from <= i < end ==> #[trigger] s@[i] != stop,
        decreases s@.len() - end,
    {
        end += 1;
    }
    proof {
        let tail = s@.skip(from as int);
        assert forall|i: int| 0 <= i < end - from implies #[trigger] tail[i] != stop by {
            assert(tail[i] == s@[from + i]);
        }
        lemma_run_until_is(tail, stop, end - from);
    }
    end
}

/// `needle` lies in `hay` at offset `at`.
pub open spec fn occurs_at(hay: Seq<u8>, needle: Seq<u8>, at: int) -> bool {
    &&& 0 <= at
    &&& at + needle.len() <= hay.len()
    &&& hay.subrange(at, at + needle.len()) == needle
}

/// `needle` lies somewhere in `hay`. The empty needle lies in every text.
pub open spec fn contains(hay: Seq<u8>, needle: Seq<u8>) -> bool {
    exists|at: int| occurs_at(hay, needle, at)
}

/// Whether `needle` lies in `hay` at offset `at`.
fn occurs(hay: &[u8], needle: &[u8], at: usize) -> (r: bool)
    requires
        at + needle@.len() <= hay@.len(),
    ensures
        r == occurs_at(hay@, needle@, at as int),
{
    let n: usize = needle.len();
    let m: usize = hay.len();
    let mut k: usize = 0;
    while k < n
        invariant
            n == needle@.len(),
            m == hay@.len(),
            at + n <= m,
            k <= n,
            forall|j: int| 0 <= j < k ==> hay@[at + j] == #[trigger] needle@[j],
        decreases n - k,
    {
        if hay[at + k] != needle[k] {
            assert(hay@.subrange(at as int, at + n)[k as int] != needle@[k as int]);
            return false;
        }
        k += 1;
    }
    assert(hay@.subrange(at as int, at + n) =~= needle@);
    true
}

/// Whether `needle` lies somewhere in `hay`.
pub fn contains_bytes(hay: &[u8], needle: &[u8]) -> (r: bool)
    ensures
        r == contains(hay@, needle@),
{
    let n: usize = needle.len();
    if hay.len() < n {
        return false;
    }
    let last: usize = hay.len() - n;
    let mut at: usize = 0;
    loop
        invariant
            n == needle@.len(),
            last + n == hay@.len(),
            at <= last,
            forall|j: int| 0 <= j < at ==> !occurs_at(hay@, needle@, j),
        decreases last - at,
    {
        if occurs(hay, needle, at) {
            return true;
        }
        if at == last {
            return false;
        }
        at += 1;
    }
}

} // verus!
