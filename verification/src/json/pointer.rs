//! JSON pointer pieces: splitting a key into segments, unescaping them,
//! and reading a segment as an array index.

use vstd::prelude::*;
use smallvec::SmallVec;
use crate::string_block::first_occurrence;

verus! {

/// Whether every byte is an ASCII digit.
pub open spec fn all_digits(s: Seq<u8>) -> bool {
    forall|i: int| 0 <= i < s.len() ==> 48 <= #[trigger] s[i] <= 57
}

/// The number the decimal digits `s` spell.
pub open spec fn digits_value(s: Seq<u8>) -> nat
    decreases s.len(),
{
    if s.len() == 0 {
        0
    } else {
        digits_value(s.drop_last()) * 10 + (s.last() - 48) as nat
    }
}

/// `str::parse::<usize>()` on text without a sign.
pub open spec fn parse_unsigned(s: Seq<u8>) -> Option<nat> {
    if s.len() > 0 && all_digits(s) && digits_value(s) <= usize::MAX {
        Some(digits_value(s))
    } else {
        None
    }
}

/// `str::parse::<isize>()` on text that starts with `-`: the magnitude of the
/// negative number.
pub open spec fn parse_negative_magnitude(s: Seq<u8>) -> Option<nat> {
    let d = s.drop_first();
    if d.len() > 0 && all_digits(d) && digits_value(d) <= isize::MAX + 1 {
        Some(digits_value(d))
    } else {
        None
    }
}

/// `total_len - m` with the wrap-around of unsigned machine arithmetic.
pub open spec fn wrapped_sub(total_len: usize, m: nat) -> usize {
    if total_len - m < 0 {
        (total_len - m + usize::MAX + 1) as usize
    } else {
        (total_len - m) as usize
    }
}

/// The text `-`.
pub open spec fn dash() -> Seq<u8> {
    seq![45u8]
}

/// How a pointer segment names an array element of an array of `total_len`:
/// a lone `-` is the appender, the slot one past the end (RFC 6901); a
/// negative number counts from the end (the subtraction wraps as in the
/// release build); otherwise a decimal number without a leading zero.
pub open spec fn spec_as_array_idx(s: Seq<u8>, total_len: usize) -> Option<usize> {
    let s1 = s;
    if s == dash() {
        Some(total_len)
    } else if s1.len() > 0 && s1[0] == 45 {
        match parse_negative_magnitude(s1) {
            None => None,
            Some(m) => if m == 0 {
                Some(0usize)
            } else {
                Some(wrapped_sub(total_len, m))
            },
        }
    } else if s1.len() > 1 && s1[0] == 48 {
        None
    } else if !all_digits(s1) {
        None
    } else {
        match parse_unsigned(s1) {
            None => None,
            Some(v) => Some(v as usize),
        }
    }
}

proof fn lemma_digits_step(s: Seq<u8>, i: int)
    requires
        0 <= i < s.len(),
    ensures
        digits_value(s.take(i + 1)) == digits_value(s.take(i)) * 10 + (s[i] - 48) as nat,
{
    assert(s.take(i + 1).drop_last() =~= s.take(i));
}

/// Parses decimal digits `s[from..]` into a number no greater than `limit`.
pub fn parse_digits(s: &[u8], from: usize, limit: u64) -> (r: Option<u64>)
    requires
        from <= s.len(),
        limit >= 9,
    ensures
        r matches Some(v) ==> {
            &&& s@.skip(from as int).len() > 0
            &&& all_digits(s@.skip(from as int))
            &&& digits_value(s@.skip(from as int)) == v
            &&& v <= limit
        },
        r is None ==> !(s@.skip(from as int).len() > 0 && all_digits(s@.skip(from as int))
            && digits_value(s@.skip(from as int)) <= limit),
{
    let ghost d = s@.skip(from as int);
    if from == s.len() {
        return None;
    }
    let mut v: u64 = 0;
    let mut i: usize = from;
    while i < s.len()
        invariant
            from <= i <= s.len(),
            d == s@.skip(from as int),
            all_digits(d.take(i - from)),
            digits_value(d.take(i - from)) == v,
            v <= limit,
            limit >= 9,
        decreases s.len() - i,
    {
        let c = s[i];
        proof { lemma_digits_step(d, i - from); }
        if c < 48 || c > 57 {
            proof {
                assert(d[i - from] == c);
            }
            return None;
        }
        let digit = (c - 48) as u64;
        if v > (limit - digit) / 10 {
            proof {
                assert(v * 10 + digit > limit) by (nonlinear_arith)
                    requires v > (limit - digit) / 10, digit <= limit || digit > limit;
                lemma_digits_monotone(d, i - from + 1);
                assert(d[i - from] == c);
            }
            return None;
        }
        proof {
            assert(v * 10 + digit <= limit) by (nonlinear_arith)
                requires v <= (limit - digit) / 10, digit <= limit;
            assert(d[i - from] == c);
            assert forall|j: int| 0 <= j < i + 1 - from implies 48 <= #[trigger] d.take(i + 1 - from)[j] <= 57 by {
                if j < i - from {
                    assert(d.take(i + 1 - from)[j] == d.take(i - from)[j]);
                }
            }
        }
        v = v * 10 + digit;
        i += 1;
    }
    assert(d.take(i - from) =~= d);
    Some(v)
}

/// Longer digit strings are never worth less than their prefixes.
proof fn lemma_digits_monotone(d: Seq<u8>, n: int)
    requires
        0 <= n <= d.len(),
        all_digits(d.take(n)) || true,
    ensures
        digits_value(d) >= digits_value(d.take(n)) || !all_digits(d),
    decreases d.len() - n,
{
    if n < d.len() {
        lemma_digits_monotone(d, n + 1);
        lemma_digits_step(d, n);
        assert(d.take(n + 1).take(n) =~= d.take(n));
    } else {
        assert(d.take(n) =~= d);
    }
}

/// `as_array_idx`: reads a pointer segment as an index into an array of
/// `total_len` elements.
#[verifier::loop_isolation(false)]
pub fn as_array_idx(s: &[u8], total_len: usize) -> (r: Option<usize>)
    ensures
        r == spec_as_array_idx(s@, total_len),
{
    if s.len() == 1 && s[0] == 45 {
        proof {
            assert(s@ =~= dash());
        }
        return Some(total_len);
    }
    proof {
        if s@ == dash() {
            assert(s@.len() == 1 && s@[0] == 45);
        }
    }
    if s.len() > 0 && s[0] == 45 {
        return negative_index(s, total_len);
    }
    if s.len() > 1 && s[0] == 48 {
        return None;
    }
    let mut i: usize = 0;
    while i < s.len()
        invariant
            i <= s.len(),
            forall|j: int| 0 <= j < i ==> 48 <= #[trigger] s@[j] <= 57,
        decreases s.len() - i,
    {
        if s[i] < 48 || s[i] > 57 {
            assert(!(48 <= s@[i as int] <= 57));
            return None;
        }
        i += 1;
    }
    let r = parse_digits(s, 0, usize::MAX as u64);
    assert(s@.skip(0) =~= s@);
    match r {
        None => None,
        Some(v) => Some(v as usize),
    }
}

/// The negative-number branch of `as_array_idx` (`s` starts with `-`).
fn negative_index(s: &[u8], total_len: usize) -> (r: Option<usize>)
    requires
        s@.len() > 0,
        s@[0] == 45,
    ensures
        r == (match parse_negative_magnitude(s@) {
            None => None,
            Some(m) => if m == 0 {
                Some(0usize)
            } else {
                Some(wrapped_sub(total_len, m))
            },
        }),
{
    let limit: u64 = (isize::MAX as u64) + 1;
    let r = parse_digits(s, 1, limit);
    assert(s@.skip(1) =~= s@.drop_first());
    match r {
        None => None,
        Some(m) => {
            if m == 0 {
                Some(0usize)
            } else {
                let mm = m as usize;
                assert(mm == m);
                Some(total_len.wrapping_sub(mm))
            }
        },
    }
}

} // verus!

verus! {

/// Number of leading bytes of `k` before a `/`.
pub open spec fn run_len(k: Seq<u8>) -> int
    decreases k.len(),
{
    if k.len() == 0 || k[0] == 47 {
        0
    } else {
        1 + run_len(k.drop_first())
    }
}

/// The non-empty `/`-separated pieces of `k`, in order (what
/// `key.split('/').skip(1).filter(|x| !x.is_empty())` gives for a key that
/// starts with `/`).
pub open spec fn segments(k: Seq<u8>) -> Seq<Seq<u8>>
    decreases k.len(),
{
    if k.len() == 0 {
        Seq::empty()
    } else if k[0] == 47 {
        segments(k.drop_first())
    } else {
        proof { lemma_run_len(k); }
        seq![k.take(run_len(k))] + segments(k.skip(run_len(k)))
    }
}

pub proof fn lemma_run_len(k: Seq<u8>)
    ensures
        0 <= run_len(k) <= k.len(),
        forall|i: int| 0 <= i < run_len(k) ==> k[i] != 47,
        run_len(k) < k.len() ==> k[run_len(k)] == 47,
        k.len() > 0 && k[0] != 47 ==> run_len(k) > 0,
    decreases k.len(),
{
    if k.len() > 0 && k[0] != 47 {
        lemma_run_len(k.drop_first());
        assert forall|i: int| 0 <= i < run_len(k) implies k[i] != 47 by {
            if i > 0 {
                assert(k[i] == k.drop_first()[i - 1]);
            }
        }
    }
}

proof fn lemma_run_len_unique(k: Seq<u8>, n: int)
    requires
        0 <= n <= k.len(),
        forall|i: int| 0 <= i < n ==> k[i] != 47,
        n < k.len() ==> k[n] == 47,
    ensures
        run_len(k) == n,
    decreases k.len(),
{
    if n > 0 {
        assert forall|i: int| 0 <= i < n - 1 implies k.drop_first()[i] != 47 by {
            assert(k.drop_first()[i] == k[i + 1]);
        }
        if n - 1 < k.drop_first().len() {
            assert(k.drop_first()[n - 1] == k[n]);
        }
        lemma_run_len_unique(k.drop_first(), n - 1);
    }
}

/// The views of a list of byte strings.
pub open spec fn views(v: Seq<Vec<u8>>) -> Seq<Seq<u8>> {
    Seq::new(v.len() as nat, |i: int| v[i]@)
}

/// Splits a key into its non-empty `/`-separated segments.
pub fn split_segments(k: &[u8]) -> (r: Vec<Vec<u8>>)
    ensures
        views(r@) == segments(k@),
{
    let mut out: Vec<Vec<u8>> = Vec::new();
    let mut i: usize = 0;
    assert(k@.skip(0) =~= k@);
    while i < k.len()
        invariant
            i <= k.len(),
            views(out@) + segments(k@.skip(i as int)) == segments(k@),
        decreases k.len() - i,
    {
        let ghost rest = k@.skip(i as int);
        if k[i] == 47 {
            assert(rest.drop_first() =~= k@.skip(i + 1));
            i += 1;
        } else {
            let mut j = i;
            while j < k.len() && k[j] != 47
                invariant
                    i <= j <= k.len(),
                    forall|x: int| i <= x < j ==> k@[x] != 47,
                decreases k.len() - j,
            {
                j += 1;
            }
            proof {
                assert forall|x: int| 0 <= x < j - i implies rest[x] != 47 by {
                    assert(rest[x] == k@[i + x]);
                }
                if j < k.len() {
                    assert(rest[j - i] == k@[j as int]);
                }
                lemma_run_len_unique(rest, j - i);
            }
            let mut piece: Vec<u8> = Vec::new();
            let mut x = i;
            while x < j
                invariant
                    i <= x <= j <= k.len(),
                    piece@ == k@.subrange(i as int, x as int),
                decreases j - x,
            {
                piece.push(k[x]);
                x += 1;
                assert(piece@ =~= k@.subrange(i as int, x as int));
            }
            proof {
                assert(piece@ =~= rest.take(j - i));
                assert(rest.skip(j - i) =~= k@.skip(j as int));
                let old_out = views(out@);
            }
            let ghost before = views(out@);
            out.push(piece);
            proof {
                assert(views(out@) =~= before.push(k@.subrange(i as int, j as int)));
                assert(segments(rest) == seq![rest.take(j - i)] + segments(k@.skip(j as int)));
                assert(views(out@) + segments(k@.skip(j as int)) =~= before + segments(rest));
            }
            i = j;
        }
    }
    proof {
        assert(k@.skip(i as int).len() == 0);
        assert(views(out@) + segments(k@.skip(i as int)) =~= views(out@));
    }
    out
}

/// First pass of unescaping: each `~1` becomes `/`, left to right.
pub open spec fn unescape_tilde1(s: Seq<u8>) -> Seq<u8>
    decreases s.len(),
{
    if s.len() == 0 {
        s
    } else if s.len() >= 2 && s[0] == 126 && s[1] == 49 {
        seq![47u8] + unescape_tilde1(s.skip(2))
    } else {
        seq![s[0]] + unescape_tilde1(s.drop_first())
    }
}

/// Second pass: each `~0` becomes `~`, left to right; the search resumes
/// after the `~` it keeps, so `~00` becomes `~0`.
pub open spec fn unescape_tilde0(s: Seq<u8>) -> Seq<u8>
    decreases s.len(),
{
    if s.len() == 0 {
        s
    } else if s.len() >= 2 && s[0] == 126 && s[1] == 48 {
        seq![126u8] + unescape_tilde0(s.skip(2))
    } else {
        seq![s[0]] + unescape_tilde0(s.drop_first())
    }
}

/// How a pointer segment reads once unescaped: `~1` becomes `/`, then `~0`
/// becomes `~` (RFC 6901).
pub open spec fn unescape(s: Seq<u8>) -> Seq<u8> {
    unescape_tilde0(unescape_tilde1(s))
}

/// Finds a two-byte needle with `memx::memmem`.
/// Trusted: `memmem` returns the first position at which `needle` occurs in
/// `haystack`, or `None` when it does not occur (its documentation: the same
/// as `haystack.windows(needle.len()).position(|w| w == needle)`).
#[verifier::external_body]
fn memmem(haystack: &[u8], needle: &[u8]) -> (r: Option<usize>)
    requires
        needle@.len() > 0,
    ensures
        r matches Some(p) ==> {
            &&& p + needle@.len() <= haystack@.len()
            &&& haystack@.subrange(p as int, p + needle@.len()) == needle@
            &&& forall|q: int| 0 <= q < p ==> #[trigger] haystack@.subrange(q, q + needle@.len()) != needle@
        },
        r is None ==> forall|q: int| 0 <= q && q + needle@.len() <= haystack@.len()
            ==> #[trigger] haystack@.subrange(q, q + needle@.len()) != needle@,
{
    memx::memmem(haystack, needle)
}

/// The two bytes of `x` starting at `q`.
pub open spec fn pair_at(x: Seq<u8>, q: int) -> Seq<u8> {
    x.subrange(q, q + 2)
}

proof fn lemma_tilde1_found(x: Seq<u8>, pos: int)
    requires
        0 <= pos,
        pos + 2 <= x.len(),
        pair_at(x, pos) == seq![126u8, 49u8],
        forall|q: int| 0 <= q < pos ==> #[trigger] pair_at(x, q) != seq![126u8, 49u8],
    ensures
        unescape_tilde1(x) == x.take(pos) + seq![47u8] + unescape_tilde1(x.skip(pos + 2)),
    decreases pos,
{
    if pos == 0 {
        assert(x[0] == pair_at(x, 0)[0] && x[1] == pair_at(x, 0)[1]);
        assert(x.take(0) + seq![47u8] =~= seq![47u8]);
    } else {
        let y = x.drop_first();
        assert(!(x[0] == 126 && x[1] == 49)) by {
            if x[0] == 126 && x[1] == 49 {
                assert(pair_at(x, 0) =~= seq![126u8, 49u8]);
            }
        }
        assert forall|q: int| 0 <= q < pos - 1 implies #[trigger] pair_at(y, q) != seq![126u8, 49u8] by {
            assert(pair_at(y, q) =~= pair_at(x, q + 1));
        }
        assert(pair_at(y, pos - 1) =~= pair_at(x, pos));
        lemma_tilde1_found(y, pos - 1);
        assert(y.skip(pos + 1) =~= x.skip(pos + 2));
        assert(x.take(pos) =~= seq![x[0]] + y.take(pos - 1));
    }
}

proof fn lemma_tilde1_absent(x: Seq<u8>)
    requires
        forall|q: int| 0 <= q && q + 2 <= x.len() ==> #[trigger] pair_at(x, q) != seq![126u8, 49u8],
    ensures
        unescape_tilde1(x) == x,
    decreases x.len(),
{
    if x.len() > 0 {
        let y = x.drop_first();
        if x.len() >= 2 && x[0] == 126 && x[1] == 49 {
            assert(pair_at(x, 0) =~= seq![126u8, 49u8]);
        }
        assert forall|q: int| 0 <= q && q + 2 <= y.len() implies #[trigger] pair_at(y, q) != seq![126u8, 49u8] by {
            assert(pair_at(y, q) =~= pair_at(x, q + 1));
        }
        lemma_tilde1_absent(y);
        assert(x =~= seq![x[0]] + y);
    }
}

proof fn lemma_tilde0_found(x: Seq<u8>, pos: int)
    requires
        0 <= pos,
        pos + 2 <= x.len(),
        pair_at(x, pos) == seq![126u8, 48u8],
        forall|q: int| 0 <= q < pos ==> #[trigger] pair_at(x, q) != seq![126u8, 48u8],
    ensures
        unescape_tilde0(x) == x.take(pos) + seq![126u8] + unescape_tilde0(x.skip(pos + 2)),
    decreases pos,
{
    if pos == 0 {
        assert(x[0] == pair_at(x, 0)[0] && x[1] == pair_at(x, 0)[1]);
        assert(x.take(0) + seq![126u8] =~= seq![126u8]);
    } else {
        let y = x.drop_first();
        assert(!(x[0] == 126 && x[1] == 48)) by {
            if x[0] == 126 && x[1] == 48 {
                assert(pair_at(x, 0) =~= seq![126u8, 48u8]);
            }
        }
        assert forall|q: int| 0 <= q < pos - 1 implies #[trigger] pair_at(y, q) != seq![126u8, 48u8] by {
            assert(pair_at(y, q) =~= pair_at(x, q + 1));
        }
        assert(pair_at(y, pos - 1) =~= pair_at(x, pos));
        lemma_tilde0_found(y, pos - 1);
        assert(y.skip(pos + 1) =~= x.skip(pos + 2));
        assert(x.take(pos) =~= seq![x[0]] + y.take(pos - 1));
    }
}

proof fn lemma_tilde0_absent(x: Seq<u8>)
    requires
        forall|q: int| 0 <= q && q + 2 <= x.len() ==> #[trigger] pair_at(x, q) != seq![126u8, 48u8],
    ensures
        unescape_tilde0(x) == x,
    decreases x.len(),
{
    if x.len() > 0 {
        let y = x.drop_first();
        if x.len() >= 2 && x[0] == 126 && x[1] == 48 {
            assert(pair_at(x, 0) =~= seq![126u8, 48u8]);
        }
        assert forall|q: int| 0 <= q && q + 2 <= y.len() implies #[trigger] pair_at(y, q) != seq![126u8, 48u8] by {
            assert(pair_at(y, q) =~= pair_at(x, q + 1));
        }
        lemma_tilde0_absent(y);
        assert(x =~= seq![x[0]] + y);
    }
}

/// The unescaper's scratch buffer: a `smallvec::SmallVec` that keeps up to
/// 128 bytes inline, as the lookups use it.
#[verifier::external_body]
pub struct Scratch {
    v: SmallVec<[u8; 128]>,
}

/// The bytes a scratch buffer holds.
pub uninterp spec fn scratch_bytes(v: Scratch) -> Seq<u8>;

/// An empty scratch buffer (`SmallVec::new`).
/// Trusted: `new` makes an empty vector.
#[verifier::external_body]
fn scratch_new() -> (r: Scratch)
    ensures
        scratch_bytes(r) == Seq::<u8>::empty(),
{
    Scratch { v: SmallVec::new() }
}

/// `SmallVec::clear`. Trusted: afterwards the vector holds nothing.
#[verifier::external_body]
fn scratch_clear(b: &mut Scratch)
    ensures
        scratch_bytes(*final(b)) == Seq::<u8>::empty(),
{
    b.v.clear()
}

/// `SmallVec::push`. Trusted: appends `x` (it panics only when the length
/// would pass `usize::MAX`, which `requires` rules out).
#[verifier::external_body]
fn scratch_push(b: &mut Scratch, x: u8)
    requires
        scratch_bytes(*old(b)).len() < usize::MAX,
    ensures
        scratch_bytes(*final(b)) == scratch_bytes(*old(b)).push(x),
{
    b.v.push(x)
}

/// `SmallVec::extend_from_slice`. Trusted: appends the slice's bytes in
/// order (it panics only when the length would pass `usize::MAX`).
#[verifier::external_body]
fn scratch_extend(b: &mut Scratch, s: &[u8])
    requires
        scratch_bytes(*old(b)).len() + s@.len() <= usize::MAX,
    ensures
        scratch_bytes(*final(b)) == scratch_bytes(*old(b)) + s@,
{
    b.v.extend_from_slice(s)
}

/// `SmallVec::remove`. Trusted: removes the byte at `i`, shifting the rest
/// down, and returns it (it panics when `i` is not below the length, which
/// `requires` rules out).
#[verifier::external_body]
fn scratch_remove(b: &mut Scratch, i: usize) -> (r: u8)
    requires
        i < scratch_bytes(*old(b)).len(),
    ensures
        scratch_bytes(*final(b)) == scratch_bytes(*old(b)).remove(i as int),
        r == scratch_bytes(*old(b))[i as int],
{
    b.v.remove(i)
}

/// `SmallVec::as_slice`. Trusted: the slice holds the vector's bytes.
#[verifier::external_body]
fn scratch_slice(b: &Scratch) -> (r: &[u8])
    ensures
        r@ == scratch_bytes(*b),
{
    b.v.as_slice()
}

/// Unescapes a pointer segment into `buf`: `~1` becomes `/`, then `~0` becomes `~`.
fn unescape_pointer3(pointer: &[u8], buf: &mut Scratch)
    ensures
        scratch_bytes(*final(buf)) == unescape(pointer@),
{
    let tilde1: [u8; 2] = [126u8, 49u8];
    let tilde0: [u8; 2] = [126u8, 48u8];
    assert(tilde1@ =~= seq![126u8, 49u8]);
    assert(tilde0@ =~= seq![126u8, 48u8]);
    scratch_clear(buf);
    let mut t: usize = 0;
    assert(pointer@.skip(0) =~= pointer@);
    loop
        invariant_except_break
            t <= pointer.len(),
            scratch_bytes(*buf) + unescape_tilde1(pointer@.skip(t as int)) == unescape_tilde1(pointer@),
            scratch_bytes(*buf).len() <= t,
            tilde1@ == seq![126u8, 49u8],
        ensures
            scratch_bytes(*buf) == unescape_tilde1(pointer@),
            scratch_bytes(*buf).len() <= pointer.len(),
        decreases pointer.len() - t,
    {
        let ghost x = pointer@.skip(t as int);
        let rest = &pointer[t..pointer.len()];
        assert(rest@ =~= x);
        match memmem(rest, tilde1.as_slice()) {
            Some(pos) => {
                proof {
                    assert forall|q: int| 0 <= q < pos implies #[trigger] pair_at(x, q) != seq![126u8, 49u8] by {
                        assert(pair_at(x, q) == rest@.subrange(q, q + tilde1@.len()));
                    }
                    lemma_tilde1_found(x, pos as int);
                }
                let ghost before = scratch_bytes(*buf);
                let head = &rest[0..pos];
                assert(head@ =~= rest@.take(pos as int));
                scratch_extend(buf, head);
                scratch_push(buf, 47u8);
                proof {
                    assert(x.skip(pos + 2) =~= pointer@.skip(t + pos + 2));
                    assert(scratch_bytes(*buf) + unescape_tilde1(x.skip(pos + 2)) =~= before + unescape_tilde1(x));
                }
                t = t + pos + 2;
                if t == pointer.len() {
                    proof {
                        assert(pointer@.skip(t as int).len() == 0);
                        assert(scratch_bytes(*buf) + unescape_tilde1(pointer@.skip(t as int)) =~= scratch_bytes(*buf));
                    }
                    break;
                }
            },
            None => {
                proof {
                    assert forall|q: int| 0 <= q && q + 2 <= x.len() implies #[trigger] pair_at(x, q) != seq![126u8, 49u8] by {
                        assert(pair_at(x, q) == rest@.subrange(q, q + tilde1@.len()));
                    }
                    lemma_tilde1_absent(x);
                }
                scratch_extend(buf, rest);
                break;
            },
        }
    }
    let ghost b1 = scratch_bytes(*buf);
    let mut cursor: usize = 0;
    assert(b1.skip(0) =~= b1);
    assert(b1.take(0) + unescape_tilde0(b1.skip(0)) =~= unescape_tilde0(b1));
    loop
        invariant_except_break
            cursor <= scratch_bytes(*buf).len(),
            scratch_bytes(*buf).take(cursor as int) + unescape_tilde0(scratch_bytes(*buf).skip(cursor as int)) == unescape_tilde0(b1),
            tilde0@ == seq![126u8, 48u8],
        ensures
            scratch_bytes(*buf) == unescape_tilde0(b1),
        decreases scratch_bytes(*buf).len() - cursor,
    {
        let ghost x = scratch_bytes(*buf).skip(cursor as int);
        let found = {
            let all = scratch_slice(buf);
            let rest = &all[cursor..all.len()];
            assert(rest@ =~= x);
            memmem(rest, tilde0.as_slice())
        };
        match found {
            Some(pos) => {
                proof {
                    assert forall|q: int| 0 <= q < pos implies #[trigger] pair_at(x, q) != seq![126u8, 48u8] by {
                        assert(pair_at(x, q) == x.subrange(q, q + tilde0@.len()));
                    }
                    lemma_tilde0_found(x, pos as int);
                }
                let ghost before = scratch_bytes(*buf);
                let _ = scratch_remove(buf, cursor + pos + 1);
                proof {
                    let c2 = cursor + pos + 1;
                    assert(scratch_bytes(*buf).take(c2) =~= before.take(cursor as int) + x.take(pos as int) + seq![126u8]);
                    assert(scratch_bytes(*buf).skip(c2) =~= x.skip(pos + 2));
                }
                cursor = cursor + pos + 1;
            },
            None => {
                proof {
                    assert forall|q: int| 0 <= q && q + 2 <= x.len() implies #[trigger] pair_at(x, q) != seq![126u8, 48u8] by {
                        assert(pair_at(x, q) == x.subrange(q, q + tilde0@.len()));
                    }
                    lemma_tilde0_absent(x);
                    assert(scratch_bytes(*buf).take(cursor as int) + x =~= scratch_bytes(*buf));
                }
                break;
            },
        }
    }
}

/// Unescapes a pointer segment into a byte vector of its own, through a
/// scratch buffer as the lookups do.
pub fn unescape_segment(pointer: &[u8]) -> (r: Vec<u8>)
    ensures
        r@ == unescape(pointer@),
{
    let mut scratch = scratch_new();
    unescape_pointer3(pointer, &mut scratch);
    crate::json::value::bytes_copy(scratch_slice(&scratch))
}

} // verus!
