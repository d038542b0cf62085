//! A packed list of strings: all strings live in one byte buffer, each
//! followed by a NUL, with the buffer starting with a NUL so that a
//! delimited search for `"\0<string>\0"` finds whole strings.

use vstd::prelude::*;
use vstd::utf8::*;
use vstd::string::*;
use crate::cstr::{copy_prefix, cstr_len, lemma_cstr_len, lemma_cstr_len_unique, lemma_cstr_valid_utf8, spec_cstr, spec_cstr_len};

verus! {

/// The packed buffer that holds `ss`: a NUL, then each string followed by a NUL.
pub open spec fn packed(ss: Seq<Seq<u8>>) -> Seq<u8>
    decreases ss.len(),
{
    if ss.len() == 0 {
        seq![0u8]
    } else {
        packed(ss.drop_last()) + ss.last() + seq![0u8]
    }
}

/// Byte offset in the packed buffer at which string `i` starts.
pub open spec fn packed_offset(ss: Seq<Seq<u8>>, i: int) -> int {
    packed(ss.take(i)).len() as int
}

/// The text a string reads as through its C pointer: the part before its first NUL.
pub open spec fn visible(s: Seq<u8>) -> Seq<u8> {
    spec_cstr(s)
}

/// The first index at which `needle` occurs in `hay`.
pub open spec fn first_occurrence(hay: Seq<u8>, needle: Seq<u8>) -> Option<int> {
    if exists|p: int| 0 <= p && p + needle.len() <= hay.len() && #[trigger] hay.subrange(p, p + needle.len()) == needle {
        Some(choose|p: int| 0 <= p && p + needle.len() <= hay.len()
            && #[trigger] hay.subrange(p, p + needle.len()) == needle
            && forall|q: int| 0 <= q < p ==> #[trigger] hay.subrange(q, q + needle.len()) != needle)
    } else {
        None
    }
}

/// The first index whose string reads as `target`.
pub open spec fn first_visible_match(ss: Seq<Seq<u8>>, target: Seq<u8>) -> Option<int> {
    if exists|i: int| 0 <= i < ss.len() && visible(#[trigger] ss[i]) == target {
        Some(choose|i: int| 0 <= i < ss.len() && visible(#[trigger] ss[i]) == target
            && forall|j: int| 0 <= j < i ==> visible(#[trigger] ss[j]) != target)
    } else {
        None
    }
}

/// What `find_delimited_str` finds: the string that starts one byte after the
/// first occurrence of `target` in the packed buffer.
pub open spec fn delimited_match(ss: Seq<Seq<u8>>, target: Seq<u8>) -> Option<int> {
    match first_occurrence(packed(ss), target) {
        None => None,
        Some(p) => if exists|i: int| 0 <= i < ss.len() && packed_offset(ss, i) == p + 1 {
            Some(choose|i: int| 0 <= i < ss.len() && packed_offset(ss, i) == p + 1)
        } else {
            None
        },
    }
}

pub proof fn lemma_packed_len(ss: Seq<Seq<u8>>)
    ensures
        packed(ss).len() >= 1,
        packed(ss)[0] == 0,
        packed(ss).last() == 0,
    decreases ss.len(),
{
    if ss.len() > 0 {
        lemma_packed_len(ss.drop_last());
    }
}

/// The packed buffer of a prefix of the list is a prefix of the packed buffer.
pub proof fn lemma_packed_prefix(ss: Seq<Seq<u8>>, i: int, j: int)
    requires
        0 <= i <= j <= ss.len(),
    ensures
        packed(ss.take(i)).len() <= packed(ss.take(j)).len(),
        packed(ss.take(j)).take(packed(ss.take(i)).len() as int) == packed(ss.take(i)),
    decreases j - i,
{
    if i < j {
        lemma_packed_prefix(ss, i, j - 1);
        assert(ss.take(j).drop_last() =~= ss.take(j - 1));
        let a = packed(ss.take(i));
        let b = packed(ss.take(j - 1));
        let c = packed(ss.take(j));
        assert(c == b + ss[j - 1] + seq![0u8]);
        assert(c.take(a.len() as int) =~= b.take(a.len() as int));
    } else {
        assert(packed(ss.take(j)).take(packed(ss.take(i)).len() as int) =~= packed(ss.take(i)));
    }
}

/// String `i` sits at its offset in the packed buffer, followed by a NUL.
pub proof fn lemma_packed_piece(ss: Seq<Seq<u8>>, i: int)
    requires
        0 <= i < ss.len(),
    ensures
        packed_offset(ss, i) + ss[i].len() < packed(ss).len(),
        packed(ss).subrange(packed_offset(ss, i), packed_offset(ss, i) + ss[i].len()) == ss[i],
        packed(ss)[packed_offset(ss, i) + ss[i].len()] == 0,
        packed_offset(ss, i + 1) == packed_offset(ss, i) + ss[i].len() + 1,
        packed_offset(ss, i) >= 1,
{
    lemma_packed_prefix(ss, i + 1, ss.len() as int);
    assert(ss.take(ss.len() as int) =~= ss);
    assert(ss.take(i + 1).drop_last() =~= ss.take(i));
    let a = packed(ss.take(i));
    let b = packed(ss.take(i + 1));
    let full = packed(ss);
    assert(b == a + ss[i] + seq![0u8]);
    lemma_packed_len(ss.take(i));
    let o = a.len() as int;
    assert(full.take(b.len() as int) == b);
    assert forall|k: int| 0 <= k < ss[i].len() implies full.subrange(o, o + ss[i].len())[k] == ss[i][k] by {
        assert(full[o + k] == full.take(b.len() as int)[o + k]);
        assert(b[o + k] == ss[i][k]);
    }
    assert(full.subrange(o, o + ss[i].len()) =~= ss[i]);
    assert(full[o + ss[i].len()] == full.take(b.len() as int)[o + ss[i].len()]);
}

/// Reading a C string inside a piece stops at the piece's own NUL at the latest.
pub proof fn lemma_cstr_of_piece(a: Seq<u8>, rest: Seq<u8>)
    ensures
        spec_cstr(a + seq![0u8] + rest) == spec_cstr(a),
{
    let s = a + seq![0u8] + rest;
    lemma_cstr_len(a);
    let k = spec_cstr_len(a);
    assert forall|i: int| 0 <= i < k implies s[i] != 0 by {
        assert(s[i] == a[i]);
    }
    if k < a.len() {
        assert(s[k] == a[k]);
    } else {
        assert(s[k] == 0);
    }
    lemma_cstr_len_unique(s, k);
    assert(s.take(k) =~= a.take(k));
}

/// Decodes UTF-8 bytes into a `String` with `std::str::from_utf8`.
/// Trusted: `std::str::from_utf8` succeeds exactly on valid UTF-8, and the
/// string it gives has the characters those bytes encode.
#[verifier::external_body]
pub(crate) fn utf8_to_string(bytes: &[u8]) -> (r: Option<String>)
    ensures
        r is Some <==> valid_utf8(bytes@),
        r matches Some(s) ==> s@ == decode_utf8(bytes@),
{
    std::str::from_utf8(bytes).ok().map(|s| s.to_owned())
}

pub struct StringBlock {
    data: Vec<u8>,
    starting_indexes: Vec<u32>,
    strings: Ghost<Seq<Seq<u8>>>,
}

impl View for StringBlock {
    type V = Seq<Seq<u8>>;

    /// The strings that were pushed, in order, as UTF-8 bytes.
    closed spec fn view(&self) -> Seq<Seq<u8>> {
        self.strings@
    }
}

impl StringBlock {
    /// The packed buffer holds exactly the strings, at the recorded offsets.
    pub closed spec fn wf(self) -> bool {
        &&& self.data@ == packed(self.strings@)
        &&& self.starting_indexes@.len() == self.strings@.len()
        &&& forall|i: int| 0 <= i < self.strings@.len()
            ==> #[trigger] self.starting_indexes@[i] == packed_offset(self.strings@, i)
        &&& forall|i: int| 0 <= i < self.strings@.len() ==> valid_utf8(#[trigger] self.strings@[i])
    }

    /// Number of bytes the packed buffer occupies.
    pub closed spec fn byte_len(self) -> nat {
        packed(self.strings@).len()
    }

    /// Byte offset at which string `i` starts in the packed buffer.
    pub closed spec fn offset_of(self, i: int) -> int {
        packed_offset(self.strings@, i)
    }

    /// The packed buffer's bytes, which the string pointers point into.
    pub closed spec fn bytes(self) -> Seq<u8> {
        self.data@
    }

    /// A pointer reads its string: at `offset_of(i)` the packed buffer holds
    /// string `i` followed by a NUL, so the C string read there is the
    /// string `get_str` gives.
    pub proof fn law_offset_holds_string(self, i: int)
        requires
            self.wf(),
            0 <= i < self@.len(),
        ensures
            1 <= self.offset_of(i),
            self.offset_of(i) + self@[i].len() < self.bytes().len(),
            self.bytes().subrange(self.offset_of(i), self.offset_of(i) + self@[i].len()) == self@[i],
            self.bytes()[self.offset_of(i) + self@[i].len()] == 0,
            spec_cstr(self.bytes().skip(self.offset_of(i))) == visible(self@[i]),
    {
        let ss = self.strings@;
        lemma_packed_piece(ss, i);
        let o = packed_offset(ss, i);
        let full = packed(ss);
        let rest = full.skip(o + ss[i].len() + 1);
        assert(full.skip(o) =~= ss[i] + seq![0u8] + rest);
        lemma_cstr_of_piece(ss[i], rest);
    }

    pub fn new() -> (r: StringBlock)
        ensures
            r.wf(),
            r@ == Seq::<Seq<u8>>::empty(),
            r.byte_len() == 1,
    {
        let mut data: Vec<u8> = Vec::new();
        data.push(0u8);
        let r = StringBlock {
            data,
            starting_indexes: Vec::new(),
            strings: Ghost(Seq::empty()),
        };
        assert(r.data@ =~= packed(Seq::<Seq<u8>>::empty()));
        r
    }

    /// Returns the number of (accessible) strings in the StringBlock.
    pub fn len(&self) -> (r: usize)
        requires
            self.wf(),
        ensures
            r == self@.len(),
    {
        self.starting_indexes.len()
    }

    /// Clears the internal backing structures but does not free memory.
    pub fn clear(&mut self)
        requires
            old(self).wf(),
        ensures
            final(self).wf(),
            final(self)@ == Seq::<Seq<u8>>::empty(),
            final(self).byte_len() == 1,
    {
        proof { lemma_packed_len(self.strings@); }
        self.data.truncate(1);
        self.starting_indexes.clear();
        self.strings = Ghost(Seq::empty());
        assert(self.data@ =~= packed(Seq::<Seq<u8>>::empty()));
    }

    #[verifier::loop_isolation(false)]
    fn push_str(&mut self, s: &str) -> (r: usize)
        requires
            old(self).wf(),
            old(self).byte_len() <= u32::MAX,
        ensures
            final(self).wf(),
            final(self)@ == old(self)@.push(s.spec_bytes()),
            final(self).byte_len() == old(self).byte_len() + s.spec_bytes().len() + 1,
            r == old(self)@.len(),
    {
        let bytes = s.as_bytes();
        let start = self.data.len();
        let ghost old_data = self.data@;
        let ghost old_strings = self.strings@;
        let ghost old_idx = self.starting_indexes@;
        let mut i: usize = 0;
        while i < bytes.len()
            invariant
                i <= bytes.len(),
                self.data@ == old_data + bytes@.take(i as int),
                self.starting_indexes@ == old_idx,
                self.strings@ == old_strings,
            decreases bytes.len() - i,
        {
            self.data.push(bytes[i]);
            i += 1;
            assert(self.data@ =~= old_data + bytes@.take(i as int));
        }
        self.data.push(0u8);
        self.starting_indexes.push(start as u32);
        self.strings = Ghost(old_strings.push(bytes@));
        proof {
            let ns = old_strings.push(bytes@);
            assert(ns.drop_last() =~= old_strings);
            assert(self.starting_indexes@ == old_idx.push(start as u32));
            assert(start == packed(old_strings).len());
            assert(self.starting_indexes@.len() == ns.len());
            assert(bytes@.take(bytes@.len() as int) =~= bytes@);
            assert(self.data@ =~= packed(ns));
            assert forall|k: int| 0 <= k < ns.len() implies #[trigger] self.starting_indexes@[k] == packed_offset(ns, k) by {
                if k < old_strings.len() {
                    assert(ns.take(k) =~= old_strings.take(k));
                    assert(self.starting_indexes@[k] == old_idx[k]);
                } else {
                    assert(ns.take(k) =~= old_strings);
                    assert(self.starting_indexes@[k] == start as u32);
                }
            }
            encode_utf8_valid_utf8(s@);
            assert forall|k: int| 0 <= k < ns.len() implies valid_utf8(#[trigger] ns[k]) by {
                if k < old_strings.len() {
                    assert(ns[k] == old_strings[k]);
                }
            }
        }
        self.starting_indexes.len() - 1
    }

    /// Append a string to the string block and return its index.
    pub fn push(&mut self, s: &str) -> (r: usize)
        requires
            old(self).wf(),
            old(self).byte_len() <= u32::MAX,
        ensures
            final(self).wf(),
            final(self)@ == old(self)@.push(s.spec_bytes()),
            final(self).byte_len() == old(self).byte_len() + s.spec_bytes().len() + 1,
            r == old(self)@.len(),
    {
        self.push_str(s)
    }

    /// Byte offset of string `idx` in the packed buffer (where its C pointer points).
    pub fn get_str_ptr(&self, idx: usize) -> (r: Option<usize>)
        requires
            self.wf(),
        ensures
            idx < self@.len() ==> r == Some(self.offset_of(idx as int) as usize),
            idx >= self@.len() ==> r is None,
    {
        if idx < self.starting_indexes.len() {
            Some(self.starting_indexes[idx] as usize)
        } else {
            None
        }
    }

    /// The bytes read through the C pointer of string `idx` (up to its first NUL).
    #[verifier::loop_isolation(false)]
    fn visible_bytes(&self, idx: usize) -> (r: Vec<u8>)
        requires
            self.wf(),
            idx < self@.len(),
        ensures
            r@ == visible(self@[idx as int]),
    {
        let start = self.starting_indexes[idx] as usize;
        let ghost ss = self.strings@;
        proof {
            lemma_packed_piece(ss, idx as int);
            let o = start as int;
            let piece = ss[idx as int];
            let full = packed(ss);
            assert(full.skip(o) =~= piece + seq![0u8] + full.skip(o + piece.len() + 1));
            lemma_cstr_of_piece(piece, full.skip(o + piece.len() + 1));
            lemma_cstr_len(full.skip(o));
        }
        let mut end = start;
        while end < self.data.len() && self.data[end] != 0
            invariant
                start <= end <= self.data.len(),
                self.data@ == packed(ss),
                forall|j: int| start <= j < end ==> self.data@[j] != 0,
            decreases self.data.len() - end,
        {
            end += 1;
        }
        proof {
            let sk = self.data@.skip(start as int);
            assert forall|j: int| 0 <= j < end - start implies sk[j] != 0 by {
                assert(sk[j] == self.data@[start + j]);
            }
            if end < self.data.len() {
                assert(sk[end - start] == self.data@[end as int]);
            }
            lemma_cstr_len_unique(sk, end - start);
        }
        let mut out: Vec<u8> = Vec::new();
        let mut k = start;
        while k < end
            invariant
                start <= k <= end <= self.data.len(),
                out@ == self.data@.subrange(start as int, k as int),
            decreases end - k,
        {
            out.push(self.data[k]);
            k += 1;
            assert(out@ =~= self.data@.subrange(start as int, k as int));
        }
        assert(out@ =~= spec_cstr(self.data@.skip(start as int)));
        out
    }

    /// The text of string `idx` as read through its C pointer.
    pub fn get_str(&self, idx: usize) -> (r: Option<String>)
        requires
            self.wf(),
        ensures
            idx < self@.len() ==> (r matches Some(s) && s@ == decode_utf8(visible(self@[idx as int]))),
            idx >= self@.len() ==> r is None,
    {
        if idx >= self.starting_indexes.len() {
            return None;
        }
        let b = self.visible_bytes(idx);
        proof { lemma_cstr_valid_utf8(self.strings@[idx as int]); }
        utf8_to_string(b.as_slice())
    }

    /// Finds the string that starts right after the first occurrence of
    /// `target` in the packed buffer; `target` should be a string like "\x00<string>\x00".
    #[verifier::loop_isolation(false)]
    pub fn find_delimited_str(&self, target: &str) -> (r: Option<usize>)
        requires
            self.wf(),
        ensures
            r matches Some(i) ==> delimited_match(self@, target.spec_bytes()) == Some(i as int),
            r is None ==> delimited_match(self@, target.spec_bytes()) is None,
    {
        let t = target.as_bytes();
        let found = find_bytes(self.data.as_slice(), t);
        let p = match found {
            None => { return None; },
            Some(p) => p,
        };
        if p >= u32::MAX as usize {
            proof {
                assert forall|i: int| 0 <= i < self@.len() implies packed_offset(self@, i) != p + 1 by {
                    lemma_packed_piece(self@, i);
                    assert(self.starting_indexes@[i] == packed_offset(self@, i));
                }
            }
            return None;
        }
        let byte_idx: u32 = (p + 1) as u32;
        let mut i: usize = 0;
        while i < self.starting_indexes.len()
            invariant
                i <= self.starting_indexes.len(),
                forall|j: int| 0 <= j < i ==> self.starting_indexes@[j] != byte_idx,
            decreases self.starting_indexes.len() - i,
        {
            if self.starting_indexes[i] == byte_idx {
                proof {
                    let ss = self.strings@;
                    assert(packed_offset(ss, i as int) == p + 1);
                    let c = choose|k: int| 0 <= k < ss.len() && packed_offset(ss, k) == p + 1;
                    if c != i as int {
                        lemma_offsets_distinct(ss, c, i as int);
                    }
                }
                return Some(i);
            }
            i += 1;
        }
        proof {
            assert forall|k: int| 0 <= k < self@.len() implies packed_offset(self@, k) != p + 1 by {
                assert(self.starting_indexes@[k] == packed_offset(self@, k));
            }
        }
        None
    }

    /// The index of the first string that reads as `target`.
    pub fn find_str(&self, target: &str) -> (r: Option<usize>)
        requires
            self.wf(),
        ensures
            r matches Some(i) ==> first_visible_match(self@, target.spec_bytes()) == Some(i as int),
            r is None ==> first_visible_match(self@, target.spec_bytes()) is None,
    {
        self.find_visible(target.as_bytes())
    }

    /// The index of the first string equal, as a C string, to the C string
    /// stored at the start of `target` (`target` holds a NUL).
    pub fn find_c_str(&self, target: &[u8]) -> (r: Option<usize>)
        requires
            self.wf(),
            spec_cstr_len(target@) < target@.len(),
        ensures
            r matches Some(i) ==> first_visible_match(self@, spec_cstr(target@)) == Some(i as int),
            r is None ==> first_visible_match(self@, spec_cstr(target@)) is None,
    {
        let n = cstr_len(target);
        let t = copy_prefix(target, n);
        self.find_visible(t.as_slice())
    }

    #[verifier::loop_isolation(false)]
    fn find_visible(&self, t: &[u8]) -> (r: Option<usize>)
        requires
            self.wf(),
        ensures
            r matches Some(i) ==> first_visible_match(self@, t@) == Some(i as int),
            r is None ==> first_visible_match(self@, t@) is None,
    {
        let n = self.starting_indexes.len();
        let mut i: usize = 0;
        while i < n
            invariant
                i <= n == self@.len(),
                forall|j: int| 0 <= j < i ==> visible(#[trigger] self@[j]) != t@,
            decreases n - i,
        {
            let b = self.visible_bytes(i);
            if crate::json::value::bytes_equal(b.as_slice(), t) {
                proof {
                    let ss = self@;
                    let c = choose|k: int| 0 <= k < ss.len() && visible(#[trigger] ss[k]) == t@
                        && forall|j: int| 0 <= j < k ==> visible(#[trigger] ss[j]) != t@;
                    assert(visible(ss[i as int]) == t@);
                    if c < i as int {
                    } else if c > i as int {
                        assert(visible(ss[i as int]) != t@);
                    }
                }
                return Some(i);
            }
            i += 1;
        }
        None
    }

    /// Walks the strings in order, each read through its C pointer.
    pub fn iter_str(&self) -> (r: StringBlockStrIter<'_>)
        ensures
            r.sb == self,
            r.pos == 0,
    {
        StringBlockStrIter { sb: self, pos: 0 }
    }

    /// Walks the byte offsets of the strings in order.
    pub fn iter_ptr(&self) -> (r: StringBlockPtrIter<'_>)
        ensures
            r.sb == self,
            r.pos == 0,
    {
        StringBlockPtrIter { sb: self, pos: 0 }
    }
}

/// Distinct strings start at distinct offsets.
pub proof fn lemma_offsets_distinct(ss: Seq<Seq<u8>>, a: int, b: int)
    requires
        0 <= a < ss.len(),
        0 <= b < ss.len(),
        a != b,
    ensures
        packed_offset(ss, a) != packed_offset(ss, b),
{
    if a < b {
        lemma_offsets_increasing(ss, a, b);
    } else {
        lemma_offsets_increasing(ss, b, a);
    }
}

pub proof fn lemma_offsets_increasing(ss: Seq<Seq<u8>>, a: int, b: int)
    requires
        0 <= a < b <= ss.len(),
    ensures
        packed_offset(ss, a) < packed_offset(ss, b),
    decreases b - a,
{
    lemma_packed_piece(ss, a);
    if a + 1 < b {
        lemma_offsets_increasing(ss, a + 1, b);
    }
}

/// Whether `needle` occurs in `hay` at byte `p`.
pub fn bytes_match_at(hay: &[u8], p: usize, needle: &[u8]) -> (r: bool)
    requires
        p + needle.len() <= hay.len(),
    ensures
        r == (hay@.subrange(p as int, p + needle@.len()) == needle@),
{
    let mut k: usize = 0;
    while k < needle.len()
        invariant
            p + needle.len() <= hay.len(),
            k <= needle.len(),
            forall|j: int| 0 <= j < k ==> hay@[p + j] == needle@[j],
        decreases needle.len() - k,
    {
        if hay[p + k] != needle[k] {
            assert(hay@.subrange(p as int, p + needle@.len())[k as int] != needle@[k as int]);
            return false;
        }
        k += 1;
    }
    assert(hay@.subrange(p as int, p + needle@.len()) =~= needle@);
    true
}

/// Finds the first occurrence of `needle` in `hay`.
pub fn find_bytes(hay: &[u8], needle: &[u8]) -> (r: Option<usize>)
    ensures
        r matches Some(p) ==> first_occurrence(hay@, needle@) == Some(p as int),
        r is None ==> first_occurrence(hay@, needle@) is None,
{
    if needle.len() > hay.len() {
        return None;
    }
    let last = hay.len() - needle.len();
    let mut p: usize = 0;
    while p <= last
        invariant
            last == hay.len() - needle.len(),
            p <= last + 1,
            forall|q: int| 0 <= q < p ==> #[trigger] hay@.subrange(q, q + needle@.len()) != needle@,
        decreases last + 1 - p,
    {
        if bytes_match_at(hay, p, needle) {
            proof {
                let c = choose|x: int| 0 <= x && x + needle.len() <= hay.len()
                    && #[trigger] hay@.subrange(x, x + needle@.len()) == needle@
                    && forall|q: int| 0 <= q < x ==> #[trigger] hay@.subrange(q, q + needle@.len()) != needle@;
                if c > p {
                    assert(hay@.subrange(p as int, p + needle@.len()) == needle@);
                }
            }
            return Some(p);
        }
        if p == last {
            return None;
        }
        p += 1;
    }
    None
}

/// Walks a `StringBlock`'s strings in order.
pub struct StringBlockStrIter<'a> {
    pub sb: &'a StringBlock,
    pub pos: usize,
}

/// Walks a `StringBlock`'s string offsets in order.
pub struct StringBlockPtrIter<'a> {
    pub sb: &'a StringBlock,
    pub pos: usize,
}

impl<'a> StringBlockStrIter<'a> {
    /// The next string, or `None` once all were given.
    pub fn next(&mut self) -> (r: Option<String>)
        requires
            old(self).sb.wf(),
        ensures
            old(self).pos < old(self).sb@.len() ==> {
                &&& (r matches Some(s) && s@ == decode_utf8(visible(old(self).sb@[old(self).pos as int])))
                &&& final(self).pos == old(self).pos + 1
                &&& final(self).sb == old(self).sb
            },
            old(self).pos >= old(self).sb@.len() ==> r is None && *final(self) == *old(self),
    {
        if self.pos < self.sb.len() {
            let r = self.sb.get_str(self.pos);
            self.pos = self.pos + 1;
            r
        } else {
            None
        }
    }
}

impl<'a> StringBlockPtrIter<'a> {
    /// The byte offset of the next string, or `None` once all were given.
    pub fn next(&mut self) -> (r: Option<usize>)
        requires
            old(self).sb.wf(),
        ensures
            old(self).pos < old(self).sb@.len() ==> {
                &&& r == Some(old(self).sb.offset_of(old(self).pos as int) as usize)
                &&& final(self).pos == old(self).pos + 1
                &&& final(self).sb == old(self).sb
            },
            old(self).pos >= old(self).sb@.len() ==> r is None && *final(self) == *old(self),
    {
        if self.pos < self.sb.len() {
            let r = self.sb.get_str_ptr(self.pos);
            self.pos = self.pos + 1;
            r
        } else {
            None
        }
    }
}

/// A string without NUL bytes reads through its C pointer as itself.
pub proof fn lemma_visible_no_nul(s: Seq<u8>)
    requires
        forall|i: int| 0 <= i < s.len() ==> s[i] != 0,
    ensures
        visible(s) == s,
{
    lemma_cstr_len_unique(s, s.len() as int);
    assert(s.take(s.len() as int) =~= s);
}

/// When some string reads as `target`, a first one does.
pub proof fn lemma_first_match_exists(ss: Seq<Seq<u8>>, target: Seq<u8>, k: int)
    requires
        0 <= k < ss.len(),
        visible(ss[k]) == target,
    ensures
        first_visible_match(ss, target) matches Some(i) && 0 <= i <= k && visible(ss[i]) == target,
    decreases k,
{
    if exists|j: int| 0 <= j < k && visible(#[trigger] ss[j]) == target {
        let j = choose|j: int| 0 <= j < k && visible(#[trigger] ss[j]) == target;
        lemma_first_match_exists(ss, target, j);
    } else {
        assert(forall|j: int| 0 <= j < k ==> visible(#[trigger] ss[j]) != target);
        let i = first_visible_match(ss, target)->0;
        if i > k {
            assert(visible(ss[k]) != target);
        }
    }
}

/// Reading back a push: the string `push` added (one without NUL bytes)
/// reads as itself at the index `push` returned, and the strings before it
/// are unchanged.
pub proof fn law_push_then_read(ss: Seq<Seq<u8>>, s: Seq<u8>)
    requires
        forall|i: int| 0 <= i < s.len() ==> s[i] != 0,
    ensures
        visible(ss.push(s)[ss.len() as int]) == s,
        forall|i: int| 0 <= i < ss.len() ==> ss.push(s)[i] == ss[i],
{
    lemma_visible_no_nul(s);
}

/// Finding a push: after `push` added a string without NUL bytes,
/// `find_str` with that string finds an index, at or before the new one,
/// whose string reads as it.
pub proof fn law_push_then_find(ss: Seq<Seq<u8>>, s: Seq<u8>)
    requires
        forall|i: int| 0 <= i < s.len() ==> s[i] != 0,
    ensures
        first_visible_match(ss.push(s), s) matches Some(i) && 0 <= i <= ss.len() && visible(ss.push(s)[i]) == s,
{
    lemma_visible_no_nul(s);
    lemma_first_match_exists(ss.push(s), s, ss.len() as int);
}

/// A call that changes a string list: `push` of a string's bytes, or `clear`.
pub enum ListOp {
    Push(Seq<u8>),
    Clear,
}

/// The list after a run of calls on a list holding `ss`, as the calls'
/// contracts give it (`push` appends, `clear` empties).
pub open spec fn apply_ops(ss: Seq<Seq<u8>>, ops: Seq<ListOp>) -> Seq<Seq<u8>>
    decreases ops.len(),
{
    if ops.len() == 0 {
        ss
    } else {
        match ops.last() {
            ListOp::Push(x) => apply_ops(ss, ops.drop_last()).push(x),
            ListOp::Clear => Seq::empty(),
        }
    }
}

/// The strings pushed since the last `clear` (or since the start), in order.
pub open spec fn pushed_since_clear(ops: Seq<ListOp>) -> Seq<Seq<u8>>
    decreases ops.len(),
{
    if ops.len() == 0 {
        Seq::empty()
    } else {
        match ops.last() {
            ListOp::Push(x) => pushed_since_clear(ops.drop_last()).push(x),
            ListOp::Clear => Seq::empty(),
        }
    }
}

/// Counting pushes: from a new list, after any run of `push` and `clear`
/// calls, the list holds exactly the strings pushed since the last `clear`,
/// in order, so `len` is how many there were.
pub proof fn law_len_counts_pushes(ops: Seq<ListOp>)
    ensures
        apply_ops(Seq::empty(), ops) == pushed_since_clear(ops),
        apply_ops(Seq::empty(), ops).len() == pushed_since_clear(ops).len(),
    decreases ops.len(),
{
    if ops.len() > 0 {
        law_len_counts_pushes(ops.drop_last());
    }
}

/// No string holds a NUL byte.
pub open spec fn no_nul_strings(ss: Seq<Seq<u8>>) -> bool {
    forall|i: int, k: int| 0 <= i < ss.len() && 0 <= k < ss[i].len() ==> #[trigger] ss[i][k] != 0
}

/// In the packed buffer of strings without NUL bytes, every NUL ends a
/// string (or is the leading one): the byte after it is where string `j`
/// starts, `j` being the list's length for the last NUL.
proof fn lemma_nul_is_separator(ss: Seq<Seq<u8>>, q: int)
    requires
        no_nul_strings(ss),
        0 <= q < packed(ss).len(),
        packed(ss)[q] == 0,
    ensures
        exists|j: int| 0 <= j <= ss.len() && #[trigger] packed_offset(ss, j) == q + 1,
    decreases ss.len(),
{
    if ss.len() == 0 {
        assert(ss.take(0) =~= ss);
        assert(packed_offset(ss, 0) == q + 1);
    } else {
        let d = ss.drop_last();
        let pd = packed(d);
        let last = ss.last();
        assert(packed(ss) == pd + last + seq![0u8]);
        if q < pd.len() {
            assert(packed(ss)[q] == pd[q]);
            assert(no_nul_strings(d)) by {
                assert forall|i: int, k: int| 0 <= i < d.len() && 0 <= k < d[i].len() implies #[trigger] d[i][k] != 0 by {
                    assert(d[i] == ss[i]);
                }
            }
            lemma_nul_is_separator(d, q);
            let j = choose|j: int| 0 <= j <= d.len() && #[trigger] packed_offset(d, j) == q + 1;
            assert(ss.take(j) =~= d.take(j));
            assert(packed_offset(ss, j) == q + 1);
        } else if q < pd.len() + last.len() {
            assert(packed(ss)[q] == last[q - pd.len()]);
            assert(ss[ss.len() - 1][q - pd.len()] != 0);
        } else {
            assert(ss.take(ss.len() as int) =~= ss);
            assert(packed_offset(ss, ss.len() as int) == q + 1);
        }
    }
}

/// The byte before where a string starts is a NUL.
proof fn lemma_nul_before_offset(ss: Seq<Seq<u8>>, i: int)
    requires
        0 <= i < ss.len(),
    ensures
        packed(ss)[packed_offset(ss, i) - 1] == 0,
{
    lemma_packed_piece(ss, i);
    if i == 0 {
        lemma_packed_len(ss);
        assert(ss.take(0) =~= Seq::<Seq<u8>>::empty());
    } else {
        lemma_packed_piece(ss, i - 1);
    }
}

/// Where the delimited target `NUL t NUL` occurs in the packed buffer
/// (strings and `t` without NUL bytes): exactly one byte before a string
/// equal to `t`.
proof fn lemma_delimited_occurrence(ss: Seq<Seq<u8>>, t: Seq<u8>, q: int)
    requires
        no_nul_strings(ss),
        forall|k: int| 0 <= k < t.len() ==> t[k] != 0,
    ensures
        (0 <= q && q + t.len() + 2 <= packed(ss).len() && packed(ss).subrange(q, q + t.len() + 2) == seq![0u8] + t + seq![0u8])
            <==> (exists|i: int| 0 <= i < ss.len() && #[trigger] packed_offset(ss, i) == q + 1 && ss[i] == t),
{
    let pk = packed(ss);
    let target = seq![0u8] + t + seq![0u8];
    if 0 <= q && q + t.len() + 2 <= pk.len() && pk.subrange(q, q + t.len() + 2) == target {
        assert(pk[q] == pk.subrange(q, q + t.len() + 2)[0]);
        lemma_nul_is_separator(ss, q);
        let j = choose|j: int| 0 <= j <= ss.len() && #[trigger] packed_offset(ss, j) == q + 1;
        if j == ss.len() {
            assert(ss.take(ss.len() as int) =~= ss);
            assert(false);
        }
        lemma_packed_piece(ss, j);
        let o = q + 1;
        let sj = ss[j];
        // the first NUL at or after o is at o + |t| and at o + |sj|
        if sj.len() < t.len() {
            assert(pk[o + sj.len()] == 0);
            assert(pk[o + sj.len()] == pk.subrange(q, q + t.len() + 2)[(sj.len() + 1) as int]);
            assert(target[(sj.len() + 1) as int] == t[sj.len() as int]);
        } else if sj.len() > t.len() {
            assert(pk[o + t.len()] == pk.subrange(q, q + t.len() + 2)[(t.len() + 1) as int]);
            assert(pk[o + t.len()] == pk.subrange(o, o + sj.len())[t.len() as int]);
            assert(sj[t.len() as int] != 0);
        } else {
            assert forall|k: int| 0 <= k < t.len() implies sj[k] == t[k] by {
                assert(sj[k] == pk.subrange(o, o + sj.len())[k]);
                assert(pk[o + k] == pk.subrange(q, q + t.len() + 2)[k + 1]);
            }
            assert(sj =~= t);
        }
    }
    if exists|i: int| 0 <= i < ss.len() && #[trigger] packed_offset(ss, i) == q + 1 && ss[i] == t {
        let i = choose|i: int| 0 <= i < ss.len() && #[trigger] packed_offset(ss, i) == q + 1 && ss[i] == t;
        lemma_packed_piece(ss, i);
        lemma_nul_before_offset(ss, i);
        assert forall|k: int| 0 <= k < t.len() + 2 implies pk.subrange(q, q + t.len() + 2)[k] == target[k] by {
            if 1 <= k <= t.len() {
                assert(pk[q + k] == pk.subrange(q + 1, q + 1 + t.len())[k - 1]);
            }
        }
        assert(pk.subrange(q, q + t.len() + 2) =~= target);
    }
}

/// A first string equal to `t`, where some string is.
proof fn lemma_min_witness(ss: Seq<Seq<u8>>, t: Seq<u8>, k: int)
    requires
        0 <= k < ss.len(),
        visible(ss[k]) == t,
    ensures
        exists|i: int| 0 <= i < ss.len() && visible(#[trigger] ss[i]) == t
            && forall|j: int| 0 <= j < i ==> visible(#[trigger] ss[j]) != t,
    decreases k,
{
    if exists|j: int| 0 <= j < k && visible(#[trigger] ss[j]) == t {
        let j = choose|j: int| 0 <= j < k && visible(#[trigger] ss[j]) == t;
        lemma_min_witness(ss, t, j);
    } else {
        assert(0 <= k < ss.len() && visible(ss[k]) == t && forall|j: int| 0 <= j < k ==> visible(#[trigger] ss[j]) != t);
    }
}

/// Where string `i0` is the first equal to `t` (strings and `t` without NUL
/// bytes), the delimited target `NUL t NUL` first occurs one byte before it.
proof fn lemma_first_occurrence_at(ss: Seq<Seq<u8>>, t: Seq<u8>, i0: int)
    requires
        no_nul_strings(ss),
        forall|k: int| 0 <= k < t.len() ==> t[k] != 0,
        0 <= i0 < ss.len(),
        ss[i0] == t,
        forall|j: int| 0 <= j < i0 ==> #[trigger] ss[j] != t,
    ensures
        first_occurrence(packed(ss), seq![0u8] + t + seq![0u8]) == Some(packed_offset(ss, i0) - 1),
{
    let pk = packed(ss);
    let target = seq![0u8] + t + seq![0u8];
    assert(target.len() == t.len() + 2);
    let w = packed_offset(ss, i0) - 1;
    lemma_packed_piece(ss, i0);
    lemma_delimited_occurrence(ss, t, w);
    assert(pk.subrange(w, w + target.len()) == target);
    assert forall|q: int| 0 <= q < w implies #[trigger] pk.subrange(q, q + target.len()) != target by {
        lemma_delimited_occurrence(ss, t, q);
        if pk.subrange(q, q + target.len()) == target {
            let i = choose|i: int| 0 <= i < ss.len() && #[trigger] packed_offset(ss, i) == q + 1 && ss[i] == t;
            if i > i0 {
                lemma_offsets_increasing(ss, i0, i);
            } else if i < i0 {
                assert(ss[i] != t);
            }
        }
    }
    let p = first_occurrence(pk, target)->0;
    assert(0 <= p && p + target.len() <= pk.len() && pk.subrange(p, p + target.len()) == target
        && forall|q: int| 0 <= q < p ==> #[trigger] pk.subrange(q, q + target.len()) != target);
    if p > w {
        assert(pk.subrange(w, w + target.len()) != target);
    }
}

/// Finding a string by delimited search: where no stored string and not
/// `t` hold a NUL byte, searching the packed buffer for `NUL t NUL`
/// (`find_delimited_str`) finds the same index as `find_str` with `t`: the
/// first string equal to `t`, or none.
pub proof fn law_delimited_matches_find(ss: Seq<Seq<u8>>, t: Seq<u8>)
    requires
        no_nul_strings(ss),
        forall|k: int| 0 <= k < t.len() ==> t[k] != 0,
    ensures
        delimited_match(ss, seq![0u8] + t + seq![0u8]) == first_visible_match(ss, t),
{
    let pk = packed(ss);
    let target = seq![0u8] + t + seq![0u8];
    assert(target.len() == t.len() + 2);
    assert forall|i: int| 0 <= i < ss.len() implies visible(#[trigger] ss[i]) == ss[i] by {
        assert forall|k: int| 0 <= k < ss[i].len() implies ss[i][k] != 0 by {}
        lemma_visible_no_nul(ss[i]);
    }
    if exists|i: int| 0 <= i < ss.len() && visible(#[trigger] ss[i]) == t {
        let k = choose|i: int| 0 <= i < ss.len() && visible(#[trigger] ss[i]) == t;
        lemma_min_witness(ss, t, k);
        let i0 = first_visible_match(ss, t)->0;
        assert(0 <= i0 < ss.len() && visible(ss[i0]) == t && forall|j: int| 0 <= j < i0 ==> visible(#[trigger] ss[j]) != t);
        assert forall|j: int| 0 <= j < i0 implies #[trigger] ss[j] != t by {
            assert(visible(ss[j]) != t);
        }
        lemma_first_occurrence_at(ss, t, i0);
        let p = packed_offset(ss, i0) - 1;
        assert(packed_offset(ss, i0) == p + 1);
        let c = choose|i: int| 0 <= i < ss.len() && packed_offset(ss, i) == p + 1;
        if c != i0 {
            lemma_offsets_distinct(ss, c, i0);
        }
    } else {
        assert forall|p: int| 0 <= p && p + target.len() <= pk.len() implies #[trigger] pk.subrange(p, p + target.len()) != target by {
            lemma_delimited_occurrence(ss, t, p);
            if pk.subrange(p, p + target.len()) == target {
                let i = choose|i: int| 0 <= i < ss.len() && #[trigger] packed_offset(ss, i) == p + 1 && ss[i] == t;
                assert(visible(ss[i]) == t);
            }
        }
    }
}

} // verus!
