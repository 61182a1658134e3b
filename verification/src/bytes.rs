//! Low-level byte-slice primitives: finding a byte or a byte sequence,
//! splitting a buffer into newline-delimited lines, and splitting a buffer
//! on a fixed separator sequence.
//!
//! The spec model works on `Seq<u8>`: [`spec_lines`] gives the line
//! decomposition of a buffer and [`spec_spans`] its decomposition around a
//! separator sequence.  The lemmas at the end state that both decompositions
//! lose no bytes.

use vstd::prelude::*;

verus! {

use vstd::string::StringSliceAdditionalSpecFns;

/// Index of the first occurrence of `byte` in `s`, if any.
pub open spec fn spec_find_byte(s: Seq<u8>, byte: u8) -> Option<int>
    decreases s.len(),
{
    if s.len() == 0 {
        None
    } else if s[0] == byte {
        Some(0)
    } else {
        match spec_find_byte(s.drop_first(), byte) {
            Some(i) => Some(i + 1),
            None => None,
        }
    }
}

/// Index of the first occurrence of the sequence `needle` in `s`, if any.
/// An empty needle occurs at index 0.
pub open spec fn spec_find_seq(s: Seq<u8>, needle: Seq<u8>) -> Option<int>
    decreases s.len(),
{
    if s.len() < needle.len() {
        None
    } else if s.subrange(0, needle.len() as int) == needle {
        Some(0)
    } else if s.len() == 0 {
        None
    } else {
        match spec_find_seq(s.drop_first(), needle) {
            Some(i) => Some(i + 1),
            None => None,
        }
    }
}

/// The line decomposition of a buffer: each line includes its trailing
/// newline byte; a final unterminated line is included only if non-empty.
pub open spec fn spec_lines(s: Seq<u8>) -> Seq<Seq<u8>>
    decreases s.len(),
    via spec_lines_decreases
{
    if s.len() == 0 {
        Seq::empty()
    } else {
        match spec_find_byte(s, 10u8) {
            Some(i) => seq![s.subrange(0, i + 1)] + spec_lines(s.subrange(i + 1, s.len() as int)),
            None => seq![s],
        }
    }
}

#[via_fn]
proof fn spec_lines_decreases(s: Seq<u8>) {
    lemma_find_byte_spec(s, 10u8);
}

/// The spans of a buffer around occurrences of a non-empty separator
/// sequence, in order.  The separator bytes themselves are not part of any
/// span.  A buffer without the separator is a single span; the empty buffer
/// is a single empty span.
pub open spec fn spec_spans(s: Seq<u8>, sep: Seq<u8>) -> Seq<Seq<u8>>
    decreases s.len(),
    via spec_spans_decreases
{
    if sep.len() == 0 {
        seq![s]
    } else {
        match spec_find_seq(s, sep) {
            Some(i) => seq![s.subrange(0, i)] + spec_spans(
                s.subrange(i + sep.len(), s.len() as int),
                sep,
            ),
            None => seq![s],
        }
    }
}

#[via_fn]
proof fn spec_spans_decreases(s: Seq<u8>, sep: Seq<u8>) {
    lemma_find_seq_spec(s, sep);
}

/// Concatenation of a sequence of byte sequences.
pub open spec fn concat_bytes(ss: Seq<Seq<u8>>) -> Seq<u8>
    decreases ss.len(),
{
    if ss.len() == 0 {
        Seq::empty()
    } else {
        ss[0] + concat_bytes(ss.drop_first())
    }
}

/// Concatenation of a sequence of byte sequences with `sep` re-inserted
/// between consecutive elements.
pub open spec fn join_bytes(ss: Seq<Seq<u8>>, sep: Seq<u8>) -> Seq<u8>
    decreases ss.len(),
{
    if ss.len() == 0 {
        Seq::empty()
    } else if ss.len() == 1 {
        ss[0]
    } else {
        ss[0] + sep + join_bytes(ss.drop_first(), sep)
    }
}

/// Number of occurrences of `byte` in `s`.
pub open spec fn count_byte(s: Seq<u8>, byte: u8) -> nat
    decreases s.len(),
{
    if s.len() == 0 {
        0
    } else {
        count_byte(s.drop_first(), byte) + (if s[0] == byte {
            1nat
        } else {
            0nat
        })
    }
}

/// What `spec_find_byte` returns is the first occurrence.
pub proof fn lemma_find_byte_spec(s: Seq<u8>, byte: u8)
    ensures
        match spec_find_byte(s, byte) {
            Some(i) => 0 <= i < s.len() && s[i] == byte && (forall|j: int|
                0 <= j < i ==> s[j] != byte),
            None => forall|j: int| 0 <= j < s.len() ==> s[j] != byte,
        },
    decreases s.len(),
{
    if s.len() != 0 && s[0] != byte {
        lemma_find_byte_spec(s.drop_first(), byte);
        match spec_find_byte(s.drop_first(), byte) {
            Some(i) => {
                assert(s.drop_first()[i] == s[i + 1]);
                assert forall|j: int| 0 <= j < i + 1 implies s[j] != byte by {
                    if j > 0 {
                        assert(s.drop_first()[j - 1] != byte);
                    }
                }
            },
            None => {
                assert forall|j: int| 0 <= j < s.len() implies s[j] != byte by {
                    if j > 0 {
                        assert(s.drop_first()[j - 1] != byte);
                    }
                }
            },
        }
    }
}

/// An index that is an occurrence preceded by no occurrence is what
/// `spec_find_byte` returns.
pub proof fn lemma_find_byte_unique(s: Seq<u8>, byte: u8, i: int)
    requires
        0 <= i < s.len(),
        s[i] == byte,
        forall|j: int| 0 <= j < i ==> s[j] != byte,
    ensures
        spec_find_byte(s, byte) == Some(i),
    decreases s.len(),
{
    if i > 0 {
        lemma_find_byte_unique(s.drop_first(), byte, i - 1);
    }
}

/// There is no occurrence exactly when `spec_find_byte` returns `None`.
pub proof fn lemma_find_byte_none(s: Seq<u8>, byte: u8)
    requires
        forall|j: int| 0 <= j < s.len() ==> s[j] != byte,
    ensures
        spec_find_byte(s, byte) is None,
{
    lemma_find_byte_spec(s, byte);
}

/// The needle occurs in `s` at index `i`.
pub open spec fn matches_at(s: Seq<u8>, needle: Seq<u8>, i: int) -> bool {
    &&& 0 <= i
    &&& i + needle.len() <= s.len()
    &&& s.subrange(i, i + needle.len()) == needle
}

/// What `spec_find_seq` returns is the first occurrence of the needle.
pub proof fn lemma_find_seq_spec(s: Seq<u8>, needle: Seq<u8>)
    ensures
        match spec_find_seq(s, needle) {
            Some(i) => matches_at(s, needle, i) && (forall|j: int|
                0 <= j < i ==> !matches_at(s, needle, j)),
            None => forall|j: int| !matches_at(s, needle, j),
        },
    decreases s.len(),
{
    if s.len() < needle.len() {
    } else if s.subrange(0, needle.len() as int) == needle {
    } else if s.len() == 0 {
        assert(s.subrange(0, needle.len() as int) =~= needle);
    } else {
        lemma_find_seq_spec(s.drop_first(), needle);
        assert forall|j: int| #[trigger] matches_at(s, needle, j) implies j >= 1 && matches_at(
            s.drop_first(),
            needle,
            j - 1,
        ) by {
            if j == 0 {
                assert(s.subrange(0, needle.len() as int) == needle);
            } else {
                assert(s.drop_first().subrange(j - 1, j - 1 + needle.len()) =~= s.subrange(
                    j,
                    j + needle.len(),
                ));
            }
        }
        assert forall|j: int| #[trigger] matches_at(s.drop_first(), needle, j) implies matches_at(
            s,
            needle,
            j + 1,
        ) by {
            assert(s.subrange(j + 1, j + 1 + needle.len()) =~= s.drop_first().subrange(
                j,
                j + needle.len(),
            ));
        }
        match spec_find_seq(s.drop_first(), needle) {
            Some(i) => {
                assert(matches_at(s, needle, i + 1));
                assert forall|j: int| 0 <= j < i + 1 implies !matches_at(s, needle, j) by {
                    if matches_at(s, needle, j) {
                        if j == 0 {
                            assert(s.subrange(0, needle.len() as int) == needle);
                        } else {
                            assert(!matches_at(s.drop_first(), needle, j - 1));
                        }
                    }
                }
            },
            None => {
                assert forall|j: int| !matches_at(s, needle, j) by {
                    if matches_at(s, needle, j) {
                        if j == 0 {
                            assert(s.subrange(0, needle.len() as int) == needle);
                        } else {
                            assert(!matches_at(s.drop_first(), needle, j - 1));
                        }
                    }
                }
            },
        }
    }
}

/// An occurrence of the needle preceded by no occurrence is what
/// `spec_find_seq` returns.
pub proof fn lemma_find_seq_unique(s: Seq<u8>, needle: Seq<u8>, i: int)
    requires
        matches_at(s, needle, i),
        forall|j: int| 0 <= j < i ==> !matches_at(s, needle, j),
    ensures
        spec_find_seq(s, needle) == Some(i),
{
    lemma_find_seq_spec(s, needle);
    match spec_find_seq(s, needle) {
        Some(k) => {
            if k < i {
                assert(!matches_at(s, needle, k));
            }
            if k > i {
                assert(!matches_at(s, needle, i));
            }
        },
        None => {
            assert(!matches_at(s, needle, i));
        },
    }
}

/// There is no occurrence of the needle exactly when `spec_find_seq`
/// returns `None`.
pub proof fn lemma_find_seq_none(s: Seq<u8>, needle: Seq<u8>)
    requires
        forall|j: int| !matches_at(s, needle, j),
    ensures
        spec_find_seq(s, needle) is None,
{
    lemma_find_seq_spec(s, needle);
    match spec_find_seq(s, needle) {
        Some(k) => {
            assert(!matches_at(s, needle, k));
        },
        None => {},
    }
}

/// Returns the index of the first occurrence of `byte` in `src`, if any.
pub fn find_index_of_element_const(src: &[u8], byte: u8) -> (r: Option<usize>)
    ensures
        match r {
            Some(i) => spec_find_byte(src@, byte) == Some(i as int),
            None => spec_find_byte(src@, byte) is None,
        },
{
    let mut k: usize = 0;
    while k < src.len()
        invariant
            0 <= k <= src@.len(),
            forall|j: int| 0 <= j < k ==> src@[j] != byte,
        decreases src@.len() - k,
    {
        if src[k] == byte {
            proof {
                lemma_find_byte_unique(src@, byte, k as int);
            }
            return Some(k);
        }
        k = k + 1;
    }
    proof {
        lemma_find_byte_none(src@, byte);
    }
    None
}

/// Splits off the first newline-terminated line: `Some((line, rest))`, with
/// the newline kept at the end of `line`, or `None` when `src` holds no
/// newline at all.
pub fn splitln_const(src: &[u8]) -> (r: Option<(Vec<u8>, Vec<u8>)>)
    ensures
        match r {
            Some(pair) => {
                &&& spec_find_byte(src@, 10u8) matches Some(i)
                &&& pair.0@ == src@.subrange(0, i + 1)
                &&& pair.1@ == src@.subrange(i + 1, src@.len() as int)
            },
            None => spec_find_byte(src@, 10u8) is None,
        },
{
    let n = src.len();
    match find_index_of_element_const(src, 10u8) {
        Some(i) => {
            proof {
                lemma_find_byte_spec(src@, 10u8);
                assert(i < n);
            }
            let line = subrange_vec(src, 0, i + 1);
            let rest = subrange_vec(src, i + 1, n);
            Some((line, rest))
        },
        None => None,
    }
}

/// Copies the byte range `[i, j)` of a slice into a fresh vector.
pub fn subrange_vec(src: &[u8], i: usize, j: usize) -> (r: Vec<u8>)
    requires
        0 <= i <= j <= src@.len(),
    ensures
        r@ == src@.subrange(i as int, j as int),
{
    vstd::slice::slice_to_vec(vstd::slice::slice_subrange(src, i, j))
}

/// Compares two byte slices for equality.
pub fn slices_equal(a: &[u8], b: &[u8]) -> (r: bool)
    ensures
        r == (a@ == b@),
{
    if a.len() != b.len() {
        return false;
    }
    let mut k: usize = 0;
    while k < a.len()
        invariant
            0 <= k <= a@.len(),
            a@.len() == b@.len(),
            forall|j: int| 0 <= j < k ==> a@[j] == b@[j],
        decreases a@.len() - k,
    {
        if a[k] != b[k] {
            return false;
        }
        k = k + 1;
    }
    proof {
        assert(a@ =~= b@);
    }
    true
}

/// Returns the index of the first occurrence of the sequence `needle` in
/// `haystack`, if any.
pub fn find_sequence(haystack: &[u8], needle: &[u8]) -> (r: Option<usize>)
    ensures
        match r {
            Some(i) => spec_find_seq(haystack@, needle@) == Some(i as int),
            None => spec_find_seq(haystack@, needle@) is None,
        },
{
    if needle.len() == 0 {
        proof {
            assert(matches_at(haystack@, needle@, 0)) by {
                assert(haystack@.subrange(0, 0) =~= needle@);
            }
            lemma_find_seq_unique(haystack@, needle@, 0);
        }
        return Some(0);
    }
    if needle.len() > haystack.len() {
        proof {
            assert forall|j: int| !matches_at(haystack@, needle@, j) by {}
            lemma_find_seq_none(haystack@, needle@);
        }
        return None;
    }
    let mut k: usize = 0;
    while k <= haystack.len() - needle.len()
        invariant
            1 <= needle@.len() <= haystack@.len(),
            0 <= k <= haystack@.len() - needle@.len() + 1,
            forall|j: int| 0 <= j < k ==> !matches_at(haystack@, needle@, j),
        decreases haystack@.len() - needle@.len() + 1 - k,
    {
        let window = vstd::slice::slice_subrange(haystack, k, k + needle.len());
        if slices_equal(window, needle) {
            proof {
                lemma_find_seq_unique(haystack@, needle@, k as int);
            }
            return Some(k);
        }
        k = k + 1;
    }
    proof {
        assert forall|j: int| !matches_at(haystack@, needle@, j) by {
            if 0 <= j < k {
                assert(!matches_at(haystack@, needle@, j));
            }
        }
        lemma_find_seq_none(haystack@, needle@);
    }
    None
}

/// Splits `bytes` right after the first occurrence of `needle`: the left
/// part keeps the needle at its end, the right part is the remainder.
pub fn split_at_sequence_exclusive(bytes: &[u8], needle: &[u8]) -> (r: Option<(Vec<u8>, Vec<u8>)>)
    ensures
        match r {
            Some(pair) => {
                &&& spec_find_seq(bytes@, needle@) matches Some(i)
                &&& pair.0@ == bytes@.subrange(0, i + needle@.len())
                &&& pair.1@ == bytes@.subrange(i + needle@.len(), bytes@.len() as int)
            },
            None => spec_find_seq(bytes@, needle@) is None,
        },
{
    let n = bytes.len();
    match find_sequence(bytes, needle) {
        Some(i) => {
            proof {
                lemma_find_seq_spec(bytes@, needle@);
                assert(i + needle@.len() <= n);
            }
            let left = subrange_vec(bytes, 0, i + needle.len());
            let right = subrange_vec(bytes, i + needle.len(), n);
            Some((left, right))
        },
        None => None,
    }
}

/// One step of the line scanner: from a scanner state (the unscanned
/// remainder, or `None` once exhausted) to the next state and the yielded
/// line, if any.
pub open spec fn spec_line_step(st: Option<Seq<u8>>) -> (Option<Seq<u8>>, Option<Seq<u8>>) {
    match st {
        None => (None, None),
        Some(s) => match spec_find_byte(s, 10u8) {
            Some(i) => (
                Some(s.subrange(i + 1, s.len() as int)),
                Some(s.subrange(0, i + 1)),
            ),
            None => (
                None,
                if s.len() == 0 {
                    None
                } else {
                    Some(s)
                },
            ),
        },
    }
}

/// The lines still to be yielded from a line-scanner state.
pub open spec fn spec_lines_state(st: Option<Seq<u8>>) -> Seq<Seq<u8>> {
    match st {
        None => Seq::empty(),
        Some(s) => spec_lines(s),
    }
}

/// A strictly decreasing size measure for a line-scanner state.
pub open spec fn spec_state_size(st: Option<Seq<u8>>) -> nat {
    match st {
        None => 0,
        Some(s) => s.len() + 1,
    }
}

/// A scanner step peels exactly the head of the remaining lines off the
/// state, and shrinks the state.
pub proof fn lemma_line_step(st: Option<Seq<u8>>)
    ensures
        spec_lines_state(st) == (match spec_line_step(st).1 {
            None => Seq::<Seq<u8>>::empty(),
            Some(line) => seq![line],
        }) + spec_lines_state(spec_line_step(st).0),
        spec_line_step(st).1 is Some ==> spec_state_size(spec_line_step(st).0) < spec_state_size(
            st,
        ),
        match st {
            None => true,
            Some(s) => match spec_line_step(st).1 {
                None => true,
                Some(line) => line.len() >= 1 && line.len() + (match spec_line_step(st).0 {
                    Some(s2) => s2.len(),
                    None => 0nat,
                }) == s.len(),
            },
        },
{
    match st {
        None => {
            assert(spec_lines_state(st) =~= Seq::<Seq<u8>>::empty() + spec_lines_state(None));
        },
        Some(s) => {
            lemma_find_byte_spec(s, 10u8);
            match spec_find_byte(s, 10u8) {
                Some(i) => {
                    assert(s.len() != 0);
                },
                None => {
                    if s.len() == 0 {
                        assert(spec_lines_state(st) =~= Seq::<Seq<u8>>::empty() + spec_lines_state(
                            None,
                        ));
                    } else {
                        assert(spec_lines_state(st) =~= seq![s] + spec_lines_state(None));
                    }
                },
            }
        },
    }
}

/// Splits a buffer into newline-delimited lines, lazily: each call of
/// [`NewlineIter::next_const`] yields one line.  Every line keeps its
/// trailing newline byte; an unterminated final line is yielded once if it
/// is non-empty.
pub struct NewlineIter {
    rest: Vec<u8>,
    done: bool,
}

impl View for NewlineIter {
    type V = Option<Seq<u8>>;

    closed spec fn view(&self) -> Option<Seq<u8>> {
        if self.done {
            None
        } else {
            Some(self.rest@)
        }
    }
}

impl NewlineIter {
    /// Starts a line scan over `src`.
    pub fn new(src: &[u8]) -> (r: NewlineIter)
        ensures
            r@ == Some(src@),
    {
        NewlineIter { rest: subrange_vec(src, 0, src.len()), done: false }
    }

    /// Starts a line scan over the UTF-8 bytes of a string slice.
    pub fn from_str(src: &str) -> (r: NewlineIter)
        ensures
            r@ == Some(src.spec_bytes()),
    {
        NewlineIter::new(src.as_bytes())
    }

    /// Yields the next line, or `None` once the buffer is exhausted.
    pub fn next_const(&mut self) -> (r: Option<Vec<u8>>)
        ensures
            final(self)@ == spec_line_step(old(self)@).0,
            match r {
                Some(line) => spec_line_step(old(self)@).1 == Some(line@),
                None => spec_line_step(old(self)@).1 is None,
            },
    {
        if self.done {
            return None;
        }
        match splitln_const(self.rest.as_slice()) {
            Some((line, rest)) => {
                self.rest = rest;
                Some(line)
            },
            None => {
                self.done = true;
                if self.rest.len() == 0 {
                    None
                } else {
                    let last = subrange_vec(self.rest.as_slice(), 0, self.rest.len());
                    proof {
                        assert(last@ =~= self.rest@);
                    }
                    Some(last)
                }
            },
        }
    }
}

/// Splits a buffer into its complete line decomposition, eagerly.
pub fn split_lines(src: &[u8]) -> (r: Vec<Vec<u8>>)
    ensures
        r.deep_view() == spec_lines(src@),
{
    let mut it = NewlineIter::new(src);
    let mut out: Vec<Vec<u8>> = Vec::new();
    loop
        invariant_except_break
            out.deep_view() + spec_lines_state(it@) == spec_lines(src@),
        ensures
            out.deep_view() == spec_lines(src@),
        decreases spec_state_size(it@),
    {
        proof {
            lemma_line_step(it@);
        }
        let ghost prev = out.deep_view();
        match it.next_const() {
            Some(line) => {
                out.push(line);
                proof {
                    assert(out.deep_view() =~~= prev + seq![line@]);
                    assert(out.deep_view() + spec_lines_state(it@) =~~= spec_lines(src@));
                }
            },
            None => {
                proof {
                    assert(out.deep_view() =~~= spec_lines(src@));
                }
                break;
            },
        }
    }
    out
}

/// The four-byte tab marker that separates two code tabs.
pub open spec fn spec_tab_seq() -> Seq<u8> {
    seq![45u8, 45u8, 62u8, 56u8]
}

/// The whole tab-separator line: the tab marker followed by its newline.
pub open spec fn spec_tab_sep_line() -> Seq<u8> {
    seq![45u8, 45u8, 62u8, 56u8, 10u8]
}

/// The four-byte tab marker, as a fresh vector.
pub fn tab_sequence() -> (r: Vec<u8>)
    ensures
        r@ == spec_tab_seq(),
{
    let mut v: Vec<u8> = Vec::new();
    v.push(45u8);
    v.push(45u8);
    v.push(62u8);
    v.push(56u8);
    proof {
        assert(v@ =~= spec_tab_seq());
    }
    v
}

/// The whole tab-separator line, as a fresh vector.
pub fn tab_separator_line() -> (r: Vec<u8>)
    ensures
        r@ == spec_tab_sep_line(),
{
    let mut v = tab_sequence();
    v.push(10u8);
    proof {
        assert(v@ =~= spec_tab_sep_line());
    }
    v
}

/// One step of the separator scanner: from a scanner state to the next
/// state and the yielded span.  A state that still holds a remainder always
/// yields a span.
pub open spec fn spec_span_step(st: Option<Seq<u8>>, sep: Seq<u8>) -> (
    Option<Seq<u8>>,
    Option<Seq<u8>>,
) {
    match st {
        None => (None, None),
        Some(s) => match spec_find_seq(s, sep) {
            Some(i) => (
                Some(s.subrange(i + sep.len(), s.len() as int)),
                Some(s.subrange(0, i)),
            ),
            None => (None, Some(s)),
        },
    }
}

/// The spans still to be yielded from a separator-scanner state.
pub open spec fn spec_spans_state(st: Option<Seq<u8>>, sep: Seq<u8>) -> Seq<Seq<u8>> {
    match st {
        None => Seq::empty(),
        Some(s) => spec_spans(s, sep),
    }
}

/// A separator-scanner step peels exactly the head of the remaining spans
/// off the state, and shrinks the state.
pub proof fn lemma_span_step(st: Option<Seq<u8>>, sep: Seq<u8>)
    requires
        sep.len() >= 1,
    ensures
        spec_spans_state(st, sep) == (match spec_span_step(st, sep).1 {
            None => Seq::<Seq<u8>>::empty(),
            Some(span) => seq![span],
        }) + spec_spans_state(spec_span_step(st, sep).0, sep),
        spec_span_step(st, sep).1 is Some ==> spec_state_size(spec_span_step(st, sep).0)
            < spec_state_size(st),
{
    match st {
        None => {
            assert(spec_spans_state(st, sep) =~= Seq::<Seq<u8>>::empty() + spec_spans_state(
                None,
                sep,
            ));
        },
        Some(s) => {
            lemma_find_seq_spec(s, sep);
            match spec_find_seq(s, sep) {
                Some(i) => {},
                None => {
                    assert(spec_spans_state(st, sep) =~= seq![s] + spec_spans_state(None, sep));
                },
            }
        },
    }
}

/// Splits a buffer on the tab-separator line, lazily: each call of
/// [`TabIter::next`] yields the span before the next separator, and finally
/// the span after the last one.  A buffer without any separator is one
/// span; the empty buffer is one empty span.
pub struct TabIter {
    rest: Vec<u8>,
    done: bool,
}

impl View for TabIter {
    type V = Option<Seq<u8>>;

    closed spec fn view(&self) -> Option<Seq<u8>> {
        if self.done {
            None
        } else {
            Some(self.rest@)
        }
    }
}

impl TabIter {
    /// Starts a span scan over `src`.
    pub fn new(src: &[u8]) -> (r: TabIter)
        ensures
            r@ == Some(src@),
    {
        TabIter { rest: subrange_vec(src, 0, src.len()), done: false }
    }

    /// Yields the next span, or `None` once the buffer is exhausted.
    pub fn next(&mut self) -> (r: Option<Vec<u8>>)
        ensures
            final(self)@ == spec_span_step(old(self)@, spec_tab_sep_line()).0,
            match r {
                Some(span) => spec_span_step(old(self)@, spec_tab_sep_line()).1 == Some(span@),
                None => spec_span_step(old(self)@, spec_tab_sep_line()).1 is None,
            },
    {
        if self.done {
            return None;
        }
        let sep = tab_separator_line();
        let n = self.rest.len();
        match find_sequence(self.rest.as_slice(), sep.as_slice()) {
            Some(i) => {
                proof {
                    lemma_find_seq_spec(self.rest@, sep@);
                    assert(i + sep@.len() <= n);
                }
                let span = subrange_vec(self.rest.as_slice(), 0, i);
                let rest = subrange_vec(self.rest.as_slice(), i + sep.len(), n);
                self.rest = rest;
                Some(span)
            },
            None => {
                self.done = true;
                let last = subrange_vec(self.rest.as_slice(), 0, n);
                proof {
                    assert(last@ =~= self.rest@);
                }
                Some(last)
            },
        }
    }
}

/// Splits a buffer into its complete decomposition around the
/// tab-separator line, eagerly.
pub fn split_tab_spans(src: &[u8]) -> (r: Vec<Vec<u8>>)
    ensures
        r.deep_view() == spec_spans(src@, spec_tab_sep_line()),
{
    let mut it = TabIter::new(src);
    let mut out: Vec<Vec<u8>> = Vec::new();
    loop
        invariant_except_break
            out.deep_view() + spec_spans_state(it@, spec_tab_sep_line()) == spec_spans(
                src@,
                spec_tab_sep_line(),
            ),
        ensures
            out.deep_view() == spec_spans(src@, spec_tab_sep_line()),
        decreases spec_state_size(it@),
    {
        proof {
            lemma_span_step(it@, spec_tab_sep_line());
        }
        let ghost prev = out.deep_view();
        match it.next() {
            Some(span) => {
                out.push(span);
                proof {
                    assert(out.deep_view() =~~= prev + seq![span@]);
                    assert(out.deep_view() + spec_spans_state(it@, spec_tab_sep_line())
                        =~~= spec_spans(src@, spec_tab_sep_line()));
                }
            },
            None => {
                proof {
                    assert(out.deep_view() =~~= spec_spans(src@, spec_tab_sep_line()));
                }
                break;
            },
        }
    }
    out
}

/// Counting occurrences distributes over concatenation.
pub proof fn lemma_count_byte_add(a: Seq<u8>, b: Seq<u8>, byte: u8)
    ensures
        count_byte(a + b, byte) == count_byte(a, byte) + count_byte(b, byte),
    decreases a.len(),
{
    if a.len() == 0 {
        assert(a + b =~= b);
    } else {
        assert((a + b).drop_first() =~= a.drop_first() + b);
        lemma_count_byte_add(a.drop_first(), b, byte);
    }
}

/// A sequence without an occurrence counts zero occurrences.
pub proof fn lemma_count_byte_none(s: Seq<u8>, byte: u8)
    requires
        forall|j: int| 0 <= j < s.len() ==> s[j] != byte,
    ensures
        count_byte(s, byte) == 0,
    decreases s.len(),
{
    if s.len() > 0 {
        assert forall|j: int| 0 <= j < s.drop_first().len() implies s.drop_first()[j] != byte by {
            assert(s[j + 1] != byte);
        }
        lemma_count_byte_none(s.drop_first(), byte);
    }
}

/// Counting occurrences in a one-byte sequence.
pub proof fn lemma_count_byte_single(x: u8, byte: u8)
    ensures
        count_byte(seq![x], byte) == (if x == byte {
            1int
        } else {
            0int
        }),
{
    assert(seq![x].drop_first() =~= Seq::<u8>::empty());
    assert(count_byte(Seq::<u8>::empty(), byte) == 0);
}

/// The count of occurrences never exceeds the sequence's length.
pub proof fn lemma_count_byte_le(s: Seq<u8>, byte: u8)
    ensures
        count_byte(s, byte) <= s.len(),
    decreases s.len(),
{
    if s.len() > 0 {
        lemma_count_byte_le(s.drop_first(), byte);
    }
}

/// Counts the newline bytes in a buffer.
pub fn count_newlines(src: &[u8]) -> (r: usize)
    ensures
        r == count_byte(src@, 10u8),
{
    let mut cnt: usize = 0;
    let mut k: usize = 0;
    while k < src.len()
        invariant
            0 <= k <= src@.len(),
            cnt <= k,
            cnt == count_byte(src@.subrange(0, k as int), 10u8),
        decreases src@.len() - k,
    {
        proof {
            assert(src@.subrange(0, k as int) + src@.subrange(k as int, k + 1) =~= src@.subrange(
                0,
                k + 1,
            ));
            lemma_count_byte_add(src@.subrange(0, k as int), src@.subrange(k as int, k + 1), 10u8);
            assert(src@.subrange(k as int, k + 1) =~= seq![src@[k as int]]);
            lemma_count_byte_single(src@[k as int], 10u8);
        }
        if src[k] == 10u8 {
            cnt = cnt + 1;
        }
        k = k + 1;
    }
    proof {
        assert(src@.subrange(0, src@.len() as int) =~= src@);
    }
    cnt
}

/// Counts the lines of a buffer: its newline bytes, plus one for a
/// non-empty unterminated tail.
pub fn count_lines(src: &[u8]) -> (r: usize)
    ensures
        r == spec_lines(src@).len(),
{
    let n = src.len();
    let newlines = count_newlines(src);
    proof {
        lemma_lines_count(src@);
    }
    if n > 0 && src[n - 1] != 10u8 {
        proof {
            let prefix = src@.subrange(0, n - 1);
            assert(prefix + src@.subrange(n - 1, n as int) =~= src@);
            lemma_count_byte_add(prefix, src@.subrange(n - 1, n as int), 10u8);
            assert(src@.subrange(n - 1, n as int) =~= seq![src@[n - 1]]);
            lemma_count_byte_single(src@[n - 1], 10u8);
            lemma_count_byte_le(prefix, 10u8);
            assert(newlines < n);
        }
        newlines + 1
    } else {
        newlines
    }
}

/// Concatenating the lines of a buffer reconstructs the buffer exactly:
/// the line decomposition loses no bytes.
pub proof fn lemma_lines_concat(s: Seq<u8>)
    ensures
        concat_bytes(spec_lines(s)) == s,
    decreases s.len(),
{
    if s.len() == 0 {
        assert(concat_bytes(spec_lines(s)) =~= s);
    } else {
        lemma_find_byte_spec(s, 10u8);
        match spec_find_byte(s, 10u8) {
            Some(i) => {
                let head = s.subrange(0, i + 1);
                let rest = s.subrange(i + 1, s.len() as int);
                let all = seq![head] + spec_lines(rest);
                assert(all.drop_first() =~= spec_lines(rest));
                lemma_lines_concat(rest);
                assert(head + rest =~= s);
            },
            None => {
                let all = seq![s];
                assert(all.drop_first() =~= Seq::<Seq<u8>>::empty());
                assert(concat_bytes(Seq::<Seq<u8>>::empty()) == Seq::<u8>::empty());
                assert(concat_bytes(all) =~= s);
            },
        }
    }
}

/// The number of lines of a buffer equals its number of newline bytes,
/// plus one more exactly when the buffer is non-empty and does not end
/// with a newline.
pub proof fn lemma_lines_count(s: Seq<u8>)
    ensures
        spec_lines(s).len() == count_byte(s, 10u8) + (if s.len() > 0 && s.last() != 10u8 {
            1int
        } else {
            0int
        }),
    decreases s.len(),
{
    if s.len() == 0 {
    } else {
        lemma_find_byte_spec(s, 10u8);
        match spec_find_byte(s, 10u8) {
            Some(i) => {
                let head = s.subrange(0, i + 1);
                let rest = s.subrange(i + 1, s.len() as int);
                assert((seq![head] + spec_lines(rest)).len() == 1 + spec_lines(rest).len());
                lemma_lines_count(rest);
                assert(head + rest =~= s);
                lemma_count_byte_add(head, rest, 10u8);
                assert(count_byte(head, 10u8) == 1) by {
                    let prefix = s.subrange(0, i);
                    assert(prefix + s.subrange(i, i + 1) =~= head);
                    lemma_count_byte_add(prefix, s.subrange(i, i + 1), 10u8);
                    lemma_count_byte_none(prefix, 10u8);
                    assert(s.subrange(i, i + 1) =~= seq![s[i]]);
                    lemma_count_byte_single(s[i], 10u8);
                }
                if rest.len() == 0 {
                    assert(s.last() == 10u8);
                } else {
                    assert(s.last() == rest.last());
                }
            },
            None => {
                lemma_count_byte_none(s, 10u8);
                assert(s.last() != 10u8);
            },
        }
    }
}

/// The total length of the first `i` sequences of a list.
pub open spec fn spec_sum_lens(ss: Seq<Seq<u8>>, i: int) -> int
    decreases i,
{
    if i <= 0 {
        0
    } else {
        spec_sum_lens(ss, i - 1) + ss[i - 1].len()
    }
}

/// The total occurrence count of `byte` over the first `i` sequences of a
/// list.
pub open spec fn spec_sum_count(ss: Seq<Seq<u8>>, i: int, byte: u8) -> int
    decreases i,
{
    if i <= 0 {
        0
    } else {
        spec_sum_count(ss, i - 1, byte) + count_byte(ss[i - 1], byte)
    }
}

/// Occurrence counts are bounded by lengths, summed as well as singly.
pub proof fn lemma_sum_count_le_lens(ss: Seq<Seq<u8>>, i: int, byte: u8)
    ensures
        0 <= spec_sum_count(ss, i, byte) <= spec_sum_lens(ss, i),
    decreases i,
{
    if i > 0 {
        lemma_sum_count_le_lens(ss, i - 1, byte);
        lemma_count_byte_le(ss[i - 1], byte);
    }
}

/// Prefix sums of lengths grow with the prefix.
pub proof fn lemma_sum_lens_mono(ss: Seq<Seq<u8>>, i: int, j: int)
    requires
        i <= j,
    ensures
        spec_sum_lens(ss, i) <= spec_sum_lens(ss, j),
    decreases j - i,
{
    if i < j {
        lemma_sum_lens_mono(ss, i, j - 1);
    }
}

/// Dropping the first sequence shifts a prefix sum of lengths.
pub proof fn lemma_sum_lens_shift(ss: Seq<Seq<u8>>, i: int)
    requires
        1 <= i <= ss.len(),
    ensures
        spec_sum_lens(ss, i) == ss[0].len() + spec_sum_lens(ss.drop_first(), i - 1),
    decreases i,
{
    if i == 1 {
        assert(spec_sum_lens(ss, 0) == 0);
        assert(spec_sum_lens(ss.drop_first(), 0) == 0);
    } else {
        lemma_sum_lens_shift(ss, i - 1);
        assert(ss.drop_first()[i - 2] =~= ss[i - 1]);
        assert(spec_sum_lens(ss.drop_first(), i - 1) == spec_sum_lens(ss.drop_first(), i - 2)
            + ss.drop_first()[i - 2].len());
    }
}

/// The length of a joined list is the total length of its parts plus the
/// separators in between.
pub proof fn lemma_join_len(ss: Seq<Seq<u8>>, sep: Seq<u8>)
    requires
        ss.len() >= 1,
    ensures
        join_bytes(ss, sep).len() == spec_sum_lens(ss, ss.len() as int) + (ss.len() - 1)
            * sep.len(),
    decreases ss.len(),
{
    if ss.len() == 1 {
        assert((ss.len() - 1) * sep.len() == 0) by (nonlinear_arith)
            requires
                ss.len() == 1,
        {
        }
        assert(spec_sum_lens(ss, 0) == 0);
    } else {
        lemma_join_len(ss.drop_first(), sep);
        lemma_sum_lens_shift(ss, ss.len() as int);
        assert((ss.len() - 1) * sep.len() == (ss.drop_first().len() - 1) * sep.len()
            + sep.len()) by (nonlinear_arith)
            requires
                ss.len() >= 2,
                ss.drop_first().len() == ss.len() - 1,
        {
        }
    }
}

/// Within any prefix of the spans of a buffer, the spans hold at most as
/// many occurrences of a byte as the buffer is long.
pub proof fn lemma_spans_count_bound(data: Seq<u8>, sep: Seq<u8>, i: int, byte: u8)
    requires
        i <= spec_spans(data, sep).len(),
    ensures
        spec_sum_count(spec_spans(data, sep), i, byte) <= data.len(),
{
    let spans = spec_spans(data, sep);
    lemma_sum_count_le_lens(spans, i, byte);
    if i > 0 {
        lemma_spans_join(data, sep);
        lemma_spans_nonempty(data, sep);
        lemma_join_len(spans, sep);
        assert((spans.len() - 1) * sep.len() >= 0) by (nonlinear_arith)
            requires
                spans.len() >= 1,
                sep.len() >= 0,
        {
        }
        lemma_sum_lens_mono(spans, i, spans.len() as int);
    }
}

/// Every line of a buffer holds at least one byte.
pub proof fn lemma_lines_nonempty(s: Seq<u8>)
    ensures
        forall|k: int|
            0 <= k < spec_lines(s).len() ==> (#[trigger] spec_lines(s)[k]).len() >= 1,
    decreases s.len(),
{
    if s.len() > 0 {
        lemma_find_byte_spec(s, 10u8);
        match spec_find_byte(s, 10u8) {
            Some(i) => {
                let rest = s.subrange(i + 1, s.len() as int);
                lemma_lines_nonempty(rest);
                assert forall|k: int|
                    0 <= k < spec_lines(s).len() implies (#[trigger] spec_lines(s)[k]).len()
                    >= 1 by {
                    if k >= 1 {
                        assert(spec_lines(s)[k] == spec_lines(rest)[k - 1]);
                    }
                }
            },
            None => {},
        }
    }
}

/// The lines of a concatenation split at a newline-terminated (or empty)
/// left part.
pub proof fn lemma_lines_append(a: Seq<u8>, b: Seq<u8>)
    requires
        a.len() == 0 || a.last() == 10u8,
    ensures
        spec_lines(a + b) == spec_lines(a) + spec_lines(b),
    decreases a.len(),
{
    if a.len() == 0 {
        assert(a + b =~= b);
        assert(spec_lines(a) + spec_lines(b) =~= spec_lines(b));
    } else {
        lemma_find_byte_spec(a, 10u8);
        match spec_find_byte(a, 10u8) {
            Some(i) => {
                let a_rest = a.subrange(i + 1, a.len() as int);
                if a_rest.len() > 0 {
                    assert(a_rest.last() == a.last());
                }
                lemma_lines_append(a_rest, b);
                lemma_find_byte_unique(a + b, 10u8, i);
                assert((a + b).subrange(0, i + 1) =~= a.subrange(0, i + 1));
                assert((a + b).subrange(i + 1, (a + b).len() as int) =~= a_rest + b);
                assert(spec_lines(a + b) == seq![a.subrange(0, i + 1)] + spec_lines(a_rest + b));
                assert(spec_lines(a) == seq![a.subrange(0, i + 1)] + spec_lines(a_rest));
                assert(seq![a.subrange(0, i + 1)] + (spec_lines(a_rest) + spec_lines(b))
                    =~= (seq![a.subrange(0, i + 1)] + spec_lines(a_rest)) + spec_lines(b));
            },
            None => {
                assert(a[a.len() - 1] == 10u8);
            },
        }
    }
}

/// A single newline-terminated line whose earlier bytes hold no newline is
/// its own line decomposition.
pub proof fn lemma_lines_single(l: Seq<u8>)
    requires
        l.len() >= 1,
        l.last() == 10u8,
        forall|i: int| 0 <= i < l.len() - 1 ==> l[i] != 10u8,
    ensures
        spec_lines(l) == seq![l],
{
    lemma_find_byte_unique(l, 10u8, l.len() - 1);
    assert(l.subrange(0, l.len() as int) =~= l);
    assert(l.subrange(l.len() as int, l.len() as int) =~= Seq::<u8>::empty());
    assert(spec_lines(Seq::<u8>::empty()) =~= Seq::<Seq<u8>>::empty());
    assert(seq![l] + Seq::<Seq<u8>>::empty() =~= seq![l]);
}

/// The concatenation of a list of byte sequences is as long as the sum of
/// their lengths.
pub proof fn lemma_concat_len(ss: Seq<Seq<u8>>)
    ensures
        concat_bytes(ss).len() == spec_sum_lens(ss, ss.len() as int),
    decreases ss.len(),
{
    if ss.len() > 0 {
        lemma_concat_len(ss.drop_first());
        lemma_sum_lens_shift(ss, ss.len() as int);
    }
}

/// The total length of a buffer's lines is the buffer's length.
pub proof fn lemma_lines_total_len(s: Seq<u8>)
    ensures
        spec_sum_lens(spec_lines(s), spec_lines(s).len() as int) == s.len(),
{
    lemma_lines_concat(s);
    lemma_concat_len(spec_lines(s));
}

/// Splitting a joined list on its separator recovers the parts: no part
/// but the last may hold an occurrence of the separator even together with
/// the separator that follows it, and the last part may hold none at all.
pub proof fn lemma_spans_of_join(ts: Seq<Seq<u8>>, sep: Seq<u8>)
    requires
        ts.len() >= 1,
        sep.len() >= 1,
        forall|i: int, p: int|
            0 <= i < ts.len() - 1 && 0 <= p < ts[i].len() ==> !(#[trigger] matches_at(
                ts[i] + sep,
                sep,
                p,
            )),
        forall|p: int| !matches_at(ts.last(), sep, p),
    ensures
        spec_spans(join_bytes(ts, sep), sep) == ts,
    decreases ts.len(),
{
    let joined = join_bytes(ts, sep);
    if ts.len() == 1 {
        assert(joined == ts[0]);
        assert forall|p: int| !matches_at(joined, sep, p) by {
            assert(!matches_at(ts.last(), sep, p));
        }
        lemma_find_seq_none(joined, sep);
        assert(spec_spans(joined, sep) =~= seq![ts[0]]);
        assert(seq![ts[0]] =~= ts);
    } else {
        let t0 = ts[0];
        let rest_join = join_bytes(ts.drop_first(), sep);
        assert(joined == t0 + sep + rest_join);
        assert(matches_at(joined, sep, t0.len() as int)) by {
            assert(joined.subrange(t0.len() as int, t0.len() + sep.len() as int) =~= sep);
        }
        assert forall|p: int| 0 <= p < t0.len() implies !matches_at(joined, sep, p) by {
            assert(!matches_at(t0 + sep, sep, p));
            if matches_at(joined, sep, p) {
                assert(joined.subrange(p, p + sep.len()) =~= (t0 + sep).subrange(
                    p,
                    p + sep.len(),
                ));
                assert(matches_at(t0 + sep, sep, p));
            }
        }
        lemma_find_seq_unique(joined, sep, t0.len() as int);
        assert(joined.subrange(0, t0.len() as int) =~= t0);
        assert(joined.subrange(t0.len() + sep.len() as int, joined.len() as int) =~= rest_join);
        assert forall|i: int, p: int|
            0 <= i < ts.drop_first().len() - 1 && 0 <= p < ts.drop_first()[i].len()
            implies !(#[trigger] matches_at(ts.drop_first()[i] + sep, sep, p)) by {
            assert(ts.drop_first()[i] == ts[i + 1]);
            assert(!matches_at(ts[i + 1] + sep, sep, p));
        }
        assert(ts.drop_first().last() == ts.last());
        lemma_spans_of_join(ts.drop_first(), sep);
        assert(spec_spans(joined, sep) == seq![t0] + ts.drop_first());
        assert(seq![t0] + ts.drop_first() =~= ts);
    }
}

/// Every buffer decomposes into at least one span.
pub proof fn lemma_spans_nonempty(s: Seq<u8>, sep: Seq<u8>)
    ensures
        spec_spans(s, sep).len() >= 1,
{
}

/// Concatenating the spans of a buffer with the separator re-inserted
/// between them reconstructs the buffer exactly: the separator scanner
/// loses no bytes.
pub proof fn lemma_spans_join(s: Seq<u8>, sep: Seq<u8>)
    ensures
        join_bytes(spec_spans(s, sep), sep) == s,
    decreases s.len(),
{
    if sep.len() == 0 {
    } else {
        lemma_find_seq_spec(s, sep);
        match spec_find_seq(s, sep) {
            Some(i) => {
                let head = s.subrange(0, i);
                let rest = s.subrange(i + sep.len(), s.len() as int);
                let all = seq![head] + spec_spans(rest, sep);
                lemma_spans_nonempty(rest, sep);
                assert(all.len() >= 2);
                assert(all.drop_first() =~= spec_spans(rest, sep));
                lemma_spans_join(rest, sep);
                assert(head + sep + rest =~= s) by {
                    assert(s.subrange(i, i + sep.len()) == sep);
                }
            },
            None => {},
        }
    }
}

} // verus!
