//! The positioned text record and the normalization pipeline.
//!
//! A [`PreprocessedInput`] pairs the original text with the text as
//! normalized so far and a breakpoint table: one `(current offset, original
//! offset)` pair per character boundary of the current text, plus a sentinel
//! for the end of the text. Each transformation consumes a positioned text
//! and produces a new one, resolving offsets through the previous stage's
//! table so that they always lead back to the true original positions.

use crate::unicode::byte_len;
use crate::unicode::chars_of;
use crate::unicode::is_nonspacing_mark;
use crate::unicode::is_whitespace_char;
use crate::unicode::lemma_byte_len_bounds;
use crate::unicode::lemma_byte_len_is_encoding_len;
use crate::unicode::lemma_byte_len_push;
use crate::unicode::lemma_byte_len_take_lt;
use crate::unicode::lemma_byte_len_take_succ;
use crate::unicode::lower_first;
use crate::unicode::lower_first_char;
use crate::unicode::nfc_first;
use crate::unicode::nfc_first_of;
use crate::unicode::nfd_chars;
use crate::unicode::nfd_of;
use crate::unicode::nonspacing_mark;
use crate::unicode::string_of;
use crate::unicode::utf8_len;
use crate::unicode::whitespace_char;
use vstd::prelude::*;

verus! {

/// Error returned when a position query names a byte offset at which no
/// character boundary of the current text was recorded.
#[derive(Clone, Copy, Debug, PartialEq, Eq, Structural)]
pub enum PreprocessingError {
    InvalidBoundary,
}

/// Whether some breakpoint of `m` records the current-text offset `k`.
pub open spec fn entries_contain_key(m: Seq<(usize, usize)>, k: usize) -> bool {
    exists|j: int| 0 <= j < m.len() && (#[trigger] m[j]).0 == k
}

/// The original offset that `m` records for the current-text offset `k`:
/// the value of the first breakpoint carrying `k` (in a well-formed table
/// the keys are distinct, so there is at most one).
pub open spec fn entries_value(m: Seq<(usize, usize)>, k: usize) -> usize
    decreases m.len(),
{
    if m.len() == 0 {
        0
    } else if m[0].0 == k {
        m[0].1
    } else {
        entries_value(m.drop_first(), k)
    }
}

/// The lookup of `k` returns the value of breakpoint `idx` when `idx` carries
/// `k` and no earlier breakpoint does.
proof fn lemma_entries_value_first(m: Seq<(usize, usize)>, k: usize, idx: int)
    requires
        0 <= idx < m.len(),
        m[idx].0 == k,
        forall|t: int| 0 <= t < idx ==> (#[trigger] m[t]).0 != k,
    ensures
        entries_value(m, k) == m[idx].1,
    decreases idx,
{
    if idx == 0 {
    } else {
        assert(m[0].0 != k);
        assert(forall|t: int|
            0 <= t < idx - 1 ==> (#[trigger] m.drop_first()[t]).0 != k);
        lemma_entries_value_first(m.drop_first(), k, idx - 1);
        assert(m.drop_first()[idx - 1] == m[idx]);
    }
}

/// The breakpoint table that maps every character boundary of `s`, and the
/// sentinel, to itself.
pub open spec fn identity_mapping(s: Seq<char>) -> Seq<(usize, usize)> {
    Seq::new(
        (s.len() + 1) as nat,
        |j: int| ((byte_len(s.take(j)) as usize), (byte_len(s.take(j)) as usize)),
    )
}

/// Well-formedness of a positioned text with original text `orig`, current
/// text `cur` and breakpoint table `m`: there is one breakpoint per character
/// boundary of `cur` plus the sentinel, in order of strictly increasing
/// current offsets; the recorded original offsets never decrease, never pass
/// the end of the original text, and the sentinel maps to exactly that end.
pub open spec fn wf_state(orig: Seq<char>, cur: Seq<char>, m: Seq<(usize, usize)>) -> bool {
    &&& 4 * orig.len() <= usize::MAX
    &&& cur.len() <= orig.len()
    &&& m.len() == cur.len() + 1
    &&& (forall|j: int| 0 <= j < m.len() ==> (#[trigger] m[j]).0 == byte_len(cur.take(j)))
    &&& (forall|j: int, k: int|
        0 <= j <= k < m.len() ==> (#[trigger] m[j]).1 <= (#[trigger] m[k]).1)
    &&& (forall|j: int| 0 <= j < m.len() ==> (#[trigger] m[j]).1 <= byte_len(orig))
    &&& m[m.len() - 1].1 == byte_len(orig)
}

/// An original text together with its normalization so far and the
/// breakpoint table that translates current offsets back to original ones.
#[derive(Debug)]
pub struct PreprocessedInput {
    original_input: String,
    preprocessed_input: String,
    byte_mapping: Vec<(usize, usize)>,
}

impl PreprocessedInput {
    /// The original text, as a sequence of characters.
    pub closed spec fn original(self) -> Seq<char> {
        self.original_input@
    }

    /// The current (normalized so far) text, as a sequence of characters.
    pub closed spec fn current(self) -> Seq<char> {
        self.preprocessed_input@
    }

    /// The breakpoint table.
    pub closed spec fn mapping(self) -> Seq<(usize, usize)> {
        self.byte_mapping@
    }

    #[verifier::type_invariant]
    spec fn wf(self) -> bool {
        wf_state(self.original(), self.current(), self.mapping())
    }

    /// The seed of a pipeline run: the text is its own normalization and
    /// every boundary maps to itself.
    pub fn no_preprocessing(input: &str) -> (r: PreprocessedInput)
        requires
            4 * input@.len() <= usize::MAX,
        ensures
            r.original() == input@,
            r.current() == input@,
            r.mapping() == identity_mapping(input@),
            wf_state(r.original(), r.current(), r.mapping()),
    {
        let s = chars_of(input);
        let mut entries: Vec<(usize, usize)> = Vec::new();
        let mut cursor: usize = 0;
        let mut i: usize = 0;
        while i < s.len()
            invariant
                s@ == input@,
                4 * input@.len() <= usize::MAX,
                i <= s.len(),
                cursor == byte_len(s@.take(i as int)),
                entries@.len() == i,
                forall|j: int|
                    0 <= j < i ==> (#[trigger] entries@[j]).0 == byte_len(input@.take(j))
                        && entries@[j].1 == byte_len(input@.take(j)),
            decreases s.len() - i,
        {
            entries.push((cursor, cursor));
            let w = utf8_len(s[i]);
            proof {
                lemma_byte_len_take_succ(s@, i as int);
                lemma_byte_len_bounds(s@.take(i + 1));
            }
            cursor = cursor + w;
            i += 1;
        }
        entries.push((cursor, cursor));
        proof {
            assert(s@.take(s@.len() as int) =~= s@);
            assert forall|j: int| 0 <= j < entries@.len() implies #[trigger] entries@[j]
                == identity_mapping(input@)[j] by {
                assert(entries@[j].0 == byte_len(input@.take(j)));
                assert(0 <= byte_len(input@.take(j)) <= usize::MAX);
                assert(identity_mapping(input@)[j].0 == (byte_len(input@.take(j)) as usize));
                assert(identity_mapping(input@)[j].1 == (byte_len(input@.take(j)) as usize));
                assert((byte_len(input@.take(j)) as usize) == byte_len(input@.take(j)));
            }
            assert(entries@ =~= identity_mapping(input@));
            assert forall|j: int, k: int|
                0 <= j <= k < entries@.len() implies (#[trigger] entries@[j]).1
                <= (#[trigger] entries@[k]).1 by {
                if j < k {
                    lemma_byte_len_take_lt(input@, j, k);
                }
            }
            assert forall|j: int| 0 <= j < entries@.len() implies (#[trigger] entries@[j]).1
                <= byte_len(input@) by {
                if j < entries@.len() - 1 {
                    lemma_byte_len_take_lt(input@, j, entries@.len() - 1);
                }
            }
        }
        PreprocessedInput {
            original_input: input.to_owned(),
            preprocessed_input: input.to_owned(),
            byte_mapping: entries,
        }
    }

    /// Translate `cursor`, a byte offset into the current text, back to the
    /// corresponding byte offset of the original text. Fails with
    /// `InvalidBoundary` exactly when `cursor` is not a recorded boundary.
    pub fn map_byte(&self, cursor: usize) -> (r: Result<usize, PreprocessingError>)
        ensures
            entries_contain_key(self.mapping(), cursor) ==> r == Ok::<
                usize,
                PreprocessingError,
            >(entries_value(self.mapping(), cursor)),
            !entries_contain_key(self.mapping(), cursor) ==> r == Err::<
                usize,
                PreprocessingError,
            >(PreprocessingError::InvalidBoundary),
    {
        let n = self.byte_mapping.len();
        let mut j: usize = 0;
        while j < n
            invariant
                n == self.byte_mapping@.len(),
                j <= n,
                forall|t: int| 0 <= t < j ==> (#[trigger] self.byte_mapping@[t]).0 != cursor,
            decreases n - j,
        {
            let e = self.byte_mapping[j];
            if e.0 == cursor {
                proof {
                    lemma_entries_value_first(self.mapping(), cursor, j as int);
                }
                return Ok(e.1);
            }
            j += 1;
        }
        Err(PreprocessingError::InvalidBoundary)
    }

    /// The original text.
    pub fn original_input(&self) -> (r: &String)
        ensures
            r@ == self.original(),
    {
        &self.original_input
    }

    /// The current normalized text.
    pub fn preprocessed_input(&self) -> (r: &String)
        ensures
            r@ == self.current(),
    {
        &self.preprocessed_input
    }

    /// The breakpoint table: pairs of a current offset and the original
    /// offset recorded for it.
    pub fn byte_mapping(&self) -> (r: &Vec<(usize, usize)>)
        ensures
            r@ == self.mapping(),
    {
        &self.byte_mapping
    }
}

fn mapping_eq(a: &Vec<(usize, usize)>, b: &Vec<(usize, usize)>) -> (r: bool)
    ensures
        r == (a@ == b@),
{
    if a.len() != b.len() {
        return false;
    }
    let mut i: usize = 0;
    while i < a.len()
        invariant
            i <= a.len(),
            a@.len() == b@.len(),
            forall|j: int| 0 <= j < i ==> a@[j] == b@[j],
        decreases a.len() - i,
    {
        let x = a[i];
        let y = b[i];
        if x.0 != y.0 || x.1 != y.1 {
            return false;
        }
        i += 1;
    }
    proof {
        assert(a@ =~= b@);
    }
    true
}

impl PartialEq for PreprocessedInput {
    /// Structural equality: original text, current text and breakpoint table
    /// all agree.
    fn eq(&self, other: &Self) -> (r: bool) {
        self.original_input == other.original_input && self.preprocessed_input
            == other.preprocessed_input && mapping_eq(&self.byte_mapping, &other.byte_mapping)
    }
}

impl vstd::std_specs::cmp::PartialEqSpecImpl for PreprocessedInput {
    open spec fn obeys_eq_spec() -> bool {
        true
    }

    open spec fn eq_spec(&self, other: &Self) -> bool {
        &&& self.original() == other.original()
        &&& self.current() == other.current()
        &&& self.mapping() == other.mapping()
    }
}


/// One transformation of the closed set.
#[derive(Clone, Copy, Debug)]
pub enum PreprocessingOption {
    NormalizeWhitespace,
    RemoveDiacritics,
    Lowercase,
}

/// What diacritic removal makes of one character: canonically decompose it,
/// drop the nonspacing marks, recompose the remainder, and keep at most the
/// first resulting character.
pub open spec fn strip_char(c: char) -> Option<char> {
    nfc_first(nfd_chars(c).filter(|m: char| !nonspacing_mark(m)))
}

/// The character before position `i` of `s`, if any.
pub open spec fn prev_of(s: Seq<char>, i: int) -> Option<char> {
    if 0 < i <= s.len() {
        Some(s[i - 1])
    } else {
        None
    }
}

/// The per-character result of one transformation, where `prev` is the
/// character standing just before the one considered, if any: lowercasing
/// keeps the first character of the lowercase conversion; diacritic removal
/// keeps what `strip_char` leaves; whitespace collapsing drops a whitespace
/// character that follows another whitespace character.
pub open spec fn stage_char(opt: PreprocessingOption, prev: Option<char>, c: char) -> Option<
    char,
> {
    match opt {
        PreprocessingOption::Lowercase => lower_first(c),
        PreprocessingOption::RemoveDiacritics => strip_char(c),
        PreprocessingOption::NormalizeWhitespace => {
            if prev matches Some(p) && whitespace_char(p) && whitespace_char(c) {
                None
            } else {
                Some(c)
            }
        },
    }
}

pub open spec fn opt_to_seq(o: Option<char>) -> Seq<char> {
    match o {
        Some(c) => seq![c],
        None => Seq::empty(),
    }
}

/// The text that one transformation makes of the first `n` characters of `s`.
pub open spec fn stage_text_prefix(opt: PreprocessingOption, s: Seq<char>, n: int) -> Seq<char>
    decreases n,
{
    if n <= 0 {
        Seq::empty()
    } else {
        stage_text_prefix(opt, s, n - 1) + opt_to_seq(
            stage_char(opt, prev_of(s, n - 1), s[n - 1]),
        )
    }
}

/// The text that one transformation makes of `s`.
pub open spec fn stage_text(opt: PreprocessingOption, s: Seq<char>) -> Seq<char> {
    stage_text_prefix(opt, s, s.len() as int)
}

/// The breakpoints recorded while consuming the first `n` characters of `s`:
/// every character that produces output records, at the current offset where
/// its output begins, the original offset that the previous table `prev`
/// holds for the boundary at which the character was consumed.
pub open spec fn stage_entries_prefix(
    opt: PreprocessingOption,
    s: Seq<char>,
    prev: Seq<(usize, usize)>,
    n: int,
) -> Seq<(usize, usize)>
    decreases n,
{
    if n <= 0 {
        Seq::empty()
    } else {
        let rest = stage_entries_prefix(opt, s, prev, n - 1);
        if stage_char(opt, prev_of(s, n - 1), s[n - 1]) is Some {
            rest.push(((byte_len(stage_text_prefix(opt, s, n - 1)) as usize), prev[n - 1].1))
        } else {
            rest
        }
    }
}

/// The full table after one transformation: one breakpoint per produced
/// character, and the sentinel boundary mapping to the end of the original
/// text (at byte length `orig_bytes`).
pub open spec fn stage_mapping(
    opt: PreprocessingOption,
    s: Seq<char>,
    prev: Seq<(usize, usize)>,
    orig_bytes: int,
) -> Seq<(usize, usize)> {
    stage_entries_prefix(opt, s, prev, s.len() as int).push(
        ((byte_len(stage_text(opt, s)) as usize), (orig_bytes as usize)),
    )
}

/// Text and table after applying `opts`, in order, to a positioned text with
/// current text `s` and table `m`, over an original of byte length
/// `orig_bytes`.
pub open spec fn pipeline_state(
    opts: Seq<PreprocessingOption>,
    s: Seq<char>,
    m: Seq<(usize, usize)>,
    orig_bytes: int,
) -> (Seq<char>, Seq<(usize, usize)>)
    decreases opts.len(),
{
    if opts.len() == 0 {
        (s, m)
    } else {
        let (t, mm) = pipeline_state(opts.drop_last(), s, m, orig_bytes);
        (stage_text(opts.last(), t), stage_mapping(opts.last(), t, mm, orig_bytes))
    }
}


/// Shape of the breakpoints recorded by one transformation over the first
/// `n` characters: one per produced character, keyed by the byte offset where
/// that character's output begins, with original offsets that never decrease
/// and never pass the end of the original text.
proof fn lemma_stage_entries_wf(
    opt: PreprocessingOption,
    orig: Seq<char>,
    s: Seq<char>,
    prev: Seq<(usize, usize)>,
    n: int,
)
    requires
        wf_state(orig, s, prev),
        0 <= n <= s.len(),
    ensures
        stage_entries_prefix(opt, s, prev, n).len() == stage_text_prefix(opt, s, n).len(),
        stage_text_prefix(opt, s, n).len() <= n,
        forall|j: int|
            0 <= j < stage_entries_prefix(opt, s, prev, n).len()
                ==> (#[trigger] stage_entries_prefix(opt, s, prev, n)[j]).0 == byte_len(
                stage_text_prefix(opt, s, n).take(j),
            ),
        forall|j: int, k: int|
            0 <= j <= k < stage_entries_prefix(opt, s, prev, n).len()
                ==> (#[trigger] stage_entries_prefix(opt, s, prev, n)[j]).1
                <= (#[trigger] stage_entries_prefix(opt, s, prev, n)[k]).1,
        forall|j: int|
            0 <= j < stage_entries_prefix(opt, s, prev, n).len()
                ==> (#[trigger] stage_entries_prefix(opt, s, prev, n)[j]).1 <= byte_len(orig),
        n > 0 && stage_entries_prefix(opt, s, prev, n).len() > 0
            ==> stage_entries_prefix(opt, s, prev, n).last().1 <= prev[n - 1].1,
    decreases n,
{
    if n > 0 {
        lemma_stage_entries_wf(opt, orig, s, prev, n - 1);
        let rest = stage_entries_prefix(opt, s, prev, n - 1);
        let rtext = stage_text_prefix(opt, s, n - 1);
        let e = stage_entries_prefix(opt, s, prev, n);
        let t = stage_text_prefix(opt, s, n);
        if n - 1 > 0 && rest.len() > 0 {
            assert(prev[n - 2].1 <= prev[n - 1].1);
        }
        match stage_char(opt, prev_of(s, n - 1), s[n - 1]) {
            Some(c2) => {
                assert(t =~= rtext.push(c2));
                assert(e == rest.push(((byte_len(rtext) as usize), prev[n - 1].1)));
                lemma_byte_len_bounds(rtext);
                assert(0 <= byte_len(rtext) <= 4 * rtext.len());
                assert(4 * rtext.len() <= 4 * orig.len() <= usize::MAX);
                assert((byte_len(rtext) as usize) == byte_len(rtext));
                assert forall|j: int| 0 <= j < e.len() implies (#[trigger] e[j]).0 == byte_len(
                    t.take(j),
                ) by {
                    if j < rest.len() {
                        assert(e[j] == rest[j]);
                        assert(t.take(j) =~= rtext.take(j));
                    } else {
                        assert(j == rest.len());
                        assert(t.take(j) =~= rtext);
                    }
                }
            },
            None => {
                assert(t =~= rtext);
                assert(e == rest);
                assert forall|j: int| 0 <= j < e.len() implies (#[trigger] e[j]).0 == byte_len(
                    t.take(j),
                ) by {
                    assert(t.take(j) =~= rtext.take(j));
                }
            },
        }
    }
}

/// What diacritic removal makes of one character, matching `strip_char`.
fn strip_diacritics_char(c: char) -> (r: Option<char>)
    ensures
        r == strip_char(c),
{
    let ds = nfd_of(c);
    let mut kept: Vec<char> = Vec::new();
    let mut i: usize = 0;
    while i < ds.len()
        invariant
            i <= ds.len(),
            ds@ == nfd_chars(c),
            kept@ == nfd_chars(c).take(i as int).filter(|m: char| !nonspacing_mark(m)),
        decreases ds.len() - i,
    {
        let d = ds[i];
        proof {
            let pred = |m: char| !nonspacing_mark(m);
            let taken = nfd_chars(c).take(i as int);
            assert(nfd_chars(c).take(i + 1) =~= taken.push(d));
            taken.lemma_filter_push(d, pred);
        }
        if !is_nonspacing_mark(d) {
            kept.push(d);
        }
        i += 1;
    }
    proof {
        assert(nfd_chars(c).take(ds@.len() as int) =~= nfd_chars(c));
    }
    nfc_first_of(&kept)
}

/// Apply one transformation to `input`: walk its current text once, emit the
/// per-character results, and record a breakpoint for every produced
/// character by resolving the consumed boundary through the previous table.
fn apply_stage(opt: PreprocessingOption, input: PreprocessedInput) -> (r: PreprocessedInput)
    ensures
        r.original() == input.original(),
        r.current() == stage_text(opt, input.current()),
        r.mapping() == stage_mapping(opt, input.current(), input.mapping(), byte_len(input.original())),
        wf_state(r.original(), r.current(), r.mapping()),
{
    proof {
        use_type_invariant(&input);
    }
    let PreprocessedInput { original_input, preprocessed_input, byte_mapping } = input;
    let ghost orig = original_input@;
    let ghost cur = preprocessed_input@;
    let ghost prevm = byte_mapping@;
    let s = chars_of(preprocessed_input.as_str());
    let mut out: Vec<char> = Vec::new();
    let mut entries: Vec<(usize, usize)> = Vec::new();
    let mut out_cursor: usize = 0;
    let mut i: usize = 0;
    while i < s.len()
        invariant
            wf_state(orig, cur, prevm),
            s@ == cur,
            byte_mapping@ == prevm,
            original_input@ == orig,
            i <= s.len(),
            out@ == stage_text_prefix(opt, cur, i as int),
            entries@ == stage_entries_prefix(opt, cur, prevm, i as int),
            out_cursor == byte_len(out@),
            out@.len() <= i,
        decreases s.len() - i,
    {
        let c = s[i];
        let oc: Option<char> = match opt {
            PreprocessingOption::Lowercase => lower_first_char(c),
            PreprocessingOption::RemoveDiacritics => strip_diacritics_char(c),
            PreprocessingOption::NormalizeWhitespace => {
                if i > 0 && is_whitespace_char(s[i - 1]) && is_whitespace_char(c) {
                    None
                } else {
                    Some(c)
                }
            },
        };
        proof {
            assert(oc == stage_char(opt, prev_of(cur, i as int), cur[i as int]));
        }
        match oc {
            Some(c2) => {
                let v = byte_mapping[i].1;
                entries.push((out_cursor, v));
                proof {
                    lemma_byte_len_push(out@, c2);
                    lemma_byte_len_bounds(out@.push(c2));
                    assert((byte_len(stage_text_prefix(opt, cur, i as int)) as usize)
                        == out_cursor);
                }
                out.push(c2);
                let w = utf8_len(c2);
                proof {
                    assert(stage_text_prefix(opt, cur, i + 1) =~= out@);
                    assert(stage_entries_prefix(opt, cur, prevm, i + 1) == entries@);
                }
                out_cursor = out_cursor + w;
            },
            None => {
                proof {
                    assert(stage_text_prefix(opt, cur, i + 1) =~= out@);
                    assert(stage_entries_prefix(opt, cur, prevm, i + 1) == entries@);
                }
            },
        }
        i += 1;
    }
    let ob = original_input.as_str().len();
    proof {
        lemma_byte_len_is_encoding_len(orig);
        lemma_byte_len_bounds(orig);
        assert(ob == byte_len(orig));
    }
    entries.push((out_cursor, ob));
    proof {
        assert(cur.len() == s@.len());
        assert(out@ == stage_text(opt, cur));
        assert(entries@ == stage_mapping(opt, cur, prevm, byte_len(orig)));
        lemma_stage_entries_wf(opt, orig, cur, prevm, cur.len() as int);
        let e = entries@;
        let t = out@;
        assert forall|j: int| 0 <= j < e.len() implies (#[trigger] e[j]).0 == byte_len(
            t.take(j),
        ) by {
            if j < e.len() - 1 {
                assert(e[j] == stage_entries_prefix(opt, cur, prevm, cur.len() as int)[j]);
            } else {
                assert(t.take(j) =~= t);
            }
        }
        assert(wf_state(orig, out@, entries@));
    }
    PreprocessedInput {
        original_input,
        preprocessed_input: string_of(&out),
        byte_mapping: entries,
    }
}


/// Lowercase each character of the current text, keeping only the first
/// character where the conversion would expand into several, and recompute
/// the breakpoint table through the previous one.
pub fn lowercase(input: PreprocessedInput) -> (r: PreprocessedInput)
    ensures
        r.original() == input.original(),
        r.current() == stage_text(PreprocessingOption::Lowercase, input.current()),
        r.mapping() == stage_mapping(
            PreprocessingOption::Lowercase,
            input.current(),
            input.mapping(),
            byte_len(input.original()),
        ),
        wf_state(r.original(), r.current(), r.mapping()),
{
    apply_stage(PreprocessingOption::Lowercase, input)
}

/// Remove diacritics: canonically decompose each character, drop its
/// nonspacing marks, recompose the remainder, and recompute the breakpoint
/// table through the previous one. A character that was nothing but a mark
/// vanishes yet leaves the neighboring boundaries intact.
pub fn remove_diacritics(input: PreprocessedInput) -> (r: PreprocessedInput)
    ensures
        r.original() == input.original(),
        r.current() == stage_text(PreprocessingOption::RemoveDiacritics, input.current()),
        r.mapping() == stage_mapping(
            PreprocessingOption::RemoveDiacritics,
            input.current(),
            input.mapping(),
            byte_len(input.original()),
        ),
        wf_state(r.original(), r.current(), r.mapping()),
{
    apply_stage(PreprocessingOption::RemoveDiacritics, input)
}

/// Collapse every run of consecutive whitespace characters to its first
/// character, and recompute the breakpoint table through the previous one.
pub fn normalize_whitespace(input: PreprocessedInput) -> (r: PreprocessedInput)
    ensures
        r.original() == input.original(),
        r.current() == stage_text(PreprocessingOption::NormalizeWhitespace, input.current()),
        r.mapping() == stage_mapping(
            PreprocessingOption::NormalizeWhitespace,
            input.current(),
            input.mapping(),
            byte_len(input.original()),
        ),
        wf_state(r.original(), r.current(), r.mapping()),
{
    apply_stage(PreprocessingOption::NormalizeWhitespace, input)
}

impl PreprocessingOption {
    /// Apply this transformation to a positioned text.
    pub fn run(&self, input: PreprocessedInput) -> (r: PreprocessedInput)
        ensures
            r.original() == input.original(),
            r.current() == stage_text(*self, input.current()),
            r.mapping() == stage_mapping(
                *self,
                input.current(),
                input.mapping(),
                byte_len(input.original()),
            ),
            wf_state(r.original(), r.current(), r.mapping()),
    {
        match self {
            PreprocessingOption::NormalizeWhitespace => normalize_whitespace(input),
            PreprocessingOption::Lowercase => lowercase(input),
            PreprocessingOption::RemoveDiacritics => remove_diacritics(input),
        }
    }
}

/// An ordered list of transformations; duplicates are allowed and each
/// occurrence is applied in turn.
#[derive(Clone, Debug)]
pub struct PreprocessingOptions(Vec<PreprocessingOption>);

impl View for PreprocessingOptions {
    type V = Seq<PreprocessingOption>;

    closed spec fn view(&self) -> Seq<PreprocessingOption> {
        self.0@
    }
}

impl PreprocessingOptions {
    /// Wrap an ordered list of transformations.
    pub fn new(options: Vec<PreprocessingOption>) -> (r: PreprocessingOptions)
        ensures
            r@ == options@,
    {
        PreprocessingOptions(options)
    }

    /// Seed a positioned text from `input` and apply every transformation of
    /// the list, in order, each one resolving its offsets through the table
    /// of the stage before it.
    pub fn run(&self, input: &str) -> (r: PreprocessedInput)
        requires
            4 * input@.len() <= usize::MAX,
        ensures
            r.original() == input@,
            (r.current(), r.mapping()) == pipeline_state(
                self@,
                input@,
                identity_mapping(input@),
                byte_len(input@),
            ),
            wf_state(r.original(), r.current(), r.mapping()),
    {
        let mut pt = PreprocessedInput::no_preprocessing(input);
        proof {
            lemma_byte_len_is_encoding_len(input@);
        }
        let mut i: usize = 0;
        while i < self.0.len()
            invariant
                i <= self.0.len(),
                pt.original() == input@,
                (pt.current(), pt.mapping()) == pipeline_state(
                    self@.take(i as int),
                    input@,
                    identity_mapping(input@),
                    byte_len(input@),
                ),
                wf_state(pt.original(), pt.current(), pt.mapping()),
            decreases self.0.len() - i,
        {
            let o = self.0[i];
            pt = o.run(pt);
            proof {
                assert(self@.take(i + 1).drop_last() =~= self@.take(i as int));
                assert(self@.take(i + 1).last() == self@[i as int]);
            }
            i += 1;
        }
        proof {
            assert(self@.take(self.0@.len() as int) =~= self@);
        }
        pt
    }
}


/// Law: the empty configuration is the identity. Running no transformations
/// leaves the seeded text and table unchanged, and the identity table maps
/// the byte offset of every character boundary of the text (boundary index
/// `i`, the sentinel included) to itself.
pub proof fn lemma_empty_configuration_identity(
    opts: Seq<PreprocessingOption>,
    s: Seq<char>,
    orig_bytes: int,
    i: int,
)
    requires
        opts.len() == 0,
        4 * s.len() <= usize::MAX,
        0 <= i <= s.len(),
    ensures
        pipeline_state(opts, s, identity_mapping(s), orig_bytes).0 == s,
        pipeline_state(opts, s, identity_mapping(s), orig_bytes).1 == identity_mapping(s),
        entries_contain_key(identity_mapping(s), (byte_len(s.take(i)) as usize)),
        entries_value(identity_mapping(s), (byte_len(s.take(i)) as usize)) == byte_len(
            s.take(i),
        ),
{
    let m = identity_mapping(s);
    lemma_byte_len_bounds(s.take(i));
    assert(s.take(i).len() <= s.len());
    assert(0 <= byte_len(s.take(i)) <= usize::MAX);
    let k = (byte_len(s.take(i)) as usize);
    assert(m[i].0 == k);
    assert(entries_contain_key(m, k));
    assert forall|t: int| 0 <= t < i implies (#[trigger] m[t]).0 != k by {
        lemma_byte_len_bounds(s.take(t));
        lemma_byte_len_take_lt(s, t, i);
        assert(m[t].0 == (byte_len(s.take(t)) as usize));
    }
    lemma_entries_value_first(m, k, i);
    assert(m[i].1 == k);
}


} // verus!
