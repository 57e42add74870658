//! The mathematical model of the splitter.
//!
//! Every executable function of the library is proved equal to one of the
//! spec functions below. Texts are sequences of characters; a segmentation is
//! a sequence of such sequences. Literal matching (`lit_*`) is spelled out in
//! full: the leftmost occurrence is taken, then the scan continues after its
//! end, so occurrences never overlap. Regex matching in general is named, not
//! spelled out, by the uninterpreted functions of [`crate::matching`].

use vstd::prelude::*;
use crate::matching::{regex_gaps, regex_hits};

verus! {

/// The position of the first occurrence of `pat` in `text` at or after
/// `from`, if any. An empty pattern has no occurrence here; the splitter
/// treats it separately, as a split between every character.
pub open spec fn lit_find(pat: Seq<char>, text: Seq<char>, from: int) -> Option<int>
    decreases text.len() - from,
{
    if pat.len() <= 0 {
        None
    } else if from + pat.len() > text.len() {
        None
    } else if text.subrange(from, from + pat.len()) == pat {
        Some(from)
    } else {
        lit_find(pat, text, from + 1)
    }
}

/// The successive non-overlapping occurrences of `pat` in `text`, scanning
/// left to right from `from`; each one is a copy of `pat` itself.
pub open spec fn lit_hits_from(pat: Seq<char>, text: Seq<char>, from: int) -> Seq<Seq<char>>
    decreases text.len() - from,
        via lit_hits_from_decreases
{
    match lit_find(pat, text, from) {
        None => Seq::empty(),
        Some(j) => seq![text.subrange(j, j + pat.len())] + lit_hits_from(pat, text, j + pat.len()),
    }
}

#[via_fn]
proof fn lit_hits_from_decreases(pat: Seq<char>, text: Seq<char>, from: int) {
    lemma_lit_find_some(pat, text, from);
}

/// What `lit_find` promises of a found position.
pub proof fn lemma_lit_find_some(pat: Seq<char>, text: Seq<char>, from: int)
    ensures
        lit_find(pat, text, from) matches Some(j) ==> from <= j && j + pat.len() <= text.len()
            && pat.len() > 0 && text.subrange(j, j + pat.len()) == pat,
    decreases text.len() - from,
{
    if pat.len() > 0 && from + pat.len() <= text.len()
        && text.subrange(from, from + pat.len()) != pat {
        lemma_lit_find_some(pat, text, from + 1);
    }
}

/// The successive non-overlapping occurrences of `pat` in `text`; each one
/// is a copy of `pat` itself.
pub open spec fn lit_hits(pat: Seq<char>, text: Seq<char>) -> Seq<Seq<char>> {
    lit_hits_from(pat, text, 0)
}

/// The parts of `text` between the successive occurrences of `pat`, scanning
/// from `from`: one part before each occurrence and one after the last.
pub open spec fn lit_gaps_from(pat: Seq<char>, text: Seq<char>, from: int) -> Seq<Seq<char>>
    decreases text.len() - from,
        via lit_gaps_from_decreases
{
    match lit_find(pat, text, from) {
        None => seq![text.subrange(from, text.len() as int)],
        Some(j) => seq![text.subrange(from, j)] + lit_gaps_from(pat, text, j + pat.len()),
    }
}

#[via_fn]
proof fn lit_gaps_from_decreases(pat: Seq<char>, text: Seq<char>, from: int) {
    lemma_lit_find_some(pat, text, from);
}

/// The parts of `text` between the successive occurrences of `pat`.
pub open spec fn lit_gaps(pat: Seq<char>, text: Seq<char>) -> Seq<Seq<char>> {
    lit_gaps_from(pat, text, 0)
}

/// `gaps` and `hits` alternated, starting with `gaps`: the order in which a
/// separator-keeping segmentation lays its parts out.
pub open spec fn interleave(gaps: Seq<Seq<char>>, hits: Seq<Seq<char>>) -> Seq<Seq<char>> {
    Seq::new(
        gaps.len() + hits.len(),
        |k: int| if k % 2 == 0 { gaps[k / 2] } else { hits[(k - 1) / 2] },
    )
}

/// One single-character part per character of `text`.
pub open spec fn char_parts(text: Seq<char>) -> Seq<Seq<char>> {
    Seq::new(text.len(), |i: int| seq![text[i]])
}

/// `parts` without its empty entries.
pub open spec fn keep_nonempty(parts: Seq<Seq<char>>) -> Seq<Seq<char>> {
    parts.filter(|p: Seq<char>| p.len() != 0)
}

/// Length of `parts` once joined with a separator of length `sep_len`: the
/// sum of the part lengths plus one separator between consecutive parts.
pub open spec fn total_of(parts: Seq<Seq<char>>, sep_len: int) -> int
    decreases parts.len(),
{
    if parts.len() == 0 {
        0
    } else if parts.len() == 1 {
        parts[0].len() as int
    } else {
        parts[0].len() + sep_len + total_of(parts.drop_first(), sep_len)
    }
}

/// A joined length is never negative.
pub proof fn lemma_total_of_nonneg(parts: Seq<Seq<char>>, sep_len: int)
    requires
        sep_len >= 0,
    ensures
        total_of(parts, sep_len) >= 0,
    decreases parts.len(),
{
    if parts.len() > 1 {
        lemma_total_of_nonneg(parts.drop_first(), sep_len);
    }
}

/// What one more part adds to a joined length.
pub proof fn lemma_total_of_push(parts: Seq<Seq<char>>, sep_len: int, x: Seq<char>)
    ensures
        total_of(parts.push(x), sep_len) == total_of(parts, sep_len) + x.len() + if parts.len()
            > 0 {
            sep_len
        } else {
            0
        },
    decreases parts.len(),
{
    if parts.len() == 0 {
        assert(total_of(parts.push(x), sep_len) == parts.push(x)[0].len() as int);
    } else {
        lemma_total_of_push(parts.drop_first(), sep_len, x);
        assert(parts.push(x).drop_first() =~= parts.drop_first().push(x));
    }
}

/// `parts` joined with `sep` between consecutive parts.
pub open spec fn join_parts(parts: Seq<Seq<char>>, sep: Seq<char>) -> Seq<char>
    decreases parts.len(),
{
    if parts.len() == 0 {
        Seq::empty()
    } else if parts.len() == 1 {
        parts[0]
    } else {
        parts[0] + sep + join_parts(parts.drop_first(), sep)
    }
}

/// The characters with the Unicode `White_Space` property, the ones a
/// whitespace trim removes.
pub open spec fn is_space_char(c: char) -> bool {
    let u = c as u32;
    (0x9 <= u && u <= 0xD) || u == 0x20 || u == 0x85 || u == 0xA0 || u == 0x1680
        || (0x2000 <= u && u <= 0x200A) || u == 0x2028 || u == 0x2029 || u == 0x202F
        || u == 0x205F || u == 0x3000
}

/// How many whitespace characters `s` begins with.
pub open spec fn leading_spaces(s: Seq<char>) -> int
    decreases s.len(),
{
    if s.len() == 0 {
        0
    } else if is_space_char(s[0]) {
        1 + leading_spaces(s.drop_first())
    } else {
        0
    }
}

/// How many whitespace characters `s` ends with.
pub open spec fn trailing_spaces(s: Seq<char>) -> int
    decreases s.len(),
{
    if s.len() == 0 {
        0
    } else if is_space_char(s.last()) {
        1 + trailing_spaces(s.drop_last())
    } else {
        0
    }
}

/// `s` with leading and trailing whitespace removed.
pub open spec fn trim_spec(s: Seq<char>) -> Seq<char> {
    if leading_spaces(s) == s.len() {
        Seq::empty()
    } else {
        s.subrange(leading_spaces(s), s.len() - trailing_spaces(s))
    }
}

/// The tunable parameters of one splitting pass, as pure values.
pub struct SplitParams {
    pub regex_mode: bool,
    pub keep_separator: bool,
    pub chunk_size: int,
    pub chunk_overlap: int,
    pub strip: bool,
}

/// The parts of `text` that a separator leaves between its matches.
pub open spec fn model_gaps(regex_mode: bool, sep: Seq<char>, text: Seq<char>) -> Seq<Seq<char>> {
    if regex_mode {
        regex_gaps(sep, text)
    } else {
        lit_gaps(sep, text)
    }
}

/// The matches of a separator in `text`.
pub open spec fn model_hits(regex_mode: bool, sep: Seq<char>, text: Seq<char>) -> Seq<Seq<char>> {
    if regex_mode {
        regex_hits(sep, text)
    } else {
        lit_hits(sep, text)
    }
}

/// Whether a separator occurs in `text` at all.
pub open spec fn model_occurs(regex_mode: bool, sep: Seq<char>, text: Seq<char>) -> bool {
    model_hits(regex_mode, sep, text).len() > 0
}

/// One segmentation pass: split `text` on `sep`, keeping the matched
/// separators as parts of their own when `keep` is set, one part per
/// character for the empty separator, and drop empty parts.
pub open spec fn model_segment(regex_mode: bool, sep: Seq<char>, keep: bool, text: Seq<char>) -> Seq<
    Seq<char>,
> {
    if sep.len() == 0 {
        char_parts(text)
    } else {
        let raw = if keep {
            interleave(model_gaps(regex_mode, sep, text), model_hits(regex_mode, sep, text))
        } else {
            model_gaps(regex_mode, sep, text)
        };
        keep_nonempty(raw)
    }
}

/// The separator the splitter picks for `text` and the lower-priority ones
/// kept for recursion: the first separator that is empty or occurs in the
/// text, or the last one as a fallback; the rest of the list after a
/// matching separator, the empty list otherwise.
pub open spec fn model_select(regex_mode: bool, seps: Seq<Seq<char>>, text: Seq<char>) -> (
    Seq<char>,
    Seq<Seq<char>>,
)
    decreases seps.len(),
{
    if seps.len() == 0 {
        (Seq::empty(), Seq::empty())
    } else {
        let sep = seps[0];
        if sep.len() == 0 {
            (sep, Seq::empty())
        } else if model_occurs(regex_mode, sep, text) {
            (sep, seps.drop_first())
        } else if seps.len() == 1 {
            (sep, Seq::empty())
        } else {
            model_select(regex_mode, seps.drop_first(), text)
        }
    }
}

/// The window the merger keeps after flushing a chunk: parts are dropped
/// from the front while the joined length stays above the overlap budget, or
/// while the next part of length `next_len` would still not fit in a chunk.
pub open spec fn model_evict(
    cur: Seq<Seq<char>>,
    sep_len: int,
    size: int,
    overlap: int,
    next_len: int,
) -> Seq<Seq<char>>
    decreases cur.len(),
{
    let total = total_of(cur, sep_len);
    let extra: int = if cur.len() > 0 { sep_len } else { 0 };
    if cur.len() > 0 && (total > overlap || (total + next_len + extra > size && total > 0)) {
        model_evict(cur.drop_first(), sep_len, size, overlap, next_len)
    } else {
        cur
    }
}

/// A flushed chunk: the buffered parts joined, trimmed when `strip` is set,
/// and dropped entirely when that leaves nothing.
pub open spec fn model_join_docs(parts: Seq<Seq<char>>, sep: Seq<char>, strip: bool) -> Option<
    Seq<char>,
> {
    let joined = join_parts(parts, sep);
    let kept = if strip {
        trim_spec(joined)
    } else {
        joined
    };
    if kept.len() == 0 {
        None
    } else {
        Some(kept)
    }
}

/// The merger's walk from part `i` on, carrying the chunks already emitted
/// and the window of buffered parts.
pub open spec fn model_merge_loop(
    segs: Seq<Seq<char>>,
    i: int,
    docs: Seq<Seq<char>>,
    cur: Seq<Seq<char>>,
    sep: Seq<char>,
    size: int,
    overlap: int,
    strip: bool,
) -> Seq<Seq<char>>
    decreases segs.len() - i,
{
    if i < 0 || i >= segs.len() {
        match model_join_docs(cur, sep, strip) {
            Some(d) => docs.push(d),
            None => docs,
        }
    } else {
        let d = segs[i];
        let sl = sep.len() as int;
        let total = total_of(cur, sl);
        let extra: int = if cur.len() > 0 { sl } else { 0 };
        if total + d.len() + extra > size {
            if cur.len() > 0 {
                let docs2 = match model_join_docs(cur, sep, strip) {
                    Some(x) => docs.push(x),
                    None => docs,
                };
                let cur2 = model_evict(cur, sl, size, overlap, d.len() as int);
                model_merge_loop(segs, i + 1, docs2, cur2.push(d), sep, size, overlap, strip)
            } else {
                model_merge_loop(segs, i + 1, docs, seq![d], sep, size, overlap, strip)
            }
        } else {
            model_merge_loop(segs, i + 1, docs, cur.push(d), sep, size, overlap, strip)
        }
    }
}

/// The merger's walk from part `i` on, tracking the run of buffered parts
/// behind each flushed chunk instead of the chunk text: the same recursion
/// as [`model_merge_loop`], with each flushed buffer recorded whole.
pub open spec fn model_merge_runs_loop(
    segs: Seq<Seq<char>>,
    i: int,
    runs: Seq<Seq<Seq<char>>>,
    cur: Seq<Seq<char>>,
    sep: Seq<char>,
    size: int,
    overlap: int,
) -> Seq<Seq<Seq<char>>>
    decreases segs.len() - i,
{
    if i < 0 || i >= segs.len() {
        if cur.len() > 0 {
            runs.push(cur)
        } else {
            runs
        }
    } else {
        let d = segs[i];
        let sl = sep.len() as int;
        let total = total_of(cur, sl);
        let extra: int = if cur.len() > 0 {
            sl
        } else {
            0
        };
        if total + d.len() + extra > size {
            if cur.len() > 0 {
                let cur2 = model_evict(cur, sl, size, overlap, d.len() as int);
                model_merge_runs_loop(segs, i + 1, runs.push(cur), cur2.push(d), sep, size, overlap)
            } else {
                model_merge_runs_loop(segs, i + 1, runs, seq![d], sep, size, overlap)
            }
        } else {
            model_merge_runs_loop(segs, i + 1, runs, cur.push(d), sep, size, overlap)
        }
    }
}

/// The runs of buffered parts behind the merger's chunks: when no part is
/// empty and nothing is trimmed, the merger emits exactly one chunk per
/// run, the join of that run.
pub open spec fn model_merge_runs(
    segs: Seq<Seq<char>>,
    sep: Seq<char>,
    size: int,
    overlap: int,
) -> Seq<Seq<Seq<char>>> {
    model_merge_runs_loop(segs, 0, Seq::empty(), Seq::empty(), sep, size, overlap)
}

/// The merger: pack `segs`, in order, into chunks of joined length at most
/// `size`, carrying at most `overlap` of window from one chunk into the next.
pub open spec fn model_merge(
    segs: Seq<Seq<char>>,
    sep: Seq<char>,
    size: int,
    overlap: int,
    strip: bool,
) -> Seq<Seq<char>> {
    model_merge_loop(segs, 0, Seq::empty(), Seq::empty(), sep, size, overlap, strip)
}

/// The recursive splitter on `text` with the separator hierarchy `seps`.
pub open spec fn model_split(p: SplitParams, text: Seq<char>, seps: Seq<Seq<char>>) -> Seq<
    Seq<char>,
>
    decreases seps.len(), 0int, 0int,
{
    let selected = model_select(p.regex_mode, seps, text);
    let segs = model_segment(p.regex_mode, selected.0, p.keep_separator, text);
    let join_sep: Seq<char> = if p.keep_separator {
        Seq::empty()
    } else {
        selected.0
    };
    if selected.1.len() < seps.len() {
        model_split_walk(p, segs, 0, selected.1, join_sep, Seq::empty(), Seq::empty())
    } else {
        // never reached: the tail the selection returns is always shorter
        Seq::empty()
    }
}

/// The splitter's walk over one segmentation: parts smaller than the chunk
/// size gather in `pending` and go through the merger; a part at or above
/// the chunk size first flushes `pending`, then is recursed into with the
/// remaining separators, or emitted whole when none are left.
pub open spec fn model_split_walk(
    p: SplitParams,
    segs: Seq<Seq<char>>,
    i: int,
    tail: Seq<Seq<char>>,
    join_sep: Seq<char>,
    chunks: Seq<Seq<char>>,
    pending: Seq<Seq<char>>,
) -> Seq<Seq<char>>
    decreases tail.len(), 1int, segs.len() - i,
{
    if i < 0 || i >= segs.len() {
        if pending.len() > 0 {
            chunks + model_merge(pending, join_sep, p.chunk_size, p.chunk_overlap, p.strip)
        } else {
            chunks
        }
    } else {
        let s = segs[i];
        if s.len() < p.chunk_size {
            model_split_walk(p, segs, i + 1, tail, join_sep, chunks, pending.push(s))
        } else {
            let flushed = if pending.len() > 0 {
                chunks + model_merge(pending, join_sep, p.chunk_size, p.chunk_overlap, p.strip)
            } else {
                chunks
            };
            let grown = if tail.len() == 0 {
                flushed.push(s)
            } else {
                flushed + model_split(p, s, tail)
            };
            model_split_walk(p, segs, i + 1, tail, join_sep, grown, Seq::empty())
        }
    }
}

/// The separator hierarchy used when none is given: paragraph, line, word,
/// character.
pub open spec fn default_separators() -> Seq<Seq<char>> {
    seq!["\n\n"@, "\n"@, " "@, ""@]
}

} // verus!
