//! The laws of the splitter, stated over the model of [`crate::model`] and
//! proved once and for all: determinism, the bound on the overlap window,
//! the size bound on chunks, and coverage of the input text.

use vstd::prelude::*;
use crate::model::{
    char_parts, interleave, join_parts, keep_nonempty, lemma_lit_find_some, lemma_total_of_nonneg,
    lemma_total_of_push, lit_find, lit_gaps, lit_gaps_from, lit_hits, lit_hits_from, model_evict,
    model_join_docs, model_merge, model_merge_loop, model_merge_runs, model_merge_runs_loop,
    model_occurs, model_segment, model_select, model_split, model_split_walk, total_of, trim_spec,
    SplitParams,
};
use crate::text::{lemma_join_parts_push, lemma_leading_spaces, lemma_trailing_spaces};

verus! {

/// Whether every part of `parts` holds at least one character.
pub open spec fn all_nonempty(parts: Seq<Seq<char>>) -> bool {
    forall|j: int| 0 <= j < parts.len() ==> (#[trigger] parts[j]).len() > 0
}

/// Law: splitting is deterministic. Two chunk lists obtained from the same
/// text and the same configuration are equal; the model is a function, and
/// every executable splitting function returns exactly the model's value.
pub proof fn lemma_split_deterministic(
    p: SplitParams,
    text: Seq<char>,
    seps: Seq<Seq<char>>,
    r1: Seq<Seq<char>>,
    r2: Seq<Seq<char>>,
)
    requires
        r1 == model_split(p, text, seps),
        r2 == model_split(p, text, seps),
    ensures
        r1 == r2,
{
}

/// A joined length equals the length of the joined text.
pub proof fn lemma_total_matches_join(parts: Seq<Seq<char>>, sep: Seq<char>)
    ensures
        total_of(parts, sep.len() as int) == join_parts(parts, sep).len(),
    decreases parts.len(),
{
    if parts.len() > 1 {
        lemma_total_matches_join(parts.drop_first(), sep);
    }
}

/// Joining splits at any inner position: the parts before it, a separator,
/// the parts after it.
pub proof fn lemma_join_parts_decompose(parts: Seq<Seq<char>>, sep: Seq<char>, k: int)
    requires
        0 < k < parts.len(),
    ensures
        join_parts(parts, sep) == join_parts(parts.take(k), sep) + sep + join_parts(
            parts.skip(k),
            sep,
        ),
    decreases k,
{
    if k == 1 {
        assert(parts.take(1) =~= seq![parts[0]]);
        assert(parts.skip(1) =~= parts.drop_first());
        assert(join_parts(parts.take(1), sep) == parts[0]);
    } else {
        lemma_join_parts_decompose(parts.drop_first(), sep, k - 1);
        assert(parts.drop_first().take(k - 1) =~= parts.take(k).drop_first());
        assert(parts.drop_first().skip(k - 1) =~= parts.skip(k));
        assert(parts.take(k)[0] == parts[0]);
        assert(join_parts(parts.take(k), sep) == parts[0] + sep + join_parts(
            parts.take(k).drop_first(),
            sep,
        ));
        assert((parts[0] + sep + join_parts(parts.take(k).drop_first(), sep)) + sep + join_parts(
            parts.skip(k),
            sep,
        ) =~= parts[0] + sep + (join_parts(parts.take(k).drop_first(), sep) + sep + join_parts(
            parts.skip(k),
            sep,
        )));
    }
}

/// Law: the overlap budget is respected. Whatever window the merger keeps
/// after a flush, its joined length is at most `overlap`, so at most
/// `overlap` characters are carried from one chunk into the next.
pub proof fn lemma_evict_window_bounded(
    cur: Seq<Seq<char>>,
    sep_len: int,
    size: int,
    overlap: int,
    next_len: int,
)
    requires
        sep_len >= 0,
        overlap >= 0,
    ensures
        total_of(model_evict(cur, sep_len, size, overlap, next_len), sep_len) <= overlap,
    decreases cur.len(),
{
    let total = total_of(cur, sep_len);
    let extra: int = if cur.len() > 0 {
        sep_len
    } else {
        0
    };
    if cur.len() > 0 && (total > overlap || (total + next_len + extra > size && total > 0)) {
        lemma_evict_window_bounded(cur.drop_first(), sep_len, size, overlap, next_len);
    }
}

/// A buffer of parts with content joins to a positive length.
pub proof fn lemma_total_positive(parts: Seq<Seq<char>>, sep_len: int)
    requires
        sep_len >= 0,
        parts.len() > 0,
        all_nonempty(parts),
    ensures
        total_of(parts, sep_len) > 0,
{
    lemma_total_of_nonneg(parts.drop_first(), sep_len);
}

/// With no overlap budget, eviction drains the whole buffer.
pub proof fn lemma_evict_drains(cur: Seq<Seq<char>>, sep_len: int, size: int, next_len: int)
    requires
        sep_len >= 0,
        all_nonempty(cur),
    ensures
        model_evict(cur, sep_len, size, 0, next_len) == Seq::<Seq<char>>::empty(),
    decreases cur.len(),
{
    if cur.len() > 0 {
        lemma_total_positive(cur, sep_len);
        lemma_evict_drains(cur.drop_first(), sep_len, size, next_len);
    } else {
        assert(model_evict(cur, sep_len, size, 0, next_len) =~= Seq::<Seq<char>>::empty());
    }
}

/// The merger's chunks-so-far together with one pseudo-chunk holding all
/// parts that are still to be packed.
pub open spec fn with_rest(docs: Seq<Seq<char>>, parts: Seq<Seq<char>>, sep: Seq<char>) -> Seq<
    Seq<char>,
> {
    if parts.len() > 0 {
        docs.push(join_parts(parts, sep))
    } else {
        docs
    }
}

/// Two chunks join like one chunk holding both: appending `a` then `b`
/// joins to the same text as appending `a + sep + b`.
proof fn lemma_join_glue(docs: Seq<Seq<char>>, a: Seq<char>, b: Seq<char>, sep: Seq<char>)
    ensures
        join_parts(docs.push(a).push(b), sep) == join_parts(docs.push(a + sep + b), sep),
{
    lemma_join_parts_push(docs.push(a), sep, b);
    lemma_join_parts_push(docs, sep, a);
    lemma_join_parts_push(docs, sep, a + sep + b);
    if docs.len() == 0 {
    } else {
        assert((join_parts(docs, sep) + sep + a) + sep + b =~= join_parts(docs, sep) + sep + (a
            + sep + b));
    }
}

/// The merger's walk keeps the joined text: whatever it has emitted plus
/// whatever it still buffers joins to the same text as before the step.
proof fn lemma_merge_loop_coverage(
    segs: Seq<Seq<char>>,
    i: int,
    docs: Seq<Seq<char>>,
    cur: Seq<Seq<char>>,
    sep: Seq<char>,
    size: int,
)
    requires
        0 <= i <= segs.len(),
        all_nonempty(segs),
        all_nonempty(cur),
    ensures
        join_parts(model_merge_loop(segs, i, docs, cur, sep, size, 0, false), sep) == join_parts(
            with_rest(docs, cur + segs.skip(i), sep),
            sep,
        ),
    decreases segs.len() - i,
{
    if i >= segs.len() {
        assert(segs.skip(i) =~= Seq::<Seq<char>>::empty());
        assert(cur + segs.skip(i) =~= cur);
        if cur.len() > 0 {
            lemma_total_positive(cur, sep.len() as int);
            lemma_total_matches_join(cur, sep);
            assert(model_join_docs(cur, sep, false) == Some(join_parts(cur, sep)));
        } else {
            assert(join_parts(cur, sep) =~= Seq::<char>::empty());
            assert(model_join_docs(cur, sep, false) is None);
        }
    } else {
        let d = segs[i];
        let sl = sep.len() as int;
        let total = total_of(cur, sl);
        let extra: int = if cur.len() > 0 {
            sl
        } else {
            0
        };
        assert(d.len() > 0);
        if total + d.len() + extra > size {
            if cur.len() > 0 {
                lemma_total_positive(cur, sl);
                lemma_total_matches_join(cur, sep);
                assert(model_join_docs(cur, sep, false) == Some(join_parts(cur, sep)));
                let docs2 = docs.push(join_parts(cur, sep));
                lemma_evict_drains(cur, sl, size, d.len() as int);
                let cur2 = model_evict(cur, sl, size, 0, d.len() as int);
                assert(cur2.push(d) =~= seq![d]);
                lemma_merge_loop_coverage(segs, i + 1, docs2, seq![d], sep, size);
                // both sides join equally: gluing the flushed chunk back on
                assert(seq![d] + segs.skip(i + 1) =~= segs.skip(i));
                lemma_join_glue(docs, join_parts(cur, sep), join_parts(segs.skip(i), sep), sep);
                assert(join_parts(cur + segs.skip(i), sep) == join_parts(cur, sep) + sep
                    + join_parts(segs.skip(i), sep)) by {
                    lemma_join_parts_decompose(cur + segs.skip(i), sep, cur.len() as int);
                    assert((cur + segs.skip(i)).take(cur.len() as int) =~= cur);
                    assert((cur + segs.skip(i)).skip(cur.len() as int) =~= segs.skip(i));
                }
            } else {
                assert(cur + segs.skip(i) =~= segs.skip(i));
                assert(seq![d] + segs.skip(i + 1) =~= segs.skip(i));
                lemma_merge_loop_coverage(segs, i + 1, docs, seq![d], sep, size);
            }
        } else {
            lemma_merge_loop_coverage(segs, i + 1, docs, cur.push(d), sep, size);
            assert(cur.push(d) + segs.skip(i + 1) =~= cur + segs.skip(i));
        }
    }
}

/// Law: coverage at the merger. With no overlap and no whitespace
/// stripping, the chunks the merger emits join, with the join separator,
/// back to exactly the joined input parts: undoing the join separator
/// reconstructs the segmented text.
pub proof fn lemma_merge_coverage(segs: Seq<Seq<char>>, sep: Seq<char>, size: int)
    requires
        all_nonempty(segs),
    ensures
        join_parts(model_merge(segs, sep, size, 0, false), sep) == join_parts(segs, sep),
{
    lemma_merge_loop_coverage(segs, 0, Seq::empty(), Seq::empty(), sep, size);
    assert(Seq::<Seq<char>>::empty() + segs.skip(0) =~= segs);
    if segs.len() > 0 {
        assert(with_rest(Seq::<Seq<char>>::empty(), segs, sep) =~= seq![join_parts(segs, sep)]);
        assert(join_parts(seq![join_parts(segs, sep)], sep) == join_parts(segs, sep));
    }
}

/// Trimming never lengthens a text.
pub proof fn lemma_trim_spec_shrinks(s: Seq<char>)
    ensures
        trim_spec(s).len() <= s.len(),
{
    lemma_leading_spaces(s);
    lemma_trailing_spaces(s);
    if crate::model::leading_spaces(s) < s.len() {
        let lead = crate::model::leading_spaces(s);
        let trail = crate::model::trailing_spaces(s);
        assert(lead <= s.len() - trail) by {
            if lead > s.len() - trail - 1 {
                assert(is_space_char_at(s, lead));
            }
        }
    }
}

/// Helper trigger shape for whitespace positions.
spec fn is_space_char_at(s: Seq<char>, i: int) -> bool {
    crate::model::is_space_char(s[i])
}

/// What eviction leaves always satisfies the loop's exit condition: the
/// window is within the overlap budget, and either the next part fits or
/// the window is empty.
proof fn lemma_evict_exit(cur: Seq<Seq<char>>, sep_len: int, size: int, overlap: int, next_len: int)
    requires
        sep_len >= 0,
        overlap >= 0,
    ensures
        ({
            let e = model_evict(cur, sep_len, size, overlap, next_len);
            let te = total_of(e, sep_len);
            te <= overlap && (te + next_len + (if e.len() > 0 {
                sep_len
            } else {
                0
            }) <= size || te <= 0)
        }),
    decreases cur.len(),
{
    let total = total_of(cur, sep_len);
    let extra: int = if cur.len() > 0 {
        sep_len
    } else {
        0
    };
    if cur.len() > 0 && (total > overlap || (total + next_len + extra > size && total > 0)) {
        lemma_evict_exit(cur.drop_first(), sep_len, size, overlap, next_len);
    }
}

/// Every chunk of a flushed buffer stays within the chunk size.
proof fn lemma_join_docs_bounded(cur: Seq<Seq<char>>, sep: Seq<char>, size: int, strip: bool)
    requires
        total_of(cur, sep.len() as int) <= size,
    ensures
        model_join_docs(cur, sep, strip) matches Some(x) ==> x.len() <= size,
{
    lemma_total_matches_join(cur, sep);
    lemma_trim_spec_shrinks(join_parts(cur, sep));
}

/// The merger's walk keeps every emitted chunk within the chunk size, as
/// long as every incoming part is below it.
proof fn lemma_merge_loop_size(
    segs: Seq<Seq<char>>,
    i: int,
    docs: Seq<Seq<char>>,
    cur: Seq<Seq<char>>,
    sep: Seq<char>,
    size: int,
    overlap: int,
    strip: bool,
)
    requires
        0 <= i <= segs.len(),
        overlap >= 0,
        all_nonempty(segs),
        forall|j: int| 0 <= j < segs.len() ==> (#[trigger] segs[j]).len() < size,
        all_nonempty(cur),
        forall|j: int| 0 <= j < cur.len() ==> (#[trigger] cur[j]).len() < size,
        total_of(cur, sep.len() as int) <= size,
        forall|j: int| 0 <= j < docs.len() ==> (#[trigger] docs[j]).len() <= size,
    ensures
        ({
            let out = model_merge_loop(segs, i, docs, cur, sep, size, overlap, strip);
            forall|j: int| 0 <= j < out.len() ==> (#[trigger] out[j]).len() <= size
        }),
    decreases segs.len() - i,
{
    let sl = sep.len() as int;
    if i >= segs.len() {
        lemma_join_docs_bounded(cur, sep, size, strip);
        let out = model_merge_loop(segs, i, docs, cur, sep, size, overlap, strip);
        match model_join_docs(cur, sep, strip) {
            Some(x) => {
                assert(out == docs.push(x));
                assert(x.len() <= size);
                assert forall|j: int| 0 <= j < out.len() implies (#[trigger] out[j]).len()
                    <= size by {
                    if j < docs.len() {
                        assert(out[j] == docs[j]);
                    } else {
                        assert(out[j] == x);
                    }
                }
            },
            None => {
                assert(out == docs);
            },
        }
    } else {
        let d = segs[i];
        let total = total_of(cur, sl);
        let extra: int = if cur.len() > 0 {
            sl
        } else {
            0
        };
        if total + d.len() + extra > size {
            if cur.len() > 0 {
                lemma_join_docs_bounded(cur, sep, size, strip);
                let docs2 = match model_join_docs(cur, sep, strip) {
                    Some(x) => docs.push(x),
                    None => docs,
                };
                let cur2 = model_evict(cur, sl, size, overlap, d.len() as int);
                lemma_evict_is_suffix(cur, sl, size, overlap, d.len() as int);
                let k = choose|k: int| 0 <= k <= cur.len() && cur2 == cur.skip(k);
                assert(forall|j: int|
                    0 <= j < cur2.len() ==> cur2[j] == cur[j + k] && (#[trigger] cur2[j]).len()
                        < size && cur2[j].len() > 0);
                lemma_evict_exit(cur, sl, size, overlap, d.len() as int);
                lemma_total_of_push(cur2, sl, d);
                if total_of(cur2, sl) <= 0 {
                    if cur2.len() > 0 {
                        lemma_total_positive(cur2, sl);
                    }
                    assert(cur2.len() == 0);
                }
                lemma_merge_loop_size(segs, i + 1, docs2, cur2.push(d), sep, size, overlap, strip);
                assert(model_merge_loop(segs, i, docs, cur, sep, size, overlap, strip)
                    == model_merge_loop(segs, i + 1, docs2, cur2.push(d), sep, size, overlap, strip));
            } else {
                lemma_merge_loop_size(segs, i + 1, docs, seq![d], sep, size, overlap, strip);
                assert(model_merge_loop(segs, i, docs, cur, sep, size, overlap, strip)
                    == model_merge_loop(segs, i + 1, docs, seq![d], sep, size, overlap, strip));
            }
        } else {
            lemma_total_of_push(cur, sl, d);
            lemma_merge_loop_size(segs, i + 1, docs, cur.push(d), sep, size, overlap, strip);
            assert(model_merge_loop(segs, i, docs, cur, sep, size, overlap, strip)
                == model_merge_loop(segs, i + 1, docs, cur.push(d), sep, size, overlap, strip));
        }
    }
}

/// Law: the size bound at the merger. When every part it is given is below
/// the chunk size, every chunk the merger emits has length at most the
/// chunk size.
pub proof fn lemma_merge_size_bound(
    segs: Seq<Seq<char>>,
    sep: Seq<char>,
    size: int,
    overlap: int,
    strip: bool,
)
    requires
        overlap >= 0,
        all_nonempty(segs),
        forall|j: int| 0 <= j < segs.len() ==> (#[trigger] segs[j]).len() < size,
    ensures
        ({
            let out = model_merge(segs, sep, size, overlap, strip);
            forall|j: int| 0 <= j < out.len() ==> (#[trigger] out[j]).len() <= size
        }),
{
    if segs.len() > 0 {
        assert(segs[0].len() < size);
        lemma_merge_loop_size(segs, 0, Seq::empty(), Seq::empty(), sep, size, overlap, strip);
    } else {
        let out = model_merge(segs, sep, size, overlap, strip);
        assert(join_parts(Seq::<Seq<char>>::empty(), sep) =~= Seq::<char>::empty());
        assert(trim_spec(Seq::<char>::empty()) =~= Seq::<char>::empty());
        assert(out == Seq::<Seq<char>>::empty());
    }
}

/// What the selection returns: a strictly shorter tail that still ends in
/// the hierarchy's last separator, and, when the hierarchy ends in the
/// empty separator, an empty tail only together with the empty separator.
pub proof fn lemma_model_select_props(rm: bool, seps: Seq<Seq<char>>, text: Seq<char>)
    requires
        seps.len() > 0,
    ensures
        ({
            let sel = model_select(rm, seps, text);
            &&& sel.1.len() < seps.len()
            &&& (sel.1.len() > 0 ==> sel.1[sel.1.len() - 1] == seps[seps.len() - 1])
            &&& (seps[seps.len() - 1].len() == 0 && sel.1.len() == 0 ==> sel.0.len() == 0)
        }),
    decreases seps.len(),
{
    let sep = seps[0];
    if sep.len() == 0 {
    } else if model_occurs(rm, sep, text) {
        assert(seps.drop_first().len() > 0 ==> seps.drop_first()[seps.drop_first().len() - 1]
            == seps[seps.len() - 1]);
    } else if seps.len() == 1 {
    } else {
        lemma_model_select_props(rm, seps.drop_first(), text);
        assert(seps.drop_first()[seps.drop_first().len() - 1] == seps[seps.len() - 1]);
    }
}

/// Everything a filter keeps satisfies its test: the segments a
/// segmentation pass hands on are all non-empty.
proof fn lemma_keep_nonempty_all(parts: Seq<Seq<char>>)
    ensures
        all_nonempty(keep_nonempty(parts)),
    decreases parts.len(),
{
    reveal(Seq::filter);
    if parts.len() > 0 {
        lemma_keep_nonempty_all(parts.drop_last());
        let kept = keep_nonempty(parts.drop_last());
        if parts.last().len() != 0 {
            assert(keep_nonempty(parts) == kept.push(parts.last()));
            assert forall|j: int|
                0 <= j < keep_nonempty(parts).len() implies (#[trigger] keep_nonempty(parts)[j]).len()
                > 0 by {
                if j < kept.len() {
                    assert(keep_nonempty(parts)[j] == kept[j]);
                }
            }
        }
    }
}

/// What a segmentation pass hands on: only non-empty segments, and, for the
/// empty separator, one single-character segment per character.
pub proof fn lemma_segment_parts(rm: bool, sep: Seq<char>, keep: bool, text: Seq<char>)
    ensures
        all_nonempty(model_segment(rm, sep, keep, text)),
        sep.len() == 0 ==> forall|j: int|
            0 <= j < model_segment(rm, sep, keep, text).len() ==> (#[trigger] model_segment(
                rm,
                sep,
                keep,
                text,
            )[j]).len() == 1,
{
    if sep.len() == 0 {
        assert(forall|j: int|
            0 <= j < char_parts(text).len() ==> (#[trigger] char_parts(text)[j]).len() == 1);
    } else {
        if keep {
            lemma_keep_nonempty_all(
                crate::model::interleave(
                    crate::model::model_gaps(rm, sep, text),
                    crate::model::model_hits(rm, sep, text),
                ),
            );
        } else {
            lemma_keep_nonempty_all(crate::model::model_gaps(rm, sep, text));
        }
    }
}

/// The splitter's walk keeps every chunk within the chunk size, given a
/// hierarchy that ends in the empty separator.
proof fn lemma_walk_size_bound(
    p: SplitParams,
    segs: Seq<Seq<char>>,
    i: int,
    tail: Seq<Seq<char>>,
    js: Seq<char>,
    chunks: Seq<Seq<char>>,
    pending: Seq<Seq<char>>,
)
    requires
        0 <= i <= segs.len(),
        p.chunk_size >= 1,
        p.chunk_overlap >= 0,
        all_nonempty(segs),
        tail.len() == 0 ==> forall|j: int|
            0 <= j < segs.len() ==> (#[trigger] segs[j]).len() <= p.chunk_size,
        tail.len() > 0 ==> tail[tail.len() - 1].len() == 0,
        forall|j: int| 0 <= j < chunks.len() ==> (#[trigger] chunks[j]).len() <= p.chunk_size,
        all_nonempty(pending),
        forall|j: int| 0 <= j < pending.len() ==> (#[trigger] pending[j]).len() < p.chunk_size,
    ensures
        ({
            let out = model_split_walk(p, segs, i, tail, js, chunks, pending);
            forall|j: int| 0 <= j < out.len() ==> (#[trigger] out[j]).len() <= p.chunk_size
        }),
    decreases tail.len(), 1int, segs.len() - i,
{
    if i >= segs.len() {
        if pending.len() > 0 {
            lemma_merge_size_bound(pending, js, p.chunk_size, p.chunk_overlap, p.strip);
            let merged = model_merge(pending, js, p.chunk_size, p.chunk_overlap, p.strip);
            assert forall|j: int|
                0 <= j < (chunks + merged).len() implies (#[trigger] (chunks + merged)[j]).len()
                <= p.chunk_size by {
                if j >= chunks.len() {
                    assert((chunks + merged)[j] == merged[j - chunks.len()]);
                }
            }
            assert(model_split_walk(p, segs, i, tail, js, chunks, pending) == chunks + merged);
        } else {
            assert(model_split_walk(p, segs, i, tail, js, chunks, pending) == chunks);
        }
    } else {
        let s = segs[i];
        if s.len() < p.chunk_size {
            lemma_walk_size_bound(p, segs, i + 1, tail, js, chunks, pending.push(s));
            assert(model_split_walk(p, segs, i, tail, js, chunks, pending) == model_split_walk(
                p,
                segs,
                i + 1,
                tail,
                js,
                chunks,
                pending.push(s),
            ));
        } else {
            let flushed = if pending.len() > 0 {
                chunks + model_merge(pending, js, p.chunk_size, p.chunk_overlap, p.strip)
            } else {
                chunks
            };
            if pending.len() > 0 {
                lemma_merge_size_bound(pending, js, p.chunk_size, p.chunk_overlap, p.strip);
                let merged = model_merge(pending, js, p.chunk_size, p.chunk_overlap, p.strip);
                assert forall|j: int|
                    0 <= j < flushed.len() implies (#[trigger] flushed[j]).len()
                    <= p.chunk_size by {
                    if j >= chunks.len() {
                        assert(flushed[j] == merged[j - chunks.len()]);
                    }
                }
            }
            let grown = if tail.len() == 0 {
                flushed.push(s)
            } else {
                flushed + model_split(p, s, tail)
            };
            if tail.len() == 0 {
            } else {
                lemma_split_size_bound(p, s, tail);
                let rec = model_split(p, s, tail);
                assert forall|j: int|
                    0 <= j < grown.len() implies (#[trigger] grown[j]).len() <= p.chunk_size by {
                    if j >= flushed.len() {
                        assert(grown[j] == rec[j - flushed.len()]);
                    }
                }
            }
            lemma_walk_size_bound(p, segs, i + 1, tail, js, grown, Seq::empty());
            assert(model_split_walk(p, segs, i, tail, js, chunks, pending) == model_split_walk(
                p,
                segs,
                i + 1,
                tail,
                js,
                grown,
                Seq::empty(),
            ));
        }
    }
}

/// Law: the size bound. For a separator hierarchy that ends in the empty
/// separator — the configuration invariant — and a positive chunk size,
/// every chunk the splitter produces has length at most the chunk size.
/// Without a trailing empty separator an unsplittable segment can be passed
/// through whole and longer.
pub proof fn lemma_split_size_bound(p: SplitParams, text: Seq<char>, seps: Seq<Seq<char>>)
    requires
        seps.len() > 0,
        seps[seps.len() - 1].len() == 0,
        p.chunk_size >= 1,
        p.chunk_overlap >= 0,
    ensures
        ({
            let out = model_split(p, text, seps);
            forall|j: int| 0 <= j < out.len() ==> (#[trigger] out[j]).len() <= p.chunk_size
        }),
    decreases seps.len(), 0int, 0int,
{
    lemma_model_select_props(p.regex_mode, seps, text);
    let sel = model_select(p.regex_mode, seps, text);
    let segs = model_segment(p.regex_mode, sel.0, p.keep_separator, text);
    lemma_segment_parts(p.regex_mode, sel.0, p.keep_separator, text);
    let js: Seq<char> = if p.keep_separator {
        Seq::empty()
    } else {
        sel.0
    };
    lemma_walk_size_bound(p, segs, 0, sel.1, js, Seq::empty(), Seq::empty());
    assert(model_split(p, text, seps) == model_split_walk(
        p,
        segs,
        0,
        sel.1,
        js,
        Seq::empty(),
        Seq::empty(),
    ));
}

/// Alternating two part lists decomposes at their heads.
proof fn lemma_interleave_cons(g0: Seq<char>, gaps: Seq<Seq<char>>, h0: Seq<char>, hits: Seq<
    Seq<char>,
>)
    requires
        gaps.len() == hits.len() + 1,
    ensures
        interleave(seq![g0] + gaps, seq![h0] + hits) =~= seq![g0, h0] + interleave(gaps, hits),
{
    let l = interleave(seq![g0] + gaps, seq![h0] + hits);
    let r = seq![g0, h0] + interleave(gaps, hits);
    assert forall|k: int| 0 <= k < l.len() implies l[k] == r[k] by {
        if k >= 2 {
            if k % 2 == 0 {
                assert((k - 2) % 2 == 0 && (k - 2) / 2 == k / 2 - 1);
                assert(r[k] == interleave(gaps, hits)[k - 2]);
                assert(l[k] == (seq![g0] + gaps)[k / 2]);
            } else {
                assert((k - 2) % 2 == 1 && (k - 2 - 1) / 2 == (k - 1) / 2 - 1);
                assert(r[k] == interleave(gaps, hits)[k - 2]);
                assert(l[k] == (seq![h0] + hits)[(k - 1) / 2]);
            }
        }
    }
}

/// A two-part prefix flattens to its two parts.
proof fn lemma_flatten_two(a: Seq<char>, b: Seq<char>, rest: Seq<Seq<char>>)
    ensures
        (seq![a, b] + rest).flatten() == a + b + rest.flatten(),
{
    reveal_with_fuel(Seq::<Seq<char>>::flatten, 4);
    vstd::seq_lib::lemma_flatten_concat(seq![a, b], rest);
    assert(seq![a, b].drop_first() =~= seq![b]);
    assert(seq![b].drop_first() =~= Seq::<Seq<char>>::empty());
    assert(seq![a, b].flatten() == a + (b + Seq::<char>::empty()));
    assert(a + (b + Seq::<char>::empty()) + rest.flatten() =~= a + b + rest.flatten());
}

/// There is one gap more than there are occurrences.
pub proof fn lemma_lit_counts(pat: Seq<char>, text: Seq<char>, from: int)
    ensures
        lit_gaps_from(pat, text, from).len() == lit_hits_from(pat, text, from).len() + 1,
    decreases text.len() - from,
{
    lemma_lit_find_some(pat, text, from);
    if let Some(j) = lit_find(pat, text, from) {
        lemma_lit_counts(pat, text, j + pat.len());
    }
}

/// Law ingredient: the gaps and occurrences of a literal separator
/// interleave back to the text they were cut from.
pub proof fn lemma_lit_cover(pat: Seq<char>, text: Seq<char>, from: int)
    requires
        pat.len() > 0,
        0 <= from <= text.len(),
    ensures
        interleave(
            lit_gaps_from(pat, text, from),
            lit_hits_from(pat, text, from),
        ).flatten() == text.skip(from),
    decreases text.len() - from,
{
    reveal_with_fuel(Seq::<Seq<char>>::flatten, 4);
    lemma_lit_find_some(pat, text, from);
    match lit_find(pat, text, from) {
        None => {
            let g = text.subrange(from, text.len() as int);
            assert(lit_gaps_from(pat, text, from) == seq![g]);
            assert(lit_hits_from(pat, text, from) == Seq::<Seq<char>>::empty());
            let inter = interleave(seq![g], Seq::<Seq<char>>::empty());
            assert(inter =~= seq![g]);
            assert(seq![g].drop_first() =~= Seq::<Seq<char>>::empty());
            assert(inter.flatten() == g + Seq::<char>::empty());
            assert(g + Seq::<char>::empty() =~= text.skip(from));
        },
        Some(j) => {
            let g = text.subrange(from, j);
            let h = text.subrange(j, j + pat.len());
            let from2 = j + pat.len();
            lemma_lit_cover(pat, text, from2);
            lemma_lit_counts(pat, text, from2);
            lemma_interleave_cons(
                g,
                lit_gaps_from(pat, text, from2),
                h,
                lit_hits_from(pat, text, from2),
            );
            lemma_flatten_two(
                g,
                h,
                interleave(lit_gaps_from(pat, text, from2), lit_hits_from(pat, text, from2)),
            );
            assert(g + h + text.skip(from2) =~= text.skip(from));
        },
    }
}

/// Dropping empty parts does not change what a part list flattens to.
pub proof fn lemma_flatten_keep_nonempty(parts: Seq<Seq<char>>)
    ensures
        keep_nonempty(parts).flatten() == parts.flatten(),
    decreases parts.len(),
{
    reveal(Seq::filter);
    if parts.len() > 0 {
        lemma_flatten_keep_nonempty(parts.drop_last());
        assert(parts =~= parts.drop_last().push(parts.last()));
        parts.drop_last().lemma_flatten_push(parts.last());
        if parts.last().len() != 0 {
            assert(keep_nonempty(parts) == keep_nonempty(parts.drop_last()).push(parts.last()));
            keep_nonempty(parts.drop_last()).lemma_flatten_push(parts.last());
        } else {
            assert(parts.last() =~= Seq::<char>::empty());
            assert(parts.drop_last().flatten() + parts.last() =~= parts.drop_last().flatten());
        }
    }
}

/// One single-character part per character flattens back to the text.
pub proof fn lemma_char_parts_flatten(text: Seq<char>)
    ensures
        char_parts(text).flatten() == text,
    decreases text.len(),
{
    if text.len() == 0 {
        assert(char_parts(text) =~= Seq::<Seq<char>>::empty());
    } else {
        lemma_char_parts_flatten(text.drop_first());
        assert(char_parts(text).drop_first() =~= char_parts(text.drop_first()));
        assert(char_parts(text).first() == seq![text[0]]);
        assert(seq![text[0]] + text.drop_first() =~= text);
    }
}

/// Law ingredient: with literal separators and kept separator text, one
/// segmentation pass loses nothing — its parts flatten back to the text.
pub proof fn lemma_segment_cover(sep: Seq<char>, text: Seq<char>)
    ensures
        model_segment(false, sep, true, text).flatten() == text,
{
    if sep.len() == 0 {
        lemma_char_parts_flatten(text);
    } else {
        lemma_lit_cover(sep, text, 0);
        assert(text.skip(0) =~= text);
        lemma_flatten_keep_nonempty(interleave(lit_gaps(sep, text), lit_hits(sep, text)));
    }
}

/// Joining with an empty separator is flattening.
pub proof fn lemma_join_empty_is_flatten(parts: Seq<Seq<char>>)
    ensures
        join_parts(parts, Seq::<char>::empty()) == parts.flatten(),
    decreases parts.len(),
{
    reveal_with_fuel(Seq::<Seq<char>>::flatten, 3);
    if parts.len() == 0 {
    } else if parts.len() == 1 {
        assert(parts.drop_first() =~= Seq::<Seq<char>>::empty());
        assert(parts.flatten() =~= parts[0]);
    } else {
        lemma_join_empty_is_flatten(parts.drop_first());
        assert(parts[0] + Seq::<char>::empty() + parts.drop_first().flatten() =~= parts[0]
            + parts.drop_first().flatten());
    }
}

/// The splitter's walk, in kept-separator mode with no overlap and no
/// trimming, emits chunks that flatten to everything it has seen.
proof fn lemma_walk_coverage(
    p: SplitParams,
    segs: Seq<Seq<char>>,
    i: int,
    tail: Seq<Seq<char>>,
    chunks: Seq<Seq<char>>,
    pending: Seq<Seq<char>>,
)
    requires
        !p.regex_mode,
        p.keep_separator,
        p.chunk_overlap == 0,
        !p.strip,
        0 <= i <= segs.len(),
        all_nonempty(segs),
        all_nonempty(pending),
    ensures
        model_split_walk(p, segs, i, tail, Seq::<char>::empty(), chunks, pending).flatten()
            == chunks.flatten() + pending.flatten() + segs.skip(i).flatten(),
    decreases tail.len(), 1int, segs.len() - i,
{
    let js = Seq::<char>::empty();
    if i >= segs.len() {
        assert(segs.skip(i) =~= Seq::<Seq<char>>::empty());
        if pending.len() > 0 {
            lemma_merge_coverage(pending, js, p.chunk_size);
            let merged = model_merge(pending, js, p.chunk_size, 0, false);
            lemma_join_empty_is_flatten(merged);
            lemma_join_empty_is_flatten(pending);
            vstd::seq_lib::lemma_flatten_concat(chunks, merged);
            assert(chunks.flatten() + pending.flatten() + segs.skip(i).flatten() =~= chunks.flatten()
                + pending.flatten());
        } else {
            assert(pending.flatten() =~= Seq::<char>::empty());
            assert(chunks.flatten() + pending.flatten() + segs.skip(i).flatten() =~= chunks.flatten());
        }
    } else {
        let s = segs[i];
        assert(segs.skip(i).drop_first() =~= segs.skip(i + 1));
        assert(segs.skip(i).first() == s);
        assert(segs.skip(i).flatten() == s + segs.skip(i + 1).flatten());
        if s.len() < p.chunk_size {
            lemma_walk_coverage(p, segs, i + 1, tail, chunks, pending.push(s));
            pending.lemma_flatten_push(s);
            assert(chunks.flatten() + (pending.flatten() + s) + segs.skip(i + 1).flatten()
                =~= chunks.flatten() + pending.flatten() + (s + segs.skip(i + 1).flatten()));
        } else {
            let flushed = if pending.len() > 0 {
                chunks + model_merge(pending, js, p.chunk_size, p.chunk_overlap, p.strip)
            } else {
                chunks
            };
            if pending.len() > 0 {
                lemma_merge_coverage(pending, js, p.chunk_size);
                let merged = model_merge(pending, js, p.chunk_size, 0, false);
                lemma_join_empty_is_flatten(merged);
                lemma_join_empty_is_flatten(pending);
                vstd::seq_lib::lemma_flatten_concat(chunks, merged);
                assert(flushed.flatten() == chunks.flatten() + pending.flatten());
            } else {
                assert(pending.flatten() =~= Seq::<char>::empty());
                assert(flushed.flatten() =~= chunks.flatten() + pending.flatten());
            }
            let grown = if tail.len() == 0 {
                flushed.push(s)
            } else {
                flushed + model_split(p, s, tail)
            };
            if tail.len() == 0 {
                flushed.lemma_flatten_push(s);
                assert(grown.flatten() == flushed.flatten() + s);
            } else {
                lemma_split_coverage(p, s, tail);
                vstd::seq_lib::lemma_flatten_concat(flushed, model_split(p, s, tail));
                assert(grown.flatten() == flushed.flatten() + s);
            }
            lemma_walk_coverage(p, segs, i + 1, tail, grown, Seq::empty());
            assert(Seq::<Seq<char>>::empty().flatten() =~= Seq::<char>::empty());
            assert(model_split_walk(p, segs, i, tail, js, chunks, pending) == model_split_walk(
                p,
                segs,
                i + 1,
                tail,
                js,
                grown,
                Seq::empty(),
            ));
            assert(grown.flatten() + Seq::<char>::empty() + segs.skip(i + 1).flatten()
                =~= chunks.flatten() + pending.flatten() + (s + segs.skip(i + 1).flatten()));
        }
    }
}

/// Law: coverage. In kept-separator mode — where the separator text stays
/// in the output — with no overlap and no whitespace stripping, and with
/// literal (non-regex) separators, concatenating all chunks reconstructs
/// the original text exactly.
pub proof fn lemma_split_coverage(p: SplitParams, text: Seq<char>, seps: Seq<Seq<char>>)
    requires
        !p.regex_mode,
        p.keep_separator,
        p.chunk_overlap == 0,
        !p.strip,
        seps.len() > 0,
    ensures
        model_split(p, text, seps).flatten() == text,
    decreases seps.len(), 0int, 0int,
{
    lemma_model_select_props(p.regex_mode, seps, text);
    let sel = model_select(p.regex_mode, seps, text);
    let segs = model_segment(p.regex_mode, sel.0, p.keep_separator, text);
    lemma_segment_parts(p.regex_mode, sel.0, p.keep_separator, text);
    lemma_segment_cover(sel.0, text);
    lemma_walk_coverage(p, segs, 0, sel.1, Seq::empty(), Seq::empty());
    assert(segs.skip(0) =~= segs);
    assert(Seq::<Seq<char>>::empty().flatten() =~= Seq::<char>::empty());
    assert(Seq::<char>::empty() + Seq::<char>::empty() + segs.flatten() =~= segs.flatten());
    assert(model_split(p, text, seps) == model_split_walk(
        p,
        segs,
        0,
        sel.1,
        Seq::<char>::empty(),
        Seq::empty(),
        Seq::empty(),
    ));
}

/// A prefix of the buffer joins to a prefix of the joined buffer, and a
/// suffix of the buffer joins to a suffix of it.
proof fn lemma_join_parts_slice(parts: Seq<Seq<char>>, sep: Seq<char>, k: int)
    requires
        0 <= k <= parts.len(),
    ensures
        join_parts(parts.take(k), sep).is_prefix_of(join_parts(parts, sep)),
        join_parts(parts.skip(k), sep).is_suffix_of(join_parts(parts, sep)),
{
    if k == 0 {
        assert(parts.take(0) =~= Seq::<Seq<char>>::empty());
        assert(parts.skip(0) =~= parts);
        assert(join_parts(parts.take(0), sep) =~= Seq::<char>::empty());
        assert(Seq::<char>::empty().is_prefix_of(join_parts(parts, sep)));
        assert(join_parts(parts, sep).is_suffix_of(join_parts(parts, sep)));
    } else if k == parts.len() {
        assert(parts.take(k) =~= parts);
        assert(parts.skip(k) =~= Seq::<Seq<char>>::empty());
        assert(join_parts(parts.skip(k), sep) =~= Seq::<char>::empty());
        assert(join_parts(parts, sep).is_prefix_of(join_parts(parts, sep)));
        assert(Seq::<char>::empty().is_suffix_of(join_parts(parts, sep)));
    } else {
        lemma_join_parts_decompose(parts, sep, k);
        let a = join_parts(parts.take(k), sep);
        let b = join_parts(parts.skip(k), sep);
        let whole = join_parts(parts, sep);
        assert(a =~= whole.subrange(0, a.len() as int));
        assert(b =~= whole.subrange(whole.len() - b.len(), whole.len() as int));
    }
}

/// How chunk `cb`, built from run `rb`, continues chunk `ca`, built from
/// run `ra`: the first `k` parts of `rb` are exactly the window that
/// eviction keeps from `ra` — a trailing slice of `ra` whose joined length
/// is at most `overlap` — so that window ends `ca` and begins `cb`, and
/// everything of `rb` after it is fresh input. The window is pinned to the
/// eviction function, not merely asserted to exist.
pub open spec fn carried_window(
    ra: Seq<Seq<char>>,
    rb: Seq<Seq<char>>,
    ca: Seq<char>,
    cb: Seq<char>,
    sep: Seq<char>,
    size: int,
    overlap: int,
) -> bool {
    exists|k: int|
        {
            &&& 0 <= k < rb.len()
            &&& #[trigger] rb.take(k) == model_evict(
                ra,
                sep.len() as int,
                size,
                overlap,
                rb[k].len() as int,
            )
            &&& total_of(rb.take(k), sep.len() as int) <= overlap
            &&& join_parts(rb.take(k), sep).is_suffix_of(ca)
            &&& join_parts(rb.take(k), sep).is_prefix_of(cb)
        }
}

/// The new pair added by a flush satisfies the window relation: the first
/// parts of the buffer are the eviction of the run flushed before it.
proof fn lemma_flush_pair(
    prev_run: Seq<Seq<char>>,
    cur: Seq<Seq<char>>,
    sep: Seq<char>,
    size: int,
    overlap: int,
)
    requires
        overlap >= 0,
        exists|k: int|
            0 <= k < cur.len() && #[trigger] cur.take(k) == model_evict(
                prev_run,
                sep.len() as int,
                size,
                overlap,
                cur[k].len() as int,
            ),
    ensures
        carried_window(
            prev_run,
            cur,
            join_parts(prev_run, sep),
            join_parts(cur, sep),
            sep,
            size,
            overlap,
        ),
{
    let sl = sep.len() as int;
    let k = choose|k: int|
        0 <= k < cur.len() && #[trigger] cur.take(k) == model_evict(
            prev_run,
            sl,
            size,
            overlap,
            cur[k].len() as int,
        );
    let nl = cur[k].len() as int;
    lemma_evict_window_bounded(prev_run, sl, size, overlap, nl);
    lemma_evict_is_suffix(prev_run, sl, size, overlap, nl);
    let m = choose|m: int|
        0 <= m <= prev_run.len() && model_evict(prev_run, sl, size, overlap, nl)
            == prev_run.skip(m);
    lemma_join_parts_slice(prev_run, sep, m);
    lemma_join_parts_slice(cur, sep, k);
}

/// The merger's walk links every pair of consecutive chunks by the carried
/// window, run by run.
proof fn lemma_merge_loop_window(
    segs: Seq<Seq<char>>,
    i: int,
    docs: Seq<Seq<char>>,
    cur: Seq<Seq<char>>,
    runs: Seq<Seq<Seq<char>>>,
    sep: Seq<char>,
    size: int,
    overlap: int,
)
    requires
        0 <= i <= segs.len(),
        overlap >= 0,
        all_nonempty(segs),
        all_nonempty(cur),
        docs.len() == runs.len(),
        forall|j: int|
            0 <= j < runs.len() ==> (#[trigger] runs[j]).len() > 0 && all_nonempty(runs[j])
                && docs[j] == join_parts(runs[j], sep),
        forall|j: int|
            0 <= j < runs.len() - 1 ==> carried_window(
                #[trigger] runs[j],
                runs[j + 1],
                docs[j],
                docs[j + 1],
                sep,
                size,
                overlap,
            ),
        runs.len() > 0 ==> cur.len() > 0,
        runs.len() > 0 ==> exists|k: int|
            0 <= k < cur.len() && #[trigger] cur.take(k) == model_evict(
                runs.last(),
                sep.len() as int,
                size,
                overlap,
                cur[k].len() as int,
            ),
    ensures
        ({
            let out = model_merge_loop(segs, i, docs, cur, sep, size, overlap, false);
            let fruns = model_merge_runs_loop(segs, i, runs, cur, sep, size, overlap);
            &&& out.len() == fruns.len()
            &&& (forall|j: int|
                0 <= j < fruns.len() ==> (#[trigger] fruns[j]).len() > 0 && all_nonempty(fruns[j])
                    && out[j] == join_parts(fruns[j], sep))
            &&& (forall|j: int|
                0 <= j < fruns.len() - 1 ==> carried_window(
                    #[trigger] fruns[j],
                    fruns[j + 1],
                    out[j],
                    out[j + 1],
                    sep,
                    size,
                    overlap,
                ))
        }),
    decreases segs.len() - i,
{
    let sl = sep.len() as int;
    if i >= segs.len() {
        if cur.len() > 0 {
            lemma_total_positive(cur, sl);
            lemma_total_matches_join(cur, sep);
            let x = join_parts(cur, sep);
            assert(model_join_docs(cur, sep, false) == Some(x));
            let out = docs.push(x);
            let fruns = runs.push(cur);
            if runs.len() > 0 {
                lemma_flush_pair(runs.last(), cur, sep, size, overlap);
            }
            assert forall|j: int|
                0 <= j < fruns.len() implies (#[trigger] fruns[j]).len() > 0 && all_nonempty(
                fruns[j],
            ) && out[j] == join_parts(fruns[j], sep) by {
                if j < runs.len() {
                    assert(fruns[j] == runs[j] && out[j] == docs[j]);
                } else {
                    assert(fruns[j] == cur && out[j] == x);
                }
            }
            assert forall|j: int|
                0 <= j < fruns.len() - 1 implies carried_window(
                #[trigger] fruns[j],
                fruns[j + 1],
                out[j],
                out[j + 1],
                sep,
                size,
                overlap,
            ) by {
                if j < runs.len() - 1 {
                    assert(fruns[j] == runs[j] && fruns[j + 1] == runs[j + 1] && out[j] == docs[j]
                        && out[j + 1] == docs[j + 1]);
                } else {
                    assert(fruns[j] == runs.last() && fruns[j + 1] == cur && out[j] == docs.last()
                        && out[j + 1] == x);
                }
            }
        } else {
            assert(join_parts(cur, sep) =~= Seq::<char>::empty());
            assert(model_join_docs(cur, sep, false) is None);
        }
    } else {
        let d = segs[i];
        let total = total_of(cur, sl);
        let extra: int = if cur.len() > 0 {
            sl
        } else {
            0
        };
        if total + d.len() + extra > size {
            if cur.len() > 0 {
                lemma_total_positive(cur, sl);
                lemma_total_matches_join(cur, sep);
                let x = join_parts(cur, sep);
                assert(model_join_docs(cur, sep, false) == Some(x));
                let docs2 = docs.push(x);
                let runs2 = runs.push(cur);
                let w = model_evict(cur, sl, size, overlap, d.len() as int);
                let cur3 = w.push(d);
                lemma_evict_is_suffix(cur, sl, size, overlap, d.len() as int);
                let m = choose|m: int| 0 <= m <= cur.len() && w == cur.skip(m);
                assert(all_nonempty(cur3)) by {
                    assert forall|j: int| 0 <= j < cur3.len() implies (#[trigger] cur3[j]).len()
                        > 0 by {
                        if j < w.len() {
                            assert(cur3[j] == cur[j + m]);
                        }
                    }
                }
                if runs.len() > 0 {
                    lemma_flush_pair(runs.last(), cur, sep, size, overlap);
                }
                assert forall|j: int|
                    0 <= j < runs2.len() implies (#[trigger] runs2[j]).len() > 0 && all_nonempty(
                    runs2[j],
                ) && docs2[j] == join_parts(runs2[j], sep) by {
                    if j < runs.len() {
                        assert(runs2[j] == runs[j] && docs2[j] == docs[j]);
                    } else {
                        assert(runs2[j] == cur && docs2[j] == x);
                    }
                }
                assert forall|j: int|
                    0 <= j < runs2.len() - 1 implies carried_window(
                    #[trigger] runs2[j],
                    runs2[j + 1],
                    docs2[j],
                    docs2[j + 1],
                    sep,
                    size,
                    overlap,
                ) by {
                    if j < runs.len() - 1 {
                        assert(runs2[j] == runs[j] && runs2[j + 1] == runs[j + 1] && docs2[j]
                            == docs[j] && docs2[j + 1] == docs[j + 1]);
                    } else {
                        assert(runs2[j] == runs.last() && runs2[j + 1] == cur && docs2[j]
                            == docs.last() && docs2[j + 1] == x);
                    }
                }
                assert(runs2.len() > 0 ==> exists|k: int|
                    0 <= k < cur3.len() && #[trigger] cur3.take(k) == model_evict(
                        runs2.last(),
                        sl,
                        size,
                        overlap,
                        cur3[k].len() as int,
                    )) by {
                    let kk = w.len() as int;
                    assert(cur3.take(kk) =~= w);
                    assert(cur3[kk] == d);
                    assert(0 <= kk < cur3.len() && cur3.take(kk) == model_evict(
                        runs2.last(),
                        sl,
                        size,
                        overlap,
                        cur3[kk].len() as int,
                    ));
                }
                lemma_merge_loop_window(segs, i + 1, docs2, cur3, runs2, sep, size, overlap);
                assert(model_merge_loop(segs, i, docs, cur, sep, size, overlap, false)
                    == model_merge_loop(segs, i + 1, docs2, cur3, sep, size, overlap, false));
                assert(model_merge_runs_loop(segs, i, runs, cur, sep, size, overlap)
                    == model_merge_runs_loop(segs, i + 1, runs2, cur3, sep, size, overlap));
            } else {
                lemma_merge_loop_window(segs, i + 1, docs, seq![d], runs, sep, size, overlap);
                assert(model_merge_loop(segs, i, docs, cur, sep, size, overlap, false)
                    == model_merge_loop(segs, i + 1, docs, seq![d], sep, size, overlap, false));
                assert(model_merge_runs_loop(segs, i, runs, cur, sep, size, overlap)
                    == model_merge_runs_loop(segs, i + 1, runs, seq![d], sep, size, overlap));
            }
        } else {
            if runs.len() > 0 {
                let k = choose|k: int|
                    0 <= k < cur.len() && #[trigger] cur.take(k) == model_evict(
                        runs.last(),
                        sl,
                        size,
                        overlap,
                        cur[k].len() as int,
                    );
                assert(cur.push(d).take(k) =~= cur.take(k));
                assert(cur.push(d)[k] == cur[k]);
                assert(0 <= k < cur.push(d).len() && cur.push(d).take(k) == model_evict(
                    runs.last(),
                    sl,
                    size,
                    overlap,
                    cur.push(d)[k].len() as int,
                ));
            }
            lemma_merge_loop_window(segs, i + 1, docs, cur.push(d), runs, sep, size, overlap);
            assert(model_merge_loop(segs, i, docs, cur, sep, size, overlap, false)
                == model_merge_loop(segs, i + 1, docs, cur.push(d), sep, size, overlap, false));
            assert(model_merge_runs_loop(segs, i, runs, cur, sep, size, overlap)
                == model_merge_runs_loop(segs, i + 1, runs, cur.push(d), sep, size, overlap));
        }
    }
}

/// Law: bounded overlap between consecutive chunks. With whitespace kept,
/// the merger's chunks are exactly the joins of its flushed runs, and each
/// next run begins with precisely the window eviction keeps from the
/// previous run: a trailing slice of that run whose joined length is at
/// most `overlap`, ending the earlier chunk and beginning the later one;
/// everything after it in the run is fresh input. Eviction may keep less
/// than `overlap` — the budget is an upper bound, never exceeded.
pub proof fn lemma_merge_overlap_bounded(
    segs: Seq<Seq<char>>,
    sep: Seq<char>,
    size: int,
    overlap: int,
)
    requires
        overlap >= 0,
        all_nonempty(segs),
    ensures
        ({
            let out = model_merge(segs, sep, size, overlap, false);
            let runs = model_merge_runs(segs, sep, size, overlap);
            &&& out.len() == runs.len()
            &&& (forall|j: int|
                0 <= j < runs.len() ==> out[j] == join_parts(#[trigger] runs[j], sep))
            &&& (forall|j: int|
                0 <= j < runs.len() - 1 ==> carried_window(
                    #[trigger] runs[j],
                    runs[j + 1],
                    out[j],
                    out[j + 1],
                    sep,
                    size,
                    overlap,
                ))
        }),
{
    lemma_merge_loop_window(
        segs,
        0,
        Seq::empty(),
        Seq::empty(),
        Seq::empty(),
        sep,
        size,
        overlap,
    );
}

/// The kept window is a trailing slice of the flushed buffer: eviction only
/// drops parts from the front.
pub proof fn lemma_evict_is_suffix(
    cur: Seq<Seq<char>>,
    sep_len: int,
    size: int,
    overlap: int,
    next_len: int,
)
    ensures
        exists|k: int|
            0 <= k <= cur.len() && model_evict(cur, sep_len, size, overlap, next_len) == cur.skip(
                k,
            ),
    decreases cur.len(),
{
    let total = total_of(cur, sep_len);
    let extra: int = if cur.len() > 0 {
        sep_len
    } else {
        0
    };
    if cur.len() > 0 && (total > overlap || (total + next_len + extra > size && total > 0)) {
        lemma_evict_is_suffix(cur.drop_first(), sep_len, size, overlap, next_len);
        let k0 = choose|k0: int|
            0 <= k0 <= cur.drop_first().len() && model_evict(
                cur.drop_first(),
                sep_len,
                size,
                overlap,
                next_len,
            ) == cur.drop_first().skip(k0);
        assert(cur.drop_first().skip(k0) =~= cur.skip(k0 + 1));
    } else {
        assert(model_evict(cur, sep_len, size, overlap, next_len) =~= cur.skip(0));
    }
}

} // verus!
