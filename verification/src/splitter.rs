//! The recursive character text splitter: a separator hierarchy, a
//! regex-aware segmenter, an overlap-carrying merger, and the batch entry
//! points.

use vstd::prelude::*;
use vstd::string::{StrSliceExecFns, StringExecFns};
use crate::matching::{escaped, regex_escape, regex_is_match, regex_is_valid, regex_ok};
use crate::matching::{regex_find_all, regex_split};
use crate::model::{
    default_separators, lemma_total_of_nonneg, lemma_total_of_push, model_evict, model_join_docs,
    model_merge, model_merge_loop, model_occurs, model_segment, model_select, model_split,
    model_split_walk, total_of, SplitParams,
};
use crate::text::{
    char_splits, clone_strings, clone_tail, drop_empty, interleave_parts, join_with, trim_chars,
};
use crate::laws::{
    all_nonempty, lemma_char_parts_flatten, lemma_flatten_keep_nonempty,
    lemma_join_empty_is_flatten, lemma_merge_coverage, lemma_segment_parts,
};

verus! {

/// Why a splitter configuration is rejected.
#[derive(Debug, Clone, Copy, PartialEq, Eq, Structural)]
pub enum ConfigError {
    /// The separator list is empty.
    EmptySeparators,
    /// The engine rejects the pattern compiled from the separator at this
    /// position: in regex mode the separator itself, in literal mode its
    /// escaped form (which can exceed the engine's size limit).
    InvalidRegex(usize),
}

/// Splits a text into chunks of bounded size along an ordered hierarchy of
/// separators, carrying a bounded overlap from each chunk into the next.
#[derive(Debug, Clone)]
pub struct RecursiveCharacterTextSplitter {
    pub separators: Vec<String>,
    pub keep_separator: bool,
    pub is_separator_regex: bool,
    pub _strip_whitespace: bool,
    pub _chunk_size: usize,
    pub _chunk_overlap: usize,
}

impl RecursiveCharacterTextSplitter {
    /// This splitter's parameters as the model sees them.
    pub open spec fn params(&self) -> SplitParams {
        SplitParams {
            regex_mode: self.is_separator_regex,
            keep_separator: self.keep_separator,
            chunk_size: self._chunk_size as int,
            chunk_overlap: self._chunk_overlap as int,
            strip: self._strip_whitespace,
        }
    }

    /// The pattern the regex engine is given for a separator: the separator
    /// itself in regex mode, its escaped form in literal mode.
    pub open spec fn sep_pattern(&self, sep: Seq<char>) -> Seq<char> {
        if self.is_separator_regex {
            sep
        } else {
            escaped(sep)
        }
    }

    /// Whether the engine accepts the pattern compiled from `sep`.
    pub open spec fn sep_ok(&self, sep: Seq<char>) -> bool {
        regex_ok(self.sep_pattern(sep))
    }

    /// Whether the engine accepts every separator in `seps`.
    pub open spec fn seps_ok(&self, seps: Seq<Seq<char>>) -> bool {
        forall|i: int| 0 <= i < seps.len() ==> self.sep_ok(#[trigger] seps[i])
    }

    pub fn new(
        separators: Option<Vec<String>>,
        keep_separator: bool,
        is_separator_regex: bool,
        chunk_size: usize,
        chunk_overlap: usize,
        strip_whitespace: bool,
    ) -> (r: Self)
        ensures
            r.keep_separator == keep_separator,
            r.is_separator_regex == is_separator_regex,
            r._chunk_size == chunk_size,
            r._chunk_overlap == chunk_overlap,
            r._strip_whitespace == strip_whitespace,
            match separators {
                Some(s) => r.separators == s,
                None => r.separators.deep_view() == default_separators(),
            },
    {
        let seps: Vec<String> = match separators {
            Some(s) => s,
            None => {
                let mut v: Vec<String> = Vec::new();
                v.push("\n\n".to_owned());
                v.push("\n".to_owned());
                v.push(" ".to_owned());
                v.push("".to_owned());
                proof {
                    assert(v.deep_view() =~= default_separators());
                }
                v
            },
        };
        RecursiveCharacterTextSplitter {
            separators: seps,
            keep_separator,
            is_separator_regex,
            _chunk_size: chunk_size,
            _chunk_overlap: chunk_overlap,
            _strip_whitespace: strip_whitespace,
        }
    }

    /// Picks the first separator that is empty or occurs in `text` (the last
    /// one as a fallback) and returns it with the lower-priority rest of the
    /// list.
    fn select_separator(&self, text: &str, separators: &Vec<String>) -> (r: (String, Vec<String>))
        requires
            separators@.len() > 0,
            self.seps_ok(separators.deep_view()),
        ensures
            r.0@ == model_select(self.is_separator_regex, separators.deep_view(), text@).0,
            r.1.deep_view() == model_select(self.is_separator_regex, separators.deep_view(), text@).1,
            r.1@.len() < separators@.len(),
            self.seps_ok(r.1.deep_view()),
            self.sep_ok(r.0@),
    {
        let ghost seps = separators.deep_view();
        let n = separators.len();
        proof {
            assert(seps.skip(0) =~= seps);
        }
        let mut i: usize = 0;
        loop
            invariant
                i < n,
                n == separators@.len(),
                n > 0,
                seps == separators.deep_view(),
                seps.len() == n,
                self.seps_ok(seps),
                model_select(self.is_separator_regex, seps.skip(i as int), text@) == model_select(
                    self.is_separator_regex,
                    seps,
                    text@,
                ),
            decreases n - i,
        {
            proof {
                assert(seps.skip(i as int)[0] == seps[i as int]);
                assert(seps.skip(i as int).len() == n - i);
            }
            if separators[i].as_str().is_empty() {
                let chosen = separators[i].clone();
                let rest: Vec<String> = Vec::new();
                proof {
                    assert(rest.deep_view() =~= Seq::<Seq<char>>::empty());
                }
                return (chosen, rest);
            }
            let occurs: bool;
            proof {
                assert(self.sep_ok(seps[i as int]));
            }
            if self.is_separator_regex {
                occurs = regex_is_match(separators[i].as_str(), text);
            } else {
                let pat = regex_escape(separators[i].as_str());
                occurs = regex_is_match(pat.as_str(), text);
            }
            proof {
                assert(occurs == model_occurs(self.is_separator_regex, seps[i as int], text@));
            }
            if occurs {
                let chosen = separators[i].clone();
                let rest = clone_tail(separators, i + 1);
                proof {
                    assert(rest.deep_view() =~= seps.skip(i as int + 1));
                    assert(seps.skip(i as int).drop_first() =~= seps.skip(i as int + 1));
                }
                return (chosen, rest);
            }
            if i + 1 == n {
                let chosen = separators[i].clone();
                let rest: Vec<String> = Vec::new();
                proof {
                    assert(rest.deep_view() =~= Seq::<Seq<char>>::empty());
                    assert(seps.skip(i as int).len() == 1);
                }
                return (chosen, rest);
            }
            proof {
                assert(seps.skip(i as int).drop_first() =~= seps.skip(i as int + 1));
            }
            i = i + 1;
        }
    }

    /// One segmentation pass: split `text` on `separator`, keep the matched
    /// separator text as parts of their own when asked to, split between
    /// every character when the separator is empty, and drop empty parts.
    pub fn split_text_with_regex(&self, text: &str, separator: &str, keep_separator: bool) -> (r:
        Vec<String>)
        requires
            separator@.len() > 0 ==> self.sep_ok(separator@),
        ensures
            r.deep_view() == model_segment(
                self.is_separator_regex,
                separator@,
                keep_separator,
                text@,
            ),
            keep_separator ==> r.deep_view().flatten() == text@,
    {
        if !separator.is_empty() {
            let pattern: String = if self.is_separator_regex {
                separator.to_owned()
            } else {
                regex_escape(separator)
            };
            let raw: Vec<String>;
            if keep_separator {
                let gaps = regex_split(pattern.as_str(), text);
                let hits = regex_find_all(pattern.as_str(), text);
                proof {
                    assert(gaps.deep_view().len() == gaps@.len());
                    assert(hits.deep_view().len() == hits@.len());
                }
                raw = interleave_parts(&gaps, &hits);
                proof {
                    lemma_flatten_keep_nonempty(raw.deep_view());
                }
            } else {
                raw = regex_split(pattern.as_str(), text);
            }
            drop_empty(raw)
        } else {
            proof {
                lemma_char_parts_flatten(text@);
            }
            char_splits(text)
        }
    }

    /// The flushed form of the buffered parts: joined, trimmed when asked
    /// to, and dropped when that leaves nothing.
    pub fn join_docs(&self, docs: &Vec<String>, separator: &str) -> (r: Option<String>)
        ensures
            ({
                let m = model_join_docs(docs.deep_view(), separator@, self._strip_whitespace);
                match r {
                    Some(s) => m == Some(s@),
                    None => m is None,
                }
            }),
    {
        let joined = join_with(docs, separator);
        let kept: String = if self._strip_whitespace {
            trim_chars(joined.as_str())
        } else {
            joined
        };
        if kept.as_str().is_empty() {
            None
        } else {
            Some(kept)
        }
    }

    /// Packs the buffered parts, in order, into chunks whose joined length
    /// stays within the chunk size, carrying at most the configured overlap
    /// of window from each chunk into the next.
    pub fn merge_splits(&self, splits: &Vec<String>, separator: &str) -> (docs: Vec<String>)
        ensures
            docs.deep_view() == model_merge(
                splits.deep_view(),
                separator@,
                self._chunk_size as int,
                self._chunk_overlap as int,
                self._strip_whitespace,
            ),
    {
        let ghost segs = splits.deep_view();
        let ghost sp = separator@;
        let ghost size = self._chunk_size as int;
        let ghost ov = self._chunk_overlap as int;
        let ghost strip = self._strip_whitespace;
        let separator_len = separator.unicode_len();
        let mut docs: Vec<String> = Vec::new();
        let mut current_doc: Vec<String> = Vec::new();
        let mut total: u128 = 0;
        proof {
            assert(docs.deep_view() =~= Seq::<Seq<char>>::empty());
            assert(current_doc.deep_view() =~= Seq::<Seq<char>>::empty());
        }
        let mut i: usize = 0;
        while i < splits.len()
            invariant
                i <= splits@.len(),
                segs == splits.deep_view(),
                sp == separator@,
                size == self._chunk_size as int,
                ov == self._chunk_overlap as int,
                strip == self._strip_whitespace,
                separator_len == separator@.len(),
                total as int == total_of(current_doc.deep_view(), separator_len as int),
                total <= 3 * (usize::MAX as u128),
                model_merge_loop(
                    segs,
                    i as int,
                    docs.deep_view(),
                    current_doc.deep_view(),
                    sp,
                    size,
                    ov,
                    strip,
                ) == model_merge(segs, sp, size, ov, strip),
            decreases splits@.len() - i,
        {
            let ghost docs_at = docs.deep_view();
            let ghost cur_at = current_doc.deep_view();
            let d_len = splits[i].unicode_len();
            proof {
                assert(segs[i as int] == splits@[i as int]@);
            }
            let n0 = current_doc.len();
            let extra: u128 = if n0 > 0 {
                separator_len as u128
            } else {
                0
            };
            if total + d_len as u128 + extra > self._chunk_size as u128 {
                if n0 > 0 {
                    let ghost docs_before = docs.deep_view();
                    match self.join_docs(&current_doc, separator) {
                        Some(doc) => {
                            docs.push(doc);
                            proof {
                                assert(docs.deep_view() =~= docs_before.push(
                                    model_join_docs(cur_at, sp, strip)->Some_0,
                                ));
                            }
                        },
                        None => {},
                    }
                    evict_window(
                        &mut current_doc,
                        &mut total,
                        separator_len,
                        self._chunk_size,
                        self._chunk_overlap,
                        d_len,
                    );
                }
            }
            let ghost cur_mid = current_doc.deep_view();
            proof {
                lemma_total_of_nonneg(cur_mid, separator_len as int);
                lemma_total_of_push(cur_mid, separator_len as int, segs[i as int]);
            }
            current_doc.push(splits[i].clone());
            proof {
                assert(current_doc.deep_view() =~= cur_mid.push(segs[i as int]));
            }
            let extra2: u128 = if current_doc.len() > 1 {
                separator_len as u128
            } else {
                0
            };
            total = total + d_len as u128 + extra2;
            proof {
                if cur_at.len() == 0 {
                    assert(cur_mid =~= Seq::<Seq<char>>::empty());
                }
                if total_of(cur_at, separator_len as int) + segs[i as int].len() + (if cur_at.len()
                    > 0 {
                    separator_len as int
                } else {
                    0
                }) > size {
                    if cur_at.len() > 0 {
                        assert(cur_mid == model_evict(
                            cur_at,
                            separator_len as int,
                            size,
                            ov,
                            segs[i as int].len() as int,
                        ));
                        assert(current_doc.deep_view() == model_evict(
                            cur_at,
                            separator_len as int,
                            size,
                            ov,
                            segs[i as int].len() as int,
                        ).push(segs[i as int]));
                    } else {
                        assert(current_doc.deep_view() =~= seq![segs[i as int]]);
                    }
                } else {
                    assert(current_doc.deep_view() == cur_at.push(segs[i as int]));
                }
                assert(model_merge_loop(segs, i as int, docs_at, cur_at, sp, size, ov, strip)
                    == model_merge_loop(
                    segs,
                    i as int + 1,
                    docs.deep_view(),
                    current_doc.deep_view(),
                    sp,
                    size,
                    ov,
                    strip,
                ));
            }
            i = i + 1;
        }
        let ghost docs_before = docs.deep_view();
        match self.join_docs(&current_doc, separator) {
            Some(doc) => {
                docs.push(doc);
                proof {
                    assert(docs.deep_view() =~= docs_before.push(
                        model_join_docs(current_doc.deep_view(), sp, strip)->Some_0,
                    ));
                }
            },
            None => {},
        }
        docs
    }
}

impl RecursiveCharacterTextSplitter {
    /// Splits `text` into chunks along the separator hierarchy `separators`:
    /// the first separator that occurs segments the text; small segments are
    /// packed by the merger; a segment at or above the chunk size is split
    /// again with the remaining separators, or emitted whole when none are
    /// left. Each recursion drops at least one separator from the hierarchy,
    /// which the `decreases` clause turns into a termination proof for every
    /// finite input.
    pub fn split_text(&self, text: &str, separators: Vec<String>) -> (r: Vec<String>)
        requires
            separators@.len() > 0,
            self.seps_ok(separators.deep_view()),
        ensures
            r.deep_view() == model_split(self.params(), text@, separators.deep_view()),
            self.keep_separator && self._chunk_overlap == 0 && !self._strip_whitespace
                ==> r.deep_view().flatten() == text@,
        decreases separators@.len(),
    {
        let ghost covered = self.keep_separator && self._chunk_overlap == 0
            && !self._strip_whitespace;
        let ghost p = self.params();
        let ghost seps = separators.deep_view();
        let (separator, new_separators) = self.select_separator(text, &separators);
        let splits = self.split_text_with_regex(text, separator.as_str(), self.keep_separator);
        let separator_for_merge: String = if self.keep_separator {
            String::new()
        } else {
            separator.clone()
        };
        let ghost segs = splits.deep_view();
        let ghost tail = new_separators.deep_view();
        let ghost js = separator_for_merge@;
        let mut final_chunks: Vec<String> = Vec::new();
        let mut good_splits: Vec<String> = Vec::new();
        proof {
            assert(final_chunks.deep_view() =~= Seq::<Seq<char>>::empty());
            assert(good_splits.deep_view() =~= Seq::<Seq<char>>::empty());
            assert(js =~= (if p.keep_separator {
                Seq::<char>::empty()
            } else {
                model_select(p.regex_mode, seps, text@).0
            }));
            lemma_segment_parts(p.regex_mode, model_select(p.regex_mode, seps, text@).0,
                p.keep_separator, text@);
            assert(Seq::<Seq<char>>::empty().flatten() =~= Seq::<char>::empty());
            assert(segs.take(0) =~= Seq::<Seq<char>>::empty());
        }
        let mut i: usize = 0;
        while i < splits.len()
            invariant
                i <= splits@.len(),
                p == self.params(),
                seps == separators.deep_view(),
                segs == splits.deep_view(),
                tail == new_separators.deep_view(),
                js == separator_for_merge@,
                self.seps_ok(tail),
                new_separators@.len() < separators@.len(),
                tail.len() == new_separators@.len(),
                model_split_walk(
                    p,
                    segs,
                    i as int,
                    tail,
                    js,
                    final_chunks.deep_view(),
                    good_splits.deep_view(),
                ) == model_split(p, text@, seps),
                covered == (self.keep_separator && self._chunk_overlap == 0
                    && !self._strip_whitespace),
                all_nonempty(segs),
                all_nonempty(good_splits.deep_view()),
                covered ==> js =~= Seq::<char>::empty(),
                covered ==> segs.flatten() == text@,
                covered ==> final_chunks.deep_view().flatten()
                    + good_splits.deep_view().flatten() == segs.take(i as int).flatten(),
            decreases splits@.len() - i,
        {
            let ghost chunks_at = final_chunks.deep_view();
            let ghost pending_at = good_splits.deep_view();
            proof {
                assert(segs[i as int] == splits@[i as int]@);
            }
            let s_len = splits[i].unicode_len();
            if s_len < self._chunk_size {
                good_splits.push(splits[i].clone());
                proof {
                    assert(good_splits.deep_view() =~= pending_at.push(segs[i as int]));
                }
            } else {
                if good_splits.len() > 0 {
                    let mut merged = self.merge_splits(&good_splits, separator_for_merge.as_str());
                    let ghost chunks_before = final_chunks.deep_view();
                    let ghost merged_dv = merged.deep_view();
                    final_chunks.append(&mut merged);
                    good_splits = Vec::new();
                    proof {
                        assert(final_chunks.deep_view() =~= chunks_before + merged_dv);
                        assert(good_splits.deep_view() =~= Seq::<Seq<char>>::empty());
                    }
                }
                if new_separators.len() == 0 {
                    let ghost chunks_before = final_chunks.deep_view();
                    final_chunks.push(splits[i].clone());
                    proof {
                        assert(final_chunks.deep_view() =~= chunks_before.push(segs[i as int]));
                    }
                } else {
                    let tail_clone = clone_strings(&new_separators);
                    proof {
                        assert(tail_clone.deep_view() =~= tail);
                    }
                    let mut rec = self.split_text(splits[i].as_str(), tail_clone);
                    let ghost chunks_before = final_chunks.deep_view();
                    let ghost rec_dv = rec.deep_view();
                    final_chunks.append(&mut rec);
                    proof {
                        assert(final_chunks.deep_view() =~= chunks_before + rec_dv);
                    }
                }
            }
            proof {
                let stepped = model_split_walk(p, segs, i as int, tail, js, chunks_at, pending_at);
                if segs[i as int].len() < p.chunk_size {
                    assert(stepped == model_split_walk(
                        p,
                        segs,
                        i as int + 1,
                        tail,
                        js,
                        chunks_at,
                        pending_at.push(segs[i as int]),
                    ));
                } else {
                    let flushed = if pending_at.len() > 0 {
                        chunks_at + model_merge(pending_at, js, p.chunk_size, p.chunk_overlap, p.strip)
                    } else {
                        chunks_at
                    };
                    let grown = if tail.len() == 0 {
                        flushed.push(segs[i as int])
                    } else {
                        flushed + model_split(p, segs[i as int], tail)
                    };
                    assert(stepped == model_split_walk(
                        p,
                        segs,
                        i as int + 1,
                        tail,
                        js,
                        grown,
                        Seq::empty(),
                    ));
                    assert(grown == final_chunks.deep_view());
                    assert(good_splits.deep_view() =~= Seq::<Seq<char>>::empty());
                }
                assert(model_split_walk(p, segs, i as int, tail, js, chunks_at, pending_at)
                    == model_split_walk(
                    p,
                    segs,
                    i as int + 1,
                    tail,
                    js,
                    final_chunks.deep_view(),
                    good_splits.deep_view(),
                ));
                if covered {
                    let s = segs[i as int];
                    assert(segs.take(i as int + 1) =~= segs.take(i as int).push(s));
                    segs.take(i as int).lemma_flatten_push(s);
                    if s.len() < p.chunk_size {
                        pending_at.lemma_flatten_push(s);
                        assert(chunks_at.flatten() + (pending_at.flatten() + s)
                            =~= (chunks_at.flatten() + pending_at.flatten()) + s);
                    } else {
                        let flushed_flat: Seq<char>;
                        if pending_at.len() > 0 {
                            let merged = model_merge(
                                pending_at,
                                js,
                                p.chunk_size,
                                p.chunk_overlap,
                                p.strip,
                            );
                            lemma_merge_coverage(pending_at, js, p.chunk_size);
                            lemma_join_empty_is_flatten(merged);
                            lemma_join_empty_is_flatten(pending_at);
                            vstd::seq_lib::lemma_flatten_concat(chunks_at, merged);
                            flushed_flat = chunks_at.flatten() + pending_at.flatten();
                            assert((chunks_at + merged).flatten() == flushed_flat);
                        } else {
                            assert(pending_at.flatten() =~= Seq::<char>::empty());
                            flushed_flat = chunks_at.flatten() + pending_at.flatten();
                            assert(chunks_at.flatten() =~= flushed_flat);
                        }
                        let flushed = if pending_at.len() > 0 {
                            chunks_at + model_merge(pending_at, js, p.chunk_size, p.chunk_overlap, p.strip)
                        } else {
                            chunks_at
                        };
                        if tail.len() == 0 {
                            flushed.lemma_flatten_push(s);
                        } else {
                            vstd::seq_lib::lemma_flatten_concat(
                                flushed,
                                model_split(p, s, tail),
                            );
                        }
                        assert(good_splits.deep_view().flatten() =~= Seq::<char>::empty());
                        assert(final_chunks.deep_view().flatten()
                            + good_splits.deep_view().flatten() =~= (chunks_at.flatten()
                            + pending_at.flatten()) + s);
                    }
                }
            }
            i = i + 1;
        }
        proof {
            assert(segs.take(splits@.len() as int) =~= segs);
        }
        if good_splits.len() > 0 {
            let mut merged = self.merge_splits(&good_splits, separator_for_merge.as_str());
            let ghost chunks_before = final_chunks.deep_view();
            let ghost pending_before = good_splits.deep_view();
            let ghost merged_dv = merged.deep_view();
            final_chunks.append(&mut merged);
            proof {
                assert(final_chunks.deep_view() =~= chunks_before + merged_dv);
                if covered {
                    lemma_merge_coverage(pending_before, js, p.chunk_size);
                    lemma_join_empty_is_flatten(merged_dv);
                    lemma_join_empty_is_flatten(pending_before);
                    vstd::seq_lib::lemma_flatten_concat(chunks_before, merged_dv);
                }
            }
        } else {
            proof {
                if covered {
                    assert(good_splits.deep_view().flatten() =~= Seq::<char>::empty());
                    assert(final_chunks.deep_view().flatten() + good_splits.deep_view().flatten()
                        =~= final_chunks.deep_view().flatten());
                }
            }
        }
        final_chunks
    }

    /// Whether this configuration can split at all, and the first fault
    /// found when it cannot. Every separator's compiled pattern — the
    /// separator itself in regex mode, its escaped form in literal mode —
    /// is handed to the engine, so nothing is compiled later that was not
    /// checked here.
    fn check_config(&self) -> (r: Option<ConfigError>)
        ensures
            r is None <==> (self.separators@.len() > 0 && self.seps_ok(
                self.separators.deep_view(),
            )),
            r == Some(ConfigError::EmptySeparators) <==> self.separators@.len() == 0,
            r matches Some(ConfigError::InvalidRegex(k)) ==> k < self.separators@.len()
                && !self.sep_ok(self.separators.deep_view()[k as int]) && forall|j: int|
                0 <= j < k ==> self.sep_ok(#[trigger] self.separators.deep_view()[j]),
    {
        if self.separators.len() == 0 {
            return Some(ConfigError::EmptySeparators);
        }
        let mut j: usize = 0;
        while j < self.separators.len()
            invariant
                j <= self.separators@.len(),
                forall|l: int| 0 <= l < j ==> self.sep_ok(#[trigger] self.separators.deep_view()[l]),
            decreases self.separators@.len() - j,
        {
            proof {
                assert(self.separators.deep_view()[j as int] == self.separators@[j as int]@);
            }
            let ok: bool;
            if self.is_separator_regex {
                ok = regex_is_valid(self.separators[j].as_str());
            } else {
                let pat = regex_escape(self.separators[j].as_str());
                ok = regex_is_valid(pat.as_str());
            }
            if !ok {
                return Some(ConfigError::InvalidRegex(j));
            }
            j = j + 1;
        }
        None
    }

    /// Splits `text` with this splitter's own configuration, or reports why
    /// the configuration is unusable: an empty separator list, or a
    /// separator whose compiled pattern the engine rejects.
    pub fn split(&self, text: &str) -> (r: Result<Vec<String>, ConfigError>)
        ensures
            r is Ok <==> (self.separators@.len() > 0 && self.seps_ok(
                self.separators.deep_view(),
            )),
            r == Err::<Vec<String>, ConfigError>(ConfigError::EmptySeparators)
                <==> self.separators@.len() == 0,
            r matches Err(ConfigError::InvalidRegex(k)) ==> k < self.separators@.len()
                && !self.sep_ok(self.separators.deep_view()[k as int]) && forall|j: int|
                0 <= j < k ==> self.sep_ok(#[trigger] self.separators.deep_view()[j]),
            r matches Ok(chunks) ==> chunks.deep_view() == model_split(
                self.params(),
                text@,
                self.separators.deep_view(),
            ),
            self.keep_separator && self._chunk_overlap == 0 && !self._strip_whitespace ==> (
            r matches Ok(chunks) ==> chunks.deep_view().flatten() == text@),
    {
        match self.check_config() {
            Some(e) => Err(e),
            None => {
                let seps = clone_strings(&self.separators);
                proof {
                    assert(seps.deep_view() =~= self.separators.deep_view());
                }
                Ok(self.split_text(text, seps))
            },
        }
    }

    /// Splits every document of a batch independently with this splitter's
    /// configuration, pairing each document identifier with that document's
    /// chunks, in the order the documents were given.
    pub fn split_many(&self, documents: Vec<(String, String)>) -> (r: Result<
        Vec<(String, Vec<String>)>,
        ConfigError,
    >)
        ensures
            r is Ok <==> (self.separators@.len() > 0 && self.seps_ok(
                self.separators.deep_view(),
            )),
            r == Err::<Vec<(String, Vec<String>)>, ConfigError>(ConfigError::EmptySeparators)
                <==> self.separators@.len() == 0,
            r matches Err(ConfigError::InvalidRegex(k)) ==> k < self.separators@.len()
                && !self.sep_ok(self.separators.deep_view()[k as int]) && forall|j: int|
                0 <= j < k ==> self.sep_ok(#[trigger] self.separators.deep_view()[j]),
            r matches Ok(out) ==> out@.len() == documents@.len() && forall|k: int|
                0 <= k < documents@.len() ==> (#[trigger] out@[k]).0@ == documents@[k].0@
                    && out@[k].1.deep_view() == model_split(
                    self.params(),
                    documents@[k].1@,
                    self.separators.deep_view(),
                ),
            self.keep_separator && self._chunk_overlap == 0 && !self._strip_whitespace ==> (
            r matches Ok(out) ==> forall|k: int|
                0 <= k < documents@.len() ==> (#[trigger] out@[k]).1.deep_view().flatten()
                    == documents@[k].1@),
    {
        match self.check_config() {
            Some(e) => Err(e),
            None => {
                let mut out: Vec<(String, Vec<String>)> = Vec::new();
                let mut k: usize = 0;
                while k < documents.len()
                    invariant
                        k <= documents@.len(),
                        out@.len() == k,
                        self.separators@.len() > 0,
                        self.seps_ok(self.separators.deep_view()),
                        forall|l: int|
                            0 <= l < k ==> (#[trigger] out@[l]).0@ == documents@[l].0@
                                && out@[l].1.deep_view() == model_split(
                                self.params(),
                                documents@[l].1@,
                                self.separators.deep_view(),
                            ),
                        self.keep_separator && self._chunk_overlap == 0
                            && !self._strip_whitespace ==> forall|l: int|
                            0 <= l < k ==> (#[trigger] out@[l]).1.deep_view().flatten()
                                == documents@[l].1@,
                    decreases documents@.len() - k,
                {
                    let seps = clone_strings(&self.separators);
                    proof {
                        assert(seps.deep_view() =~= self.separators.deep_view());
                    }
                    let chunks = self.split_text(documents[k].1.as_str(), seps);
                    let id = documents[k].0.clone();
                    out.push((id, chunks));
                    k = k + 1;
                }
                Ok(out)
            },
        }
    }
}

/// Shrinks the merge window from the front after a flush: parts are dropped
/// while the window is over the overlap budget, or while the next part of
/// length `next_len` would still not fit in a chunk.
fn evict_window(
    current_doc: &mut Vec<String>,
    total: &mut u128,
    separator_len: usize,
    chunk_size: usize,
    chunk_overlap: usize,
    next_len: usize,
)
    requires
        *old(total) == total_of(old(current_doc).deep_view(), separator_len as int),
        *old(total) <= 3 * (usize::MAX as u128),
    ensures
        final(current_doc).deep_view() == model_evict(
            old(current_doc).deep_view(),
            separator_len as int,
            chunk_size as int,
            chunk_overlap as int,
            next_len as int,
        ),
        *final(total) as int == total_of(final(current_doc).deep_view(), separator_len as int),
        *final(total) <= chunk_overlap as u128,
        *final(total) <= *old(total),
{
    loop
        invariant
            *total as int == total_of(current_doc.deep_view(), separator_len as int),
            *total <= *old(total),
            *old(total) <= 3 * (usize::MAX as u128),
            model_evict(
                current_doc.deep_view(),
                separator_len as int,
                chunk_size as int,
                chunk_overlap as int,
                next_len as int,
            ) == model_evict(
                old(current_doc).deep_view(),
                separator_len as int,
                chunk_size as int,
                chunk_overlap as int,
                next_len as int,
            ),
        ensures
            *total as int == total_of(current_doc.deep_view(), separator_len as int),
            *total <= *old(total),
            current_doc.deep_view() == model_evict(
                old(current_doc).deep_view(),
                separator_len as int,
                chunk_size as int,
                chunk_overlap as int,
                next_len as int,
            ),
            *total <= chunk_overlap as u128,
        decreases current_doc@.len(),
    {
        let ghost prev = current_doc.deep_view();
        let n = current_doc.len();
        let extra: u128 = if n > 0 {
            separator_len as u128
        } else {
            0
        };
        let over = *total > chunk_overlap as u128 || (*total + next_len as u128 + extra
            > chunk_size as u128 && *total > 0);
        if !over {
            proof {
                assert(model_evict(
                    prev,
                    separator_len as int,
                    chunk_size as int,
                    chunk_overlap as int,
                    next_len as int,
                ) == prev);
            }
            break ;
        }
        proof {
            if n == 0 {
                assert(*total == 0);
            }
            assert(n > 0);
            lemma_total_of_nonneg(prev.drop_first(), separator_len as int);
            assert(current_doc.deep_view()[0] == current_doc@[0]@);
        }
        let first_len = current_doc[0].unicode_len();
        if n > 1 {
            *total = *total - (first_len as u128 + separator_len as u128);
        } else {
            *total = *total - first_len as u128;
        }
        current_doc.remove(0);
        proof {
            assert(current_doc.deep_view() =~= prev.drop_first());
        }
    }
}

} // verus!

