//! Verified text helpers: whitespace classification and trimming, joining
//! parts with a separator, per-character splitting, interleaving two part
//! lists, and dropping empty parts.

use vstd::prelude::*;
use vstd::string::{StrSliceExecFns, StringExecFns};
use crate::model::{
    char_parts, interleave, is_space_char, join_parts, keep_nonempty, leading_spaces,
    trailing_spaces, trim_spec,
};

verus! {

/// Whether `c` has the Unicode `White_Space` property.
pub fn is_space(c: char) -> (r: bool)
    ensures
        r == is_space_char(c),
{
    let u = c as u32;
    (0x9 <= u && u <= 0xD) || u == 0x20 || u == 0x85 || u == 0xA0 || u == 0x1680 || (0x2000 <= u
        && u <= 0x200A) || u == 0x2028 || u == 0x2029 || u == 0x202F || u == 0x205F || u == 0x3000
}

/// What `leading_spaces` counts: a longest all-whitespace prefix.
pub proof fn lemma_leading_spaces(s: Seq<char>)
    ensures
        0 <= leading_spaces(s) <= s.len(),
        forall|i: int| 0 <= i < leading_spaces(s) ==> is_space_char(#[trigger] s[i]),
        leading_spaces(s) < s.len() ==> !is_space_char(s[leading_spaces(s)]),
    decreases s.len(),
{
    if s.len() > 0 && is_space_char(s[0]) {
        lemma_leading_spaces(s.drop_first());
        assert forall|i: int| 0 <= i < leading_spaces(s) implies is_space_char(#[trigger] s[i]) by {
            if i > 0 {
                assert(is_space_char(s.drop_first()[i - 1]));
            }
        }
        if leading_spaces(s) < s.len() {
            assert(s[leading_spaces(s)] == s.drop_first()[leading_spaces(s.drop_first())]);
        }
    }
}

/// What `trailing_spaces` counts: a longest all-whitespace suffix.
pub proof fn lemma_trailing_spaces(s: Seq<char>)
    ensures
        0 <= trailing_spaces(s) <= s.len(),
        forall|i: int| s.len() - trailing_spaces(s) <= i < s.len() ==> is_space_char(
            #[trigger] s[i],
        ),
        trailing_spaces(s) < s.len() ==> !is_space_char(s[s.len() - trailing_spaces(s) - 1]),
    decreases s.len(),
{
    if s.len() > 0 && is_space_char(s.last()) {
        lemma_trailing_spaces(s.drop_last());
        assert forall|i: int|
            s.len() - trailing_spaces(s) <= i < s.len() implies is_space_char(#[trigger] s[i]) by {
            if i < s.len() - 1 {
                assert(is_space_char(s.drop_last()[i]));
            }
        }
        if trailing_spaces(s) < s.len() {
            assert(s[s.len() - trailing_spaces(s) - 1] == s.drop_last()[s.drop_last().len()
                - trailing_spaces(s.drop_last()) - 1]);
        }
    }
}

/// `s` with leading and trailing whitespace removed.
pub fn trim_chars(s: &str) -> (r: String)
    ensures
        r@ == trim_spec(s@),
{
    let n = s.unicode_len();
    proof {
        lemma_leading_spaces(s@);
        lemma_trailing_spaces(s@);
    }
    let mut a: usize = 0;
    loop
        invariant
            a <= n,
            n == s@.len(),
            forall|i: int| 0 <= i < a ==> is_space_char(#[trigger] s@[i]),
        ensures
            a <= n,
            forall|i: int| 0 <= i < a ==> is_space_char(#[trigger] s@[i]),
            a < n ==> !is_space_char(s@[a as int]),
        decreases n - a,
    {
        if a >= n {
            break ;
        }
        let c = s.get_char(a);
        if !is_space(c) {
            break ;
        }
        a = a + 1;
    }
    if a == n {
        proof {
            if leading_spaces(s@) < n {
                assert(is_space_char(s@[leading_spaces(s@)]));
            }
        }
        return String::new();
    }
    proof {
        if a < leading_spaces(s@) {
            assert(is_space_char(s@[a as int]));
        }
        assert(a as int == leading_spaces(s@));
    }
    let mut b: usize = n;
    loop
        invariant
            a < b <= n,
            n == s@.len(),
            a < n,
            !is_space_char(s@[a as int]),
            forall|i: int| b <= i < n ==> is_space_char(#[trigger] s@[i]),
        ensures
            a < b <= n,
            !is_space_char(s@[b - 1]),
            forall|i: int| b <= i < n ==> is_space_char(#[trigger] s@[i]),
        decreases b,
    {
        let c = s.get_char(b - 1);
        if !is_space(c) {
            break ;
        }
        proof {
            assert(b - 1 > a) by {
                if b - 1 == a {
                    assert(is_space_char(s@[a as int]));
                }
            }
        }
        b = b - 1;
    }
    proof {
        let t = trailing_spaces(s@);
        assert(b as int == n - t) by {
            if n - t < b {
                assert(is_space_char(s@[b - 1]));
            }
            if n - t > b {
                assert(is_space_char(s@[n - t - 1]));
            }
        }
    }
    s.substring_char(a, b).to_owned()
}

/// What joining one more part appends.
pub proof fn lemma_join_parts_push(parts: Seq<Seq<char>>, sep: Seq<char>, x: Seq<char>)
    ensures
        join_parts(parts.push(x), sep) == if parts.len() == 0 {
            x
        } else {
            join_parts(parts, sep) + sep + x
        },
    decreases parts.len(),
{
    if parts.len() == 0 {
        assert(join_parts(parts.push(x), sep) == parts.push(x)[0]);
    } else {
        lemma_join_parts_push(parts.drop_first(), sep, x);
        assert(parts.push(x).drop_first() =~= parts.drop_first().push(x));
        if parts.len() == 1 {
            assert(join_parts(parts.push(x), sep) == parts[0] + sep + x);
        } else {
            assert(parts[0] + sep + (join_parts(parts.drop_first(), sep) + sep + x) =~= (parts[0]
                + sep + join_parts(parts.drop_first(), sep)) + sep + x);
        }
    }
}

/// `parts` joined with `sep` between consecutive parts.
pub fn join_with(parts: &Vec<String>, sep: &str) -> (r: String)
    ensures
        r@ == join_parts(parts.deep_view(), sep@),
{
    let mut r = String::new();
    let mut i: usize = 0;
    while i < parts.len()
        invariant
            i <= parts@.len(),
            r@ == join_parts(parts.deep_view().take(i as int), sep@),
        decreases parts@.len() - i,
    {
        if i > 0 {
            r.append(sep);
        }
        r.append(parts[i].as_str());
        proof {
            lemma_join_parts_push(parts.deep_view().take(i as int), sep@, parts.deep_view()[i as int]);
            assert(parts.deep_view().take(i + 1) =~= parts.deep_view().take(i as int).push(
                parts.deep_view()[i as int],
            ));
        }
        i = i + 1;
    }
    proof {
        assert(parts.deep_view().take(parts@.len() as int) =~= parts.deep_view());
    }
    r
}

/// One single-character string per character of `text`.
pub fn char_splits(text: &str) -> (r: Vec<String>)
    ensures
        r.deep_view() == char_parts(text@),
{
    let n = text.unicode_len();
    let mut r: Vec<String> = Vec::new();
    let mut i: usize = 0;
    while i < n
        invariant
            i <= n,
            n == text@.len(),
            r.deep_view() == char_parts(text@).take(i as int),
        decreases n - i,
    {
        let piece = text.substring_char(i, i + 1);
        let ghost prev = r@;
        r.push(piece.to_owned());
        proof {
            assert(piece@ =~= seq![text@[i as int]]);
            assert(r@.len() == prev.len() + 1);
            assert(r.deep_view().len() == r@.len());
            assert(char_parts(text@).len() == text@.len());
            assert(char_parts(text@).take(i as int).len() == i as int);
            assert(prev.len() == i as int);
            assert(r.deep_view().len() == i as int + 1);
            assert forall|k: int| 0 <= k < i as int + 1 implies r.deep_view()[k] == char_parts(
                text@,
            ).take(i as int + 1)[k] by {
                if k < i as int {
                    assert(r@[k] == prev[k]);
                }
            }
            assert(r.deep_view() =~= char_parts(text@).take(i as int + 1));
        }
        i = i + 1;
    }
    proof {
        assert(char_parts(text@).take(n as int) =~= char_parts(text@));
    }
    r
}

/// `gaps` and `hits` alternated, starting and ending with a gap.
pub fn interleave_parts(gaps: &Vec<String>, hits: &Vec<String>) -> (r: Vec<String>)
    requires
        gaps@.len() == hits@.len() + 1,
    ensures
        r.deep_view() == interleave(gaps.deep_view(), hits.deep_view()),
{
    let ghost full = interleave(gaps.deep_view(), hits.deep_view());
    let mut r: Vec<String> = Vec::new();
    r.push(gaps[0].clone());
    proof {
        assert(r.deep_view() =~= full.take(1));
    }
    let mut j: usize = 0;
    while j < hits.len()
        invariant
            j <= hits@.len(),
            gaps@.len() == hits@.len() + 1,
            full == interleave(gaps.deep_view(), hits.deep_view()),
            r@.len() == 2 * (j as int) + 1,
            r.deep_view() == full.take(2 * (j as int) + 1),
        decreases hits@.len() - j,
    {
        let ghost prev = r@;
        r.push(hits[j].clone());
        r.push(gaps[j + 1].clone());
        proof {
            assert(gaps.deep_view().len() == gaps@.len());
            assert(hits.deep_view().len() == hits@.len());
            assert(full.len() == gaps@.len() + hits@.len());
            assert((2 * (j as int) + 1) % 2 == 1 && (2 * (j as int) + 1 - 1) / 2 == j as int);
            assert((2 * (j as int) + 2) % 2 == 0 && (2 * (j as int) + 2) / 2 == j + 1);
            assert(prev.len() == 2 * (j as int) + 1);
            assert forall|k: int| 0 <= k < 2 * (j as int) + 3 implies r.deep_view()[k] == full.take(
                2 * (j as int) + 3,
            )[k] by {
                if k < 2 * (j as int) + 1 {
                    assert(r@[k] == prev[k]);
                }
            }
            assert(r.deep_view() =~= full.take(2 * (j as int) + 3));
        }
        j = j + 1;
    }
    proof {
        assert(full.take(2 * (hits@.len() as int) + 1) =~= full);
    }
    r
}

/// `parts` without its empty entries.
pub fn drop_empty(parts: Vec<String>) -> (r: Vec<String>)
    ensures
        r.deep_view() == keep_nonempty(parts.deep_view()),
{
    let mut r: Vec<String> = Vec::new();
    proof {
        reveal(Seq::filter);
        assert(keep_nonempty(parts.deep_view().take(0)) =~= Seq::<Seq<char>>::empty());
    }
    let mut i: usize = 0;
    while i < parts.len()
        invariant
            i <= parts@.len(),
            r.deep_view() == keep_nonempty(parts.deep_view().take(i as int)),
        decreases parts@.len() - i,
    {
        let ghost prev = r@;
        if !parts[i].as_str().is_empty() {
            r.push(parts[i].clone());
        }
        proof {
            reveal(Seq::filter);
            assert(parts.deep_view().take(i as int + 1).drop_last() =~= parts.deep_view().take(
                i as int,
            ));
            assert(parts.deep_view().take(i as int + 1).last() == parts.deep_view()[i as int]);
            assert(r.deep_view() =~= keep_nonempty(parts.deep_view().take(i as int + 1)));
        }
        i = i + 1;
    }
    proof {
        assert(parts.deep_view().take(parts@.len() as int) =~= parts.deep_view());
    }
    r
}

/// An exact copy of a string vector.
pub fn clone_strings(v: &Vec<String>) -> (r: Vec<String>)
    ensures
        r@ == v@,
{
    let mut r: Vec<String> = Vec::new();
    let mut i: usize = 0;
    while i < v.len()
        invariant
            i <= v@.len(),
            r@ == v@.take(i as int),
        decreases v@.len() - i,
    {
        r.push(v[i].clone());
        proof {
            assert(r@ =~= v@.take(i as int + 1));
        }
        i = i + 1;
    }
    proof {
        assert(v@.take(v@.len() as int) =~= v@);
    }
    r
}

/// The entries of `v` from position `from` on.
pub fn clone_tail(v: &Vec<String>, from: usize) -> (r: Vec<String>)
    requires
        from <= v@.len(),
    ensures
        r@ == v@.skip(from as int),
{
    let mut r: Vec<String> = Vec::new();
    let mut i: usize = from;
    while i < v.len()
        invariant
            from <= i <= v@.len(),
            r@ == v@.subrange(from as int, i as int),
        decreases v@.len() - i,
    {
        r.push(v[i].clone());
        proof {
            assert(r@ =~= v@.subrange(from as int, i as int + 1));
        }
        i = i + 1;
    }
    proof {
        assert(v@.subrange(from as int, v@.len() as int) =~= v@.skip(from as int));
    }
    r
}

} // verus!
