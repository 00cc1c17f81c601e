//! Cutting a text into the runs that match a search term and those between.
use vstd::prelude::*;
use crate::note_query::lowercase_of;
use crate::text::{chars_of, substring, find_from, occurs_at};

verus! {

/// A run of text, marked where it matches the search term.
pub struct HighlightSpan {
    pub is_match: bool,
    pub text: String,
}

impl HighlightSpan {
    pub open spec fn spec_view(self) -> (bool, Seq<char>) {
        (self.is_match, self.text@)
    }
}

/// The first position at or after `from` where `n` stands in `h`; -1 where
/// there is none.
pub open spec fn next_occurrence(h: Seq<char>, n: Seq<char>, from: int) -> int
    decreases h.len() + 1 - from,
{
    if from < 0 || from + n.len() > h.len() {
        -1
    } else if occurs_at(h, n, from) {
        from
    } else {
        next_occurrence(h, n, from + 1)
    }
}

pub proof fn lemma_next_occurrence(h: Seq<char>, n: Seq<char>, from: int)
    requires
        from >= 0,
    ensures
        next_occurrence(h, n, from) == -1 ==> forall|j: int| from <= j ==> !occurs_at(h, n, j),
        next_occurrence(h, n, from) != -1 ==> from <= next_occurrence(h, n, from) && occurs_at(
            h,
            n,
            next_occurrence(h, n, from),
        ) && forall|j: int| from <= j < next_occurrence(h, n, from) ==> !occurs_at(h, n, j),
    decreases h.len() + 1 - from,
{
    if from + n.len() <= h.len() && !occurs_at(h, n, from) {
        lemma_next_occurrence(h, n, from + 1);
    }
}

/// The runs of `t` from position `from` on: matches are where the folded
/// needle `n` stands in the folded text `h`, found left to right without
/// overlap; the text between them, and after the last, is a run of its own.
pub open spec fn spans_from(t: Seq<char>, h: Seq<char>, n: Seq<char>, from: int) -> Seq<(bool, Seq<char>)>
    decreases h.len() + 1 - from,
{
    if n.len() == 0 || from < 0 {
        if 0 <= from < t.len() {
            seq![(false, t.subrange(from, t.len() as int))]
        } else {
            Seq::empty()
        }
    } else {
        let k = next_occurrence(h, n, from);
        if k < from || k + n.len() > h.len() {
            if from < t.len() {
                seq![(false, t.subrange(from, t.len() as int))]
            } else {
                Seq::empty()
            }
        } else {
            let gap: Seq<(bool, Seq<char>)> = if k > from {
                seq![(false, t.subrange(from, k))]
            } else {
                Seq::empty()
            };
            gap + seq![(true, t.subrange(k, k + n.len()))] + spans_from(t, h, n, k + n.len())
        }
    }
}

/// The runs of `text` for the folded text `folded` and folded needle
/// `needle`, which must have as many characters as `text`.
pub fn spans_of_folded(text: &str, folded: &str, needle: &str) -> (r: Vec<HighlightSpan>)
    requires
        folded@.len() == text@.len(),
    ensures
        r@.map_values(|s: HighlightSpan| s.spec_view()) == spans_from(text@, folded@, needle@, 0),
{
    let h = chars_of(folded);
    let n = chars_of(needle);
    let len = h.len();
    let mut out: Vec<HighlightSpan> = Vec::new();
    if n.len() == 0 {
        if len > 0 {
            out.push(HighlightSpan { is_match: false, text: substring(text, 0, len) });
            assert(out@.map_values(|s: HighlightSpan| s.spec_view()) =~= spans_from(
                text@,
                folded@,
                needle@,
                0,
            ));
        } else {
            assert(out@.map_values(|s: HighlightSpan| s.spec_view()) =~= spans_from(
                text@,
                folded@,
                needle@,
                0,
            ));
        }
        return out;
    }
    let mut from: usize = 0;
    loop
        invariant
            h@ == folded@,
            n@ == needle@,
            n@.len() > 0,
            len == h@.len() == text@.len(),
            from <= len,
            out@.map_values(|s: HighlightSpan| s.spec_view()) + spans_from(text@, folded@, needle@, from as int)
                == spans_from(text@, folded@, needle@, 0),
        decreases len - from,
    {
        let ghost prev = out@.map_values(|s: HighlightSpan| s.spec_view());
        proof {
            lemma_next_occurrence(folded@, needle@, from as int);
        }
        match find_from(&h, &n, from) {
            None => {
                let ghost k = next_occurrence(folded@, needle@, from as int);
                assert(k == -1) by {
                    if k != -1 {
                        assert(occurs_at(folded@, needle@, k));
                    }
                }
                if from < len {
                    out.push(HighlightSpan { is_match: false, text: substring(text, from, len) });
                }
                assert(out@.map_values(|s: HighlightSpan| s.spec_view()) =~= prev + spans_from(
                    text@,
                    folded@,
                    needle@,
                    from as int,
                ));
                assert(out@.map_values(|s: HighlightSpan| s.spec_view()) =~= out@.map_values(
                    |s: HighlightSpan| s.spec_view(),
                ) + spans_from(text@, folded@, needle@, len as int));
                return out;
            },
            Some(k) => {
                let ghost nk = next_occurrence(folded@, needle@, from as int);
                assert(nk == k) by {
                    if nk == -1 {
                    } else if nk < k {
                        assert(!occurs_at(folded@, needle@, nk));
                    } else if nk > k {
                        assert(!occurs_at(folded@, needle@, k as int));
                    }
                }
                let end = k + n.len();
                let ghost gap: Seq<(bool, Seq<char>)> = if k > from {
                    seq![(false, text@.subrange(from as int, k as int))]
                } else {
                    Seq::empty()
                };
                if k > from {
                    out.push(HighlightSpan { is_match: false, text: substring(text, from, k) });
                }
                assert(out@.map_values(|s: HighlightSpan| s.spec_view()) =~= prev + gap);
                let ghost mid = out@.map_values(|s: HighlightSpan| s.spec_view());
                out.push(HighlightSpan { is_match: true, text: substring(text, k, end) });
                assert(out@.map_values(|s: HighlightSpan| s.spec_view()) =~= mid + seq![
                    (true, text@.subrange(k as int, end as int)),
                ]);
                assert(spans_from(text@, folded@, needle@, from as int) == gap + seq![
                    (true, text@.subrange(k as int, end as int)),
                ] + spans_from(text@, folded@, needle@, end as int));
                assert(out@.map_values(|s: HighlightSpan| s.spec_view()) + spans_from(
                    text@,
                    folded@,
                    needle@,
                    end as int,
                ) =~= prev + spans_from(text@, folded@, needle@, from as int));
                from = end;
            },
        }
    }
}

/// The runs of `text` for a search `needle`, matched without regard to case
/// (both lower-cased by `str::to_lowercase`, and matched character by
/// character). Where lower-casing changes the number of characters of
/// `text`, positions in the two would not agree: `text` is then one
/// unmatched run.
pub fn highlight_spans(text: &str, needle: &str) -> (r: Vec<HighlightSpan>)
    ensures
        lowercase_of(text@).len() == text@.len() ==> r@.map_values(|s: HighlightSpan| s.spec_view())
            == spans_from(text@, lowercase_of(text@), lowercase_of(needle@), 0),
        lowercase_of(text@).len() != text@.len() ==> r@.map_values(|s: HighlightSpan| s.spec_view())
            == seq![(false, text@)],
{
    let folded = crate::note_query::lowercase_text(text);
    let folded_needle = crate::note_query::lowercase_text(needle);
    if folded.as_str().unicode_len() == text.unicode_len() {
        spans_of_folded(text, folded.as_str(), folded_needle.as_str())
    } else {
        let mut out: Vec<HighlightSpan> = Vec::new();
        out.push(HighlightSpan { is_match: false, text: String::from_str(text) });
        assert(out@.map_values(|s: HighlightSpan| s.spec_view()) =~= seq![(false, text@)]);
        out
    }
}

/// Concatenated, the texts of the runs give back the text.
pub open spec fn joined(spans: Seq<(bool, Seq<char>)>) -> Seq<char>
    decreases spans.len(),
{
    if spans.len() == 0 {
        Seq::empty()
    } else {
        joined(spans.drop_last()) + spans.last().1
    }
}

proof fn lemma_joined_append(a: Seq<(bool, Seq<char>)>, b: Seq<(bool, Seq<char>)>)
    ensures
        joined(a + b) == joined(a) + joined(b),
    decreases b.len(),
{
    if b.len() == 0 {
        assert(a + b =~= a);
        assert(joined(a) + Seq::<char>::empty() =~= joined(a));
    } else {
        assert((a + b).drop_last() =~= a + b.drop_last());
        lemma_joined_append(a, b.drop_last());
        assert(joined(a) + joined(b.drop_last()) + b.last().1 =~= joined(a) + (joined(b.drop_last())
            + b.last().1));
    }
}

/// The runs cover the text: joined in order, they give back exactly the
/// part of `t` from `from` on.
pub proof fn lemma_spans_cover_text(t: Seq<char>, h: Seq<char>, n: Seq<char>, from: int)
    requires
        h.len() == t.len(),
        0 <= from <= t.len(),
    ensures
        joined(spans_from(t, h, n, from)) == t.subrange(from, t.len() as int),
    decreases h.len() + 1 - from,
{
    reveal_with_fuel(joined, 2);
    if n.len() == 0 {
        if from < t.len() {
            assert(seq![(false, t.subrange(from, t.len() as int))].drop_last() =~= Seq::<(bool, Seq<char>)>::empty());
        }
        assert(t.subrange(from, t.len() as int) =~= Seq::<char>::empty() || from < t.len());
    } else {
        let k = next_occurrence(h, n, from);
        lemma_next_occurrence(h, n, from);
        if k < from {
            if from < t.len() {
                assert(seq![(false, t.subrange(from, t.len() as int))].drop_last() =~= Seq::<(bool, Seq<char>)>::empty());
            } else {
                assert(t.subrange(from, t.len() as int) =~= Seq::<char>::empty());
            }
        } else {
            let gap: Seq<(bool, Seq<char>)> = if k > from {
                seq![(false, t.subrange(from, k))]
            } else {
                Seq::empty()
            };
            let m = seq![(true, t.subrange(k, k + n.len()))];
            lemma_spans_cover_text(t, h, n, k + n.len());
            lemma_joined_append(gap + m, spans_from(t, h, n, k + n.len()));
            lemma_joined_append(gap, m);
            assert(m.drop_last() =~= Seq::<(bool, Seq<char>)>::empty());
            if k > from {
                assert(gap.drop_last() =~= Seq::<(bool, Seq<char>)>::empty());
                assert(joined(gap) =~= t.subrange(from, k));
            } else {
                assert(joined(gap) =~= t.subrange(from, k));
            }
            assert(t.subrange(from, k) + t.subrange(k, k + n.len()) + t.subrange(
                k + n.len(),
                t.len() as int,
            ) =~= t.subrange(from, t.len() as int));
        }
    }
}

} // verus!
