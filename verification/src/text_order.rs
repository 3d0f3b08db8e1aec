//! Lists of texts in name order.
use vstd::prelude::*;

use crate::text::{lemma_lex_total, lemma_lex_transitive, lex_lt, str_lt, texts};

verus! {

/// The list with `t` behind the texts that do not come after it.
pub open spec fn text_placed(s: Seq<Seq<char>>, t: Seq<char>) -> Seq<Seq<char>>
    decreases s.len(),
{
    if s.len() == 0 {
        seq![t]
    } else if lex_lt(t, s.last()) {
        text_placed(s.drop_last(), t).push(s.last())
    } else {
        s.push(t)
    }
}

/// The texts in name order.
pub open spec fn texts_sorted(s: Seq<Seq<char>>) -> Seq<Seq<char>>
    decreases s.len(),
{
    if s.len() == 0 {
        s
    } else {
        text_placed(texts_sorted(s.drop_last()), s.last())
    }
}

/// Whether no text comes before one that stands in front of it.
pub open spec fn in_name_order(s: Seq<Seq<char>>) -> bool {
    forall|i: int, j: int| 0 <= i < j < s.len() ==> !lex_lt(#[trigger] s[j], #[trigger] s[i])
}

proof fn lemma_text_placed(s: Seq<Seq<char>>, t: Seq<char>)
    requires
        in_name_order(s),
    ensures
        in_name_order(text_placed(s, t)),
        text_placed(s, t).to_multiset() == s.to_multiset().insert(t),
        text_placed(s, t).len() == s.len() + 1,
        forall|i: int|
            0 <= i < s.len() + 1 ==> #[trigger] text_placed(s, t)[i] == t || s.contains(
                text_placed(s, t)[i],
            ),
    decreases s.len(),
{
    broadcast use vstd::seq_lib::group_to_multiset_ensures;

    let r = text_placed(s, t);
    if s.len() == 0 {
        assert(s =~= Seq::empty());
        assert(r =~= Seq::<Seq<char>>::empty().push(t));
    } else if lex_lt(t, s.last()) {
        let front = s.drop_last();
        assert(in_name_order(front)) by {
            assert forall|i: int, j: int| 0 <= i < j < front.len() implies !lex_lt(
                #[trigger] front[j],
                #[trigger] front[i],
            ) by {
                assert(front[i] == s[i] && front[j] == s[j]);
            }
        }
        lemma_text_placed(front, t);
        let q = text_placed(front, t);
        assert(s =~= front.push(s.last()));
        assert(r.to_multiset() =~= s.to_multiset().insert(t));
        assert forall|i: int| 0 <= i < r.len() implies #[trigger] r[i] == t || s.contains(
            r[i],
        ) by {
            if i < q.len() {
                assert(r[i] == q[i]);
                if q[i] != t {
                    let k = front.index_of(q[i]);
                    assert(s[k] == q[i]);
                }
            } else {
                assert(s[s.len() - 1] == r[i]);
            }
        }
        assert forall|i: int, j: int| 0 <= i < j < r.len() implies !lex_lt(
            #[trigger] r[j],
            #[trigger] r[i],
        ) by {
            if j < q.len() {
                assert(r[i] == q[i] && r[j] == q[j]);
            } else {
                assert(r[i] == q[i]);
                if q[i] == t {
                    if lex_lt(s.last(), t) {
                        lemma_lex_transitive(t, s.last(), t);
                        crate::text::lemma_lex_irreflexive(t);
                    }
                } else {
                    let k = front.index_of(q[i]);
                    assert(s[k] == q[i] && s[s.len() - 1] == s.last());
                }
            }
        }
    } else {
        assert forall|i: int| 0 <= i < r.len() implies #[trigger] r[i] == t || s.contains(
            r[i],
        ) by {
            if i < s.len() {
                assert(s[i] == r[i]);
            }
        }
        assert forall|i: int, j: int| 0 <= i < j < r.len() implies !lex_lt(
            #[trigger] r[j],
            #[trigger] r[i],
        ) by {
            assert(r[i] == s[i]);
            if j < s.len() {
                assert(r[j] == s[j]);
            } else if lex_lt(t, s[i]) {
                assert(s[s.len() - 1] == s.last());
                if i < s.len() - 1 {
                    lemma_lex_total(s[i], s.last());
                    if lex_lt(s[i], s.last()) {
                        lemma_lex_transitive(t, s[i], s.last());
                    }
                }
            }
        }
    }
}

/// Sorting keeps the texts and puts them into name order.
pub proof fn lemma_texts_sorted(s: Seq<Seq<char>>)
    ensures
        in_name_order(texts_sorted(s)),
        texts_sorted(s).to_multiset() == s.to_multiset(),
    decreases s.len(),
{
    broadcast use vstd::seq_lib::group_to_multiset_ensures;

    if s.len() > 0 {
        lemma_texts_sorted(s.drop_last());
        lemma_text_placed(texts_sorted(s.drop_last()), s.last());
        assert(s =~= s.drop_last().push(s.last()));
    }
}

fn place_text(out: &mut Vec<String>, t: String)
    ensures
        texts(final(out)@) == text_placed(texts(old(out)@), t@),
{
    let ghost s = texts(out@);
    let ghost e = t@;
    let n: usize = out.len();
    let mut i: usize = n;
    proof {
        assert(s.take(n as int) =~= s);
        assert(text_placed(s, e) + s.skip(n as int) =~= text_placed(s, e));
    }
    while i > 0 && str_lt(t.as_str(), out[i - 1].as_str())
        invariant
            i <= n,
            n == out@.len(),
            *out == *old(out),
            s == texts(out@),
            e == t@,
            text_placed(s, e) == text_placed(s.take(i as int), e) + s.skip(i as int),
        decreases i,
    {
        assert(s.take(i as int).last() == s[i - 1]);
        assert(s[i - 1] == out@[i - 1]@);
        assert(s.take(i as int).drop_last() =~= s.take(i - 1));
        assert(text_placed(s.take(i - 1), e).push(s[i - 1]) + s.skip(i as int) =~= text_placed(
            s.take(i - 1),
            e,
        ) + s.skip(i - 1));
        i -= 1;
    }
    proof {
        if i > 0 {
            assert(s.take(i as int).last() == s[i - 1]);
            assert(s[i - 1] == out@[i - 1]@);
        }
        assert(text_placed(s.take(i as int), e) =~= s.take(i as int).push(e));
    }
    out.insert(i, t);
    assert(texts(out@) =~= s.take(i as int).push(e) + s.skip(i as int));
}

/// The texts in name order.
pub fn sort_texts(items: &Vec<String>) -> (r: Vec<String>)
    ensures
        texts(r@) == texts_sorted(texts(items@)),
{
    let ghost all = texts(items@);
    let mut out: Vec<String> = Vec::new();
    let mut i: usize = 0;
    assert(all.take(0) =~= Seq::empty());
    assert(texts(out@) =~= texts_sorted(all.take(0)));
    while i < items.len()
        invariant
            i <= items@.len(),
            all == texts(items@),
            texts(out@) == texts_sorted(all.take(i as int)),
        decreases items@.len() - i,
    {
        proof {
            assert(all.take(i + 1).drop_last() =~= all.take(i as int));
            assert(all.take(i + 1).last() == all[i as int]);
        }
        place_text(&mut out, items[i].clone());
        i += 1;
    }
    assert(all.take(i as int) =~= all);
    out
}

} // verus!
