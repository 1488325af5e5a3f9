//! Why quoting the content always grounds: collapsing the whitespace of a
//! stretch of text gives a piece of the collapsed whole.

use vstd::prelude::*;
use crate::text::{
    collapse, contains_seq, index_where, is_ws, join_spaced, lemma_index_where, lemma_index_where_unique,
    lemma_trim_start, occurs_at, trim_start, words, ws_pred,
};

verus! {

/// Whether every character of `s` is whitespace.
pub open spec fn all_ws(s: Seq<char>) -> bool {
    forall|i: int| 0 <= i < s.len() ==> is_ws(#[trigger] s[i])
}

/// Whether no character of `s` is whitespace.
pub open spec fn no_ws(s: Seq<char>) -> bool {
    forall|i: int| 0 <= i < s.len() ==> !is_ws(#[trigger] s[i])
}

proof fn lemma_trim_start_all_ws(s: Seq<char>)
    requires
        all_ws(s),
    ensures
        trim_start(s) == Seq::<char>::empty(),
    decreases s.len(),
{
    if s.len() > 0 {
        assert(all_ws(s.drop_first())) by {
            assert forall|i: int| 0 <= i < s.drop_first().len() implies is_ws(#[trigger] s.drop_first()[i]) by {
                assert(s.drop_first()[i] == s[i + 1]);
            }
        }
        lemma_trim_start_all_ws(s.drop_first());
    } else {
        assert(s =~= Seq::<char>::empty());
    }
}

proof fn lemma_trim_start_ws_prefix(x: Seq<char>, y: Seq<char>)
    requires
        all_ws(x),
    ensures
        trim_start(x + y) == trim_start(y),
    decreases x.len(),
{
    if x.len() > 0 {
        assert((x + y).drop_first() =~= x.drop_first() + y);
        assert((x + y)[0] == x[0]);
        assert(all_ws(x.drop_first())) by {
            assert forall|i: int| 0 <= i < x.drop_first().len() implies is_ws(#[trigger] x.drop_first()[i]) by {
                assert(x.drop_first()[i] == x[i + 1]);
            }
        }
        lemma_trim_start_ws_prefix(x.drop_first(), y);
    } else {
        assert(x + y =~= y);
    }
}

proof fn lemma_trim_start_prefix_ws(s: Seq<char>)
    ensures
        all_ws(s.take(s.len() - trim_start(s).len())),
    decreases s.len(),
{
    lemma_trim_start(s);
    let lead = s.len() - trim_start(s).len();
    if s.len() > 0 && is_ws(s[0]) {
        lemma_trim_start_prefix_ws(s.drop_first());
        assert forall|i: int| 0 <= i < s.take(lead).len() implies is_ws(#[trigger] s.take(lead)[i]) by {
            if i > 0 {
                assert(s.take(lead)[i] == s.drop_first().take(lead - 1)[i - 1]);
            }
        }
    }
}

/// `s` is its leading whitespace followed by `trim_start(s)`.
proof fn lemma_trim_start_split(s: Seq<char>)
    ensures
        s == s.take(s.len() - trim_start(s).len()) + trim_start(s),
        all_ws(s.take(s.len() - trim_start(s).len())),
        trim_start(s).len() > 0 ==> !is_ws(trim_start(s)[0]),
{
    lemma_trim_start(s);
    lemma_trim_start_prefix_ws(s);
    assert(s =~= s.take(s.len() - trim_start(s).len()) + trim_start(s));
}

proof fn lemma_trim_start_plain(s: Seq<char>)
    requires
        s.len() > 0,
        !is_ws(s[0]),
    ensures
        trim_start(s) == s,
{
}

proof fn lemma_join_front(w: Seq<char>, ws: Seq<Seq<char>>)
    ensures
        join_spaced(seq![w] + ws) == (if ws.len() == 0 {
            w
        } else {
            w + seq![' '] + join_spaced(ws)
        }),
    decreases ws.len(),
{
    let all = seq![w] + ws;
    if ws.len() == 0 {
        assert(all =~= seq![w]);
    } else if ws.len() == 1 {
        assert(all.drop_last() =~= seq![w]);
        assert(all.last() == ws[0]);
        assert(join_spaced(seq![w]) == w);
        assert(join_spaced(ws) == ws[0]);
        assert(join_spaced(all) =~= w + seq![' '] + join_spaced(ws));
    } else {
        assert(all.drop_last() =~= seq![w] + ws.drop_last());
        lemma_join_front(w, ws.drop_last());
        assert(all.last() == ws.last());
        assert(join_spaced(all) == join_spaced(seq![w] + ws.drop_last()) + seq![' '] + ws.last());
        assert(join_spaced(ws) == join_spaced(ws.drop_last()) + seq![' '] + ws.last());
        assert(join_spaced(all) =~= w + seq![' '] + join_spaced(ws));
    }
}

/// Every word is non-empty and holds no whitespace.
proof fn lemma_words_plain(s: Seq<char>)
    ensures
        forall|i: int| 0 <= i < words(s).len() ==> (#[trigger] words(s)[i]).len() > 0 && no_ws(words(s)[i]),
    decreases s.len(),
{
    let t = trim_start(s);
    lemma_trim_start(s);
    if t.len() > 0 {
        let k = index_where(t, ws_pred());
        lemma_index_where(t, ws_pred());
        if k > 0 {
            lemma_words_plain(t.skip(k));
            let rest = words(t.skip(k));
            assert(words(s) == seq![t.take(k)] + rest);
            assert forall|i: int| 0 <= i < words(s).len() implies (#[trigger] words(s)[i]).len() > 0 && no_ws(words(s)[i]) by {
                if i == 0 {
                    assert(words(s)[0] == t.take(k));
                    assert forall|j: int| 0 <= j < t.take(k).len() implies !is_ws(#[trigger] t.take(k)[j]) by {
                        assert(!ws_pred()(t[j]));
                    }
                } else {
                    assert(words(s)[i] == rest[i - 1]);
                }
            }
        }
    }
}

proof fn lemma_join_nonempty(ws: Seq<Seq<char>>)
    requires
        ws.len() > 0,
        forall|i: int| 0 <= i < ws.len() ==> (#[trigger] ws[i]).len() > 0,
    ensures
        join_spaced(ws).len() > 0,
    decreases ws.len(),
{
    if ws.len() > 1 {
        assert(ws.last() == ws[ws.len() - 1]);
    } else {
        assert(ws[0].len() > 0);
    }
}

/// The collapsed text is empty exactly when there is no word.
proof fn lemma_collapse_empty(s: Seq<char>)
    ensures
        (collapse(s).len() == 0) == (words(s).len() == 0),
{
    lemma_words_plain(s);
    if words(s).len() > 0 {
        lemma_join_nonempty(words(s));
    }
}

/// The collapsed text is the first word, then, when more follow, a space
/// and the collapsed rest.
proof fn lemma_collapse_step(s: Seq<char>)
    ensures
        trim_start(s).len() == 0 ==> collapse(s) == Seq::<char>::empty(),
        trim_start(s).len() > 0 ==> {
            let t = trim_start(s);
            let k = index_where(t, ws_pred());
            &&& 0 < k <= t.len()
            &&& no_ws(t.take(k))
            &&& k < t.len() ==> is_ws(t[k])
            &&& collapse(s) == if collapse(t.skip(k)).len() == 0 {
                t.take(k)
            } else {
                t.take(k) + seq![' '] + collapse(t.skip(k))
            }
        },
{
    let t = trim_start(s);
    lemma_trim_start(s);
    if t.len() > 0 {
        let k = index_where(t, ws_pred());
        lemma_index_where(t, ws_pred());
        assert(!ws_pred()(t[0]));
        assert(k > 0);
        assert forall|j: int| 0 <= j < t.take(k).len() implies !is_ws(#[trigger] t.take(k)[j]) by {
            assert(!ws_pred()(t[j]));
        }
        if k < t.len() {
            assert(ws_pred()(t[k]));
        }
        assert(words(s) == seq![t.take(k)] + words(t.skip(k)));
        lemma_join_front(t.take(k), words(t.skip(k)));
        lemma_collapse_empty(t.skip(k));
    }
}

/// The first word of `u`, a non-empty prefix of `t` that starts with a
/// non-space: it ends where `t`'s first word ends, or at `u`'s end.
proof fn lemma_first_word_of_prefix(t: Seq<char>, n: int)
    requires
        0 < n <= t.len(),
    ensures
        index_where(t.take(n), ws_pred()) == if index_where(t, ws_pred()) < n {
            index_where(t, ws_pred())
        } else {
            n
        },
{
    let u = t.take(n);
    let k = index_where(t, ws_pred());
    lemma_index_where(t, ws_pred());
    let ku = if k < n { k } else { n };
    assert forall|j: int| 0 <= j < ku implies !ws_pred()(#[trigger] u[j]) by {
        assert(u[j] == t[j]);
    }
    if ku < n {
        assert(u[ku] == t[k]);
    }
    lemma_index_where_unique(u, ws_pred(), ku);
}

/// Collapsing the start of a text gives the start of the collapsed text.
proof fn lemma_collapse_prefix(y: Seq<char>, m: int)
    requires
        0 <= m <= y.len(),
    ensures
        collapse(y.take(m)).is_prefix_of(collapse(y)),
    decreases y.len(),
{
    let t = trim_start(y);
    let lead = y.len() - t.len();
    lemma_trim_start_split(y);
    lemma_collapse_step(y);
    let ym = y.take(m);
    if m <= lead {
        assert(all_ws(ym)) by {
            assert forall|i: int| 0 <= i < ym.len() implies is_ws(#[trigger] ym[i]) by {
                assert(ym[i] == y.take(lead)[i]);
            }
        }
        lemma_trim_start_all_ws(ym);
        lemma_collapse_step(ym);
        assert(collapse(ym) =~= Seq::<char>::empty());
    } else {
        let u = t.take(m - lead);
        assert(ym =~= y.take(lead) + u);
        lemma_trim_start_ws_prefix(y.take(lead), u);
        assert(u[0] == t[0]);
        lemma_trim_start_plain(u);
        assert(trim_start(ym) == u);
        lemma_collapse_step(ym);
        let k = index_where(t, ws_pred());
        lemma_first_word_of_prefix(t, m - lead);
        let ku = index_where(u, ws_pred());
        let cy = collapse(y);
        let cm = collapse(ym);
        if ku == u.len() {
            assert(u.skip(ku) =~= Seq::<char>::empty());
            lemma_trim_start_all_ws(u.skip(ku));
            lemma_collapse_step(u.skip(ku));
            assert(cm == u.take(ku));
            assert(u.take(ku) =~= t.take(k).take(m - lead));
            assert(cm =~= cy.subrange(0, cm.len() as int));
        } else {
            assert(ku == k);
            assert(u.take(k) =~= t.take(k));
            assert(u.skip(k) =~= t.skip(k).take(m - lead - k));
            lemma_collapse_prefix(t.skip(k), m - lead - k);
            let cr = collapse(t.skip(k));
            let cp = collapse(u.skip(k));
            if cp.len() == 0 {
                assert(cm == t.take(k));
                assert(cm =~= cy.subrange(0, cm.len() as int));
            } else {
                assert(cr.len() > 0);
                assert(cm == t.take(k) + seq![' '] + cp);
                assert(cy == t.take(k) + seq![' '] + cr);
                assert(cp =~= cr.subrange(0, cp.len() as int));
                assert(cm =~= cy.subrange(0, cm.len() as int));
            }
        }
    }
}

proof fn lemma_same_start_same_collapse(x: Seq<char>, y: Seq<char>)
    requires
        trim_start(x) == trim_start(y),
    ensures
        collapse(x) == collapse(y),
{
    assert(words(x) == words(y));
}

/// A piece of one word collapses to itself.
proof fn lemma_collapse_plain(q: Seq<char>)
    requires
        q.len() > 0,
        no_ws(q),
    ensures
        collapse(q) == q,
{
    lemma_trim_start_plain(q);
    lemma_index_where_unique(q, ws_pred(), q.len() as int);
    lemma_collapse_step(q);
    let e = q.skip(q.len() as int);
    assert(e =~= Seq::<char>::empty());
    lemma_trim_start_all_ws(e);
    lemma_collapse_step(e);
    assert(q.take(q.len() as int) =~= q);
}

/// Collapsing the whitespace of any stretch of a text gives a piece of the
/// collapsed text (unless it gives nothing).
proof fn lemma_collapse_span(s: Seq<char>, a: int, b: int)
    requires
        0 <= a <= b <= s.len(),
        collapse(s.subrange(a, b)).len() > 0,
    ensures
        contains_seq(collapse(s), collapse(s.subrange(a, b))),
    decreases s.len(), (if a < s.len() - trim_start(s).len() { 1int } else { 0int }),
{
    let t = trim_start(s);
    let lead = s.len() - t.len();
    lemma_trim_start_split(s);
    lemma_collapse_step(s);
    let q = s.subrange(a, b);
    if t.len() == 0 || b <= lead {
        assert(all_ws(q)) by {
            assert forall|i: int| 0 <= i < q.len() implies is_ws(#[trigger] q[i]) by {
                assert(q[i] == s[a + i]);
                assert(s[a + i] == s.take(lead)[a + i]);
            }
        }
        lemma_trim_start_all_ws(q);
        lemma_collapse_step(q);
        assert(false);
    } else if a < lead {
        let q2 = s.subrange(lead, b);
        assert(q =~= s.subrange(a, lead) + q2);
        assert(all_ws(s.subrange(a, lead))) by {
            assert forall|i: int| 0 <= i < lead - a implies is_ws(#[trigger] s.subrange(a, lead)[i]) by {
                assert(s.subrange(a, lead)[i] == s.take(lead)[a + i]);
            }
        }
        lemma_trim_start_ws_prefix(s.subrange(a, lead), q2);
        lemma_same_start_same_collapse(q, q2);
        lemma_collapse_span(s, lead, b);
    } else {
        let k = index_where(t, ws_pred());
        let e = lead + k;
        let w = t.take(k);
        let rest = t.skip(k);
        let cs = collapse(s);
        let cq = collapse(q);
        assert(cs.subrange(0, k) =~= w);
        if a < e {
            let j = a - lead;
            if b <= e {
                assert(q =~= w.subrange(j, b - lead));
                assert(no_ws(q)) by {
                    assert forall|i: int| 0 <= i < q.len() implies !is_ws(#[trigger] q[i]) by {
                        assert(q[i] == w[j + i]);
                    }
                }
                if q.len() == 0 {
                    assert(q =~= Seq::<char>::empty());
                    lemma_trim_start_all_ws(q);
                    lemma_collapse_step(q);
                    assert(false);
                }
                lemma_collapse_plain(q);
                assert(cs.subrange(j, j + cq.len()) =~= cq);
                assert(occurs_at(cs, cq, j));
            } else {
                assert(k < t.len());
                assert(q =~= w.skip(j) + rest.take(b - e));
                assert(q[0] == t[j]);
                lemma_trim_start_plain(q);
                assert forall|i: int| 0 <= i < k - j implies !ws_pred()(#[trigger] q[i]) by {
                    assert(q[i] == w[j + i]);
                }
                assert(q[k - j] == t[k]);
                lemma_index_where_unique(q, ws_pred(), k - j);
                lemma_collapse_step(q);
                assert(q.take(k - j) =~= w.skip(j));
                assert(q.skip(k - j) =~= rest.take(b - e));
                lemma_collapse_prefix(rest, b - e);
                let p = collapse(rest.take(b - e));
                if p.len() == 0 {
                    assert(cq == w.skip(j));
                    assert(cs.subrange(j, j + cq.len()) =~= cq);
                } else {
                    assert(cq == w.skip(j) + seq![' '] + p);
                    assert(collapse(rest).len() > 0);
                    assert(cs == w + seq![' '] + collapse(rest));
                    assert(p =~= collapse(rest).subrange(0, p.len() as int));
                    assert(cs.subrange(j, j + cq.len()) =~= cq);
                }
                assert(occurs_at(cs, cq, j));
            }
        } else {
            assert(s.skip(e) =~= rest);
            assert(q =~= rest.subrange(a - e, b - e));
            lemma_collapse_span(rest, a - e, b - e);
            let cr = collapse(rest);
            let i = choose|i: int| occurs_at(cr, cq, i);
            assert(cr.len() > 0);
            assert(cs == w + seq![' '] + cr);
            assert(cs.subrange(k + 1 + i, k + 1 + i + cq.len()) =~= cr.subrange(i, i + cq.len()));
            assert(occurs_at(cs, cq, k + 1 + i));
        }
    }
}

/// Text with a non-space in it collapses to something.
proof fn lemma_collapse_nonblank(q: Seq<char>)
    requires
        exists|i: int| 0 <= i < q.len() && !is_ws(#[trigger] q[i]),
    ensures
        collapse(q).len() > 0,
{
    lemma_trim_start_split(q);
    lemma_collapse_step(q);
    let lead = q.len() - trim_start(q).len();
    if trim_start(q).len() == 0 {
        let i = choose|i: int| 0 <= i < q.len() && !is_ws(#[trigger] q[i]);
        assert(q[i] == q.take(lead)[i]);
    }
}

/// A quote cut from the content grounds, whatever its whitespace and line
/// breaks: every stretch of the content with a non-space in it collapses to
/// a piece of the collapsed content.
pub proof fn law_content_stretch_grounds(content: Seq<char>, a: int, b: int)
    requires
        0 <= a <= b <= content.len(),
        exists|i: int| a <= i < b && !is_ws(#[trigger] content[i]),
    ensures
        collapse(content.subrange(a, b)).len() > 0,
        contains_seq(collapse(content), collapse(content.subrange(a, b))),
{
    let q = content.subrange(a, b);
    let i = choose|i: int| a <= i < b && !is_ws(#[trigger] content[i]);
    assert(q[i - a] == content[i]);
    lemma_collapse_nonblank(q);
    lemma_collapse_span(content, a, b);
}

} // verus!
