//! What the text of an interval set says: the tokens it is made of, and the
//! values they hold.
use vstd::prelude::*;
use crate::interval::in_interval;
use crate::interval_set::{covered, member, render_from, IntervalSet, Status};
use crate::text::int_text;

verus! {

/// One token of the text.
pub enum Token {
    /// The values from the first to the third field, each end open where its
    /// flag says so.
    Span(i64, bool, i64, bool),
    /// The single value, outside every interval.
    Single(i64),
}

/// The text of one token, with its closing comma.
pub open spec fn token_text(t: Token) -> Seq<char> {
    match t {
        Token::Span(a, ao, b, bo) => seq![if ao { '(' } else { '[' }] + int_text(a as int) + seq![',']
            + int_text(b as int) + seq![if bo { ')' } else { ']' }, ','],
        Token::Single(p) => seq!['≠'] + int_text(p as int) + seq![','],
    }
}

/// The texts of `ts`, one after another.
pub open spec fn tokens_text(ts: Seq<Token>) -> Seq<char>
    decreases ts.len(),
{
    if ts.len() == 0 {
        Seq::empty()
    } else {
        token_text(ts[0]) + tokens_text(ts.drop_first())
    }
}

/// Whether token `t` holds `v`.
pub open spec fn token_holds(t: Token, v: i64) -> bool {
    match t {
        Token::Span(a, ao, b, bo) => in_interval(a as int, b as int, ao, bo, v as int),
        Token::Single(p) => p == v,
    }
}

/// Whether some token of `ts` holds `v`.
pub open spec fn tokens_hold(ts: Seq<Token>, v: i64) -> bool
    decreases ts.len(),
{
    ts.len() > 0 && (token_holds(ts[0], v) || tokens_hold(ts.drop_first(), v))
}

/// The tokens that `render_from` writes for intervals `ivs` and markers `pts`;
/// `open` is the span begun but not closed: its left end, whether that end is
/// open, and the right end of its interval.
pub open spec fn render_tokens(
    ivs: Seq<(i64, i64)>,
    pts: Seq<(i64, Status)>,
    open: Option<(i64, bool, i64)>,
) -> Seq<Token>
    decreases ivs.len() + pts.len(), if open is Some { 1int } else { 0int },
{
    match open {
        Some((c, co, b)) => {
            if pts.len() > 0 && pts[0].0 < b {
                seq![Token::Span(c, co, pts[0].0, true)] + render_tokens(
                    ivs,
                    pts.drop_first(),
                    Some((pts[0].0, true, b)),
                )
            } else if pts.len() > 0 && pts[0].0 == b {
                seq![Token::Span(c, co, b, true)] + render_tokens(ivs, pts.drop_first(), None)
            } else {
                seq![Token::Span(c, co, b, false)] + render_tokens(ivs, pts, None)
            }
        },
        None => {
            if ivs.len() == 0 && pts.len() == 0 {
                Seq::empty()
            } else if ivs.len() == 0 || (pts.len() > 0 && pts[0].0 < ivs[0].0) {
                seq![Token::Single(pts[0].0)] + render_tokens(ivs, pts.drop_first(), None)
            } else if pts.len() > 0 && pts[0].0 == ivs[0].0 {
                render_tokens(ivs.drop_first(), pts.drop_first(), Some((ivs[0].0, true, ivs[0].1)))
            } else {
                render_tokens(ivs.drop_first(), pts, Some((ivs[0].0, false, ivs[0].1)))
            }
        },
    }
}

/// The text that opens a span.
pub open spec fn open_text(c: i64, co: bool) -> Seq<char> {
    seq![if co { '(' } else { '[' }] + int_text(c as int) + seq![',']
}

proof fn lemma_tokens_text_cons(t: Token, rest: Seq<Token>)
    ensures
        tokens_text(seq![t] + rest) == token_text(t) + tokens_text(rest),
{
    assert((seq![t] + rest).drop_first() =~= rest);
}

/// The rendered text is the text of the rendered tokens.
pub proof fn lemma_text_is_tokens(ivs: Seq<(i64, i64)>, pts: Seq<(i64, Status)>, open: Option<(i64, bool, i64)>)
    ensures
        open is None ==> render_from(ivs, pts, None) == tokens_text(render_tokens(ivs, pts, None)),
        open matches Some((c, co, b)) ==> open_text(c, co) + render_from(ivs, pts, Some(b))
            == tokens_text(render_tokens(ivs, pts, open)),
    decreases ivs.len() + pts.len(), if open is Some { 1int } else { 0int },
{
    match open {
        Some((c, co, b)) => {
            if pts.len() > 0 && pts[0].0 < b {
                let p = pts[0].0;
                lemma_text_is_tokens(ivs, pts.drop_first(), Some((p, true, b)));
                lemma_tokens_text_cons(
                    Token::Span(c, co, p, true),
                    render_tokens(ivs, pts.drop_first(), Some((p, true, b))),
                );
                assert(open_text(c, co) + render_from(ivs, pts, Some(b)) =~= token_text(
                    Token::Span(c, co, p, true),
                ) + (open_text(p, true) + render_from(ivs, pts.drop_first(), Some(b))));
            } else if pts.len() > 0 && pts[0].0 == b {
                lemma_text_is_tokens(ivs, pts.drop_first(), None);
                lemma_tokens_text_cons(
                    Token::Span(c, co, b, true),
                    render_tokens(ivs, pts.drop_first(), None),
                );
                assert(open_text(c, co) + render_from(ivs, pts, Some(b)) =~= token_text(
                    Token::Span(c, co, b, true),
                ) + render_from(ivs, pts.drop_first(), None));
            } else {
                lemma_text_is_tokens(ivs, pts, None);
                lemma_tokens_text_cons(Token::Span(c, co, b, false), render_tokens(ivs, pts, None));
                assert(open_text(c, co) + render_from(ivs, pts, Some(b)) =~= token_text(
                    Token::Span(c, co, b, false),
                ) + render_from(ivs, pts, None));
            }
        },
        None => {
            if ivs.len() == 0 && pts.len() == 0 {
            } else if ivs.len() == 0 || (pts.len() > 0 && pts[0].0 < ivs[0].0) {
                lemma_text_is_tokens(ivs, pts.drop_first(), None);
                lemma_tokens_text_cons(Token::Single(pts[0].0), render_tokens(ivs, pts.drop_first(), None));
                assert(render_from(ivs, pts, None) =~= token_text(Token::Single(pts[0].0)) + render_from(
                    ivs,
                    pts.drop_first(),
                    None,
                ));
            } else if pts.len() > 0 && pts[0].0 == ivs[0].0 {
                lemma_text_is_tokens(ivs.drop_first(), pts.drop_first(), Some((ivs[0].0, true, ivs[0].1)));
                assert(render_from(ivs, pts, None) =~= open_text(ivs[0].0, true) + render_from(
                    ivs.drop_first(),
                    pts.drop_first(),
                    Some(ivs[0].1),
                ));
            } else {
                lemma_text_is_tokens(ivs.drop_first(), pts, Some((ivs[0].0, false, ivs[0].1)));
                assert(render_from(ivs, pts, None) =~= open_text(ivs[0].0, false) + render_from(
                    ivs.drop_first(),
                    pts,
                    Some(ivs[0].1),
                ));
            }
        },
    }
}

/// Whether one of the intervals `ivs` holds `v`.
pub open spec fn seq_covered(ivs: Seq<(i64, i64)>, v: i64) -> bool {
    exists|i: int| 0 <= i < ivs.len() && #[trigger] ivs[i].0 <= v <= ivs[i].1
}

/// Whether one of the markers `pts` is at `v`.
pub open spec fn seq_marked(pts: Seq<(i64, Status)>, v: i64) -> bool {
    exists|j: int| 0 <= j < pts.len() && #[trigger] pts[j].0 == v
}

/// The intervals run in increasing order, apart and not touching.
pub open spec fn seq_canonical(ivs: Seq<(i64, i64)>) -> bool {
    &&& forall|i: int| 0 <= i < ivs.len() ==> #[trigger] ivs[i].0 <= ivs[i].1
    &&& forall|i: int, j: int| 0 <= i < j < ivs.len() ==> #[trigger] ivs[i].1 < #[trigger] ivs[j].0
}

/// The markers run in increasing order.
pub open spec fn seq_sorted(pts: Seq<(i64, Status)>) -> bool {
    forall|i: int, j: int| 0 <= i < j < pts.len() ==> #[trigger] pts[i].0 < #[trigger] pts[j].0
}

/// What the tokens from a render state hold: with no span open, the values
/// that an interval or a marker holds, but not both; with a span open from
/// `c`, also the unmarked values of the span up to `b`.
pub open spec fn state_holds(
    ivs: Seq<(i64, i64)>,
    pts: Seq<(i64, Status)>,
    open: Option<(i64, bool, i64)>,
    v: i64,
) -> bool {
    match open {
        None => seq_covered(ivs, v) != seq_marked(pts, v),
        Some((c, co, b)) => if in_interval(c as int, b as int, co, false, v as int) {
            !seq_marked(pts, v)
        } else if v > b {
            seq_covered(ivs, v) != seq_marked(pts, v)
        } else {
            false
        },
    }
}

proof fn lemma_tokens_hold_cons(t: Token, rest: Seq<Token>, v: i64)
    ensures
        tokens_hold(seq![t] + rest, v) == (token_holds(t, v) || tokens_hold(rest, v)),
{
    assert((seq![t] + rest).drop_first() =~= rest);
}

proof fn lemma_drop_first_facts(ivs: Seq<(i64, i64)>, pts: Seq<(i64, Status)>, v: i64)
    ensures
        ivs.len() > 0 ==> seq_covered(ivs, v) == ((ivs[0].0 <= v <= ivs[0].1) || seq_covered(
            ivs.drop_first(),
            v,
        )),
        pts.len() > 0 ==> seq_marked(pts, v) == (pts[0].0 == v || seq_marked(pts.drop_first(), v)),
{
    if ivs.len() > 0 {
        let d = ivs.drop_first();
        if seq_covered(ivs, v) {
            let i = choose|i: int| 0 <= i < ivs.len() && #[trigger] ivs[i].0 <= v <= ivs[i].1;
            if i > 0 {
                assert(d[i - 1] == ivs[i]);
            }
        }
        if seq_covered(d, v) {
            let i = choose|i: int| 0 <= i < d.len() && #[trigger] d[i].0 <= v <= d[i].1;
            assert(ivs[i + 1] == d[i]);
        }
    }
    if pts.len() > 0 {
        let d = pts.drop_first();
        if seq_marked(pts, v) {
            let j = choose|j: int| 0 <= j < pts.len() && #[trigger] pts[j].0 == v;
            if j > 0 {
                assert(d[j - 1] == pts[j]);
            }
        }
        if seq_marked(d, v) {
            let j = choose|j: int| 0 <= j < d.len() && #[trigger] d[j].0 == v;
            assert(pts[j + 1] == d[j]);
        }
    }
}

/// The tokens from each render state hold what `state_holds` says.
pub proof fn lemma_tokens_hold(ivs: Seq<(i64, i64)>, pts: Seq<(i64, Status)>, open: Option<(i64, bool, i64)>)
    requires
        seq_canonical(ivs),
        seq_sorted(pts),
        open matches Some((c, co, b)) ==> c <= b && (forall|i: int| 0 <= i < ivs.len() ==> #[trigger] ivs[i].0 > b)
            && (forall|j: int| 0 <= j < pts.len() ==> #[trigger] pts[j].0 > c),
    ensures
        forall|v: i64| #[trigger] tokens_hold(render_tokens(ivs, pts, open), v) == state_holds(ivs, pts, open, v),
    decreases ivs.len() + pts.len(), if open is Some { 1int } else { 0int },
{
    let di = ivs.drop_first();
    let dp = pts.drop_first();
    assert(ivs.len() > 0 ==> seq_canonical(di)) by {
        if ivs.len() > 0 {
            assert forall|i: int, j: int| 0 <= i < j < di.len() implies #[trigger] di[i].1 < #[trigger] di[j].0 by {
                assert(ivs[i + 1].1 < ivs[j + 1].0);
            }
            assert forall|i: int| 0 <= i < di.len() implies #[trigger] di[i].0 <= di[i].1 by {
                assert(ivs[i + 1].0 <= ivs[i + 1].1);
            }
        }
    }
    assert(pts.len() > 0 ==> seq_sorted(dp)) by {
        if pts.len() > 0 {
            assert forall|i: int, j: int| 0 <= i < j < dp.len() implies #[trigger] dp[i].0 < #[trigger] dp[j].0 by {
                assert(pts[i + 1].0 < pts[j + 1].0);
            }
        }
    }
    match open {
        Some((c, co, b)) => {
            if pts.len() > 0 && pts[0].0 < b {
                let p = pts[0].0;
                assert forall|j: int| 0 <= j < dp.len() implies #[trigger] dp[j].0 > p by {
                    assert(pts[0].0 < pts[j + 1].0);
                }
                lemma_tokens_hold(ivs, dp, Some((p, true, b)));
                assert forall|v: i64| #[trigger] tokens_hold(render_tokens(ivs, pts, open), v) == state_holds(
                    ivs,
                    pts,
                    open,
                    v,
                ) by {
                    lemma_tokens_hold_cons(Token::Span(c, co, p, true), render_tokens(ivs, dp, Some((p, true, b))), v);
                    lemma_drop_first_facts(ivs, pts, v);
                    if v < p && seq_marked(dp, v) {
                        let j = choose|j: int| 0 <= j < dp.len() && #[trigger] dp[j].0 == v;
                    }
                }
            } else if pts.len() > 0 && pts[0].0 == b {
                lemma_tokens_hold(ivs, dp, None);
                assert forall|v: i64| #[trigger] tokens_hold(render_tokens(ivs, pts, open), v) == state_holds(
                    ivs,
                    pts,
                    open,
                    v,
                ) by {
                    lemma_tokens_hold_cons(Token::Span(c, co, b, true), render_tokens(ivs, dp, None), v);
                    lemma_drop_first_facts(ivs, pts, v);
                    if v <= b && seq_covered(ivs, v) {
                        let i = choose|i: int| 0 <= i < ivs.len() && #[trigger] ivs[i].0 <= v <= ivs[i].1;
                    }
                    if v <= b && seq_marked(dp, v) {
                        let j = choose|j: int| 0 <= j < dp.len() && #[trigger] dp[j].0 == v;
                        assert(pts[0].0 < pts[j + 1].0);
                    }
                }
            } else {
                lemma_tokens_hold(ivs, pts, None);
                assert forall|v: i64| #[trigger] tokens_hold(render_tokens(ivs, pts, open), v) == state_holds(
                    ivs,
                    pts,
                    open,
                    v,
                ) by {
                    lemma_tokens_hold_cons(Token::Span(c, co, b, false), render_tokens(ivs, pts, None), v);
                    if v <= b && seq_covered(ivs, v) {
                        let i = choose|i: int| 0 <= i < ivs.len() && #[trigger] ivs[i].0 <= v <= ivs[i].1;
                    }
                    if v <= b && seq_marked(pts, v) {
                        let j = choose|j: int| 0 <= j < pts.len() && #[trigger] pts[j].0 == v;
                        if j > 0 {
                            assert(pts[0].0 < pts[j].0);
                        }
                    }
                }
            }
        },
        None => {
            if ivs.len() == 0 && pts.len() == 0 {
            } else if ivs.len() == 0 || (pts.len() > 0 && pts[0].0 < ivs[0].0) {
                lemma_tokens_hold(ivs, dp, None);
                assert forall|v: i64| #[trigger] tokens_hold(render_tokens(ivs, pts, open), v) == state_holds(
                    ivs,
                    pts,
                    open,
                    v,
                ) by {
                    lemma_tokens_hold_cons(Token::Single(pts[0].0), render_tokens(ivs, dp, None), v);
                    lemma_drop_first_facts(ivs, pts, v);
                    if v == pts[0].0 {
                        if seq_covered(ivs, v) {
                            let i = choose|i: int| 0 <= i < ivs.len() && #[trigger] ivs[i].0 <= v <= ivs[i].1;
                            if i > 0 {
                                assert(ivs[0].1 < ivs[i].0);
                            }
                        }
                        if seq_marked(dp, v) {
                            let j = choose|j: int| 0 <= j < dp.len() && #[trigger] dp[j].0 == v;
                            assert(pts[0].0 < pts[j + 1].0);
                        }
                    }
                }
            } else {
                let a = ivs[0].0;
                let b = ivs[0].1;
                let co = pts.len() > 0 && pts[0].0 == a;
                let rest = if co { dp } else { pts };
                assert forall|i: int| 0 <= i < di.len() implies #[trigger] di[i].0 > b by {
                    assert(ivs[0].1 < ivs[i + 1].0);
                }
                assert forall|j: int| 0 <= j < rest.len() implies #[trigger] rest[j].0 > a by {
                    if co {
                        assert(pts[0].0 < pts[j + 1].0);
                    } else if j > 0 {
                        assert(pts[0].0 < pts[j].0);
                    }
                }
                lemma_tokens_hold(di, rest, Some((a, co, b)));
                assert forall|v: i64| #[trigger] tokens_hold(render_tokens(ivs, pts, open), v) == state_holds(
                    ivs,
                    pts,
                    open,
                    v,
                ) by {
                    lemma_drop_first_facts(ivs, pts, v);
                    assert(render_tokens(ivs, pts, open) == render_tokens(di, rest, Some((a, co, b))));
                    assert(tokens_hold(render_tokens(di, rest, Some((a, co, b))), v) == state_holds(
                        di,
                        rest,
                        Some((a, co, b)),
                        v,
                    ));
                    if co {
                        assert(seq_marked(pts, v) == (a == v || seq_marked(dp, v)));
                    }
                    if a <= v <= b {
                        assert(seq_covered(ivs, v));
                    }
                    if v > b {
                        assert(seq_covered(ivs, v) == seq_covered(di, v));
                    }
                    if v < a {
                        if seq_covered(di, v) {
                            let i = choose|i: int| 0 <= i < di.len() && #[trigger] di[i].0 <= v <= di[i].1;
                        }
                        if seq_marked(pts, v) {
                            let j = choose|j: int| 0 <= j < pts.len() && #[trigger] pts[j].0 == v;
                            if j > 0 {
                                assert(pts[0].0 < pts[j].0);
                            }
                        }
                    }
                    if v <= b && seq_covered(di, v) {
                        let i = choose|i: int| 0 <= i < di.len() && #[trigger] di[i].0 <= v <= di[i].1;
                    }
                }
            }
        },
    }
}

/// The text of a set is the text of its tokens, in increasing order, and the
/// tokens hold exactly the values of the set.
pub proof fn lemma_text_denotes_set(s: &IntervalSet)
    requires
        s.wf(),
    ensures
        render_from(s.interval_seq(), s.point_seq(), None) == tokens_text(
            render_tokens(s.interval_seq(), s.point_seq(), None),
        ),
        forall|v: i64| #[trigger] tokens_hold(render_tokens(s.interval_seq(), s.point_seq(), None), v)
            == s@.contains(v),
{
    let iv = s.interval_seq();
    let pt = s.point_seq();
    let ivs = s.spec_intervals();
    let pts = s.spec_points();
    lemma_text_is_tokens(iv, pt, None);
    assert(seq_canonical(iv)) by {
        assert forall|i: int| 0 <= i < iv.len() implies #[trigger] iv[i].0 <= iv[i].1 by {
            assert(ivs.contains_key(iv[i].0));
        }
        assert forall|i: int, j: int| 0 <= i < j < iv.len() implies #[trigger] iv[i].1 < #[trigger] iv[j].0 by {
            assert(ivs.contains_key(iv[i].0) && ivs.contains_key(iv[j].0));
            assert(iv[i].0 < iv[j].0);
        }
    }
    lemma_tokens_hold(iv, pt, None);
    assert forall|v: i64| #[trigger] tokens_hold(render_tokens(iv, pt, None), v) == s@.contains(v) by {
        if seq_covered(iv, v) {
            let i = choose|i: int| 0 <= i < iv.len() && #[trigger] iv[i].0 <= v <= iv[i].1;
            assert(ivs.contains_key(iv[i].0));
        }
        if covered(ivs, v) {
            let k = choose|k: i64| #[trigger] ivs.contains_key(k) && k <= v <= ivs[k];
            let i = choose|i: int| 0 <= i < iv.len() && iv[i].0 == k;
            assert(iv[i].0 <= v <= iv[i].1);
        }
        if seq_marked(pt, v) {
            let j = choose|j: int| 0 <= j < pt.len() && #[trigger] pt[j].0 == v;
            assert(pts.contains_key(pt[j].0));
        }
        if pts.contains_key(v) {
            let j = choose|j: int| 0 <= j < pt.len() && pt[j].0 == v;
            assert(seq_marked(pt, v));
        }
        assert(member(ivs, pts, v) == (covered(ivs, v) != pts.contains_key(v)));
    }
}

} // verus!
