//! The chain model: training over a corpus and sampling from the result.

use vstd::prelude::*;
use crate::PREFIX_SIZE;
use crate::followup::FollowUp;
use crate::followup::fu_wf;
use crate::followup::fu_sum;
use crate::followup::fu_count;
use crate::followup::fu_find;
use crate::followup::spec_bump;
use crate::followup::lemma_fu_find_props;
use crate::followup::lemma_bump_count;
use crate::followup::lemma_bump_found;
use crate::followup::lemma_bump_absent;
use crate::followup::lemma_fu_sum_push;
use crate::followup::lemma_fu_sum_update;
use crate::followup::lemma_fu_sum_nonneg;
use crate::followup::lemma_fu_sum_pos;
use crate::prefix::Prefix;
use crate::text::tokenize;
use crate::text::spec_tokens;
use crate::rng::seeded_rng;
use crate::rng::entropy_rng;
use crate::rng::rand_index;

verus! {

/// The failures that training and sampling surface to the caller.
#[derive(Clone, Copy, Debug, PartialEq, Eq, Structural)]
pub enum MarkovError {
    /// The corpus holds fewer than `PREFIX_SIZE + 1` words, so not a single
    /// window could be trained.
    CorpusTooShort,
    /// Seed selection found no trained prefix to start from.
    SeedExhausted,
    /// The prefix handed to sampling was never trained.
    MissingPrefix,
}

/// First index of prefix `p` among the entries of `m`, or -1 when absent.
pub open spec fn pfx_find(
    m: Seq<(Seq<Seq<char>>, Seq<(Seq<char>, int)>)>,
    p: Seq<Seq<char>>,
) -> int
    decreases m.len(),
{
    if m.len() == 0 {
        -1
    } else if m[0].0 == p {
        0
    } else {
        let r = pfx_find(m.drop_first(), p);
        if r < 0 {
            -1
        } else {
            r + 1
        }
    }
}

/// One training observation: the window `p` was followed by the word `w`.
/// A known prefix has `w` folded into its distribution; a new prefix is
/// appended at the end with the single follower `w`.
pub open spec fn spec_add(
    m: Seq<(Seq<Seq<char>>, Seq<(Seq<char>, int)>)>,
    p: Seq<Seq<char>>,
    w: Seq<char>,
) -> Seq<(Seq<Seq<char>>, Seq<(Seq<char>, int)>)>
    decreases m.len(),
{
    if m.len() == 0 {
        seq![(p, seq![(w, 1int)])]
    } else if m[0].0 == p {
        seq![(m[0].0, spec_bump(m[0].1, w))] + m.drop_first()
    } else {
        seq![m[0]] + spec_add(m.drop_first(), p, w)
    }
}

/// The model trained on the first `upto` windows of the token sequence:
/// window `i` is `toks[i .. i + PREFIX_SIZE)` and its follower is
/// `toks[i + PREFIX_SIZE]`.
pub open spec fn spec_model(toks: Seq<Seq<char>>, upto: int) -> Seq<
    (Seq<Seq<char>>, Seq<(Seq<char>, int)>),
>
    decreases upto,
{
    if upto <= 0 {
        Seq::<(Seq<Seq<char>>, Seq<(Seq<char>, int)>)>::empty()
    } else {
        spec_add(
            spec_model(toks, upto - 1),
            toks.subrange(upto - 1, upto - 1 + PREFIX_SIZE),
            toks[upto - 1 + PREFIX_SIZE],
        )
    }
}

/// Well-formed model contents: prefixes are distinct windows of
/// `PREFIX_SIZE` words, and every distribution is well formed and nonempty.
pub open spec fn model_wf(m: Seq<(Seq<Seq<char>>, Seq<(Seq<char>, int)>)>) -> bool {
    &&& forall|i: int, j: int| 0 <= i < j < m.len() ==> m[i].0 != m[j].0
    &&& forall|i: int| 0 <= i < m.len() ==> fu_wf((#[trigger] m[i]).1)
    &&& forall|i: int| 0 <= i < m.len() ==> (#[trigger] m[i]).1.len() >= 1
    &&& forall|i: int| 0 <= i < m.len() ==> (#[trigger] m[i]).0.len() == PREFIX_SIZE
}

/// Total number of observations held: the sum of all counts of all entries.
pub open spec fn model_total(m: Seq<(Seq<Seq<char>>, Seq<(Seq<char>, int)>)>) -> int
    decreases m.len(),
{
    if m.len() == 0 {
        0
    } else {
        fu_sum(m[0].1) + model_total(m.drop_first())
    }
}

/// The corpus window starting at token `i`: the next `PREFIX_SIZE` tokens.
pub open spec fn window(toks: Seq<Seq<char>>, i: int) -> Seq<Seq<char>> {
    toks.subrange(i, i + PREFIX_SIZE)
}

/// How often, among the first `upto` windows, the window `p` was followed
/// by the word `w`.
pub open spec fn occ(toks: Seq<Seq<char>>, upto: int, p: Seq<Seq<char>>, w: Seq<char>) -> int
    decreases upto,
{
    if upto <= 0 {
        0
    } else {
        occ(toks, upto - 1, p, w) + if window(toks, upto - 1) == p && toks[upto - 1
            + PREFIX_SIZE] == w {
            1int
        } else {
            0int
        }
    }
}

/// The count stored in `m` for follower `w` of prefix `p`, 0 when `p` or
/// `w` is absent.
pub open spec fn model_count(
    m: Seq<(Seq<Seq<char>>, Seq<(Seq<char>, int)>)>,
    p: Seq<Seq<char>>,
    w: Seq<char>,
) -> int {
    let i = pfx_find(m, p);
    if i < 0 {
        0
    } else {
        fu_count(m[i].1, w)
    }
}

/// The generation cursor after `k` steps: the window `start` slid over the
/// first `k` emitted words.
pub open spec fn cursor_after(start: Seq<Seq<char>>, ws: Seq<Seq<char>>, k: int) -> Seq<
    Seq<char>,
>
    decreases k,
{
    if k <= 0 {
        start
    } else {
        cursor_after(start, ws, k - 1).subrange(1, PREFIX_SIZE as int).push(ws[k - 1])
    }
}

pub proof fn lemma_cursor_after_depends_on_prefix(
    start: Seq<Seq<char>>,
    a: Seq<Seq<char>>,
    b: Seq<Seq<char>>,
    k: int,
)
    requires
        forall|j: int| 0 <= j < k ==> a[j] == b[j],
    ensures
        cursor_after(start, a, k) == cursor_after(start, b, k),
    decreases k,
{
    if k > 0 {
        lemma_cursor_after_depends_on_prefix(start, a, b, k - 1);
    }
}

/// The emitted words `ws` walk the chain: each one is a follower, trained
/// with a positive count, of the cursor window at its step.
pub open spec fn chain_consistent(
    m: Seq<(Seq<Seq<char>>, Seq<(Seq<char>, int)>)>,
    start: Seq<Seq<char>>,
    ws: Seq<Seq<char>>,
) -> bool {
    forall|k: int|
        0 <= k < ws.len() ==> {
            &&& pfx_find(m, #[trigger] cursor_after(start, ws, k)) >= 0
            &&& fu_count(m[pfx_find(m, cursor_after(start, ws, k))].1, ws[k]) >= 1
        }
}

/// The model is closed under its own steps: sliding any trained prefix
/// over any of its trained followers lands on a trained prefix again. On
/// such a model a generation walk can never dead-end.
pub open spec fn model_closed(m: Seq<(Seq<Seq<char>>, Seq<(Seq<char>, int)>)>) -> bool {
    forall|i: int, j: int|
        0 <= i < m.len() && 0 <= j < m[i].1.len() ==> pfx_find(
            m,
            m[i].0.subrange(1, PREFIX_SIZE as int).push((#[trigger] m[i].1[j]).0),
        ) >= 0
}

/// `w` is a trained follower word somewhere in the model.
pub open spec fn word_in_model(
    m: Seq<(Seq<Seq<char>>, Seq<(Seq<char>, int)>)>,
    w: Seq<char>,
) -> bool {
    exists|i: int| 0 <= i < m.len() && fu_count((#[trigger] m[i]).1, w) >= 1
}

pub proof fn lemma_pfx_find_props(
    m: Seq<(Seq<Seq<char>>, Seq<(Seq<char>, int)>)>,
    p: Seq<Seq<char>>,
)
    ensures
        pfx_find(m, p) == -1 || 0 <= pfx_find(m, p) < m.len(),
        (pfx_find(m, p) >= 0) <==> (exists|i: int| 0 <= i < m.len() && m[i].0 == p),
        pfx_find(m, p) >= 0 ==> m[pfx_find(m, p)].0 == p,
        forall|k: int| 0 <= k < pfx_find(m, p) ==> m[k].0 != p,
    decreases m.len(),
{
    if m.len() == 0 {
    } else if m[0].0 == p {
    } else {
        lemma_pfx_find_props(m.drop_first(), p);
        if exists|i: int| 0 <= i < m.len() && m[i].0 == p {
            let i = choose|i: int| 0 <= i < m.len() && m[i].0 == p;
            assert(m.drop_first()[i - 1].0 == p);
        }
        if pfx_find(m.drop_first(), p) >= 0 {
            let r = pfx_find(m.drop_first(), p);
            assert(m.drop_first()[r].0 == p);
            assert(forall|k: int| 0 <= k < r ==> m.drop_first()[k].0 != p);
            assert(forall|k: int| 1 <= k < r + 1 ==> m[k].0 == m.drop_first()[k - 1].0);
        }
    }
}

pub proof fn lemma_add_found(
    m: Seq<(Seq<Seq<char>>, Seq<(Seq<char>, int)>)>,
    p: Seq<Seq<char>>,
    w: Seq<char>,
    i: int,
)
    requires
        0 <= i < m.len(),
        m[i].0 == p,
        forall|k: int| 0 <= k < i ==> m[k].0 != p,
    ensures
        spec_add(m, p, w) == m.update(i, (p, spec_bump(m[i].1, w))),
    decreases i,
{
    if i == 0 {
        assert(spec_add(m, p, w) =~= m.update(0, (p, spec_bump(m[0].1, w))));
    } else {
        lemma_add_found(m.drop_first(), p, w, i - 1);
        assert(m.drop_first()[i - 1] == m[i]);
        assert(seq![m[0]] + m.drop_first().update(i - 1, (p, spec_bump(m[i].1, w))) =~= m.update(
            i,
            (p, spec_bump(m[i].1, w)),
        ));
    }
}

pub proof fn lemma_add_absent(
    m: Seq<(Seq<Seq<char>>, Seq<(Seq<char>, int)>)>,
    p: Seq<Seq<char>>,
    w: Seq<char>,
)
    requires
        forall|k: int| 0 <= k < m.len() ==> (#[trigger] m[k]).0 != p,
    ensures
        spec_add(m, p, w) == m.push((p, seq![(w, 1int)])),
    decreases m.len(),
{
    if m.len() == 0 {
        assert(spec_add(m, p, w) =~= m.push((p, seq![(w, 1int)])));
    } else {
        assert(forall|k: int|
            0 <= k < m.drop_first().len() ==> (#[trigger] m.drop_first()[k]) == m[k + 1]);
        lemma_add_absent(m.drop_first(), p, w);
        assert(seq![m[0]] + m.drop_first().push((p, seq![(w, 1int)])) =~= m.push(
            (p, seq![(w, 1int)]),
        ));
    }
}

pub proof fn lemma_model_total_push(
    m: Seq<(Seq<Seq<char>>, Seq<(Seq<char>, int)>)>,
    e: (Seq<Seq<char>>, Seq<(Seq<char>, int)>),
)
    ensures
        model_total(m.push(e)) == model_total(m) + fu_sum(e.1),
    decreases m.len(),
{
    reveal_with_fuel(model_total, 3);
    if m.len() == 0 {
        assert(m.push(e)[0] == e);
        assert(m.push(e).drop_first() =~= Seq::<(Seq<Seq<char>>, Seq<(Seq<char>, int)>)>::empty());
    } else {
        assert(m.push(e)[0] == m[0]);
        assert(m.push(e).drop_first() =~= m.drop_first().push(e));
        lemma_model_total_push(m.drop_first(), e);
    }
}

pub proof fn lemma_model_total_update(
    m: Seq<(Seq<Seq<char>>, Seq<(Seq<char>, int)>)>,
    i: int,
    e: (Seq<Seq<char>>, Seq<(Seq<char>, int)>),
)
    requires
        0 <= i < m.len(),
    ensures
        model_total(m.update(i, e)) == model_total(m) - fu_sum(m[i].1) + fu_sum(e.1),
    decreases i,
{
    if i == 0 {
        assert(m.update(0, e)[0] == e);
        assert(m.update(0, e).drop_first() =~= m.drop_first());
    } else {
        assert(m.update(i, e)[0] == m[0]);
        assert(m.update(i, e).drop_first() =~= m.drop_first().update(i - 1, e));
        lemma_model_total_update(m.drop_first(), i - 1, e);
    }
}

pub proof fn lemma_model_sums_nonneg(m: Seq<(Seq<Seq<char>>, Seq<(Seq<char>, int)>)>)
    requires
        model_wf(m),
    ensures
        forall|k: int| 0 <= k < m.len() ==> fu_sum((#[trigger] m[k]).1) >= 0,
{
    assert forall|k: int| 0 <= k < m.len() implies fu_sum((#[trigger] m[k]).1) >= 0 by {
        lemma_fu_sum_nonneg(m[k].1);
    }
}

pub proof fn lemma_model_total_nonneg(m: Seq<(Seq<Seq<char>>, Seq<(Seq<char>, int)>)>)
    requires
        forall|k: int| 0 <= k < m.len() ==> fu_sum((#[trigger] m[k]).1) >= 0,
    ensures
        model_total(m) >= 0,
    decreases m.len(),
{
    if m.len() > 0 {
        assert(forall|k: int|
            0 <= k < m.drop_first().len() ==> (#[trigger] m.drop_first()[k]) == m[k + 1]);
        lemma_model_total_nonneg(m.drop_first());
    }
}

pub proof fn lemma_entry_le_total(m: Seq<(Seq<Seq<char>>, Seq<(Seq<char>, int)>)>, i: int)
    requires
        forall|k: int| 0 <= k < m.len() ==> fu_sum((#[trigger] m[k]).1) >= 0,
        0 <= i < m.len(),
    ensures
        fu_sum(m[i].1) <= model_total(m),
    decreases i,
{
    assert(forall|k: int|
        0 <= k < m.drop_first().len() ==> (#[trigger] m.drop_first()[k]) == m[k + 1]);
    if i == 0 {
        lemma_model_total_nonneg(m.drop_first());
    } else {
        lemma_entry_le_total(m.drop_first(), i - 1);
    }
}

/// Folding one observation into a well-formed model keeps it well formed
/// and raises the total of all counts by exactly one.
pub proof fn lemma_add_props(
    m: Seq<(Seq<Seq<char>>, Seq<(Seq<char>, int)>)>,
    p: Seq<Seq<char>>,
    w: Seq<char>,
)
    requires
        model_wf(m),
        p.len() == PREFIX_SIZE,
    ensures
        model_wf(spec_add(m, p, w)),
        model_total(spec_add(m, p, w)) == model_total(m) + 1,
        spec_add(m, p, w).len() >= 1,
        spec_add(m, p, w).len() == if pfx_find(m, p) >= 0 { m.len() as int } else { m.len() as int + 1 },
{
    lemma_pfx_find_props(m, p);
    let f = pfx_find(m, p);
    if f >= 0 {
        let fu = m[f].1;
        let bumped = spec_bump(fu, w);
        lemma_add_found(m, p, w, f);
        lemma_fu_find_props(fu, w);
        let g = fu_find(fu, w);
        if g >= 0 {
            lemma_bump_found(fu, w, g);
            lemma_fu_sum_update(fu, g, (w, fu[g].1 + 1));
            assert(forall|k: int| 0 <= k < bumped.len() ==> (#[trigger] bumped[k]).1 >= 1);
            assert(forall|k1: int, k2: int|
                0 <= k1 < k2 < bumped.len() ==> bumped[k1].0 == fu[k1].0 && bumped[k2].0
                    == fu[k2].0);
        } else {
            lemma_bump_absent(fu, w);
            lemma_fu_sum_push(fu, (w, 1int));
            assert(forall|k: int| 0 <= k < fu.len() ==> (#[trigger] bumped[k]) == fu[k]);
            assert(forall|k: int| 0 <= k < bumped.len() ==> (#[trigger] bumped[k]).1 >= 1);
        }
        assert(fu_wf(bumped));
        assert(bumped.len() >= 1);
        lemma_model_total_update(m, f, (p, bumped));
        let res = m.update(f, (p, bumped));
        assert(forall|k: int| 0 <= k < res.len() && k != f ==> (#[trigger] res[k]) == m[k]);
        assert(model_wf(res));
    } else {
        lemma_add_absent(m, p, w);
        reveal_with_fuel(fu_sum, 3);
        let nfu = seq![(w, 1int)];
        assert(nfu.drop_first() =~= Seq::<(Seq<char>, int)>::empty());
        assert(fu_sum(nfu) == 1);
        assert(fu_wf(nfu));
        lemma_model_total_push(m, (p, nfu));
        let res = m.push((p, nfu));
        assert(forall|k: int| 0 <= k < m.len() ==> (#[trigger] res[k]) == m[k]);
        assert(model_wf(res));
    }
}

pub proof fn lemma_pfx_find_same_prefixes(
    a: Seq<(Seq<Seq<char>>, Seq<(Seq<char>, int)>)>,
    b: Seq<(Seq<Seq<char>>, Seq<(Seq<char>, int)>)>,
    p: Seq<Seq<char>>,
)
    requires
        a.len() == b.len(),
        forall|k: int| 0 <= k < a.len() ==> (#[trigger] a[k]).0 == b[k].0,
    ensures
        pfx_find(a, p) == pfx_find(b, p),
    decreases a.len(),
{
    if a.len() > 0 {
        assert(forall|k: int|
            0 <= k < a.drop_first().len() ==> (#[trigger] a.drop_first()[k]) == a[k + 1]
                && b.drop_first()[k] == b[k + 1]);
        lemma_pfx_find_same_prefixes(a.drop_first(), b.drop_first(), p);
    }
}

pub proof fn lemma_pfx_find_push(
    m: Seq<(Seq<Seq<char>>, Seq<(Seq<char>, int)>)>,
    e: (Seq<Seq<char>>, Seq<(Seq<char>, int)>),
    p: Seq<Seq<char>>,
)
    ensures
        pfx_find(m.push(e), p) == if pfx_find(m, p) >= 0 {
            pfx_find(m, p)
        } else if e.0 == p {
            m.len() as int
        } else {
            -1
        },
    decreases m.len(),
{
    reveal_with_fuel(pfx_find, 3);
    if m.len() == 0 {
        assert(m.push(e)[0] == e);
        assert(m.push(e).drop_first() =~= Seq::<(Seq<Seq<char>>, Seq<(Seq<char>, int)>)>::empty());
    } else {
        assert(m.push(e)[0] == m[0]);
        assert(m.push(e).drop_first() =~= m.drop_first().push(e));
        lemma_pfx_find_push(m.drop_first(), e, p);
    }
}

/// Folding an observation of `(p, w)` into the model raises the stored
/// count of exactly that pair by one and leaves every other count as it was.
pub proof fn lemma_add_count(
    m: Seq<(Seq<Seq<char>>, Seq<(Seq<char>, int)>)>,
    p: Seq<Seq<char>>,
    w: Seq<char>,
    q: Seq<Seq<char>>,
    v: Seq<char>,
)
    requires
        forall|i: int| 0 <= i < m.len() ==> fu_wf((#[trigger] m[i]).1),
    ensures
        model_count(spec_add(m, p, w), q, v) == model_count(m, q, v) + if q == p && v == w {
            1int
        } else {
            0int
        },
{
    lemma_pfx_find_props(m, p);
    lemma_pfx_find_props(m, q);
    let f = pfx_find(m, p);
    let h = pfx_find(m, q);
    if f >= 0 {
        lemma_add_found(m, p, w, f);
        let upd = m.update(f, (p, spec_bump(m[f].1, w)));
        lemma_pfx_find_same_prefixes(upd, m, q);
        if q == p {
            assert(h == f);
            lemma_bump_count(m[f].1, w, v);
        } else {
            if h >= 0 {
                assert(h != f);
                assert(upd[h] == m[h]);
            }
        }
    } else {
        lemma_add_absent(m, p, w);
        let nfu = seq![(w, 1int)];
        let pushed = m.push((p, nfu));
        lemma_pfx_find_push(m, (p, nfu), q);
        if q == p {
            assert(pfx_find(pushed, q) == m.len() as int);
            assert(pushed[m.len() as int].1 == nfu);
            lemma_fu_find_props(nfu, v);
            if v == w {
                assert(fu_find(nfu, v) == 0);
            }
        } else {
            if h >= 0 {
                assert(pushed[h] == m[h]);
            }
        }
    }
}

/// After folding in `(p, w)`, the stored prefixes are those stored before,
/// plus `p`.
pub proof fn lemma_add_presence(
    m: Seq<(Seq<Seq<char>>, Seq<(Seq<char>, int)>)>,
    p: Seq<Seq<char>>,
    w: Seq<char>,
    q: Seq<Seq<char>>,
)
    ensures
        (pfx_find(spec_add(m, p, w), q) >= 0) <==> (pfx_find(m, q) >= 0 || q == p),
{
    lemma_pfx_find_props(m, p);
    lemma_pfx_find_props(m, q);
    let f = pfx_find(m, p);
    if f >= 0 {
        lemma_add_found(m, p, w, f);
        lemma_pfx_find_same_prefixes(m.update(f, (p, spec_bump(m[f].1, w))), m, q);
    } else {
        lemma_add_absent(m, p, w);
        lemma_pfx_find_push(m, (p, seq![(w, 1int)]), q);
    }
}

/// The training fold counts occurrences: after `upto` windows, the stored
/// count of follower `w` for prefix `q` is exactly how often the window `q`
/// was followed by `w` in the corpus, and a prefix is stored exactly when
/// it occurred as a window.
pub proof fn lemma_model_counts_occurrences(toks: Seq<Seq<char>>, upto: int)
    requires
        0 <= upto,
        upto + PREFIX_SIZE <= toks.len(),
    ensures
        model_wf(spec_model(toks, upto)),
        forall|q: Seq<Seq<char>>, v: Seq<char>|
            #[trigger] model_count(spec_model(toks, upto), q, v) == occ(toks, upto, q, v),
        forall|q: Seq<Seq<char>>|
            (#[trigger] pfx_find(spec_model(toks, upto), q) >= 0) <==> (exists|i: int|
                0 <= i < upto && window(toks, i) == q),
    decreases upto,
{
    if upto == 0 {
        let m0 = spec_model(toks, 0);
        assert(m0.len() == 0);
        assert forall|q: Seq<Seq<char>>, v: Seq<char>|
            #[trigger] model_count(m0, q, v) == occ(toks, 0, q, v) by {
            assert(pfx_find(m0, q) == -1);
        }
        assert forall|q: Seq<Seq<char>>| !(#[trigger] pfx_find(m0, q) >= 0) by {
            assert(pfx_find(m0, q) == -1);
        }
    } else {
        lemma_model_counts_occurrences(toks, upto - 1);
        let prev = spec_model(toks, upto - 1);
        let p = window(toks, upto - 1);
        let w = toks[upto - 1 + PREFIX_SIZE];
        let cur = spec_model(toks, upto);
        assert(p.len() == PREFIX_SIZE);
        lemma_add_props(prev, p, w);
        assert(cur == spec_add(prev, p, w));
        assert forall|q: Seq<Seq<char>>, v: Seq<char>|
            #[trigger] model_count(cur, q, v) == occ(toks, upto, q, v) by {
            lemma_add_count(prev, p, w, q, v);
        }
        assert forall|q: Seq<Seq<char>>|
            (#[trigger] pfx_find(cur, q) >= 0) <==> (exists|i: int|
                0 <= i < upto && window(toks, i) == q) by {
            lemma_add_presence(prev, p, w, q);
            if pfx_find(cur, q) >= 0 {
                if pfx_find(prev, q) >= 0 {
                    let i = choose|i: int| 0 <= i < upto - 1 && window(toks, i) == q;
                    assert(0 <= i < upto && window(toks, i) == q);
                } else {
                    assert(window(toks, upto - 1) == q);
                }
            }
            if exists|i: int| 0 <= i < upto && window(toks, i) == q {
                let i = choose|i: int| 0 <= i < upto && window(toks, i) == q;
                if i < upto - 1 {
                    assert(exists|k: int| 0 <= k < upto - 1 && window(toks, k) == q);
                }
            }
        }
    }
}

/// What training promises: rejection exactly when the corpus is shorter
/// than one full window plus follower, and otherwise a model whose contents
/// are precisely the fold of all windows of the token sequence.
pub open spec fn train_result(text: Seq<char>, r: Result<MarkovData, MarkovError>) -> bool {
    let toks = spec_tokens(text);
    &&& (r is Err) <==> toks.len() < PREFIX_SIZE + 1
    &&& (r matches Err(e) ==> e == MarkovError::CorpusTooShort)
    &&& (r matches Ok(m) ==> {
        &&& m.inv()
        &&& m.entries() == spec_model(toks, toks.len() - PREFIX_SIZE)
        &&& m.entries().len() >= 1
    })
}

/// The trained mapping from prefixes to follower distributions, together
/// with the generator that drives sampling.
#[derive(Debug)]
pub struct MarkovData {
    data: Vec<(Prefix, FollowUp)>,
    rng: rand::rngs::StdRng,
}

impl MarkovData {
    /// The trained contents: for each entry its prefix window and its
    /// distribution of follower words with their counts, in first-training
    /// order.
    pub closed spec fn entries(self) -> Seq<(Seq<Seq<char>>, Seq<(Seq<char>, int)>)> {
        self.data@.map_values(|e: (Prefix, FollowUp)| (e.0@, e.1@))
    }

    /// The stored distribution at entry `i`.
    pub closed spec fn dist_at(self, i: int) -> FollowUp {
        self.data@[i].1
    }

    /// Validity: well-formed contents, and every stored distribution
    /// normalized, so that its weights sum to one.
    pub open spec fn inv(self) -> bool {
        &&& model_wf(self.entries())
        &&& forall|i: int|
            0 <= i < self.entries().len() ==> (#[trigger] self.dist_at(i)).normalized()
                && self.dist_at(i)@ == self.entries()[i].1
    }

    /// Train a model over `text`, drawing randomness from system entropy.
    /// The entropy call panics if the operating system's source fails;
    /// `with_seed` avoids that one environmental path.
    pub fn new(text: &String) -> (r: Result<MarkovData, MarkovError>)
        ensures
            train_result(text@, r),
    {
        let rng = entropy_rng();
        Self::build(text, rng)
    }

    /// Train a model over `text` with a seeded generator, so that the same
    /// seed reproduces the same sequence of sampling draws.
    pub fn with_seed(text: &String, seed: u64) -> (r: Result<MarkovData, MarkovError>)
        ensures
            train_result(text@, r),
    {
        let rng = seeded_rng(seed);
        Self::build(text, rng)
    }

    fn build(text: &String, rng: rand::rngs::StdRng) -> (r: Result<MarkovData, MarkovError>)
        ensures
            train_result(text@, r),
    {
        let tokens: Vec<String> = tokenize(text.as_str());
        let ghost tv = spec_tokens(text@);
        if tokens.len() < PREFIX_SIZE + 1 {
            return Err(MarkovError::CorpusTooShort);
        }
        let n_windows = tokens.len() - PREFIX_SIZE;
        let n_toks = tokens.len();
        let mut data: Vec<(Prefix, FollowUp)> = Vec::new();
        proof {
            assert(data@.map_values(|e: (Prefix, FollowUp)| (e.0@, e.1@)) =~= Seq::<
                (Seq<Seq<char>>, Seq<(Seq<char>, int)>),
            >::empty());
        }
        let mut i: usize = 0;
        while i < n_windows
            invariant
                tokens@.map_values(|t: String| t@) == tv,
                tv.len() == tokens@.len(),
                n_toks == tokens@.len(),
                n_windows == tokens@.len() - PREFIX_SIZE,
                1 <= n_windows,
                i <= n_windows,
                data@.map_values(|e: (Prefix, FollowUp)| (e.0@, e.1@)) == spec_model(
                    tv,
                    i as int,
                ),
                model_wf(spec_model(tv, i as int)),
                model_total(spec_model(tv, i as int)) == i as int,
            decreases n_windows - i,
        {
            let ghost mv = spec_model(tv, i as int);
            let mut words: Vec<String> = Vec::new();
            let mut k: usize = 0;
            while k < PREFIX_SIZE
                invariant
                    k <= PREFIX_SIZE,
                    words@.len() == k,
                    i + PREFIX_SIZE < tokens@.len(),
                    tokens@.len() <= usize::MAX,
                    forall|t: int| 0 <= t < k ==> words@[t] == tokens@[i + t],
                decreases PREFIX_SIZE - k,
            {
                words.push(tokens[i + k].clone());
                k = k + 1;
            }
            let p = Prefix::new(words);
            let ghost pv = tv.subrange(i as int, i as int + PREFIX_SIZE);
            proof {
                assert(p@ =~= pv);
            }
            let w = tokens[i + PREFIX_SIZE].clone();
            let ghost wv = tv[i as int + PREFIX_SIZE];
            proof {
                lemma_pfx_find_props(mv, pv);
                lemma_add_props(mv, pv, wv);
                assert(spec_model(tv, i as int + 1) == spec_add(mv, pv, wv));
            }
            match find_prefix(&data, &p) {
                Some(j) => {
                    proof {
                        lemma_model_sums_nonneg(mv);
                        lemma_entry_le_total(mv, j as int);
                    }
                    let entry = data.remove(j);
                    let p_keep = entry.0;
                    let mut fu = entry.1;
                    fu.accumulate(w);
                    data.insert(j, (p_keep, fu));
                    proof {
                        lemma_add_found(mv, pv, wv, j as int);
                        assert(data@.map_values(|e: (Prefix, FollowUp)| (e.0@, e.1@)) =~= mv.update(
                            j as int,
                            (pv, spec_bump(mv[j as int].1, wv)),
                        ));
                    }
                },
                None => {
                    let mut fu = FollowUp::new();
                    fu.accumulate(w);
                    data.push((p, fu));
                    proof {
                        lemma_add_absent(mv, pv, wv);
                        assert(spec_bump(Seq::<(Seq<char>, int)>::empty(), wv) =~= seq![
                            (wv, 1int),
                        ]);
                        assert(data@.map_values(|e: (Prefix, FollowUp)| (e.0@, e.1@)) =~= mv.push(
                            (pv, seq![(wv, 1int)]),
                        ));
                    }
                },
            }
            i = i + 1;
        }
        let ghost mv_done = spec_model(tv, n_windows as int);
        let n_entries = data.len();
        let mut j: usize = 0;
        while j < n_entries
            invariant
                data@.len() == n_entries,
                j <= n_entries,
                data@.map_values(|e: (Prefix, FollowUp)| (e.0@, e.1@)) == mv_done,
                model_wf(mv_done),
                model_total(mv_done) == n_windows as int,
                n_windows <= usize::MAX,
                forall|k: int| 0 <= k < j ==> (#[trigger] data@[k].1).normalized(),
            decreases n_entries - j,
        {
            let ghost pre = data@;
            proof {
                lemma_model_sums_nonneg(mv_done);
                lemma_entry_le_total(mv_done, j as int);
                lemma_fu_sum_pos(mv_done[j as int].1);
            }
            let entry = data.remove(j);
            let p_keep = entry.0;
            let mut fu = entry.1;
            fu.normalize();
            data.insert(j, (p_keep, fu));
            proof {
                assert(data@ =~= pre.update(j as int, (pre[j as int].0, data@[j as int].1)));
                assert(data@.map_values(|e: (Prefix, FollowUp)| (e.0@, e.1@)) =~= mv_done);
            }
            j = j + 1;
        }
        let m = MarkovData { data, rng };
        proof {
            if m.entries().len() == 0 {
                assert(model_total(mv_done) == 0);
            }
        }
        Ok(m)
    }

    /// Number of trained prefixes held.
    pub fn prefix_count(&self) -> (n: usize)
        ensures
            n == self.entries().len(),
    {
        self.data.len()
    }

    /// The trained prefix of entry `i`, in first-training order.
    pub fn prefix_at(&self, i: usize) -> (p: Prefix)
        requires
            i < self.entries().len(),
        ensures
            p@ == self.entries()[i as int].0,
    {
        self.data[i].0.clone()
    }

    /// The stored distribution for `p`, if `p` was trained.
    pub fn distribution_of(&self, p: &Prefix) -> (r: Option<FollowUp>)
        requires
            self.inv(),
        ensures
            (r is None) <==> pfx_find(self.entries(), p@) == -1,
            r matches Some(fu) ==> {
                &&& fu@ == self.entries()[pfx_find(self.entries(), p@)].1
                &&& fu.normalized()
            },
    {
        match find_prefix(&self.data, p) {
            Some(j) => {
                proof {
                    assert(self.dist_at(j as int).normalized());
                }
                Some(self.data[j].1.clone())
            },
            None => None,
        }
    }

    /// Pick a starting prefix uniformly at random among the trained
    /// prefixes; fails exactly when the model holds none. The pick itself
    /// is `prefix_at` at the drawn index, whose contract pins the result
    /// for every value of the draw.
    pub fn choose_seed(&mut self) -> (r: Result<Prefix, MarkovError>)
        requires
            old(self).inv(),
        ensures
            final(self).inv(),
            final(self).entries() == old(self).entries(),
            (r is Err) <==> old(self).entries().len() == 0,
            r matches Err(e) ==> e == MarkovError::SeedExhausted,
            r matches Ok(p) ==> {
                &&& p.wf()
                &&& exists|i: int|
                    0 <= i < old(self).entries().len() && p@ == old(self).entries()[i].0
            },
    {
        let n = self.data.len();
        if n == 0 {
            return Err(MarkovError::SeedExhausted);
        }
        let i = rand_index(&mut self.rng, n);
        let p = self.prefix_at(i);
        proof {
            assert(self.data@ == old(self).data@);
            assert(self.entries() =~= old(self).entries());
            assert(p@ == old(self).entries()[i as int].0);
            assert(forall|k: int|
                0 <= k < self.entries().len() ==> #[trigger] self.dist_at(k) == old(
                    self,
                ).dist_at(k));
        }
        Ok(p)
    }

    /// Sample a follower of `p` from its trained distribution, weighted by
    /// the observed counts; fails exactly when `p` was never trained.
    pub fn choose_next(&mut self, p: &Prefix) -> (r: Result<String, MarkovError>)
        requires
            old(self).inv(),
        ensures
            final(self).inv(),
            final(self).entries() == old(self).entries(),
            (r is Err) <==> pfx_find(old(self).entries(), p@) == -1,
            r matches Err(e) ==> e == MarkovError::MissingPrefix,
            r matches Ok(w) ==> fu_count(
                old(self).entries()[pfx_find(old(self).entries(), p@)].1,
                w@,
            ) >= 1,
    {
        let found = find_prefix(&self.data, p);
        match found {
            Some(j) => {
                proof {
                    assert(self.dist_at(j as int).normalized());
                }
                let total = self.data[j].1.total();
                let rv = rand_index(&mut self.rng, total);
                proof {
                    assert(self.data@ == old(self).data@);
                    assert(self.entries() =~= old(self).entries());
                    assert(forall|k: int|
                        0 <= k < self.entries().len() ==> #[trigger] self.dist_at(k) == old(
                            self,
                        ).dist_at(k));
                }
                let w = self.data[j].1.choose_next(rv);
                proof {
                    let fv = old(self).entries()[j as int].1;
                    lemma_fu_find_props(fv, w@);
                }
                Ok(w)
            },
            None => Err(MarkovError::MissingPrefix),
        }
    }

    /// Generate `count` words starting from the window `start`, sliding it
    /// over each emitted word; fails when the walk reaches an untrained
    /// prefix.
    pub fn generate_from(&mut self, start: &Prefix, count: usize) -> (r: Result<
        Vec<String>,
        MarkovError,
    >)
        requires
            old(self).inv(),
            start.wf(),
        ensures
            final(self).inv(),
            final(self).entries() == old(self).entries(),
            r matches Ok(ws) ==> ws@.len() == count && (forall|k: int|
                0 <= k < count ==> word_in_model(old(self).entries(), (#[trigger] ws@[k])@)),
            r matches Ok(ws) ==> chain_consistent(
                old(self).entries(),
                start@,
                ws@.map_values(|s: String| s@),
            ),
            r matches Err(e) ==> e == MarkovError::MissingPrefix && count > 0,
            old(self).entries().len() == 0 && count > 0 ==> r is Err,
            count > 0 && pfx_find(old(self).entries(), start@) == -1 ==> r is Err,
            model_closed(old(self).entries()) && pfx_find(old(self).entries(), start@) >= 0
                ==> r is Ok,
    {
        let mut cursor: Prefix = start.clone();
        let mut out: Vec<String> = Vec::new();
        let mut step: usize = 0;
        while step < count
            invariant
                self.inv(),
                self.entries() == old(self).entries(),
                cursor.wf(),
                step <= count,
                out@.len() == step,
                step > 0 ==> old(self).entries().len() > 0,
                step > 0 ==> pfx_find(old(self).entries(), start@) >= 0,
                model_closed(old(self).entries()) && pfx_find(old(self).entries(), start@) >= 0
                    ==> pfx_find(old(self).entries(), cursor@) >= 0,
                cursor@ == cursor_after(start@, out@.map_values(|s: String| s@), step as int),
                forall|k: int|
                    0 <= k < step ==> word_in_model(old(self).entries(), (#[trigger] out@[k])@),
                chain_consistent(
                    old(self).entries(),
                    start@,
                    out@.map_values(|s: String| s@),
                ),
            decreases count - step,
        {
            let ghost es = old(self).entries();
            let ghost prev_ws = out@.map_values(|s: String| s@);
            let ghost cv = cursor@;
            match self.choose_next(&cursor) {
                Ok(w) => {
                    proof {
                        lemma_pfx_find_props(es, cursor@);
                    }
                    let w2 = w.clone();
                    out.push(w);
                    cursor.push_new(w2);
                    step = step + 1;
                    proof {
                        let ws = out@.map_values(|s: String| s@);
                        assert(ws =~= prev_ws.push(w@));
                        lemma_cursor_after_depends_on_prefix(start@, prev_ws, ws, step as int - 1);
                        assert(ws[step as int - 1] == w@);
                        assert(cursor@ == cursor_after(start@, ws, step as int));
                        if step == 1 {
                            assert(cursor_after(start@, prev_ws, 0) == start@);
                        }
                        if model_closed(es) && pfx_find(es, start@) >= 0 {
                            let f = pfx_find(es, cv);
                            lemma_fu_find_props(es[f].1, w@);
                            let g = fu_find(es[f].1, w@);
                            assert((es[f].1[g]).0 == w@);
                            assert(pfx_find(
                                es,
                                es[f].0.subrange(1, PREFIX_SIZE as int).push(es[f].1[g].0),
                            ) >= 0);
                            assert(cursor@ == es[f].0.subrange(1, PREFIX_SIZE as int).push(
                                es[f].1[g].0,
                            ));
                        }
                        assert forall|k: int| 0 <= k < step implies {
                            &&& pfx_find(es, #[trigger] cursor_after(start@, ws, k)) >= 0
                            &&& fu_count(es[pfx_find(es, cursor_after(start@, ws, k))].1, ws[k])
                                >= 1
                        } by {
                            lemma_cursor_after_depends_on_prefix(start@, prev_ws, ws, k);
                            if k < step - 1 {
                                assert(pfx_find(es, cursor_after(start@, prev_ws, k)) >= 0);
                            }
                        }
                    }
                },
                Err(e) => {
                    return Err(e);
                },
            }
        }
        Ok(out)
    }

    /// Choose a seed at random and generate `count` words from it.
    pub fn generate(&mut self, count: usize) -> (r: Result<Vec<String>, MarkovError>)
        requires
            old(self).inv(),
        ensures
            final(self).inv(),
            final(self).entries() == old(self).entries(),
            old(self).entries().len() == 0 ==> r is Err,
            old(self).entries().len() > 0 && count == 0 ==> r is Ok,
            r matches Err(e) ==> (e == MarkovError::SeedExhausted && old(self).entries().len()
                == 0) || (e == MarkovError::MissingPrefix && count > 0),
            model_closed(old(self).entries()) && old(self).entries().len() > 0 ==> r is Ok,
            r matches Ok(ws) ==> ws@.len() == count && (forall|k: int|
                0 <= k < count ==> word_in_model(old(self).entries(), (#[trigger] ws@[k])@)),
            r matches Ok(ws) ==> exists|i: int|
                0 <= i < old(self).entries().len() && chain_consistent(
                    old(self).entries(),
                    (#[trigger] old(self).entries()[i]).0,
                    ws@.map_values(|s: String| s@),
                ),
    {
        let ghost es = old(self).entries();
        let seed = match self.choose_seed() {
            Ok(p) => p,
            Err(e) => {
                return Err(e);
            },
        };
        let ghost si = choose|i: int| 0 <= i < es.len() && seed@ == es[i].0;
        proof {
            lemma_pfx_find_props(es, seed@);
            assert(es[si].0 == seed@);
        }
        let r = self.generate_from(&seed, count);
        proof {
            if r is Ok {
                assert(chain_consistent(es, es[si].0, (r->Ok_0)@.map_values(|s: String| s@)));
            }
        }
        r
    }

    /// Every distribution stored in a valid model is normalized: its counts
    /// sum exactly to its stored total, so its weights, count over total,
    /// sum exactly to one.
    pub proof fn lemma_stored_weights_sum_to_one(self, i: int)
        requires
            self.inv(),
            0 <= i < self.entries().len(),
        ensures
            self.dist_at(i).normalized(),
            fu_sum(self.entries()[i].1) == self.dist_at(i).total_spec(),
            self.dist_at(i).total_spec() > 0,
    {
    }

    /// Training round trip: in a model trained over `text`, the stored
    /// count of follower `v` for a prefix `q` is exactly the number of
    /// corpus windows where `q` was followed by `v`, and the trained
    /// prefixes are exactly the windows that occur in the corpus.
    pub proof fn lemma_trained_counts_are_occurrences(self, text: Seq<char>)
        requires
            train_result(text, Ok(self)),
        ensures
            forall|q: Seq<Seq<char>>, v: Seq<char>|
                #[trigger] model_count(self.entries(), q, v) == occ(
                    spec_tokens(text),
                    spec_tokens(text).len() - PREFIX_SIZE,
                    q,
                    v,
                ),
            forall|q: Seq<Seq<char>>|
                (#[trigger] pfx_find(self.entries(), q) >= 0) <==> (exists|i: int|
                    0 <= i < spec_tokens(text).len() - PREFIX_SIZE && window(
                        spec_tokens(text),
                        i,
                    ) == q),
    {
        lemma_model_counts_occurrences(
            spec_tokens(text),
            spec_tokens(text).len() - PREFIX_SIZE,
        );
    }

    /// Trained prefixes never alias: each entry's prefix differs from every
    /// other entry's, and looking it up yields exactly its own entry.
    pub proof fn lemma_lookup_is_exact(self, i: int)
        requires
            self.inv(),
            0 <= i < self.entries().len(),
        ensures
            pfx_find(self.entries(), self.entries()[i].0) == i,
            forall|j: int|
                0 <= j < self.entries().len() && j != i ==> (#[trigger] self.entries()[j]).0
                    != self.entries()[i].0,
    {
        let es = self.entries();
        lemma_pfx_find_props(es, es[i].0);
        let f = pfx_find(es, es[i].0);
        if f < i {
        } else if f > i {
            assert(es[i].0 != es[f].0);
        }
    }
}

/// First entry of `data` whose prefix matches `p`, by structural comparison.
fn find_prefix(data: &Vec<(Prefix, FollowUp)>, p: &Prefix) -> (r: Option<usize>)
    ensures
        match r {
            Some(j) => j < data@.len() && j as int == pfx_find(
                data@.map_values(|e: (Prefix, FollowUp)| (e.0@, e.1@)),
                p@,
            ),
            None => pfx_find(data@.map_values(|e: (Prefix, FollowUp)| (e.0@, e.1@)), p@) == -1,
        },
{
    let ghost mv = data@.map_values(|e: (Prefix, FollowUp)| (e.0@, e.1@));
    proof {
        lemma_pfx_find_props(mv, p@);
    }
    let n = data.len();
    let mut i: usize = 0;
    while i < n
        invariant
            n == data@.len(),
            mv == data@.map_values(|e: (Prefix, FollowUp)| (e.0@, e.1@)),
            i <= n,
            forall|k: int| 0 <= k < i ==> mv[k].0 != p@,
            pfx_find(mv, p@) == -1 || 0 <= pfx_find(mv, p@) < mv.len(),
            pfx_find(mv, p@) >= 0 ==> mv[pfx_find(mv, p@)].0 == p@,
            forall|k: int| 0 <= k < pfx_find(mv, p@) ==> mv[k].0 != p@,
            (pfx_find(mv, p@) >= 0) <==> (exists|k: int| 0 <= k < mv.len() && mv[k].0 == p@),
        decreases n - i,
    {
        if data[i].0.same_as(p) {
            proof {
                assert(mv[i as int].0 == p@);
            }
            return Some(i);
        }
        proof {
            assert(mv[i as int].0 == data@[i as int].0@);
        }
        i = i + 1;
    }
    None
}

} // verus!
