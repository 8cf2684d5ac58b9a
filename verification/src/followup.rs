//! The per-prefix distribution of follower words.
//!
//! A distribution stores, in first-observation order, each follower word
//! together with how often it was seen, and — once normalized — the total of
//! all counts. The weight of a word is its count divided by that total, so
//! the weights are exact rationals and sum to one by construction.

use vstd::prelude::*;

verus! {

/// First index of `w` among the words of `fu`, or -1 when absent.
pub open spec fn fu_find(fu: Seq<(Seq<char>, int)>, w: Seq<char>) -> int
    decreases fu.len(),
{
    if fu.len() == 0 {
        -1
    } else if fu[0].0 == w {
        0
    } else {
        let r = fu_find(fu.drop_first(), w);
        if r < 0 {
            -1
        } else {
            r + 1
        }
    }
}

/// The count stored for `w`, or 0 when absent.
pub open spec fn fu_count(fu: Seq<(Seq<char>, int)>, w: Seq<char>) -> int {
    let i = fu_find(fu, w);
    if i < 0 {
        0
    } else {
        fu[i].1
    }
}

/// Sum of all counts.
pub open spec fn fu_sum(fu: Seq<(Seq<char>, int)>) -> int
    decreases fu.len(),
{
    if fu.len() == 0 {
        0
    } else {
        fu[0].1 + fu_sum(fu.drop_first())
    }
}

/// One observation of `w`: its count rises by one, a first observation
/// appends `(w, 1)` at the end; the order of the other entries is kept.
pub open spec fn spec_bump(fu: Seq<(Seq<char>, int)>, w: Seq<char>) -> Seq<(Seq<char>, int)>
    decreases fu.len(),
{
    if fu.len() == 0 {
        seq![(w, 1int)]
    } else if fu[0].0 == w {
        seq![(fu[0].0, fu[0].1 + 1)] + fu.drop_first()
    } else {
        seq![fu[0]] + spec_bump(fu.drop_first(), w)
    }
}

/// Cumulative weighted choice: walking the entries in order, `r` falls into
/// the slice of the first word whose running total exceeds it.
pub open spec fn spec_pick(fu: Seq<(Seq<char>, int)>, r: int) -> Seq<char>
    decreases fu.len(),
{
    if fu.len() == 0 {
        Seq::<char>::empty()
    } else if r < fu[0].1 {
        fu[0].0
    } else {
        spec_pick(fu.drop_first(), r - fu[0].1)
    }
}

/// No word occurs twice.
pub open spec fn fu_distinct(fu: Seq<(Seq<char>, int)>) -> bool {
    forall|i: int, j: int| 0 <= i < j < fu.len() ==> fu[i].0 != fu[j].0
}

/// Well-formed distribution contents: distinct words, every count positive.
pub open spec fn fu_wf(fu: Seq<(Seq<char>, int)>) -> bool {
    &&& fu_distinct(fu)
    &&& forall|i: int| 0 <= i < fu.len() ==> (#[trigger] fu[i]).1 >= 1
}

pub proof fn lemma_fu_find_props(fu: Seq<(Seq<char>, int)>, w: Seq<char>)
    ensures
        fu_find(fu, w) == -1 || 0 <= fu_find(fu, w) < fu.len(),
        (fu_find(fu, w) >= 0) <==> (exists|i: int| 0 <= i < fu.len() && fu[i].0 == w),
        fu_find(fu, w) >= 0 ==> fu[fu_find(fu, w)].0 == w,
        forall|k: int| 0 <= k < fu_find(fu, w) ==> fu[k].0 != w,
    decreases fu.len(),
{
    if fu.len() == 0 {
    } else if fu[0].0 == w {
    } else {
        lemma_fu_find_props(fu.drop_first(), w);
        if exists|i: int| 0 <= i < fu.len() && fu[i].0 == w {
            let i = choose|i: int| 0 <= i < fu.len() && fu[i].0 == w;
            assert(fu.drop_first()[i - 1].0 == w);
        }
        if fu_find(fu.drop_first(), w) >= 0 {
            let r = fu_find(fu.drop_first(), w);
            assert(fu.drop_first()[r].0 == w);
            assert(forall|k: int| 0 <= k < r ==> fu.drop_first()[k].0 != w);
            assert(forall|k: int| 1 <= k < r + 1 ==> fu[k].0 == fu.drop_first()[k - 1].0);
        }
    }
}

pub proof fn lemma_fu_sum_push(fu: Seq<(Seq<char>, int)>, e: (Seq<char>, int))
    ensures
        fu_sum(fu.push(e)) == fu_sum(fu) + e.1,
    decreases fu.len(),
{
    reveal_with_fuel(fu_sum, 3);
    if fu.len() == 0 {
        assert(fu.push(e)[0] == e);
        assert(fu.push(e).drop_first() =~= Seq::<(Seq<char>, int)>::empty());
    } else {
        assert(fu.push(e)[0] == fu[0]);
        assert(fu.push(e).drop_first() =~= fu.drop_first().push(e));
        lemma_fu_sum_push(fu.drop_first(), e);
    }
}

pub proof fn lemma_fu_sum_update(fu: Seq<(Seq<char>, int)>, i: int, e: (Seq<char>, int))
    requires
        0 <= i < fu.len(),
    ensures
        fu_sum(fu.update(i, e)) == fu_sum(fu) - fu[i].1 + e.1,
    decreases i,
{
    if i == 0 {
        assert(fu.update(0, e)[0] == e);
        assert(fu.update(0, e).drop_first() =~= fu.drop_first());
    } else {
        assert(fu.update(i, e)[0] == fu[0]);
        assert(fu.update(i, e).drop_first() =~= fu.drop_first().update(i - 1, e));
        lemma_fu_sum_update(fu.drop_first(), i - 1, e);
    }
}

pub proof fn lemma_fu_sum_split(fu: Seq<(Seq<char>, int)>, i: int)
    requires
        0 <= i <= fu.len(),
    ensures
        fu_sum(fu) == fu_sum(fu.subrange(0, i)) + fu_sum(fu.subrange(i, fu.len() as int)),
    decreases i,
{
    if i == 0 {
        assert(fu.subrange(0, 0) =~= Seq::<(Seq<char>, int)>::empty());
        assert(fu.subrange(0, fu.len() as int) =~= fu);
    } else {
        lemma_fu_sum_split(fu, i - 1);
        assert(fu.subrange(0, i) =~= fu.subrange(0, i - 1).push(fu[i - 1]));
        lemma_fu_sum_push(fu.subrange(0, i - 1), fu[i - 1]);
        assert(fu.subrange(i - 1, fu.len() as int)[0] == fu[i - 1]);
        assert(fu.subrange(i - 1, fu.len() as int).drop_first() =~= fu.subrange(
            i,
            fu.len() as int,
        ));
    }
}

pub proof fn lemma_fu_sum_nonneg(fu: Seq<(Seq<char>, int)>)
    requires
        forall|k: int| 0 <= k < fu.len() ==> (#[trigger] fu[k]).1 >= 0,
    ensures
        fu_sum(fu) >= 0,
    decreases fu.len(),
{
    if fu.len() > 0 {
        assert(forall|k: int|
            0 <= k < fu.drop_first().len() ==> (#[trigger] fu.drop_first()[k]) == fu[k + 1]);
        lemma_fu_sum_nonneg(fu.drop_first());
    }
}

pub proof fn lemma_fu_sum_pos(fu: Seq<(Seq<char>, int)>)
    requires
        fu_wf(fu),
        fu.len() >= 1,
    ensures
        fu_sum(fu) >= 1,
{
    assert(forall|k: int|
        0 <= k < fu.drop_first().len() ==> (#[trigger] fu.drop_first()[k]) == fu[k + 1]);
    lemma_fu_sum_nonneg(fu.drop_first());
}

pub proof fn lemma_fu_count_le_sum(fu: Seq<(Seq<char>, int)>, i: int)
    requires
        forall|k: int| 0 <= k < fu.len() ==> (#[trigger] fu[k]).1 >= 0,
        0 <= i < fu.len(),
    ensures
        fu[i].1 <= fu_sum(fu),
{
    lemma_fu_sum_split(fu, i);
    let tail = fu.subrange(i, fu.len() as int);
    assert(tail[0] == fu[i]);
    assert(tail.drop_first() =~= fu.subrange(i + 1, fu.len() as int));
    assert(forall|k: int|
        0 <= k < fu.subrange(0, i).len() ==> (#[trigger] fu.subrange(0, i)[k]).1 >= 0);
    lemma_fu_sum_nonneg(fu.subrange(0, i));
    assert(forall|k: int|
        0 <= k < tail.drop_first().len() ==> (#[trigger] tail.drop_first()[k]).1 >= 0);
    lemma_fu_sum_nonneg(tail.drop_first());
}

pub proof fn lemma_bump_found(fu: Seq<(Seq<char>, int)>, w: Seq<char>, i: int)
    requires
        0 <= i < fu.len(),
        fu[i].0 == w,
        forall|k: int| 0 <= k < i ==> fu[k].0 != w,
    ensures
        spec_bump(fu, w) == fu.update(i, (w, fu[i].1 + 1)),
    decreases i,
{
    if i == 0 {
        assert(spec_bump(fu, w) =~= fu.update(0, (w, fu[0].1 + 1)));
    } else {
        lemma_bump_found(fu.drop_first(), w, i - 1);
        assert(fu.drop_first()[i - 1] == fu[i]);
        assert(seq![fu[0]] + fu.drop_first().update(i - 1, (w, fu[i].1 + 1)) =~= fu.update(
            i,
            (w, fu[i].1 + 1),
        ));
    }
}

pub proof fn lemma_bump_absent(fu: Seq<(Seq<char>, int)>, w: Seq<char>)
    requires
        forall|k: int| 0 <= k < fu.len() ==> (#[trigger] fu[k]).0 != w,
    ensures
        spec_bump(fu, w) == fu.push((w, 1int)),
    decreases fu.len(),
{
    if fu.len() == 0 {
        assert(spec_bump(fu, w) =~= fu.push((w, 1int)));
    } else {
        assert(forall|k: int|
            0 <= k < fu.drop_first().len() ==> (#[trigger] fu.drop_first()[k]) == fu[k + 1]);
        lemma_bump_absent(fu.drop_first(), w);
        assert(seq![fu[0]] + fu.drop_first().push((w, 1int)) =~= fu.push((w, 1int)));
    }
}

pub proof fn lemma_fu_find_same_words(
    a: Seq<(Seq<char>, int)>,
    b: Seq<(Seq<char>, int)>,
    w: Seq<char>,
)
    requires
        a.len() == b.len(),
        forall|k: int| 0 <= k < a.len() ==> (#[trigger] a[k]).0 == b[k].0,
    ensures
        fu_find(a, w) == fu_find(b, w),
    decreases a.len(),
{
    if a.len() > 0 {
        assert(forall|k: int|
            0 <= k < a.drop_first().len() ==> (#[trigger] a.drop_first()[k]) == a[k + 1]
                && b.drop_first()[k] == b[k + 1]);
        lemma_fu_find_same_words(a.drop_first(), b.drop_first(), w);
    }
}

pub proof fn lemma_fu_find_push(fu: Seq<(Seq<char>, int)>, e: (Seq<char>, int), w: Seq<char>)
    ensures
        fu_find(fu.push(e), w) == if fu_find(fu, w) >= 0 {
            fu_find(fu, w)
        } else if e.0 == w {
            fu.len() as int
        } else {
            -1
        },
    decreases fu.len(),
{
    reveal_with_fuel(fu_find, 3);
    if fu.len() == 0 {
        assert(fu.push(e)[0] == e);
        assert(fu.push(e).drop_first() =~= Seq::<(Seq<char>, int)>::empty());
    } else {
        assert(fu.push(e)[0] == fu[0]);
        assert(fu.push(e).drop_first() =~= fu.drop_first().push(e));
        lemma_fu_find_push(fu.drop_first(), e, w);
    }
}

/// One observation of `w` raises the count of `w` by one and leaves every
/// other word's count unchanged.
pub proof fn lemma_bump_count(fu: Seq<(Seq<char>, int)>, w: Seq<char>, q: Seq<char>)
    requires
        fu_distinct(fu),
    ensures
        fu_count(spec_bump(fu, w), q) == fu_count(fu, q) + if q == w {
            1int
        } else {
            0int
        },
{
    lemma_fu_find_props(fu, w);
    lemma_fu_find_props(fu, q);
    let g = fu_find(fu, w);
    let h = fu_find(fu, q);
    if g >= 0 {
        lemma_bump_found(fu, w, g);
        let upd = fu.update(g, (w, fu[g].1 + 1));
        lemma_fu_find_same_words(upd, fu, q);
        if q == w {
            assert(fu_count(upd, q) == upd[g].1);
        } else {
            if h >= 0 {
                assert(fu[h].0 == q);
                assert(h != g);
                assert(upd[h] == fu[h]);
            }
        }
    } else {
        lemma_bump_absent(fu, w);
        lemma_fu_find_push(fu, (w, 1int), q);
        let pushed = fu.push((w, 1int));
        if q == w {
            assert(fu_find(pushed, q) == fu.len() as int);
            assert(pushed[fu.len() as int].1 == 1);
            assert(fu_count(fu, q) == 0);
        } else {
            if h >= 0 {
                assert(pushed[h] == fu[h]);
            }
        }
    }
}

/// Weighted choices of any given prefix: each follower word with its count,
/// in first-observation order, plus the stored total once normalized.
#[derive(Debug)]
pub struct FollowUp {
    possibilities: Vec<(String, usize)>,
    total: usize,
}

impl View for FollowUp {
    type V = Seq<(Seq<char>, int)>;

    closed spec fn view(&self) -> Seq<(Seq<char>, int)> {
        self.possibilities@.map_values(|e: (String, usize)| (e.0@, e.1 as int))
    }
}

impl FollowUp {
    /// The stored total: the denominator of every weight once normalized.
    pub closed spec fn total_spec(self) -> int {
        self.total as int
    }

    pub open spec fn wf(self) -> bool {
        fu_wf(self@)
    }

    /// Normalized: the stored total is exactly the sum of the counts, so the
    /// weights count/total of the entries sum to one.
    pub open spec fn normalized(self) -> bool {
        &&& self.wf()
        &&& self.total_spec() == fu_sum(self@)
        &&& self.total_spec() > 0
    }

    pub fn new() -> (fu: FollowUp)
        ensures
            fu@ =~= Seq::<(Seq<char>, int)>::empty(),
            fu.total_spec() == 0,
            fu.wf(),
    {
        FollowUp { possibilities: Vec::new(), total: 0 }
    }

    /// First index of `word`, if present.
    fn find_word(&self, word: &String) -> (r: Option<usize>)
        ensures
            match r {
                Some(j) => j < self@.len() && j as int == fu_find(self@, word@),
                None => fu_find(self@, word@) == -1,
            },
    {
        proof {
            lemma_fu_find_props(self@, word@);
        }
        let n = self.possibilities.len();
        let mut i: usize = 0;
        while i < n
            invariant
                n == self.possibilities@.len(),
                i <= n,
                forall|k: int| 0 <= k < i ==> self@[k].0 != word@,
                fu_find(self@, word@) == -1 || 0 <= fu_find(self@, word@) < self@.len(),
                fu_find(self@, word@) >= 0 ==> self@[fu_find(self@, word@)].0 == word@,
                forall|k: int| 0 <= k < fu_find(self@, word@) ==> self@[k].0 != word@,
                (fu_find(self@, word@) >= 0) <==> (exists|k: int|
                    0 <= k < self@.len() && self@[k].0 == word@),
            decreases n - i,
        {
            if self.possibilities[i].0 == *word {
                proof {
                    assert(self@[i as int].0 == word@);
                }
                return Some(i);
            }
            proof {
                assert(self@[i as int].0 == self.possibilities@[i as int].0@);
            }
            i = i + 1;
        }
        None
    }

    /// Record one observation of `word`.
    pub fn accumulate(&mut self, word: String)
        requires
            old(self).wf(),
            fu_sum(old(self)@) < usize::MAX,
        ensures
            final(self).wf(),
            final(self)@ == spec_bump(old(self)@, word@),
            final(self).total_spec() == old(self).total_spec(),
            fu_sum(final(self)@) == fu_sum(old(self)@) + 1,
    {
        match self.find_word(&word) {
            Some(j) => {
                proof {
                    lemma_fu_find_props(old(self)@, word@);
                    lemma_fu_count_le_sum(old(self)@, j as int);
                }
                let entry = self.possibilities.remove(j);
                let count = entry.1;
                self.possibilities.insert(j, (entry.0, count + 1));
                proof {
                    let ghost prev = old(self)@;
                    let ghost upd = prev.update(j as int, (word@, prev[j as int].1 + 1));
                    assert(self@ =~= upd);
                    lemma_bump_found(prev, word@, j as int);
                    lemma_fu_sum_update(prev, j as int, (word@, prev[j as int].1 + 1));
                    assert(forall|k: int| 0 <= k < upd.len() ==> (#[trigger] upd[k]).1 >= 1);
                    assert(forall|i: int, j2: int|
                        0 <= i < j2 < upd.len() ==> upd[i].0 == prev[i].0 && upd[j2].0
                            == prev[j2].0);
                }
            },
            None => {
                self.possibilities.push((word, 1));
                proof {
                    let ghost prev = old(self)@;
                    lemma_fu_find_props(prev, word@);
                    assert(self@ =~= prev.push((word@, 1int)));
                    lemma_bump_absent(prev, word@);
                    lemma_fu_sum_push(prev, (word@, 1int));
                    let ghost upd = prev.push((word@, 1int));
                    assert(forall|k: int| 0 <= k < upd.len() ==> (#[trigger] upd[k]).1 >= 1);
                }
            },
        }
    }

    /// Sum of all counts held.
    fn sum_counts(&self) -> (s: usize)
        requires
            self.wf(),
            fu_sum(self@) <= usize::MAX,
        ensures
            s as int == fu_sum(self@),
    {
        let n = self.possibilities.len();
        let mut acc: usize = 0;
        let mut i: usize = 0;
        proof {
            assert(self@.subrange(0, 0) =~= Seq::<(Seq<char>, int)>::empty());
        }
        while i < n
            invariant
                self.wf(),
                fu_sum(self@) <= usize::MAX,
                n == self.possibilities@.len(),
                n == self@.len(),
                i <= n,
                acc as int == fu_sum(self@.subrange(0, i as int)),
            decreases n - i,
        {
            let c = self.possibilities[i].1;
            proof {
                assert(self@[i as int].1 == c as int);
                assert(self@.subrange(0, i + 1) =~= self@.subrange(0, i as int).push(
                    self@[i as int],
                ));
                lemma_fu_sum_push(self@.subrange(0, i as int), self@[i as int]);
                lemma_fu_sum_split(self@, i + 1);
                assert(forall|k: int|
                    0 <= k < self@.subrange(i + 1, n as int).len() ==> (#[trigger] self@.subrange(
                        i + 1,
                        n as int,
                    )[k]).1 >= 0);
                lemma_fu_sum_nonneg(self@.subrange(i + 1, n as int));
            }
            acc = acc + c;
            i = i + 1;
        }
        proof {
            assert(self@.subrange(0, n as int) =~= self@);
        }
        acc
    }

    /// Fix the total of the accumulated counts, after which every weight is
    /// count/total and the weights sum to one. Invoked once, after training.
    pub fn normalize(&mut self)
        requires
            old(self).wf(),
            0 < fu_sum(old(self)@),
            fu_sum(old(self)@) <= usize::MAX,
        ensures
            final(self)@ == old(self)@,
            final(self).normalized(),
            final(self).total_spec() == fu_sum(old(self)@),
    {
        let s = self.sum_counts();
        self.total = s;
    }

    /// Weighted choice: `r` is a draw from `[0, total)`, and the returned
    /// word is the first whose cumulative count exceeds `r`, walking the
    /// entries in first-observation order.
    pub fn choose_next(&self, r: usize) -> (w: String)
        requires
            self.normalized(),
            (r as int) < self.total_spec(),
        ensures
            w@ == spec_pick(self@, r as int),
            exists|i: int| 0 <= i < self@.len() && (#[trigger] self@[i]).0 == w@,
    {
        let n = self.possibilities.len();
        let mut rem: usize = r;
        let mut i: usize = 0;
        proof {
            assert(self@.subrange(0, n as int) =~= self@);
            assert(self@.subrange(0, 0) =~= Seq::<(Seq<char>, int)>::empty());
        }
        while i < n
            invariant
                self.normalized(),
                n == self.possibilities@.len(),
                n == self@.len(),
                i <= n,
                (rem as int) < fu_sum(self@.subrange(i as int, n as int)),
                spec_pick(self@, r as int) == spec_pick(
                    self@.subrange(i as int, n as int),
                    rem as int,
                ),
            decreases n - i,
        {
            let c = self.possibilities[i].1;
            let ghost tail = self@.subrange(i as int, n as int);
            proof {
                assert(self@[i as int].1 == c as int);
                assert(tail[0] == self@[i as int]);
                assert(tail.drop_first() =~= self@.subrange(i + 1, n as int));
            }
            if rem < c {
                proof {
                    assert(spec_pick(tail, rem as int) == self@[i as int].0);
                }
                return self.possibilities[i].0.clone();
            }
            rem = rem - c;
            i = i + 1;
        }
        proof {
            assert(self@.subrange(n as int, n as int) =~= Seq::<(Seq<char>, int)>::empty());
            assert(false);
        }
        String::new()
    }

    /// The counts of a normalized distribution sum exactly to its stored
    /// total: the weights count/total of its entries sum to one.
    pub proof fn lemma_weights_sum_to_one(self)
        requires
            self.normalized(),
        ensures
            fu_sum(self@) == self.total_spec(),
            self.total_spec() > 0,
    {
    }

    /// Number of distinct follower words held.
    pub fn len(&self) -> (n: usize)
        ensures
            n == self@.len(),
    {
        self.possibilities.len()
    }

    /// The word of the entry at `i`, in first-observation order.
    pub fn word_at(&self, i: usize) -> (w: String)
        requires
            i < self@.len(),
        ensures
            w@ == self@[i as int].0,
    {
        self.possibilities[i].0.clone()
    }

    /// The count of the entry at `i`.
    pub fn count_at(&self, i: usize) -> (c: usize)
        requires
            i < self@.len(),
        ensures
            c as int == self@[i as int].1,
    {
        self.possibilities[i].1
    }

    /// The count stored for `word`, 0 when it was never observed.
    pub fn count_of(&self, word: &String) -> (c: usize)
        ensures
            c as int == fu_count(self@, word@),
    {
        match self.find_word(word) {
            Some(j) => self.possibilities[j].1,
            None => 0,
        }
    }

    /// The stored total; 0 until `normalize` has run.
    pub fn total(&self) -> (t: usize)
        ensures
            t as int == self.total_spec(),
    {
        self.total
    }
}

impl Clone for FollowUp {
    fn clone(&self) -> (res: Self)
        ensures
            res@ == self@,
            res.total_spec() == self.total_spec(),
    {
        let n = self.possibilities.len();
        let mut possibilities: Vec<(String, usize)> = Vec::new();
        let mut i: usize = 0;
        while i < n
            invariant
                n == self.possibilities@.len(),
                i <= n,
                possibilities@.len() == i,
                forall|k: int|
                    0 <= k < i ==> (#[trigger] possibilities@[k]).0@ == self@[k].0
                        && possibilities@[k].1 as int == self@[k].1,
            decreases n - i,
        {
            possibilities.push((self.possibilities[i].0.clone(), self.possibilities[i].1));
            i = i + 1;
        }
        let res = FollowUp { possibilities, total: self.total };
        proof {
            assert(res@ =~= self@);
        }
        res
    }
}

} // verus!
