use vstd::prelude::*;

use rayon::prelude::{IntoParallelRefIterator, IntoParallelRefMutIterator, ParallelIterator};

use crate::context::{interpretation_of, learnt, Context, RuleView};
use crate::fraction::Fraction;
use crate::information::{coherence_of, Information, InformationError, MAX_ROWS, MAX_WIDTH};
use crate::transformation::Transformation;

verus! {

/// The product of two fractions, term by term.
pub open spec fn product(a: Fraction, b: Fraction) -> Fraction {
    Fraction {
        numerator: (a.numerator * b.numerator) as u64,
        denominator: (a.denominator * b.denominator) as u64,
    }
}

/// Whether two transformations lie within the learning distance.
pub open spec fn near(a: Transformation, b: Transformation) -> bool {
    a.x == b.x && a.y == b.y && a.a == b.a
}

/// Equality of informations: name, width and rows.
pub open spec fn same_information(a: Information, b: Information) -> bool {
    a.name@ == b.name@ && a.width == b.width && a.data@ == b.data@
}

/// No two interpretations are equal.
pub open spec fn distinct_interpretations(interpretations: Seq<Information>) -> bool {
    forall|a: int, b: int|
        0 <= a < b < interpretations.len() ==> !same_information(
            #[trigger] interpretations[a],
            #[trigger] interpretations[b],
        )
}

/// No two contexts lie within the learning distance of each other.
pub open spec fn distinct_transformations(contexts: Seq<(Transformation, Seq<RuleView>)>) -> bool {
    forall|a: int, b: int|
        0 <= a < b < contexts.len() ==> !near(#[trigger] contexts[a].0, #[trigger] contexts[b].0)
}

/// The interpretations with `interp` added unless an equal one is there.
pub open spec fn with_interpretation(interpretations: Seq<Information>, interp: Information) -> Seq<
    Information,
> {
    if exists|j: int|
        0 <= j < interpretations.len() && same_information(#[trigger] interpretations[j], interp) {
        interpretations
    } else {
        interpretations.push(interp)
    }
}

/// Among the first `n` stored interpretations, the one of `target`'s row
/// count that `target` is most coherent to, with that coherence, provided
/// it reaches `floor`; the later one wins a tie.
pub open spec fn best_existing(
    interpretations: Seq<Information>,
    target: Seq<u64>,
    floor: Fraction,
    n: int,
) -> Option<(int, Fraction)>
    decreases n,
{
    if n <= 0 {
        None
    } else {
        let prev = best_existing(interpretations, target, floor, n - 1);
        let candidate = interpretations[n - 1];
        let coherence = coherence_of(target, candidate.data@);
        if candidate.data@.len() == target.len() && coherence.spec_ge(floor) && (prev is None
            || coherence.spec_ge(prev->Some_0.1)) {
            Some((n - 1, coherence))
        } else {
            prev
        }
    }
}

/// What a context offers for `i`: the stored interpretation it leads to,
/// the combined accuracy, and its own interpretation.
pub open spec fn offer(
    interpretations: Seq<Information>,
    rules: Seq<RuleView>,
    i: Seq<u64>,
    width: int,
    floor: Fraction,
) -> Option<(int, Fraction, Seq<u64>)> {
    match interpretation_of(rules, i, width) {
        None => None,
        Some((actual, accuracy)) => if !accuracy.spec_ge(floor) {
            None
        } else {
            match best_existing(interpretations, actual, floor, interpretations.len() as int) {
                None => None,
                Some((j, coherence)) => Some((j, product(accuracy, coherence), actual)),
            }
        },
    }
}

/// Among the first `n` contexts, the one with the best offer, with that
/// offer; the later one wins a tie.
pub open spec fn best_offer(
    interpretations: Seq<Information>,
    contexts: Seq<(Transformation, Seq<RuleView>)>,
    i: Seq<u64>,
    width: int,
    floor: Fraction,
    n: int,
) -> Option<(int, (int, Fraction, Seq<u64>))>
    decreases n,
{
    if n <= 0 {
        None
    } else {
        let prev = best_offer(interpretations, contexts, i, width, floor, n - 1);
        match offer(interpretations, contexts[n - 1].1, i, width, floor) {
            None => prev,
            Some(o) => if prev is None || o.1.spec_ge(prev->Some_0.1.1) {
                Some((n - 1, o))
            } else {
                prev
            },
        }
    }
}

/// Relies on `rayon`'s `ParallelIterator::any` over `par_iter`: true exactly
/// when the predicate holds of some context, here that its transformation
/// lies within the learning distance of `t`.
#[verifier::external_body]
fn any_context_near(contexts: &Vec<Context>, t: &Transformation) -> (r: bool)
    ensures
        r == (exists|k: int| 0 <= k < contexts@.len() && near(#[trigger] contexts@[k].tran, *t)),
{
    contexts.par_iter().any(|c| c.tran.is_within_learning_distance(t))
}

/// Relies on `rayon`'s `ParallelIterator::any` over `par_iter`: true exactly
/// when the predicate holds of some interpretation, here that it equals
/// `interp`.
#[verifier::external_body]
fn any_interpretation_equal(interpretations: &Vec<Information>, interp: &Information) -> (r: bool)
    ensures
        r == (exists|j: int|
            0 <= j < interpretations@.len() && same_information(
                #[trigger] interpretations@[j],
                *interp,
            )),
{
    interpretations.par_iter().any(|i| i == interp)
}

impl Context {
    /// Learns the pair when the context's transformation lies within the
    /// learning distance of `t`; leaves the context as it is otherwise.
    pub fn learn_if_near(&mut self, t: &Transformation, i: &Information, interp: &Information)
        requires
            1 <= i.width <= MAX_WIDTH,
            near(old(self).tran, *t) ==> old(self).shaped(i.data@.len(), interp.data@.len()),
        ensures
            near(old(self).tran, *t) ==> final(self).tran == old(self).tran
                && final(self).rules_view() == learnt(old(self).rules_view(), *i, *interp)
                && final(self).shaped(i.data@.len(), interp.data@.len()),
            !near(old(self).tran, *t) ==> *final(self) == *old(self),
    {
        if self.tran.is_within_learning_distance(t) {
            self.learn(i, interp);
        }
    }
}

/// Relies on `rayon`'s `par_iter_mut().for_each(..)`: the closure runs once
/// on every context, here `Context::learn_if_near`, so each context ends as
/// that function leaves it and their number and order stay.
#[verifier::external_body]
fn learn_near(contexts: &mut Vec<Context>, t: &Transformation, i: &Information, interp: &Information)
    requires
        1 <= i.width <= MAX_WIDTH,
        forall|k: int|
            0 <= k < old(contexts)@.len() && near(old(contexts)@[k].tran, *t) ==> (
            #[trigger] old(contexts)@[k]).shaped(i.data@.len(), interp.data@.len()),
    ensures
        final(contexts)@.len() == old(contexts)@.len(),
        forall|k: int|
            0 <= k < final(contexts)@.len() ==> ({
                let before = old(contexts)@[k];
                let after = #[trigger] final(contexts)@[k];
                &&& near(before.tran, *t) ==> after.tran == before.tran && after.rules_view()
                    == learnt(before.rules_view(), *i, *interp) && after.shaped(
                    i.data@.len(),
                    interp.data@.len(),
                )
                &&& !near(before.tran, *t) ==> after == before
            }),
{
    contexts.par_iter_mut().for_each(|c| c.learn_if_near(t, i, interp))
}

/// Relies on `rayon`'s `par_iter().map(..).collect()` into a `Vec`, which
/// keeps the contexts' order: entry `k` is what `Context::interpret` returns
/// for context `k`.
#[verifier::external_body]
fn interpret_each(contexts: &Vec<Context>, i: &Information) -> (r: Vec<
    Option<(Information, Fraction)>,
>)
    requires
        1 <= i.width <= MAX_WIDTH,
        i.data@.len() <= MAX_ROWS,
        forall|k: int|
            0 <= k < contexts@.len() ==> (#[trigger] contexts@[k]).shaped_within(i.data@.len()),
    ensures
        r@.len() == contexts@.len(),
        forall|k: int|
            0 <= k < r@.len() ==> ((#[trigger] r@[k]) is None <==> interpretation_of(
                contexts@[k].rules_view(),
                i.data@,
                i.width as int,
            ) is None),
        forall|k: int|
            0 <= k < r@.len() ==> ((#[trigger] r@[k]) matches Some((int_info, accuracy)) ==> {
                &&& interpretation_of(contexts@[k].rules_view(), i.data@, i.width as int) == Some(
                    (int_info.data@, accuracy),
                )
                &&& int_info.width == i.width
                &&& int_info.data@.len() == i.data@.len()
                &&& int_info.name@ == Seq::<char>::empty()
                &&& accuracy.wf()
            }),
{
    contexts.par_iter().map(|c| c.interpret(i)).collect()
}

/// Relies on `rayon`'s `par_iter().map(..).collect()` into a `Vec`, which
/// keeps the interpretations' order: entry `j` is what
/// `Information::coherence_to` returns for `target` and interpretation `j`.
#[verifier::external_body]
fn coherence_each(interpretations: &Vec<Information>, target: &Information) -> (r: Vec<
    Result<Fraction, InformationError>,
>)
    requires
        target.data@.len() <= MAX_ROWS,
    ensures
        r@.len() == interpretations@.len(),
        forall|j: int|
            0 <= j < r@.len() ==> ((#[trigger] r@[j]) is Err <==> target.data@.len()
                != interpretations@[j].data@.len()),
        forall|j: int|
            0 <= j < r@.len() ==> ((#[trigger] r@[j]) is Ok ==> r@[j] == Ok::<
                Fraction,
                InformationError,
            >(coherence_of(target.data@, interpretations@[j].data@)) && coherence_of(
                target.data@,
                interpretations@[j].data@,
            ).wf()),
{
    interpretations.par_iter().map(|stored| target.coherence_to(stored)).collect()
}

/// The context space: the interpretations seen so far, all different, and
/// one context per transformation learnt.
#[derive(Debug)]
pub struct ContextSpace {
    pub interpretations: Vec<Information>,
    pub contexts: Vec<Context>,
}

impl ContextSpace {
    pub open spec fn contexts_view(&self) -> Seq<(Transformation, Seq<RuleView>)> {
        Seq::new(self.contexts@.len(), |k: int| (self.contexts@[k].tran, self.contexts@[k].rules_view()))
    }

    /// Every context within the learning distance of `t` has rules with `n`
    /// source rows and `m` interpretation rows.
    pub open spec fn shaped_near(&self, t: Transformation, n: nat, m: nat) -> bool {
        forall|k: int|
            0 <= k < self.contexts@.len() && near(self.contexts@[k].tran, t) ==> (
            #[trigger] self.contexts@[k]).shaped(n, m)
    }

    /// Every context's rules have `n` source rows and at most `n`
    /// interpretation rows.
    pub open spec fn shaped_within(&self, n: nat) -> bool {
        forall|k: int| 0 <= k < self.contexts@.len() ==> (#[trigger] self.contexts@[k]).shaped_within(n)
    }

    /// A space without contexts or interpretations.
    pub fn new() -> (r: ContextSpace)
        ensures
            r.contexts@.len() == 0,
            r.interpretations@.len() == 0,
    {
        let contexts = Vec::<Context>::new();
        let interpretations = Vec::<Information>::new();
        ContextSpace { contexts, interpretations }
    }

    /// Number of contexts.
    pub fn len(&self) -> (r: usize)
        ensures
            r == self.contexts@.len(),
    {
        self.contexts.len()
    }

    /// Supervised learning of the pair `i`, `interp` under the known
    /// transformation `t`: a context for `t` is made if none lies within the
    /// learning distance, every context that does learns the pair, and
    /// `interp` joins the interpretations unless an equal one is there.
    pub fn learn(&mut self, t: &Transformation, i: &Information, interp: Information)
        requires
            1 <= i.width <= MAX_WIDTH,
            old(self).shaped_near(*t, i.data@.len(), interp.data@.len()),
        ensures
            final(self).shaped_near(*t, i.data@.len(), interp.data@.len()),
            ({
                let before = old(self).contexts_view();
                let after = final(self).contexts_view();
                let found = exists|k: int|
                    0 <= k < before.len() && near(#[trigger] before[k].0, *t);
                &&& after.len() == before.len() + if found { 0int } else { 1int }
                &&& forall|k: int|
                    0 <= k < before.len() ==> #[trigger] after[k] == if near(before[k].0, *t) {
                        (before[k].0, learnt(before[k].1, *i, interp))
                    } else {
                        before[k]
                    }
                &&& !found ==> after[before.len() as int] == (
                    *t,
                    learnt(Seq::<RuleView>::empty(), *i, interp),
                )
            }),
            final(self).interpretations@ == with_interpretation(
                old(self).interpretations@,
                interp,
            ),
            distinct_interpretations(old(self).interpretations@) ==> distinct_interpretations(
                final(self).interpretations@,
            ),
            distinct_transformations(old(self).contexts_view()) ==> distinct_transformations(
                final(self).contexts_view(),
            ),
    {
        let ghost before = self.contexts_view();
        let found = any_context_near(&self.contexts, t);
        proof {
            if found {
                let k = choose|k: int|
                    0 <= k < self.contexts@.len() && near(#[trigger] self.contexts@[k].tran, *t);
                assert(near(before[k].0, *t));
            } else {
                assert forall|k: int| 0 <= k < before.len() implies !near(
                    #[trigger] before[k].0,
                    *t,
                ) by {
                    assert(before[k].0 == self.contexts@[k].tran);
                }
            }
        }
        if !found {
            let c = Context::with_transformation(*t);
            assert(c.rules_view() =~= Seq::<RuleView>::empty());
            self.contexts.push(c);
            proof {
                assert(self.contexts_view() =~= before.push((*t, Seq::<RuleView>::empty())));
            }
        }
        let ghost middle = self.contexts_view();
        let ghost middle_contexts = self.contexts@;
        learn_near(&mut self.contexts, t, i, &interp);
        proof {
            assert forall|j: int| 0 <= j < middle.len() implies #[trigger] self.contexts_view()[j]
                == if near(middle[j].0, *t) {
                (middle[j].0, learnt(middle[j].1, *i, interp))
            } else {
                middle[j]
            } by {
                assert(middle[j].0 == middle_contexts[j].tran);
                assert(middle[j].1 == middle_contexts[j].rules_view());
            }
        }
        proof {
            assert forall|j: int| 0 <= j < before.len() implies #[trigger] self.contexts_view()[j]
                == if near(before[j].0, *t) {
                (before[j].0, learnt(before[j].1, *i, interp))
            } else {
                before[j]
            } by {
                assert(middle[j] == before[j]);
            }
            assert(self.contexts_view().len() == before.len() + if found { 0int } else { 1int });
            if !found {
                let last = before.len() as int;
                assert(middle[last] == (*t, Seq::<RuleView>::empty()));
                assert(near(*t, *t));
                assert(self.contexts_view()[last] == (
                    *t,
                    learnt(Seq::<RuleView>::empty(), *i, interp),
                ));
            }
        }
        proof {
            let after = self.contexts_view();
            if distinct_transformations(before) {
                assert forall|a: int, b: int| 0 <= a < b < after.len() implies !near(
                    #[trigger] after[a].0,
                    #[trigger] after[b].0,
                ) by {
                    if b == before.len() {
                        assert(after[a].0 == before[a].0);
                    } else {
                        assert(after[a].0 == before[a].0 && after[b].0 == before[b].0);
                    }
                }
            }
        }
        let ghost after = self.contexts_view();
        let ghost interpretations = self.interpretations@;
        self.add_interpretation(interp);
        proof {
            assert(self.contexts_view() =~= after);
            let now = self.interpretations@;
            if distinct_interpretations(interpretations) && now != interpretations {
                assert forall|a: int, b: int| 0 <= a < b < now.len() implies !same_information(
                    #[trigger] now[a],
                    #[trigger] now[b],
                ) by {
                    if b == interpretations.len() {
                        assert(now[a] == interpretations[a]);
                    }
                }
            }
        }
    }

    /// Adds `interp` to the interpretations unless an equal one is there.
    fn add_interpretation(&mut self, interp: Information)
        ensures
            final(self).contexts == old(self).contexts,
            final(self).interpretations@ == with_interpretation(
                old(self).interpretations@,
                interp,
            ),
    {
        let found = any_interpretation_equal(&self.interpretations, &interp);
        if !found {
            self.interpretations.push(interp);
        }
    }

    /// Finds the best interpretation of `i`: every context interprets it,
    /// those reaching the accuracy `accuracy` look for the stored
    /// interpretation they are most coherent to, which must reach it too,
    /// and the context whose two measures multiply to the most wins (the
    /// later one on a tie). Returns the stored interpretation, the winning
    /// transformation, the combined accuracy and the context's own
    /// interpretation.
    pub fn interpret(&self, i: &Information, accuracy: Fraction) -> (r: Option<
        (Information, Transformation, Fraction, Information),
    >)
        requires
            1 <= i.width <= MAX_WIDTH,
            i.data@.len() <= MAX_ROWS,
            accuracy.bounded(),
            self.shaped_within(i.data@.len()),
        ensures
            r is None <==> self.best_offer_among(*i, accuracy, self.contexts@.len() as int) is None,
            r matches Some((existing, tran, combined, actual)) ==> {
                let (k, (j, score, actual_data)) = self.best_offer_among(
                    *i,
                    accuracy,
                    self.contexts@.len() as int,
                )->Some_0;
                &&& tran == self.contexts_view()[k].0
                &&& same_information(existing, self.interpretations@[j])
                &&& combined == score
                &&& actual.data@ == actual_data
                &&& actual.width == i.width
            },
    {
        let offers = interpret_each(&self.contexts, i);
        let mut best: Option<(usize, usize, Fraction, Information)> = None;
        let mut k: usize = 0;
        while k < self.contexts.len()
            invariant
                k <= self.contexts@.len(),
                offers@.len() == self.contexts@.len(),
                forall|kk: int|
                    0 <= kk < offers@.len() ==> ((#[trigger] offers@[kk]) is None <==> interpretation_of(
                        self.contexts@[kk].rules_view(),
                        i.data@,
                        i.width as int,
                    ) is None),
                forall|kk: int|
                    0 <= kk < offers@.len() ==> ((#[trigger] offers@[kk]) matches Some((int_info, acc)) ==> {
                        &&& interpretation_of(self.contexts@[kk].rules_view(), i.data@, i.width as int)
                            == Some((int_info.data@, acc))
                        &&& int_info.width == i.width
                        &&& int_info.data@.len() == i.data@.len()
                        &&& acc.wf()
                    }),
                1 <= i.width <= MAX_WIDTH,
                i.data@.len() <= MAX_ROWS,
                accuracy.bounded(),
                self.shaped_within(i.data@.len()),
                best is None <==> self.best_offer_among(*i, accuracy, k as int) is None,
                best matches Some((bk, bj, score, actual)) ==> {
                    &&& bk < k
                    &&& bj < self.interpretations@.len()
                    &&& self.best_offer_among(*i, accuracy, k as int) == Some(
                        (bk as int, (bj as int, score, actual.data@)),
                    )
                    &&& score.wf_product()
                    &&& actual.width == i.width
                },
            decreases self.contexts@.len() - k,
        {
            assert(self.contexts@[k as int].shaped_within(i.data@.len()));
            assert(self.contexts_view()[k as int].1 == self.contexts@[k as int].rules_view());
            match &offers[k] {
                None => {},
                Some((actual, actual_accuracy)) => {
                    if actual_accuracy.at_least(&accuracy) {
                        match self.find_existing_interpretation(&actual, &accuracy) {
                            None => {},
                            Some((j, coherence)) => {
                                let full_accuracy = actual_accuracy.times(&coherence);
                                let better = match &best {
                                    None => true,
                                    Some((_, _, score, _)) => full_accuracy.at_least(score),
                                };
                                if better {
                                    best = Some((k, j, full_accuracy, actual.duplicate()));
                                }
                            },
                        }
                    }
                },
            }
            k = k + 1;
        }
        match best {
            None => None,
            Some((bk, bj, score, actual)) => {
                let tran = self.contexts[bk].tran;
                let existing = self.interpretations[bj].duplicate();
                Some((existing, tran, score, actual))
            },
        }
    }

    /// The best offer for `i` among the first `n` contexts.
    pub open spec fn best_offer_among(self, i: Information, floor: Fraction, n: int) -> Option<
        (int, (int, Fraction, Seq<u64>)),
    > {
        best_offer(self.interpretations@, self.contexts_view(), i.data@, i.width as int, floor, n)
    }

    /// The best stored interpretation for `target` among the first `n`.
    pub open spec fn best_existing_among(self, target: Information, floor: Fraction, n: int) -> Option<
        (int, Fraction),
    > {
        best_existing(self.interpretations@, target.data@, floor, n)
    }

    /// Among the stored interpretations with as many rows as `target`, the
    /// position of the one that `target` is most coherent to and that
    /// coherence, provided it reaches `accuracy` (the later one on a tie).
    fn find_existing_interpretation(&self, target: &Information, accuracy: &Fraction) -> (r: Option<
        (usize, Fraction),
    >)
        requires
            target.data@.len() <= MAX_ROWS,
            accuracy.bounded(),
        ensures
            ({
                let best = self.best_existing_among(
                    *target,
                    *accuracy,
                    self.interpretations@.len() as int,
                );
                &&& r is None <==> best is None
                &&& r matches Some((j, c)) ==> {
                    &&& best == Some((j as int, c))
                    &&& c.wf()
                    &&& j < self.interpretations@.len()
                }
            }),
    {
        let coherences = coherence_each(&self.interpretations, target);
        let mut best: Option<(usize, Fraction)> = None;
        let mut j: usize = 0;
        while j < self.interpretations.len()
            invariant
                j <= self.interpretations@.len(),
                coherences@.len() == self.interpretations@.len(),
                forall|jj: int|
                    0 <= jj < coherences@.len() ==> ((#[trigger] coherences@[jj]) is Err <==> target.data@.len()
                        != self.interpretations@[jj].data@.len()),
                forall|jj: int|
                    0 <= jj < coherences@.len() ==> ((#[trigger] coherences@[jj]) is Ok ==> coherences@[jj]
                        == Ok::<Fraction, InformationError>(
                        coherence_of(target.data@, self.interpretations@[jj].data@),
                    ) && coherence_of(target.data@, self.interpretations@[jj].data@).wf()),
                target.data@.len() <= MAX_ROWS,
                accuracy.bounded(),
                best is None <==> self.best_existing_among(*target, *accuracy, j as int) is None,
                best matches Some((bj, c)) ==> {
                    &&& self.best_existing_among(*target, *accuracy, j as int) == Some((bj as int, c))
                    &&& c.wf()
                    &&& bj < j
                },
            decreases self.interpretations@.len() - j,
        {
            match coherences[j] {
                Err(_) => {},
                Ok(coherence) => {
                    if coherence.at_least(accuracy) {
                        let better = match best {
                            None => true,
                            Some((_, c)) => coherence.at_least(&c),
                        };
                        if better {
                            best = Some((j, coherence));
                        }
                    }
                },
            }
            j = j + 1;
        }
        best
    }
}

} // verus!
