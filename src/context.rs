use vstd::prelude::*;

use crate::bits::{bit64, lemma_mask_test};
use crate::fraction::Fraction;
use crate::information::{Information, MAX_ROWS, MAX_WIDTH};
use crate::rule::Rule;
use crate::transformation::Transformation;

verus! {

/// The rows of a rule's source and interpretation.
pub type RuleView = (Seq<u64>, Seq<u64>);

/// `k` is the first rule whose source holds `mask` in row `r`.
pub open spec fn is_first_rule(rules: Seq<RuleView>, r: int, mask: u64, k: int) -> bool {
    &&& 0 <= k < rules.len()
    &&& rules[k].0[r] == mask
    &&& forall|j: int| 0 <= j < k ==> rules[j].0[r] != mask
}

/// `n` rows, all clear but row `r`, which holds `mask`.
pub open spec fn single_bit_rows(n: nat, r: int, mask: u64) -> Seq<u64> {
    Seq::new(n, |j: int| if j == r { mask } else { 0u64 })
}

/// Row-wise conjunction, as long as `a`.
pub open spec fn and_rows(a: Seq<u64>, b: Seq<u64>) -> Seq<u64> {
    Seq::new(a.len(), |j: int| a[j] & b[j])
}

/// Row-wise disjunction of `acc` with the rows of `b`.
pub open spec fn or_rows(acc: Seq<u64>, b: Seq<u64>) -> Seq<u64> {
    Seq::new(acc.len(), |j: int| if j < b.len() { acc[j] | b[j] } else { acc[j] })
}

/// The rules after the set bit `c` of row `r` of a source of `n` rows was
/// seen to lead to `interp`: the rule for that bit narrows its
/// interpretation to what it shares with `interp`, or a rule for the bit is
/// added with `interp` as it is.
pub open spec fn learn_bit(rules: Seq<RuleView>, n: nat, r: int, c: int, interp: Seq<u64>) -> Seq<
    RuleView,
> {
    let mask = 1u64 << (c as u64);
    if exists|k: int| is_first_rule(rules, r, mask, k) {
        let k = choose|k: int| is_first_rule(rules, r, mask, k);
        rules.update(k, (rules[k].0, and_rows(rules[k].1, interp)))
    } else {
        rules.push((single_bit_rows(n, r, mask), interp))
    }
}

/// The rules after bits `0 .. c` of row `r` of `i` were learnt.
pub open spec fn learn_row(
    rules: Seq<RuleView>,
    i: Seq<u64>,
    r: int,
    c: int,
    interp: Seq<u64>,
) -> Seq<RuleView>
    decreases c,
{
    if c <= 0 {
        rules
    } else {
        let prev = learn_row(rules, i, r, c - 1, interp);
        if bit64(i[r], c - 1) {
            learn_bit(prev, i.len(), r, c - 1, interp)
        } else {
            prev
        }
    }
}

/// The rules after the bits below `width` of rows `0 .. r` of `i` were learnt.
pub open spec fn learn_rows(
    rules: Seq<RuleView>,
    i: Seq<u64>,
    width: int,
    r: int,
    interp: Seq<u64>,
) -> Seq<RuleView>
    decreases r,
{
    if r <= 0 {
        rules
    } else {
        learn_row(learn_rows(rules, i, width, r - 1, interp), i, r - 1, width, interp)
    }
}

/// The source of `n` rows for bit `c` of row `r`.
pub open spec fn bit_source(n: nat, r: int, c: int) -> Seq<u64> {
    single_bit_rows(n, r, 1u64 << (c as u64))
}

/// `src` is the source of some bit of `n` rows.
pub open spec fn is_bit_source(src: Seq<u64>, n: nat) -> bool {
    exists|r: int, c: int| 0 <= r < n && 0 <= c < 64 && src == #[trigger] bit_source(n, r, c)
}

/// Each rule's source has `n` rows and a single set bit, and no two rules
/// share a source.
pub open spec fn rules_wf(rules: Seq<RuleView>, n: nat) -> bool {
    &&& forall|k: int| 0 <= k < rules.len() ==> is_bit_source((#[trigger] rules[k]).0, n)
    &&& forall|a: int, b: int|
        0 <= a < b < rules.len() ==> (#[trigger] rules[a]).0 != (#[trigger] rules[b]).0
}

proof fn lemma_learn_bit_wf(rules: Seq<RuleView>, n: nat, r: int, c: int, interp: Seq<u64>)
    requires
        rules_wf(rules, n),
        0 <= r < n,
        0 <= c < 64,
    ensures
        rules_wf(learn_bit(rules, n, r, c, interp), n),
{
    let mask = 1u64 << (c as u64);
    let after = learn_bit(rules, n, r, c, interp);
    if exists|k: int| is_first_rule(rules, r, mask, k) {
        let k = choose|k: int| is_first_rule(rules, r, mask, k);
        assert forall|j: int| 0 <= j < after.len() implies (#[trigger] after[j]).0 == rules[j].0 by {}
    } else {
        let fresh = single_bit_rows(n, r, mask);
        assert(after == rules.push((fresh, interp)));
        assert forall|j: int| 0 <= j < rules.len() implies (#[trigger] rules[j]).0 != fresh by {
            assert(!is_first_rule(rules, r, mask, j));
            if rules[j].0 == fresh {
                assert(rules[j].0[r] == mask);
                assert forall|l: int| 0 <= l < j implies rules[l].0[r] != mask by {
                    if rules[l].0[r] == mask {
                        assert(is_bit_source(rules[l].0, n));
                        let (rl, cl) = choose|rl: int, cl: int|
                            0 <= rl < n && 0 <= cl < 64 && rules[l].0 == bit_source(n, rl, cl);
                        lemma_single_bit_rows_agree(n, r, rl, cl, c);
                        assert(rules[l].0 == rules[j].0);
                    }
                }
            }
        }
        assert forall|j: int| 0 <= j < after.len() implies is_bit_source(
            (#[trigger] after[j]).0,
            n,
        ) by {
            if j == rules.len() {
                assert(after[j].0 == bit_source(n, r, c));
            } else {
                assert(after[j] == rules[j]);
            }
        }
    }
}

/// A single-bit source that holds the mask of bit `c` in row `r` is the
/// single-bit source of that bit.
proof fn lemma_single_bit_rows_agree(n: nat, r: int, rl: int, cl: int, c: int)
    requires
        0 <= r < n,
        0 <= rl < n,
        0 <= cl < 64,
        0 <= c < 64,
        bit_source(n, rl, cl)[r] == 1u64 << (c as u64),
    ensures
        bit_source(n, rl, cl) == bit_source(n, r, c),
{
    let cc = c as u64;
    assert(1u64 << cc != 0u64) by (bit_vector)
        requires
            cc < 64,
    ;
    assert(rl == r);
    let cl64 = cl as u64;
    assert(1u64 << cl64 == 1u64 << cc ==> cl64 == cc) by (bit_vector)
        requires
            cl64 < 64,
            cc < 64,
    ;
    assert(bit_source(n, rl, cl) =~= bit_source(n, r, c));
}

proof fn lemma_learn_row_wf(rules: Seq<RuleView>, i: Seq<u64>, r: int, c: int, interp: Seq<u64>)
    requires
        rules_wf(rules, i.len()),
        0 <= r < i.len(),
        0 <= c <= 64,
    ensures
        rules_wf(learn_row(rules, i, r, c, interp), i.len()),
    decreases c,
{
    if c > 0 {
        lemma_learn_row_wf(rules, i, r, c - 1, interp);
        if bit64(i[r], c - 1) {
            lemma_learn_bit_wf(learn_row(rules, i, r, c - 1, interp), i.len(), r, c - 1, interp);
        }
    }
}

proof fn lemma_learn_rows_wf(rules: Seq<RuleView>, i: Seq<u64>, width: int, r: int, interp: Seq<u64>)
    requires
        rules_wf(rules, i.len()),
        0 <= r <= i.len(),
        0 <= width <= 64,
    ensures
        rules_wf(learn_rows(rules, i, width, r, interp), i.len()),
    decreases r,
{
    if r > 0 {
        lemma_learn_rows_wf(rules, i, width, r - 1, interp);
        lemma_learn_row_wf(learn_rows(rules, i, width, r - 1, interp), i, r - 1, width, interp);
    }
}

/// Learning keeps one single-bit rule per source bit.
pub proof fn lemma_learnt_wf(rules: Seq<RuleView>, i: Information, interp: Information)
    requires
        rules_wf(rules, i.data@.len()),
        i.width <= MAX_WIDTH,
    ensures
        rules_wf(learnt(rules, i, interp), i.data@.len()),
{
    lemma_learn_rows_wf(rules, i.data@, i.width as int, i.data@.len() as int, interp.data@);
}

/// The rules after all of `i` was learnt to lead to `interp`.
pub open spec fn learnt(rules: Seq<RuleView>, i: Information, interp: Information) -> Seq<
    RuleView,
> {
    learn_rows(rules, i.data@, i.width as int, i.data@.len() as int, interp.data@)
}

/// What interpreting has gathered: the combined interpretation, the number
/// of set bits met, and the number of them that a rule matched.
pub type Gathered = (Seq<u64>, nat, nat);

/// Interpretation after the set bit `c` of row `r` was met.
pub open spec fn interpret_bit(rules: Seq<RuleView>, g: Gathered, r: int, c: int) -> Gathered {
    let mask = 1u64 << (c as u64);
    if exists|k: int| is_first_rule(rules, r, mask, k) {
        let k = choose|k: int| is_first_rule(rules, r, mask, k);
        (or_rows(g.0, rules[k].1), g.1 + 1, g.2 + 1)
    } else {
        (g.0, g.1 + 1, g.2)
    }
}

/// Interpretation after bits `0 .. c` of row `r` of `i`.
pub open spec fn interpret_row(
    rules: Seq<RuleView>,
    g: Gathered,
    i: Seq<u64>,
    r: int,
    c: int,
) -> Gathered
    decreases c,
{
    if c <= 0 {
        g
    } else {
        let prev = interpret_row(rules, g, i, r, c - 1);
        if bit64(i[r], c - 1) {
            interpret_bit(rules, prev, r, c - 1)
        } else {
            prev
        }
    }
}

/// Interpretation after the bits below `width` of rows `0 .. r` of `i`.
pub open spec fn interpret_rows(rules: Seq<RuleView>, i: Seq<u64>, width: int, r: int) -> Gathered
    decreases r,
{
    if r <= 0 {
        (Seq::new(i.len(), |j: int| 0u64), 0, 0)
    } else {
        interpret_row(rules, interpret_rows(rules, i, width, r - 1), i, r - 1, width)
    }
}

/// The interpretation of `i` by `rules` and its accuracy: `None` when there
/// are no rules, `i` has no set bit, or no rule matches one of them.
pub open spec fn interpretation_of(rules: Seq<RuleView>, i: Seq<u64>, width: int) -> Option<
    (Seq<u64>, Fraction),
> {
    let g = interpret_rows(rules, i, width, i.len() as int);
    if rules.len() == 0 || g.1 == 0 || g.2 == 0 {
        None
    } else {
        Some((g.0, Fraction { numerator: g.2 as u64, denominator: g.1 as u64 }))
    }
}

proof fn lemma_gathered_bounds(rules: Seq<RuleView>, i: Seq<u64>, width: int, r: int, c: int)
    requires
        0 <= r < i.len(),
        0 <= c <= width <= 64,
    ensures
        interpret_row(rules, interpret_rows(rules, i, width, r), i, r, c).1 <= 64 * r + c,
        interpret_row(rules, interpret_rows(rules, i, width, r), i, r, c).2 <= interpret_row(
            rules,
            interpret_rows(rules, i, width, r),
            i,
            r,
            c,
        ).1,
        interpret_row(rules, interpret_rows(rules, i, width, r), i, r, c).0.len() == i.len(),
    decreases r, c,
{
    if c > 0 {
        lemma_gathered_bounds(rules, i, width, r, c - 1);
    } else if r > 0 {
        lemma_gathered_bounds(rules, i, width, r - 1, width);
    }
}

/// Row-wise conjunction of two equally long vectors of words.
fn and_words(a: &Vec<u64>, b: &Vec<u64>) -> (r: Vec<u64>)
    requires
        a@.len() == b@.len(),
    ensures
        r@ == and_rows(a@, b@),
{
    let mut r: Vec<u64> = Vec::new();
    let mut idx: usize = 0;
    while idx < a.len()
        invariant
            a@.len() == b@.len(),
            idx <= a@.len(),
            r@ == and_rows(a@, b@).take(idx as int),
        decreases a@.len() - idx,
    {
        r.push(a[idx] & b[idx]);
        proof {
            assert(r@ =~= and_rows(a@, b@).take(idx + 1));
        }
        idx = idx + 1;
    }
    proof {
        assert(r@ =~= and_rows(a@, b@));
    }
    r
}

/// ORs the words of `b` into the matching rows of `acc`.
fn or_words_into(acc: &mut Vec<u64>, b: &Vec<u64>)
    requires
        b@.len() <= old(acc)@.len(),
    ensures
        final(acc)@ == or_rows(old(acc)@, b@),
{
    let ghost start = acc@;
    let mut idx: usize = 0;
    while idx < b.len()
        invariant
            b@.len() <= start.len(),
            acc@.len() == start.len(),
            idx <= b@.len(),
            forall|j: int|
                0 <= j < start.len() ==> #[trigger] acc@[j] == if j < idx {
                    start[j] | b@[j]
                } else {
                    start[j]
                },
        decreases b@.len() - idx,
    {
        let v = acc[idx] | b[idx];
        acc.set(idx, v);
        idx = idx + 1;
    }
    proof {
        assert(acc@ =~= or_rows(start, b@));
    }
}

/// A context of the transformation space: a transformation and the rules
/// learnt for it, at most one per source bit, in the order they were made.
#[derive(Debug)]
pub struct Context {
    pub tran: Transformation,
    pub rules: Vec<Rule>,
}

impl Context {
    pub open spec fn rules_view(&self) -> Seq<RuleView> {
        Seq::new(self.rules@.len(), |k: int| self.rules@[k].view())
    }

    /// Every rule has `n` source rows and `m` interpretation rows.
    pub open spec fn shaped(&self, n: nat, m: nat) -> bool {
        forall|k: int|
            0 <= k < self.rules@.len() ==> (#[trigger] self.rules@[k]).i.data@.len() == n
                && self.rules@[k].interp.data@.len() == m
    }

    /// Every rule has `n` source rows and at most `n` interpretation rows.
    pub open spec fn shaped_within(&self, n: nat) -> bool {
        forall|k: int|
            0 <= k < self.rules@.len() ==> (#[trigger] self.rules@[k]).i.data@.len() == n
                && self.rules@[k].interp.data@.len() <= n
    }

    /// Creates a context with the transformation `(x, y, a)`.
    pub fn new(x: i16, y: i16, a: i16) -> (r: Context)
        ensures
            r.tran == (Transformation { x, y, a }),
            r.rules@.len() == 0,
    {
        let t = Transformation { x, y, a };
        Context::with_transformation(t)
    }

    pub fn with_transformation(t: Transformation) -> (r: Context)
        ensures
            r.tran == t,
            r.rules@.len() == 0,
    {
        Context { tran: t, rules: Vec::new() }
    }

    /// Position of the first rule whose source holds `mask` in row `r`.
    fn find_rule(&self, r: usize, mask: u64) -> (k: Option<usize>)
        requires
            forall|j: int|
                0 <= j < self.rules@.len() ==> r < (#[trigger] self.rules@[j]).i.data@.len(),
        ensures
            k matches Some(k) ==> is_first_rule(self.rules_view(), r as int, mask, k as int),
            k is None ==> !exists|k: int| is_first_rule(self.rules_view(), r as int, mask, k),
    {
        let mut k: usize = 0;
        while k < self.rules.len()
            invariant
                k <= self.rules@.len(),
                forall|j: int|
                    0 <= j < self.rules@.len() ==> r < (#[trigger] self.rules@[j]).i.data@.len(),
                forall|j: int| 0 <= j < k ==> self.rules_view()[j].0[r as int] != mask,
            decreases self.rules@.len() - k,
        {
            if self.rules[k].i.data[r] == mask {
                return Some(k);
            }
            k = k + 1;
        }
        None
    }

    /// Learns that `i` leads to `interp`: for every set bit of `i`, the rule
    /// for that bit keeps only what `interp` shares with its interpretation,
    /// or a new rule for the bit takes `interp`.
    pub fn learn(&mut self, i: &Information, interp: &Information)
        requires
            1 <= i.width <= MAX_WIDTH,
            old(self).shaped(i.data@.len(), interp.data@.len()),
        ensures
            final(self).tran == old(self).tran,
            final(self).shaped(i.data@.len(), interp.data@.len()),
            final(self).rules_view() == learnt(old(self).rules_view(), *i, *interp),
            rules_wf(old(self).rules_view(), i.data@.len()) ==> rules_wf(
                final(self).rules_view(),
                i.data@.len(),
            ),
    {
        let ghost start = self.rules_view();
        let n = i.data.len();
        let bits_count = i.width;
        let mut data_idx: usize = 0;
        while data_idx < n
            invariant
                n == i.data@.len(),
                1 <= bits_count <= MAX_WIDTH,
                bits_count == i.width,
                data_idx <= n,
                self.tran == old(self).tran,
                self.shaped(n as nat, interp.data@.len()),
                self.rules_view() == learn_rows(
                    start,
                    i.data@,
                    bits_count as int,
                    data_idx as int,
                    interp.data@,
                ),
            decreases n - data_idx,
        {
            let mut c: u32 = 0;
            while c < bits_count
                invariant
                    n == i.data@.len(),
                    1 <= bits_count <= MAX_WIDTH,
                    bits_count == i.width,
                    data_idx < n,
                    c <= bits_count,
                    self.tran == old(self).tran,
                    self.shaped(n as nat, interp.data@.len()),
                    self.rules_view() == learn_row(
                        learn_rows(
                            start,
                            i.data@,
                            bits_count as int,
                            data_idx as int,
                            interp.data@,
                        ),
                        i.data@,
                        data_idx as int,
                        c as int,
                        interp.data@,
                    ),
                decreases bits_count - c,
            {
                let mask = 1u64 << c as u64;
                proof {
                    lemma_mask_test(i.data@[data_idx as int], c as int);
                }
                if i.data[data_idx] & mask != 0 {
                    let ghost before = self.rules_view();
                    match self.find_rule(data_idx, mask) {
                        Some(k) => {
                            let new_int_data = and_words(&self.rules[k].interp.data, &interp.data);
                            let new_int = Information {
                                data: new_int_data,
                                width: self.rules[k].interp.width,
                                name: String::new(),
                            };
                            let new_rule = Rule::new(&self.rules[k].i, &new_int);
                            self.rules.set(k, new_rule);
                            proof {
                                let kk = choose|kk: int|
                                    is_first_rule(before, data_idx as int, mask, kk);
                                assert(kk == k);
                                assert(self.rules_view() =~= learn_bit(
                                    before,
                                    n as nat,
                                    data_idx as int,
                                    c as int,
                                    interp.data@,
                                ));
                            }
                        },
                        None => {
                            let mut i_data: Vec<u64> = vec![0u64; n];
                            i_data.set(data_idx, mask);
                            let new_i = Information {
                                data: i_data,
                                width: i.width,
                                name: String::new(),
                            };
                            let new_rule = Rule::new(&new_i, interp);
                            self.rules.push(new_rule);
                            proof {
                                assert(new_i.data@ =~= single_bit_rows(
                                    n as nat,
                                    data_idx as int,
                                    mask,
                                ));
                                assert(self.rules_view() =~= learn_bit(
                                    before,
                                    n as nat,
                                    data_idx as int,
                                    c as int,
                                    interp.data@,
                                ));
                            }
                        },
                    }
                }
                c = c + 1;
            }
            data_idx = data_idx + 1;
        }
        proof {
            if rules_wf(start, n as nat) {
                lemma_learnt_wf(start, *i, *interp);
            }
        }
    }

    /// Applies the rules to `i`: the interpretations of the rules that match
    /// its set bits are combined, and the share of set bits that a rule
    /// matched is the accuracy.
    pub fn interpret(&self, i: &Information) -> (r: Option<(Information, Fraction)>)
        requires
            1 <= i.width <= MAX_WIDTH,
            i.data@.len() <= MAX_ROWS,
            self.shaped_within(i.data@.len()),
        ensures
            r is None <==> interpretation_of(self.rules_view(), i.data@, i.width as int) is None,
            r matches Some((int_info, accuracy)) ==> {
                &&& interpretation_of(self.rules_view(), i.data@, i.width as int) == Some(
                    (int_info.data@, accuracy),
                )
                &&& int_info.width == i.width
                &&& int_info.data@.len() == i.data@.len()
                &&& int_info.name@ == Seq::<char>::empty()
                &&& accuracy.wf()
            },
    {
        if self.rules.len() == 0 {
            return None;
        }
        let n = i.data.len();
        let bit_length = i.width;
        let mut d_int: Vec<u64> = vec![0u64; n];
        let mut bits_count: u64 = 0;
        let mut match_rules_count: u64 = 0;
        let ghost rules = self.rules_view();
        proof {
            assert(d_int@ =~= Seq::new(i.data@.len(), |j: int| 0u64));
        }
        let mut data_idx: usize = 0;
        while data_idx < n
            invariant
                n == i.data@.len() <= MAX_ROWS,
                1 <= bit_length <= MAX_WIDTH,
                bit_length == i.width,
                rules == self.rules_view(),
                self.shaped_within(n as nat),
                data_idx <= n,
                (d_int@, bits_count as nat, match_rules_count as nat) == interpret_rows(
                    rules,
                    i.data@,
                    bit_length as int,
                    data_idx as int,
                ),
                d_int@.len() == n,
                bits_count <= 64 * data_idx,
            decreases n - data_idx,
        {
            let mut c: u32 = 0;
            while c < bit_length
                invariant
                    n == i.data@.len() <= MAX_ROWS,
                    1 <= bit_length <= MAX_WIDTH,
                    bit_length == i.width,
                    rules == self.rules_view(),
                    self.shaped_within(n as nat),
                    data_idx < n,
                    c <= bit_length,
                    (d_int@, bits_count as nat, match_rules_count as nat) == interpret_row(
                        rules,
                        interpret_rows(rules, i.data@, bit_length as int, data_idx as int),
                        i.data@,
                        data_idx as int,
                        c as int,
                    ),
                    bits_count <= 64 * data_idx + c,
                    d_int@.len() == n,
                decreases bit_length - c,
            {
                let mask = 1u64 << c as u64;
                proof {
                    lemma_mask_test(i.data@[data_idx as int], c as int);
                    lemma_gathered_bounds(
                        rules,
                        i.data@,
                        bit_length as int,
                        data_idx as int,
                        c as int,
                    );
                }
                if i.data[data_idx] & mask != 0 {
                    let ghost g_before = (d_int@, bits_count as nat, match_rules_count as nat);
                    bits_count = bits_count + 1;
                    match self.find_rule(data_idx, mask) {
                        Some(k) => {
                            or_words_into(&mut d_int, &self.rules[k].interp.data);
                            match_rules_count = match_rules_count + 1;
                            proof {
                                let kk = choose|kk: int|
                                    is_first_rule(rules, data_idx as int, mask, kk);
                                assert(kk == k);
                            }
                        },
                        None => {},
                    }
                }
                c = c + 1;
            }
            data_idx = data_idx + 1;
        }
        proof {
            if n > 0 {
                lemma_gathered_bounds(rules, i.data@, bit_length as int, n - 1, bit_length as int);
            }
        }
        if bits_count == 0 || match_rules_count == 0 {
            return None;
        }
        let int_info = Information { data: d_int, width: i.width, name: String::new() };
        Some((int_info, Fraction { numerator: match_rules_count, denominator: bits_count }))
    }
}

} // verus!
