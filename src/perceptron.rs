//! The averaged perceptron: a sparse linear classifier trained online, whose
//! final weights are the time-average of every weight vector it went through.
//!
//! Weights are kept in fixed point: one unit of a weight is a thousandth, so
//! an update moves a weight by `WEIGHT_UNIT` and averaging rounds to three
//! decimals exactly.
use vstd::prelude::*;
use crate::features::{key_index, keys_unique, lemma_key_index_unique, views, FeatureSet};

verus! {

/// One whole weight, in thousandths.
pub const WEIGHT_UNIT: i64 = 1000;

/// The largest number of training instances a perceptron may count.
pub const MAX_INSTANCES: u64 = 0x1_0000_0000;

/// The largest magnitude, in thousandths, of a weight that a model takes
/// from a listing: one unit per instance a model may count.
pub const MAX_LISTED_WEIGHT: i64 = 4_294_967_296_000;

/// The largest number of distinct features a prediction may score.
pub const MAX_FEATURES: usize = 0xffff_ffff;

/// What the model keeps for one (feature, class) pair: the live weight, the
/// weight integrated over the instances up to `stamp`, and that stamp.
pub struct WeightRecord {
    pub weight: int,
    pub total: int,
    pub stamp: int,
}

pub struct PerceptronView {
    pub classes: Seq<Seq<char>>,
    pub instances: nat,
    pub table: Map<(Seq<char>, Seq<char>), WeightRecord>,
}

impl PerceptronView {
    /// The record of (`f`, `c`); an absent pair reads as all zero.
    pub open spec fn rec(self, f: Seq<char>, c: Seq<char>) -> WeightRecord {
        if self.table.contains_key((f, c)) {
            self.table[(f, c)]
        } else {
            WeightRecord { weight: 0, total: 0, stamp: 0 }
        }
    }

    pub open spec fn weight(self, f: Seq<char>, c: Seq<char>) -> int {
        self.rec(f, c).weight
    }

    /// The weight of (`f`, `c`) integrated over all instances so far.
    pub open spec fn lazy_total(self, f: Seq<char>, c: Seq<char>) -> int {
        let r = self.rec(f, c);
        r.total + (self.instances - r.stamp) * r.weight
    }
}

/// A perceptron that has seen nothing.
pub open spec fn fresh_view() -> PerceptronView {
    PerceptronView { classes: Seq::empty(), instances: 0, table: Map::empty() }
}

/// The raw score of class `c`: each feature's weight for `c` times its count.
pub open spec fn score(v: PerceptronView, feats: Seq<(Seq<char>, nat)>, c: Seq<char>) -> int
    decreases feats.len(),
{
    if feats.len() == 0 {
        0
    } else {
        score(v, feats.drop_last(), c) + v.weight(feats.last().0, c) * feats.last().1
    }
}

/// Whether some feature of `feats` with a non-zero count has a stored weight
/// for `c`.
pub open spec fn reached(v: PerceptronView, feats: Seq<(Seq<char>, nat)>, c: Seq<char>) -> bool {
    exists|i: int| 0 <= i < feats.len() && feats[i].1 != 0 && #[trigger] v.table.contains_key((feats[i].0, c))
}

pub open spec fn any_reached(v: PerceptronView, feats: Seq<(Seq<char>, nat)>) -> bool {
    exists|c: Seq<char>| #[trigger] reached(v, feats, c)
}

/// The classes that compete for `feats`: those the features reach through a
/// stored weight, or the registered classes when the features reach none.
pub open spec fn candidate(v: PerceptronView, feats: Seq<(Seq<char>, nat)>, c: Seq<char>) -> bool {
    if any_reached(v, feats) {
        reached(v, feats, c)
    } else {
        v.classes.contains(c)
    }
}

pub open spec fn has_candidate(v: PerceptronView, feats: Seq<(Seq<char>, nat)>) -> bool {
    exists|c: Seq<char>| #[trigger] candidate(v, feats, c)
}

/// `a` comes before `b` in the order of their characters, a proper prefix
/// before the longer text.
pub open spec fn lex_lt(a: Seq<char>, b: Seq<char>) -> bool
    decreases a.len(),
{
    if a.len() == 0 {
        b.len() > 0
    } else if b.len() == 0 {
        false
    } else if a[0] != b[0] {
        a[0] < b[0]
    } else {
        lex_lt(a.drop_first(), b.drop_first())
    }
}

/// `a` wins over `b`: a higher score, or the same score and a label that
/// comes later in the order of characters.
pub open spec fn beats(v: PerceptronView, feats: Seq<(Seq<char>, nat)>, a: Seq<char>, b: Seq<char>) -> bool {
    score(v, feats, a) > score(v, feats, b) || (score(v, feats, a) == score(v, feats, b) && lex_lt(b, a))
}

/// `r` is a candidate that wins over every other candidate.
pub open spec fn is_best(v: PerceptronView, feats: Seq<(Seq<char>, nat)>, r: Seq<char>) -> bool {
    candidate(v, feats, r) && forall|c: Seq<char>|
        #[trigger] candidate(v, feats, c) && c != r ==> beats(v, feats, r, c)
}

/// The model with only what prediction reads: the classes and the stored
/// weights.
pub open spec fn weights_only(v: PerceptronView) -> PerceptronView {
    PerceptronView {
        classes: v.classes,
        instances: 0,
        table: v.table.map_values(|r: WeightRecord| WeightRecord { weight: r.weight, total: 0, stamp: 0 }),
    }
}

/// Two models store the same pairs with the same weights.
pub open spec fn same_weights(a: PerceptronView, b: PerceptronView) -> bool {
    &&& forall|f: Seq<char>, g: Seq<char>| #[trigger] a.weight(f, g) == b.weight(f, g)
    &&& forall|f: Seq<char>, g: Seq<char>| #[trigger] a.table.contains_key((f, g)) == b.table.contains_key((f, g))
}

/// The class the model predicts for `feats`: the candidate that wins over
/// every other; empty when nothing competes.
pub open spec fn best_class(v: PerceptronView, feats: Seq<(Seq<char>, nat)>) -> Seq<char> {
    if has_candidate(v, feats) {
        choose|r: Seq<char>| is_best(weights_only(v), feats, r)
    } else {
        Seq::empty()
    }
}

proof fn lemma_same_scores(a: PerceptronView, b: PerceptronView, feats: Seq<(Seq<char>, nat)>, c: Seq<char>)
    requires
        same_weights(a, b),
    ensures
        score(a, feats, c) == score(b, feats, c),
    decreases feats.len(),
{
    if feats.len() > 0 {
        lemma_same_scores(a, b, feats.drop_last(), c);
        assert(a.weight(feats.last().0, c) == b.weight(feats.last().0, c));
    }
}

/// Prediction reads only the classes and the stored weights.
pub proof fn lemma_same_weights_same_best(a: PerceptronView, b: PerceptronView, feats: Seq<(Seq<char>, nat)>)
    requires
        a.classes == b.classes,
        same_weights(a, b),
    ensures
        forall|r: Seq<char>| #[trigger] is_best(a, feats, r) == is_best(b, feats, r),
        has_candidate(a, feats) == has_candidate(b, feats),
{
    assert forall|c: Seq<char>| #[trigger] reached(a, feats, c) == reached(b, feats, c) by {
        if reached(a, feats, c) {
            let i = choose|i: int| 0 <= i < feats.len() && feats[i].1 != 0 && #[trigger] a.table.contains_key((feats[i].0, c));
            assert(b.table.contains_key((feats[i].0, c)));
        }
        if reached(b, feats, c) {
            let i = choose|i: int| 0 <= i < feats.len() && feats[i].1 != 0 && #[trigger] b.table.contains_key((feats[i].0, c));
            assert(a.table.contains_key((feats[i].0, c)));
        }
    }
    assert(any_reached(a, feats) == any_reached(b, feats)) by {
        if any_reached(a, feats) {
            let c = choose|c: Seq<char>| #[trigger] reached(a, feats, c);
            assert(reached(b, feats, c));
        }
        if any_reached(b, feats) {
            let c = choose|c: Seq<char>| #[trigger] reached(b, feats, c);
            assert(reached(a, feats, c));
        }
    }
    assert forall|c: Seq<char>| #[trigger] candidate(a, feats, c) == candidate(b, feats, c) by {}
    assert forall|r: Seq<char>| #[trigger] is_best(a, feats, r) == is_best(b, feats, r) by {
        lemma_same_scores(a, b, feats, r);
        if is_best(a, feats, r) {
            assert forall|c: Seq<char>| #[trigger] candidate(b, feats, c) && c != r implies beats(b, feats, r, c) by {
                assert(candidate(a, feats, c));
                lemma_same_scores(a, b, feats, c);
            }
        }
        if is_best(b, feats, r) {
            assert forall|c: Seq<char>| #[trigger] candidate(a, feats, c) && c != r implies beats(a, feats, r, c) by {
                assert(candidate(b, feats, c));
                lemma_same_scores(a, b, feats, c);
            }
        }
    }
    assert(has_candidate(a, feats) == has_candidate(b, feats)) by {
        if has_candidate(a, feats) {
            let c = choose|c: Seq<char>| #[trigger] candidate(a, feats, c);
            assert(candidate(b, feats, c));
        }
        if has_candidate(b, feats) {
            let c = choose|c: Seq<char>| #[trigger] candidate(b, feats, c);
            assert(candidate(a, feats, c));
        }
    }
}

proof fn lemma_weights_only_same(v: PerceptronView)
    ensures
        same_weights(v, weights_only(v)),
        weights_only(v).classes == v.classes,
{
}

proof fn lemma_lex_irreflexive(a: Seq<char>)
    ensures
        !lex_lt(a, a),
    decreases a.len(),
{
    if a.len() > 0 {
        lemma_lex_irreflexive(a.drop_first());
    }
}

proof fn lemma_lex_total(a: Seq<char>, b: Seq<char>)
    ensures
        a != b ==> lex_lt(a, b) || lex_lt(b, a),
        !(lex_lt(a, b) && lex_lt(b, a)),
    decreases a.len(),
{
    if a.len() == 0 && b.len() == 0 {
        assert(a =~= b);
    } else if a.len() > 0 && b.len() > 0 && a[0] == b[0] {
        lemma_lex_total(a.drop_first(), b.drop_first());
        if a.drop_first() == b.drop_first() {
            assert(a =~= seq![a[0]] + a.drop_first());
            assert(b =~= seq![b[0]] + b.drop_first());
        }
    }
}

proof fn lemma_lex_transitive(a: Seq<char>, b: Seq<char>, c: Seq<char>)
    requires
        lex_lt(a, b),
        lex_lt(b, c),
    ensures
        lex_lt(a, c),
    decreases a.len(),
{
    if a.len() > 0 && b.len() > 0 && c.len() > 0 && a[0] == b[0] && b[0] == c[0] {
        lemma_lex_transitive(a.drop_first(), b.drop_first(), c.drop_first());
    }
}

proof fn lemma_beats_transitive(
    v: PerceptronView,
    feats: Seq<(Seq<char>, nat)>,
    a: Seq<char>,
    b: Seq<char>,
    c: Seq<char>,
)
    requires
        beats(v, feats, a, b),
        beats(v, feats, b, c),
    ensures
        beats(v, feats, a, c),
{
    if score(v, feats, a) == score(v, feats, b) && score(v, feats, b) == score(v, feats, c) {
        lemma_lex_transitive(c, b, a);
    }
}

/// At most one candidate wins over all others.
pub proof fn lemma_best_unique(v: PerceptronView, feats: Seq<(Seq<char>, nat)>, a: Seq<char>, b: Seq<char>)
    requires
        is_best(v, feats, a),
        is_best(v, feats, b),
    ensures
        a == b,
{
    if a != b {
        assert(candidate(v, feats, b));
        assert(candidate(v, feats, a));
        lemma_lex_total(a, b);
    }
}

/// A model that knows a class always has a candidate.
pub proof fn lemma_classes_give_candidate(v: PerceptronView, feats: Seq<(Seq<char>, nat)>)
    requires
        v.classes.len() > 0,
    ensures
        has_candidate(v, feats),
{
    if any_reached(v, feats) {
        let c = choose|c: Seq<char>| #[trigger] reached(v, feats, c);
        assert(candidate(v, feats, c));
    } else {
        assert(v.classes.contains(v.classes[0]));
        assert(candidate(v, feats, v.classes[0]));
    }
}

/// `cs` with `c` appended unless it is there already.
pub open spec fn with_class(cs: Seq<Seq<char>>, c: Seq<char>) -> Seq<Seq<char>> {
    if cs.contains(c) {
        cs
    } else {
        cs.push(c)
    }
}

/// The lazy step on (`f`, `c`): the old weight is integrated up to the
/// current instance, the record is stamped now, and the weight moves by `delta`.
pub open spec fn touch(v: PerceptronView, f: Seq<char>, c: Seq<char>, delta: int) -> PerceptronView {
    let r = v.rec(f, c);
    PerceptronView {
        classes: v.classes,
        instances: v.instances,
        table: v.table.insert(
            (f, c),
            WeightRecord {
                weight: r.weight + delta,
                total: r.total + (v.instances - r.stamp) * r.weight,
                stamp: v.instances as int,
            },
        ),
    }
}

/// For each feature in turn, one unit towards `truth` and one away from `guess`.
pub open spec fn touch_features(
    v: PerceptronView,
    truth: Seq<char>,
    guess: Seq<char>,
    feats: Seq<(Seq<char>, nat)>,
) -> PerceptronView
    decreases feats.len(),
{
    if feats.len() == 0 {
        v
    } else {
        let u = touch_features(v, truth, guess, feats.drop_last());
        touch(touch(u, feats.last().0, truth, WEIGHT_UNIT as int), feats.last().0, guess, -WEIGHT_UNIT)
    }
}

/// The model after learning that `features` belong to `truth` where it had
/// guessed `guess`: one more instance, and the weights moved only when the
/// guess was wrong.
pub open spec fn updated(
    v: PerceptronView,
    truth: Seq<char>,
    guess: Seq<char>,
    feats: Seq<(Seq<char>, nat)>,
) -> PerceptronView {
    let u = PerceptronView { classes: v.classes, instances: v.instances + 1, table: v.table };
    if truth == guess {
        u
    } else {
        touch_features(u, truth, guess, feats)
    }
}

/// `t / n` rounded to the nearest integer, halves away from zero.
pub open spec fn round_div(t: int, n: int) -> int {
    if t >= 0 {
        (2 * t + n) / (2 * n)
    } else {
        -((-2 * t + n) / (2 * n))
    }
}

/// The average of the weight of `k` over all instances, in thousandths.
pub open spec fn averaged(v: PerceptronView, k: (Seq<char>, Seq<char>)) -> int {
    round_div(v.lazy_total(k.0, k.1), v.instances as int)
}

/// The model once every weight is replaced by its average over all
/// instances: pairs whose average is zero are dropped, and each kept record
/// is stamped now with the average standing for the whole history. A model
/// that has seen no instance stays as it is.
pub open spec fn averaged_view(v: PerceptronView) -> PerceptronView {
    if v.instances == 0 {
        v
    } else {
        PerceptronView {
            classes: v.classes,
            instances: v.instances,
            table: Map::new(
                |k: (Seq<char>, Seq<char>)| v.table.contains_key(k) && averaged(v, k) != 0,
                |k: (Seq<char>, Seq<char>)|
                    WeightRecord {
                        weight: averaged(v, k),
                        total: averaged(v, k) * v.instances,
                        stamp: v.instances as int,
                    },
            ),
        }
    }
}

proof fn lemma_round_div_bound(t: int, n: int, b: int)
    requires
        n > 0,
        b >= 0,
        -(n * b) <= t <= n * b,
    ensures
        -b <= round_div(t, n) <= b,
{
    let d = 2 * n;
    if t >= 0 {
        let x = 2 * t + n;
        let q = x / d;
        vstd::arithmetic::div_mod::lemma_fundamental_div_mod(x, d);
        assert(0 <= x % d < d) by {
            vstd::arithmetic::div_mod::lemma_mod_bound(x, d);
        }
        assert(q <= b) by (nonlinear_arith)
            requires
                x == d * q + x % d,
                0 <= x % d,
                x <= 2 * (n * b) + n,
                d == 2 * n,
                n > 0,
        ;
        assert(q >= 0) by (nonlinear_arith)
            requires
                x == d * q + x % d,
                x % d < d,
                x >= 0,
                d > 0,
        ;
    } else {
        let x = -2 * t + n;
        let q = x / d;
        vstd::arithmetic::div_mod::lemma_fundamental_div_mod(x, d);
        assert(0 <= x % d < d) by {
            vstd::arithmetic::div_mod::lemma_mod_bound(x, d);
        }
        assert(q <= b) by (nonlinear_arith)
            requires
                x == d * q + x % d,
                0 <= x % d,
                x <= 2 * (n * b) + n,
                d == 2 * n,
                n > 0,
        ;
        assert(q >= 0) by (nonlinear_arith)
            requires
                x == d * q + x % d,
                x % d < d,
                x >= 0,
                d > 0,
        ;
    }
}

/// One learning step: the gold label, the predicted one and the features.
pub struct Step {
    pub truth: Seq<char>,
    pub guess: Seq<char>,
    pub feats: Seq<(Seq<char>, nat)>,
}

/// The model after the steps, in order.
pub open spec fn run(v: PerceptronView, steps: Seq<Step>) -> PerceptronView
    decreases steps.len(),
{
    if steps.len() == 0 {
        v
    } else {
        let s = steps.last();
        updated(run(v, steps.drop_last()), s.truth, s.guess, s.feats)
    }
}

/// The weight of (`f`, `c`) integrated the plain way: for every instance, the
/// weight in force when that instance began, summed.
pub open spec fn naive_integral(v: PerceptronView, steps: Seq<Step>, f: Seq<char>, c: Seq<char>) -> int
    decreases steps.len(),
{
    if steps.len() == 0 {
        0
    } else {
        naive_integral(v, steps.drop_last(), f, c) + run(v, steps.drop_last()).weight(f, c)
    }
}

proof fn lemma_touch_keeps_lazy(v: PerceptronView, f: Seq<char>, c: Seq<char>, d: int, g: Seq<char>, h: Seq<char>)
    ensures
        touch(v, f, c, d).lazy_total(g, h) == v.lazy_total(g, h),
        touch(v, f, c, d).instances == v.instances,
{
    let u = touch(v, f, c, d);
    if (g, h) == (f, c) {
        let r = v.rec(f, c);
        let ur = u.rec(g, h);
        assert(ur.stamp == u.instances);
        assert((u.instances - ur.stamp) * ur.weight == 0) by (nonlinear_arith)
            requires
                ur.stamp == u.instances,
        ;
    } else {
        assert(u.rec(g, h) == v.rec(g, h));
    }
}

proof fn lemma_touch_features_keeps_lazy(
    v: PerceptronView,
    truth: Seq<char>,
    guess: Seq<char>,
    feats: Seq<(Seq<char>, nat)>,
    g: Seq<char>,
    h: Seq<char>,
)
    ensures
        touch_features(v, truth, guess, feats).lazy_total(g, h) == v.lazy_total(g, h),
        touch_features(v, truth, guess, feats).instances == v.instances,
        touch_features(v, truth, guess, feats).classes == v.classes,
    decreases feats.len(),
{
    if feats.len() > 0 {
        let u = touch_features(v, truth, guess, feats.drop_last());
        lemma_touch_features_keeps_lazy(v, truth, guess, feats.drop_last(), g, h);
        let f = feats.last().0;
        lemma_touch_keeps_lazy(u, f, truth, WEIGHT_UNIT as int, g, h);
        lemma_touch_keeps_lazy(touch(u, f, truth, WEIGHT_UNIT as int), f, guess, -WEIGHT_UNIT, g, h);
    }
}

proof fn lemma_updated_lazy(
    v: PerceptronView,
    truth: Seq<char>,
    guess: Seq<char>,
    feats: Seq<(Seq<char>, nat)>,
    f: Seq<char>,
    c: Seq<char>,
)
    ensures
        updated(v, truth, guess, feats).lazy_total(f, c) == v.lazy_total(f, c) + v.weight(f, c),
        updated(v, truth, guess, feats).instances == v.instances + 1,
{
    let u = PerceptronView { classes: v.classes, instances: v.instances + 1, table: v.table };
    let r = v.rec(f, c);
    assert(u.rec(f, c) == r);
    assert((v.instances + 1 - r.stamp) * r.weight == (v.instances - r.stamp) * r.weight + r.weight)
        by (nonlinear_arith);
    if truth != guess {
        lemma_touch_features_keeps_lazy(u, truth, guess, feats, f, c);
    }
}

/// A step counts one instance and forgets no class.
pub proof fn lemma_updated_grows(
    v: PerceptronView,
    truth: Seq<char>,
    guess: Seq<char>,
    feats: Seq<(Seq<char>, nat)>,
)
    ensures
        updated(v, truth, guess, feats).instances == v.instances + 1,
        updated(v, truth, guess, feats).classes == v.classes,
{
    lemma_updated_lazy(v, truth, guess, feats, truth, guess);
    let u = PerceptronView { classes: v.classes, instances: v.instances + 1, table: v.table };
    if truth != guess {
        lemma_touch_features_keeps_lazy(u, truth, guess, feats, truth, guess);
    }
}

/// Lazy averaging loses nothing: after any sequence of steps from a fresh
/// model, the total that the lazy scheme integrates for a pair equals the
/// weight integrated instance by instance, and the instance count equals the
/// number of steps.
pub proof fn lemma_lazy_total_is_naive(steps: Seq<Step>, f: Seq<char>, c: Seq<char>)
    ensures
        run(fresh_view(), steps).instances == steps.len(),
        run(fresh_view(), steps).lazy_total(f, c) == naive_integral(fresh_view(), steps, f, c),
    decreases steps.len(),
{
    if steps.len() == 0 {
        let v = fresh_view();
        assert(v.rec(f, c) == WeightRecord { weight: 0, total: 0, stamp: 0 });
        assert((v.instances - 0) * 0 == 0);
    } else {
        lemma_lazy_total_is_naive(steps.drop_last(), f, c);
        let s = steps.last();
        lemma_updated_lazy(run(fresh_view(), steps.drop_last()), s.truth, s.guess, s.feats, f, c);
    }
}

/// Averaging after any non-empty sequence of steps from a fresh model gives
/// each pair the naive integral of its weight divided by the number of
/// instances, rounded to thousandths.
pub proof fn lemma_average_is_naive(steps: Seq<Step>, f: Seq<char>, c: Seq<char>)
    requires
        steps.len() > 0,
    ensures
        averaged_view(run(fresh_view(), steps)).weight(f, c)
            == round_div(naive_integral(fresh_view(), steps, f, c), steps.len() as int),
{
    lemma_lazy_total_is_naive(steps, f, c);
    let v = run(fresh_view(), steps);
    let n = steps.len() as int;
    if !v.table.contains_key((f, c)) {
        assert(v.lazy_total(f, c) == 0) by {
            assert(v.rec(f, c) == WeightRecord { weight: 0, total: 0, stamp: 0 });
            assert((v.instances - 0) * 0 == 0) by (nonlinear_arith);
        }
        assert(round_div(0, n) == 0) by {
            assert(n / (2 * n) == 0) by (nonlinear_arith)
                requires
                    n > 0,
            ;
        }
    }
}

/// A weight listing: each (feature, class) pair with its weight.
pub open spec fn weight_views(v: Seq<(String, String, i64)>) -> Seq<((Seq<char>, Seq<char>), int)> {
    v.map_values(|e: (String, String, i64)| ((e.0@, e.1@), e.2 as int))
}

/// The weight a listing gives (`f`, `c`); 0 when it lists no such pair.
pub open spec fn listed_weight(l: Seq<((Seq<char>, Seq<char>), int)>, f: Seq<char>, c: Seq<char>) -> int {
    let i = key_index(l, (f, c));
    if i >= 0 {
        l[i].1
    } else {
        0
    }
}

/// Every stored weight lies in the range a model takes from a listing.
pub open spec fn listable(v: PerceptronView) -> bool {
    forall|k: (Seq<char>, Seq<char>)|
        #[trigger] v.table.contains_key(k) ==> -weight_bound(0) <= v.table[k].weight <= weight_bound(0)
}

/// A listing that a model can take: no pair twice, no weight out of range.
pub open spec fn loadable(l: Seq<((Seq<char>, Seq<char>), int)>) -> bool {
    keys_unique(l) && forall|i: int| 0 <= i < l.len() ==> -weight_bound(0) <= #[trigger] l[i].1 <= weight_bound(0)
}

pub open spec fn weight_bound(stamp: int) -> int {
    WEIGHT_UNIT * (stamp + MAX_INSTANCES)
}

/// Every record is stamped no later than now, and its weight and total stay
/// within what `stamp` updates can have produced.
pub open spec fn bounded(v: PerceptronView) -> bool {
    forall|k: (Seq<char>, Seq<char>)|
        #![trigger v.table[k]]
        v.table.contains_key(k) ==> {
            let r = v.table[k];
            &&& 0 <= r.stamp <= v.instances
            &&& -weight_bound(r.stamp) <= r.weight <= weight_bound(r.stamp)
            &&& -r.stamp * weight_bound(r.stamp) <= r.total <= r.stamp * weight_bound(r.stamp)
        }
}

proof fn lemma_bounded_later(a: PerceptronView, b: PerceptronView)
    requires
        bounded(a),
        b.table == a.table,
        b.instances >= a.instances,
    ensures
        bounded(b),
{
    assert forall|k: (Seq<char>, Seq<char>)| #![trigger b.table[k]] b.table.contains_key(k) implies {
        let r = b.table[k];
        &&& 0 <= r.stamp <= b.instances
        &&& -weight_bound(r.stamp) <= r.weight <= weight_bound(r.stamp)
        &&& -r.stamp * weight_bound(r.stamp) <= r.total <= r.stamp * weight_bound(r.stamp)
    } by {
        assert(a.table[k] == b.table[k]);
    }
}

pub open spec fn classes_unique(cs: Seq<Seq<char>>) -> bool {
    forall|i: int, j: int| 0 <= i < cs.len() && 0 <= j < cs.len() && i != j ==> cs[i] != cs[j]
}

struct Entry {
    feature: String,
    class: String,
    weight: i64,
    total: i128,
    stamp: u64,
}

impl Entry {
    spec fn key(&self) -> (Seq<char>, Seq<char>) {
        (self.feature@, self.class@)
    }

    spec fn record(&self) -> WeightRecord {
        WeightRecord { weight: self.weight as int, total: self.total as int, stamp: self.stamp as int }
    }
}

fn label_lt(a: &String, b: &String) -> (r: bool)
    ensures
        r == lex_lt(a@, b@),
{
    let x = a.as_str();
    let y = b.as_str();
    let la = x.unicode_len();
    let lb = y.unicode_len();
    let mut i: usize = 0;
    proof {
        assert(a@.skip(0) =~= a@);
        assert(b@.skip(0) =~= b@);
    }
    loop
        invariant
            la == a@.len(),
            lb == b@.len(),
            x@ == a@,
            y@ == b@,
            i <= la,
            i <= lb,
            lex_lt(a@, b@) == lex_lt(a@.skip(i as int), b@.skip(i as int)),
        decreases la - i,
    {
        if i == la {
            return i < lb;
        }
        if i == lb {
            return false;
        }
        let c = x.get_char(i);
        let d = y.get_char(i);
        proof {
            assert(a@.skip(i as int)[0] == c);
            assert(b@.skip(i as int)[0] == d);
        }
        if c != d {
            return c < d;
        }
        proof {
            assert(a@.skip(i as int).drop_first() =~= a@.skip(i + 1));
            assert(b@.skip(i as int).drop_first() =~= b@.skip(i + 1));
        }
        i = i + 1;
    }
}

fn list_contains(v: &Vec<String>, x: &String) -> (r: bool)
    ensures
        r == views(v@).contains(x@),
{
    let mut i: usize = 0;
    while i < v.len()
        invariant
            i <= v@.len(),
            forall|k: int| 0 <= k < i ==> views(v@)[k] != x@,
        decreases v@.len() - i,
    {
        if v[i] == *x {
            proof {
                assert(views(v@)[i as int] == x@);
            }
            return true;
        }
        i = i + 1;
    }
    false
}

/// An averaged perceptron over string features and string classes.
pub struct AveragedPerceptron {
    classes: Vec<String>,
    instances: u64,
    entries: Vec<Entry>,
    table: Ghost<Map<(Seq<char>, Seq<char>), WeightRecord>>,
}

impl View for AveragedPerceptron {
    type V = PerceptronView;

    closed spec fn view(&self) -> PerceptronView {
        PerceptronView { classes: views(self.classes@), instances: self.instances as nat, table: self.table@ }
    }
}

impl AveragedPerceptron {
    closed spec fn entries_match(&self) -> bool {
        &&& forall|i: int|
            #![trigger self.entries@[i]]
            0 <= i < self.entries@.len() ==> self.table@.contains_key(self.entries@[i].key())
                && self.table@[self.entries@[i].key()] == self.entries@[i].record()
        &&& forall|k: (Seq<char>, Seq<char>)|
            #![trigger self.table@.contains_key(k)]
            self.table@.contains_key(k) ==> exists|i: int|
                0 <= i < self.entries@.len() && self.entries@[i].key() == k
        &&& forall|i: int, j: int|
            0 <= i < self.entries@.len() && 0 <= j < self.entries@.len() && i != j
                ==> self.entries@[i].key() != self.entries@[j].key()
    }

    /// The model's invariant: classes are distinct, the instance count is in
    /// range, and every record is bounded.
    pub closed spec fn wf(&self) -> bool {
        &&& self.entries_match()
        &&& classes_unique(self@.classes)
        &&& self.instances <= MAX_INSTANCES
        &&& bounded(self@)
    }

    proof fn lemma_match_same(&self, other: &AveragedPerceptron)
        requires
            self.entries_match(),
            self.entries@ == other.entries@,
            self.table@ == other.table@,
        ensures
            other.entries_match(),
    {
        assert forall|k: (Seq<char>, Seq<char>)|
            #![trigger other.table@.contains_key(k)]
            other.table@.contains_key(k) implies exists|i: int|
                0 <= i < other.entries@.len() && other.entries@[i].key() == k by {
            let r = self.table@[k];
            let i = choose|i: int| 0 <= i < self.entries@.len() && self.entries@[i].key() == k;
            assert(other.entries@[i].key() == k);
        }
        assert forall|i: int|
            #![trigger other.entries@[i]]
            0 <= i < other.entries@.len() implies other.table@.contains_key(other.entries@[i].key())
                && other.table@[other.entries@[i].key()] == other.entries@[i].record() by {
            assert(self.entries@[i] == other.entries@[i]);
        }
        assert forall|a: int, b: int|
            0 <= a < other.entries@.len() && 0 <= b < other.entries@.len() && a != b
            implies other.entries@[a].key() != other.entries@[b].key() by {
            assert(self.entries@[a] == other.entries@[a]);
            assert(self.entries@[b] == other.entries@[b]);
        }
    }

    /// A perceptron with no class, no weight and no instance.
    pub fn new() -> (r: AveragedPerceptron)
        ensures
            r.wf(),
            r@ == fresh_view(),
    {
        let r = AveragedPerceptron {
            classes: Vec::new(),
            instances: 0,
            entries: Vec::new(),
            table: Ghost(Map::empty()),
        };
        assert(r@.classes =~= Seq::<Seq<char>>::empty());
        r
    }

    fn find(&self, f: &String, c: &String) -> (r: Option<usize>)
        requires
            self.entries_match(),
        ensures
            r is Some ==> r->0 < self.entries@.len() && self.entries@[r->0 as int].key() == (f@, c@),
            r is None ==> !self.table@.contains_key((f@, c@)),
    {
        let mut i: usize = 0;
        while i < self.entries.len()
            invariant
                self.entries_match(),
                i <= self.entries@.len(),
                forall|k: int|
                    0 <= k < i ==> !(#[trigger] self.entries@[k].feature@ == f@ && self.entries@[k].class@ == c@),
            decreases self.entries@.len() - i,
        {
            if self.entries[i].feature == *f && self.entries[i].class == *c {
                return Some(i);
            }
            i = i + 1;
        }
        proof {
            if self.table@.contains_key((f@, c@)) {
                let k = (f@, c@);
                let rk = self.table@[k];
                assert(exists|j: int| 0 <= j < self.entries@.len() && self.entries@[j].key() == k);
                let j = choose|j: int| 0 <= j < self.entries@.len() && self.entries@[j].key() == k;
                assert(self.entries@[j].key() == k);
                assert(self.entries@[j].feature@ == f@ && self.entries@[j].class@ == c@);
                assert(false);
            }
        }
        None
    }

    fn stored(&self, f: &String, c: &String) -> (r: Option<i64>)
        requires
            self.wf(),
        ensures
            r is Some <==> self@.table.contains_key((f@, c@)),
            r is Some ==> r->0 == self@.weight(f@, c@),
            r is Some ==> -weight_bound(MAX_INSTANCES as int) <= r->0 <= weight_bound(MAX_INSTANCES as int),
    {
        match self.find(f, c) {
            Some(i) => {
                proof {
                    let k = self.entries@[i as int].key();
                    assert(self.table@[k] == self.entries@[i as int].record());
                    assert(self@.table[k] == self.table@[k]);
                }
                Some(self.entries[i].weight)
            },
            None => None,
        }
    }

    /// The weight of (`f`, `c`) in thousandths; 0 when the pair is absent.
    pub fn weight_of(&self, f: &String, c: &String) -> (r: i64)
        requires
            self.wf(),
        ensures
            r == self@.weight(f@, c@),
    {
        match self.stored(f, c) {
            Some(w) => w,
            None => 0,
        }
    }

    fn score_of(&self, features: &FeatureSet, c: &String) -> (r: i128)
        requires
            self.wf(),
            features@.len() <= MAX_FEATURES,
        ensures
            r == score(self@, features@, c@),
    {
        let n = features.len();
        let mut acc: i128 = 0;
        let mut i: usize = 0;
        while i < n
            invariant
                self.wf(),
                n == features@.len(),
                n <= MAX_FEATURES,
                i <= n,
                acc == score(self@, features@.subrange(0, i as int), c@),
                -i * 0x8_0000_0000_0000_0000_0000 <= acc <= i * 0x8_0000_0000_0000_0000_0000,
            decreases n - i,
        {
            let (f, v) = features.entry(i);
            let w: i64 = match self.stored(f, c) {
                Some(w) => w,
                None => 0,
            };
            proof {
                let fs = features@.subrange(0, i + 1);
                assert(fs.drop_last() =~= features@.subrange(0, i as int));
                assert(-0x8_0000_0000_0000_0000_0000 <= w as int * v as int <= 0x8_0000_0000_0000_0000_0000)
                    by (nonlinear_arith)
                    requires
                        -weight_bound(MAX_INSTANCES as int) <= w <= weight_bound(MAX_INSTANCES as int),
                        0 <= v <= u32::MAX,
                ;
            }
            acc = acc + (w as i128) * (v as i128);
            i = i + 1;
        }
        proof {
            assert(features@.subrange(0, n as int) =~= features@);
        }
        acc
    }

    /// The best class for `features`. The classes that compete are those
    /// that some feature with a non-zero count reaches through a stored
    /// weight, or the registered classes when the features reach none. The
    /// highest score wins, and among equal scores the label that comes last
    /// in the order of characters. None when nothing competes.
    pub fn predict(&self, features: &FeatureSet) -> (r: Option<String>)
        requires
            self.wf(),
            features.wf(),
            features@.len() <= MAX_FEATURES,
        ensures
            r is None <==> !has_candidate(self@, features@),
            r is Some ==> is_best(self@, features@, r->0@) && r->0@ == best_class(self@, features@),
    {
        let ghost fs = features@;
        let mut cands: Vec<String> = Vec::new();
        let mut j: usize = 0;
        while j < self.entries.len()
            invariant
                self.wf(),
                features.wf(),
                fs == features@,
                j <= self.entries@.len(),
                classes_unique(views(cands@)),
                forall|x: Seq<char>| #[trigger] views(cands@).contains(x) ==> reached(self@, fs, x),
                forall|q: int|
                    0 <= q < j && key_index(fs, self.entries@[q].feature@) >= 0
                        && fs[key_index(fs, self.entries@[q].feature@)].1 != 0
                        ==> views(cands@).contains(#[trigger] self.entries@[q].class@),
            decreases self.entries@.len() - j,
        {
            let cnt = features.count(&self.entries[j].feature);
            if cnt != 0 && !list_contains(&cands, &self.entries[j].class) {
                let ghost before = views(cands@);
                let x = self.entries[j].class.clone();
                cands.push(x);
                proof {
                    let e = self.entries@[j as int];
                    assert(views(cands@) =~= before.push(e.class@));
                    let i = key_index(fs, e.feature@);
                    assert(fs[i].0 == e.feature@);
                    assert(self.table@.contains_key(e.key()));
                    assert(self@.table.contains_key((fs[i].0, e.class@)));
                    assert(reached(self@, fs, e.class@));
                    assert forall|y: Seq<char>| #[trigger] views(cands@).contains(y) implies reached(self@, fs, y) by {
                        if y != e.class@ {
                            let k = choose|k: int| 0 <= k < views(cands@).len() && views(cands@)[k] == y;
                            assert(before[k] == y);
                            assert(before.contains(y));
                        }
                    }
                    let cs = views(cands@);
                    assert forall|a1: int, b1: int| 0 <= a1 < cs.len() && 0 <= b1 < cs.len() && a1 != b1 implies cs[a1] != cs[b1] by {
                        if a1 < before.len() && b1 < before.len() {
                            assert(cs[a1] == before[a1] && cs[b1] == before[b1]);
                        } else if a1 < before.len() {
                            assert(cs[a1] == before[a1]);
                            assert(before.contains(cs[a1]));
                        } else {
                            assert(cs[b1] == before[b1]);
                            assert(before.contains(cs[b1]));
                        }
                    }
                    assert forall|q: int|
                        0 <= q < j + 1 && key_index(fs, self.entries@[q].feature@) >= 0
                            && fs[key_index(fs, self.entries@[q].feature@)].1 != 0
                            implies views(cands@).contains(#[trigger] self.entries@[q].class@) by {
                        if q < j {
                            let k = choose|k: int| 0 <= k < before.len() && before[k] == self.entries@[q].class@;
                            assert(views(cands@)[k] == before[k]);
                        } else {
                            assert(views(cands@)[before.len() as int] == e.class@);
                        }
                    }
                }
            }
            j = j + 1;
        }
        proof {
            assert forall|x: Seq<char>| reached(self@, fs, x) implies #[trigger] views(cands@).contains(x) by {
                let i = choose|i: int| 0 <= i < fs.len() && fs[i].1 != 0 && #[trigger] self@.table.contains_key((fs[i].0, x));
                let k = (fs[i].0, x);
                assert(self.table@.contains_key(k));
                let q = choose|q: int| 0 <= q < self.entries@.len() && self.entries@[q].key() == k;
                lemma_key_index_unique(fs, i);
                assert(self.entries@[q].feature@ == fs[i].0);
            }
        }
        let ghost c1 = views(cands@);
        if cands.len() == 0 {
            cands = self.class_list();
        }
        proof {
            if c1.len() == 0 {
                assert(!any_reached(self@, fs)) by {
                    if any_reached(self@, fs) {
                        let c = choose|c: Seq<char>| #[trigger] reached(self@, fs, c);
                        assert(c1.contains(c));
                    }
                }
                assert(views(cands@) == self@.classes);
            } else {
                assert(c1.contains(c1[0]));
                assert(reached(self@, fs, c1[0]));
                assert(any_reached(self@, fs));
                assert(views(cands@) == c1);
            }
            assert forall|x: Seq<char>| #[trigger] candidate(self@, fs, x) <==> views(cands@).contains(x) by {
                if any_reached(self@, fs) {
                    assert(views(cands@).contains(x) <==> reached(self@, fs, x));
                }
            }
        }
        if cands.len() == 0 {
            proof {
                assert forall|x: Seq<char>| !#[trigger] candidate(self@, fs, x) by {
                    assert(!views(cands@).contains(x));
                }
            }
            return None;
        }
        let mut best: usize = 0;
        let mut best_score: i128 = self.score_of(features, &cands[0]);
        let mut k: usize = 1;
        while k < cands.len()
            invariant
                self.wf(),
                fs == features@,
                features@.len() <= MAX_FEATURES,
                classes_unique(views(cands@)),
                1 <= k <= cands@.len(),
                best < k,
                best_score == score(self@, fs, cands@[best as int]@),
                forall|q: int|
                    0 <= q < k && q != best ==> beats(self@, fs, cands@[best as int]@, #[trigger] cands@[q]@),
            decreases cands@.len() - k,
        {
            let s = self.score_of(features, &cands[k]);
            let later = label_lt(&cands[best], &cands[k]);
            proof {
                assert(views(cands@)[k as int] == cands@[k as int]@);
                assert(views(cands@)[best as int] == cands@[best as int]@);
                assert(cands@[k as int]@ != cands@[best as int]@);
                lemma_lex_total(cands@[k as int]@, cands@[best as int]@);
            }
            if s > best_score || (s == best_score && later) {
                proof {
                    let x = cands@[k as int]@;
                    let ob = cands@[best as int]@;
                    assert forall|q: int| 0 <= q < k + 1 && q != k implies beats(self@, fs, x, #[trigger] cands@[q]@) by {
                        if q != best {
                            lemma_beats_transitive(self@, fs, x, ob, cands@[q]@);
                        }
                    }
                }
                best = k;
                best_score = s;
            }
            k = k + 1;
        }
        let r = cands[best].clone();
        proof {
            let rb = cands@[best as int]@;
            assert(views(cands@)[best as int] == rb);
            assert(candidate(self@, fs, rb));
            assert forall|c: Seq<char>| #[trigger] candidate(self@, fs, c) && c != rb implies beats(self@, fs, rb, c) by {
                assert(views(cands@).contains(c));
                let q = choose|q: int| 0 <= q < views(cands@).len() && views(cands@)[q] == c;
                assert(cands@[q]@ == c);
            }
            assert(is_best(self@, fs, rb));
            assert(has_candidate(self@, fs));
            let w = weights_only(self@);
            lemma_weights_only_same(self@);
            lemma_same_weights_same_best(self@, w, fs);
            assert(is_best(w, fs, rb));
            let ch = choose|x: Seq<char>| is_best(w, fs, x);
            lemma_best_unique(w, fs, ch, rb);
        }
        Some(r)
    }

    pub(crate) closed spec fn same_store(&self, o: &AveragedPerceptron) -> bool {
        self.entries == o.entries && self.table == o.table
    }

    /// The number of instances counted so far.
    pub fn instance_count(&self) -> (r: u64)
        ensures
            r == self@.instances,
    {
        self.instances
    }

    /// The number of known classes.
    pub fn class_count(&self) -> (r: usize)
        ensures
            r == self@.classes.len(),
    {
        self.classes.len()
    }

    pub(crate) fn register(&mut self, c: &String)
        requires
            old(self).wf(),
        ensures
            final(self).wf(),
            final(self)@ == (PerceptronView { classes: with_class(old(self)@.classes, c@), ..old(self)@ }),
            final(self).same_store(old(self)),
    {
        let mut i: usize = 0;
        while i < self.classes.len()
            invariant
                self.wf(),
                self == old(self),
                i <= self.classes@.len(),
                forall|k: int| 0 <= k < i ==> self@.classes[k] != c@,
            decreases self.classes@.len() - i,
        {
            if self.classes[i] == *c {
                proof {
                    assert(self@.classes[i as int] == c@);
                    assert(self@.classes.contains(c@));
                }
                return;
            }
            i = i + 1;
        }
        proof {
            assert(!self@.classes.contains(c@));
        }
        self.classes.push(c.clone());
        proof {
            assert(self@.classes =~= old(self)@.classes.push(c@));
            lemma_bounded_later(old(self)@, self@);
            old(self).lemma_match_same(self);
            let cs = self@.classes;
            assert forall|a: int, b: int| 0 <= a < cs.len() && 0 <= b < cs.len() && a != b implies cs[a] != cs[b] by {
                if a < cs.len() - 1 && b < cs.len() - 1 {
                    assert(cs[a] == old(self)@.classes[a]);
                    assert(cs[b] == old(self)@.classes[b]);
                } else if a < cs.len() - 1 {
                    assert(cs[a] == old(self)@.classes[a]);
                } else {
                    assert(cs[b] == old(self)@.classes[b]);
                }
            }
            assert(classes_unique(self@.classes));
        }
    }

    fn touch(&mut self, f: &String, c: &String, delta: i64)
        requires
            old(self).entries_match(),
            bounded(old(self)@),
            old(self).instances <= MAX_INSTANCES,
            old(self)@.rec(f@, c@).stamp < old(self)@.instances,
            delta == WEIGHT_UNIT || delta == -WEIGHT_UNIT,
        ensures
            final(self).entries_match(),
            bounded(final(self)@),
            final(self).instances == old(self).instances,
            final(self).classes == old(self).classes,
            final(self)@ == touch(old(self)@, f@, c@, delta as int),
    {
        let now = self.instances;
        let ghost r = self@.rec(f@, c@);
        let ghost k = (f@, c@);
        proof {
            if self.table@.contains_key(k) {
                assert(self@.table[k] == self.table@[k]);
            }
            let b = weight_bound(r.stamp);
            let n = now as int;
            assert(-n * weight_bound(n) <= r.total + (n - r.stamp) * r.weight <= n * weight_bound(n))
                by (nonlinear_arith)
                requires
                    0 <= r.stamp < n,
                    n <= MAX_INSTANCES,
                    b == WEIGHT_UNIT * (r.stamp + MAX_INSTANCES),
                    -b <= r.weight <= b,
                    -r.stamp * b <= r.total <= r.stamp * b,
                    weight_bound(n) == WEIGHT_UNIT * (n + MAX_INSTANCES),
            ;
        }
        let ghost pos: int;
        let ghost ne_rec: WeightRecord;
        match self.find(f, c) {
            Some(i) => {
                let e = &self.entries[i];
                proof {
                    assert(self.table@[self.entries@[i as int].key()] == self.entries@[i as int].record());
                    assert(r == e.record());
                    let n = now as int;
                    let b = weight_bound(r.stamp);
                    assert(-0x1_0000_0000_0000_0000_0000 <= (n - r.stamp) * r.weight <= 0x1_0000_0000_0000_0000_0000
                        && -0x1_0000_0000_0000_0000_0000 <= r.total <= 0x1_0000_0000_0000_0000_0000)
                        by (nonlinear_arith)
                        requires
                            0 <= r.stamp < n,
                            n <= MAX_INSTANCES,
                            -b <= r.weight <= b,
                            -r.stamp * b <= r.total <= r.stamp * b,
                            b <= WEIGHT_UNIT * (MAX_INSTANCES + MAX_INSTANCES),
                    ;
                }
                let total = e.total + ((now - e.stamp) as i128) * (e.weight as i128);
                let weight = e.weight + delta;
                let ne = Entry { feature: f.clone(), class: c.clone(), weight, total, stamp: now };
                self.entries.set(i, ne);
                proof {
                    pos = i as int;
                    ne_rec = ne.record();
                    assert(ne_rec == WeightRecord {
                        weight: r.weight + delta,
                        total: r.total + (now - r.stamp) * r.weight,
                        stamp: now as int,
                    });
                    self.table@ = self.table@.insert(k, ne.record());
                }
            },
            None => {
                let ne = Entry { feature: f.clone(), class: c.clone(), weight: delta, total: 0, stamp: now };
                self.entries.push(ne);
                proof {
                    pos = old(self).entries@.len() as int;
                    ne_rec = ne.record();
                    assert(r == WeightRecord { weight: 0, total: 0, stamp: 0 });
                    assert((now - r.stamp) * r.weight == 0) by (nonlinear_arith)
                        requires
                            r.weight == 0,
                    ;
                    let n = now as int;
                    assert(-n * weight_bound(n) <= 0 <= n * weight_bound(n)) by (nonlinear_arith)
                        requires
                            n >= 0,
                            weight_bound(n) >= 0,
                    ;
                    assert(ne_rec == WeightRecord {
                        weight: r.weight + delta,
                        total: r.total + (now - r.stamp) * r.weight,
                        stamp: now as int,
                    });
                    self.table@ = self.table@.insert(k, ne.record());
                }
            },
        }
        proof {
            let o = old(self);
            assert(0 <= pos <= o.entries@.len());
            assert(self.entries@[pos].key() == k && self.entries@[pos].record() == ne_rec);
            assert(pos < o.entries@.len() ==> o.entries@[pos].key() == k
                && self.entries@.len() == o.entries@.len());
            assert(pos == o.entries@.len() ==> !o.table@.contains_key(k)
                && self.entries@.len() == o.entries@.len() + 1);
            assert forall|i: int| 0 <= i < o.entries@.len() && i != pos implies #[trigger] self.entries@[i] == o.entries@[i] by {}
            assert(self.table@ == o.table@.insert(k, ne_rec));
            assert forall|i: int|
                #![trigger self.entries@[i]]
                0 <= i < self.entries@.len() implies self.table@.contains_key(self.entries@[i].key())
                    && self.table@[self.entries@[i].key()] == self.entries@[i].record() by {
                if i != pos {
                    assert(self.entries@[i] == o.entries@[i]);
                    assert(o.table@[o.entries@[i].key()] == o.entries@[i].record());
                    if pos < o.entries@.len() {
                        assert(o.entries@[i].key() != o.entries@[pos].key());
                    } else {
                        assert(o.entries@[i].key() != k);
                    }
                }
            }
            assert forall|kk: (Seq<char>, Seq<char>)|
                #![trigger self.table@.contains_key(kk)]
                self.table@.contains_key(kk) implies exists|i: int|
                    0 <= i < self.entries@.len() && self.entries@[i].key() == kk by {
                if kk != k {
                    assert(o.table@.contains_key(kk));
                    let rk = o.table@[kk];
                    assert(exists|i: int| 0 <= i < o.entries@.len() && o.entries@[i].key() == kk);
                    let i = choose|i: int| 0 <= i < o.entries@.len() && o.entries@[i].key() == kk;
                    assert(i != pos);
                    assert(self.entries@[i] == o.entries@[i]);
                } else {
                    assert(self.entries@[pos].key() == k);
                }
            }
            assert forall|a: int, b: int|
                0 <= a < self.entries@.len() && 0 <= b < self.entries@.len() && a != b
                implies self.entries@[a].key() != self.entries@[b].key() by {
                if a != pos && b != pos {
                    assert(self.entries@[a] == o.entries@[a]);
                    assert(self.entries@[b] == o.entries@[b]);
                } else if a != pos {
                    assert(self.entries@[a] == o.entries@[a]);
                    assert(o.table@.contains_key(o.entries@[a].key()));
                    if pos < o.entries@.len() {
                        assert(o.entries@[a].key() != o.entries@[pos].key());
                    }
                } else {
                    assert(self.entries@[b] == o.entries@[b]);
                    assert(o.table@.contains_key(o.entries@[b].key()));
                    if pos < o.entries@.len() {
                        assert(o.entries@[b].key() != o.entries@[pos].key());
                    }
                }
            }
            assert(self@.table =~= touch(o@, f@, c@, delta as int).table);
            assert forall|kk: (Seq<char>, Seq<char>)|
                #![trigger self@.table[kk]]
                self@.table.contains_key(kk) implies {
                    let r = self@.table[kk];
                    &&& 0 <= r.stamp <= self@.instances
                    &&& -weight_bound(r.stamp) <= r.weight <= weight_bound(r.stamp)
                    &&& -r.stamp * weight_bound(r.stamp) <= r.total <= r.stamp * weight_bound(r.stamp)
                } by {
                if kk != k {
                    assert(o@.table[kk] == self@.table[kk]);
                } else {
                    assert(self@.table[kk] == ne_rec);
                }
            }
            assert(self.entries_match());
        }
    }

    /// Learns from one instance: the instance count grows by one, and when
    /// `guess` differs from `truth` every feature's weight moves one unit
    /// towards `truth` and one away from `guess`. The classes stay as they are.
    pub fn update(&mut self, truth: &String, guess: &String, features: &FeatureSet)
        requires
            old(self).wf(),
            old(self)@.instances < MAX_INSTANCES,
            features.wf(),
        ensures
            final(self).wf(),
            final(self)@ == updated(old(self)@, truth@, guess@, features@),
    {
        self.instances = self.instances + 1;
        let ghost u = self@;
        proof {
            assert(u.classes == old(self)@.classes);
            assert forall|kk: (Seq<char>, Seq<char>)|
                #![trigger self@.table[kk]]
                self@.table.contains_key(kk) implies self@.table[kk].stamp < self@.instances by {
                assert(old(self)@.table[kk] == self@.table[kk]);
            }
        }
        proof {
            lemma_bounded_later(old(self)@, self@);
            old(self).lemma_match_same(self);
        }
        if *truth == *guess {
            return;
        }
        let n = features.len();
        let mut m: usize = 0;
        while m < n
            invariant
                n == features@.len(),
                features.wf(),
                m <= n,
                self.entries_match(),
                bounded(self@),
                self.instances <= MAX_INSTANCES,
                self.instances == u.instances,
                u.instances >= 1,
                classes_unique(self@.classes),
                truth@ != guess@,
                self@ == touch_features(u, truth@, guess@, features@.subrange(0, m as int)),
                forall|kk: (Seq<char>, Seq<char>)|
                    #![trigger self@.table[kk]]
                    self@.table.contains_key(kk) && self@.table[kk].stamp == self@.instances
                        ==> exists|j: int| 0 <= j < m && features@[j].0 == kk.0,
            decreases n - m,
        {
            let (f, _v) = features.entry(m);
            let ghost before = self@;
            let ghost fs = features@.subrange(0, m + 1);
            proof {
                assert(fs.drop_last() =~= features@.subrange(0, m as int));
                assert forall|c: Seq<char>| #[trigger] before.rec(f@, c).stamp < before.instances by {
                    let kk = (f@, c);
                    if before.table.contains_key(kk) {
                        let rr = before.table[kk];
                        assert(rr.stamp <= before.instances);
                        if rr.stamp == before.instances {
                            let j = choose|j: int| 0 <= j < m && features@[j].0 == kk.0;
                            assert(features@[j].0 == features@[m as int].0);
                            assert(false);
                        }
                        assert(before.rec(f@, c) == rr);
                    } else {
                        assert(before.rec(f@, c).stamp == 0);
                    }
                }
                assert(before.rec(f@, truth@).stamp < before.instances);
                assert(before.rec(f@, guess@).stamp < before.instances);
            }
            self.touch(f, truth, WEIGHT_UNIT);
            proof {
                assert(self@.rec(f@, guess@) == before.rec(f@, guess@));
            }
            self.touch(f, guess, -WEIGHT_UNIT);
            proof {
                assert forall|kk: (Seq<char>, Seq<char>)|
                    #![trigger self@.table[kk]]
                    self@.table.contains_key(kk) && self@.table[kk].stamp == self@.instances
                        implies exists|j: int| 0 <= j < m + 1 && features@[j].0 == kk.0 by {
                    if kk.0 == f@ {
                        assert(features@[m as int].0 == kk.0);
                    } else {
                        assert(before.table[kk] == self@.table[kk]);
                    }
                }
            }
            m = m + 1;
        }
        proof {
            assert(features@.subrange(0, n as int) =~= features@);
        }
    }
    /// Replaces every weight by its average over all instances so far,
    /// rounded to thousandths; pairs that average to zero are dropped.
    pub fn average_weights(&mut self)
        requires
            old(self).wf(),
        ensures
            final(self).wf(),
            final(self)@ == averaged_view(old(self)@),
    {
        let n = self.instances;
        if n == 0 {
            return;
        }
        let ghost v = self@;
        let mut kept: Vec<Entry> = Vec::new();
        let mut m: usize = 0;
        while m < self.entries.len()
            invariant
                self == old(self),
                self.wf(),
                v == self@,
                n == self.instances,
                n > 0,
                m <= self.entries@.len(),
                forall|j: int|
                    #![trigger kept@[j]]
                    0 <= j < kept@.len() ==> exists|i: int|
                        0 <= i < m && kept@[j].key() == self.entries@[i].key(),
                forall|j: int|
                    #![trigger kept@[j]]
                    0 <= j < kept@.len() ==> v.table.contains_key(kept@[j].key())
                        && averaged(v, kept@[j].key()) != 0
                        && kept@[j].record() == (WeightRecord {
                            weight: averaged(v, kept@[j].key()),
                            total: averaged(v, kept@[j].key()) * n,
                            stamp: n as int,
                        })
                        && -weight_bound(n as int) <= kept@[j].weight <= weight_bound(n as int)
                        && -(n as int) * weight_bound(n as int) <= kept@[j].total <= (n as int) * weight_bound(n as int),
                forall|i: int|
                    #![trigger self.entries@[i]]
                    0 <= i < m && averaged(v, self.entries@[i].key()) != 0 ==> exists|j: int|
                        0 <= j < kept@.len() && kept@[j].key() == self.entries@[i].key(),
                forall|a: int, b: int|
                    0 <= a < kept@.len() && 0 <= b < kept@.len() && a != b ==> kept@[a].key() != kept@[b].key(),
            decreases self.entries@.len() - m,
        {
            let e = &self.entries[m];
            let ghost k = e.key();
            let ghost r = e.record();
            proof {
                assert(self.table@[k] == r);
                assert(v.table[k] == r);
                assert(v.rec(k.0, k.1) == r);
                let b = weight_bound(r.stamp);
                let nn = n as int;
                assert(-(nn * weight_bound(nn)) <= r.total + (nn - r.stamp) * r.weight <= nn * weight_bound(nn)
                    && -0x1_0000_0000_0000_0000_0000 <= (nn - r.stamp) * r.weight <= 0x1_0000_0000_0000_0000_0000
                    && -0x1_0000_0000_0000_0000_0000 <= r.total <= 0x1_0000_0000_0000_0000_0000)
                    by (nonlinear_arith)
                    requires
                        0 <= r.stamp <= nn,
                        nn <= MAX_INSTANCES,
                        b == WEIGHT_UNIT * (r.stamp + MAX_INSTANCES),
                        -b <= r.weight <= b,
                        -r.stamp * b <= r.total <= r.stamp * b,
                        weight_bound(nn) == WEIGHT_UNIT * (nn + MAX_INSTANCES),
                ;
                lemma_round_div_bound(r.total + (nn - r.stamp) * r.weight, nn, weight_bound(nn));
            }
            let t: i128 = e.total + ((n - e.stamp) as i128) * (e.weight as i128);
            let d: i128 = 2 * (n as i128);
            let avg: i128 = if t >= 0 { (2 * t + n as i128) / d } else { -((-2 * t + n as i128) / d) };
            proof {
                assert(avg == averaged(v, k));
            }
            if avg != 0 {
                let ghost a = avg as int;
                proof {
                    let nn = n as int;
                    assert(-nn * weight_bound(nn) <= a * nn <= nn * weight_bound(nn)
                        && -0x1_0000_0000_0000_0000_0000 <= a * nn <= 0x1_0000_0000_0000_0000_0000)
                        by (nonlinear_arith)
                        requires
                            -weight_bound(nn) <= a <= weight_bound(nn),
                            weight_bound(nn) <= 0x1_0000_0000_0000,
                            0 <= nn <= MAX_INSTANCES,
                    ;
                }
                let ne = Entry {
                    feature: e.feature.clone(),
                    class: e.class.clone(),
                    weight: avg as i64,
                    total: avg * (n as i128),
                    stamp: n,
                };
                let ghost old_kept = kept@;
                kept.push(ne);
                proof {
                    assert(kept@[kept@.len() - 1] == ne);
                    assert forall|j: int| 0 <= j < old_kept.len() implies #[trigger] kept@[j] == old_kept[j] by {}
                    assert forall|a1: int, b1: int|
                        0 <= a1 < kept@.len() && 0 <= b1 < kept@.len() && a1 != b1
                        implies kept@[a1].key() != kept@[b1].key() by {
                        if a1 < old_kept.len() && b1 < old_kept.len() {
                            assert(kept@[a1] == old_kept[a1]);
                            assert(kept@[b1] == old_kept[b1]);
                        } else if a1 < old_kept.len() {
                            assert(kept@[a1] == old_kept[a1]);
                            let i = choose|i: int| 0 <= i < m && old_kept[a1].key() == self.entries@[i].key();
                            assert(self.entries@[i].key() != self.entries@[m as int].key());
                        } else if b1 < old_kept.len() {
                            assert(kept@[b1] == old_kept[b1]);
                            let i = choose|i: int| 0 <= i < m && old_kept[b1].key() == self.entries@[i].key();
                            assert(self.entries@[i].key() != self.entries@[m as int].key());
                        }
                    }
                    assert forall|j: int|
                        #![trigger kept@[j]]
                        0 <= j < kept@.len() implies exists|i: int|
                            0 <= i < m + 1 && kept@[j].key() == self.entries@[i].key() by {
                        if j < old_kept.len() {
                            assert(kept@[j] == old_kept[j]);
                            let i = choose|i: int| 0 <= i < m && old_kept[j].key() == self.entries@[i].key();
                        } else {
                            assert(kept@[j].key() == self.entries@[m as int].key());
                        }
                    }
                    assert forall|i: int|
                        #![trigger self.entries@[i]]
                        0 <= i < m + 1 && averaged(v, self.entries@[i].key()) != 0 implies exists|j: int|
                            0 <= j < kept@.len() && kept@[j].key() == self.entries@[i].key() by {
                        if i < m {
                            let j = choose|j: int| 0 <= j < old_kept.len() && old_kept[j].key() == self.entries@[i].key();
                            assert(kept@[j] == old_kept[j]);
                        } else {
                            assert(kept@[kept@.len() - 1].key() == self.entries@[i].key());
                        }
                    }
                }
            }
            m = m + 1;
        }
        let ghost nt = averaged_view(v).table;
        self.entries = kept;
        self.table = Ghost(nt);
        proof {
            let o = old(self);
            assert forall|i: int|
                #![trigger self.entries@[i]]
                0 <= i < self.entries@.len() implies self.table@.contains_key(self.entries@[i].key())
                    && self.table@[self.entries@[i].key()] == self.entries@[i].record() by {
                assert(kept@[i] == self.entries@[i]);
            }
            assert forall|k: (Seq<char>, Seq<char>)|
                #![trigger self.table@.contains_key(k)]
                self.table@.contains_key(k) implies exists|j: int|
                    0 <= j < self.entries@.len() && self.entries@[j].key() == k by {
                assert(o.table@.contains_key(k));
                let i = choose|i: int| 0 <= i < o.entries@.len() && o.entries@[i].key() == k;
                assert(averaged(v, o.entries@[i].key()) != 0);
                let j = choose|j: int| 0 <= j < kept@.len() && kept@[j].key() == o.entries@[i].key();
                assert(self.entries@[j].key() == k);
            }
            assert(self@.classes == v.classes);
            assert(self@.table =~= averaged_view(v).table);
            assert forall|k: (Seq<char>, Seq<char>)|
                #![trigger self@.table[k]]
                self@.table.contains_key(k) implies {
                    let r = self@.table[k];
                    &&& 0 <= r.stamp <= self@.instances
                    &&& -weight_bound(r.stamp) <= r.weight <= weight_bound(r.stamp)
                    &&& -r.stamp * weight_bound(r.stamp) <= r.total <= r.stamp * weight_bound(r.stamp)
                } by {
                let i = choose|i: int| 0 <= i < o.entries@.len() && o.entries@[i].key() == k;
                let j = choose|j: int| 0 <= j < kept@.len() && kept@[j].key() == k;
                assert(kept@[j].record() == self@.table[k]);
            }
        }
    }
    /// The classes, in the order they were registered.
    pub fn class_list(&self) -> (r: Vec<String>)
        ensures
            views(r@) == self@.classes,
            self.wf() ==> classes_unique(views(r@)),
    {
        let r = self.classes.clone();
        assert(r@ == self.classes@);
        r
    }

    /// Every stored (feature, class) pair with its weight.
    pub fn weight_list(&self) -> (r: Vec<(String, String, i64)>)
        requires
            self.wf(),
        ensures
            keys_unique(weight_views(r@)),
            forall|f: Seq<char>, c: Seq<char>| #[trigger] listed_weight(weight_views(r@), f, c) == self@.weight(f, c),
            forall|f: Seq<char>, c: Seq<char>|
                #[trigger] self@.table.contains_key((f, c)) <==> key_index(weight_views(r@), (f, c)) >= 0,
    {
        let mut r: Vec<(String, String, i64)> = Vec::new();
        let mut i: usize = 0;
        while i < self.entries.len()
            invariant
                self.wf(),
                i <= self.entries@.len(),
                r@.len() == i,
                forall|j: int|
                    0 <= j < i ==> (#[trigger] weight_views(r@)[j]) == (self.entries@[j].key(), self.entries@[j].weight as int),
            decreases self.entries@.len() - i,
        {
            let e = &self.entries[i];
            let ghost before = r@;
            r.push((e.feature.clone(), e.class.clone(), e.weight));
            proof {
                assert forall|j: int|
                    0 <= j < i + 1 implies (#[trigger] weight_views(r@)[j]) == (self.entries@[j].key(), self.entries@[j].weight as int) by {
                    if j < i {
                        assert(r@[j] == before[j]);
                        assert(weight_views(before)[j] == weight_views(r@)[j]);
                    }
                }
            }
            i = i + 1;
        }
        proof {
            let l = weight_views(r@);
            assert forall|a: int, b: int| 0 <= a < l.len() && 0 <= b < l.len() && a != b implies l[a].0 != l[b].0 by {
                assert(l[a].0 == self.entries@[a].key());
                assert(l[b].0 == self.entries@[b].key());
            }
            assert forall|f: Seq<char>, c: Seq<char>|
                #[trigger] self@.table.contains_key((f, c)) <==> key_index(l, (f, c)) >= 0 by {
                let k = (f, c);
                if self.table@.contains_key(k) {
                    let j = choose|j: int| 0 <= j < self.entries@.len() && self.entries@[j].key() == k;
                    assert(l[j].0 == k);
                    lemma_key_index_unique(l, j);
                } else {
                    if key_index(l, k) >= 0 {
                        let j = key_index(l, k);
                        assert(l[j].0 == self.entries@[j].key());
                        assert(self.table@.contains_key(self.entries@[j].key()));
                    }
                }
            }
            assert forall|f: Seq<char>, c: Seq<char>| #[trigger] listed_weight(l, f, c) == self@.weight(f, c) by {
                let k = (f, c);
                if self.table@.contains_key(k) {
                    let j = choose|j: int| 0 <= j < self.entries@.len() && self.entries@[j].key() == k;
                    assert(l[j].0 == k);
                    lemma_key_index_unique(l, j);
                    assert(self.table@[self.entries@[j].key()] == self.entries@[j].record());
                } else {
                    if key_index(l, k) >= 0 {
                        let j = key_index(l, k);
                        assert(l[j].0 == self.entries@[j].key());
                        assert(self.table@.contains_key(self.entries@[j].key()));
                    }
                }
            }
        }
        r
    }

    /// The model with its classes replaced by `cs`; none when a class is
    /// listed twice.
    pub fn classes(self, cs: Vec<String>) -> (r: Option<AveragedPerceptron>)
        requires
            self.wf(),
        ensures
            r is Some <==> classes_unique(views(cs@)),
            r is Some ==> r->0.wf() && r->0@ == (PerceptronView { classes: views(cs@), ..self@ }),
    {
        let mut i: usize = 0;
        while i < cs.len()
            invariant
                i <= cs@.len(),
                forall|a: int, b: int| 0 <= a < i && 0 <= b < cs@.len() && a != b ==> cs@[a]@ != cs@[b]@,
            decreases cs@.len() - i,
        {
            let mut j: usize = 0;
            while j < cs.len()
                invariant
                    i < cs@.len(),
                    j <= cs@.len(),
                    forall|a: int, b: int| 0 <= a < i && 0 <= b < cs@.len() && a != b ==> cs@[a]@ != cs@[b]@,
                    forall|b: int| 0 <= b < j && b != i ==> cs@[i as int]@ != cs@[b]@,
                decreases cs@.len() - j,
            {
                if j != i && cs[i] == cs[j] {
                    proof {
                        assert(views(cs@)[i as int] == views(cs@)[j as int]);
                    }
                    return None;
                }
                j = j + 1;
            }
            i = i + 1;
        }
        let mut m = self;
        m.classes = cs;
        proof {
            assert(classes_unique(views(m.classes@)));
            self.lemma_match_same(&m);
            lemma_bounded_later(self@, m@);
        }
        Some(m)
    }

    /// The model with its weights replaced by the listed ones, each counted
    /// as in force since the first instance; none when a pair is listed twice
    /// or a weight is out of range.
    pub fn weights(self, w: Vec<(String, String, i64)>) -> (r: Option<AveragedPerceptron>)
        requires
            self.wf(),
        ensures
            r is Some <==> loadable(weight_views(w@)),
            r is Some ==> {
                &&& r->0.wf()
                &&& r->0@.classes == self@.classes
                &&& r->0@.instances == self@.instances
                &&& forall|f: Seq<char>, c: Seq<char>|
                    #[trigger] r->0@.weight(f, c) == listed_weight(weight_views(w@), f, c)
                &&& forall|f: Seq<char>, c: Seq<char>|
                    #[trigger] r->0@.table.contains_key((f, c)) <==> key_index(weight_views(w@), (f, c)) >= 0
            },
    {
        let ghost l = weight_views(w@);
        let mut i: usize = 0;
        while i < w.len()
            invariant
                l == weight_views(w@),
                i <= w@.len(),
                forall|a: int, b: int| 0 <= a < i && 0 <= b < w@.len() && a != b ==> l[a].0 != l[b].0,
                forall|a: int| 0 <= a < i ==> -weight_bound(0) <= #[trigger] l[a].1 <= weight_bound(0),
            decreases w@.len() - i,
        {
            if w[i].2 < -MAX_LISTED_WEIGHT || w[i].2 > MAX_LISTED_WEIGHT {
                proof {
                    assert(!(-weight_bound(0) <= l[i as int].1 <= weight_bound(0)));
                }
                return None;
            }
            let mut j: usize = 0;
            while j < w.len()
                invariant
                    l == weight_views(w@),
                    i < w@.len(),
                    j <= w@.len(),
                    forall|a: int, b: int| 0 <= a < i && 0 <= b < w@.len() && a != b ==> l[a].0 != l[b].0,
                    forall|b: int| 0 <= b < j && b != i ==> l[i as int].0 != l[b].0,
                decreases w@.len() - j,
            {
                if j != i && w[i].0 == w[j].0 && w[i].1 == w[j].1 {
                    proof {
                        assert(l[i as int].0 == l[j as int].0);
                    }
                    return None;
                }
                j = j + 1;
            }
            i = i + 1;
        }
        let mut entries: Vec<Entry> = Vec::new();
        let mut k: usize = 0;
        while k < w.len()
            invariant
                l == weight_views(w@),
                loadable(l),
                k <= w@.len(),
                entries@.len() == k,
                forall|j: int|
                    0 <= j < k ==> (#[trigger] entries@[j]).key() == l[j].0 && entries@[j].record() == (WeightRecord {
                        weight: l[j].1,
                        total: 0,
                        stamp: 0,
                    }),
            decreases w@.len() - k,
        {
            let ne = Entry { feature: w[k].0.clone(), class: w[k].1.clone(), weight: w[k].2, total: 0, stamp: 0 };
            let ghost before = entries@;
            entries.push(ne);
            proof {
                assert forall|j: int|
                    0 <= j < k + 1 implies (#[trigger] entries@[j]).key() == l[j].0 && entries@[j].record() == (WeightRecord {
                        weight: l[j].1,
                        total: 0,
                        stamp: 0,
                    }) by {
                    if j < k {
                        assert(entries@[j] == before[j]);
                    }
                }
            }
            k = k + 1;
        }
        let ghost table = Map::new(
            |key: (Seq<char>, Seq<char>)| key_index(l, key) >= 0,
            |key: (Seq<char>, Seq<char>)| WeightRecord { weight: l[key_index(l, key)].1, total: 0, stamp: 0 },
        );
        let m = AveragedPerceptron { classes: self.classes, instances: self.instances, entries, table: Ghost(table) };
        proof {
            assert forall|i: int|
                #![trigger m.entries@[i]]
                0 <= i < m.entries@.len() implies m.table@.contains_key(m.entries@[i].key())
                    && m.table@[m.entries@[i].key()] == m.entries@[i].record() by {
                lemma_key_index_unique(l, i);
            }
            assert forall|key: (Seq<char>, Seq<char>)|
                #![trigger m.table@.contains_key(key)]
                m.table@.contains_key(key) implies exists|i: int|
                    0 <= i < m.entries@.len() && m.entries@[i].key() == key by {
                let i = key_index(l, key);
                assert(m.entries@[i].key() == key);
            }
            assert forall|a: int, b: int|
                0 <= a < m.entries@.len() && 0 <= b < m.entries@.len() && a != b
                implies m.entries@[a].key() != m.entries@[b].key() by {
                assert(m.entries@[a].key() == l[a].0);
                assert(m.entries@[b].key() == l[b].0);
            }
            assert forall|key: (Seq<char>, Seq<char>)|
                #![trigger m@.table[key]]
                m@.table.contains_key(key) implies {
                    let r = m@.table[key];
                    &&& 0 <= r.stamp <= m@.instances
                    &&& -weight_bound(r.stamp) <= r.weight <= weight_bound(r.stamp)
                    &&& -r.stamp * weight_bound(r.stamp) <= r.total <= r.stamp * weight_bound(r.stamp)
                } by {
                let i = key_index(l, key);
                assert(-weight_bound(0) <= l[i].1 <= weight_bound(0));
            }
            assert(m.entries_match());
            assert forall|f: Seq<char>, c: Seq<char>| #[trigger] m@.weight(f, c) == listed_weight(l, f, c) by {}
        }
        Some(m)
    }
}

} // verus!
