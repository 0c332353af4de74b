//! The part-of-speech tagger: greedy left-to-right decoding with an averaged
//! perceptron, a dictionary of frequent unambiguous words, and training.
use vstd::prelude::*;
use crate::error::{SmolError, SmolErrorKind};
use crate::features::{
    features_of, get_features, key_index, keys_unique, lemma_key_index_unique, normalize_str,
    normalized, views,
};
use crate::perceptron::{
    averaged_view, best_class, classes_unique, lemma_classes_give_candidate,
    lemma_same_weights_same_best, lemma_updated_grows, listed_weight, loadable, same_weights,
    updated, weight_views, weights_only, with_class,
    listable, weight_bound, AveragedPerceptron, PerceptronView, MAX_INSTANCES, MAX_LISTED_WEIGHT,
};
use crate::tokenize::Token;
use rand::rngs::StdRng;
use rand::seq::SliceRandom;

verus! {

pub struct TaggerView {
    pub model: PerceptronView,
    pub dict: Seq<(Seq<char>, Seq<char>)>,
}

/// The tag that the dictionary binds `w` to, if any.
pub open spec fn dict_get(d: Seq<(Seq<char>, Seq<char>)>, w: Seq<char>) -> Option<Seq<char>> {
    let i = key_index(d, w);
    if i >= 0 {
        Some(d[i].1)
    } else {
        None
    }
}

/// The normalised words of a sentence between two start and two end markers.
pub open spec fn context_of(words: Seq<Seq<char>>) -> Seq<Seq<char>> {
    seq!["-START-"@, "-START2-"@] + words.map_values(|w: Seq<char>| normalized(w)) + seq![
        "-END-"@,
        "-END2-"@,
    ]
}

/// The tag decided last, or the first start marker.
pub open spec fn prev1(tags: Seq<Seq<char>>) -> Seq<char> {
    if tags.len() >= 1 {
        tags.last()
    } else {
        "-START-"@
    }
}

/// The tag decided before the last one, or a start marker.
pub open spec fn prev2(tags: Seq<Seq<char>>) -> Seq<char> {
    if tags.len() >= 2 {
        tags[tags.len() - 2]
    } else if tags.len() == 1 {
        "-START-"@
    } else {
        "-START2-"@
    }
}

/// The features of word `i`, given the tags decided for the words before it.
pub open spec fn step_features(words: Seq<Seq<char>>, i: int, tags: Seq<Seq<char>>) -> Seq<(Seq<char>, nat)> {
    features_of(i, context_of(words), words[i], prev1(tags), prev2(tags))
}

/// The tag of word `i`: the dictionary's when it binds the word, else the
/// model's prediction from the features.
pub open spec fn next_tag(
    m: PerceptronView,
    dict: Seq<(Seq<char>, Seq<char>)>,
    words: Seq<Seq<char>>,
    i: int,
    tags: Seq<Seq<char>>,
) -> Seq<char> {
    match dict_get(dict, words[i]) {
        Some(t) => t,
        None => best_class(m, step_features(words, i, tags)),
    }
}

/// The tags of the first `k` words, decided greedily from left to right.
pub open spec fn decode(t: TaggerView, words: Seq<Seq<char>>, k: int) -> Seq<Seq<char>>
    decreases k,
{
    if k <= 0 {
        seq![]
    } else {
        let tags = decode(t, words, k - 1);
        tags.push(next_tag(t.model, t.dict, words, k - 1, tags))
    }
}

proof fn lemma_decode_len(t: TaggerView, words: Seq<Seq<char>>, k: int)
    requires
        k >= 0,
    ensures
        decode(t, words, k).len() == k,
    decreases k,
{
    if k > 0 {
        lemma_decode_len(t, words, k - 1);
    }
}

/// How often a word must occur before the dictionary may bind it.
pub const FREQ_THRESHOLD: usize = 20;

/// The least share, in percent, of a word's occurrences that must carry one
/// tag before the dictionary binds the word to it.
pub const AMBIGUITY_PERCENT: u128 = 97;

pub open spec fn corpus_view(ss: Seq<Vec<(String, String)>>) -> Seq<Seq<(Seq<char>, Seq<char>)>> {
    ss.map_values(|s: Vec<(String, String)>| pair_views(s@))
}

/// All (word, tag) pairs of the corpus, sentence after sentence.
pub open spec fn flat(ss: Seq<Seq<(Seq<char>, Seq<char>)>>) -> Seq<(Seq<char>, Seq<char>)>
    decreases ss.len(),
{
    if ss.len() == 0 {
        seq![]
    } else {
        flat(ss.drop_last()) + ss.last()
    }
}

/// How often `w` occurs in `ps`.
pub open spec fn word_count(ps: Seq<(Seq<char>, Seq<char>)>, w: Seq<char>) -> int
    decreases ps.len(),
{
    if ps.len() == 0 {
        0
    } else {
        word_count(ps.drop_last(), w) + if ps.last().0 == w { 1int } else { 0int }
    }
}

/// How often `w` occurs in `ps` tagged `t`.
pub open spec fn pair_count(ps: Seq<(Seq<char>, Seq<char>)>, w: Seq<char>, t: Seq<char>) -> int
    decreases ps.len(),
{
    if ps.len() == 0 {
        0
    } else {
        pair_count(ps.drop_last(), w, t) + if ps.last() == (w, t) { 1int } else { 0int }
    }
}

/// Whether the dictionary binds `w` to `t`: `w` is frequent, and at least
/// 97% of its occurrences carry `t`.
pub open spec fn binds(ps: Seq<(Seq<char>, Seq<char>)>, w: Seq<char>, t: Seq<char>) -> bool {
    word_count(ps, w) >= FREQ_THRESHOLD && 100 * pair_count(ps, w, t) >= AMBIGUITY_PERCENT * word_count(ps, w)
}

/// `cs` with every tag of `ps` registered, in order.
pub open spec fn with_classes(cs: Seq<Seq<char>>, ps: Seq<(Seq<char>, Seq<char>)>) -> Seq<Seq<char>>
    decreases ps.len(),
{
    if ps.len() == 0 {
        cs
    } else {
        with_class(with_classes(cs, ps.drop_last()), ps.last().1)
    }
}

proof fn lemma_counts_split(ps: Seq<(Seq<char>, Seq<char>)>, w: Seq<char>, t1: Seq<char>, t2: Seq<char>)
    requires
        t1 != t2,
    ensures
        pair_count(ps, w, t1) + pair_count(ps, w, t2) <= word_count(ps, w),
        0 <= pair_count(ps, w, t1),
    decreases ps.len(),
{
    if ps.len() > 0 {
        lemma_counts_split(ps.drop_last(), w, t1, t2);
    }
}

proof fn lemma_binds_unique(ps: Seq<(Seq<char>, Seq<char>)>, w: Seq<char>, t1: Seq<char>, t2: Seq<char>)
    requires
        binds(ps, w, t1),
        binds(ps, w, t2),
    ensures
        t1 == t2,
{
    if t1 != t2 {
        lemma_counts_split(ps, w, t1, t2);
        lemma_counts_split(ps, w, t2, t1);
    }
}

proof fn lemma_pair_occurs(ps: Seq<(Seq<char>, Seq<char>)>, w: Seq<char>, t: Seq<char>)
    requires
        pair_count(ps, w, t) > 0,
    ensures
        exists|q: int| 0 <= q < ps.len() && ps[q] == (w, t),
    decreases ps.len(),
{
    if ps.last() != (w, t) {
        lemma_pair_occurs(ps.drop_last(), w, t);
        let q = choose|q: int| 0 <= q < ps.len() - 1 && ps.drop_last()[q] == (w, t);
        assert(ps[q] == (w, t));
    }
}

proof fn lemma_with_class_grows(cs: Seq<Seq<char>>, c: Seq<char>)
    ensures
        with_class(cs, c).len() >= 1,
        with_class(cs, c).len() >= cs.len(),
{
    if cs.contains(c) {
        assert(cs.len() >= 1);
    }
}

proof fn lemma_with_classes_nonempty(cs: Seq<Seq<char>>, ps: Seq<(Seq<char>, Seq<char>)>)
    ensures
        ps.len() > 0 ==> with_classes(cs, ps).len() >= 1,
        with_classes(cs, ps).len() >= cs.len(),
    decreases ps.len(),
{
    if ps.len() > 0 {
        lemma_with_classes_nonempty(cs, ps.drop_last());
        lemma_with_class_grows(with_classes(cs, ps.drop_last()), ps.last().1);
    }
}

proof fn lemma_flat_holds(ss: Seq<Seq<(Seq<char>, Seq<char>)>>, j: int)
    requires
        0 <= j < ss.len(),
    ensures
        flat(ss).len() >= ss[j].len(),
    decreases ss.len(),
{
    if j < ss.len() - 1 {
        lemma_flat_holds(ss.drop_last(), j);
    }
}

pub open spec fn sentence_words(sent: Seq<(Seq<char>, Seq<char>)>) -> Seq<Seq<char>> {
    sent.map_values(|p: (Seq<char>, Seq<char>)| p.0)
}

/// Training on the first `k` words of a tagged sentence: the model after
/// them, and the tags decided for them. A word the dictionary binds takes
/// its tag from there and teaches nothing; any other word is predicted from
/// its features, and the model then learns from the gold tag.
pub open spec fn train_run(
    m: PerceptronView,
    dict: Seq<(Seq<char>, Seq<char>)>,
    sent: Seq<(Seq<char>, Seq<char>)>,
    k: int,
) -> (PerceptronView, Seq<Seq<char>>)
    decreases k,
{
    if k <= 0 {
        (m, seq![])
    } else {
        let prev = train_run(m, dict, sent, k - 1);
        let m1 = prev.0;
        let gs = prev.1;
        match dict_get(dict, sent[k - 1].0) {
            Some(t) => (m1, gs.push(t)),
            None => {
                let f = step_features(sentence_words(sent), k - 1, gs);
                let g = best_class(m1, f);
                (updated(m1, sent[k - 1].1, g, f), gs.push(g))
            },
        }
    }
}

/// The model after one pass over a tagged sentence.
pub open spec fn train_sentence(
    m: PerceptronView,
    dict: Seq<(Seq<char>, Seq<char>)>,
    sent: Seq<(Seq<char>, Seq<char>)>,
) -> PerceptronView {
    train_run(m, dict, sent, sent.len() as int).0
}

/// The model after a pass over the sentences in the given order.
pub open spec fn train_epoch(
    m: PerceptronView,
    dict: Seq<(Seq<char>, Seq<char>)>,
    ss: Seq<Seq<(Seq<char>, Seq<char>)>>,
    order: Seq<usize>,
) -> PerceptronView
    decreases order.len(),
{
    if order.len() == 0 {
        m
    } else {
        train_sentence(train_epoch(m, dict, ss, order.drop_last()), dict, ss[order.last() as int])
    }
}

/// The model after one pass per order.
pub open spec fn train_epochs(
    m: PerceptronView,
    dict: Seq<(Seq<char>, Seq<char>)>,
    ss: Seq<Seq<(Seq<char>, Seq<char>)>>,
    orders: Seq<Seq<usize>>,
) -> PerceptronView
    decreases orders.len(),
{
    if orders.len() == 0 {
        m
    } else {
        train_epoch(train_epochs(m, dict, ss, orders.drop_last()), dict, ss, orders.last())
    }
}

pub open spec fn identity(n: nat) -> Seq<usize> {
    Seq::new(n, |i: int| i as usize)
}

/// `o` lists each of `0..n` exactly once.
pub open spec fn is_shuffle(o: Seq<usize>, n: nat) -> bool {
    o.to_multiset() == identity(n).to_multiset()
}

/// How many words the sentences listed in `o` hold together.
pub open spec fn words_in(ss: Seq<Seq<(Seq<char>, Seq<char>)>>, o: Seq<usize>) -> int
    decreases o.len(),
{
    if o.len() == 0 {
        0
    } else {
        words_in(ss, o.drop_last()) + ss[o.last() as int].len()
    }
}

proof fn lemma_words_in_prefix(ss: Seq<Seq<(Seq<char>, Seq<char>)>>, o: Seq<usize>, k: int)
    requires
        0 <= k <= o.len(),
    ensures
        0 <= words_in(ss, o.subrange(0, k)) <= words_in(ss, o),
    decreases o.len(),
{
    if k < o.len() {
        lemma_words_in_prefix(ss, o.drop_last(), k);
        assert(o.drop_last().subrange(0, k) =~= o.subrange(0, k));
    } else {
        assert(o.subrange(0, k) =~= o);
        lemma_words_in_prefix_nonneg(ss, o);
    }
}

proof fn lemma_words_in_prefix_nonneg(ss: Seq<Seq<(Seq<char>, Seq<char>)>>, o: Seq<usize>)
    ensures
        0 <= words_in(ss, o),
    decreases o.len(),
{
    if o.len() > 0 {
        lemma_words_in_prefix_nonneg(ss, o.drop_last());
    }
}

proof fn lemma_words_in_remove(ss: Seq<Seq<(Seq<char>, Seq<char>)>>, t: Seq<usize>, j: int)
    requires
        0 <= j < t.len(),
    ensures
        words_in(ss, t) == words_in(ss, t.remove(j)) + ss[t[j] as int].len(),
    decreases t.len(),
{
    if j == t.len() - 1 {
        assert(t.remove(j) =~= t.drop_last());
    } else {
        lemma_words_in_remove(ss, t.drop_last(), j);
        assert(t.remove(j).drop_last() =~= t.drop_last().remove(j));
        assert(t.remove(j).last() == t.last());
    }
}

/// Visiting the same sentences in another order visits as many words.
proof fn lemma_words_in_permuted(ss: Seq<Seq<(Seq<char>, Seq<char>)>>, s: Seq<usize>, t: Seq<usize>)
    requires
        s.to_multiset() == t.to_multiset(),
    ensures
        words_in(ss, s) == words_in(ss, t),
    decreases s.len(),
{
    s.to_multiset_ensures();
    t.to_multiset_ensures();
    if s.len() > 0 {
        let x = s.last();
        let d = s.drop_last();
        d.to_multiset_ensures();
        assert(s =~= d.push(x));
        assert(s.contains(x));
        assert(t.to_multiset().count(x) > 0);
        assert(t.contains(x));
        let j = choose|j: int| 0 <= j < t.len() && t[j] == x;
        lemma_words_in_remove(ss, t, j);
        assert(t.remove(j).to_multiset() =~= t.to_multiset().remove(x));
        assert(d.to_multiset() =~= s.to_multiset().remove(x));
        lemma_words_in_permuted(ss, d, t.remove(j));
    }
}

proof fn lemma_words_in_identity(ss: Seq<Seq<(Seq<char>, Seq<char>)>>, k: int)
    requires
        0 <= k <= ss.len(),
        ss.len() <= usize::MAX,
    ensures
        words_in(ss, identity(k as nat)) == flat(ss.subrange(0, k)).len(),
    decreases k,
{
    if k > 0 {
        lemma_words_in_identity(ss, k - 1);
        assert(identity(k as nat).drop_last() =~= identity((k - 1) as nat));
        assert(identity(k as nat).last() == (k - 1) as usize);
        assert(ss.subrange(0, k).drop_last() =~= ss.subrange(0, k - 1));
        assert(ss.subrange(0, k).last() == ss[k - 1]);
    } else {
        assert(identity(0) =~= Seq::<usize>::empty());
        assert(ss.subrange(0, 0) =~= Seq::<Seq<(Seq<char>, Seq<char>)>>::empty());
    }
}

proof fn lemma_shuffle_in_range(o: Seq<usize>, n: nat)
    requires
        is_shuffle(o, n),
    ensures
        forall|k: int| 0 <= k < o.len() ==> o[k] < n,
        o.len() == n,
{
    o.to_multiset_ensures();
    identity(n).to_multiset_ensures();
    assert forall|k: int| 0 <= k < o.len() implies o[k] < n by {
        assert(o.contains(o[k]));
        assert(identity(n).to_multiset().count(o[k]) > 0);
        assert(identity(n).contains(o[k]));
        let i = choose|i: int| 0 <= i < identity(n).len() && identity(n)[i] == o[k];
    }
}

proof fn lemma_train_run_len(
    m: PerceptronView,
    dict: Seq<(Seq<char>, Seq<char>)>,
    sent: Seq<(Seq<char>, Seq<char>)>,
    k: int,
)
    requires
        k >= 0,
    ensures
        train_run(m, dict, sent, k).1.len() == k,
    decreases k,
{
    if k > 0 {
        lemma_train_run_len(m, dict, sent, k - 1);
    }
}

/// A saved model as plain values: the weight listing, the dictionary and the
/// classes.
pub type ModelParts = (Vec<(String, String, i64)>, Vec<(String, String)>, Vec<String>);

pub type PartsView = (Seq<((Seq<char>, Seq<char>), int)>, Seq<(Seq<char>, Seq<char>)>, Seq<Seq<char>>);

pub open spec fn parts_view(p: ModelParts) -> PartsView {
    (weight_views(p.0@), pair_views(p.1@), views(p.2@))
}

/// What `bincode::deserialize` reads from the bytes as model parts, if they
/// hold such parts.
pub uninterp spec fn bincode_decoded(b: Seq<u8>) -> Option<PartsView>;

/// The parts describe the tagger: the same weight for every pair, the same
/// dictionary, the same classes in the same order.
pub open spec fn parts_match(t: TaggerView, p: PartsView) -> bool {
    &&& keys_unique(p.0)
    &&& forall|f: Seq<char>, c: Seq<char>| #[trigger] listed_weight(p.0, f, c) == t.model.weight(f, c)
    &&& forall|f: Seq<char>, c: Seq<char>|
        #[trigger] t.model.table.contains_key((f, c)) <==> key_index(p.0, (f, c)) >= 0
    &&& p.1 == t.dict
    &&& p.2 == t.model.classes
}

/// Parts a tagger can be rebuilt from.
pub open spec fn parts_valid(p: PartsView) -> bool {
    loadable(p.0) && keys_unique(p.1) && classes_unique(p.2)
}

/// The tagger was rebuilt from the parts: their weights, dictionary and
/// classes, and no instance counted.
pub open spec fn loaded_from(t: TaggerView, p: PartsView) -> bool {
    &&& t.model.classes == p.2
    &&& t.model.instances == 0
    &&& forall|f: Seq<char>, c: Seq<char>| #[trigger] t.model.weight(f, c) == listed_weight(p.0, f, c)
    &&& forall|f: Seq<char>, c: Seq<char>|
        #[trigger] t.model.table.contains_key((f, c)) <==> key_index(p.0, (f, c)) >= 0
    &&& t.dict == p.1
}

/// The bytes hold the parts of the tagger.
pub open spec fn saved_as(t: TaggerView, b: Seq<u8>) -> bool {
    bincode_decoded(b) is Some && parts_match(t, bincode_decoded(b)->0) && parts_valid(bincode_decoded(b)->0)
}

proof fn lemma_same_best(a: PerceptronView, b: PerceptronView, feats: Seq<(Seq<char>, nat)>)
    requires
        a.classes == b.classes,
        same_weights(a, b),
    ensures
        best_class(a, feats) == best_class(b, feats),
{
    lemma_same_weights_same_best(a, b, feats);
    assert(weights_only(a).table =~= weights_only(b).table) by {
        assert forall|k: (Seq<char>, Seq<char>)| #[trigger] a.table.contains_key(k) == b.table.contains_key(k) by {
            assert(a.table.contains_key((k.0, k.1)) == b.table.contains_key((k.0, k.1)));
        }
        assert forall|k: (Seq<char>, Seq<char>)| a.table.contains_key(k) implies #[trigger] a.table[k].weight == b.table[k].weight by {
            assert(a.weight(k.0, k.1) == b.weight(k.0, k.1));
        }
    }
    assert(weights_only(a) == weights_only(b));
}

/// Two taggers with the same classes, the same stored weights and the same
/// dictionary tag every sentence alike.
pub proof fn lemma_same_model_same_tags(t: TaggerView, u: TaggerView, words: Seq<Seq<char>>, k: int)
    requires
        t.model.classes == u.model.classes,
        same_weights(t.model, u.model),
        t.dict == u.dict,
        k >= 0,
    ensures
        decode(t, words, k) == decode(u, words, k),
    decreases k,
{
    if k > 0 {
        lemma_same_model_same_tags(t, u, words, k - 1);
        let tags = decode(t, words, k - 1);
        lemma_same_best(t.model, u.model, step_features(words, k - 1, tags));
    }
}

/// Saving and loading keep tagging: a tagger rebuilt from the bytes that
/// another was saved as tags every sentence as the saved one does.
pub proof fn lemma_reload_tags_alike(t: TaggerView, u: TaggerView, b: Seq<u8>, words: Seq<Seq<char>>)
    requires
        saved_as(t, b),
        loaded_from(u, bincode_decoded(b)->0),
    ensures
        decode(t, words, words.len() as int) == decode(u, words, words.len() as int),
{
    let p = bincode_decoded(b)->0;
    assert forall|f: Seq<char>, c: Seq<char>| #[trigger] t.model.weight(f, c) == u.model.weight(f, c) by {
        assert(listed_weight(p.0, f, c) == t.model.weight(f, c));
        assert(u.model.weight(f, c) == listed_weight(p.0, f, c));
    }
    assert forall|f: Seq<char>, c: Seq<char>|
        #[trigger] t.model.table.contains_key((f, c)) == u.model.table.contains_key((f, c)) by {
        assert(t.model.table.contains_key((f, c)) <==> key_index(p.0, (f, c)) >= 0);
        assert(u.model.table.contains_key((f, c)) <==> key_index(p.0, (f, c)) >= 0);
    }
    lemma_same_model_same_tags(t, u, words, words.len() as int);
}

pub open spec fn terms(ws: Seq<Token>) -> Seq<Seq<char>> {
    ws.map_values(|t: Token| t.term@)
}

pub open spec fn pair_views(v: Seq<(String, String)>) -> Seq<(Seq<char>, Seq<char>)> {
    v.map_values(|p: (String, String)| (p.0@, p.1@))
}

/// A part-of-speech tagger.
pub trait Tagger {
    type Tag;

    /// Whether the tagger is in a state to tag.
    spec fn ready(&self) -> bool;

    /// Whether the tagger knows no tag to give.
    spec fn untrained(&self) -> bool;

    /// `out` pairs each of `tokens`, in order, with the tag the tagger gives it.
    spec fn tagged(&self, tokens: Seq<Token>, out: Seq<(Token, Self::Tag)>) -> bool;

    /// Each token with its tag, in order; an empty-model error when the
    /// tagger knows no tag to give.
    fn tag(&self, tokens: &[Token]) -> (r: Result<Vec<(Token, Self::Tag)>, SmolError>)
        requires
            self.ready(),
        ensures
            r is Err <==> self.untrained(),
            r is Err ==> r->Err_0.kind() == SmolErrorKind::EmptyModel,
            r is Ok ==> self.tagged(tokens@, r->Ok_0@),
    ;
}

/// An averaged-perceptron tagger with a dictionary of frequent words.
pub struct PerceptronTagger {
    model: AveragedPerceptron,
    tags: Vec<(String, String)>,
}

impl View for PerceptronTagger {
    type V = TaggerView;

    closed spec fn view(&self) -> TaggerView {
        TaggerView { model: self.model@, dict: pair_views(self.tags@) }
    }
}

fn build_context(words: &[Token]) -> (r: Vec<String>)
    ensures
        views(r@) == context_of(terms(words@)),
        r@.len() == words@.len() + 4,
{
    let mut r: Vec<String> = Vec::new();
    r.push(String::from_str("-START-"));
    r.push(String::from_str("-START2-"));
    let mut i: usize = 0;
    while i < words.len()
        invariant
            i <= words@.len(),
            r@.len() == i + 2,
            views(r@) == seq!["-START-"@, "-START2-"@] + terms(words@).subrange(0, i as int).map_values(
                |w: Seq<char>| normalized(w),
            ),
        decreases words@.len() - i,
    {
        let ghost before = views(r@);
        let ghost tv = terms(words@);
        let x = PerceptronTagger::normalize(&words[i]).term;
        r.push(x);
        proof {
            assert(views(r@) =~= before.push(x@));
            assert(tv[i as int] == words@[i as int].term@);
            assert(tv.subrange(0, i + 1) =~= tv.subrange(0, i as int).push(tv[i as int]));
            assert(tv.subrange(0, i + 1).map_values(|w: Seq<char>| normalized(w)) =~= tv.subrange(
                0,
                i as int,
            ).map_values(|w: Seq<char>| normalized(w)).push(normalized(tv[i as int])));
        }
        i = i + 1;
        proof {
            assert(views(r@) =~= seq!["-START-"@, "-START2-"@] + terms(words@).subrange(0, i as int).map_values(
                |w: Seq<char>| normalized(w),
            ));
        }
    }
    r.push(String::from_str("-END-"));
    r.push(String::from_str("-END2-"));
    proof {
        assert(terms(words@).subrange(0, i as int) =~= terms(words@));
        assert(views(r@) =~= context_of(terms(words@)));
    }
    r
}

fn flatten(sentences: &Vec<Vec<(String, String)>>) -> (r: Vec<(String, String)>)
    ensures
        pair_views(r@) == flat(corpus_view(sentences@)),
{
    let ghost cv = corpus_view(sentences@);
    let mut r: Vec<(String, String)> = Vec::new();
    let mut j: usize = 0;
    while j < sentences.len()
        invariant
            cv == corpus_view(sentences@),
            j <= sentences@.len(),
            pair_views(r@) == flat(cv.subrange(0, j as int)),
        decreases sentences@.len() - j,
    {
        let s = &sentences[j];
        let ghost base = pair_views(r@);
        let mut k: usize = 0;
        while k < s.len()
            invariant
                k <= s@.len(),
                pair_views(r@) == base + pair_views(s@).subrange(0, k as int),
            decreases s@.len() - k,
        {
            let p = (s[k].0.clone(), s[k].1.clone());
            let ghost before = pair_views(r@);
            r.push(p);
            proof {
                assert(pair_views(r@) =~= before.push((p.0@, p.1@)));
                assert(pair_views(s@)[k as int] == (p.0@, p.1@));
                assert(pair_views(s@).subrange(0, k + 1) =~= pair_views(s@).subrange(0, k as int).push(
                    (p.0@, p.1@),
                ));
            }
            k = k + 1;
            proof {
                assert(pair_views(r@) =~= base + pair_views(s@).subrange(0, k as int));
            }
        }
        proof {
            assert(cv.subrange(0, j + 1).drop_last() =~= cv.subrange(0, j as int));
            assert(cv[j as int] == pair_views(s@));
            assert(pair_views(s@).subrange(0, k as int) =~= pair_views(s@));
        }
        j = j + 1;
    }
    proof {
        assert(cv.subrange(0, j as int) =~= cv);
    }
    r
}

fn count_word(ps: &Vec<(String, String)>, w: &String) -> (r: usize)
    ensures
        r == word_count(pair_views(ps@), w@),
{
    let ghost pv = pair_views(ps@);
    let mut c: usize = 0;
    let mut i: usize = 0;
    while i < ps.len()
        invariant
            pv == pair_views(ps@),
            i <= ps@.len(),
            c <= i,
            c == word_count(pv.subrange(0, i as int), w@),
        decreases ps@.len() - i,
    {
        proof {
            assert(pv.subrange(0, i + 1).drop_last() =~= pv.subrange(0, i as int));
        }
        if ps[i].0 == *w {
            c = c + 1;
        }
        i = i + 1;
    }
    proof {
        assert(pv.subrange(0, i as int) =~= pv);
    }
    c
}

fn count_pair(ps: &Vec<(String, String)>, w: &String, t: &String) -> (r: usize)
    ensures
        r == pair_count(pair_views(ps@), w@, t@),
{
    let ghost pv = pair_views(ps@);
    let mut c: usize = 0;
    let mut i: usize = 0;
    while i < ps.len()
        invariant
            pv == pair_views(ps@),
            i <= ps@.len(),
            c <= i,
            c == pair_count(pv.subrange(0, i as int), w@, t@),
        decreases ps@.len() - i,
    {
        proof {
            assert(pv.subrange(0, i + 1).drop_last() =~= pv.subrange(0, i as int));
        }
        if ps[i].0 == *w && ps[i].1 == *t {
            c = c + 1;
        }
        i = i + 1;
    }
    proof {
        assert(pv.subrange(0, i as int) =~= pv);
    }
    c
}

/// Binds `w` to `t` in the dictionary `d`, leaving every other word as it was.
fn dict_set(d: &mut Vec<(String, String)>, w: &String, t: &String)
    requires
        keys_unique(pair_views(old(d)@)),
    ensures
        keys_unique(pair_views(final(d)@)),
        dict_get(pair_views(final(d)@), w@) == Some(t@),
        forall|x: Seq<char>| x != w@ ==> dict_get(pair_views(final(d)@), x) == dict_get(pair_views(old(d)@), x),
{
    let ghost od = pair_views(d@);
    let mut i: usize = 0;
    while i < d.len()
        invariant
            od == pair_views(d@),
            d@ == old(d)@,
            keys_unique(od),
            i <= d@.len(),
            forall|k: int| 0 <= k < i ==> od[k].0 != w@,
        decreases d@.len() - i,
    {
        if d[i].0 == *w {
            d.set(i, (w.clone(), t.clone()));
            proof {
                let nd = pair_views(d@);
                assert(nd =~= od.update(i as int, (w@, t@)));
                assert(od[i as int].0 == w@);
                assert forall|a: int, b: int| 0 <= a < nd.len() && 0 <= b < nd.len() && a != b implies nd[a].0 != nd[b].0 by {
                    assert(nd[a].0 == od[a].0);
                    assert(nd[b].0 == od[b].0);
                }
                assert(keys_unique(nd));
                lemma_key_index_unique(nd, i as int);
                assert forall|x: Seq<char>| x != w@ implies dict_get(nd, x) == dict_get(od, x) by {
                    if key_index(od, x) >= 0 {
                        let j = key_index(od, x);
                        assert(od[j].0 == x);
                        assert(nd[j] == od[j]);
                        lemma_key_index_unique(od, j);
                        lemma_key_index_unique(nd, j);
                    } else {
                        if key_index(nd, x) >= 0 {
                            let j = key_index(nd, x);
                            assert(nd[j].0 == x);
                            assert(od[j] == nd[j]);
                            lemma_key_index_unique(od, j);
                        }
                    }
                }
            }
            return;
        }
        i = i + 1;
    }
    d.push((w.clone(), t.clone()));
    proof {
        let nd = pair_views(d@);
        assert(nd =~= od.push((w@, t@)));
        assert forall|a: int, b: int| 0 <= a < nd.len() && 0 <= b < nd.len() && a != b implies nd[a].0 != nd[b].0 by {
            if a < od.len() && b < od.len() {
                assert(nd[a] == od[a] && nd[b] == od[b]);
            } else if a < od.len() {
                assert(nd[a] == od[a]);
            } else {
                assert(nd[b] == od[b]);
            }
        }
        lemma_key_index_unique(nd, od.len() as int);
        assert forall|x: Seq<char>| x != w@ implies dict_get(nd, x) == dict_get(od, x) by {
            if key_index(od, x) >= 0 {
                let j = key_index(od, x);
                assert(od[j].0 == x);
                assert(nd[j] == od[j]);
                lemma_key_index_unique(nd, j);
            } else {
                if key_index(nd, x) >= 0 {
                    let j = key_index(nd, x);
                    assert(nd[j].0 == x);
                    assert(j < od.len());
                    assert(od[j] == nd[j]);
                    lemma_key_index_unique(od, j);
                }
            }
        }
    }
}

/// rand's seedable standard generator, carried through opaque.
#[verifier::external_type_specification]
#[verifier::external_body]
pub struct ExStdRng(StdRng);

/// Relies on rand's `SliceRandom::shuffle`: the elements are permuted in
/// place, none added or lost.
#[verifier::external_body]
fn shuffle(order: &mut Vec<usize>, rng: &mut StdRng)
    ensures
        final(order)@.to_multiset() == old(order)@.to_multiset(),
{
    order.shuffle(rng);
}

fn context_of_pairs(sent: &Vec<(String, String)>) -> (r: Vec<String>)
    ensures
        views(r@) == context_of(sentence_words(pair_views(sent@))),
        r@.len() == sent@.len() + 4,
{
    let ghost ws = sentence_words(pair_views(sent@));
    let mut r: Vec<String> = Vec::new();
    r.push(String::from_str("-START-"));
    r.push(String::from_str("-START2-"));
    let mut i: usize = 0;
    while i < sent.len()
        invariant
            ws == sentence_words(pair_views(sent@)),
            i <= sent@.len(),
            r@.len() == i + 2,
            views(r@) == seq!["-START-"@, "-START2-"@] + ws.subrange(0, i as int).map_values(
                |w: Seq<char>| normalized(w),
            ),
        decreases sent@.len() - i,
    {
        let ghost before = views(r@);
        let x = normalize_str(sent[i].0.as_str());
        r.push(x);
        proof {
            assert(views(r@) =~= before.push(x@));
            assert(ws[i as int] == sent@[i as int].0@);
            assert(ws.subrange(0, i + 1) =~= ws.subrange(0, i as int).push(ws[i as int]));
            assert(ws.subrange(0, i + 1).map_values(|w: Seq<char>| normalized(w)) =~= ws.subrange(
                0,
                i as int,
            ).map_values(|w: Seq<char>| normalized(w)).push(normalized(ws[i as int])));
        }
        i = i + 1;
        proof {
            assert(views(r@) =~= seq!["-START-"@, "-START2-"@] + ws.subrange(0, i as int).map_values(
                |w: Seq<char>| normalized(w),
            ));
        }
    }
    r.push(String::from_str("-END-"));
    r.push(String::from_str("-END2-"));
    proof {
        assert(ws.subrange(0, i as int) =~= ws);
        assert(views(r@) =~= context_of(ws));
    }
    r
}

fn identity_order(n: usize) -> (r: Vec<usize>)
    ensures
        r@ == identity(n as nat),
{
    let mut r: Vec<usize> = Vec::new();
    let mut i: usize = 0;
    while i < n
        invariant
            i <= n,
            r@ == identity(i as nat),
        decreases n - i,
    {
        r.push(i);
        i = i + 1;
        proof {
            assert(r@ =~= identity(i as nat));
        }
    }
    r
}

/// bincode's error kind, carried through opaque.
#[verifier::external_type_specification]
#[verifier::external_body]
pub struct ExBincodeErrorKind(bincode::ErrorKind);

/// Relies on `bincode::serialize`: with no size limit and only vectors,
/// strings and integers, whose lengths are known, it cannot fail; the bytes
/// it writes for the parts are read back by `bincode::deserialize` as the
/// same parts.
#[verifier::external_body]
fn encode_parts(p: &ModelParts) -> (r: Result<Vec<u8>, Box<bincode::ErrorKind>>)
    ensures
        r is Ok,
        r is Ok ==> bincode_decoded(r->Ok_0@) == Some(parts_view(*p)),
{
    bincode::serialize(p)
}

/// Relies on `bincode::deserialize`: the model parts the bytes hold, or an
/// error when they hold none.
#[verifier::external_body]
fn decode_parts(b: &[u8]) -> (r: Result<ModelParts, Box<bincode::ErrorKind>>)
    ensures
        match r {
            Ok(p) => bincode_decoded(b@) == Some(parts_view(p)),
            Err(_) => bincode_decoded(b@) is None,
        },
{
    bincode::deserialize(b)
}

fn copy_pairs(d: &Vec<(String, String)>) -> (r: Vec<(String, String)>)
    ensures
        pair_views(r@) == pair_views(d@),
{
    let mut r: Vec<(String, String)> = Vec::new();
    let mut i: usize = 0;
    while i < d.len()
        invariant
            i <= d@.len(),
            pair_views(r@) == pair_views(d@).subrange(0, i as int),
        decreases d@.len() - i,
    {
        let ghost before = pair_views(r@);
        let x = (d[i].0.clone(), d[i].1.clone());
        r.push(x);
        proof {
            assert(pair_views(r@) =~= before.push((x.0@, x.1@)));
            assert(pair_views(d@)[i as int] == (x.0@, x.1@));
            assert(pair_views(d@).subrange(0, i + 1) =~= pair_views(d@).subrange(0, i as int).push((x.0@, x.1@)));
        }
        i = i + 1;
    }
    proof {
        assert(pair_views(d@).subrange(0, i as int) =~= pair_views(d@));
    }
    r
}

fn dict_keys_unique(d: &Vec<(String, String)>) -> (r: bool)
    ensures
        r == keys_unique(pair_views(d@)),
{
    let ghost l = pair_views(d@);
    let mut i: usize = 0;
    while i < d.len()
        invariant
            l == pair_views(d@),
            i <= d@.len(),
            forall|a: int, b: int| 0 <= a < i && 0 <= b < d@.len() && a != b ==> l[a].0 != l[b].0,
        decreases d@.len() - i,
    {
        let mut j: usize = 0;
        while j < d.len()
            invariant
                l == pair_views(d@),
                i < d@.len(),
                j <= d@.len(),
                forall|a: int, b: int| 0 <= a < i && 0 <= b < d@.len() && a != b ==> l[a].0 != l[b].0,
                forall|b: int| 0 <= b < j && b != i ==> l[i as int].0 != l[b].0,
            decreases d@.len() - j,
        {
            if j != i && d[i].0 == d[j].0 {
                proof {
                    assert(l[i as int].0 == l[j as int].0);
                }
                return false;
            }
            j = j + 1;
        }
        i = i + 1;
    }
    true
}

impl PerceptronTagger {
    /// The model as bytes: its weights, dictionary and classes, encoded by
    /// bincode, in a form that `from_bytes` takes back. Fails with a
    /// serialisation error when a weight lies beyond what a model takes from
    /// bytes (more than `MAX_INSTANCES` whole units).
    pub fn to_bytes(&self) -> (r: Result<Vec<u8>, SmolError>)
        requires
            self.wf(),
        ensures
            r is Ok <==> listable(self@.model),
            match r {
                Ok(b) => saved_as(self@, b@),
                Err(e) => e.kind() == SmolErrorKind::Serialize,
            },
    {
        let w = self.model.weight_list();
        let ghost l = weight_views(w@);
        let mut i: usize = 0;
        while i < w.len()
            invariant
                self.wf(),
                l == weight_views(w@),
                keys_unique(l),
                forall|f: Seq<char>, c: Seq<char>| #[trigger] listed_weight(l, f, c) == self@.model.weight(f, c),
                forall|f: Seq<char>, c: Seq<char>|
                    #[trigger] self@.model.table.contains_key((f, c)) <==> key_index(l, (f, c)) >= 0,
                i <= w@.len(),
                forall|q: int| 0 <= q < i ==> -weight_bound(0) <= #[trigger] l[q].1 <= weight_bound(0),
            decreases w@.len() - i,
        {
            if w[i].2 < -MAX_LISTED_WEIGHT || w[i].2 > MAX_LISTED_WEIGHT {
                proof {
                    let k = l[i as int].0;
                    lemma_key_index_unique(l, i as int);
                    assert(listed_weight(l, k.0, k.1) == l[i as int].1);
                    assert(self@.model.table.contains_key((k.0, k.1)));
                    assert(self@.model.table[k].weight == self@.model.weight(k.0, k.1));
                }
                return Err(SmolError::new(SmolErrorKind::Serialize));
            }
            i = i + 1;
        }
        proof {
            assert forall|k: (Seq<char>, Seq<char>)| #[trigger] self@.model.table.contains_key(k) implies -weight_bound(0)
                <= self@.model.table[k].weight <= weight_bound(0) by {
                assert(self@.model.table.contains_key((k.0, k.1)));
                let q = key_index(l, (k.0, k.1));
                assert(l[q].0 == k);
                assert(listed_weight(l, k.0, k.1) == l[q].1);
                assert(self@.model.weight(k.0, k.1) == self@.model.table[k].weight);
            }
        }
        let p: ModelParts = (w, copy_pairs(&self.tags), self.model.class_list());
        proof {
            assert(loadable(weight_views(p.0@)));
            assert(keys_unique(pair_views(p.1@)));
        }
        match encode_parts(&p) {
            Ok(b) => Ok(b),
            Err(_) => Err(SmolError::new(SmolErrorKind::Serialize)),
        }
    }

    /// Rebuilds a tagger from bytes written by `to_bytes`. Fails with a
    /// deserialisation error when the bytes hold no model parts, or parts no
    /// model can take: a pair, a dictionary word or a class twice, or a
    /// weight out of range.
    pub fn from_bytes(b: &[u8]) -> (r: Result<PerceptronTagger, SmolError>)
        ensures
            match bincode_decoded(b@) {
                Some(p) => if parts_valid(p) {
                    r is Ok && r->Ok_0.wf() && loaded_from(r->Ok_0@, p)
                } else {
                    r is Err && r->Err_0.kind() == SmolErrorKind::Deserialize
                },
                None => r is Err && r->Err_0.kind() == SmolErrorKind::Deserialize,
            },
    {
        let (w, d, c) = match decode_parts(b) {
            Ok(p) => p,
            Err(_) => {
                return Err(SmolError::new(SmolErrorKind::Deserialize));
            },
        };
        if !dict_keys_unique(&d) {
            return Err(SmolError::new(SmolErrorKind::Deserialize));
        }
        let m = match AveragedPerceptron::new().classes(c) {
            Some(m) => m,
            None => {
                return Err(SmolError::new(SmolErrorKind::Deserialize));
            },
        };
        let m = match m.weights(w) {
            Some(m) => m,
            None => {
                return Err(SmolError::new(SmolErrorKind::Deserialize));
            },
        };
        let t = PerceptronTagger { model: m, tags: d };
        Ok(t)
    }

    /// The token with its text replaced by the bucket it falls into as
    /// context; offset and index stay.
    pub fn normalize(t: &Token) -> (r: Token)
        ensures
            r.term@ == normalized(t.term@),
            r.offset == t.offset,
            r.index == t.index,
    {
        Token { term: normalize_str(t.term.as_str()), offset: t.offset, index: t.index }
    }

    /// The invariant: a well-formed model and a dictionary with each word once.
    pub closed spec fn wf(&self) -> bool {
        self.model.wf() && keys_unique(self@.dict)
    }

    fn learn_sentence(&mut self, sent: &Vec<(String, String)>)
        requires
            old(self).wf(),
            sent@.len() > 0 ==> old(self)@.model.classes.len() > 0,
            old(self)@.model.instances + sent@.len() <= MAX_INSTANCES,
        ensures
            final(self).wf(),
            final(self)@.dict == old(self)@.dict,
            final(self)@.model == train_sentence(old(self)@.model, old(self)@.dict, pair_views(sent@)),
            final(self)@.model.instances <= old(self)@.model.instances + sent@.len(),
            final(self)@.model.classes.len() >= old(self)@.model.classes.len(),
    {
        let ghost sv = pair_views(sent@);
        let ghost m0 = self@.model;
        let ghost d = self@.dict;
        let context = context_of_pairs(sent);
        let mut p1 = String::from_str("-START-");
        let mut p2 = String::from_str("-START2-");
        let ghost mut gs: Seq<Seq<char>> = seq![];
        let mut i: usize = 0;
        while i < sent.len()
            invariant
                self.wf(),
                sv == pair_views(sent@),
                self@.dict == d,
                d == old(self)@.dict,
                m0 == old(self)@.model,
                sent@.len() > 0 ==> m0.classes.len() > 0,
                m0.instances + sent@.len() <= MAX_INSTANCES,
                views(context@) == context_of(sentence_words(sv)),
                context@.len() == sent@.len() + 4,
                i <= sent@.len(),
                (self@.model, gs) == train_run(m0, d, sv, i as int),
                gs.len() == i,
                p1@ == prev1(gs),
                p2@ == prev2(gs),
                self@.model.instances <= m0.instances + i,
                self@.model.classes.len() >= m0.classes.len(),
            decreases sent@.len() - i,
        {
            let word = &sent[i].0;
            let ghost mb = self@.model;
            proof {
                assert(sv[i as int].0 == word@);
                assert(sentence_words(sv)[i as int] == word@);
            }
            let guess = match self.lookup(word) {
                Some(t) => t,
                None => {
                    let features = get_features(i, &context, word.as_str(), p1.as_str(), p2.as_str());
                    proof {
                        lemma_classes_give_candidate(self@.model, features@);
                    }
                    let g = self.model.predict(&features).unwrap();
                    proof {
                        assert(features@ == step_features(sentence_words(sv), i as int, gs));
                        lemma_updated_grows(mb, sv[i as int].1, g@, features@);
                    }
                    self.model.update(&sent[i].1, &g, &features);
                    g
                },
            };
            proof {
                lemma_train_run_len(m0, d, sv, i as int);
                gs = gs.push(guess@);
            }
            p2 = p1;
            p1 = guess;
            i = i + 1;
        }
        proof {
            assert(i == sv.len());
        }
    }

    /// One training pass over the sentences, taken in the given order (each
    /// entry an index into `sentences`; an index may come any number of times).
    pub fn train_epoch(&mut self, sentences: &Vec<Vec<(String, String)>>, order: &Vec<usize>)
        requires
            old(self).wf(),
            forall|k: int| 0 <= k < order@.len() ==> order@[k] < sentences@.len(),
            old(self)@.model.classes.len() > 0 || forall|j: int|
                0 <= j < sentences@.len() ==> (#[trigger] sentences@[j])@.len() == 0,
            old(self)@.model.instances + words_in(corpus_view(sentences@), order@) <= MAX_INSTANCES,
        ensures
            final(self).wf(),
            final(self)@.dict == old(self)@.dict,
            final(self)@.model == train_epoch(old(self)@.model, old(self)@.dict, corpus_view(sentences@), order@),
            final(self)@.model.instances <= old(self)@.model.instances + words_in(corpus_view(sentences@), order@),
            final(self)@.model.classes.len() >= old(self)@.model.classes.len(),
    {
        let ghost cv = corpus_view(sentences@);
        let mut k: usize = 0;
        while k < order.len()
            invariant
                self.wf(),
                cv == corpus_view(sentences@),
                forall|q: int| 0 <= q < order@.len() ==> order@[q] < sentences@.len(),
                old(self)@.model.classes.len() > 0 || forall|j: int|
                    0 <= j < sentences@.len() ==> (#[trigger] sentences@[j])@.len() == 0,
                old(self)@.model.instances + words_in(cv, order@) <= MAX_INSTANCES,
                k <= order@.len(),
                self@.dict == old(self)@.dict,
                self@.model == train_epoch(old(self)@.model, old(self)@.dict, cv, order@.subrange(0, k as int)),
                self@.model.instances <= old(self)@.model.instances + words_in(cv, order@.subrange(0, k as int)),
                self@.model.classes.len() >= old(self)@.model.classes.len(),
            decreases order@.len() - k,
        {
            let j = order[k];
            proof {
                assert(cv[j as int] == pair_views(sentences@[j as int]@));
                assert(order@.subrange(0, k + 1).drop_last() =~= order@.subrange(0, k as int));
                lemma_words_in_prefix(cv, order@, k + 1);
            }
            self.learn_sentence(&sentences[j]);
            k = k + 1;
        }
        proof {
            assert(order@.subrange(0, k as int) =~= order@);
        }
    }

    /// Trains on tagged sentences: builds the dictionary and registers every
    /// tag, makes `iterations` passes (the first in the given order, each later
    /// one in an order drawn from `rng`), then averages the weights.
    pub fn train(&mut self, sentences: &Vec<Vec<(String, String)>>, iterations: usize, rng: &mut StdRng)
        requires
            old(self).wf(),
            old(self)@.model.instances + iterations * flat(corpus_view(sentences@)).len() <= MAX_INSTANCES,
        ensures
            final(self).wf(),
            forall|w: Seq<char>, t: Seq<char>|
                binds(flat(corpus_view(sentences@)), w, t) ==> dict_get(final(self)@.dict, w) == Some(t),
            forall|w: Seq<char>|
                (forall|t: Seq<char>| !binds(flat(corpus_view(sentences@)), w, t)) ==> dict_get(
                    final(self)@.dict,
                    w,
                ) == dict_get(old(self)@.dict, w),
            exists|orders: Seq<Seq<usize>>|
                {
                    &&& orders.len() == iterations
                    &&& iterations > 0 ==> orders[0] == identity(sentences@.len() as nat)
                    &&& forall|e: int| 0 <= e < iterations ==> is_shuffle(#[trigger] orders[e], sentences@.len() as nat)
                    &&& final(self)@.model == averaged_view(
                        train_epochs(
                            PerceptronView {
                                classes: with_classes(old(self)@.model.classes, flat(corpus_view(sentences@))),
                                ..old(self)@.model
                            },
                            final(self)@.dict,
                            corpus_view(sentences@),
                            orders,
                        ),
                    )
                },
    {
        self.make_tags(sentences);
        let ghost cv = corpus_view(sentences@);
        let ghost prep = self@.model;
        let ghost n = sentences@.len();
        let ghost big = flat(cv).len() as int;
        proof {
            lemma_with_classes_nonempty(old(self)@.model.classes, flat(cv));
            if prep.classes.len() == 0 {
                assert forall|j: int| 0 <= j < sentences@.len() implies (#[trigger] sentences@[j])@.len() == 0 by {
                    lemma_flat_holds(cv, j);
                    assert(cv[j] == pair_views(sentences@[j]@));
                }
            }
            assert(cv.len() == sentences.len());
            lemma_words_in_identity(cv, n as int);
            assert(cv.subrange(0, n as int) =~= cv);
        }
        let mut order = identity_order(sentences.len());
        let ghost mut orders: Seq<Seq<usize>> = seq![];
        let mut e: usize = 0;
        while e < iterations
            invariant
                self.wf(),
                cv == corpus_view(sentences@),
                n == sentences@.len(),
                big == flat(cv).len(),
                big == words_in(cv, identity(n as nat)),
                prep.classes.len() > 0 || forall|j: int|
                    0 <= j < sentences@.len() ==> (#[trigger] sentences@[j])@.len() == 0,
                prep.instances + iterations * big <= MAX_INSTANCES,
                e <= iterations,
                orders.len() == e,
                e > 0 ==> orders[0] == identity(n as nat),
                e == 0 ==> order@ == identity(n as nat),
                forall|q: int| 0 <= q < e ==> is_shuffle(#[trigger] orders[q], n as nat),
                is_shuffle(order@, n as nat),
                self@.model == train_epochs(prep, self@.dict, cv, orders),
                self@.model.instances <= prep.instances + e * big,
                self@.model.classes.len() >= prep.classes.len(),
                prep == (PerceptronView {
                    classes: with_classes(old(self)@.model.classes, flat(cv)),
                    ..old(self)@.model
                }),
                forall|w: Seq<char>, t: Seq<char>| binds(flat(cv), w, t) ==> dict_get(self@.dict, w) == Some(t),
                forall|w: Seq<char>|
                    (forall|t: Seq<char>| !binds(flat(cv), w, t)) ==> dict_get(self@.dict, w) == dict_get(
                        old(self)@.dict,
                        w,
                    ),
            decreases iterations - e,
        {
            proof {
                lemma_shuffle_in_range(order@, n as nat);
                lemma_words_in_permuted(cv, order@, identity(n as nat));
                assert(e * big + big <= iterations * big) by (nonlinear_arith)
                    requires
                        e < iterations,
                        big >= 0,
                ;
            }
            self.train_epoch(sentences, &order);
            proof {
                let old_orders = orders;
                orders = orders.push(order@);
                assert(orders.drop_last() =~= old_orders);
                assert((e + 1) * big == e * big + big) by (nonlinear_arith);
                assert forall|q: int| 0 <= q < e + 1 implies is_shuffle(#[trigger] orders[q], n as nat) by {
                    if q < e {
                        assert(orders[q] == old_orders[q]);
                    }
                }
            }
            shuffle(&mut order, rng);
            e = e + 1;
        }
        self.model.average_weights();
        proof {
            assert(self@.model == averaged_view(train_epochs(prep, self@.dict, cv, orders)));
            assert(orders.len() == iterations);
            assert(iterations > 0 ==> orders[0] == identity(sentences@.len() as nat));
            assert(forall|q: int| 0 <= q < iterations ==> is_shuffle(#[trigger] orders[q], sentences@.len() as nat));
        }
    }

    /// Registers every tag of the corpus as a class, and binds in the
    /// dictionary each word that occurs at least 20 times with one tag on at
    /// least 97% of its occurrences. Other words keep their earlier binding.
    pub fn make_tags(&mut self, sentences: &Vec<Vec<(String, String)>>)
        requires
            old(self).wf(),
        ensures
            final(self).wf(),
            final(self)@.model == (PerceptronView {
                classes: with_classes(old(self)@.model.classes, flat(corpus_view(sentences@))),
                ..old(self)@.model
            }),
            forall|w: Seq<char>, t: Seq<char>|
                binds(flat(corpus_view(sentences@)), w, t) ==> dict_get(final(self)@.dict, w) == Some(t),
            forall|w: Seq<char>|
                (forall|t: Seq<char>| !binds(flat(corpus_view(sentences@)), w, t)) ==> dict_get(
                    final(self)@.dict,
                    w,
                ) == dict_get(old(self)@.dict, w),
    {
        let ps = flatten(sentences);
        let ghost pv = pair_views(ps@);
        let mut i: usize = 0;
        while i < ps.len()
            invariant
                pv == pair_views(ps@),
                i <= ps@.len(),
                self.wf(),
                self@.dict == old(self)@.dict,
                self@.model == (PerceptronView {
                    classes: with_classes(old(self)@.model.classes, pv.subrange(0, i as int)),
                    ..old(self)@.model
                }),
            decreases ps@.len() - i,
        {
            self.model.register(&ps[i].1);
            proof {
                assert(pv.subrange(0, i + 1).drop_last() =~= pv.subrange(0, i as int));
            }
            i = i + 1;
        }
        proof {
            assert(pv.subrange(0, i as int) =~= pv);
        }
        let ghost d0 = self@.dict;
        let mut q: usize = 0;
        while q < ps.len()
            invariant
                pv == pair_views(ps@),
                q <= ps@.len(),
                self.wf(),
                self@.dict.len() >= 0,
                self@.model == (PerceptronView {
                    classes: with_classes(old(self)@.model.classes, pv),
                    ..old(self)@.model
                }),
                d0 == old(self)@.dict,
                forall|k: int| 0 <= k < q && binds(pv, #[trigger] pv[k].0, pv[k].1) ==> dict_get(self@.dict, pv[k].0) == Some(pv[k].1),
                forall|x: Seq<char>|
                    (forall|k: int| 0 <= k < q && pv[k].0 == x ==> !binds(pv, x, #[trigger] pv[k].1)) ==> dict_get(
                        self@.dict,
                        x,
                    ) == dict_get(d0, x),
            decreases ps@.len() - q,
        {
            let w = &ps[q].0;
            let t = &ps[q].1;
            let n = count_word(&ps, w);
            let c = count_pair(&ps, w, t);
            let ghost before = self@.dict;
            if n >= FREQ_THRESHOLD && 100 * (c as u128) >= AMBIGUITY_PERCENT * (n as u128) {
                proof {
                    assert(binds(pv, w@, t@));
                }
                dict_set(&mut self.tags, w, t);
                proof {
                    assert forall|k: int| 0 <= k < q + 1 && binds(pv, #[trigger] pv[k].0, pv[k].1) implies dict_get(self@.dict, pv[k].0) == Some(pv[k].1) by {
                        if pv[k].0 == w@ {
                            lemma_binds_unique(pv, w@, t@, pv[k].1);
                        }
                    }
                    assert forall|x: Seq<char>|
                        (forall|k: int| 0 <= k < q + 1 && pv[k].0 == x ==> !binds(pv, x, #[trigger] pv[k].1)) implies dict_get(
                            self@.dict,
                            x,
                        ) == dict_get(d0, x) by {
                        if x == w@ {
                            assert(pv[q as int].0 == x);
                        }
                    }
                }
            } else {
                proof {
                    assert(!binds(pv, w@, t@));
                    assert forall|k: int| 0 <= k < q + 1 && binds(pv, #[trigger] pv[k].0, pv[k].1) implies dict_get(self@.dict, pv[k].0) == Some(pv[k].1) by {
                    }
                }
            }
            q = q + 1;
        }
        proof {
            assert forall|w: Seq<char>, t: Seq<char>| binds(pv, w, t) implies dict_get(self@.dict, w) == Some(t) by {
                lemma_pair_occurs(pv, w, t);
                let k = choose|k: int| 0 <= k < pv.len() && pv[k] == (w, t);
                assert(pv[k].0 == w && pv[k].1 == t);
            }
            assert forall|x: Seq<char>| (forall|t: Seq<char>| !binds(pv, x, t)) implies dict_get(self@.dict, x) == dict_get(d0, x) by {
                assert forall|k: int| 0 <= k < pv.len() && pv[k].0 == x implies !binds(pv, x, #[trigger] pv[k].1) by {}
            }
        }
    }

    /// An untrained tagger: no class, no weight, an empty dictionary.
    pub fn new() -> (r: PerceptronTagger)
        ensures
            r.wf(),
            r@.model == crate::perceptron::fresh_view(),
            r@.dict.len() == 0,
    {
        let r = PerceptronTagger { model: AveragedPerceptron::new(), tags: Vec::new() };
        assert(r@.dict =~= Seq::<(Seq<char>, Seq<char>)>::empty());
        r
    }

    /// The model the tagger scores with.
    pub fn model(&self) -> (r: &AveragedPerceptron)
        ensures
            r@ == self@.model,
            self.wf() ==> r.wf(),
    {
        &self.model
    }

    /// The tag the dictionary binds `w` to.
    pub fn lookup(&self, w: &String) -> (r: Option<String>)
        requires
            self.wf(),
        ensures
            r is None <==> dict_get(self@.dict, w@) is None,
            r is Some ==> dict_get(self@.dict, w@) == Some(r->0@),
    {
        let mut i: usize = 0;
        while i < self.tags.len()
            invariant
                self.wf(),
                i <= self.tags@.len(),
                forall|k: int| 0 <= k < i ==> self@.dict[k].0 != w@,
            decreases self.tags@.len() - i,
        {
            if self.tags[i].0 == *w {
                proof {
                    assert(self@.dict[i as int].0 == w@);
                    lemma_key_index_unique(self@.dict, i as int);
                }
                return Some(self.tags[i].1.clone());
            }
            i = i + 1;
        }
        None
    }

    /// Tags each token, left to right. Where the dictionary binds a token's
    /// text the tag comes from there; elsewhere the model predicts it from the
    /// features built with the two tags decided before. Fails with an empty
    /// model error when the model knows no class.
    pub fn pos(&self, words: &[Token]) -> (r: Result<Vec<(Token, String)>, SmolError>)
        requires
            self.wf(),
        ensures
            r is Err <==> self@.model.classes.len() == 0,
            match r {
                Ok(out) => {
                    &&& out@.len() == words@.len()
                    &&& forall|i: int|
                        0 <= i < words@.len() ==> #[trigger] out@[i].0 == words@[i]
                            && out@[i].1@ == decode(self@, terms(words@), words@.len() as int)[i]
                },
                Err(e) => e.kind() == SmolErrorKind::EmptyModel,
            },
    {
        if self.model.class_count() == 0 {
            return Err(SmolError::new(SmolErrorKind::EmptyModel));
        }
        let ghost ws = terms(words@);
        let context = build_context(words);
        let mut p1 = String::from_str("-START-");
        let mut p2 = String::from_str("-START2-");
        let mut res: Vec<(Token, String)> = Vec::new();
        let ghost mut tags: Seq<Seq<char>> = seq![];
        let mut i: usize = 0;
        while i < words.len()
            invariant
                self.wf(),
                self@.model.classes.len() > 0,
                ws == terms(words@),
                views(context@) == context_of(ws),
                context@.len() == words@.len() + 4,
                i <= words@.len(),
                tags == decode(self@, ws, i as int),
                tags.len() == i,
                p1@ == prev1(tags),
                p2@ == prev2(tags),
                res@.len() == i,
                forall|k: int| 0 <= k < i ==> (#[trigger] res@[k]).0 == words@[k] && res@[k].1@ == tags[k],
            decreases words@.len() - i,
        {
            let word = &words[i].term;
            let tag = match self.lookup(word) {
                Some(t) => t,
                None => {
                    let features = get_features(i, &context, word.as_str(), p1.as_str(), p2.as_str());
                    proof {
                        lemma_classes_give_candidate(self@.model, features@);
                    }
                    self.model.predict(&features).unwrap()
                },
            };
            proof {
                assert(ws[i as int] == word@);
                assert(tag@ == next_tag(self@.model, self@.dict, ws, i as int, tags));
            }
            let t = Token { term: words[i].term.clone(), offset: words[i].offset, index: words[i].index };
            assert(t == words@[i as int]);
            let tag2 = tag.clone();
            let ghost old_res = res@;
            res.push((t, tag2));
            proof {
                lemma_decode_len(self@, ws, i + 1);
                let ghost old_tags = tags;
                tags = tags.push(tag@);
                assert forall|k: int| 0 <= k < i implies (#[trigger] old_res[k]).0 == words@[k] && old_res[k].1@ == old_tags[k] by {}
                assert(tag2@ == tag@);
                assert forall|k: int| 0 <= k < i + 1 implies (#[trigger] res@[k]).0 == words@[k] && res@[k].1@ == tags[k] by {
                    if k < i {
                        assert(res@[k] == old_res[k]);
                        assert(old_res[k].0 == words@[k]);
                        assert(tags[k] == old_tags[k]);
                    } else {
                        assert(res@[k] == (t, tag2));
                    }
                }
            }
            p2 = p1;
            p1 = tag;
            i = i + 1;
        }
        Ok(res)
    }
}

impl Tagger for PerceptronTagger {
    type Tag = String;

    closed spec fn ready(&self) -> bool {
        self.wf()
    }

    /// The model knows no class.
    open spec fn untrained(&self) -> bool {
        self@.model.classes.len() == 0
    }

    /// Each token kept as given, with the tag of the greedy decode.
    open spec fn tagged(&self, tokens: Seq<Token>, out: Seq<(Token, String)>) -> bool {
        &&& out.len() == tokens.len()
        &&& forall|i: int|
            0 <= i < tokens.len() ==> #[trigger] out[i].0 == tokens[i] && out[i].1@ == decode(
                self@,
                terms(tokens),
                tokens.len() as int,
            )[i]
    }

    fn tag(&self, tokens: &[Token]) -> (r: Result<Vec<(Token, String)>, SmolError>) {
        self.pos(tokens)
    }
}

} // verus!
