//! Word normalisation and the sparse features that the tagger scores.
use vstd::prelude::*;

verus! {

/// What `str::to_lowercase` makes of a text.
pub uninterp spec fn lower_of(s: Seq<char>) -> Seq<char>;

/// Relies on `str::to_lowercase`: the lower-case form of the text, which
/// depends on the characters alone.
#[verifier::external_body]
fn lowercase(s: &str) -> (r: String)
    ensures
        r@ == lower_of(s@),
{
    s.to_lowercase()
}

pub open spec fn min_int(x: int, y: int) -> int {
    if x <= y { x } else { y }
}

pub open spec fn is_digit(c: char) -> bool {
    '0' <= c && c <= '9'
}

pub open spec fn all_digits(s: Seq<char>) -> bool {
    s.len() > 0 && forall|i: int| 0 <= i < s.len() ==> is_digit(#[trigger] s[i])
}

/// An integer numeral: ASCII digits, with an optional leading sign.
pub open spec fn is_integer_text(s: Seq<char>) -> bool {
    all_digits(s) || (s.len() > 1 && (s[0] == '+' || s[0] == '-') && all_digits(s.subrange(1, s.len() as int)))
}

/// A non-negative integer numeral of exactly four digits.
pub open spec fn is_year_text(s: Seq<char>) -> bool {
    (s.len() == 4 && all_digits(s)) || (s.len() == 5 && s[0] == '+' && all_digits(s.subrange(1, 5)))
}

/// The bucket a word falls into when it is used as context.
pub open spec fn normalized(s: Seq<char>) -> Seq<char> {
    if s.contains('-') && s[0] != '-' {
        "!HYPHEN"@
    } else if is_year_text(s) {
        "!YEAR"@
    } else if is_integer_text(s) {
        "!DIGIT"@
    } else {
        lower_of(s)
    }
}

fn digits_from(t: &str, from: usize, n: usize) -> (r: bool)
    requires
        n == t@.len(),
        from <= n,
    ensures
        r == all_digits(t@.subrange(from as int, n as int)),
{
    if from == n {
        return false;
    }
    let mut i: usize = from;
    while i < n
        invariant
            n == t@.len(),
            from < n,
            from <= i <= n,
            forall|k: int| from <= k < i ==> is_digit(#[trigger] t@[k]),
        decreases n - i,
    {
        let c = t.get_char(i);
        if !('0' <= c && c <= '9') {
            proof {
                let s = t@.subrange(from as int, n as int);
                assert(s[i - from] == c);
            }
            return false;
        }
        i = i + 1;
    }
    proof {
        let s = t@.subrange(from as int, n as int);
        assert forall|k: int| 0 <= k < s.len() implies is_digit(#[trigger] s[k]) by {
            assert(s[k] == t@[k + from]);
        }
    }
    true
}

/// Maps a word to the bucket used for context: hyphenated words, years and
/// other integers share one key each; any other word is lower-cased.
pub fn normalize_str(t: &str) -> (r: String)
    ensures
        r@ == normalized(t@),
{
    let n = t.unicode_len();
    let mut has_hyphen = false;
    let mut i: usize = 0;
    while i < n
        invariant
            n == t@.len(),
            i <= n,
            has_hyphen == (exists|k: int| 0 <= k < i && t@[k] == '-'),
        decreases n - i,
    {
        if t.get_char(i) == '-' {
            has_hyphen = true;
        }
        i = i + 1;
    }
    proof {
        if t@.contains('-') {
            let k = choose|k: int| 0 <= k < t@.len() && t@[k] == '-';
            assert(has_hyphen);
        }
        if has_hyphen {
            let k = choose|k: int| 0 <= k < n && t@[k] == '-';
            assert(t@.contains('-'));
        }
    }
    if has_hyphen && t.get_char(0) != '-' {
        return String::from_str("!HYPHEN");
    }
    let plain = digits_from(t, 0, n);
    proof {
        assert(t@.subrange(0, n as int) =~= t@);
    }
    let signed = n > 1 && (t.get_char(0) == '+' || t.get_char(0) == '-') && digits_from(t, 1, n);
    let year = (n == 4 && plain) || (n == 5 && t.get_char(0) == '+' && digits_from(t, 1, n));
    if year {
        String::from_str("!YEAR")
    } else if plain || signed {
        String::from_str("!DIGIT")
    } else {
        lowercase(t)
    }
}

/// Position of the entry keyed `k`, or -1 when there is none.
pub open spec fn key_index<K, V>(s: Seq<(K, V)>, k: K) -> int {
    if exists|i: int| 0 <= i < s.len() && s[i].0 == k {
        choose|i: int| 0 <= i < s.len() && s[i].0 == k
    } else {
        -1
    }
}

pub open spec fn keys_unique<K, V>(s: Seq<(K, V)>) -> bool {
    forall|i: int, j: int| 0 <= i < s.len() && 0 <= j < s.len() && i != j ==> s[i].0 != s[j].0
}

/// One more occurrence of feature `k`.
pub open spec fn add_key(s: Seq<(Seq<char>, nat)>, k: Seq<char>) -> Seq<(Seq<char>, nat)> {
    let i = key_index(s, k);
    if i >= 0 {
        s.update(i, (k, s[i].1 + 1))
    } else {
        s.push((k, 1nat))
    }
}

/// The feature set in which each key counts its occurrences in `keys`.
pub open spec fn tally(keys: Seq<Seq<char>>) -> Seq<(Seq<char>, nat)>
    decreases keys.len(),
{
    if keys.len() == 0 {
        seq![]
    } else {
        add_key(tally(keys.drop_last()), keys.last())
    }
}

pub proof fn lemma_key_index_unique<K, V>(s: Seq<(K, V)>, i: int)
    requires
        keys_unique(s),
        0 <= i < s.len(),
    ensures
        key_index(s, s[i].0) == i,
{
}

/// A sparse feature set: each key with its count, no key twice.
pub struct FeatureSet {
    entries: Vec<(String, u32)>,
}

impl View for FeatureSet {
    type V = Seq<(Seq<char>, nat)>;

    closed spec fn view(&self) -> Seq<(Seq<char>, nat)> {
        self.entries@.map_values(|e: (String, u32)| (e.0@, e.1 as nat))
    }
}

impl FeatureSet {
    pub open spec fn wf(&self) -> bool {
        keys_unique(self@)
    }

    /// An empty feature set.
    pub fn new() -> (r: FeatureSet)
        ensures
            r@ == Seq::<(Seq<char>, nat)>::empty(),
            r.wf(),
    {
        let r = FeatureSet { entries: Vec::new() };
        assert(r@ =~= Seq::<(Seq<char>, nat)>::empty());
        r
    }

    /// The number of distinct keys.
    pub fn len(&self) -> (r: usize)
        ensures
            r == self@.len(),
    {
        self.entries.len()
    }

    /// The key and count at position `i`.
    pub fn entry(&self, i: usize) -> (r: (&String, u32))
        requires
            i < self@.len(),
        ensures
            r.0@ == self@[i as int].0,
            r.1 == self@[i as int].1,
    {
        (&self.entries[i].0, self.entries[i].1)
    }

    fn find(&self, key: &String) -> (r: Option<usize>)
        requires
            self.wf(),
        ensures
            r is Some ==> key_index(self@, key@) == r->0 && r->0 < self@.len(),
            r is None ==> key_index(self@, key@) == -1,
    {
        let mut i: usize = 0;
        while i < self.entries.len()
            invariant
                self.wf(),
                i <= self@.len(),
                self@.len() == self.entries@.len(),
                forall|k: int| 0 <= k < i ==> self@[k].0 != key@,
            decreases self@.len() - i,
        {
            if self.entries[i].0 == *key {
                proof {
                    assert(self@[i as int].0 == key@);
                    lemma_key_index_unique(self@, i as int);
                }
                return Some(i);
            }
            i = i + 1;
        }
        None
    }

    /// The count of `key`, 0 when it is absent.
    pub fn count(&self, key: &String) -> (r: u32)
        requires
            self.wf(),
        ensures
            key_index(self@, key@) >= 0 ==> r == self@[key_index(self@, key@)].1,
            key_index(self@, key@) < 0 ==> r == 0,
    {
        match self.find(key) {
            Some(i) => self.entries[i].1,
            None => 0,
        }
    }

    /// Counts one more occurrence of `key`.
    pub fn add(&mut self, key: String)
        requires
            old(self).wf(),
            key_index(old(self)@, key@) >= 0 ==> old(self)@[key_index(old(self)@, key@)].1 < u32::MAX,
        ensures
            final(self).wf(),
            final(self)@ == add_key(old(self)@, key@),
    {
        match self.find(&key) {
            Some(i) => {
                let c = self.entries[i].1;
                let ghost k = key@;
                self.entries.set(i, (key, c + 1));
                proof {
                    assert(self@ =~= add_key(old(self)@, k));
                }
            },
            None => {
                let ghost k = key@;
                self.entries.push((key, 1));
                proof {
                    assert(self@ =~= add_key(old(self)@, k));
                    assert forall|a: int, b: int|
                        0 <= a < self@.len() && 0 <= b < self@.len() && a != b
                        implies self@[a].0 != self@[b].0 by {
                        if a < old(self)@.len() && b < old(self)@.len() {
                            assert(self@[a] == old(self)@[a]);
                            assert(self@[b] == old(self)@[b]);
                        } else if a < old(self)@.len() {
                            assert(self@[a] == old(self)@[a]);
                        } else {
                            assert(self@[b] == old(self)@[b]);
                        }
                    }
                }
            },
        }
    }
}

/// The views of a sequence of strings.
pub open spec fn views(v: Seq<String>) -> Seq<Seq<char>> {
    v.map_values(|s: String| s@)
}

/// The last `n` characters of `w`, or all of it when it is shorter.
pub open spec fn tail(w: Seq<char>, n: int) -> Seq<char> {
    let k = min_int(n, w.len() as int);
    w.subrange(w.len() - k, w.len() as int)
}

pub open spec fn first_char(w: Seq<char>) -> Seq<char> {
    if w.len() == 0 {
        Seq::empty()
    } else {
        w.subrange(0, 1)
    }
}

/// Where word `i` stands in a context padded with two entries on each side,
/// clamped so that two neighbours exist on either hand.
pub open spec fn context_pos(i: int, len: int) -> int {
    min_int(i + 2, len - 3)
}

/// The feature keys for word `i` of the context `ctx` (raw form `w`), with the
/// two tags decided before it. The next-word suffix takes its characters from
/// the previous word and only its length from the next one.
pub open spec fn feature_keys(
    i: int,
    ctx: Seq<Seq<char>>,
    w: Seq<char>,
    p1: Seq<char>,
    p2: Seq<char>,
) -> Seq<Seq<char>> {
    let j = context_pos(i, ctx.len() as int);
    seq![
        "bias"@,
        "i suffix "@ + tail(w, 3),
        "i pref1 "@ + first_char(w),
        "i-1 tag "@ + p1,
        "i-2 tag "@ + p2,
        "i tag+i-2 tag "@ + p1 + " "@ + p2,
        "i word "@ + ctx[j],
        "i-1 tag+i word "@ + p1 + " "@ + ctx[j],
        "i-1 word "@ + ctx[j - 1],
        "i-1 suffix "@ + tail(ctx[j - 1], 3),
        "i-2 word "@ + ctx[j - 2],
        "i+1 word "@ + ctx[j + 1],
        "i+1 suffix "@ + tail(ctx[j - 1], min_int(ctx[j + 1].len() as int, 3)),
        "i+2 word "@ + ctx[j + 2],
    ]
}

/// The feature set of word `i`: each key of `feature_keys` counted once per
/// occurrence.
pub open spec fn features_of(
    i: int,
    ctx: Seq<Seq<char>>,
    w: Seq<char>,
    p1: Seq<char>,
    p2: Seq<char>,
) -> Seq<(Seq<char>, nat)> {
    tally(feature_keys(i, ctx, w, p1, p2))
}

proof fn lemma_tally_counts(keys: Seq<Seq<char>>)
    ensures
        forall|i: int| 0 <= i < tally(keys).len() ==> tally(keys)[i].1 <= keys.len(),
    decreases keys.len(),
{
    if keys.len() > 0 {
        let t = tally(keys.drop_last());
        lemma_tally_counts(keys.drop_last());
        let idx = key_index(t, keys.last());
        assert(tally(keys) == add_key(t, keys.last()));
        assert forall|i: int| 0 <= i < tally(keys).len() implies tally(keys)[i].1 <= keys.len() by {
            if idx >= 0 {
                assert(0 <= idx < t.len());
            } else {
                if i < t.len() {
                    assert(tally(keys)[i] == t[i]);
                }
            }
        }
    }
}

proof fn lemma_tally_len(keys: Seq<Seq<char>>)
    ensures
        tally(keys).len() <= keys.len(),
    decreases keys.len(),
{
    if keys.len() > 0 {
        lemma_tally_len(keys.drop_last());
    }
}

fn cat(a: &str, b: &str) -> (r: String)
    ensures
        r@ == a@ + b@,
{
    let mut s = String::from_str(a);
    s.append(b);
    s
}

fn tail_str(w: &str, n: usize) -> (r: &str)
    ensures
        r@ == tail(w@, n as int),
{
    let len = w.unicode_len();
    let k = if n <= len { n } else { len };
    w.substring_char(len - k, len)
}

fn tally_keys(keys: Vec<String>) -> (r: FeatureSet)
    requires
        keys@.len() < u32::MAX,
    ensures
        r.wf(),
        r@ == tally(views(keys@)),
{
    let mut r = FeatureSet::new();
    let mut m: usize = 0;
    while m < keys.len()
        invariant
            keys@.len() < u32::MAX,
            m <= keys@.len(),
            r.wf(),
            r@ == tally(views(keys@).subrange(0, m as int)),
        decreases keys@.len() - m,
    {
        let ghost ks = views(keys@);
        proof {
            assert(ks.subrange(0, m + 1).drop_last() =~= ks.subrange(0, m as int));
            lemma_tally_counts(ks.subrange(0, m as int));
        }
        r.add(keys[m].clone());
        m = m + 1;
    }
    proof {
        assert(views(keys@).subrange(0, m as int) =~= views(keys@));
    }
    r
}

/// The features of word `i` of `context` (which holds the normalised words
/// with two start and two end markers), where `w` is the raw word and `p1`,
/// `p2` are the two tags decided before it.
pub fn get_features(i: usize, context: &Vec<String>, w: &str, p1: &str, p2: &str) -> (r: FeatureSet)
    requires
        context@.len() >= 5,
    ensures
        r.wf(),
        r@ == features_of(i as int, views(context@), w@, p1@, p2@),
        r@.len() <= 14,
{
    let len = context.len();
    let j = if i <= len - 5 { i + 2 } else { len - 3 };
    let ghost ctx = views(context@);
    let cur = context[j].as_str();
    let prev = context[j - 1].as_str();
    let prev2 = context[j - 2].as_str();
    let next = context[j + 1].as_str();
    let next2 = context[j + 2].as_str();
    let wlen = w.unicode_len();
    let first = if wlen == 0 { w } else { w.substring_char(0, 1) };
    let next_len = next.unicode_len();
    let mut keys: Vec<String> = Vec::new();
    keys.push(String::from_str("bias"));
    keys.push(cat("i suffix ", tail_str(w, 3)));
    keys.push(cat("i pref1 ", first));
    keys.push(cat("i-1 tag ", p1));
    keys.push(cat("i-2 tag ", p2));
    keys.push(cat(cat(cat("i tag+i-2 tag ", p1).as_str(), " ").as_str(), p2));
    keys.push(cat("i word ", cur));
    keys.push(cat(cat(cat("i-1 tag+i word ", p1).as_str(), " ").as_str(), cur));
    keys.push(cat("i-1 word ", prev));
    keys.push(cat("i-1 suffix ", tail_str(prev, 3)));
    keys.push(cat("i-2 word ", prev2));
    keys.push(cat("i+1 word ", next));
    keys.push(cat("i+1 suffix ", tail_str(prev, if next_len <= 3 { next_len } else { 3 })));
    keys.push(cat("i+2 word ", next2));
    proof {
        assert(j == context_pos(i as int, len as int));
        if wlen == 0 {
            assert(first_char(w@) =~= w@);
        }
        assert(views(keys@) =~= feature_keys(i as int, ctx, w@, p1@, p2@));
        lemma_tally_len(views(keys@));
    }
    tally_keys(keys)
}

} // verus!
