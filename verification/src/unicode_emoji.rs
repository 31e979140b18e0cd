//! Reads emoji aloud by their Korean names ("😀" becomes "활짝 웃는 얼굴"),
//! one grapheme cluster at a time, looking each up in a table of readings.
use vstd::prelude::*;
use unicode_segmentation::UnicodeSegmentation;
use crate::mapper::{Input, Output};
use crate::text::chars_of;

verus! {

/// `a` comes before `b` in code-point order, the order of `str` comparison.
pub open spec fn key_less(a: Seq<char>, b: Seq<char>) -> bool
    decreases a.len(),
{
    if a.len() == 0 {
        b.len() > 0
    } else if b.len() == 0 {
        false
    } else if a[0] != b[0] {
        a[0] < b[0]
    } else {
        key_less(a.drop_first(), b.drop_first())
    }
}

/// No key comes before itself.
pub proof fn lemma_key_less_irreflexive(a: Seq<char>)
    ensures
        !key_less(a, a),
    decreases a.len(),
{
    if a.len() > 0 {
        lemma_key_less_irreflexive(a.drop_first());
    }
}

/// The order of keys is transitive.
pub proof fn lemma_key_less_transitive(a: Seq<char>, b: Seq<char>, c: Seq<char>)
    requires
        key_less(a, b),
        key_less(b, c),
    ensures
        key_less(a, c),
    decreases a.len(),
{
    if a.len() > 0 && b.len() > 0 && c.len() > 0 && a[0] == b[0] && b[0] == c[0] {
        lemma_key_less_transitive(a.drop_first(), b.drop_first(), c.drop_first());
    }
}

/// Of two different keys, one comes before the other.
pub proof fn lemma_key_less_total(a: Seq<char>, b: Seq<char>)
    requires
        a != b,
    ensures
        key_less(a, b) || key_less(b, a),
    decreases a.len(),
{
    if a.len() > 0 && b.len() > 0 && a[0] == b[0] {
        if a.drop_first() == b.drop_first() {
            assert(a =~= seq![a[0]] + a.drop_first());
            assert(b =~= seq![b[0]] + b.drop_first());
        }
        lemma_key_less_total(a.drop_first(), b.drop_first());
    } else if a.len() == 0 && b.len() == 0 {
        assert(a =~= b);
    }
}

/// The outcome of comparing two keys.
pub enum KeyOrder {
    Less,
    Equal,
    Greater,
}

/// Compares two keys in code-point order.
pub fn compare_keys(a: &Vec<char>, b: &Vec<char>) -> (r: KeyOrder)
    ensures
        r is Less <==> key_less(a@, b@),
        r is Equal <==> a@ == b@,
        r is Greater <==> key_less(b@, a@),
{
    let mut i: usize = 0;
    assert(a@.skip(0) =~= a@);
    assert(b@.skip(0) =~= b@);
    while i < a.len() && i < b.len() && a[i] == b[i]
        invariant
            i <= a.len(),
            i <= b.len(),
            a@.take(i as int) == b@.take(i as int),
            key_less(a@, b@) == key_less(a@.skip(i as int), b@.skip(i as int)),
            key_less(b@, a@) == key_less(b@.skip(i as int), a@.skip(i as int)),
        decreases a.len() - i,
    {
        assert(a@.skip(i as int).drop_first() =~= a@.skip(i + 1));
        assert(b@.skip(i as int).drop_first() =~= b@.skip(i + 1));
        assert(a@.take(i + 1) =~= a@.take(i as int).push(a@[i as int]));
        assert(b@.take(i + 1) =~= b@.take(i as int).push(b@[i as int]));
        i += 1;
    }
    proof {
        lemma_key_less_irreflexive(a@);
        if a@ != b@ {
            lemma_key_less_total(a@, b@);
        }
    }
    if i == a.len() && i == b.len() {
        assert(a@ =~= a@.take(i as int));
        assert(b@ =~= b@.take(i as int));
        KeyOrder::Equal
    } else if i == a.len() {
        assert(a@.skip(i as int).len() == 0);
        KeyOrder::Less
    } else if i == b.len() {
        assert(b@.skip(i as int).len() == 0);
        KeyOrder::Greater
    } else if a[i] < b[i] {
        KeyOrder::Less
    } else {
        KeyOrder::Greater
    }
}

/// A table of emoji readings, keyed by the emoji without variation selector
/// U+FE0F, its keys in strictly increasing order.
pub struct EmojiTable {
    keys: Vec<Vec<char>>,
    readings: Vec<String>,
}

impl EmojiTable {
    /// The keys and readings are paired and the keys strictly increase.
    #[verifier::type_invariant]
    spec fn well_formed(self) -> bool {
        &&& self.keys.len() == self.readings.len()
        &&& forall|i: int, j: int|
            0 <= i < j < self.keys.len() ==> key_less(#[trigger] self.keys@[i]@, #[trigger] self.keys@[j]@)
    }

    /// The number of entries.
    pub closed spec fn size(self) -> nat {
        self.keys.len() as nat
    }

    /// The key of the `i`-th entry.
    pub closed spec fn key_at(self, i: int) -> Seq<char> {
        self.keys@[i]@
    }

    /// The reading of the `i`-th entry.
    pub closed spec fn reading_at(self, i: int) -> Seq<char> {
        self.readings@[i]@
    }

    /// The reading of `key`, if the table has it.
    pub open spec fn reading_of(self, key: Seq<char>) -> Option<Seq<char>> {
        if exists|i: int| 0 <= i < self.size() && #[trigger] self.key_at(i) == key {
            Some(self.reading_at(choose|i: int| 0 <= i < self.size() && #[trigger] self.key_at(i) == key))
        } else {
            None
        }
    }

    /// Builds a table from `(key, reading)` pairs whose keys strictly increase
    /// in code-point order; `None` when they do not.
    pub fn from_sorted(entries: Vec<(String, String)>) -> (r: Option<EmojiTable>)
        ensures
            match r {
                Some(t) => t.size() == entries.len() && forall|i: int| 0 <= i < entries.len() ==> {
                    &&& #[trigger] t.key_at(i) == entries@[i].0@
                    &&& t.reading_at(i) == entries@[i].1@
                },
                None => exists|i: int| 0 <= i < entries.len() - 1 && !key_less(
                    #[trigger] entries@[i].0@,
                    entries@[i + 1].0@,
                ),
            },
    {
        let mut keys: Vec<Vec<char>> = Vec::new();
        let mut readings: Vec<String> = Vec::new();
        let mut i: usize = 0;
        while i < entries.len()
            invariant
                i <= entries.len(),
                keys.len() == i,
                readings.len() == i,
                forall|k: int| 0 <= k < i ==> (#[trigger] keys@[k])@ == entries@[k].0@,
                forall|k: int| 0 <= k < i ==> (#[trigger] readings@[k])@ == entries@[k].1@,
                forall|a: int, b: int|
                    0 <= a < b < i ==> key_less(#[trigger] keys@[a]@, #[trigger] keys@[b]@),
            decreases entries.len() - i,
        {
            let key = chars_of(entries[i].0.as_str());
            if i > 0 {
                match compare_keys(&keys[i - 1], &key) {
                    KeyOrder::Less => {},
                    _ => {
                        assert(!key_less(entries@[i - 1].0@, entries@[i as int].0@));
                        return None;
                    },
                }
                assert forall|a: int| 0 <= a < i implies key_less(keys@[a]@, key@) by {
                    if a < i - 1 {
                        lemma_key_less_transitive(keys@[a]@, keys@[i - 1]@, key@);
                    }
                }
            }
            keys.push(key);
            readings.push(entries[i].1.clone());
            i += 1;
        }
        Some(EmojiTable { keys, readings })
    }

    /// The reading of `key`, found by binary search.
    pub fn lookup(&self, key: &Vec<char>) -> (r: Option<&String>)
        ensures
            match r {
                Some(s) => self.reading_of(key@) == Some(s@),
                None => self.reading_of(key@) is None,
            },
    {
        proof {
            use_type_invariant(self);
        }
        let mut lo: usize = 0;
        let mut hi: usize = self.keys.len();
        while lo < hi
            invariant
                lo <= hi <= self.keys.len(),
                self.keys.len() == self.readings.len(),
                forall|i: int, j: int|
                    0 <= i < j < self.keys.len() ==> key_less(
                        #[trigger] self.keys@[i]@,
                        #[trigger] self.keys@[j]@,
                    ),
                forall|i: int| 0 <= i < lo ==> key_less(#[trigger] self.keys@[i]@, key@),
                forall|i: int| hi <= i < self.keys.len() ==> key_less(key@, #[trigger] self.keys@[i]@),
            decreases hi - lo,
        {
            let mid = lo + (hi - lo) / 2;
            match compare_keys(&self.keys[mid], key) {
                KeyOrder::Equal => {
                    proof {
                        assert(self.key_at(mid as int) == key@);
                        let c = choose|i: int| 0 <= i < self.size() && #[trigger] self.key_at(i) == key@;
                        if c != mid {
                            lemma_key_less_irreflexive(key@);
                            if c < mid {
                                assert(key_less(self.keys@[c]@, self.keys@[mid as int]@));
                            } else {
                                assert(key_less(self.keys@[mid as int]@, self.keys@[c]@));
                            }
                        }
                    }
                    return Some(&self.readings[mid]);
                },
                KeyOrder::Less => {
                    assert forall|i: int| 0 <= i < mid + 1 implies key_less(
                        #[trigger] self.keys@[i]@,
                        key@,
                    ) by {
                        if i < mid {
                            lemma_key_less_transitive(self.keys@[i]@, self.keys@[mid as int]@, key@);
                        }
                    }
                    lo = mid + 1;
                },
                KeyOrder::Greater => {
                    assert forall|i: int| mid <= i < self.keys.len() implies key_less(
                        key@,
                        #[trigger] self.keys@[i]@,
                    ) by {
                        if i > mid {
                            lemma_key_less_transitive(key@, self.keys@[mid as int]@, self.keys@[i]@);
                        }
                    }
                    hi = mid;
                },
            }
        }
        proof {
            assert forall|i: int| 0 <= i < self.size() implies #[trigger] self.key_at(i) != key@ by {
                lemma_key_less_irreflexive(key@);
            }
        }
        None
    }
}

/// `g` without the variation selector U+FE0F.
pub open spec fn without_variation_selector(g: Seq<char>) -> Seq<char>
    decreases g.len(),
{
    if g.len() == 0 {
        Seq::empty()
    } else if g.last() == '\u{FE0F}' {
        without_variation_selector(g.drop_last())
    } else {
        without_variation_selector(g.drop_last()).push(g.last())
    }
}

/// How one grapheme cluster is read: by its reading in `table` (looked up
/// without U+FE0F), or as it is when the table has no reading for it.
pub open spec fn grapheme_reading(g: Seq<char>, table: EmojiTable) -> Seq<char> {
    match table.reading_of(without_variation_selector(g)) {
        Some(r) => r,
        None => g,
    }
}

/// The reading of the grapheme clusters `gs`, one after the other.
pub open spec fn graphemes_reading(gs: Seq<Seq<char>>, table: EmojiTable) -> Seq<char>
    decreases gs.len(),
{
    if gs.len() == 0 {
        Seq::empty()
    } else {
        graphemes_reading(gs.drop_last(), table) + grapheme_reading(gs.last(), table)
    }
}

/// The grapheme clusters `gs` written one after the other.
pub open spec fn concat(gs: Seq<Seq<char>>) -> Seq<char>
    decreases gs.len(),
{
    if gs.len() == 0 {
        Seq::empty()
    } else {
        concat(gs.drop_last()) + gs.last()
    }
}

/// When no cluster has a reading, the text is read as it is written.
pub proof fn lemma_no_emoji_passthrough(gs: Seq<Seq<char>>, table: EmojiTable)
    requires
        forall|i: int|
            0 <= i < gs.len() ==> table.reading_of(without_variation_selector(#[trigger] gs[i])) is None,
    ensures
        graphemes_reading(gs, table) == concat(gs),
    decreases gs.len(),
{
    if gs.len() > 0 {
        assert forall|i: int| 0 <= i < gs.drop_last().len() implies table.reading_of(
            without_variation_selector(#[trigger] gs.drop_last()[i]),
        ) is None by {
            assert(gs.drop_last()[i] == gs[i]);
        }
        lemma_no_emoji_passthrough(gs.drop_last(), table);
        assert(table.reading_of(without_variation_selector(gs[gs.len() - 1])) is None);
    }
}

proof fn lemma_without_variation_selector_clean(g: Seq<char>)
    ensures
        !without_variation_selector(g).contains('\u{FE0F}'),
    decreases g.len(),
{
    if g.len() > 0 {
        lemma_without_variation_selector_clean(g.drop_last());
        let p = without_variation_selector(g.drop_last());
        if g.last() != '\u{FE0F}' {
            assert forall|i: int| 0 <= i < p.push(g.last()).len() implies p.push(g.last())[i]
                != '\u{FE0F}' by {
                if i < p.len() {
                    assert(p.push(g.last())[i] == p[i]);
                }
            }
        }
    }
}

proof fn lemma_without_variation_selector_id(g: Seq<char>)
    requires
        !g.contains('\u{FE0F}'),
    ensures
        without_variation_selector(g) == g,
    decreases g.len(),
{
    if g.len() > 0 {
        assert(g.last() == g[g.len() - 1]);
        assert(!g.drop_last().contains('\u{FE0F}')) by {
            if g.drop_last().contains('\u{FE0F}') {
                let i = choose|i: int| 0 <= i < g.drop_last().len() && g.drop_last()[i] == '\u{FE0F}';
                assert(g[i] == g.drop_last()[i]);
            }
        }
        lemma_without_variation_selector_id(g.drop_last());
        assert(g.drop_last().push(g.last()) =~= g);
    }
}

/// A cluster reads the same with or without the variation selector U+FE0F
/// when the table has a reading for it ("❤" and "❤️" are read alike).
pub proof fn lemma_variation_selector_ignored(g: Seq<char>, table: EmojiTable)
    requires
        table.reading_of(without_variation_selector(g)) is Some,
    ensures
        grapheme_reading(g, table) == grapheme_reading(without_variation_selector(g), table),
{
    lemma_without_variation_selector_clean(g);
    lemma_without_variation_selector_id(without_variation_selector(g));
}

/// The extended grapheme clusters of `s` (UAX #29), as `unicode_segmentation` splits it.
pub uninterp spec fn grapheme_clusters(s: Seq<char>) -> Seq<Seq<char>>;

/// `UnicodeSegmentation::graphemes(s, true)`, collected. Claimed: the
/// clusters are a function of `s` alone and, written one after the other,
/// give `s` back (the iterator hands out consecutive slices of `s` from its
/// start to its end); where the boundaries fall is not restated here.
#[verifier::external_body]
fn graphemes_of(s: &str) -> (r: Vec<String>)
    ensures
        r.len() == grapheme_clusters(s@).len(),
        forall|i: int| 0 <= i < r.len() ==> (#[trigger] r[i])@ == grapheme_clusters(s@)[i],
        concat(r@.map_values(|g: String| g@)) == s@,
{
    s.graphemes(true).map(String::from).collect()
}

/// `g` without U+FE0F.
fn strip_variation_selector(g: &str) -> (r: Vec<char>)
    ensures
        r@ == without_variation_selector(g@),
{
    let chars = chars_of(g);
    let mut r: Vec<char> = Vec::new();
    let mut i: usize = 0;
    assert(chars@.take(0) =~= Seq::<char>::empty());
    while i < chars.len()
        invariant
            i <= chars.len(),
            r@ == without_variation_selector(chars@.take(i as int)),
        decreases chars.len() - i,
    {
        assert(chars@.take(i + 1).drop_last() =~= chars@.take(i as int));
        if chars[i] != '\u{FE0F}' {
            r.push(chars[i]);
        }
        i += 1;
    }
    assert(chars@.take(chars.len() as int) =~= chars@);
    r
}

/// Reads the grapheme clusters `graphemes` one after the other.
pub fn read_graphemes(graphemes: &Vec<String>, table: &EmojiTable) -> (r: String)
    ensures
        r@ == graphemes_reading(graphemes@.map_values(|g: String| g@), *table),
{
    let ghost gs = graphemes@.map_values(|g: String| g@);
    let mut out = String::new();
    let mut i: usize = 0;
    assert(gs.take(0) =~= Seq::<Seq<char>>::empty());
    while i < graphemes.len()
        invariant
            i <= graphemes.len(),
            gs == graphemes@.map_values(|g: String| g@),
            out@ == graphemes_reading(gs.take(i as int), *table),
        decreases graphemes.len() - i,
    {
        let g = graphemes[i].as_str();
        let key = strip_variation_selector(g);
        match table.lookup(&key) {
            Some(reading) => out.append(reading.as_str()),
            None => out.append(g),
        }
        assert(gs.take(i + 1).drop_last() =~= gs.take(i as int));
        assert(gs.take(i + 1).last() == graphemes@[i as int]@);
        i += 1;
    }
    assert(gs.take(graphemes.len() as int) =~= gs);
    out
}

/// Reads every emoji of the message by its name in `table`, cluster by cluster;
/// the rest of the text is kept as it is.
pub fn process(input: Input, table: &EmojiTable) -> (r: Output)
    ensures
        r.text@ == graphemes_reading(grapheme_clusters(input.text@), *table),
        (forall|i: int|
            0 <= i < grapheme_clusters(input.text@).len() ==> table.reading_of(
                without_variation_selector(#[trigger] grapheme_clusters(input.text@)[i]),
            ) is None) ==> r.text@ == input.text@,
        r.override_future_mappers is None,
{
    let graphemes = graphemes_of(input.text.as_str());
    assert(graphemes@.map_values(|g: String| g@) =~= grapheme_clusters(input.text@));
    proof {
        if forall|i: int|
            0 <= i < grapheme_clusters(input.text@).len() ==> table.reading_of(
                without_variation_selector(#[trigger] grapheme_clusters(input.text@)[i]),
            ) is None {
            lemma_no_emoji_passthrough(grapheme_clusters(input.text@), *table);
        }
    }
    Output::text(read_graphemes(&graphemes, table))
}

} // verus!
