//! Metric points: ordered mappings from field name to [`Value`].
//!
//! A point keeps its fields sorted by name (character-code order), so the
//! wire encoding of a point is reproducible: two points with the same
//! field mapping serialize to the same bytes.

use vstd::prelude::*;

use crate::value::Value;
use crate::value::ValueView;

verus! {

/// Strict lexicographic order on character sequences, by character code.
pub open spec fn chars_lt(a: Seq<char>, b: Seq<char>) -> bool
    decreases a.len(),
{
    if b.len() == 0 {
        false
    } else if a.len() == 0 {
        true
    } else if (a[0] as u32) < (b[0] as u32) {
        true
    } else if a[0] == b[0] {
        chars_lt(a.drop_first(), b.drop_first())
    } else {
        false
    }
}

/// Two characters with the same code are the same character.
proof fn lemma_char_code_injective(a: char, b: char)
    requires
        a as u32 == b as u32,
    ensures
        a == b,
{
    vstd::utf8::char_u32_cast(a, a as u32);
    vstd::utf8::char_u32_cast(b, b as u32);
}

/// `chars_lt` is a strict total order: for any two sequences exactly one of
/// `a < b`, `a == b`, `b < a` holds.
pub proof fn lemma_chars_lt_trichotomy(a: Seq<char>, b: Seq<char>)
    ensures
        chars_lt(a, b) || chars_lt(b, a) || a == b,
        chars_lt(a, b) ==> !chars_lt(b, a) && a != b,
        chars_lt(b, a) ==> !chars_lt(a, b) && a != b,
    decreases a.len() + b.len(),
{
    if a.len() == 0 && b.len() == 0 {
        assert(a =~= b);
    } else if a.len() > 0 && b.len() > 0 {
        if a[0] == b[0] {
            lemma_chars_lt_trichotomy(a.drop_first(), b.drop_first());
            if a.drop_first() == b.drop_first() {
                assert forall|i: int| 0 <= i < a.len() implies a[i] == b[i] by {
                    if i > 0 {
                        assert(a[i] == a.drop_first()[i - 1]);
                        assert(b[i] == b.drop_first()[i - 1]);
                    }
                }
                assert(a =~= b);
            }
        } else {
            if a[0] as u32 == b[0] as u32 {
                lemma_char_code_injective(a[0], b[0]);
            }
            assert(a != b);
        }
    }
}

/// `chars_lt` is transitive.
pub proof fn lemma_chars_lt_trans(a: Seq<char>, b: Seq<char>, c: Seq<char>)
    requires
        chars_lt(a, b),
        chars_lt(b, c),
    ensures
        chars_lt(a, c),
    decreases a.len(),
{
    if a.len() > 0 {
        if a[0] == b[0] {
            if b[0] == c[0] {
                lemma_chars_lt_trans(a.drop_first(), b.drop_first(), c.drop_first());
            }
        } else {
            if a[0] as u32 == b[0] as u32 {
                lemma_char_code_injective(a[0], b[0]);
            }
            if b[0] as u32 == c[0] as u32 {
                lemma_char_code_injective(b[0], c[0]);
            }
        }
    }
}

/// With equal prefixes of length `i`, comparing two sequences is the same as
/// comparing what remains after the prefix.
proof fn lemma_chars_cmp_skip(a: Seq<char>, b: Seq<char>, i: int)
    requires
        0 <= i <= a.len(),
        i <= b.len(),
        a.subrange(0, i) == b.subrange(0, i),
    ensures
        chars_lt(a, b) == chars_lt(a.skip(i), b.skip(i)),
        chars_lt(b, a) == chars_lt(b.skip(i), a.skip(i)),
        (a == b) == (a.skip(i) == b.skip(i)),
    decreases i,
{
    if i == 0 {
        assert(a.skip(0) =~= a);
        assert(b.skip(0) =~= b);
    } else {
        assert(a[0] == a.subrange(0, i)[0]);
        assert(b[0] == b.subrange(0, i)[0]);
        assert forall|j: int|
            0 <= j < i - 1 implies #[trigger] a.drop_first().subrange(0, i - 1)[j]
            == b.drop_first().subrange(0, i - 1)[j] by {
            assert(a.drop_first().subrange(0, i - 1)[j] == a[j + 1]);
            assert(b.drop_first().subrange(0, i - 1)[j] == b[j + 1]);
            assert(a[j + 1] == a.subrange(0, i)[j + 1]);
            assert(b[j + 1] == b.subrange(0, i)[j + 1]);
        }
        assert(a.drop_first().subrange(0, i - 1) =~= b.drop_first().subrange(0, i - 1));
        lemma_chars_cmp_skip(a.drop_first(), b.drop_first(), i - 1);
        assert(a.drop_first().skip(i - 1) =~= a.skip(i));
        assert(b.drop_first().skip(i - 1) =~= b.skip(i));
        if a.skip(i) == b.skip(i) {
            assert(a.drop_first() == b.drop_first());
            assert forall|j: int| 0 <= j < a.len() implies a[j] == b[j] by {
                if j > 0 {
                    assert(a[j] == a.drop_first()[j - 1]);
                    assert(b[j] == b.drop_first()[j - 1]);
                }
            }
            assert(a =~= b);
        }
        if a == b {
            assert(a.skip(i) =~= b.skip(i));
        }
    }
}

/// Result of comparing two field names.
#[derive(Debug, PartialEq, Eq, Structural)]
pub enum KeyOrder {
    Before,
    Same,
    After,
}

/// Compares two names in the order that governs field layout.
pub fn key_order(a: &str, b: &str) -> (r: KeyOrder)
    ensures
        (r == KeyOrder::Before) == chars_lt(a@, b@),
        (r == KeyOrder::Same) == (a@ == b@),
        (r == KeyOrder::After) == chars_lt(b@, a@),
{
    let alen = a.unicode_len();
    let blen = b.unicode_len();
    let mut i: usize = 0;
    loop
        invariant
            i <= alen,
            i <= blen,
            alen == a@.len(),
            blen == b@.len(),
            a@.subrange(0, i as int) == b@.subrange(0, i as int),
        decreases alen - i,
    {
        proof {
            lemma_chars_cmp_skip(a@, b@, i as int);
            lemma_chars_lt_trichotomy(a@, b@);
        }
        if i == alen && i == blen {
            proof {
                assert(a@.skip(i as int) =~= b@.skip(i as int));
            }
            return KeyOrder::Same;
        }
        if i == alen {
            proof {
                assert(a@.skip(i as int).len() == 0);
                assert(b@.skip(i as int).len() > 0);
            }
            return KeyOrder::Before;
        }
        if i == blen {
            proof {
                assert(b@.skip(i as int).len() == 0);
                assert(a@.skip(i as int).len() > 0);
            }
            return KeyOrder::After;
        }
        let ca = a.get_char(i);
        let cb = b.get_char(i);
        proof {
            assert(a@.skip(i as int)[0] == ca);
            assert(b@.skip(i as int)[0] == cb);
        }
        if (ca as u32) < (cb as u32) {
            return KeyOrder::Before;
        }
        if (cb as u32) < (ca as u32) {
            return KeyOrder::After;
        }
        proof {
            lemma_char_code_injective(ca, cb);
            assert forall|j: int|
                0 <= j < i + 1 implies #[trigger] a@.subrange(0, i + 1)[j] == b@.subrange(
                0,
                i + 1,
            )[j] by {
                if j < i {
                    assert(a@.subrange(0, i as int)[j] == b@.subrange(0, i as int)[j]);
                }
            }
            assert(a@.subrange(0, i + 1) =~= b@.subrange(0, i + 1));
        }
        i += 1;
    }
}

/// The mathematical reading of a field list: each entry as its name's
/// characters paired with its value's shape.
pub open spec fn entry_views(es: Seq<(String, Value)>) -> Seq<(Seq<char>, ValueView)> {
    es.map(|i: int, e: (String, Value)| (e.0@, e.1@))
}

/// Field lists are well formed when names are strictly increasing, so every
/// name occurs at most once and the layout is the one canonical layout.
pub open spec fn wf_entries(es: Seq<(Seq<char>, ValueView)>) -> bool {
    forall|i: int, j: int|
        0 <= i < j < es.len() ==> chars_lt(#[trigger] es[i].0, #[trigger] es[j].0)
}

/// A prefix of a well formed field list is well formed.
proof fn lemma_wf_drop_last(es: Seq<(Seq<char>, ValueView)>)
    requires
        wf_entries(es),
        es.len() > 0,
    ensures
        wf_entries(es.drop_last()),
{
    assert forall|p: int, q: int|
        0 <= p < q < es.drop_last().len() implies chars_lt(
        (#[trigger] es.drop_last()[p]).0,
        (#[trigger] es.drop_last()[q]).0,
    ) by {
        assert(es.drop_last()[p] == es[p]);
        assert(es.drop_last()[q] == es[q]);
    }
}

/// The mapping a field list denotes; later entries win, though in a well
/// formed list names never repeat.
pub open spec fn map_of(es: Seq<(Seq<char>, ValueView)>) -> Map<Seq<char>, ValueView>
    decreases es.len(),
{
    if es.len() == 0 {
        Map::empty()
    } else {
        map_of(es.drop_last()).insert(es.last().0, es.last().1)
    }
}

/// A name is in the mapping of a field list exactly when some entry carries it.
pub proof fn lemma_map_of_contains(es: Seq<(Seq<char>, ValueView)>, k: Seq<char>)
    ensures
        map_of(es).dom().contains(k) <==> (exists|i: int| 0 <= i < es.len() && es[i].0 == k),
    decreases es.len(),
{
    if es.len() > 0 {
        let dl = es.drop_last();
        lemma_map_of_contains(dl, k);
        if map_of(es).dom().contains(k) {
            if es.last().0 == k {
                assert(es[es.len() - 1].0 == k);
            } else {
                let i = choose|i: int| 0 <= i < dl.len() && dl[i].0 == k;
                assert(es[i].0 == k);
            }
        }
        if exists|i: int| 0 <= i < es.len() && es[i].0 == k {
            let i = choose|i: int| 0 <= i < es.len() && es[i].0 == k;
            if i < es.len() - 1 {
                assert(dl[i].0 == k);
                assert(map_of(dl).dom().contains(k));
            }
        }
    }
}

/// In a well formed field list, the mapping sends each entry's name to that
/// entry's value.
pub proof fn lemma_map_of_index(es: Seq<(Seq<char>, ValueView)>, i: int)
    requires
        wf_entries(es),
        0 <= i < es.len(),
    ensures
        map_of(es).dom().contains(es[i].0),
        map_of(es)[es[i].0] == es[i].1,
    decreases es.len(),
{
    if i < es.len() - 1 {
        lemma_wf_drop_last(es);
        assert(es.drop_last()[i] == es[i]);
        lemma_map_of_index(es.drop_last(), i);
        lemma_chars_lt_trichotomy(es[i].0, es.last().0);
        assert(chars_lt(es[i].0, es.last().0));
    }
}

/// Dropping the last entry of a well formed list removes exactly its name.
proof fn lemma_map_of_drop_last(es: Seq<(Seq<char>, ValueView)>)
    requires
        wf_entries(es),
        es.len() > 0,
    ensures
        map_of(es.drop_last()) == map_of(es).remove(es.last().0),
        !map_of(es.drop_last()).dom().contains(es.last().0),
{
    let dl = es.drop_last();
    let k = es.last().0;
    lemma_map_of_contains(dl, k);
    if map_of(dl).dom().contains(k) {
        let i = choose|i: int| 0 <= i < dl.len() && dl[i].0 == k;
        assert(es[i].0 == k);
        assert(chars_lt(es[i].0, es[es.len() - 1].0));
        lemma_chars_lt_trichotomy(es[i].0, k);
        assert(false);
    }
    assert(map_of(dl) =~= map_of(es).remove(k));
}

/// Well formed field lists are canonical: the mapping alone settles the whole
/// layout. This is what makes the wire encoding deterministic.
pub proof fn lemma_wf_entries_unique(a: Seq<(Seq<char>, ValueView)>, b: Seq<(Seq<char>, ValueView)>)
    requires
        wf_entries(a),
        wf_entries(b),
        map_of(a) == map_of(b),
    ensures
        a == b,
    decreases a.len(),
{
    if a.len() == 0 {
        if b.len() > 0 {
            lemma_map_of_index(b, b.len() - 1);
            assert(map_of(a).dom() =~= Set::<Seq<char>>::empty());
            assert(false);
        }
        assert(a =~= b);
    } else if b.len() == 0 {
        lemma_map_of_index(a, a.len() - 1);
        assert(map_of(b).dom() =~= Set::<Seq<char>>::empty());
        assert(false);
    } else {
        let ka = a.last().0;
        let kb = b.last().0;
        lemma_map_of_index(a, a.len() - 1);
        lemma_map_of_index(b, b.len() - 1);
        // The last name of each list is its greatest; equal mappings share
        // their greatest name.
        assert(ka == kb) by {
            lemma_map_of_contains(b, ka);
            let j = choose|j: int| 0 <= j < b.len() && b[j].0 == ka;
            if j < b.len() - 1 {
                assert(chars_lt(ka, kb));
                lemma_map_of_contains(a, kb);
                let i = choose|i: int| 0 <= i < a.len() && a[i].0 == kb;
                if i < a.len() - 1 {
                    assert(chars_lt(kb, ka));
                    lemma_chars_lt_trans(ka, kb, ka);
                    lemma_chars_lt_trichotomy(ka, ka);
                } else {
                    assert(a[a.len() - 1].0 == ka);
                    lemma_chars_lt_trichotomy(ka, kb);
                }
            }
        }
        assert(map_of(a)[ka] == a.last().1);
        assert(map_of(b)[ka] == b.last().1);
        assert(a.last() == b.last());
        lemma_map_of_drop_last(a);
        lemma_map_of_drop_last(b);
        lemma_wf_drop_last(a);
        lemma_wf_drop_last(b);
        lemma_wf_entries_unique(a.drop_last(), b.drop_last());
        assert forall|i: int| 0 <= i < a.len() implies a[i] == b[i] by {
            if i < a.len() - 1 {
                assert(a[i] == a.drop_last()[i]);
                assert(b[i] == b.drop_last()[i]);
            }
        }
        assert(a =~= b);
    }
}

/// The one well formed layout of a field mapping, when there is one.
pub open spec fn entries_of(m: Map<Seq<char>, ValueView>) -> Seq<(Seq<char>, ValueView)> {
    choose|es: Seq<(Seq<char>, ValueView)>| wf_entries(es) && map_of(es) == m
}

/// For a well formed list, `entries_of` of its mapping gives the list back.
pub proof fn lemma_entries_of(es: Seq<(Seq<char>, ValueView)>)
    requires
        wf_entries(es),
    ensures
        entries_of(map_of(es)) == es,
{
    assert(wf_entries(es) && map_of(es) == map_of(es));
    let w = entries_of(map_of(es));
    assert(wf_entries(w) && map_of(w) == map_of(es));
    lemma_wf_entries_unique(w, es);
}

/// One metric observation: a mapping from field name to value, held in
/// name order.
#[derive(Debug)]
pub struct Point {
    entries: Vec<(String, Value)>,
}

impl View for Point {
    type V = Seq<(Seq<char>, ValueView)>;

    closed spec fn view(&self) -> Seq<(Seq<char>, ValueView)> {
        entry_views(self.entries@)
    }
}

impl Point {
    /// Every point keeps its fields in strictly increasing name order.
    #[verifier::type_invariant]
    pub open spec fn wf(self) -> bool {
        wf_entries(self.view())
    }

    /// The field mapping this point denotes.
    pub open spec fn as_map(&self) -> Map<Seq<char>, ValueView> {
        map_of(self.view())
    }

    /// A point with no fields.
    pub fn new() -> (r: Point)
        ensures
            r@ == Seq::<(Seq<char>, ValueView)>::empty(),
            r.as_map() == Map::<Seq<char>, ValueView>::empty(),
    {
        let entries: Vec<(String, Value)> = Vec::new();
        let r = Point { entries };
        proof {
            assert(r@ =~= Seq::<(Seq<char>, ValueView)>::empty());
        }
        r
    }

    /// How many fields the point has.
    pub fn len(&self) -> (r: usize)
        ensures
            r == self@.len(),
    {
        self.entries.len()
    }

    /// Sets `key` to `value`, replacing any earlier value under that name.
    pub fn insert(&mut self, key: String, value: Value)
        ensures
            final(self).as_map() == old(self).as_map().insert(key@, value@),
    {
        proof {
            use_type_invariant(&*self);
        }
        let mut es: Vec<(String, Value)> = Vec::new();
        std::mem::swap(&mut es, &mut self.entries);
        self.entries = insert_sorted(es, key, value);
    }

    /// Looks a field up by name.
    pub fn get(&self, key: &str) -> (r: Option<&Value>)
        ensures
            match r {
                Some(v) => self.as_map().dom().contains(key@) && v@ == self.as_map()[key@],
                None => !self.as_map().dom().contains(key@),
            },
    {
        proof {
            use_type_invariant(&*self);
        }
        let n = self.entries.len();
        let mut i: usize = 0;
        while i < n
            invariant
                i <= n,
                n == self@.len(),
                wf_entries(self@),
                forall|j: int| 0 <= j < i ==> (#[trigger] self@[j]).0 != key@,
            decreases n - i,
        {
            let same = match key_order(self.entries[i].0.as_str(), key) {
                KeyOrder::Same => true,
                _ => false,
            };
            if same {
                proof {
                    lemma_map_of_index(self@, i as int);
                }
                return Some(&self.entries[i].1);
            }
            i += 1;
        }
        proof {
            lemma_map_of_contains(self@, key@);
        }
        None
    }

    /// Whether the point has a field of this name.
    pub fn contains_key(&self, key: &str) -> (r: bool)
        ensures
            r == self.as_map().dom().contains(key@),
    {
        match self.get(key) {
            Some(_) => true,
            None => false,
        }
    }

    /// Takes the field of this name out of the point, if present.
    pub fn remove(&mut self, key: &str) -> (r: Option<Value>)
        ensures
            final(self).as_map() == old(self).as_map().remove(key@),
            match r {
                Some(v) => old(self).as_map().dom().contains(key@) && v@ == old(
                    self,
                ).as_map()[key@],
                None => !old(self).as_map().dom().contains(key@),
            },
    {
        proof {
            use_type_invariant(&*self);
        }
        let mut es: Vec<(String, Value)> = Vec::new();
        std::mem::swap(&mut es, &mut self.entries);
        let (es, r) = remove_sorted(es, key);
        self.entries = es;
        r
    }

    /// An exact copy; unlike a derived `Clone`, its effect is stated.
    pub fn duplicate(&self) -> (r: Point)
        ensures
            r@ == self@,
    {
        proof {
            use_type_invariant(&*self);
        }
        let n = self.entries.len();
        let mut es: Vec<(String, Value)> = Vec::new();
        let mut i: usize = 0;
        while i < n
            invariant
                i <= n,
                n == self@.len(),
                wf_entries(self@),
                entry_views(es@) == self@.subrange(0, i as int),
            decreases n - i,
        {
            let key = self.entries[i].0.clone();
            let value = self.entries[i].1.duplicate();
            let ghost kview = key@;
            let ghost vview = value@;
            let ghost pre = es@;
            es.push((key, value));
            proof {
                assert(self@[i as int] == (self.entries@[i as int].0@, self.entries@[i as int].1@));
                assert(kview == self@[i as int].0);
                assert(vview == self@[i as int].1);
                assert(entry_views(pre).len() == pre.len());
                assert(pre.len() == i);
                assert forall|j: int|
                    0 <= j < i + 1 implies #[trigger] entry_views(es@)[j] == self@.subrange(
                    0,
                    i + 1,
                )[j] by {
                    assert(entry_views(es@)[j] == (es@[j].0@, es@[j].1@));
                    if j < i {
                        assert(es@[j] == pre[j]);
                        assert(entry_views(pre)[j] == (pre[j].0@, pre[j].1@));
                        assert(entry_views(pre)[j] == self@.subrange(0, i as int)[j]);
                    } else {
                        assert(es@[j].0@ == kview);
                        assert(es@[j].1@ == vview);
                    }
                }
                assert(entry_views(es@) =~= self@.subrange(0, i + 1));
            }
            i += 1;
        }
        proof {
            assert(entry_views(es@) =~= self@);
        }
        Point { entries: es }
    }

    /// A borrow of the name of the field at a position.
    pub fn key_ref(&self, i: usize) -> (r: &String)
        requires
            i < self@.len(),
        ensures
            r@ == self@[i as int].0,
    {
        &self.entries[i].0
    }

    /// A borrow of the value of the field at a position.
    pub fn value_ref(&self, i: usize) -> (r: &Value)
        requires
            i < self@.len(),
        ensures
            r@ == self@[i as int].1,
    {
        &self.entries[i].1
    }

    /// The name of the field at a position, as a fresh `String`.
    fn key_at(&self, i: usize) -> (r: String)
        requires
            i < self@.len(),
        ensures
            r@ == self@[i as int].0,
    {
        self.entries[i].0.clone()
    }

    /// The value of the field at a position, as a fresh `Value`.
    fn value_at(&self, i: usize) -> (r: Value)
        requires
            i < self@.len(),
        ensures
            r@ == self@[i as int].1,
    {
        self.entries[i].1.duplicate()
    }
}

/// Produces the point holding every field of `defaults`, with every field of
/// `over` added, `over` winning where both carry the same name. Neither
/// input is changed.
pub fn merge(defaults: &Point, over: &Point) -> (r: Point)
    ensures
        r.as_map() == defaults.as_map().union_prefer_right(over.as_map()),
{
    proof {
        use_type_invariant(defaults);
        use_type_invariant(over);
    }
    let mut r = defaults.duplicate();
    let n = over.len();
    let mut i: usize = 0;
    proof {
        assert(map_of(over@.subrange(0, 0)) =~= Map::<Seq<char>, ValueView>::empty());
        assert(r.as_map() =~= defaults.as_map().union_prefer_right(map_of(over@.subrange(0, 0))));
    }
    while i < n
        invariant
            i <= n,
            n == over@.len(),
            r.as_map() == defaults.as_map().union_prefer_right(map_of(over@.subrange(0, i as int))),
        decreases n - i,
    {
        let key = over.key_at(i);
        let value = over.value_at(i);
        r.insert(key, value);
        proof {
            assert(over@.subrange(0, i + 1).drop_last() =~= over@.subrange(0, i as int));
            assert(over@.subrange(0, i + 1).last() == over@[i as int]);
            assert(r.as_map() =~= defaults.as_map().union_prefer_right(
                map_of(over@.subrange(0, i + 1)),
            ));
        }
        i += 1;
    }
    proof {
        assert(over@.subrange(0, n as int) =~= over@);
    }
    r
}

/// Inserts into a sorted field list, keeping it sorted, working from the
/// high end so the change mirrors how [`map_of`] reads the list.
fn insert_sorted(es: Vec<(String, Value)>, key: String, value: Value) -> (r: Vec<(String, Value)>)
    requires
        wf_entries(entry_views(es@)),
    ensures
        wf_entries(entry_views(r@)),
        map_of(entry_views(r@)) == map_of(entry_views(es@)).insert(key@, value@),
    decreases es@.len(),
{
    let ghost v0 = entry_views(es@);
    let mut es = es;
    let last = es.pop();
    match last {
        None => {
            es.push((key, value));
            proof {
                assert(v0.len() == 0);
                let w = entry_views(es@);
                assert(w =~= seq![(key@, value@)]);
                assert(w.drop_last() =~= v0);
                assert(map_of(w) == map_of(v0).insert(key@, value@));
            }
            es
        },
        Some(e) => {
            let ghost dl = entry_views(es@);
            proof {
                assert(dl =~= v0.drop_last());
                assert(v0.last() == (e.0@, e.1@));
                lemma_wf_drop_last(v0);
            }
            let ord = key_order(e.0.as_str(), key.as_str());
            match ord {
                KeyOrder::Before => {
                    // The tail name comes before the new one: the new field
                    // belongs at the end.
                    es.push(e);
                    es.push((key, value));
                    proof {
                        let w = entry_views(es@);
                        assert(w =~= v0.push((key@, value@)));
                        assert(w.drop_last() =~= v0);
                        assert(w.last() == (key@, value@));
                        assert(map_of(w) == map_of(v0).insert(key@, value@));
                        assert forall|p: int, q: int| 0 <= p < q < w.len() implies chars_lt(
                            (#[trigger] w[p]).0,
                            (#[trigger] w[q]).0,
                        ) by {
                            if q < v0.len() {
                                assert(w[p] == v0[p]);
                                assert(w[q] == v0[q]);
                            } else {
                                assert(w[q].0 == key@);
                                assert(w[p] == v0[p]);
                                if p < v0.len() - 1 {
                                    assert(chars_lt(v0[p].0, v0.last().0));
                                    lemma_chars_lt_trans(v0[p].0, v0.last().0, key@);
                                } else {
                                    assert(v0[p].0 == e.0@);
                                }
                            }
                        }
                    }
                    es
                },
                KeyOrder::Same => {
                    // Same name: the new value replaces the old one.
                    es.push((key, value));
                    proof {
                        let w = entry_views(es@);
                        assert(w =~= dl.push((key@, value@)));
                        assert(w.drop_last() =~= dl);
                        assert(w.last() == (key@, value@));
                        assert(map_of(w) == map_of(dl).insert(key@, value@));
                        assert(map_of(v0) == map_of(dl).insert(e.0@, e.1@));
                        assert(e.0@ == key@);
                        assert(map_of(w) =~= map_of(v0).insert(key@, value@));
                        assert forall|p: int, q: int| 0 <= p < q < w.len() implies chars_lt(
                            (#[trigger] w[p]).0,
                            (#[trigger] w[q]).0,
                        ) by {
                            assert(w[p] == v0[p]);
                            if q < w.len() - 1 {
                                assert(w[q] == v0[q]);
                            } else {
                                assert(w[q].0 == key@);
                                assert(chars_lt(v0[p].0, v0.last().0));
                            }
                        }
                    }
                    es
                },
                KeyOrder::After => {
                    // The tail name comes after the new one: place the new
                    // field within the front part, then put the tail back.
                    let mut es = insert_sorted(es, key, value);
                    let ghost mid = entry_views(es@);
                    es.push(e);
                    proof {
                        let w = entry_views(es@);
                        assert(w =~= mid.push((e.0@, e.1@)));
                        assert(w.drop_last() =~= mid);
                        assert(w.last() == (e.0@, e.1@));
                        assert(map_of(w) == map_of(mid).insert(e.0@, e.1@));
                        assert(map_of(mid) == map_of(dl).insert(key@, value@));
                        assert(map_of(v0) == map_of(dl).insert(e.0@, e.1@));
                        lemma_chars_lt_trichotomy(key@, e.0@);
                        assert(key@ != e.0@);
                        assert(map_of(w) =~= map_of(v0).insert(key@, value@));
                        assert forall|p: int, q: int| 0 <= p < q < w.len() implies chars_lt(
                            (#[trigger] w[p]).0,
                            (#[trigger] w[q]).0,
                        ) by {
                            if q < w.len() - 1 {
                                assert(w[p] == mid[p]);
                                assert(w[q] == mid[q]);
                            } else {
                                assert(w[q].0 == e.0@);
                                assert(w[p] == mid[p]);
                                if mid[p].0 == key@ {
                                    assert(chars_lt(key@, e.0@));
                                } else {
                                    lemma_map_of_index(mid, p);
                                    assert(map_of(dl).dom().contains(mid[p].0));
                                    lemma_map_of_contains(dl, mid[p].0);
                                    let i = choose|i: int|
                                        0 <= i < dl.len() && dl[i].0 == mid[p].0;
                                    assert(v0[i] == dl[i]);
                                    assert(chars_lt(v0[i].0, v0.last().0));
                                }
                            }
                        }
                    }
                    es
                },
            }
        },
    }
}

/// Removes a name from a sorted field list, keeping it sorted.
fn remove_sorted(es: Vec<(String, Value)>, key: &str) -> (r: (Vec<(String, Value)>, Option<Value>))
    requires
        wf_entries(entry_views(es@)),
    ensures
        wf_entries(entry_views(r.0@)),
        map_of(entry_views(r.0@)) == map_of(entry_views(es@)).remove(key@),
        match r.1 {
            Some(v) => map_of(entry_views(es@)).dom().contains(key@) && v@ == map_of(
                entry_views(es@),
            )[key@],
            None => !map_of(entry_views(es@)).dom().contains(key@),
        },
    decreases es@.len(),
{
    let ghost v0 = entry_views(es@);
    let mut es = es;
    let last = es.pop();
    match last {
        None => {
            proof {
                assert(v0.len() == 0);
                lemma_map_of_contains(v0, key@);
                assert(map_of(entry_views(es@)) =~= map_of(v0).remove(key@));
            }
            (es, None)
        },
        Some(e) => {
            let ghost dl = entry_views(es@);
            proof {
                assert(dl =~= v0.drop_last());
                assert(v0.last() == (e.0@, e.1@));
                lemma_wf_drop_last(v0);
                lemma_map_of_drop_last(v0);
            }
            let ord = key_order(e.0.as_str(), key);
            match ord {
                KeyOrder::Same => {
                    proof {
                        lemma_map_of_index(v0, v0.len() - 1);
                        assert(e.0@ == key@);
                        assert(map_of(dl) =~= map_of(v0).remove(key@));
                    }
                    (es, Some(e.1))
                },
                KeyOrder::Before => {
                    // The tail name comes before the sought one, which
                    // therefore comes after every name in the list: absent.
                    es.push(e);
                    proof {
                        let w = entry_views(es@);
                        assert(w =~= v0);
                        lemma_map_of_contains(v0, key@);
                        if map_of(v0).dom().contains(key@) {
                            let i = choose|i: int| 0 <= i < v0.len() && v0[i].0 == key@;
                            if i < v0.len() - 1 {
                                assert(chars_lt(v0[i].0, v0.last().0));
                                lemma_chars_lt_trans(key@, e.0@, key@);
                                lemma_chars_lt_trichotomy(key@, key@);
                            } else {
                                assert(v0[i].0 == e.0@);
                                lemma_chars_lt_trichotomy(e.0@, key@);
                            }
                            assert(false);
                        }
                        assert(map_of(w) =~= map_of(v0).remove(key@));
                    }
                    (es, None)
                },
                KeyOrder::After => {
                    let (front, r) = remove_sorted(es, key);
                    let mut es = front;
                    let ghost mid = entry_views(es@);
                    es.push(e);
                    proof {
                        let w = entry_views(es@);
                        assert(w =~= mid.push((e.0@, e.1@)));
                        assert(w.drop_last() =~= mid);
                        assert(w.last() == (e.0@, e.1@));
                        assert(map_of(w) == map_of(mid).insert(e.0@, e.1@));
                        assert(map_of(mid) == map_of(dl).remove(key@));
                        assert(map_of(v0) == map_of(dl).insert(e.0@, e.1@));
                        lemma_chars_lt_trichotomy(key@, e.0@);
                        assert(key@ != e.0@);
                        assert(map_of(w) =~= map_of(v0).remove(key@));
                        assert(map_of(v0).dom().contains(key@) == map_of(dl).dom().contains(key@));
                        if map_of(dl).dom().contains(key@) {
                            assert(map_of(v0)[key@] == map_of(dl)[key@]);
                        }
                        assert forall|p: int, q: int| 0 <= p < q < w.len() implies chars_lt(
                            (#[trigger] w[p]).0,
                            (#[trigger] w[q]).0,
                        ) by {
                            if q < w.len() - 1 {
                                assert(w[p] == mid[p]);
                                assert(w[q] == mid[q]);
                            } else {
                                assert(w[q].0 == e.0@);
                                assert(w[p] == mid[p]);
                                lemma_map_of_index(mid, p);
                                assert(map_of(dl).dom().contains(mid[p].0));
                                lemma_map_of_contains(dl, mid[p].0);
                                let i = choose|i: int| 0 <= i < dl.len() && dl[i].0 == mid[p].0;
                                assert(v0[i] == dl[i]);
                                assert(chars_lt(v0[i].0, v0.last().0));
                            }
                        }
                    }
                    (es, r)
                },
            }
        },
    }
}

} // verus!
