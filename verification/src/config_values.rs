//! Configuration values: text values under text keys, kept in key order.

use vstd::prelude::*;

verus! {

// ─── Key order ───────────────────────────────────────────────────

/// Byte-wise lexicographic order.
pub open spec fn precedes(a: Seq<u8>, b: Seq<u8>) -> bool
    decreases a.len(),
{
    if b.len() == 0 {
        false
    } else if a.len() == 0 {
        true
    } else if a[0] != b[0] {
        a[0] < b[0]
    } else {
        precedes(a.drop_first(), b.drop_first())
    }
}

/// The order of keys: that of their utf-8 bytes.
pub open spec fn key_precedes(a: Seq<char>, b: Seq<char>) -> bool {
    precedes(vstd::utf8::encode_utf8(a), vstd::utf8::encode_utf8(b))
}

/// Whether key `a` comes before key `b`.
fn comes_before(a: &str, b: &str) -> (less: bool)
    ensures
        less == key_precedes(a@, b@),
{
    let x = a.as_bytes();
    let y = b.as_bytes();
    let mut i: usize = 0;
    assert(x@.skip(0) =~= x@);
    assert(y@.skip(0) =~= y@);
    while i < x.len() && i < y.len()
        invariant
            x@ == vstd::utf8::encode_utf8(a@),
            y@ == vstd::utf8::encode_utf8(b@),
            i <= x@.len(),
            i <= y@.len(),
            precedes(x@, y@) == precedes(x@.skip(i as int), y@.skip(i as int)),
        decreases x.len() - i,
    {
        if x[i] != y[i] {
            return x[i] < y[i];
        }
        assert(x@.skip(i as int).drop_first() =~= x@.skip(i + 1));
        assert(y@.skip(i as int).drop_first() =~= y@.skip(i + 1));
        i += 1;
    }
    i < y.len()
}

/// No two byte strings precede each other, and of two that differ one precedes
/// the other.
proof fn lemma_precedes_total(a: Seq<u8>, b: Seq<u8>)
    ensures
        !(precedes(a, b) && precedes(b, a)),
        precedes(a, b) || precedes(b, a) || a == b,
    decreases a.len(),
{
    if a.len() > 0 && b.len() > 0 && a[0] == b[0] {
        lemma_precedes_total(a.drop_first(), b.drop_first());
        if a.drop_first() == b.drop_first() {
            assert(a =~= seq![a[0]] + a.drop_first());
            assert(b =~= seq![b[0]] + b.drop_first());
        }
    } else if a.len() == 0 && b.len() == 0 {
        assert(a =~= b);
    }
}

/// What precedes something precedes what comes after that.
proof fn lemma_precedes_transitive(a: Seq<u8>, b: Seq<u8>, c: Seq<u8>)
    requires
        precedes(a, b),
        precedes(b, c),
    ensures
        precedes(a, c),
    decreases a.len(),
{
    if a.len() > 0 && a[0] == b[0] && b[0] == c[0] {
        lemma_precedes_transitive(a.drop_first(), b.drop_first(), c.drop_first());
    }
}

proof fn lemma_keys_total(a: Seq<char>, b: Seq<char>)
    ensures
        !(key_precedes(a, b) && key_precedes(b, a)),
        key_precedes(a, b) || key_precedes(b, a) || a == b,
{
    lemma_precedes_total(vstd::utf8::encode_utf8(a), vstd::utf8::encode_utf8(b));
    vstd::utf8::encode_utf8_decode_utf8(a);
    vstd::utf8::encode_utf8_decode_utf8(b);
}

// ─── Entries ─────────────────────────────────────────────────────

/// Whether the keys strictly increase.
pub open spec fn key_ordered(entries: Seq<(Seq<char>, Seq<char>)>) -> bool {
    forall|i: int, j: int| #![trigger entries[i], entries[j]]
        0 <= i < j < entries.len() ==> key_precedes(entries[i].0, entries[j].0)
}

/// The value under each key; where a key comes up twice, the later one.
pub open spec fn as_map(entries: Seq<(Seq<char>, Seq<char>)>) -> Map<Seq<char>, Seq<char>>
    decreases entries.len(),
{
    if entries.len() == 0 {
        Map::empty()
    } else {
        as_map(entries.drop_last()).insert(entries.last().0, entries.last().1)
    }
}

/// Key-value pairs in key order, each key once.
pub struct ConfigValues {
    entries: Vec<(String, String)>,
}

impl View for ConfigValues {
    type V = Seq<(Seq<char>, Seq<char>)>;

    closed spec fn view(&self) -> Seq<(Seq<char>, Seq<char>)> {
        self.entries@.map_values(|entry: (String, String)| (entry.0@, entry.1@))
    }
}

impl ConfigValues {
    /// Whether the keys strictly increase.
    pub open spec fn wf(&self) -> bool {
        key_ordered(self@)
    }

    /// No values at all.
    pub fn new() -> (values: Self)
        ensures
            values@ == Seq::<(Seq<char>, Seq<char>)>::empty(),
            values.wf(),
    {
        let values = ConfigValues { entries: Vec::new() };
        assert(values@ =~= Seq::<(Seq<char>, Seq<char>)>::empty());
        values
    }

    /// Number of keys.
    pub fn len(&self) -> (n: usize)
        ensures
            n == self@.len(),
    {
        self.entries.len()
    }

    /// The key and the value at position `i`.
    pub fn entry(&self, i: usize) -> (entry: (&str, &str))
        requires
            i < self@.len(),
        ensures
            (entry.0@, entry.1@) == self@[i as int],
    {
        let (key, value) = &self.entries[i];
        (key.as_str(), value.as_str())
    }

    /// Puts `value` under `key`, in place of what was there.
    pub fn insert(&mut self, key: String, value: String)
        requires
            old(self).wf(),
        ensures
            final(self).wf(),
            as_map(final(self)@) == as_map(old(self)@).insert(key@, value@),
    {
        let ghost before = self@;
        let mut i: usize = 0;
        while i < self.entries.len() && comes_before(self.entries[i].0.as_str(), key.as_str())
            invariant
                i <= self@.len(),
                self@ == before,
                forall|k: int| #![trigger before[k]]
                    0 <= k < i ==> key_precedes(before[k].0, key@),
            decreases self.entries.len() - i,
        {
            assert(self@[i as int].0 == self.entries@[i as int].0@);
            i += 1;
        }
        let ghost added = (key@, value@);
        if i < self.entries.len() && self.entries[i].0 == key {
            self.entries[i] = (key, value);
            assert(self@ =~= before.update(i as int, added));
            proof {
                lemma_map_after(before, self@, i as int, added);
            }
        } else {
            proof {
                if i < before.len() {
                    assert(before[i as int].0 == self.entries@[i as int].0@);
                    lemma_keys_total(before[i as int].0, key@);
                }
                assert forall|k: int| #![trigger before[k]] i <= k
                    < before.len() implies key_precedes(key@, before[k].0) by {
                    if i < k {
                        lemma_precedes_transitive(
                            vstd::utf8::encode_utf8(key@),
                            vstd::utf8::encode_utf8(before[i as int].0),
                            vstd::utf8::encode_utf8(before[k].0),
                        );
                    }
                }
            }
            self.entries.insert(i, (key, value));
            assert(self@ =~= before.insert(i as int, added));
            proof {
                lemma_map_after(before, self@, i as int, added);
            }
        }
    }
}

/// The map of ordered entries holds each entry, and nothing else.
pub proof fn lemma_map_holds(entries: Seq<(Seq<char>, Seq<char>)>)
    requires
        key_ordered(entries),
    ensures
        forall|i: int| #![trigger entries[i]]
            0 <= i < entries.len() ==> as_map(entries).contains_key(entries[i].0)
                && as_map(entries)[entries[i].0] == entries[i].1,
        forall|key: Seq<char>| #[trigger]
            as_map(entries).contains_key(key) ==> exists|i: int|
                0 <= i < entries.len() && #[trigger] entries[i].0 == key,
    decreases entries.len(),
{
    if entries.len() > 0 {
        let init = entries.drop_last();
        let last = entries.len() - 1;
        lemma_map_holds(init);
        assert forall|i: int| #![trigger entries[i]] 0 <= i < entries.len() implies as_map(
            entries,
        ).contains_key(entries[i].0) && as_map(entries)[entries[i].0] == entries[i].1 by {
            if i < last {
                assert(init[i] == entries[i]);
                lemma_keys_total(entries[i].0, entries[last].0);
            }
        }
        assert forall|key: Seq<char>| #[trigger] as_map(entries).contains_key(key) implies exists|
            i: int,
        | 0 <= i < entries.len() && #[trigger] entries[i].0 == key by {
            if key == entries[last].0 {
                assert(entries[last].0 == key);
            } else {
                assert(as_map(init).contains_key(key));
                let i = choose|i: int| 0 <= i < init.len() && #[trigger] init[i].0 == key;
                assert(entries[i].0 == key);
            }
        }
    }
}

proof fn lemma_map_after(
    before: Seq<(Seq<char>, Seq<char>)>,
    after: Seq<(Seq<char>, Seq<char>)>,
    at: int,
    added: (Seq<char>, Seq<char>),
)
    requires
        key_ordered(before),
        ({
            ||| 0 <= at < before.len() && before[at].0 == added.0 && after == before.update(
                at,
                added,
            )
            ||| {
                &&& 0 <= at <= before.len()
                &&& after == before.insert(at, added)
                &&& forall|k: int| #![trigger before[k]]
                    0 <= k < at ==> key_precedes(before[k].0, added.0)
                &&& forall|k: int| #![trigger before[k]]
                    at <= k < before.len() ==> key_precedes(added.0, before[k].0)
            }
        }),
    ensures
        key_ordered(after),
        as_map(after) == as_map(before).insert(added.0, added.1),
{
    let replaced = after.len() == before.len();
    // Where an entry other than the added one stood before.
    let origin = |i: int|
        if replaced || i < at {
            i
        } else {
            i - 1
        };
    assert forall|i: int, j: int| #![trigger after[i], after[j]] 0 <= i < j
        < after.len() implies key_precedes(after[i].0, after[j].0) by {
        if i != at {
            assert(after[i] == before[origin(i)]);
        }
        if j != at {
            assert(after[j] == before[origin(j)]);
        }
    }
    lemma_map_holds(before);
    lemma_map_holds(after);
    assert(after[at] == added);
    let expected = as_map(before).insert(added.0, added.1);
    assert forall|key: Seq<char>| as_map(after).contains_key(key) == expected.contains_key(
        key,
    ) by {
        if as_map(after).contains_key(key) {
            let i = choose|i: int| 0 <= i < after.len() && #[trigger] after[i].0 == key;
            if i != at {
                assert(before[origin(i)] == after[i]);
            }
        }
        if expected.contains_key(key) && key != added.0 {
            let i = choose|i: int| 0 <= i < before.len() && #[trigger] before[i].0 == key;
            let now = if replaced || i < at {
                i
            } else {
                i + 1
            };
            assert(after[now] == before[i]);
        }
    }
    assert forall|key: Seq<char>| as_map(after).contains_key(key) implies as_map(after)[key]
        == expected[key] by {
        let i = choose|i: int| 0 <= i < after.len() && #[trigger] after[i].0 == key;
        if i != at {
            assert(before[origin(i)] == after[i]);
            if key == added.0 {
                lemma_keys_total(after[i].0, after[at].0);
            }
        }
    }
    assert(as_map(after) =~= expected);
}

/// Entries are determined by their map: the order in which keys were inserted
/// leaves no trace.
pub proof fn lemma_order_canonical(
    a: Seq<(Seq<char>, Seq<char>)>,
    b: Seq<(Seq<char>, Seq<char>)>,
)
    requires
        key_ordered(a),
        key_ordered(b),
        as_map(a) == as_map(b),
    ensures
        a == b,
    decreases a.len(),
{
    lemma_map_holds(a);
    lemma_map_holds(b);
    if a.len() == 0 {
        if b.len() > 0 {
            assert(as_map(b).contains_key(b[0].0));
        }
        assert(a =~= b);
    } else {
        let m = a.len() - 1;
        assert(as_map(b).contains_key(a[m].0));
        let n = b.len() - 1;
        assert(as_map(a).contains_key(b[n].0));
        // Each one's last key is in the other, so neither is beyond the other.
        let i = choose|i: int| 0 <= i < a.len() && #[trigger] a[i].0 == b[n].0;
        let j = choose|j: int| 0 <= j < b.len() && #[trigger] b[j].0 == a[m].0;
        assert(a[i].0 == b[n].0 && b[j].0 == a[m].0);
        lemma_keys_total(a[m].0, b[n].0);
        assert(a[m].0 == b[n].0);
        assert(a[m] == b[n]);
        let (c, d) = (a.drop_last(), b.drop_last());
        lemma_map_holds(c);
        lemma_map_holds(d);
        lemma_init_map(a);
        lemma_init_map(b);
        lemma_order_canonical(c, d);
        assert(a =~= c.push(a[m]));
        assert(b =~= d.push(b[n]));
    }
}

proof fn lemma_init_map(entries: Seq<(Seq<char>, Seq<char>)>)
    requires
        key_ordered(entries),
        entries.len() > 0,
    ensures
        key_ordered(entries.drop_last()),
        as_map(entries.drop_last()) == as_map(entries).remove(entries.last().0),
{
    let init = entries.drop_last();
    let last = entries.last();
    lemma_map_holds(init);
    if as_map(init).contains_key(last.0) {
        let i = choose|i: int| 0 <= i < init.len() && #[trigger] init[i].0 == last.0;
        lemma_keys_total(entries[i].0, entries[entries.len() - 1].0);
    }
    assert(as_map(init) =~= as_map(entries).remove(last.0));
}

/// Keys are ordered by the first byte in which they differ; one that ends there
/// comes first.
pub proof fn lemma_key_order(x: Seq<char>, y: Seq<char>, k: int)
    requires
        0 <= k <= vstd::utf8::encode_utf8(x).len(),
        k <= vstd::utf8::encode_utf8(y).len(),
        vstd::utf8::encode_utf8(x).take(k) == vstd::utf8::encode_utf8(y).take(k),
        k < vstd::utf8::encode_utf8(x).len() && k < vstd::utf8::encode_utf8(y).len()
            ==> vstd::utf8::encode_utf8(x)[k] != vstd::utf8::encode_utf8(y)[k],
    ensures
        key_precedes(x, y) <==> k < vstd::utf8::encode_utf8(y).len() && (k
            == vstd::utf8::encode_utf8(x).len() || vstd::utf8::encode_utf8(x)[k]
            < vstd::utf8::encode_utf8(y)[k]),
{
    lemma_first_difference(vstd::utf8::encode_utf8(x), vstd::utf8::encode_utf8(y), k);
}

proof fn lemma_first_difference(a: Seq<u8>, b: Seq<u8>, k: int)
    requires
        0 <= k <= a.len(),
        k <= b.len(),
        a.take(k) == b.take(k),
        k < a.len() && k < b.len() ==> a[k] != b[k],
    ensures
        precedes(a, b) <==> k < b.len() && (k == a.len() || a[k] < b[k]),
    decreases k,
{
    if k > 0 {
        assert(a.drop_first().take(k - 1) =~= a.take(k).drop_first());
        assert(b.drop_first().take(k - 1) =~= b.take(k).drop_first());
        lemma_first_difference(a.drop_first(), b.drop_first(), k - 1);
        assert(a[0] == a.take(k)[0] && b[0] == b.take(k)[0]);
        assert(k < a.len() ==> a.drop_first()[k - 1] == a[k]);
        assert(k < b.len() ==> b.drop_first()[k - 1] == b[k]);
    }
}

/// Ordered entries are in key order throughout, so no key comes up twice.
pub proof fn lemma_ordered(entries: Seq<(Seq<char>, Seq<char>)>, i: int, j: int)
    requires
        key_ordered(entries),
        0 <= i < j < entries.len(),
    ensures
        key_precedes(entries[i].0, entries[j].0),
        entries[i].0 != entries[j].0,
{
    lemma_keys_total(entries[i].0, entries[j].0);
}

/// Each key has the value of its last entry, and there are no other keys.
pub proof fn lemma_map_last(entries: Seq<(Seq<char>, Seq<char>)>, i: int, key: Seq<char>)
    ensures
        0 <= i < entries.len() && (forall|j: int| #![trigger entries[j]]
            i < j < entries.len() ==> entries[j].0 != entries[i].0) ==> as_map(
            entries,
        ).contains_key(entries[i].0) && as_map(entries)[entries[i].0] == entries[i].1,
        (forall|j: int| #![trigger entries[j]]
            0 <= j < entries.len() ==> entries[j].0 != key) ==> !as_map(entries).contains_key(key),
    decreases entries.len(),
{
    if entries.len() > 0 {
        let init = entries.drop_last();
        lemma_map_last(init, i, key);
        assert forall|j: int| #![trigger init[j]] 0 <= j < init.len() implies init[j]
            == entries[j] by {}
        if 0 <= i < init.len() && (forall|j: int| #![trigger entries[j]]
            i < j < entries.len() ==> entries[j].0 != entries[i].0) {
            assert(entries[entries.len() - 1].0 != entries[i].0);
            assert forall|j: int| #![trigger init[j]] i < j < init.len() implies init[j].0
                != init[i].0 by {
                assert(entries[j].0 != entries[i].0);
            }
        }
        if forall|j: int| #![trigger entries[j]]
            0 <= j < entries.len() ==> entries[j].0 != key {
            assert(entries[entries.len() - 1].0 != key);
            assert forall|j: int| #![trigger init[j]] 0 <= j < init.len() implies init[j].0
                != key by {
                assert(entries[j].0 != key);
            }
        }
    }
}

} // verus!
