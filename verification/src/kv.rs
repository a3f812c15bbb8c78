//! A key-value table keyed by byte strings, the shape in which the contract
//! keeps each of its storage maps.

use vstd::prelude::*;

verus! {

/// Byte strings in lexicographic order (as slices and strings compare): the
/// first differing byte decides, and a proper prefix comes first.
pub open spec fn bytes_lt(a: Seq<u8>, b: Seq<u8>) -> bool
    decreases a.len(),
{
    if a.len() == 0 {
        b.len() > 0
    } else if b.len() == 0 {
        false
    } else if a[0] != b[0] {
        a[0] < b[0]
    } else {
        bytes_lt(a.drop_first(), b.drop_first())
    }
}

proof fn lemma_bytes_lt_skip(a: Seq<u8>, b: Seq<u8>, i: int)
    requires
        0 <= i < a.len(),
        i < b.len(),
        a[i] == b[i],
    ensures
        bytes_lt(a.skip(i), b.skip(i)) == bytes_lt(a.skip(i + 1), b.skip(i + 1)),
{
    assert(a.skip(i).drop_first() =~= a.skip(i + 1));
    assert(b.skip(i).drop_first() =~= b.skip(i + 1));
}

/// Of two different byte strings exactly one comes first.
pub proof fn lemma_bytes_lt_total(a: Seq<u8>, b: Seq<u8>)
    ensures
        !(bytes_lt(a, b) && bytes_lt(b, a)),
        a != b ==> bytes_lt(a, b) || bytes_lt(b, a),
    decreases a.len(),
{
    if a.len() > 0 && b.len() > 0 && a[0] == b[0] {
        lemma_bytes_lt_total(a.drop_first(), b.drop_first());
        if a != b {
            assert(a =~= seq![a[0]] + a.drop_first());
            assert(b =~= seq![b[0]] + b.drop_first());
        }
    } else if a.len() == 0 && b.len() == 0 {
        assert(a =~= b);
    }
}

/// Whether `a` comes before `b` in lexicographic byte order.
pub fn bytes_less(a: &[u8], b: &[u8]) -> (r: bool)
    ensures
        r == bytes_lt(a@, b@),
{
    let mut i: usize = 0;
    assert(a@.skip(0) =~= a@);
    assert(b@.skip(0) =~= b@);
    while i < a.len() && i < b.len()
        invariant
            i <= a@.len(),
            i <= b@.len(),
            bytes_lt(a@, b@) == bytes_lt(a@.skip(i as int), b@.skip(i as int)),
        decreases a@.len() - i,
    {
        if a[i] != b[i] {
            return a[i] < b[i];
        }
        proof {
            lemma_bytes_lt_skip(a@, b@, i as int);
        }
        i = i + 1;
    }
    i == a.len() && i < b.len()
}

/// No byte string comes before itself.
pub proof fn lemma_bytes_lt_irreflexive(a: Seq<u8>)
    ensures
        !bytes_lt(a, a),
    decreases a.len(),
{
    if a.len() > 0 {
        lemma_bytes_lt_irreflexive(a.drop_first());
    }
}

/// Byte order is transitive.
pub proof fn lemma_bytes_lt_trans(a: Seq<u8>, b: Seq<u8>, c: Seq<u8>)
    requires
        bytes_lt(a, b),
        bytes_lt(b, c),
    ensures
        bytes_lt(a, c),
    decreases a.len(),
{
    if a.len() > 0 && b.len() > 0 && c.len() > 0 && a[0] == b[0] && b[0] == c[0] {
        lemma_bytes_lt_trans(a.drop_first(), b.drop_first(), c.drop_first());
    }
}

/// Compares two byte strings.
pub fn bytes_eq(a: &[u8], b: &[u8]) -> (r: bool)
    ensures
        r == (a@ == b@),
{
    if a.len() != b.len() {
        return false;
    }
    let mut i: usize = 0;
    while i < a.len()
        invariant
            a@.len() == b@.len(),
            i <= a@.len(),
            forall|j: int| 0 <= j < i ==> a@[j] == b@[j],
        decreases a@.len() - i,
    {
        if a[i] != b[i] {
            return false;
        }
        i = i + 1;
    }
    assert(a@ =~= b@);
    true
}

/// A map from byte strings to values, kept as a list of distinct keys.
pub struct ByteMap<V> {
    entries: Vec<(Vec<u8>, V)>,
}

impl<V> ByteMap<V> {
    /// Well-formedness: no key occurs twice.
    pub closed spec fn wf(self) -> bool {
        forall|i: int, j: int|
            0 <= i < self.entries@.len() && 0 <= j < self.entries@.len() && i != j
                ==> #[trigger] self.entries@[i].0@ != #[trigger] self.entries@[j].0@
    }

    closed spec fn has_at(self, k: Seq<u8>, i: int) -> bool {
        0 <= i < self.entries@.len() && self.entries@[i].0@ == k
    }

    /// The table as a mathematical map.
    pub closed spec fn view(&self) -> Map<Seq<u8>, V> {
        Map::new(
            |k: Seq<u8>| exists|i: int| self.has_at(k, i),
            |k: Seq<u8>| self.entries@[choose|i: int| self.has_at(k, i)].1,
        )
    }

    proof fn lemma_view_at(&self, i: int)
        requires
            self.wf(),
            0 <= i < self.entries@.len(),
        ensures
            self.view().contains_key(self.entries@[i].0@),
            self.view()[self.entries@[i].0@] == self.entries@[i].1,
    {
        let k = self.entries@[i].0@;
        assert(self.has_at(k, i));
        let c = choose|j: int| self.has_at(k, j);
        assert(self.has_at(k, c));
        assert(c == i);
    }

    /// An empty table.
    pub fn new() -> (m: Self)
        ensures
            m.wf(),
            m@ == Map::<Seq<u8>, V>::empty(),
    {
        let m = ByteMap { entries: Vec::new() };
        assert(m@ =~= Map::<Seq<u8>, V>::empty());
        m
    }

    fn find(&self, key: &[u8]) -> (r: Option<usize>)
        ensures
            match r {
                Some(i) => self.has_at(key@, i as int),
                None => !self@.contains_key(key@),
            },
    {
        let mut i: usize = 0;
        while i < self.entries.len()
            invariant
                i <= self.entries@.len(),
                forall|j: int| 0 <= j < i ==> self.entries@[j].0@ != key@,
            decreases self.entries@.len() - i,
        {
            if bytes_eq(self.entries[i].0.as_slice(), key) {
                return Some(i);
            }
            i = i + 1;
        }
        None
    }

    /// Whether the table holds `key`.
    pub fn contains(&self, key: &[u8]) -> (r: bool)
        ensures
            r == self@.contains_key(key@),
    {
        match self.find(key) {
            Some(i) => {
                proof {
                    assert(self.has_at(key@, i as int));
                }
                true
            },
            None => false,
        }
    }

    /// The value under `key`, if any.
    pub fn get(&self, key: &[u8]) -> (r: Option<&V>)
        requires
            self.wf(),
        ensures
            r == (if self@.contains_key(key@) {
                Some(&self@[key@])
            } else {
                None::<&V>
            }),
    {
        match self.find(key) {
            Some(i) => {
                proof {
                    self.lemma_view_at(i as int);
                }
                Some(&self.entries[i].1)
            },
            None => None,
        }
    }

    /// Stores `value` under `key`, replacing what was there.
    pub fn insert(&mut self, key: Vec<u8>, value: V)
        requires
            old(self).wf(),
        ensures
            final(self).wf(),
            final(self)@ == old(self)@.insert(key@, value),
    {
        let ghost k = key@;
        let ghost old_entries = self.entries@;
        match self.find(key.as_slice()) {
            Some(i) => {
                self.entries.set(i, (key, value));
                proof {
                    assert forall|j: int| 0 <= j < old_entries.len() && j != i implies
                        old_entries[j].0@ != k by {
                        assert(old_entries[i as int].0@ == k);
                    }
                }
            },
            None => {
                self.entries.push((key, value));
                proof {
                    assert forall|j: int| 0 <= j < old_entries.len() implies
                        old_entries[j].0@ != k by {
                        if old_entries[j].0@ == k {
                            assert(old(self).has_at(k, j));
                        }
                    }
                }
            },
        }
        proof {
            assert(self.wf()) by {
                assert forall|a: int, b: int|
                    0 <= a < self.entries@.len() && 0 <= b < self.entries@.len() && a != b
                        implies #[trigger] self.entries@[a].0@ != #[trigger] self.entries@[b].0@ by {
                    if a < old_entries.len() && b < old_entries.len() {
                        if self.entries@.len() == old_entries.len() {
                            if a != b && a != self.entries@.len() && b != self.entries@.len() {
                                assert(old_entries[a].0@ != old_entries[b].0@ || a == b);
                            }
                        }
                    }
                }
            }
            let new_map = self@;
            let expect = old(self)@.insert(k, value);
            assert forall|kk: Seq<u8>| #[trigger] new_map.contains_key(kk) == expect.contains_key(kk)
                by {
                if new_map.contains_key(kk) {
                    let c = choose|j: int| self.has_at(kk, j);
                    if kk != k {
                        assert(old(self).has_at(kk, c));
                    }
                }
                if expect.contains_key(kk) && kk != k {
                    let c = choose|j: int| old(self).has_at(kk, j);
                    assert(self.has_at(kk, c));
                }
                if kk == k {
                    let j = (self.entries@.len() - 1) as int;
                    if self.entries@.len() == old_entries.len() + 1 {
                        assert(self.has_at(k, j));
                    } else {
                        let c = choose|j: int| old(self).has_at(k, j);
                        assert(self.has_at(k, c));
                    }
                }
            }
            assert forall|kk: Seq<u8>| #[trigger] new_map.contains_key(kk) implies new_map[kk]
                == expect[kk] by {
                let c = choose|j: int| self.has_at(kk, j);
                self.lemma_view_at(c);
                if kk != k {
                    let d = choose|j: int| old(self).has_at(kk, j);
                    old(self).lemma_view_at(d);
                    assert(self.has_at(kk, d));
                }
            }
            assert(new_map =~= expect);
        }
    }

    /// Removes the entry under `key` and hands back its value, if any.
    pub fn remove(&mut self, key: &[u8]) -> (r: Option<V>)
        requires
            old(self).wf(),
        ensures
            final(self).wf(),
            final(self)@ == old(self)@.remove(key@),
            r == (if old(self)@.contains_key(key@) {
                Some(old(self)@[key@])
            } else {
                None::<V>
            }),
    {
        let ghost k = key@;
        match self.find(key) {
            Some(i) => {
                proof {
                    old(self).lemma_view_at(i as int);
                }
                let (_, v) = self.entries.swap_remove(i);
                proof {
                            let new_map = self@;
                    let expect = old(self)@.remove(k);
                    let oe = old(self).entries@;
                    let last = oe.len() - 1;
                    assert forall|kk: Seq<u8>| #[trigger] new_map.contains_key(kk)
                        == expect.contains_key(kk) by {
                        if new_map.contains_key(kk) {
                            let c = choose|j: int| self.has_at(kk, j);
                            if c == i {
                                assert(old(self).has_at(kk, last));
                                assert(last != i);
                            } else {
                                assert(old(self).has_at(kk, c));
                                assert(c != i);
                            }
                        }
                        if expect.contains_key(kk) {
                            let c = choose|j: int| old(self).has_at(kk, j);
                            assert(c != i);
                            if c == last {
                                assert(self.has_at(kk, i as int));
                            } else {
                                assert(self.has_at(kk, c));
                            }
                        }
                    }
                    assert forall|kk: Seq<u8>| #[trigger] new_map.contains_key(kk) implies new_map[kk]
                        == expect[kk] by {
                        let c = choose|j: int| self.has_at(kk, j);
                        self.lemma_view_at(c);
                        if c == i {
                            old(self).lemma_view_at(last);
                        } else {
                            old(self).lemma_view_at(c);
                        }
                    }
                    assert(new_map =~= expect);
                }
                Some(v)
            },
            None => {
                proof {
                    assert(self@ =~= old(self)@.remove(k));
                }
                None
            },
        }
    }
}

/// The bytes of an optional key.
pub open spec fn opt_view(o: Option<Vec<u8>>) -> Option<Seq<u8>> {
    match o {
        Some(s) => Some(s@),
        None => None,
    }
}

/// The start of a listing: past this key, or from the first key.
pub open spec fn past(start: Option<Seq<u8>>, k: Seq<u8>) -> bool {
    match start {
        Some(s) => bytes_lt(s, k),
        None => true,
    }
}

/// Whether `keys` lists, in increasing byte order, the first keys of `m`
/// past `start`: all of them, or the first `limit` ones.
pub open spec fn first_keys_past<V>(
    m: Map<Seq<u8>, V>,
    start: Option<Seq<u8>>,
    limit: nat,
    keys: Seq<Seq<u8>>,
) -> bool {
    &&& keys.len() <= limit
    &&& forall|i: int, j: int| 0 <= i < j < keys.len() ==> bytes_lt(keys[i], keys[j])
    &&& forall|i: int| 0 <= i < keys.len() ==> m.contains_key(keys[i]) && past(start, keys[i])
    &&& forall|k: Seq<u8>|
        m.contains_key(k) && past(start, k) && !keys.contains(k) ==> keys.len() == limit && (
        keys.len() == 0 || bytes_lt(keys.last(), k))
}

/// The key views of a list of keys.
pub open spec fn key_views(keys: Seq<Vec<u8>>) -> Seq<Seq<u8>> {
    keys.map_values(|k: Vec<u8>| k@)
}

/// A copy of a byte string.
pub fn copy_bytes(b: &[u8]) -> (r: Vec<u8>)
    ensures
        r@ == b@,
{
    let mut v: Vec<u8> = Vec::new();
    let mut i: usize = 0;
    while i < b.len()
        invariant
            i <= b@.len(),
            v@ == b@.subrange(0, i as int),
        decreases b@.len() - i,
    {
        v.push(b[i]);
        i = i + 1;
        assert(v@ =~= b@.subrange(0, i as int));
    }
    assert(b@.subrange(0, b@.len() as int) =~= b@);
    v
}

fn is_past(start: &Option<Vec<u8>>, k: &[u8]) -> (r: bool)
    ensures
        r == past(opt_view(*start), k@),
{
    match start {
        Some(s) => bytes_less(s.as_slice(), k),
        None => true,
    }
}

impl<V> ByteMap<V> {
    /// The index of the entry with the lowest key past `cursor`, if any.
    fn lowest_past(&self, cursor: &Option<Vec<u8>>) -> (r: Option<usize>)
        requires
            self.wf(),
        ensures
            ({
                let c = opt_view(*cursor);
                match r {
                    Some(b) => b < self.entries@.len() && self@.contains_key(self.entries@[b as int].0@)
                        && past(c, self.entries@[b as int].0@) && forall|k: Seq<u8>|
                        self@.contains_key(k) && past(c, k) ==> !bytes_lt(
                            k,
                            self.entries@[b as int].0@,
                        ),
                    None => forall|k: Seq<u8>| self@.contains_key(k) ==> !past(c, k),
                }
            }),
    {
        let ghost c = opt_view(*cursor);
        let mut best: Option<usize> = None;
        let mut i: usize = 0;
        while i < self.entries.len()
            invariant
                self.wf(),
                i <= self.entries@.len(),
                c == opt_view(*cursor),
                best matches Some(b) ==> b < i && past(c, self.entries@[b as int].0@),
                forall|j: int|
                    0 <= j < i && past(c, #[trigger] self.entries@[j].0@) ==> (best matches Some(b)
                        && !bytes_lt(self.entries@[j].0@, self.entries@[b as int].0@)),
            decreases self.entries@.len() - i,
        {
            let ghost prev = best;
            if is_past(cursor, self.entries[i].0.as_slice()) {
                let better = match best {
                    None => true,
                    Some(b) => bytes_less(self.entries[i].0.as_slice(), self.entries[b].0.as_slice()),
                };
                if better {
                    proof {
                        let ki = self.entries@[i as int].0@;
                        lemma_bytes_lt_irreflexive(ki);
                        assert forall|j: int|
                            0 <= j < i + 1 && past(c, #[trigger] self.entries@[j].0@) implies !bytes_lt(
                            self.entries@[j].0@,
                            ki,
                        ) by {
                            if j < i {
                                let b = prev.unwrap();
                                let kb = self.entries@[b as int].0@;
                                let kj = self.entries@[j].0@;
                                if bytes_lt(kj, ki) {
                                    lemma_bytes_lt_trans(kj, ki, kb);
                                }
                            }
                        }
                    }
                    best = Some(i);
                } else {
                    proof {
                        let b = best.unwrap();
                        let kb = self.entries@[b as int].0@;
                        let ki = self.entries@[i as int].0@;
                        assert(!bytes_lt(ki, kb));
                    }
                }
            }
            i = i + 1;
        }
        proof {
            match best {
                Some(b) => {
                    self.lemma_view_at(b as int);
                    assert forall|k: Seq<u8>| self@.contains_key(k) && past(c, k) implies !bytes_lt(
                        k,
                        self.entries@[b as int].0@,
                    ) by {
                        let j = choose|j: int| self.has_at(k, j);
                        assert(past(c, self.entries@[j].0@));
                    }
                },
                None => {
                    assert forall|k: Seq<u8>| self@.contains_key(k) implies !past(c, k) by {
                        let j = choose|j: int| self.has_at(k, j);
                        if past(c, k) {
                            assert(past(c, self.entries@[j].0@));
                        }
                    }
                },
            }
        }
        best
    }

    /// The keys past `start` (all keys when there is none), in increasing
    /// byte order, at most `limit` of them.
    pub fn keys_past(&self, start: Option<Vec<u8>>, limit: usize) -> (r: Vec<Vec<u8>>)
        requires
            self.wf(),
        ensures
            first_keys_past(
                self@,
                opt_view(start),
                limit as nat,
                key_views(r@),
            ),
    {
        let ghost st = opt_view(start);
        let mut out: Vec<Vec<u8>> = Vec::new();
        let mut cursor = start;
        while out.len() < limit
            invariant_except_break
                out@.len() <= limit,
            invariant
                self.wf(),
                first_keys_past(self@, st, out@.len() as nat, key_views(out@)),
                opt_view(cursor) == if out@.len() == 0 {
                    st
                } else {
                    Some(key_views(out@).last())
                },
                forall|k: Seq<u8>|
                    self@.contains_key(k) && past(st, k) && !key_views(out@).contains(k) ==> (
                    out@.len() == 0 || bytes_lt(key_views(out@).last(), k)),
            ensures
                out@.len() <= limit,
                first_keys_past(self@, st, out@.len() as nat, key_views(out@)),
                out@.len() < limit ==> forall|k: Seq<u8>|
                    self@.contains_key(k) && past(st, k) ==> key_views(out@).contains(k),
            decreases limit - out@.len(),
        {
            let ghost before = key_views(out@);
            let ghost c = opt_view(cursor);
            match self.lowest_past(&cursor) {
                None => {
                    proof {
                        assert forall|k: Seq<u8>| self@.contains_key(k) && past(st, k) implies before.contains(
                            k,
                        ) by {
                            if !before.contains(k) {
                                assert(!past(c, k));
                            }
                        }
                    }
                    break;
                },
                Some(b) => {
                    let key = copy_bytes(self.entries[b].0.as_slice());
                    let ghost kb = key@;
                    out.push(copy_bytes(key.as_slice()));
                    proof {
                        let after = key_views(out@);
                        assert(after =~= before.push(kb));
                        // the new key comes after every listed one, and past the start
                        if before.len() > 0 {
                            assert forall|i: int| 0 <= i < before.len() implies bytes_lt(
                                before[i],
                                kb,
                            ) by {
                                if i < before.len() - 1 {
                                    lemma_bytes_lt_trans(before[i], before.last(), kb);
                                }
                            }
                            match st {
                                Some(s0) => {
                                    lemma_bytes_lt_trans(s0, before.last(), kb);
                                },
                                None => {},
                            }
                        }
                        assert forall|i: int, j: int| 0 <= i < j < after.len() implies bytes_lt(
                            after[i],
                            after[j],
                        ) by {
                            if j == after.len() - 1 {
                                assert(after[i] == before[i]);
                            } else {
                                assert(after[i] == before[i] && after[j] == before[j]);
                            }
                        }
                        assert forall|i: int| 0 <= i < after.len() implies self@.contains_key(
                            after[i],
                        ) && past(st, after[i]) by {
                            if i < before.len() {
                                assert(after[i] == before[i]);
                            }
                        }
                        assert forall|k: Seq<u8>|
                            self@.contains_key(k) && past(st, k) && !after.contains(k) implies bytes_lt(
                            after.last(),
                            k,
                        ) by {
                            assert(!before.contains(k)) by {
                                if before.contains(k) {
                                    let i = choose|i: int| 0 <= i < before.len() && before[i] == k;
                                    assert(after[i] == k);
                                }
                            }
                            assert(k != kb) by {
                                assert(after[after.len() - 1] == kb);
                            }
                            assert(past(c, k));
                            lemma_bytes_lt_total(k, kb);
                        }
                        assert forall|k: Seq<u8>|
                            self@.contains_key(k) && past(st, k) && !after.contains(k) implies after.len()
                            == after.len() && (after.len() == 0 || bytes_lt(after.last(), k)) by {}
                    }
                    cursor = Some(key);
                },
            }
        }
        proof {
            let keys = key_views(out@);
            if out@.len() < limit {
                assert forall|k: Seq<u8>|
                    self@.contains_key(k) && past(st, k) && !keys.contains(k) implies keys.len() == limit
                    && (keys.len() == 0 || bytes_lt(keys.last(), k)) by {}
            }
        }
        out
    }
}

/// The number of entries among the first `n` whose key is past `cursor`.
spec fn count_past_prefix<V>(entries: Seq<(Vec<u8>, V)>, cursor: Option<Seq<u8>>, n: int) -> nat
    decreases n,
{
    if n <= 0 {
        0
    } else {
        count_past_prefix(entries, cursor, n - 1) + if past(cursor, entries[n - 1].0@) {
            1nat
        } else {
            0nat
        }
    }
}

proof fn lemma_count_past_prefix_shrinks<V>(
    entries: Seq<(Vec<u8>, V)>,
    cursor: Option<Seq<u8>>,
    k: Seq<u8>,
    i: int,
    n: int,
)
    requires
        past(cursor, k),
        0 <= i < entries.len(),
        entries[i].0@ == k,
        0 <= n <= entries.len(),
    ensures
        count_past_prefix(entries, Some(k), n) <= count_past_prefix(entries, cursor, n),
        n > i ==> count_past_prefix(entries, Some(k), n) < count_past_prefix(entries, cursor, n),
    decreases n,
{
    if n > 0 {
        lemma_count_past_prefix_shrinks(entries, cursor, k, i, n - 1);
        let e = entries[n - 1].0@;
        if past(Some(k), e) {
            match cursor {
                Some(c) => lemma_bytes_lt_trans(c, k, e),
                None => {},
            }
        }
        if n - 1 == i {
            lemma_bytes_lt_irreflexive(k);
        }
    }
}

impl<V> ByteMap<V> {
    /// How many keys are past `cursor`: a measure that moving the cursor to
    /// one of them makes smaller.
    pub closed spec fn count_past(self, cursor: Option<Seq<u8>>) -> nat {
        count_past_prefix(self.entries@, cursor, self.entries@.len() as int)
    }

    /// Moving the cursor to a key past it leaves fewer keys past it.
    pub proof fn lemma_count_past_decreases(self, cursor: Option<Seq<u8>>, k: Seq<u8>)
        requires
            self@.contains_key(k),
            past(cursor, k),
        ensures
            self.count_past(Some(k)) < self.count_past(cursor),
    {
        let i = choose|i: int| self.has_at(k, i);
        lemma_count_past_prefix_shrinks(self.entries@, cursor, k, i, self.entries@.len() as int);
    }
}

} // verus!
