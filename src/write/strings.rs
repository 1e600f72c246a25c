use vstd::prelude::*;
use vstd::utf8::encode_utf8;
use vstd::slice::slice_to_vec;

verus! {

/// Usage count given to the empty string at index 0.
pub const SENTINEL_USAGE: u32 = 0x7fff_ffff;

/// Most entries a table may hold, so that every index fits a PBF `int32` or
/// `uint32` field.
pub const MAX_STRINGS: usize = 0x7fff_ffff;

/// Byte-wise lexicographic order: `a` sorts strictly before `b`.
pub open spec fn bytes_lt(a: Seq<u8>, b: Seq<u8>) -> bool
    decreases a.len(),
{
    if a.len() == 0 {
        b.len() > 0
    } else if b.len() == 0 {
        false
    } else if a[0] != b[0] {
        a[0] < b[0]
    } else {
        bytes_lt(a.drop_first(), b.drop_first())
    }
}

/// The order of the final table: more uses first, then by bytes.
pub open spec fn ranks_before(ua: u32, a: Seq<u8>, ub: u32, b: Seq<u8>) -> bool {
    ua > ub || (ua == ub && bytes_lt(a, b))
}

/// A usage count after one more use; it stops at `u32::MAX`.
pub open spec fn bumped(u: u32) -> u32 {
    if u < u32::MAX {
        (u + 1) as u32
    } else {
        u
    }
}

proof fn lemma_bytes_lt_irreflexive(a: Seq<u8>)
    ensures
        !bytes_lt(a, a),
    decreases a.len(),
{
    if a.len() > 0 {
        lemma_bytes_lt_irreflexive(a.drop_first());
    }
}

proof fn lemma_bytes_lt_asymmetric(a: Seq<u8>, b: Seq<u8>)
    ensures
        !(bytes_lt(a, b) && bytes_lt(b, a)),
    decreases a.len(),
{
    if a.len() > 0 && b.len() > 0 && a[0] == b[0] {
        lemma_bytes_lt_asymmetric(a.drop_first(), b.drop_first());
    }
}

proof fn lemma_bytes_lt_total(a: Seq<u8>, b: Seq<u8>)
    requires
        a != b,
    ensures
        bytes_lt(a, b) || bytes_lt(b, a),
    decreases a.len(),
{
    if a.len() > 0 && b.len() > 0 && a[0] == b[0] {
        if a.drop_first() == b.drop_first() {
            assert(a =~= seq![a[0]] + a.drop_first());
            assert(b =~= seq![b[0]] + b.drop_first());
        }
        lemma_bytes_lt_total(a.drop_first(), b.drop_first());
    } else if a.len() == 0 && b.len() == 0 {
        assert(a =~= b);
    }
}

proof fn lemma_bytes_lt_transitive(a: Seq<u8>, b: Seq<u8>, c: Seq<u8>)
    requires
        bytes_lt(a, b),
        bytes_lt(b, c),
    ensures
        bytes_lt(a, c),
    decreases a.len(),
{
    if a.len() > 0 && b.len() > 0 && c.len() > 0 && a[0] == b[0] && b[0] == c[0] {
        lemma_bytes_lt_transitive(a.drop_first(), b.drop_first(), c.drop_first());
    }
}

/// Whether `a` sorts strictly before `b`, byte by byte.
pub fn bytes_less(a: &[u8], b: &[u8]) -> (r: bool)
    ensures
        r == bytes_lt(a@, b@),
{
    let mut i: usize = 0;
    assert(a@.skip(0) =~= a@ && b@.skip(0) =~= b@);
    while i < a.len() && i < b.len()
        invariant
            0 <= i <= a.len(),
            i <= b.len(),
            bytes_lt(a@.skip(i as int), b@.skip(i as int)) == bytes_lt(a@, b@),
        decreases a.len() - i,
    {
        if a[i] != b[i] {
            return a[i] < b[i];
        }
        assert(a@.skip(i as int).drop_first() =~= a@.skip(i + 1));
        assert(b@.skip(i as int).drop_first() =~= b@.skip(i + 1));
        i = i + 1;
    }
    i == a.len() && i < b.len()
}

/// Whether two byte strings are equal.
pub fn bytes_equal(a: &[u8], b: &[u8]) -> (r: bool)
    ensures
        r == (a@ == b@),
{
    if a.len() != b.len() {
        return false;
    }
    let mut i: usize = 0;
    while i < a.len()
        invariant
            0 <= i <= a.len(),
            a.len() == b.len(),
            a@.take(i as int) == b@.take(i as int),
        decreases a.len() - i,
    {
        if a[i] != b[i] {
            assert(a@[i as int] != b@[i as int]);
            return false;
        }
        i = i + 1;
        assert(a@.take(i as int) =~= a@.take(i - 1).push(a@[i - 1]));
        assert(b@.take(i as int) =~= b@.take(i - 1).push(b@[i - 1]));
    }
    assert(a@ =~= a@.take(i as int));
    assert(b@ =~= b@.take(i as int));
    true
}

/// Entries and usage counts of a table after adding `s`: index 0 is first
/// reserved for the empty string; a string already there counts one more use,
/// a new one is appended with one use.
pub open spec fn with_string(e: Seq<Seq<u8>>, u: Seq<u32>, s: Seq<u8>) -> (Seq<Seq<u8>>, Seq<u32>) {
    let e0 = if e.len() == 0 {
        seq![Seq::<u8>::empty()]
    } else {
        e
    };
    let u0 = if e.len() == 0 {
        seq![SENTINEL_USAGE]
    } else {
        u
    };
    if e0.contains(s) {
        let k = e0.index_of(s);
        (e0, u0.update(k, bumped(u0[k])))
    } else {
        (e0.push(s), u0.push(1))
    }
}

/// Entries and usage counts of a table after adding each string of `ss` in
/// turn.
pub open spec fn with_strings(e: Seq<Seq<u8>>, u: Seq<u32>, ss: Seq<Seq<u8>>) -> (
    Seq<Seq<u8>>,
    Seq<u32>,
)
    decreases ss.len(),
{
    if ss.len() == 0 {
        (e, u)
    } else {
        let prev = with_strings(e, u, ss.drop_last());
        with_string(prev.0, prev.1, ss.last())
    }
}

/// `t` stands somewhere in `s`.
pub open spec fn lists(s: Seq<usize>, t: int) -> bool {
    exists|k: int| 0 <= k < s.len() && s[k] == t
}

/// Bookkeeping of one entry of the table.
#[derive(Debug, Clone, Copy)]
pub struct StrInfo {
    /// The index that `add_string` returned for the entry; not its place in
    /// the final table.
    pub index: usize,
    /// How many times the entry has been added.
    pub usage: u32,
}

/// A deduplicating table of strings, from which a PBF string table is built.
///
/// Index 0 is reserved for the empty string from the first addition on.
#[derive(Debug, Clone)]
pub struct StringTableBuilder {
    strings: Vec<Vec<u8>>,
    infos: Vec<StrInfo>,
}

impl Default for StringTableBuilder {
    /// An empty table.
    fn default() -> (r: Self)
        ensures
            r.wf(),
            r.entries().len() == 0,
    {
        StringTableBuilder::new()
    }
}

impl StringTableBuilder {
    /// The entries, by the index that `add_string` returned.
    pub closed spec fn entries(&self) -> Seq<Seq<u8>> {
        self.strings@.map_values(|s: Vec<u8>| s@)
    }

    /// How many times each entry has been added.
    pub closed spec fn usages(&self) -> Seq<u32> {
        self.infos@.map_values(|i: StrInfo| i.usage)
    }

    pub closed spec fn wf(&self) -> bool {
        &&& self.strings@.len() == self.infos@.len()
        &&& self.strings@.len() <= MAX_STRINGS
        &&& forall|i: int| 0 <= i < self.infos@.len() ==> #[trigger] self.infos@[i].index == i
        &&& self.strings@.len() > 0 ==> self.strings@[0]@ == Seq::<u8>::empty()
        &&& forall|i: int, j: int|
            0 <= i < self.strings@.len() && 0 <= j < self.strings@.len() && i != j
                ==> #[trigger] self.strings@[i]@ != #[trigger] self.strings@[j]@
    }

    /// The entries once index 0 is reserved: what a first addition starts from.
    pub open spec fn seeded_entries(&self) -> Seq<Seq<u8>> {
        if self.entries().len() == 0 {
            seq![Seq::empty()]
        } else {
            self.entries()
        }
    }

    /// The usage counts once index 0 is reserved.
    pub open spec fn seeded_usages(&self) -> Seq<u32> {
        if self.entries().len() == 0 {
            seq![SENTINEL_USAGE]
        } else {
            self.usages()
        }
    }

    /// `table` and `map` are this table in final form: every entry stands at
    /// `map[t]`, `t` being the index that `add_string` returned for it; the
    /// empty string stays first; and the others are ordered by more uses
    /// first, then by bytes.
    pub open spec fn finalized_as(&self, table: Seq<Seq<u8>>, map: Seq<usize>) -> bool {
        let n = self.entries().len();
        &&& table.len() == n
        &&& map.len() == n
        &&& n > 0 ==> table[0] == Seq::<u8>::empty() && map[0] == 0
        &&& forall|t: int| 0 <= t < n ==> #[trigger] map[t] < n
        &&& forall|t: int| 0 <= t < n ==> #[trigger] table[map[t] as int] == self.entries()[t]
        &&& forall|t1: int, t2: int|
            0 <= t1 < n && 0 <= t2 < n && t1 != t2 ==> #[trigger] map[t1] != #[trigger] map[t2]
        &&& forall|t1: int, t2: int|
            1 <= t1 < n && 1 <= t2 < n ==> (#[trigger] map[t1] < #[trigger] map[t2]
                <==> self.orders_before(t1, t2))
    }

    /// The final table orders entry `a` strictly before entry `b`.
    pub open spec fn orders_before(&self, a: int, b: int) -> bool {
        ranks_before(self.usages()[a], self.entries()[a], self.usages()[b], self.entries()[b])
    }

    pub proof fn lemma_wf_facts(&self)
        requires
            self.wf(),
        ensures
            self.entries().len() == self.usages().len(),
            self.entries().len() <= MAX_STRINGS,
            self.entries().len() > 0 ==> self.entries()[0] == Seq::<u8>::empty(),
            forall|i: int, j: int|
                0 <= i < self.entries().len() && 0 <= j < self.entries().len() && i != j
                    ==> #[trigger] self.entries()[i] != #[trigger] self.entries()[j],
    {
        assert forall|i: int, j: int|
            0 <= i < self.entries().len() && 0 <= j < self.entries().len() && i
                != j implies #[trigger] self.entries()[i] != #[trigger] self.entries()[j] by {
            assert(self.strings@[i]@ != self.strings@[j]@);
        }
    }

    /// An empty table.
    pub fn new() -> (r: Self)
        ensures
            r.wf(),
            r.entries().len() == 0,
    {
        let r = StringTableBuilder { strings: Vec::new(), infos: Vec::new() };
        assert(r.entries() =~= Seq::<Seq<u8>>::empty());
        r
    }

    /// The number of entries, the reserved empty string included.
    pub fn len(&self) -> (r: usize)
        requires
            self.wf(),
        ensures
            r == self.entries().len(),
    {
        self.strings.len()
    }

    /// Adds a string and returns its index in this table. A string added
    /// before keeps its index and counts one more use; a new one takes the
    /// next index with one use. The first call reserves index 0 for the empty
    /// string.
    pub fn add_string(&mut self, value: String) -> (r: usize)
        requires
            old(self).wf(),
            old(self).entries().len() + 2 <= MAX_STRINGS,
        ensures
            final(self).wf(),
            r < final(self).entries().len(),
            final(self).entries()[r as int] == encode_utf8(value@),
            (final(self).entries(), final(self).usages()) == with_string(
                old(self).entries(),
                old(self).usages(),
                encode_utf8(value@),
            ),
            final(self).entries().len() <= old(self).entries().len() + 2,
            old(self).entries().len() <= final(self).entries().len(),
            forall|i: int|
                0 <= i < old(self).entries().len() ==> #[trigger] final(self).entries()[i]
                    == old(self).entries()[i],
            old(self).seeded_entries().contains(encode_utf8(value@)) ==> {
                &&& final(self).entries() == old(self).seeded_entries()
                &&& final(self).usages() == old(self).seeded_usages().update(
                    r as int,
                    bumped(old(self).seeded_usages()[r as int]),
                )
            },
            !old(self).seeded_entries().contains(encode_utf8(value@)) ==> {
                &&& r == old(self).seeded_entries().len()
                &&& final(self).entries() == old(self).seeded_entries().push(encode_utf8(value@))
                &&& final(self).usages() == old(self).seeded_usages().push(1)
            },
    {
        if self.strings.len() == 0 {
            self.strings.push(Vec::new());
            self.infos.push(StrInfo { index: 0, usage: SENTINEL_USAGE });
        }
        proof {
            assert(self.entries() =~= old(self).seeded_entries());
            assert(self.usages() =~= old(self).seeded_usages());
        }
        let bytes = slice_to_vec(value.as_str().as_bytes());
        let n = self.strings.len();
        let mut k: usize = 0;
        while k < n
            invariant
                self.wf(),
                n == self.strings@.len(),
                0 <= k <= n,
                self.entries() == old(self).seeded_entries(),
                self.usages() == old(self).seeded_usages(),
                bytes@ == encode_utf8(value@),
                forall|j: int| 0 <= j < k ==> self.strings@[j]@ != bytes@,
            decreases n - k,
        {
            if bytes_equal(self.strings[k].as_slice(), bytes.as_slice()) {
                let u = self.infos[k].usage;
                let nu = if u < u32::MAX {
                    u + 1
                } else {
                    u
                };
                self.infos.set(k, StrInfo { index: k, usage: nu });
                proof {
                    assert(self.entries()[k as int] == encode_utf8(value@));
                    assert(old(self).seeded_entries().contains(encode_utf8(value@)));
                    let e0 = old(self).seeded_entries();
                    let j = e0.index_of(encode_utf8(value@));
                    assert(e0[j] == encode_utf8(value@));
                    self.lemma_wf_facts();
                    assert(j == k);
                    assert(self.usages() =~= old(self).seeded_usages().update(
                        k as int,
                        bumped(old(self).seeded_usages()[k as int]),
                    ));
                    assert forall|i: int| 0 <= i < self.infos@.len() implies #[trigger] self.infos@[i].index == i by {}
                }
                return k;
            }
            k = k + 1;
        }
        proof {
            assert forall|j: int| 0 <= j < old(self).seeded_entries().len() implies old(self).seeded_entries()[j] != encode_utf8(value@) by {
                assert(self.entries()[j] == self.strings@[j]@);
            }
        }
        self.strings.push(bytes);
        self.infos.push(StrInfo { index: n, usage: 1 });
        proof {
            assert(self.entries() =~= old(self).seeded_entries().push(encode_utf8(value@)));
            assert(self.usages() =~= old(self).seeded_usages().push(1));
            assert forall|i: int, j: int|
                0 <= i < self.strings@.len() && 0 <= j < self.strings@.len() && i != j
                    implies #[trigger] self.strings@[i]@ != #[trigger] self.strings@[j]@ by {
                if i < n && j < n {
                    assert(self.strings@[i]@ == old(self).seeded_entries()[i]) by {
                        assert(self.entries()[i] == self.strings@[i]@);
                    }
                }
            }
        }
        n
    }

    proof fn lemma_order_irreflexive(&self, a: int)
        ensures
            !self.orders_before(a, a),
    {
        lemma_bytes_lt_irreflexive(self.entries()[a]);
    }

    proof fn lemma_order_asymmetric(&self, a: int, b: int)
        ensures
            !(self.orders_before(a, b) && self.orders_before(b, a)),
    {
        lemma_bytes_lt_asymmetric(self.entries()[a], self.entries()[b]);
    }

    proof fn lemma_order_transitive(&self, a: int, b: int, c: int)
        requires
            self.orders_before(a, b),
            self.orders_before(b, c),
        ensures
            self.orders_before(a, c),
    {
        if self.usages()[a] == self.usages()[b] && self.usages()[b] == self.usages()[c] {
            lemma_bytes_lt_transitive(self.entries()[a], self.entries()[b], self.entries()[c]);
        }
    }

    proof fn lemma_order_total(&self, a: int, b: int)
        requires
            self.wf(),
            0 <= a < self.entries().len(),
            0 <= b < self.entries().len(),
            a != b,
        ensures
            self.orders_before(a, b) || self.orders_before(b, a),
    {
        self.lemma_wf_facts();
        lemma_bytes_lt_total(self.entries()[a], self.entries()[b]);
    }

    /// Whether the final table puts entry `a` before entry `b`.
    fn ranks_first(&self, a: usize, b: usize) -> (r: bool)
        requires
            self.wf(),
            a < self.entries().len(),
            b < self.entries().len(),
        ensures
            r == self.orders_before(a as int, b as int),
    {
        let ua = self.infos[a].usage;
        let ub = self.infos[b].usage;
        ua > ub || (ua == ub && bytes_less(self.strings[a].as_slice(), self.strings[b].as_slice()))
    }

    /// The order of the final table, as indices that `add_string` returned:
    /// the empty string first, then the other entries by more uses first and
    /// then by bytes.
    fn sorted_order(&self) -> (order: Vec<usize>)
        requires
            self.wf(),
            self.entries().len() > 0,
        ensures
            order@.len() == self.entries().len(),
            order@[0] == 0,
            forall|k: int| 0 <= k < order@.len() ==> order@[k] < self.entries().len(),
            forall|k: int| 1 <= k < order@.len() ==> order@[k] >= 1,
            forall|t: int| 0 <= t < self.entries().len() ==> #[trigger] lists(order@, t),
            forall|a: int, b: int|
                1 <= a < b < order@.len() ==> self.orders_before(
                    #[trigger] order@[a] as int,
                    #[trigger] order@[b] as int,
                ),
    {
        let n = self.strings.len();
        let mut order: Vec<usize> = Vec::new();
        order.push(0);
        let mut i: usize = 1;
        assert(order@[0] == 0);
        while i < n
            invariant
                self.wf(),
                n == self.entries().len(),
                1 <= i <= n,
                order@.len() == i,
                order@[0] == 0,
                forall|k: int| 0 <= k < order@.len() ==> order@[k] < i,
                forall|k: int| 1 <= k < order@.len() ==> order@[k] >= 1,
                forall|t: int| 0 <= t < i ==> #[trigger] lists(order@, t),
                forall|a: int, b: int|
                    1 <= a < b < order@.len() ==> self.orders_before(
                        #[trigger] order@[a] as int,
                        #[trigger] order@[b] as int,
                    ),
            decreases n - i,
        {
            let mut p: usize = 1;
            while p < order.len() && self.ranks_first(order[p], i)
                invariant
                    self.wf(),
                    n == self.entries().len(),
                    i < n,
                    1 <= p <= order@.len(),
                    order@.len() == i,
                    forall|k: int| 0 <= k < order@.len() ==> order@[k] < i,
                    forall|q: int| 1 <= q < p ==> self.orders_before(#[trigger] order@[q] as int, i as int),
                decreases order@.len() - p,
            {
                p = p + 1;
            }
            let ghost old_order = order@;
            order.insert(p, i);
            proof {
                assert(order@ == old_order.insert(p as int, i));
                assert forall|k: int| 0 <= k < order@.len() implies order@[k] < i + 1 by {
                    if k < p { assert(order@[k] == old_order[k]); }
                    else if k > p { assert(order@[k] == old_order[k - 1]); }
                }
                assert forall|k: int| 1 <= k < order@.len() implies order@[k] >= 1 by {
                    if k < p { assert(order@[k] == old_order[k]); }
                    else if k > p { assert(order@[k] == old_order[k - 1]); }
                }
                assert forall|t: int| 0 <= t < i + 1 implies #[trigger] lists(order@, t) by {
                    if t == i {
                        assert(order@[p as int] == t);
                    } else {
                        assert(lists(old_order, t));
                        let k = choose|k: int| 0 <= k < old_order.len() && #[trigger] old_order[k] == t;
                        if k < p {
                            assert(order@[k] == t);
                        } else {
                            assert(order@[k + 1] == t);
                        }
                    }
                }
                assert forall|a: int, b: int|
                    1 <= a < b < order@.len() implies self.orders_before(
                        #[trigger] order@[a] as int,
                        #[trigger] order@[b] as int,
                    ) by {
                    if b < p {
                        assert(order@[a] == old_order[a] && order@[b] == old_order[b]);
                    } else if b == p {
                        assert(order@[a] == old_order[a]);
                    } else if a < p {
                        assert(order@[a] == old_order[a] && order@[b] == old_order[b - 1]);
                    } else if a == p {
                        assert(order@[b] == old_order[b - 1]);
                        assert(p < old_order.len());
                        assert(!self.orders_before(old_order[p as int] as int, i as int));
                        self.lemma_order_total(old_order[p as int] as int, i as int);
                        if b - 1 > p {
                            assert(self.orders_before(old_order[p as int] as int, old_order[b - 1] as int));
                            self.lemma_order_transitive(i as int, old_order[p as int] as int, old_order[b - 1] as int);
                        }
                    } else {
                        assert(order@[a] == old_order[a - 1] && order@[b] == old_order[b - 1]);
                    }
                }
            }
            i = i + 1;
        }
        order
    }

    /// Turns the table into its final form. Entries are sorted by usage count
    /// (most used first) and then by bytes, with the empty string kept at
    /// index 0. The second result maps each index that `add_string` returned
    /// to the entry's place in the final table.
    pub fn finalize(self) -> (r: (Vec<Vec<u8>>, Vec<usize>))
        requires
            self.wf(),
        ensures
            self.finalized_as(r.0@.map_values(|v: Vec<u8>| v@), r.1@),
    {
        let n = self.strings.len();
        if n == 0 {
            return (Vec::new(), Vec::new());
        }
        let order = self.sorted_order();
        proof {
            assert forall|a: int, b: int| 0 <= a < b < n implies #[trigger] order@[a] != #[trigger] order@[b] by {
                if a > 0 {
                    self.lemma_order_irreflexive(order@[a] as int);
                }
            }
        }
        let mut table: Vec<Vec<u8>> = Vec::new();
        let mut map: Vec<usize> = vec![0; n];
        let mut k: usize = 0;
        while k < n
            invariant
                self.wf(),
                n == self.entries().len(),
                0 <= k <= n,
                order@.len() == n,
                map@.len() == n,
                table@.len() == k,
                forall|a: int| 0 <= a < n ==> order@[a] < n,
                forall|a: int, b: int| 0 <= a < b < n ==> #[trigger] order@[a] != #[trigger] order@[b],
                forall|j: int| 0 <= j < k ==> #[trigger] map@[order@[j] as int] == j,
                forall|j: int| 0 <= j < k ==> #[trigger] table@[j]@ == self.entries()[order@[j] as int],
            decreases n - k,
        {
            let t = order[k];
            table.push(slice_to_vec(self.strings[t].as_slice()));
            map.set(t, k);
            proof {
                assert forall|j: int| 0 <= j < k + 1 implies #[trigger] map@[order@[j] as int] == j by {
                    if j < k {
                        assert(order@[j] != order@[k as int]);
                    }
                }
                assert(self.entries()[t as int] == self.strings@[t as int]@);
            }
            k = k + 1;
        }
        let ghost tv = table@.map_values(|v: Vec<u8>| v@);
        proof {
            assert forall|t: int| 0 <= t < n implies #[trigger] map@[t] < n
                && table@[map@[t] as int]@ == self.entries()[t]
                && order@[map@[t] as int] == t by {
                assert(lists(order@, t));
                let j = choose|j: int| 0 <= j < n && #[trigger] order@[j] == t;
                assert(map@[order@[j] as int] == j);
            }
            assert forall|t1: int, t2: int|
                1 <= t1 < n && 1 <= t2 < n implies (#[trigger] map@[t1] < #[trigger] map@[t2]
                    <==> self.orders_before(t1, t2)) by {
                let k1 = map@[t1] as int;
                let k2 = map@[t2] as int;
                assert(order@[k1] == t1 && order@[k2] == t2);
                assert(k1 >= 1 && k2 >= 1);
                if k1 < k2 {
                    assert(self.orders_before(order@[k1] as int, order@[k2] as int));
                } else if k1 == k2 {
                    self.lemma_order_irreflexive(t1);
                } else {
                    assert(self.orders_before(order@[k2] as int, order@[k1] as int));
                    self.lemma_order_asymmetric(t1, t2);
                }
            }
            assert(map@[0] == 0) by {
                assert(map@[order@[0] as int] == 0);
            }
            assert forall|t: int| 0 <= t < n implies #[trigger] tv[map@[t] as int] == self.entries()[t] by {
                assert(map@[t] < n);
            }
        }
        (table, map)
    }
}

/// After `finalize`, the empty string stands at index 0, a string for which
/// `add_string` returned `t` stands at `map[t]`, and of two other entries the
/// one used more often, or as often and smaller byte-wise, comes first.
pub proof fn lemma_finalized_table(
    b: StringTableBuilder,
    table: Seq<Seq<u8>>,
    map: Seq<usize>,
    t: int,
    value: Seq<char>,
)
    requires
        b.wf(),
        b.finalized_as(table, map),
        0 <= t < b.entries().len(),
        b.entries()[t] == encode_utf8(value),
    ensures
        table[0] == Seq::<u8>::empty(),
        map[t] < table.len(),
        table[map[t] as int] == encode_utf8(value),
        forall|t1: int, t2: int|
            1 <= t1 < table.len() && 1 <= t2 < table.len() && #[trigger] map[t1] < #[trigger] map[t2]
                ==> b.usages()[t1] > b.usages()[t2] || (b.usages()[t1] == b.usages()[t2]
                && bytes_lt(b.entries()[t1], b.entries()[t2])),
{
}

} // verus!
