//! The files of a pack, ordered by the bytes of their relative paths.

use vstd::prelude::*;
use vstd::string::StringSliceAdditionalSpecFns;

verus! {

/// Byte-wise lexicographic order, the order of Rust strings.
pub open spec fn bytes_less(a: Seq<u8>, b: Seq<u8>) -> bool
    decreases a.len(),
{
    if a.len() == 0 {
        b.len() > 0
    } else if b.len() == 0 {
        false
    } else if a[0] != b[0] {
        a[0] < b[0]
    } else {
        bytes_less(a.drop_first(), b.drop_first())
    }
}

pub proof fn lemma_bytes_less_irreflexive(a: Seq<u8>)
    ensures
        !bytes_less(a, a),
    decreases a.len(),
{
    if a.len() > 0 {
        lemma_bytes_less_irreflexive(a.drop_first());
    }
}

pub proof fn lemma_bytes_less_transitive(a: Seq<u8>, b: Seq<u8>, c: Seq<u8>)
    requires
        bytes_less(a, b),
        bytes_less(b, c),
    ensures
        bytes_less(a, c),
    decreases a.len(),
{
    if a.len() > 0 && b.len() > 0 && c.len() > 0 && a[0] == b[0] && b[0] == c[0] {
        lemma_bytes_less_transitive(a.drop_first(), b.drop_first(), c.drop_first());
    }
}

pub proof fn lemma_bytes_less_total(a: Seq<u8>, b: Seq<u8>)
    ensures
        a == b || bytes_less(a, b) || bytes_less(b, a),
    decreases a.len(),
{
    if a.len() > 0 && b.len() > 0 && a[0] == b[0] {
        lemma_bytes_less_total(a.drop_first(), b.drop_first());
        if a.drop_first() == b.drop_first() {
            assert(a =~= seq![a[0]] + a.drop_first());
            assert(b =~= seq![b[0]] + b.drop_first());
        }
    } else if a.len() == 0 && b.len() == 0 {
        assert(a =~= b);
    }
}

/// The order of two byte strings, one of three outcomes.
pub enum ByteOrder {
    Less,
    Equal,
    Greater,
}

/// Compares two byte strings as Rust compares strings.
pub fn compare_bytes(a: &[u8], b: &[u8]) -> (r: ByteOrder)
    ensures
        r is Less <==> bytes_less(a@, b@),
        r is Equal <==> a@ == b@,
        r is Greater <==> bytes_less(b@, a@),
{
    let mut i: usize = 0;
    while i < a.len() && i < b.len() && a[i] == b[i]
        invariant
            i <= a@.len(),
            i <= b@.len(),
            a@.subrange(0, i as int) == b@.subrange(0, i as int),
        decreases a@.len() - i,
    {
        assert(a@.subrange(0, i + 1) =~= a@.subrange(0, i as int).push(a@[i as int]));
        assert(b@.subrange(0, i + 1) =~= b@.subrange(0, i as int).push(b@[i as int]));
        i = i + 1;
    }
    proof {
        lemma_bytes_less_suffix(a@, b@, i as int);
        lemma_bytes_less_suffix(b@, a@, i as int);
        lemma_bytes_less_irreflexive(a@);
        lemma_bytes_less_irreflexive(b@);
        if i == a.len() && i == b.len() {
            assert(a@.subrange(0, i as int) =~= a@);
            assert(b@.subrange(0, i as int) =~= b@);
        }
        if a@ == b@ {
            assert(i == a.len() && i == b.len());
        }
    }
    if i == a.len() && i == b.len() {
        ByteOrder::Equal
    } else if i == a.len() {
        ByteOrder::Less
    } else if i == b.len() {
        ByteOrder::Greater
    } else if a[i] < b[i] {
        ByteOrder::Less
    } else {
        ByteOrder::Greater
    }
}

/// With a common prefix of length `i`, the order is the order of the rests.
proof fn lemma_bytes_less_suffix(a: Seq<u8>, b: Seq<u8>, i: int)
    requires
        0 <= i <= a.len(),
        i <= b.len(),
        a.subrange(0, i) == b.subrange(0, i),
    ensures
        bytes_less(a, b) == bytes_less(a.subrange(i, a.len() as int), b.subrange(i, b.len() as int)),
    decreases i,
{
    if i > 0 {
        assert(a[0] == a.subrange(0, i)[0]);
        assert(b[0] == b.subrange(0, i)[0]);
        assert(a.drop_first().subrange(0, i - 1) =~= a.subrange(0, i).drop_first());
        assert(b.drop_first().subrange(0, i - 1) =~= b.subrange(0, i).drop_first());
        lemma_bytes_less_suffix(a.drop_first(), b.drop_first(), i - 1);
        assert(a.drop_first().subrange(i - 1, a.len() - 1) =~= a.subrange(i, a.len() as int));
        assert(b.drop_first().subrange(i - 1, b.len() - 1) =~= b.subrange(i, b.len() as int));
    } else {
        assert(a.subrange(0, a.len() as int) =~= a);
        assert(b.subrange(0, b.len() as int) =~= b);
    }
}

/// Paths and contents in strictly ascending path order.
pub open spec fn sorted_pairs(p: Seq<(Seq<u8>, Seq<u8>)>) -> bool {
    forall|i: int, j: int| 0 <= i < j < p.len() ==> bytes_less(#[trigger] p[i].0, #[trigger] p[j].0)
}

pub open spec fn has_key(p: Seq<(Seq<u8>, Seq<u8>)>, k: Seq<u8>) -> bool {
    exists|i: int| 0 <= i < p.len() && #[trigger] p[i].0 == k
}

/// An index at which `k` is stored, when it is stored.
pub open spec fn key_index(p: Seq<(Seq<u8>, Seq<u8>)>, k: Seq<u8>) -> int {
    choose|i: int| 0 <= i < p.len() && #[trigger] p[i].0 == k
}

/// The files as a map from path bytes to contents.
pub open spec fn pairs_map(p: Seq<(Seq<u8>, Seq<u8>)>) -> Map<Seq<u8>, Seq<u8>> {
    Map::new(|k: Seq<u8>| has_key(p, k), |k: Seq<u8>| p[key_index(p, k)].1)
}

proof fn lemma_sorted_unique(p: Seq<(Seq<u8>, Seq<u8>)>, i: int, j: int)
    requires
        sorted_pairs(p),
        0 <= i < p.len(),
        0 <= j < p.len(),
        p[i].0 == p[j].0,
    ensures
        i == j,
{
    if i < j {
        lemma_bytes_less_irreflexive(p[i].0);
    } else if j < i {
        lemma_bytes_less_irreflexive(p[i].0);
    }
}

/// In sorted files, the entry at index `i` is what the map holds for its path.
pub proof fn lemma_pairs_map_at(p: Seq<(Seq<u8>, Seq<u8>)>, i: int)
    requires
        sorted_pairs(p),
        0 <= i < p.len(),
    ensures
        pairs_map(p).contains_key(p[i].0),
        pairs_map(p)[p[i].0] == p[i].1,
{
    let k = p[i].0;
    assert(has_key(p, k));
    let j = key_index(p, k);
    lemma_sorted_unique(p, i, j);
    assert(pairs_map(p)[k] == p[j].1);
}

/// Sorted files hold as many paths as they have entries.
pub proof fn lemma_pairs_map_len(p: Seq<(Seq<u8>, Seq<u8>)>)
    requires
        sorted_pairs(p),
    ensures
        pairs_map(p).dom().len() == p.len(),
        pairs_map(p).dom().finite(),
{
    let keys = p.map_values(|e: (Seq<u8>, Seq<u8>)| e.0);
    assert forall|i: int, j: int| 0 <= i < keys.len() && 0 <= j < keys.len() && i != j implies keys[i] != keys[j] by {
        if keys[i] == keys[j] {
            lemma_sorted_unique(p, i, j);
        }
    }
    assert(keys.no_duplicates());
    keys.unique_seq_to_set();
    assert forall|k: Seq<u8>| pairs_map(p).dom().contains(k) == keys.to_set().contains(k) by {
        if has_key(p, k) {
            let i = choose|i: int| 0 <= i < p.len() && #[trigger] p[i].0 == k;
            assert(keys[i] == k);
        }
        if keys.to_set().contains(k) {
            let i = choose|i: int| 0 <= i < keys.len() && keys[i] == k;
            assert(p[i].0 == k);
        }
    }
    assert(pairs_map(p).dom() =~= keys.to_set());
}

/// One file of a pack.
pub struct PackFile {
    path: String,
    bytes: Vec<u8>,
}

impl PackFile {
    pub closed spec fn pair(&self) -> (Seq<u8>, Seq<u8>) {
        (encode_utf8_of(self.path@), self.bytes@)
    }

    pub closed spec fn path_view(&self) -> Seq<char> {
        self.path@
    }
}

pub open spec fn encode_utf8_of(s: Seq<char>) -> Seq<u8> {
    vstd::utf8::encode_utf8(s)
}

/// The files of a pack, without two paths alike, in ascending path order.
pub struct PackFiles {
    entries: Vec<PackFile>,
}

impl PackFiles {
    /// The files, path bytes with contents, in ascending path order.
    pub closed spec fn pairs(&self) -> Seq<(Seq<u8>, Seq<u8>)> {
        self.entries@.map_values(|e: PackFile| e.pair())
    }

    /// The paths as text, in the same order.
    pub closed spec fn paths(&self) -> Seq<Seq<char>> {
        self.entries@.map_values(|e: PackFile| e.path_view())
    }

    pub open spec fn view(&self) -> Map<Seq<u8>, Seq<u8>> {
        pairs_map(self.pairs())
    }

    pub closed spec fn wf(&self) -> bool {
        sorted_pairs(self.pairs())
    }

    /// Well-formed files hold as many paths as they have entries.
    pub proof fn lemma_count(&self)
        requires
            self.wf(),
        ensures
            self.pairs().len() == self@.dom().len(),
            self@.dom().finite(),
    {
        lemma_pairs_map_len(self.pairs());
    }

    pub proof fn lemma_paths(&self)
        ensures
            self.paths().len() == self.pairs().len(),
            forall|i: int| 0 <= i < self.pairs().len() ==> #[trigger] self.pairs()[i].0 == encode_utf8_of(self.paths()[i]),
    {
    }

    pub fn new() -> (r: Self)
        ensures
            r.wf(),
            r.pairs().len() == 0,
    {
        PackFiles { entries: Vec::new() }
    }

    pub fn len(&self) -> (r: usize)
        ensures
            r == self.pairs().len(),
    {
        self.entries.len()
    }

    pub fn is_empty(&self) -> (r: bool)
        ensures
            r == (self.pairs().len() == 0),
    {
        self.entries.len() == 0
    }

    pub fn path_at(&self, i: usize) -> (r: &str)
        requires
            i < self.pairs().len(),
        ensures
            r@ == self.paths()[i as int],
            r.spec_bytes() == self.pairs()[i as int].0,
    {
        self.entries[i].path.as_str()
    }

    pub fn bytes_at(&self, i: usize) -> (r: &[u8])
        requires
            i < self.pairs().len(),
        ensures
            r@ == self.pairs()[i as int].1,
    {
        self.entries[i].bytes.as_slice()
    }

    /// The contents stored under `path`, if any.
    pub fn get(&self, path: &str) -> (r: Option<&[u8]>)
        requires
            self.wf(),
        ensures
            r is Some <==> self@.contains_key(path.spec_bytes()),
            r matches Some(b) ==> b@ == self@[path.spec_bytes()],
    {
        let key = path.as_bytes();
        let mut i: usize = 0;
        while i < self.entries.len()
            invariant
                self.wf(),
                key@ == path.spec_bytes(),
                i <= self.pairs().len(),
                forall|j: int| 0 <= j < i ==> #[trigger] self.pairs()[j].0 != key@,
            decreases self.pairs().len() - i,
        {
            match compare_bytes(self.entries[i].path.as_str().as_bytes(), key) {
                ByteOrder::Equal => {
                    proof {
                        lemma_pairs_map_at(self.pairs(), i as int);
                    }
                    return Some(self.entries[i].bytes.as_slice());
                },
                _ => {},
            }
            i = i + 1;
        }
        None
    }

    /// The position of `path` in path order, if it is stored.
    pub fn find(&self, path: &str) -> (r: Option<usize>)
        requires
            self.wf(),
        ensures
            r is Some <==> self@.contains_key(path.spec_bytes()),
            r matches Some(i) ==> i < self.pairs().len() && self.pairs()[i as int].0 == path.spec_bytes() && i
                == key_index(self.pairs(), path.spec_bytes()) && self.pairs()[i as int].1 == self@[path.spec_bytes()],
    {
        let key = path.as_bytes();
        let mut i: usize = 0;
        while i < self.entries.len()
            invariant
                self.wf(),
                key@ == path.spec_bytes(),
                i <= self.pairs().len(),
                forall|j: int| 0 <= j < i ==> #[trigger] self.pairs()[j].0 != key@,
            decreases self.pairs().len() - i,
        {
            match compare_bytes(self.entries[i].path.as_str().as_bytes(), key) {
                ByteOrder::Equal => {
                    proof {
                        lemma_pairs_map_at(self.pairs(), i as int);
                        let p = self.pairs();
                        assert(has_key(p, key@));
                        lemma_sorted_unique(p, i as int, key_index(p, key@));
                    }
                    return Some(i);
                },
                _ => {},
            }
            i = i + 1;
        }
        None
    }

    /// Stores `bytes` under `path`, replacing what was stored there.
    pub fn insert(&mut self, path: String, bytes: Vec<u8>)
        requires
            old(self).wf(),
        ensures
            final(self).wf(),
            final(self)@ == old(self)@.insert(encode_utf8_of(path@), bytes@),
    {
        let ghost p = self.pairs();
        let ghost k = encode_utf8_of(path@);
        let mut i: usize = 0;
        let mut equal = false;
        let mut passed = false;
        while i < self.entries.len() && !equal && !passed
            invariant
                self.pairs() == p,
                sorted_pairs(p),
                k == encode_utf8_of(path@),
                i <= p.len(),
                equal ==> i < p.len() && p[i as int].0 == k,
                !equal ==> forall|j: int| 0 <= j < i ==> bytes_less(#[trigger] p[j].0, k),
                passed ==> !equal && i < p.len() && bytes_less(k, p[i as int].0),
            decreases p.len() - i + if equal || passed { 0int } else { 1int },
        {
            match compare_bytes(self.entries[i].path.as_str().as_bytes(), path.as_str().as_bytes()) {
                ByteOrder::Less => {
                    i = i + 1;
                },
                ByteOrder::Equal => {
                    equal = true;
                },
                ByteOrder::Greater => {
                    passed = true;
                },
            }
        }
        let entry = PackFile { path, bytes };
        let ghost pair = entry.pair();
        if equal {
            self.entries.set(i, entry);
            proof {
                assert(self.pairs() =~= p.update(i as int, pair));
                lemma_update_map(p, i as int, pair);
            }
        } else {
            proof {
                assert forall|j: int| i <= j < p.len() implies bytes_less(k, #[trigger] p[j].0) by {
                    if j > i {
                        lemma_bytes_less_transitive(k, p[i as int].0, p[j].0);
                    }
                }
            }
            self.entries.insert(i, entry);
            proof {
                assert(self.pairs() =~= p.insert(i as int, pair));
                lemma_insert_map(p, i as int, pair);
            }
        }
    }
}

proof fn lemma_update_map(p: Seq<(Seq<u8>, Seq<u8>)>, i: int, pair: (Seq<u8>, Seq<u8>))
    requires
        sorted_pairs(p),
        0 <= i < p.len(),
        p[i].0 == pair.0,
    ensures
        sorted_pairs(p.update(i, pair)),
        pairs_map(p.update(i, pair)) == pairs_map(p).insert(pair.0, pair.1),
{
    let q = p.update(i, pair);
    assert(sorted_pairs(q)) by {
        assert forall|a: int, b: int| 0 <= a < b < q.len() implies bytes_less(#[trigger] q[a].0, #[trigger] q[b].0) by {
            assert(q[a].0 == p[a].0 && q[b].0 == p[b].0);
        }
    }
    assert forall|k: Seq<u8>| has_key(q, k) == (has_key(p, k) || k == pair.0) by {
        if has_key(p, k) {
            let j = choose|j: int| 0 <= j < p.len() && #[trigger] p[j].0 == k;
            assert(q[j].0 == k);
        }
        if has_key(q, k) {
            let j = choose|j: int| 0 <= j < q.len() && #[trigger] q[j].0 == k;
            assert(p[j].0 == k);
        }
        if k == pair.0 {
            assert(q[i].0 == k);
        }
    }
    assert forall|k: Seq<u8>| #[trigger] has_key(q, k) implies pairs_map(q)[k] == pairs_map(p).insert(pair.0, pair.1)[k] by {
        let j = choose|j: int| 0 <= j < q.len() && #[trigger] q[j].0 == k;
        lemma_pairs_map_at(q, j);
        if j != i {
            assert(q[j] == p[j]);
            lemma_pairs_map_at(p, j);
            if k == pair.0 {
                lemma_sorted_unique(p, i, j);
            }
            assert(pairs_map(p).insert(pair.0, pair.1)[k] == pairs_map(p)[k]);
        } else {
            assert(k == pair.0);
        }
    }
    assert(pairs_map(q) =~= pairs_map(p).insert(pair.0, pair.1));
}

proof fn lemma_insert_map(p: Seq<(Seq<u8>, Seq<u8>)>, i: int, pair: (Seq<u8>, Seq<u8>))
    requires
        sorted_pairs(p),
        0 <= i <= p.len(),
        forall|j: int| 0 <= j < i ==> bytes_less(#[trigger] p[j].0, pair.0),
        forall|j: int| i <= j < p.len() ==> bytes_less(pair.0, #[trigger] p[j].0),
    ensures
        sorted_pairs(p.insert(i, pair)),
        pairs_map(p.insert(i, pair)) == pairs_map(p).insert(pair.0, pair.1),
{
    let q = p.insert(i, pair);
    assert(sorted_pairs(q)) by {
        assert forall|a: int, b: int| 0 <= a < b < q.len() implies bytes_less(#[trigger] q[a].0, #[trigger] q[b].0) by {
            if a < i && b < i {
            } else if a < i && b == i {
            } else if a < i {
                lemma_bytes_less_transitive(p[a].0, pair.0, p[b - 1].0);
            } else if a == i {
            } else {
                assert(q[a].0 == p[a - 1].0 && q[b].0 == p[b - 1].0);
            }
        }
    }
    assert forall|j: int| 0 <= j < p.len() implies p[j].0 != pair.0 by {
        lemma_bytes_less_irreflexive(pair.0);
    }
    assert forall|k: Seq<u8>| has_key(q, k) == (has_key(p, k) || k == pair.0) by {
        if has_key(p, k) {
            let j = choose|j: int| 0 <= j < p.len() && #[trigger] p[j].0 == k;
            if j < i {
                assert(q[j].0 == k);
            } else {
                assert(q[j + 1].0 == k);
            }
        }
        if has_key(q, k) {
            let j = choose|j: int| 0 <= j < q.len() && #[trigger] q[j].0 == k;
            if j < i {
                assert(p[j].0 == k);
            } else if j > i {
                assert(p[j - 1].0 == k);
            }
        }
        if k == pair.0 {
            assert(q[i].0 == k);
        }
    }
    assert forall|k: Seq<u8>| #[trigger] has_key(q, k) implies pairs_map(q)[k] == pairs_map(p).insert(pair.0, pair.1)[k] by {
        let j = choose|j: int| 0 <= j < q.len() && #[trigger] q[j].0 == k;
        lemma_pairs_map_at(q, j);
        if j < i {
            assert(q[j] == p[j]);
            lemma_pairs_map_at(p, j);
            assert(k != pair.0);
            assert(pairs_map(q)[k] == q[j].1);
            assert(pairs_map(p)[k] == p[j].1);
            assert(pairs_map(p).insert(pair.0, pair.1)[k] == pairs_map(p)[k]);
        } else if j > i {
            assert(q[j] == p[j - 1]);
            lemma_pairs_map_at(p, j - 1);
            assert(k != pair.0);
            assert(pairs_map(q)[k] == q[j].1);
            assert(pairs_map(p)[k] == p[j - 1].1);
            assert(pairs_map(p).insert(pair.0, pair.1)[k] == pairs_map(p)[k]);
        } else {
            assert(q[j] == pair);
            assert(pairs_map(q)[k] == pair.1);
            assert(pairs_map(p).insert(pair.0, pair.1)[k] == pair.1);
        }
    }
    assert(pairs_map(q) =~= pairs_map(p).insert(pair.0, pair.1));
}

} // verus!
