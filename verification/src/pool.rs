//! The pool: a table from content key to slot, and the handles it
//! issues.
//!
//! Each slot pairs one canonical value with the number of outstanding
//! handles to it.  A slot is present exactly while that number is
//! positive: `release` drops a handle's contribution and removes the
//! slot when the last one goes.

use vstd::prelude::*;

use crate::canon::CanonicalSource;
use crate::canon::CanonicalView;
use crate::digest::digest_bytes;
use crate::digest::digest_of;

verus! {

/// One slot: a canonical value and its count of outstanding handles.
struct Entry<T> {
    key: Vec<u8>,
    count: usize,
    data: T,
}

/// A content-addressed interning pool.
pub struct Interner<T> {
    entries: Vec<Entry<T>>,
}

/// A handle to one interned value: it records the content key under
/// which the value is stored.  Handles are only issued by a pool;
/// every handle must eventually be given back through
/// [`Interner::release`].
#[derive(Debug, Hash)]
pub struct Interned {
    key: Vec<u8>,
}

impl Interned {
    /// The content key, as mathematical bytes.
    pub closed spec fn key_spec(&self) -> Seq<u8> {
        self.key@
    }

    /// The content key's bytes.
    pub fn key_bytes(&self) -> (r: &Vec<u8>)
        ensures
            r@ == self.key_spec(),
    {
        &self.key
    }

    /// The content key's textual form: lowercase hex digits.
    pub fn key_hex(&self) -> (r: Vec<u8>)
        ensures
            r@ == crate::digest::hex_encoding(self.key_spec()),
    {
        crate::digest::hex_bytes(&self.key)
    }
}

/// Handle equality is content-key equality: two handles to the same
/// canonical value compare equal, regardless of which call issued them.
impl PartialEq for Interned {
    fn eq(&self, other: &Interned) -> (r: bool) {
        bytes_eq(&self.key, &other.key)
    }
}

impl vstd::std_specs::cmp::PartialEqSpecImpl for Interned {
    open spec fn obeys_eq_spec() -> bool {
        true
    }

    open spec fn eq_spec(&self, other: &Interned) -> bool {
        self.key_spec() == other.key_spec()
    }
}

/// Compare two byte vectors for equality.
fn bytes_eq(a: &Vec<u8>, b: &Vec<u8>) -> (r: bool)
    ensures
        r == (a@ == b@),
{
    if a.len() != b.len() {
        return false;
    }
    let mut i: usize = 0;
    while i < a.len()
        invariant
            a@.len() == b@.len(),
            i <= a@.len(),
            forall|j: int| 0 <= j < i ==> a@[j] == b@[j],
        decreases a@.len() - i,
    {
        if a[i] != b[i] {
            return false;
        }
        i = i + 1;
    }
    proof {
        assert(a@ =~= b@);
    }
    true
}

/// Copy a byte vector.
fn copy_bytes(v: &Vec<u8>) -> (r: Vec<u8>)
    ensures
        r@ == v@,
{
    vstd::slice::slice_to_vec(v.as_slice())
}

impl<T: CanonicalSource> Interner<T> {
    /// How many slots the pool holds.
    pub closed spec fn spec_len(self) -> nat {
        self.entries@.len()
    }

    /// The content key stored in slot `i`.
    pub closed spec fn key_at(self, i: int) -> Seq<u8> {
        self.entries@[i].key@
    }

    /// Well-formed: no two slots share a key, and every slot has at
    /// least one outstanding handle counted.
    pub closed spec fn wf(self) -> bool {
        &&& forall|i: int, j: int|
            0 <= i < j < self.entries@.len() ==> self.key_at(i) != self.key_at(j)
        &&& forall|i: int| 0 <= i < self.entries@.len() ==> (#[trigger] self.entries@[i].count) >= 1
    }

    /// Every count still has room to grow.
    pub closed spec fn counts_headroom(self) -> bool {
        forall|i: int|
            0 <= i < self.entries@.len() ==> (#[trigger] self.entries@[i].count) < usize::MAX
    }

    /// Whether some slot stores content key `k`.
    pub closed spec fn has_key(self, k: Seq<u8>) -> bool {
        exists|i: int| 0 <= i < self.entries@.len() && self.key_at(i) == k
    }

    /// The index of the slot storing `k` (meaningful when `has_key`).
    pub closed spec fn index_of(self, k: Seq<u8>) -> int {
        choose|i: int| 0 <= i < self.entries@.len() && self.key_at(i) == k
    }

    /// The handle count of the slot storing `k`.
    pub closed spec fn count_of(self, k: Seq<u8>) -> nat {
        self.entries@[self.index_of(k)].count as nat
    }

    /// The canonical value stored under `k`.
    pub closed spec fn value_of(self, k: Seq<u8>) -> T {
        self.entries@[self.index_of(k)].data
    }

    /// In a well-formed pool, a slot that stores `k` is the slot of `k`.
    proof fn lemma_found_index(self, k: Seq<u8>, i: int)
        requires
            self.wf(),
            0 <= i < self.entries@.len(),
            self.key_at(i) == k,
        ensures
            self.has_key(k),
            self.index_of(k) == i,
    {
        assert(self.has_key(k));
        let j = self.index_of(k);
        assert(0 <= j < self.entries@.len() && self.key_at(j) == k);
        if i < j {
            assert(self.key_at(i) != self.key_at(j));
        } else if j < i {
            assert(self.key_at(j) != self.key_at(i));
        }
    }

    /// Create an empty pool.
    pub fn new() -> (p: Interner<T>)
        ensures
            p.wf(),
            p.counts_headroom(),
            p.spec_len() == 0,
            forall|k: Seq<u8>| !p.has_key(k),
    {
        Interner { entries: Vec::new() }
    }

    /// How many distinct values the pool currently stores.
    pub fn len(&self) -> (n: usize)
        ensures
            n == self.spec_len(),
    {
        self.entries.len()
    }

    /// Whether the pool currently stores a value under this content key.
    pub fn contains(&self, key: &Vec<u8>) -> (r: bool)
        ensures
            r == self.has_key(key@),
    {
        match self.find(key) {
            Some(i) => {
                proof {
                    assert(self.has_key(key@));
                }
                true
            },
            None => false,
        }
    }

    /// Two pools with the same keys slot for slot store every content
    /// key at the same index.
    proof fn lemma_same_keys(a: Interner<T>, b: Interner<T>)
        requires
            a.wf(),
            b.entries@.len() == a.entries@.len(),
            forall|j: int| 0 <= j < a.entries@.len() ==> b.key_at(j) == a.key_at(j),
        ensures
            forall|k: Seq<u8>| b.has_key(k) == a.has_key(k),
            forall|k: Seq<u8>| #[trigger] a.has_key(k) ==> b.index_of(k) == a.index_of(k),
    {
        assert forall|k: Seq<u8>| b.has_key(k) == a.has_key(k) by {
            if a.has_key(k) {
                let i = choose|i: int| 0 <= i < a.entries@.len() && a.key_at(i) == k;
                assert(b.key_at(i) == k);
                assert(b.has_key(k));
            }
            if b.has_key(k) {
                let i = choose|i: int| 0 <= i < b.entries@.len() && b.key_at(i) == k;
                assert(a.key_at(i) == k);
                assert(a.has_key(k));
            }
        }
        assert forall|k: Seq<u8>| #[trigger] a.has_key(k) implies b.index_of(k) == a.index_of(k) by {
            let i = a.index_of(k);
            assert(0 <= i < a.entries@.len() && a.key_at(i) == k);
            let j = b.index_of(k);
            assert(b.has_key(k));
            assert(0 <= j < b.entries@.len() && b.key_at(j) == k);
            if i < j {
                assert(a.key_at(i) != a.key_at(j));
            } else if j < i {
                assert(a.key_at(j) != a.key_at(i));
            }
        }
    }

    /// Record one more outstanding handle on the slot at index `i`.
    fn acquire_at(&mut self, i: usize)
        requires
            old(self).wf(),
            old(self).counts_headroom(),
            i < old(self).spec_len(),
        ensures
            final(self).wf(),
            final(self).spec_len() == old(self).spec_len(),
            final(self).has_key(old(self).key_at(i as int)),
            final(self).count_of(old(self).key_at(i as int)) == old(self).count_of(
                old(self).key_at(i as int),
            ) + 1,
            final(self).value_of(old(self).key_at(i as int)) == old(self).value_of(
                old(self).key_at(i as int),
            ),
            forall|k2: Seq<u8>| final(self).has_key(k2) == old(self).has_key(k2),
            forall|k2: Seq<u8>|
                k2 != old(self).key_at(i as int) && old(self).has_key(k2)
                    ==> final(self).count_of(k2) == old(self).count_of(k2)
                        && final(self).value_of(k2) == old(self).value_of(k2),
            old(self).count_of(old(self).key_at(i as int)) + 1 < usize::MAX
                ==> final(self).counts_headroom(),
    {
        let ghost pre = *self;
        let ghost k = pre.key_at(i as int);
        proof {
            pre.lemma_found_index(k, i as int);
        }
        let e = &mut self.entries[i];
        e.count = e.count + 1;
        proof {
            assert(self.entries@ =~= pre.entries@.update(
                i as int,
                self.entries@[i as int],
            ));
            assert forall|j: int| 0 <= j < pre.entries@.len() implies self.key_at(j)
                == pre.key_at(j) by {}
            assert forall|i2: int, j2: int|
                0 <= i2 < j2 < self.entries@.len() implies self.key_at(i2) != self.key_at(
                j2,
            ) by {
                assert(pre.key_at(i2) != pre.key_at(j2));
            }
            assert forall|j: int|
                0 <= j < self.entries@.len() implies (#[trigger] self.entries@[j].count)
                >= 1 by {
                if j != i as int {
                    assert(self.entries@[j] == pre.entries@[j]);
                    assert(pre.entries@[j].count >= 1);
                }
            }
            assert(self.wf());
            Self::lemma_same_keys(pre, *self);
            self.lemma_found_index(k, i as int);
            assert forall|k2: Seq<u8>|
                k2 != k && pre.has_key(k2) implies self.count_of(k2) == pre.count_of(k2)
                && self.value_of(k2) == pre.value_of(k2) by {
                let j = pre.index_of(k2);
                assert(j != i);
            }
        }
    }

    /// Insert a fresh slot for a key the pool does not yet store, with
    /// one outstanding handle counted.
    fn insert_new(&mut self, key: Vec<u8>, data: T)
        requires
            old(self).wf(),
            !old(self).has_key(key@),
        ensures
            final(self).wf(),
            final(self).spec_len() == old(self).spec_len() + 1,
            final(self).has_key(key@),
            final(self).count_of(key@) == 1,
            final(self).value_of(key@) == data,
            forall|k2: Seq<u8>| k2 != key@ ==> final(self).has_key(k2) == old(self).has_key(k2),
            forall|k2: Seq<u8>|
                k2 != key@ && old(self).has_key(k2)
                    ==> final(self).count_of(k2) == old(self).count_of(k2)
                        && final(self).value_of(k2) == old(self).value_of(k2),
            old(self).counts_headroom() ==> final(self).counts_headroom(),
    {
        let ghost pre = *self;
        let ghost keyv = key@;
        self.entries.push(Entry { key, count: 1, data });
        proof {
            let n = pre.entries@.len() as int;
            assert(self.entries@ == pre.entries@.push(self.entries@[n]));
            assert forall|j: int| 0 <= j < n implies self.key_at(j) == pre.key_at(j) by {}
            assert(self.key_at(n) == keyv);
            assert forall|i: int, j: int|
                0 <= i < j < self.entries@.len() implies self.key_at(i) != self.key_at(j) by {
                if j < n {
                    assert(pre.key_at(i) != pre.key_at(j));
                } else {
                    assert(!pre.has_key(keyv));
                    assert(pre.key_at(i) != keyv || !(0 <= i < n));
                }
            }
            assert(self.wf());
            self.lemma_found_index(keyv, n);
            assert forall|k2: Seq<u8>|
                k2 != keyv implies self.has_key(k2) == pre.has_key(k2) by {
                if pre.has_key(k2) {
                    let i = pre.index_of(k2);
                    assert(0 <= i < n && pre.key_at(i) == k2);
                    assert(self.key_at(i) == k2);
                    assert(self.has_key(k2));
                }
                if self.has_key(k2) {
                    let i = self.index_of(k2);
                    assert(0 <= i < n + 1 && self.key_at(i) == k2);
                    assert(i != n);
                    assert(pre.key_at(i) == k2);
                    assert(pre.has_key(k2));
                }
            }
            assert forall|k2: Seq<u8>|
                k2 != keyv && pre.has_key(k2) implies self.count_of(k2) == pre.count_of(k2)
                && self.value_of(k2) == pre.value_of(k2) by {
                let i = pre.index_of(k2);
                assert(0 <= i < n && pre.key_at(i) == k2);
                self.lemma_found_index(k2, i);
            }
        }
    }

    /// Give back one outstanding handle on the slot at index `i`,
    /// which is not the last one.
    fn decrement_at(&mut self, i: usize)
        requires
            old(self).wf(),
            i < old(self).spec_len(),
            old(self).count_of(old(self).key_at(i as int)) >= 2,
        ensures
            final(self).wf(),
            final(self).spec_len() == old(self).spec_len(),
            final(self).has_key(old(self).key_at(i as int)),
            final(self).count_of(old(self).key_at(i as int)) == old(self).count_of(
                old(self).key_at(i as int),
            ) - 1,
            final(self).value_of(old(self).key_at(i as int)) == old(self).value_of(
                old(self).key_at(i as int),
            ),
            forall|k2: Seq<u8>| final(self).has_key(k2) == old(self).has_key(k2),
            forall|k2: Seq<u8>|
                k2 != old(self).key_at(i as int) && old(self).has_key(k2)
                    ==> final(self).count_of(k2) == old(self).count_of(k2)
                        && final(self).value_of(k2) == old(self).value_of(k2),
            old(self).counts_headroom() ==> final(self).counts_headroom(),
    {
        let ghost pre = *self;
        let ghost k = pre.key_at(i as int);
        proof {
            pre.lemma_found_index(k, i as int);
        }
        let e = &mut self.entries[i];
        e.count = e.count - 1;
        proof {
            assert(self.entries@ =~= pre.entries@.update(
                i as int,
                self.entries@[i as int],
            ));
            assert forall|j: int| 0 <= j < pre.entries@.len() implies self.key_at(j)
                == pre.key_at(j) by {}
            assert forall|i2: int, j2: int|
                0 <= i2 < j2 < self.entries@.len() implies self.key_at(i2) != self.key_at(
                j2,
            ) by {
                assert(pre.key_at(i2) != pre.key_at(j2));
            }
            assert forall|j: int|
                0 <= j < self.entries@.len() implies (#[trigger] self.entries@[j].count)
                >= 1 by {
                if j != i as int {
                    assert(self.entries@[j] == pre.entries@[j]);
                    assert(pre.entries@[j].count >= 1);
                }
            }
            assert(self.wf());
            assert forall|j: int|
                pre.counts_headroom() && 0 <= j < self.entries@.len() implies (
            #[trigger] self.entries@[j].count) < usize::MAX by {
                if j != i as int {
                    assert(self.entries@[j] == pre.entries@[j]);
                    assert(pre.entries@[j].count < usize::MAX);
                } else {
                    assert(pre.entries@[j].count < usize::MAX);
                }
            }
            Self::lemma_same_keys(pre, *self);
            self.lemma_found_index(k, i as int);
            assert forall|k2: Seq<u8>|
                k2 != k && pre.has_key(k2) implies self.count_of(k2) == pre.count_of(k2)
                && self.value_of(k2) == pre.value_of(k2) by {
                let j = pre.index_of(k2);
                assert(j != i);
            }
        }
    }

    /// Remove the slot at index `i` from the table.
    fn evict_at(&mut self, i: usize)
        requires
            old(self).wf(),
            i < old(self).spec_len(),
        ensures
            final(self).wf(),
            final(self).spec_len() == old(self).spec_len() - 1,
            !final(self).has_key(old(self).key_at(i as int)),
            forall|k2: Seq<u8>|
                k2 != old(self).key_at(i as int)
                    ==> final(self).has_key(k2) == old(self).has_key(k2),
            forall|k2: Seq<u8>|
                k2 != old(self).key_at(i as int) && old(self).has_key(k2)
                    ==> final(self).count_of(k2) == old(self).count_of(k2)
                        && final(self).value_of(k2) == old(self).value_of(k2),
            old(self).counts_headroom() ==> final(self).counts_headroom(),
    {
        let ghost pre = *self;
        let ghost k = pre.key_at(i as int);
        let _ = self.entries.remove(i);
        proof {
            let n = self.entries@.len() as int;
            assert forall|j: int| 0 <= j < n implies self.key_at(j) == pre.key_at(
                if j < i as int {
                    j
                } else {
                    j + 1
                },
            ) by {}
            assert forall|i2: int, j2: int|
                0 <= i2 < j2 < n implies self.key_at(i2) != self.key_at(j2) by {
                let oi = if i2 < i as int { i2 } else { i2 + 1 };
                let oj = if j2 < i as int { j2 } else { j2 + 1 };
                assert(pre.key_at(oi) != pre.key_at(oj));
            }
            assert forall|j: int|
                0 <= j < n implies (#[trigger] self.entries@[j].count) >= 1 by {
                let oj = if j < i as int { j } else { j + 1 };
                assert(self.entries@[j] == pre.entries@[oj]);
                assert(pre.entries@[oj].count >= 1);
            }
            assert(self.wf());
            assert forall|j: int|
                pre.counts_headroom() && 0 <= j < n implies (
            #[trigger] self.entries@[j].count) < usize::MAX by {
                let oj = if j < i as int { j } else { j + 1 };
                assert(self.entries@[j] == pre.entries@[oj]);
                assert(pre.entries@[oj].count < usize::MAX);
            }
            assert forall|j: int| 0 <= j < n implies self.key_at(j) != k by {
                let oj = if j < i as int { j } else { j + 1 };
                assert(pre.key_at(oj) != pre.key_at(i as int) || oj == i as int);
            }
            assert(!self.has_key(k));
            assert forall|k2: Seq<u8>|
                k2 != k implies self.has_key(k2) == pre.has_key(k2) by {
                if pre.has_key(k2) {
                    let oi = pre.index_of(k2);
                    assert(0 <= oi < pre.entries@.len() && pre.key_at(oi) == k2);
                    pre.lemma_found_index(k2, oi);
                    assert(oi != i as int);
                    let nj = if oi < i as int { oi } else { oi - 1 };
                    assert(self.key_at(nj) == k2);
                    assert(self.has_key(k2));
                }
                if self.has_key(k2) {
                    let nj = self.index_of(k2);
                    assert(0 <= nj < n && self.key_at(nj) == k2);
                    let oj = if nj < i as int { nj } else { nj + 1 };
                    assert(pre.key_at(oj) == k2);
                    assert(pre.has_key(k2));
                }
            }
            assert forall|k2: Seq<u8>|
                k2 != k && pre.has_key(k2) implies self.count_of(k2) == pre.count_of(k2)
                && self.value_of(k2) == pre.value_of(k2) by {
                let oi = pre.index_of(k2);
                assert(0 <= oi < pre.entries@.len() && pre.key_at(oi) == k2);
                assert(oi != i as int);
                let nj = if oi < i as int { oi } else { oi - 1 };
                assert(self.key_at(nj) == k2);
                assert(self.entries@[nj] == pre.entries@[oi]);
                self.lemma_found_index(k2, nj);
            }
        }
    }

    /// Look up the slot index of a content key.
    fn find(&self, key: &Vec<u8>) -> (r: Option<usize>)
        ensures
            match r {
                Some(i) => 0 <= i < self.entries@.len() && self.key_at(i as int) == key@,
                None => !self.has_key(key@),
            },
    {
        let mut i: usize = 0;
        while i < self.entries.len()
            invariant
                i <= self.entries@.len(),
                forall|j: int| 0 <= j < i ==> self.key_at(j) != key@,
            decreases self.entries@.len() - i,
        {
            if bytes_eq(&self.entries[i].key, key) {
                return Some(i);
            }
            i = i + 1;
        }
        None
    }

    /// Intern an owned value: return a handle to the pool's canonical
    /// copy of its content.  If content with the same canonical
    /// encoding is already stored, the stored copy is kept (one more
    /// handle is counted on it) and `data` is discarded; otherwise
    /// `data` itself becomes the stored copy, with one handle counted.
    pub fn intern(&mut self, data: T) -> (h: Interned)
        requires
            old(self).wf(),
            old(self).counts_headroom(),
        ensures
            final(self).wf(),
            h.key_spec() == digest_of(data.canon()),
            final(self).has_key(h.key_spec()),
            old(self).has_key(h.key_spec())
                ==> final(self).value_of(h.key_spec()) == old(self).value_of(h.key_spec())
                    && final(self).count_of(h.key_spec()) == old(self).count_of(h.key_spec()) + 1
                    && final(self).spec_len() == old(self).spec_len(),
            !old(self).has_key(h.key_spec())
                ==> final(self).value_of(h.key_spec()) == data
                    && final(self).count_of(h.key_spec()) == 1
                    && final(self).spec_len() == old(self).spec_len() + 1,
            forall|k2: Seq<u8>|
                k2 != h.key_spec() ==> final(self).has_key(k2) == old(self).has_key(k2),
            forall|k2: Seq<u8>|
                k2 != h.key_spec() && old(self).has_key(k2)
                    ==> final(self).count_of(k2) == old(self).count_of(k2)
                        && final(self).value_of(k2) == old(self).value_of(k2),
            !old(self).has_key(h.key_spec()) ==> final(self).counts_headroom(),
            old(self).has_key(h.key_spec()) && old(self).count_of(h.key_spec()) + 1 < usize::MAX
                ==> final(self).counts_headroom(),
    {
        let bytes = data.canonical_bytes();
        let key = digest_bytes(&bytes);
        match self.find(&key) {
            Some(i) => {
                proof {
                    self.lemma_found_index(key@, i as int);
                }
                self.acquire_at(i);
                Interned { key }
            },
            None => {
                let hkey = copy_bytes(&key);
                self.insert_new(key, data);
                Interned { key: hkey }
            },
        }
    }

    /// Intern borrowed content: return a handle to the pool's
    /// canonical copy.  An owned value is materialized (through
    /// [`CanonicalView::to_owned_value`]) only when no copy of this
    /// content is stored yet; on a hit the stored copy is kept and
    /// nothing is built.
    pub fn intern_borrowed<B: CanonicalView<T>>(&mut self, view: B) -> (h: Interned)
        requires
            old(self).wf(),
            old(self).counts_headroom(),
        ensures
            final(self).wf(),
            h.key_spec() == digest_of(view.view_canon()),
            final(self).has_key(h.key_spec()),
            old(self).has_key(h.key_spec())
                ==> final(self).value_of(h.key_spec()) == old(self).value_of(h.key_spec())
                    && final(self).count_of(h.key_spec()) == old(self).count_of(h.key_spec()) + 1
                    && final(self).spec_len() == old(self).spec_len(),
            !old(self).has_key(h.key_spec())
                ==> final(self).value_of(h.key_spec()).canon() == view.view_canon()
                    && final(self).count_of(h.key_spec()) == 1
                    && final(self).spec_len() == old(self).spec_len() + 1,
            forall|k2: Seq<u8>|
                k2 != h.key_spec() ==> final(self).has_key(k2) == old(self).has_key(k2),
            forall|k2: Seq<u8>|
                k2 != h.key_spec() && old(self).has_key(k2)
                    ==> final(self).count_of(k2) == old(self).count_of(k2)
                        && final(self).value_of(k2) == old(self).value_of(k2),
            !old(self).has_key(h.key_spec()) ==> final(self).counts_headroom(),
            old(self).has_key(h.key_spec()) && old(self).count_of(h.key_spec()) + 1 < usize::MAX
                ==> final(self).counts_headroom(),
    {
        let bytes = view.view_bytes();
        let key = digest_bytes(&bytes);
        match self.find(&key) {
            Some(i) => {
                proof {
                    self.lemma_found_index(key@, i as int);
                }
                self.acquire_at(i);
                Interned { key }
            },
            None => {
                let hkey = copy_bytes(&key);
                let data = view.to_owned_value();
                self.insert_new(key, data);
                Interned { key: hkey }
            },
        }
    }

    /// Issue one more handle to the content `h` refers to, counting it
    /// on the same slot.
    pub fn clone_handle(&mut self, h: &Interned) -> (h2: Interned)
        requires
            old(self).wf(),
            old(self).counts_headroom(),
            old(self).has_key(h.key_spec()),
        ensures
            final(self).wf(),
            h2.key_spec() == h.key_spec(),
            final(self).spec_len() == old(self).spec_len(),
            final(self).count_of(h.key_spec()) == old(self).count_of(h.key_spec()) + 1,
            final(self).value_of(h.key_spec()) == old(self).value_of(h.key_spec()),
            forall|k2: Seq<u8>| final(self).has_key(k2) == old(self).has_key(k2),
            forall|k2: Seq<u8>|
                k2 != h.key_spec() && old(self).has_key(k2)
                    ==> final(self).count_of(k2) == old(self).count_of(k2)
                        && final(self).value_of(k2) == old(self).value_of(k2),
            old(self).count_of(h.key_spec()) + 1 < usize::MAX ==> final(self).counts_headroom(),
    {
        let key = copy_bytes(&h.key);
        match self.find(&key) {
            Some(i) => {
                proof {
                    self.lemma_found_index(key@, i as int);
                }
                self.acquire_at(i);
                Interned { key }
            },
            None => vstd::pervasive::unreached(),
        }
    }

    /// Give a handle back.  The slot's count drops by one; when this
    /// was the last outstanding handle, the slot is removed from the
    /// table and its value dropped.
    pub fn release(&mut self, h: Interned)
        requires
            old(self).wf(),
            old(self).has_key(h.key_spec()),
        ensures
            final(self).wf(),
            old(self).count_of(h.key_spec()) == 1
                ==> !final(self).has_key(h.key_spec())
                    && final(self).spec_len() == old(self).spec_len() - 1,
            old(self).count_of(h.key_spec()) > 1
                ==> final(self).has_key(h.key_spec())
                    && final(self).count_of(h.key_spec()) == old(self).count_of(h.key_spec()) - 1
                    && final(self).value_of(h.key_spec()) == old(self).value_of(h.key_spec())
                    && final(self).spec_len() == old(self).spec_len(),
            forall|k2: Seq<u8>|
                k2 != h.key_spec() ==> final(self).has_key(k2) == old(self).has_key(k2),
            forall|k2: Seq<u8>|
                k2 != h.key_spec() && old(self).has_key(k2)
                    ==> final(self).count_of(k2) == old(self).count_of(k2)
                        && final(self).value_of(k2) == old(self).value_of(k2),
            old(self).counts_headroom() ==> final(self).counts_headroom(),
    {
        match self.find(&h.key) {
            Some(i) => {
                proof {
                    self.lemma_found_index(h.key@, i as int);
                }
                let c = self.entries[i].count;
                if c == 1 {
                    self.evict_at(i);
                } else {
                    self.decrement_at(i);
                }
            },
            None => {
                proof {
                    assert(false);
                }
            },
        }
    }

    /// Borrow the canonical value `h` refers to.
    pub fn get(&self, h: &Interned) -> (r: &T)
        requires
            self.wf(),
            self.has_key(h.key_spec()),
        ensures
            *r == self.value_of(h.key_spec()),
    {
        match self.find(&h.key) {
            Some(i) => {
                proof {
                    self.lemma_found_index(h.key@, i as int);
                }
                &self.entries[i].data
            },
            None => vstd::pervasive::unreached(),
        }
    }
}

/// Law: interning decides identity by the canonical encoding alone.
/// Values with equal canonical encodings get equal content keys, and a
/// pool stores at most one slot per content key, so their handles
/// address the same stored object.
pub proof fn lemma_identity<T: CanonicalSource>(pool: Interner<T>, a: T, b: T)
    requires
        a.canon() == b.canon(),
    ensures
        digest_of(a.canon()) == digest_of(b.canon()),
        pool.has_key(digest_of(a.canon())) ==> pool.value_of(digest_of(a.canon())) == pool.value_of(
            digest_of(b.canon()),
        ),
{
}

/// Law: a well-formed pool holds no dead slot and no duplicate: every
/// stored content key counts at least one outstanding handle, and no
/// two slots store the same key.
pub proof fn lemma_no_dead_slot<T: CanonicalSource>(pool: Interner<T>, k: Seq<u8>)
    requires
        pool.wf(),
        pool.has_key(k),
    ensures
        pool.count_of(k) >= 1,
        forall|i: int, j: int| 0 <= i < j < pool.spec_len() ==> pool.key_at(i) != pool.key_at(j),
{
    let i = pool.index_of(k);
    assert(0 <= i < pool.entries@.len() && pool.key_at(i) == k);
    assert(pool.entries@[i].count >= 1);
}

} // verus!
