//! A content-addressed store of fixed-size objects that hands out dense ids.
//! Id 0 is the all-zero object; a 64-bit digest of each object's bytes leads to
//! the chain of ids that share it.
use smallvec::SmallVec;
use std::collections::HashMap;
use vstd::prelude::*;

use crate::le::{le32, push_u32};

verus! {

/// A collision chain: the ids of the objects that share one digest, kept in a
/// `SmallVec` so that the usual chain of one or two ids needs no allocation.
#[verifier::external_body]
pub struct Chain {
    ids: SmallVec<[u32; 4]>,
}

/// The ids that a collision chain holds, in the order they were pushed.
pub uninterp spec fn chain_ids(c: Chain) -> Seq<u32>;

/// Relies on `SmallVec::from_slice`: a chain holding exactly `id`.
#[verifier::external_body]
fn chain_of(id: u32) -> (r: Chain)
    ensures
        chain_ids(r) == seq![id],
{
    Chain { ids: SmallVec::from_slice(&[id]) }
}

/// Relies on `SmallVec::push`: `id` is appended at the end.
#[verifier::external_body]
fn chain_push(c: &mut Chain, id: u32)
    ensures
        chain_ids(*final(c)) == chain_ids(*old(c)).push(id),
{
    c.ids.push(id)
}

/// Relies on `SmallVec::len`: the number of ids held.
#[verifier::external_body]
fn chain_len(c: &Chain) -> (r: usize)
    ensures
        r == chain_ids(*c).len(),
{
    c.ids.len()
}

/// Relies on indexing a `SmallVec`: the id at position `i`.
#[verifier::external_body]
fn chain_at(c: &Chain, i: usize) -> (r: u32)
    requires
        i < chain_ids(*c).len(),
    ensures
        r == chain_ids(*c)[i as int],
{
    c.ids[i]
}

/// The xxh3 64-bit digest of a byte sequence.
pub uninterp spec fn xxh3(b: Seq<u8>) -> u64;

/// Relies on `xxhash_rust::xxh3::xxh3_64`: a digest that depends on the bytes alone.
#[verifier::external_body]
fn xxh3_64(b: &[u8]) -> (r: u64)
    ensures
        r == xxh3(b@),
{
    xxhash_rust::xxh3::xxh3_64(b)
}

/// The little-endian bytes of a sequence of words.
pub open spec fn words_le(s: Seq<u32>) -> Seq<u8>
    decreases s.len(),
{
    if s.len() == 0 {
        Seq::empty()
    } else {
        words_le(s.drop_last()) + le32(s.last())
    }
}

/// What an index can store: plain values with a zero, an equality, and a
/// digest of a sequence of them.
pub trait Element: Sized + Copy {
    spec fn zero_spec() -> Self;

    spec fn digest_of(s: Seq<Self>) -> u64;

    fn zero() -> (r: Self)
        ensures
            r == Self::zero_spec(),
    ;

    fn same(&self, other: &Self) -> (r: bool)
        ensures
            r == (*self == *other),
    ;

    fn digest(s: &[Self]) -> (r: u64)
        ensures
            r == Self::digest_of(s@),
    ;
}

impl Element for u8 {
    open spec fn zero_spec() -> u8 {
        0
    }

    open spec fn digest_of(s: Seq<u8>) -> u64 {
        xxh3(s)
    }

    fn zero() -> (r: u8) {
        0
    }

    fn same(&self, other: &u8) -> (r: bool) {
        *self == *other
    }

    fn digest(s: &[u8]) -> (r: u64) {
        xxh3_64(s)
    }
}

impl Element for u32 {
    open spec fn zero_spec() -> u32 {
        0
    }

    open spec fn digest_of(s: Seq<u32>) -> u64 {
        xxh3(words_le(s))
    }

    fn zero() -> (r: u32) {
        0
    }

    fn same(&self, other: &u32) -> (r: bool) {
        *self == *other
    }

    fn digest(s: &[u32]) -> (r: u64) {
        let mut bytes: Vec<u8> = Vec::new();
        let mut i: usize = 0;
        while i < s.len()
            invariant
                i <= s@.len(),
                bytes@ == words_le(s@.subrange(0, i as int)),
            decreases s@.len() - i,
        {
            push_u32(&mut bytes, s[i]);
            assert(s@.subrange(0, i + 1).drop_last() =~= s@.subrange(0, i as int));
            i += 1;
        }
        assert(s@.subrange(0, s@.len() as int) =~= s@);
        xxh3_64(bytes.as_slice())
    }
}

/// `n` zero elements.
pub open spec fn zeros<T: Element>(n: nat) -> Seq<T> {
    Seq::new(n, |i: int| T::zero_spec())
}

/// The outcome of `BlockIndex::insert`.
#[derive(Debug, Clone, Copy, PartialEq, Eq, Structural)]
pub struct Insertion {
    pub index: u32,
    pub is_new: bool,
}

/// The spec counterpart of `insert` on a store without duplicates: the id of
/// an equal object if there is one, else the next id.
pub open spec fn insert_model<T>(objs: Seq<Seq<T>>, o: Seq<T>) -> (Seq<Seq<T>>, Insertion) {
    if exists|i: int| 0 <= i < objs.len() && objs[i] == o {
        let i = choose|i: int| 0 <= i < objs.len() && objs[i] == o;
        (objs, Insertion { index: i as u32, is_new: false })
    } else {
        (objs.push(o), Insertion { index: objs.len() as u32, is_new: true })
    }
}

/// No object is stored twice.
pub open spec fn distinct<T>(objs: Seq<Seq<T>>) -> bool {
    forall|i: int, j: int| 0 <= i < objs.len() && 0 <= j < objs.len() && i != j ==> objs[i] != objs[j]
}

pub struct BlockIndex<T: Element> {
    index: HashMap<u64, Chain>,
    objects: Vec<Vec<T>>,
    hashes: Vec<u64>,
    object_size: usize,
}

impl<T: Element> View for BlockIndex<T> {
    type V = Seq<Seq<T>>;

    closed spec fn view(&self) -> Seq<Seq<T>> {
        self.objects@.map_values(|o: Vec<T>| o@)
    }
}

fn same_slices<T: Element>(a: &[T], b: &[T]) -> (r: bool)
    ensures
        r == (a@ == b@),
{
    if a.len() != b.len() {
        return false;
    }
    let mut i: usize = 0;
    while i < a.len()
        invariant
            a@.len() == b@.len(),
            i <= a@.len(),
            forall|k: int| 0 <= k < i ==> a@[k] == b@[k],
        decreases a@.len() - i,
    {
        if !a[i].same(&b[i]) {
            return false;
        }
        i += 1;
    }
    assert(a@ =~= b@);
    true
}

impl<T: Element> BlockIndex<T> {
    /// The number of elements in each object.
    pub closed spec fn object_size(&self) -> nat {
        self.object_size as nat
    }

    pub closed spec fn wf(&self) -> bool {
        let o = self.objects@;
        let h = self.hashes@;
        let m = self.index@;
        &&& o.len() == h.len()
        &&& 1 <= o.len() <= u32::MAX + 1
        &&& forall|i: int| 0 <= i < o.len() ==> (#[trigger] o[i])@.len() == self.object_size
        &&& o[0]@ == zeros::<T>(self.object_size as nat)
        &&& forall|i: int| 0 <= i < o.len() ==> #[trigger] h[i] == T::digest_of(o[i]@)
        &&& forall|i: int|
            0 <= i < o.len() ==> m.contains_key(#[trigger] h[i]) && chain_ids(m[h[i]]).contains(
                i as u32,
            )
        &&& forall|k: u64, j: int|
            m.contains_key(k) && 0 <= j < chain_ids(m[k]).len() ==> {
                let id = #[trigger] chain_ids(m[k])[j];
                &&& id < o.len()
                &&& h[id as int] == k
            }
    }

    /// What every well-formed index states of its objects: each has the
    /// object size, and id 0 is the all-zero object.
    pub proof fn lemma_shape(&self)
        requires
            self.wf(),
        ensures
            1 <= self@.len() <= u32::MAX + 1,
            self@[0] == zeros::<T>(self.object_size()),
            forall|i: int| 0 <= i < self@.len() ==> (#[trigger] self@[i]).len() == self.object_size(),
    {
    }

    /// An index holding only the all-zero object, at id 0.
    pub fn new(object_size: usize) -> (r: Self)
        ensures
            r.wf(),
            r.object_size() == object_size,
            r@ == seq![zeros::<T>(object_size as nat)],
    {
        let mut zero: Vec<T> = Vec::new();
        let mut i: usize = 0;
        while i < object_size
            invariant
                i <= object_size,
                zero@ == zeros::<T>(i as nat),
            decreases object_size - i,
        {
            zero.push(T::zero());
            assert(zero@ =~= zeros::<T>((i + 1) as nat));
            i += 1;
        }
        let zero_hash = T::digest(zero.as_slice());
        let mut index: HashMap<u64, Chain> = HashMap::new();
        index.insert(zero_hash, chain_of(0));
        let mut objects: Vec<Vec<T>> = Vec::new();
        objects.push(zero);
        let mut hashes: Vec<u64> = Vec::new();
        hashes.push(zero_hash);
        let r = BlockIndex { index, objects, hashes, object_size };
        proof {
            assert(chain_ids(r.index@[zero_hash]).contains(0u32)) by {
                assert(chain_ids(r.index@[zero_hash])[0] == 0u32);
            }
            assert(r@ =~= seq![zeros::<T>(object_size as nat)]);
        }
        r
    }

    /// Records that `id`, just appended with digest `h`, belongs to the chain of `h`.
    fn link(&mut self, h: u64, id: u32)
        requires
            ({
                let o = old(self).objects@;
                let hs = old(self).hashes@;
                let m = old(self).index@;
                &&& o.len() == hs.len()
                &&& id as int == o.len() - 1
                &&& hs[id as int] == h
                &&& forall|i: int|
                    0 <= i < o.len() - 1 ==> m.contains_key(#[trigger] hs[i]) && chain_ids(
                        m[hs[i]],
                    ).contains(i as u32)
                &&& forall|k: u64, j: int|
                    m.contains_key(k) && 0 <= j < chain_ids(m[k]).len() ==> {
                        let x = #[trigger] chain_ids(m[k])[j];
                        &&& x < o.len()
                        &&& hs[x as int] == k
                    }
            }),
        ensures
            final(self).objects == old(self).objects,
            final(self).hashes == old(self).hashes,
            final(self).object_size == old(self).object_size,
            ({
                let o = final(self).objects@;
                let hs = final(self).hashes@;
                let m = final(self).index@;
                &&& forall|i: int|
                    0 <= i < o.len() ==> m.contains_key(#[trigger] hs[i]) && chain_ids(
                        m[hs[i]],
                    ).contains(i as u32)
                &&& forall|k: u64, j: int|
                    m.contains_key(k) && 0 <= j < chain_ids(m[k]).len() ==> {
                        let x = #[trigger] chain_ids(m[k])[j];
                        &&& x < o.len()
                        &&& hs[x as int] == k
                    }
            }),
    {
        let ghost m0 = self.index@;
        match self.index.remove(&h) {
            Some(c) => {
                let mut c = c;
                let ghost c0 = c;
                chain_push(&mut c, id);
                self.index.insert(h, c);
                proof {
                    let o = self.objects@;
                    let hs = self.hashes@;
                    let m = self.index@;
                    assert(m0.contains_key(h) && m0[h] == c0);
                    assert forall|i: int| 0 <= i < o.len() implies m.contains_key(
                        #[trigger] hs[i],
                    ) && chain_ids(m[hs[i]]).contains(i as u32) by {
                        if i == id as int {
                            assert(chain_ids(m[h]).last() == id);
                        } else if hs[i] == h {
                            let w = choose|w: int|
                                0 <= w < chain_ids(c0).len() && chain_ids(c0)[w] == i as u32;
                            assert(chain_ids(m[h])[w] == i as u32);
                        } else {
                            assert(m[hs[i]] == m0[hs[i]]);
                        }
                    }
                    assert forall|k: u64, j: int|
                        m.contains_key(k) && 0 <= j < chain_ids(m[k]).len() implies {
                        let x = #[trigger] chain_ids(m[k])[j];
                        &&& x < o.len()
                        &&& hs[x as int] == k
                    } by {
                        if k == h {
                            if j < chain_ids(c0).len() {
                                assert(chain_ids(m[k])[j] == chain_ids(m0[k])[j]);
                            }
                        } else {
                            assert(m[k] == m0[k]);
                        }
                    }
                }
            },
            None => {
                self.index.insert(h, chain_of(id));
                proof {
                    let o = self.objects@;
                    let hs = self.hashes@;
                    let m = self.index@;
                    assert forall|i: int| 0 <= i < o.len() implies m.contains_key(
                        #[trigger] hs[i],
                    ) && chain_ids(m[hs[i]]).contains(i as u32) by {
                        if i == id as int {
                            assert(chain_ids(m[h])[0] == id);
                        } else {
                            assert(m[hs[i]] == m0[hs[i]]);
                        }
                    }
                    assert forall|k: u64, j: int|
                        m.contains_key(k) && 0 <= j < chain_ids(m[k]).len() implies {
                        let x = #[trigger] chain_ids(m[k])[j];
                        &&& x < o.len()
                        &&& hs[x as int] == k
                    } by {
                        if k != h {
                            assert(m[k] == m0[k]);
                        }
                    }
                }
            },
        }
    }

    /// Appends `obj` under the next id.
    fn append(&mut self, obj: Vec<T>, h: u64) -> (id: u32)
        requires
            old(self).wf(),
            old(self)@.len() <= u32::MAX,
            obj@.len() == old(self).object_size(),
            h == T::digest_of(obj@),
        ensures
            final(self).wf(),
            final(self).object_size() == old(self).object_size(),
            final(self)@ == old(self)@.push(obj@),
            id == old(self)@.len(),
    {
        let id = self.objects.len() as u32;
        let ghost obj_view = obj@;
        self.objects.push(obj);
        self.hashes.push(h);
        self.link(h, id);
        proof {
            assert(self.objects@[id as int]@ == obj_view);
            assert(self@ =~= old(self)@.push(obj_view));
        }
        id
    }

    /// Stores `obj` unless an equal object is stored already. On a store
    /// without duplicates the id returned is the one `insert_model` gives.
    pub fn insert(&mut self, obj: &[T], frame: u64) -> (r: Insertion)
        requires
            old(self).wf(),
            old(self)@.len() <= u32::MAX,
            obj@.len() == old(self).object_size(),
        ensures
            final(self).wf(),
            final(self).object_size() == old(self).object_size(),
            r.index < final(self)@.len(),
            final(self)@[r.index as int] == obj@,
            r.is_new <==> !old(self)@.contains(obj@),
            r.is_new ==> final(self)@ == old(self)@.push(obj@) && r.index == old(self)@.len(),
            !r.is_new ==> final(self)@ == old(self)@,
            distinct(old(self)@) ==> distinct(final(self)@) && (final(self)@, r) == insert_model(
                old(self)@,
                obj@,
            ),
    {
        let h = T::digest(obj);
        let ghost objs = self@;
        match self.index.get(&h) {
            Some(chain) => {
                let n = chain_len(chain);
                let mut k: usize = 0;
                while k < n
                    invariant
                        self.wf(),
                        self@ == objs,
                        self.index@.contains_key(h),
                        *chain == self.index@[h],
                        n == chain_ids(*chain).len(),
                        k <= n,
                        obj@.len() == self.object_size(),
                        forall|j: int| 0 <= j < k ==> objs[chain_ids(*chain)[j] as int] != obj@,
                    decreases n - k,
                {
                    let id = chain_at(chain, k);
                    assert(id < self.objects@.len()) by {
                        assert(chain_ids(self.index@[h])[k as int] == id);
                    }
                    if same_slices(self.objects[id as usize].as_slice(), obj) {
                        proof {
                            assert(objs.contains(obj@)) by {
                                assert(objs[id as int] == obj@);
                            }
                            if distinct(objs) {
                                assert(objs[id as int] == obj@);
                                let c = choose|i: int| 0 <= i < objs.len() && objs[i] == obj@;
                                assert(c == id as int);
                            }
                        }
                        return Insertion { index: id, is_new: false };
                    }
                    k += 1;
                }
                proof {
                    assert forall|i: int| 0 <= i < objs.len() implies objs[i] != obj@ by {
                        if objs[i] == obj@ {
                            assert(self.hashes@[i] == h);
                            assert(chain_ids(self.index@[h]).contains(i as u32));
                            let w = choose|w: int|
                                0 <= w < chain_ids(*chain).len() && chain_ids(*chain)[w]
                                    == i as u32;
                            assert(objs[chain_ids(*chain)[w] as int] != obj@);
                        }
                    }
                }
            },
            None => {
                proof {
                    assert forall|i: int| 0 <= i < objs.len() implies objs[i] != obj@ by {
                        if objs[i] == obj@ {
                            assert(self.hashes@[i] == h);
                        }
                    }
                }
            },
        }
        let copy = vstd::slice::slice_to_vec(obj);
        let id = self.append(copy, h);
        proof {
            assert(!objs.contains(obj@));
            assert(self@[id as int] == obj@);
            if distinct(objs) {
                assert(distinct(self@));
            }
        }
        Insertion { index: id, is_new: true }
    }

    /// Appends `obj` under id `idx` without looking for an equal object, if
    /// `idx` is the next id and `obj` has the object size; else stores nothing
    /// and returns false.
    pub fn insert_exact(&mut self, idx: u32, obj: Vec<T>, frame: u64) -> (r: bool)
        requires
            old(self).wf(),
        ensures
            final(self).wf(),
            final(self).object_size() == old(self).object_size(),
            r == (idx == old(self)@.len() && obj@.len() == old(self).object_size()),
            r ==> final(self)@ == old(self)@.push(obj@),
            !r ==> final(self)@ == old(self)@,
    {
        if obj.len() != self.object_size || self.objects.len() != idx as usize {
            return false;
        }
        let h = T::digest(obj.as_slice());
        self.append(obj, h);
        true
    }

    /// Forgets every object but the all-zero one at id 0.
    pub fn clear(&mut self)
        requires
            old(self).wf(),
        ensures
            final(self).wf(),
            final(self).object_size() == old(self).object_size(),
            final(self)@ == seq![zeros::<T>(old(self).object_size())],
    {
        self.objects.truncate(1);
        self.hashes.truncate(1);
        self.index = HashMap::new();
        let zero_hash = self.hashes[0];
        self.index.insert(zero_hash, chain_of(0));
        proof {
            assert(chain_ids(self.index@[zero_hash])[0] == 0u32);
            assert(self@ =~= seq![zeros::<T>(old(self).object_size())]);
        }
    }

    /// The number of objects stored.
    pub fn len(&self) -> (r: usize)
        requires
            self.wf(),
        ensures
            r == self@.len(),
    {
        self.objects.len()
    }

    /// The object with id `which`.
    pub fn get(&self, which: u32) -> (r: &Vec<T>)
        requires
            self.wf(),
            which < self@.len(),
        ensures
            r@ == self@[which as int],
    {
        &self.objects[which as usize]
    }
}

} // verus!
