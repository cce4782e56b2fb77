//! The header repository: record types and the three maps the relay keeps —
//! block-hash to header record, chain id to fork record, and height to
//! canonical block hash. Each map is an association list whose view is a
//! mathematical `Map`.

use vstd::prelude::*;
use crate::bytes::clone_bytes;

verus! {

/// What the relay records about one block header.
#[derive(Clone, Copy, Debug, PartialEq, Eq, Structural)]
pub struct Header {
    pub height: u32,
    pub chain_id: u32,
}

/// A canonical-chain entry: the hash occupying one height.
pub struct BlockHash {
    pub block_hash: Vec<u8>,
}

/// One chain branch: its tip height, the hash it diverged from, and its
/// member hashes in submission order, each one height above the previous.
pub struct Fork {
    pub height: u32,
    pub ancestor: Vec<u8>,
    pub descendants: Vec<Vec<u8>>,
}

/// The views of a sequence of byte vectors.
pub open spec fn seq_views(s: Seq<Vec<u8>>) -> Seq<Seq<u8>> {
    s.map_values(|d: Vec<u8>| d@)
}

/// Appending one vector appends its view to the sequence of views.
pub proof fn lemma_seq_views_push(pre: Seq<Vec<u8>>, post: Seq<Vec<u8>>, v: Seq<u8>)
    requires
        post.len() == pre.len() + 1,
        forall|j: int| 0 <= j < pre.len() ==> post[j] == pre[j],
        post[pre.len() as int]@ == v,
    ensures
        seq_views(post) =~= seq_views(pre).push(v),
{
    assert forall|j: int| 0 <= j < post.len() implies seq_views(post)[j] == seq_views(pre).push(
        v,
    )[j] by {
        if j < pre.len() {
            assert(seq_views(pre)[j] == pre[j]@);
        }
    }
}

#[verifier::ext_equal]
pub ghost struct ForkModel {
    pub height: u32,
    pub ancestor: Seq<u8>,
    pub descendants: Seq<Seq<u8>>,
}

impl View for Fork {
    type V = ForkModel;

    open spec fn view(&self) -> ForkModel {
        ForkModel {
            height: self.height,
            ancestor: self.ancestor@,
            descendants: seq_views(self.descendants@),
        }
    }
}

impl Fork {
    pub fn clone_fork(&self) -> (r: Fork)
        ensures
            r@ == self@,
    {
        let mut ds: Vec<Vec<u8>> = Vec::new();
        let n = self.descendants.len();
        let mut i: usize = 0;
        while i < n
            invariant
                0 <= i <= n,
                n == self.descendants.len(),
                ds@.len() == i as int,
                seq_views(ds@) =~= seq_views(self.descendants@.take(i as int)),
            decreases n - i,
        {
            let ghost pre = ds@;
            ds.push(clone_bytes(&self.descendants[i]));
            proof {
                assert forall|j: int| 0 <= j < i + 1 implies seq_views(ds@)[j] == seq_views(
                    self.descendants@.take(i + 1),
                )[j] by {
                    if j < i {
                        assert(ds@[j] == pre[j]);
                        assert(seq_views(pre)[j] == seq_views(self.descendants@.take(i as int))[j]);
                    }
                }
                assert(seq_views(ds@) =~= seq_views(self.descendants@.take(i + 1)));
            }
            i += 1;
        }
        let r = Fork { height: self.height, ancestor: clone_bytes(&self.ancestor), descendants: ds };
        proof {
            assert(self.descendants@.take(n as int) =~= self.descendants@);
            assert(r@ =~= self@);
        }
        r
    }
}

/// The model pairs of a header-map entry list.
pub open spec fn hmodels(s: Seq<(Vec<u8>, Header)>) -> Seq<(Seq<u8>, Header)> {
    s.map_values(|e: (Vec<u8>, Header)| (e.0@, e.1))
}

/// The map an entry list denotes: later entries shadow earlier ones.
pub open spec fn hmap_of(s: Seq<(Seq<u8>, Header)>) -> Map<Seq<u8>, Header>
    decreases s.len(),
{
    if s.len() == 0 {
        Map::empty()
    } else {
        hmap_of(s.drop_last()).insert(s.last().0, s.last().1)
    }
}

/// Block-hash to header record.
pub struct HeaderMap {
    entries: Vec<(Vec<u8>, Header)>,
}

impl View for HeaderMap {
    type V = Map<Seq<u8>, Header>;

    closed spec fn view(&self) -> Map<Seq<u8>, Header> {
        hmap_of(hmodels(self.entries@))
    }
}

impl HeaderMap {
    pub fn new() -> (r: HeaderMap)
        ensures
            r@ == Map::<Seq<u8>, Header>::empty(),
    {
        let r = HeaderMap { entries: Vec::new() };
        proof {
            assert(hmodels(r.entries@) =~= Seq::<(Seq<u8>, Header)>::empty());
        }
        r
    }

    pub fn get(&self, key: &Vec<u8>) -> (r: Option<Header>)
        ensures
            match r {
                Some(h) => self@.contains_key(key@) && self@[key@] == h,
                None => !self@.contains_key(key@),
            },
    {
        let n = self.entries.len();
        let mut i: usize = n;
        proof {
            assert(hmodels(self.entries@.take(n as int)) =~= hmodels(self.entries@));
        }
        while i > 0
            invariant
                0 <= i <= n,
                n == self.entries.len(),
                self@.contains_key(key@) == hmap_of(
                    hmodels(self.entries@.take(i as int)),
                ).contains_key(key@),
                self@.contains_key(key@) ==> self@[key@] == hmap_of(
                    hmodels(self.entries@.take(i as int)),
                )[key@],
            decreases i,
        {
            i = i - 1;
            proof {
                assert(hmodels(self.entries@.take(i + 1)).drop_last() =~= hmodels(
                    self.entries@.take(i as int),
                ));
                assert(hmodels(self.entries@.take(i + 1)).last() == (self.entries@[i as int].0@,
                self.entries@[i as int].1));
            }
            if crate::bytes::bytes_eq(&self.entries[i].0, key) {
                return Some(self.entries[i].1);
            }
        }
        proof {
            assert(hmodels(self.entries@.take(0)) =~= Seq::<(Seq<u8>, Header)>::empty());
        }
        None
    }

    /// Insert or overwrite the record for `key`.
    pub fn set(&mut self, key: &Vec<u8>, value: Header)
        ensures
            final(self)@ == old(self)@.insert(key@, value),
    {
        let k = clone_bytes(key);
        self.entries.push((k, value));
        proof {
            assert(hmodels(self.entries@).drop_last() =~= hmodels(old(self).entries@));
            assert(hmodels(self.entries@).last() == (key@, value));
        }
    }

    pub fn clone_map(&self) -> (r: HeaderMap)
        ensures
            r@ == self@,
    {
        let mut out: Vec<(Vec<u8>, Header)> = Vec::new();
        let n = self.entries.len();
        let mut i: usize = 0;
        while i < n
            invariant
                0 <= i <= n,
                n == self.entries.len(),
                out@.len() == i as int,
                hmodels(out@) =~= hmodels(self.entries@.take(i as int)),
            decreases n - i,
        {
            let k = clone_bytes(&self.entries[i].0);
            let ghost pre = out@;
            out.push((k, self.entries[i].1));
            proof {
                assert forall|j: int| 0 <= j < i + 1 implies hmodels(out@)[j] == hmodels(
                    self.entries@.take(i + 1),
                )[j] by {
                    if j < i {
                        assert(out@[j] == pre[j]);
                        assert(hmodels(pre)[j] == hmodels(self.entries@.take(i as int))[j]);
                    }
                }
                assert(hmodels(out@) =~= hmodels(self.entries@.take(i + 1)));
            }
            i += 1;
        }
        let r = HeaderMap { entries: out };
        proof {
            assert(hmodels(r.entries@) =~= hmodels(self.entries@));
        }
        r
    }
}

/// The model pairs of a fork-map entry list.
pub open spec fn fmodels(s: Seq<(u32, Fork)>) -> Seq<(u32, ForkModel)> {
    s.map_values(|e: (u32, Fork)| (e.0, e.1@))
}

pub open spec fn fmap_of(s: Seq<(u32, ForkModel)>) -> Map<u32, ForkModel>
    decreases s.len(),
{
    if s.len() == 0 {
        Map::empty()
    } else {
        fmap_of(s.drop_last()).insert(s.last().0, s.last().1)
    }
}

/// Chain id to fork record.
pub struct ForkMap {
    entries: Vec<(u32, Fork)>,
}

impl View for ForkMap {
    type V = Map<u32, ForkModel>;

    closed spec fn view(&self) -> Map<u32, ForkModel> {
        fmap_of(fmodels(self.entries@))
    }
}

impl ForkMap {
    pub fn new() -> (r: ForkMap)
        ensures
            r@ == Map::<u32, ForkModel>::empty(),
    {
        let r = ForkMap { entries: Vec::new() };
        proof {
            assert(fmodels(r.entries@) =~= Seq::<(u32, ForkModel)>::empty());
        }
        r
    }

    pub fn get(&self, key: u32) -> (r: Option<Fork>)
        ensures
            match r {
                Some(f) => self@.contains_key(key) && self@[key] == f@,
                None => !self@.contains_key(key),
            },
    {
        let n = self.entries.len();
        let mut i: usize = n;
        proof {
            assert(fmodels(self.entries@.take(n as int)) =~= fmodels(self.entries@));
        }
        while i > 0
            invariant
                0 <= i <= n,
                n == self.entries.len(),
                self@.contains_key(key) == fmap_of(
                    fmodels(self.entries@.take(i as int)),
                ).contains_key(key),
                self@.contains_key(key) ==> self@[key] == fmap_of(
                    fmodels(self.entries@.take(i as int)),
                )[key],
            decreases i,
        {
            i = i - 1;
            proof {
                assert(fmodels(self.entries@.take(i + 1)).drop_last() =~= fmodels(
                    self.entries@.take(i as int),
                ));
                assert(fmodels(self.entries@.take(i + 1)).last() == (self.entries@[i as int].0,
                self.entries@[i as int].1@));
            }
            if self.entries[i].0 == key {
                return Some(self.entries[i].1.clone_fork());
            }
        }
        proof {
            assert(fmodels(self.entries@.take(0)) =~= Seq::<(u32, ForkModel)>::empty());
        }
        None
    }

    /// Insert or overwrite the record for `key`.
    pub fn set(&mut self, key: u32, value: Fork)
        ensures
            final(self)@ == old(self)@.insert(key, value@),
    {
        let ghost vm = value@;
        self.entries.push((key, value));
        proof {
            assert(fmodels(self.entries@).drop_last() =~= fmodels(old(self).entries@));
            assert(fmodels(self.entries@).last() == (key, vm));
        }
    }

    /// Drop the record for `key`, if any.
    pub fn remove(&mut self, key: u32)
        ensures
            final(self)@ == old(self)@.remove(key),
    {
        let mut out: Vec<(u32, Fork)> = Vec::new();
        let n = self.entries.len();
        let mut i: usize = 0;
        proof {
            assert(fmodels(out@) =~= Seq::<(u32, ForkModel)>::empty());
            assert(fmodels(self.entries@.take(0)) =~= Seq::<(u32, ForkModel)>::empty());
            assert(fmap_of(Seq::<(u32, ForkModel)>::empty()) =~= Map::<u32, ForkModel>::empty());
            assert(Map::<u32, ForkModel>::empty().remove(key) =~= Map::<u32, ForkModel>::empty());
        }
        while i < n
            invariant
                0 <= i <= n,
                n == self.entries.len(),
                fmap_of(fmodels(out@)) == fmap_of(fmodels(self.entries@.take(i as int))).remove(
                    key,
                ),
            decreases n - i,
        {
            let e0 = self.entries[i].0;
            proof {
                assert(fmodels(self.entries@.take(i + 1)).drop_last() =~= fmodels(
                    self.entries@.take(i as int),
                ));
                assert(fmodels(self.entries@.take(i + 1)).last() == (self.entries@[i as int].0,
                self.entries@[i as int].1@));
            }
            if e0 != key {
                let f = self.entries[i].1.clone_fork();
                let ghost out_pre = fmodels(out@);
                out.push((e0, f));
                proof {
                    assert(fmodels(out@).drop_last() =~= out_pre);
                    assert(fmodels(out@).last() == (e0, self.entries@[i as int].1@));
                    assert(fmap_of(fmodels(out@)) =~= fmap_of(
                        fmodels(self.entries@.take(i + 1)),
                    ).remove(key));
                }
            } else {
                proof {
                    assert(fmap_of(fmodels(out@)) =~= fmap_of(
                        fmodels(self.entries@.take(i + 1)),
                    ).remove(key));
                }
            }
            i += 1;
        }
        proof {
            assert(self.entries@.take(n as int) =~= self.entries@);
        }
        self.entries = out;
    }

    pub fn clone_map(&self) -> (r: ForkMap)
        ensures
            r@ == self@,
    {
        let mut out: Vec<(u32, Fork)> = Vec::new();
        let n = self.entries.len();
        let mut i: usize = 0;
        while i < n
            invariant
                0 <= i <= n,
                n == self.entries.len(),
                out@.len() == i as int,
                fmodels(out@) =~= fmodels(self.entries@.take(i as int)),
            decreases n - i,
        {
            let f = self.entries[i].1.clone_fork();
            let ghost pre = out@;
            out.push((self.entries[i].0, f));
            proof {
                assert forall|j: int| 0 <= j < i + 1 implies fmodels(out@)[j] == fmodels(
                    self.entries@.take(i + 1),
                )[j] by {
                    if j < i {
                        assert(out@[j] == pre[j]);
                        assert(fmodels(pre)[j] == fmodels(self.entries@.take(i as int))[j]);
                    }
                }
                assert(fmodels(out@) =~= fmodels(self.entries@.take(i + 1)));
            }
            i += 1;
        }
        let r = ForkMap { entries: out };
        proof {
            assert(fmodels(r.entries@) =~= fmodels(self.entries@));
        }
        r
    }
}

/// The model pairs of a chain-index entry list.
pub open spec fn cmodels(s: Seq<(u32, BlockHash)>) -> Seq<(u32, Seq<u8>)> {
    s.map_values(|e: (u32, BlockHash)| (e.0, e.1.block_hash@))
}

pub open spec fn cmap_of(s: Seq<(u32, Seq<u8>)>) -> Map<u32, Seq<u8>>
    decreases s.len(),
{
    if s.len() == 0 {
        Map::empty()
    } else {
        cmap_of(s.drop_last()).insert(s.last().0, s.last().1)
    }
}

/// Height to canonical block hash; meaningful for the main chain only.
pub struct ChainIndex {
    entries: Vec<(u32, BlockHash)>,
}

impl View for ChainIndex {
    type V = Map<u32, Seq<u8>>;

    closed spec fn view(&self) -> Map<u32, Seq<u8>> {
        cmap_of(cmodels(self.entries@))
    }
}

impl ChainIndex {
    pub fn new() -> (r: ChainIndex)
        ensures
            r@ == Map::<u32, Seq<u8>>::empty(),
    {
        let r = ChainIndex { entries: Vec::new() };
        proof {
            assert(cmodels(r.entries@) =~= Seq::<(u32, Seq<u8>)>::empty());
        }
        r
    }

    pub fn get(&self, key: u32) -> (r: Option<Vec<u8>>)
        ensures
            match r {
                Some(h) => self@.contains_key(key) && self@[key] == h@,
                None => !self@.contains_key(key),
            },
    {
        let n = self.entries.len();
        let mut i: usize = n;
        proof {
            assert(cmodels(self.entries@.take(n as int)) =~= cmodels(self.entries@));
        }
        while i > 0
            invariant
                0 <= i <= n,
                n == self.entries.len(),
                self@.contains_key(key) == cmap_of(
                    cmodels(self.entries@.take(i as int)),
                ).contains_key(key),
                self@.contains_key(key) ==> self@[key] == cmap_of(
                    cmodels(self.entries@.take(i as int)),
                )[key],
            decreases i,
        {
            i = i - 1;
            proof {
                assert(cmodels(self.entries@.take(i + 1)).drop_last() =~= cmodels(
                    self.entries@.take(i as int),
                ));
                assert(cmodels(self.entries@.take(i + 1)).last() == (self.entries@[i as int].0,
                self.entries@[i as int].1.block_hash@));
            }
            if self.entries[i].0 == key {
                return Some(clone_bytes(&self.entries[i].1.block_hash));
            }
        }
        proof {
            assert(cmodels(self.entries@.take(0)) =~= Seq::<(u32, Seq<u8>)>::empty());
        }
        None
    }

    /// Insert or overwrite the canonical hash at `key`.
    pub fn set(&mut self, key: u32, value: BlockHash)
        ensures
            final(self)@ == old(self)@.insert(key, value.block_hash@),
    {
        let ghost vm = value.block_hash@;
        self.entries.push((key, value));
        proof {
            assert(cmodels(self.entries@).drop_last() =~= cmodels(old(self).entries@));
            assert(cmodels(self.entries@).last() == (key, vm));
        }
    }

    pub fn clone_map(&self) -> (r: ChainIndex)
        ensures
            r@ == self@,
    {
        let mut out: Vec<(u32, BlockHash)> = Vec::new();
        let n = self.entries.len();
        let mut i: usize = 0;
        while i < n
            invariant
                0 <= i <= n,
                n == self.entries.len(),
                out@.len() == i as int,
                cmodels(out@) =~= cmodels(self.entries@.take(i as int)),
            decreases n - i,
        {
            let h = clone_bytes(&self.entries[i].1.block_hash);
            let ghost pre = out@;
            out.push((self.entries[i].0, BlockHash { block_hash: h }));
            proof {
                assert forall|j: int| 0 <= j < i + 1 implies cmodels(out@)[j] == cmodels(
                    self.entries@.take(i + 1),
                )[j] by {
                    if j < i {
                        assert(out@[j] == pre[j]);
                        assert(cmodels(pre)[j] == cmodels(self.entries@.take(i as int))[j]);
                    }
                }
                assert(cmodels(out@) =~= cmodels(self.entries@.take(i + 1)));
            }
            i += 1;
        }
        let r = ChainIndex { entries: out };
        proof {
            assert(cmodels(r.entries@) =~= cmodels(self.entries@));
        }
        r
    }
}

} // verus!
