//! Where a layer's offloaded K/V bytes live.
//!
//! The only thing that varies is the medium. Bytes and token counts cross the boundary, nothing
//! else does, so any stored format can live on any medium.

use vstd::prelude::*;

verus! {

/// Why a store refused.
#[derive(Clone, Copy, Debug, PartialEq, Eq, Structural)]
pub enum OffloadError {
    /// A buffer is too small for what is stored.
    BufferTooSmall,
    /// The medium failed.
    Medium,
}

/// What a store holds.
#[verifier::ext_equal]
pub struct StoreView {
    pub k: Seq<u8>,
    pub v: Seq<u8>,
    pub tokens: nat,
}

impl StoreView {
    /// Nothing stored.
    pub open spec fn empty() -> StoreView {
        StoreView { k: Seq::empty(), v: Seq::empty(), tokens: 0 }
    }

    /// One more token.
    pub open spec fn appended(self, k: Seq<u8>, v: Seq<u8>) -> StoreView {
        StoreView { k: self.k + k, v: self.v + v, tokens: self.tokens + 1 }
    }
}

/// `loaded` holds what is stored at its start, and beyond that what `before` held.
pub open spec fn loaded_over(stored: Seq<u8>, before: Seq<u8>, loaded: Seq<u8>) -> bool {
    &&& loaded.len() == before.len()
    &&& stored.len() <= before.len()
    &&& loaded == stored + before.subrange(stored.len() as int, before.len() as int)
}

/// Storage for one layer's K and V bytes.
pub trait OffloadStore {
    /// What the store holds.
    spec fn stored(&self) -> StoreView;

    /// Replaces what is stored.
    fn store(&mut self, k_data: &Vec<u8>, v_data: &Vec<u8>, num_tokens: usize) -> (r: Result<
        (),
        OffloadError,
    >)
        ensures
            r is Ok ==> final(self).stored() == (StoreView {
                k: k_data@,
                v: v_data@,
                tokens: num_tokens as nat,
            }),
    ;

    /// Copies what is stored into the buffers; returns the token count.
    fn load_into(&self, k_buf: &mut Vec<u8>, v_buf: &mut Vec<u8>) -> (r: Result<usize, OffloadError>)
        ensures
            r matches Ok(n) ==> {
                &&& n == self.stored().tokens
                &&& loaded_over(self.stored().k, old(k_buf)@, final(k_buf)@)
                &&& loaded_over(self.stored().v, old(v_buf)@, final(v_buf)@)
            },
    ;

    /// Adds one token.
    fn append_token(&mut self, k_token: &Vec<u8>, v_token: &Vec<u8>) -> (r: Result<
        (),
        OffloadError,
    >)
        ensures
            r is Ok ==> final(self).stored() == old(self).stored().appended(k_token@, v_token@),
    ;

    /// Bytes stored; the count stands at the machine's maximum when it does not fit.
    fn storage_size(&self) -> (n: usize)
        ensures
            n == (if self.stored().k.len() + self.stored().v.len() <= usize::MAX {
                self.stored().k.len() + self.stored().v.len()
            } else {
                usize::MAX as nat
            }),
    ;

    /// Tokens stored.
    fn stored_tokens(&self) -> (n: usize)
        ensures
            n == self.stored().tokens,
    ;

    /// Drops what is stored.
    fn clear(&mut self)
        ensures
            final(self).stored() == StoreView::empty(),
    ;
}

/// A store in memory, uncompressed.
pub struct RawStore {
    k: Vec<u8>,
    v: Vec<u8>,
    tokens: usize,
}

impl RawStore {
    /// An empty store.
    pub fn new() -> (r: RawStore)
        ensures
            r.stored() == StoreView::empty(),
    {
        let r = RawStore { k: Vec::new(), v: Vec::new(), tokens: 0 };
        proof {
            assert(r.stored() =~= StoreView::empty());
        }
        r
    }
}

/// Writes `src` over the start of `dst`.
fn copy_over(src: &Vec<u8>, dst: &mut Vec<u8>)
    requires
        src@.len() <= old(dst)@.len(),
    ensures
        loaded_over(src@, old(dst)@, final(dst)@),
{
    let ghost before = dst@;
    let mut i: usize = 0;
    while i < src.len()
        invariant
            i <= src@.len() <= before.len(),
            dst@ == src@.take(i as int) + before.subrange(i as int, before.len() as int),
        decreases src@.len() - i,
    {
        dst.set(i, src[i]);
        i = i + 1;
        proof {
            assert(dst@ =~= src@.take(i as int) + before.subrange(i as int, before.len() as int));
        }
    }
    proof {
        assert(src@.take(i as int) =~= src@);
    }
}

impl OffloadStore for RawStore {
    closed spec fn stored(&self) -> StoreView {
        StoreView { k: self.k@, v: self.v@, tokens: self.tokens as nat }
    }

    fn store(&mut self, k_data: &Vec<u8>, v_data: &Vec<u8>, num_tokens: usize) -> (r: Result<
        (),
        OffloadError,
    >)
        ensures
            r is Ok,
    {
        self.k = k_data.clone();
        self.v = v_data.clone();
        self.tokens = num_tokens;
        proof {
            assert(self.k@ =~= k_data@);
            assert(self.v@ =~= v_data@);
        }
        Ok(())
    }

    fn load_into(&self, k_buf: &mut Vec<u8>, v_buf: &mut Vec<u8>) -> (r: Result<usize, OffloadError>)
        ensures
            r is Ok <==> self.stored().k.len() <= old(k_buf)@.len() && self.stored().v.len() <= old(v_buf)@.len(),
            r matches Err(e) ==> e == OffloadError::BufferTooSmall && final(k_buf)@ == old(k_buf)@
                && final(v_buf)@ == old(v_buf)@,
    {
        if self.k.len() > k_buf.len() || self.v.len() > v_buf.len() {
            return Err(OffloadError::BufferTooSmall);
        }
        copy_over(&self.k, k_buf);
        copy_over(&self.v, v_buf);
        Ok(self.tokens)
    }

    fn append_token(&mut self, k_token: &Vec<u8>, v_token: &Vec<u8>) -> (r: Result<
        (),
        OffloadError,
    >)
        ensures
            r is Ok <==> old(self).stored().tokens < usize::MAX,
            r is Err ==> final(self).stored() == old(self).stored(),
    {
        if self.tokens == usize::MAX {
            return Err(OffloadError::Medium);
        }
        let ghost before = self.stored();
        append_bytes(&mut self.k, k_token);
        append_bytes(&mut self.v, v_token);
        self.tokens = self.tokens + 1;
        proof {
            assert(self.stored() =~= before.appended(k_token@, v_token@));
        }
        Ok(())
    }

    fn storage_size(&self) -> (n: usize) {
        self.k.len().saturating_add(self.v.len())
    }

    fn stored_tokens(&self) -> (n: usize) {
        self.tokens
    }

    fn clear(&mut self) {
        self.k = Vec::new();
        self.v = Vec::new();
        self.tokens = 0;
        proof {
            assert(self.stored() =~= StoreView::empty());
        }
    }
}

/// Appends `src` to `dst`.
pub(crate) fn append_bytes(dst: &mut Vec<u8>, src: &Vec<u8>)
    ensures
        final(dst)@ == old(dst)@ + src@,
{
    let ghost before = dst@;
    let mut i: usize = 0;
    while i < src.len()
        invariant
            i <= src@.len(),
            dst@ == before + src@.take(i as int),
        decreases src@.len() - i,
    {
        dst.push(src[i]);
        i = i + 1;
        proof {
            assert(dst@ =~= before + src@.take(i as int));
        }
    }
    proof {
        assert(src@.take(i as int) =~= src@);
    }
}

/// What a store holds loads back as it was stored: buffers of exactly the stored size come out
/// equal to the bytes put in.
pub proof fn lemma_load_returns_what_was_stored(bytes: Seq<u8>, before: Seq<u8>, loaded: Seq<u8>)
    requires
        before.len() == bytes.len(),
        loaded_over(bytes, before, loaded),
    ensures
        loaded == bytes,
{
    assert(loaded =~= bytes);
}

/// What one token more adds to a store: its keys behind the keys, its values behind the values, and one
/// to the count; and an empty store holds none.
pub proof fn lemma_a_token_is_stored_behind_the_others(store: StoreView, k: Seq<u8>, v: Seq<u8>, i: int)
    ensures
        StoreView::empty().k.len() == 0,
        StoreView::empty().v.len() == 0,
        StoreView::empty().tokens == 0,
        store.appended(k, v).tokens == store.tokens + 1,
        store.appended(k, v).k.len() == store.k.len() + k.len(),
        store.appended(k, v).v.len() == store.v.len() + v.len(),
        0 <= i < store.k.len() ==> store.appended(k, v).k[i] == store.k[i],
        0 <= i < store.v.len() ==> store.appended(k, v).v[i] == store.v[i],
        0 <= i < k.len() ==> store.appended(k, v).k[store.k.len() + i] == k[i],
        0 <= i < v.len() ==> store.appended(k, v).v[store.v.len() + i] == v[i],
{
}

/// A load changes the start of a buffer, and nothing behind what is stored.
pub proof fn lemma_a_load_fills_the_start(stored: Seq<u8>, before: Seq<u8>, loaded: Seq<u8>, i: int)
    requires
        loaded_over(stored, before, loaded),
        0 <= i < before.len(),
    ensures
        loaded.len() == before.len(),
        stored.len() <= before.len(),
        i < stored.len() ==> loaded[i] == stored[i],
        i >= stored.len() ==> loaded[i] == before[i],
{
}

} // verus!
