//! A record of the keep-sets that evictions committed.
//!
//! Two consumers: a capture that a caller arms around one eviction and drains afterwards, and a
//! cross-layer snapshot that is written to a file as JSON. Positions are those of the frame before
//! the eviction. With neither consumer on, recording changes nothing.

use crate::json::{document, document_text, entries, new_object, number, numbers, object, put, text,
    Json};
use crate::keep::KeepSpec;
use crate::kv_cache::KVCache;
use crate::text::{decimal, decimal_text, digit};
use vstd::prelude::*;

verus! {

/// One layer's captured keep-set.
pub struct CapturedKeepSet {
    pub layer_idx: usize,
    /// The cursor before the eviction.
    pub seq_len: usize,
    pub n_kv_heads: usize,
    /// Kept positions of each head.
    pub keep: Vec<Vec<usize>>,
}

/// One layer's entry of the snapshot.
pub struct LayerKeep {
    pub layer: usize,
    pub heads: Vec<Vec<usize>>,
}

/// The cross-layer snapshot, layers ascending.
pub struct DumpState {
    pub n_layers: usize,
    pub n_kv_heads: usize,
    pub seq_len: usize,
    layers: Vec<LayerKeep>,
}

/// A captured keep-set as contracts speak of it.
#[verifier::ext_equal]
pub struct CapturedView {
    pub layer_idx: usize,
    pub seq_len: usize,
    pub n_kv_heads: usize,
    pub keep: Seq<Seq<usize>>,
}

/// The snapshot as contracts speak of it.
#[verifier::ext_equal]
pub struct DumpView {
    pub n_layers: usize,
    pub n_kv_heads: usize,
    pub seq_len: usize,
    pub keep: Map<usize, Seq<Seq<usize>>>,
}

impl View for CapturedKeepSet {
    type V = CapturedView;

    open spec fn view(&self) -> CapturedView {
        CapturedView {
            layer_idx: self.layer_idx,
            seq_len: self.seq_len,
            n_kv_heads: self.n_kv_heads,
            keep: self.keep.deep_view(),
        }
    }
}

/// The head lists of a keep for `n_kv_heads` heads: a layer-wide list counts for every head.
pub open spec fn head_lists(keep: KeepSpec, n_kv_heads: usize) -> Seq<Seq<usize>> {
    match keep {
        KeepSpec::LayerWide(list) => Seq::new(
            if n_kv_heads == 0 {
                1
            } else {
                n_kv_heads as nat
            },
            |h: int| list@,
        ),
        KeepSpec::PerHead(heads) => heads.deep_view(),
    }
}

/// A copy of a list of lists.
pub fn copy_lists(lists: &Vec<Vec<usize>>) -> (r: Vec<Vec<usize>>)
    ensures
        r.deep_view() == lists.deep_view(),
        r@.len() == lists@.len(),
{
    let mut r: Vec<Vec<usize>> = Vec::with_capacity(lists.len());
    let mut i: usize = 0;
    while i < lists.len()
        invariant
            i <= lists@.len(),
            r@.len() == i,
            forall|x: int| 0 <= x < i ==> (#[trigger] r@[x])@ == lists@[x]@,
        decreases lists@.len() - i,
    {
        let copy = lists[i].clone();
        assert(copy@ =~= lists@[i as int]@);
        r.push(copy);
        i = i + 1;
    }
    proof {
        assert forall|x: int| 0 <= x < r@.len() implies #[trigger] r.deep_view()[x]
            == lists.deep_view()[x] by {
            assert(r.deep_view()[x] =~= r@[x]@);
            assert(lists.deep_view()[x] =~= lists@[x]@);
        }
        assert(r.deep_view() =~= lists.deep_view());
    }
    r
}

/// The head lists of a keep for `n_kv_heads` heads.
fn lists_of(keep: &KeepSpec, n_kv_heads: usize) -> (r: Vec<Vec<usize>>)
    ensures
        r.deep_view() == head_lists(*keep, n_kv_heads),
{
    match keep {
        KeepSpec::LayerWide(list) => {
            let n: usize = if n_kv_heads == 0 {
                1
            } else {
                n_kv_heads
            };
            let mut r: Vec<Vec<usize>> = Vec::with_capacity(n);
            let mut i: usize = 0;
            while i < n
                invariant
                    i <= n,
                    r@.len() == i,
                    forall|x: int| 0 <= x < i ==> (#[trigger] r@[x])@ == list@,
                decreases n - i,
            {
                let copy = list.clone();
                assert(copy@ =~= list@);
                r.push(copy);
                i = i + 1;
            }
            proof {
                assert forall|x: int| 0 <= x < n implies #[trigger] r.deep_view()[x] == list@ by {
                    assert(r.deep_view()[x] =~= r@[x]@);
                }
                assert(r.deep_view() =~= head_lists(*keep, n_kv_heads));
            }
            r
        },
        KeepSpec::PerHead(heads) => copy_lists(heads),
    }
}

/// The entries of a layer list, the last one of equal layers winning.
pub open spec fn layer_map(layers: Seq<LayerKeep>) -> Map<usize, Seq<Seq<usize>>>
    decreases layers.len(),
{
    if layers.len() == 0 {
        Map::empty()
    } else {
        layer_map(layers.drop_last()).insert(layers.last().layer, layers.last().heads.deep_view())
    }
}

/// Layers ascending without repeats.
pub open spec fn layers_ascending(layers: Seq<LayerKeep>) -> bool {
    forall|i: int, j: int|
        0 <= i < j < layers.len() ==> (#[trigger] layers[i]).layer < (#[trigger] layers[j]).layer
}

proof fn lemma_layer_map_entry(layers: Seq<LayerKeep>, k: usize)
    requires
        layers_ascending(layers),
    ensures
        layer_map(layers).dom().contains(k) <==> exists|i: int|
            0 <= i < layers.len() && (#[trigger] layers[i]).layer == k,
        forall|i: int|
            0 <= i < layers.len() && (#[trigger] layers[i]).layer == k ==> layer_map(layers)[k]
                == layers[i].heads.deep_view(),
    decreases layers.len(),
{
    if layers.len() > 0 {
        let init = layers.drop_last();
        let last = layers.last();
        assert forall|i: int, j: int| 0 <= i < j < init.len() implies (#[trigger] init[i]).layer
            < (#[trigger] init[j]).layer by {
            assert(layers[i].layer < layers[j].layer);
        }
        lemma_layer_map_entry(init, k);
        assert forall|i: int| 0 <= i < init.len() implies (#[trigger] init[i]).layer
            < last.layer by {
            assert(layers[i].layer < layers[layers.len() - 1].layer);
        }
        if last.layer == k {
            assert(layers[layers.len() - 1].layer == k);
        }
        if exists|i: int| 0 <= i < layers.len() && (#[trigger] layers[i]).layer == k {
            let i = choose|i: int| 0 <= i < layers.len() && (#[trigger] layers[i]).layer == k;
            if i < init.len() {
                assert(init[i].layer == k);
            }
        }
        assert forall|i: int| 0 <= i < layers.len() && (#[trigger] layers[i]).layer
            == k implies layer_map(layers)[k] == layers[i].heads.deep_view() by {
            if i < init.len() {
                assert(init[i].layer == k);
            }
        }
        if exists|i: int| 0 <= i < init.len() && (#[trigger] init[i]).layer == k {
            let i = choose|i: int| 0 <= i < init.len() && (#[trigger] init[i]).layer == k;
            assert(layers[i].layer == k);
        }
    }
}

impl View for DumpState {
    type V = DumpView;

    closed spec fn view(&self) -> DumpView {
        DumpView {
            n_layers: self.n_layers,
            n_kv_heads: self.n_kv_heads,
            seq_len: self.seq_len,
            keep: layer_map(self.layers@),
        }
    }
}

impl DumpState {
    /// Layers are ascending.
    pub closed spec fn wf(self) -> bool {
        layers_ascending(self.layers@)
    }

    /// The recorded layers, ascending.
    pub closed spec fn spec_layers(self) -> Seq<LayerKeep> {
        self.layers@
    }

    /// A snapshot without layers.
    pub fn new(n_layers: usize, n_kv_heads: usize, seq_len: usize) -> (r: DumpState)
        ensures
            r.wf(),
            r@ == (DumpView {
                n_layers,
                n_kv_heads,
                seq_len,
                keep: Map::<usize, Seq<Seq<usize>>>::empty(),
            }),
    {
        DumpState { n_layers, n_kv_heads, seq_len, layers: Vec::new() }
    }

    /// Enters a layer's lists, in place of an earlier entry of the layer.
    pub fn insert(&mut self, layer: usize, heads: Vec<Vec<usize>>)
        requires
            old(self).wf(),
        ensures
            final(self).wf(),
            final(self)@ == (DumpView {
                keep: old(self)@.keep.insert(layer, heads.deep_view()),
                ..old(self)@
            }),
    {
        let ghost before = self.layers@;
        let ghost lists = heads.deep_view();
        let mut i: usize = 0;
        while i < self.layers.len() && self.layers[i].layer < layer
            invariant
                i <= self.layers@.len(),
                self.layers@ == before,
                *self == *old(self),
                forall|j: int| 0 <= j < i ==> (#[trigger] self.layers@[j]).layer < layer,
            decreases self.layers@.len() - i,
        {
            i = i + 1;
        }
        let entry = LayerKeep { layer, heads };
        if i < self.layers.len() && self.layers[i].layer == layer {
            self.layers.set(i, entry);
            proof {
                let after = self.layers@;
                assert(after == before.update(i as int, entry));
                assert(layers_ascending(after)) by {
                    assert forall|a: int, b: int|
                        0 <= a < b < after.len() implies (#[trigger] after[a]).layer
                        < (#[trigger] after[b]).layer by {
                        assert(before[a].layer < before[b].layer);
                        assert(after[a].layer == before[a].layer);
                        assert(after[b].layer == before[b].layer);
                    }
                }
            }
        } else {
            self.layers.insert(i, entry);
            proof {
                let after = self.layers@;
                assert(after == before.insert(i as int, entry));
                assert forall|a: int, b: int|
                    0 <= a < b < after.len() implies (#[trigger] after[a]).layer
                    < (#[trigger] after[b]).layer by {
                    if a == i {
                        assert(after[b] == before[b - 1]);
                        if b - 1 > i {
                            assert(before[i as int].layer < before[b - 1].layer);
                        }
                    } else if b == i {
                        assert(after[a] == before[a]);
                    } else if b < i {
                        assert(before[a].layer < before[b].layer);
                    } else if a < i {
                        assert(before[a].layer < before[b - 1].layer);
                    } else {
                        assert(before[a - 1].layer < before[b - 1].layer);
                    }
                }
            }
        }
        proof {
            let after = self.layers@;
            let expected = layer_map(before).insert(layer, lists);
            assert(after[i as int].layer == layer && after[i as int].heads.deep_view() == lists);
            assert forall|k: usize|
                #![trigger layer_map(after).dom().contains(k)]
                #![trigger layer_map(after)[k]]
                layer_map(after).dom().contains(k) == expected.dom().contains(k) && (
                expected.dom().contains(k) ==> layer_map(after)[k] == expected[k]) by {
                lemma_layer_map_entry(before, k);
                lemma_layer_map_entry(after, k);
                if k == layer {
                    assert(after[i as int].layer == k);
                } else {
                    if exists|j: int| 0 <= j < before.len() && (#[trigger] before[j]).layer == k {
                        let j = choose|j: int|
                            0 <= j < before.len() && (#[trigger] before[j]).layer == k;
                        if after.len() == before.len() || j < i {
                            assert(after[j].layer == k);
                        } else {
                            assert(after[j + 1].layer == k);
                        }
                    }
                    if exists|j: int| 0 <= j < after.len() && (#[trigger] after[j]).layer == k {
                        let j = choose|j: int|
                            0 <= j < after.len() && (#[trigger] after[j]).layer == k;
                        if after.len() == before.len() || j < i {
                            assert(before[j].layer == k);
                        } else {
                            assert(before[j - 1].layer == k);
                        }
                    }
                }
            }
            assert(layer_map(after).dom() =~= expected.dom());
            assert(layer_map(after) =~= expected);
        }
    }
}

/// The keep-set recorder: an in-memory capture and a file snapshot.
pub struct KeepsetDump {
    armed: bool,
    captured: Vec<CapturedKeepSet>,
    to_file: bool,
    state: DumpState,
}

/// The recorder as contracts speak of it.
#[verifier::ext_equal]
pub struct RecorderView {
    pub armed: bool,
    pub captured: Seq<CapturedView>,
    pub to_file: bool,
    pub state: DumpView,
}

/// Captured keep-sets as contracts speak of them.
pub open spec fn captured_views(captured: Seq<CapturedKeepSet>) -> Seq<CapturedView> {
    Seq::new(captured.len(), |i: int| captured[i]@)
}

impl View for KeepsetDump {
    type V = RecorderView;

    closed spec fn view(&self) -> RecorderView {
        RecorderView {
            armed: self.armed,
            captured: captured_views(self.captured@),
            to_file: self.to_file,
            state: self.state@,
        }
    }
}

impl RecorderView {
    /// Whether a record would be kept anywhere.
    pub open spec fn active(self) -> bool {
        self.armed || self.to_file
    }

    /// The recorder after one layer's committed keep.
    pub open spec fn recorded(
        self,
        keep: Seq<Seq<usize>>,
        seq_len: usize,
        n_kv_heads: usize,
        layer_idx: usize,
        n_layers: usize,
    ) -> RecorderView {
        RecorderView {
            captured: if self.armed {
                self.captured.push(CapturedView { layer_idx, seq_len, n_kv_heads, keep })
            } else {
                self.captured
            },
            state: if self.to_file {
                DumpView {
                    n_layers,
                    n_kv_heads,
                    seq_len,
                    keep: self.state.keep.insert(layer_idx, keep),
                }
            } else {
                self.state
            },
            ..self
        }
    }
}

impl KeepsetDump {
    /// The snapshot is well-formed.
    pub closed spec fn wf(self) -> bool {
        self.state.wf()
    }

    /// A recorder that is not armed; `to_file` turns the snapshot on.
    pub fn new(to_file: bool) -> (r: KeepsetDump)
        ensures
            r.wf(),
            !r@.armed,
            r@.captured == Seq::<CapturedView>::empty(),
            r@.to_file == to_file,
            r@.state.keep == Map::<usize, Seq<Seq<usize>>>::empty(),
    {
        let r = KeepsetDump {
            armed: false,
            captured: Vec::new(),
            to_file,
            state: DumpState::new(0, 0, 0),
        };
        proof {
            assert(r@.captured =~= Seq::<CapturedView>::empty());
        }
        r
    }

    /// Whether a record would be kept anywhere.
    pub fn is_active(&self) -> (r: bool)
        ensures
            r == self@.active(),
    {
        self.armed || self.to_file
    }

    /// The snapshot.
    pub fn state(&self) -> (r: &DumpState)
        requires
            self.wf(),
        ensures
            r@ == self@.state,
            r.wf(),
    {
        &self.state
    }

    /// Arms the capture, dropping what an earlier one holds.
    pub fn arm_capture(&mut self)
        requires
            old(self).wf(),
        ensures
            final(self).wf(),
            final(self)@ == (RecorderView {
                armed: true,
                captured: Seq::empty(),
                ..old(self)@
            }),
    {
        self.captured = Vec::new();
        self.armed = true;
        proof {
            assert(self@.captured =~= Seq::<CapturedView>::empty());
        }
    }

    /// Disarms the capture and drops what it holds.
    pub fn disarm_capture(&mut self)
        requires
            old(self).wf(),
        ensures
            final(self).wf(),
            final(self)@ == (RecorderView {
                armed: false,
                captured: Seq::empty(),
                ..old(self)@
            }),
    {
        self.armed = false;
        self.captured = Vec::new();
        proof {
            assert(self@.captured =~= Seq::<CapturedView>::empty());
        }
    }

    /// Disarms the capture and hands out what it holds, in record order.
    pub fn drain_capture(&mut self) -> (r: Vec<CapturedKeepSet>)
        requires
            old(self).wf(),
        ensures
            final(self).wf(),
            captured_views(r@) == old(self)@.captured,
            final(self)@ == (RecorderView {
                armed: false,
                captured: Seq::empty(),
                ..old(self)@
            }),
    {
        self.armed = false;
        let mut r: Vec<CapturedKeepSet> = Vec::new();
        std::mem::swap(&mut r, &mut self.captured);
        proof {
            assert(self@.captured =~= Seq::<CapturedView>::empty());
        }
        r
    }

    /// Records one layer's committed keep, before the compaction. Returns whether the snapshot
    /// changed and wants writing.
    pub fn record(&mut self, cache: &KVCache, keep: &KeepSpec, layer_idx: usize, n_layers: usize)
        -> (write: bool)
        requires
            old(self).wf(),
        ensures
            final(self).wf(),
            final(self)@ == old(self)@.recorded(
                head_lists(*keep, cache@.shape.kv_heads),
                cache@.current_pos,
                cache@.shape.kv_heads,
                layer_idx,
                n_layers,
            ),
            write == old(self)@.to_file,
    {
        self.record_frame(cache.current_pos(), cache.kv_heads(), keep, layer_idx, n_layers)
    }

    /// Records a keep made in a frame of `seq_len` tokens and `n_kv_heads` heads: captured while
    /// armed, entered in the snapshot while that is on. Returns whether the snapshot changed and
    /// wants writing.
    pub fn record_frame(
        &mut self,
        seq_len: usize,
        n_kv_heads: usize,
        keep: &KeepSpec,
        layer_idx: usize,
        n_layers: usize,
    ) -> (write: bool)
        requires
            old(self).wf(),
        ensures
            final(self).wf(),
            final(self)@ == old(self)@.recorded(
                head_lists(*keep, n_kv_heads),
                seq_len,
                n_kv_heads,
                layer_idx,
                n_layers,
            ),
            write == old(self)@.to_file,
    {
        let ghost old_captured = self.captured@;
        if self.armed {
            let lists = lists_of(keep, n_kv_heads);
            let entry = CapturedKeepSet { layer_idx, seq_len, n_kv_heads, keep: lists };
            self.captured.push(entry);
            proof {
                assert(captured_views(self.captured@) =~= captured_views(old_captured).push(entry@));
            }
        }
        if self.to_file {
            let lists = lists_of(keep, n_kv_heads);
            self.state.n_layers = n_layers;
            self.state.n_kv_heads = n_kv_heads;
            self.state.seq_len = seq_len;
            self.state.insert(layer_idx, lists);
        }
        self.to_file
    }
}

/// The entries of a layer's heads, under their decimal numbers.
pub open spec fn head_entries(heads: Seq<Seq<usize>>) -> Map<Seq<char>, Json>
    decreases heads.len(),
{
    if heads.len() == 0 {
        Map::empty()
    } else {
        head_entries(heads.drop_last()).insert(
            decimal((heads.len() - 1) as nat),
            Json::Numbers(heads.last()),
        )
    }
}

/// The entries of the layers, under their decimal numbers.
pub open spec fn layer_entries(layers: Seq<LayerKeep>) -> Map<Seq<char>, Json>
    decreases layers.len(),
{
    if layers.len() == 0 {
        Map::empty()
    } else {
        layer_entries(layers.drop_last()).insert(
            decimal(layers.last().layer as nat),
            Json::Object(head_entries(layers.last().heads.deep_view())),
        )
    }
}

/// The document of a snapshot.
pub open spec fn dump_document(view: DumpView, layers: Seq<LayerKeep>) -> Json {
    Json::Object(
        Map::<Seq<char>, Json>::empty().insert(
            "n_layers"@,
            Json::Number(view.n_layers as nat),
        ).insert("n_kv_heads"@, Json::Number(view.n_kv_heads as nat)).insert(
            "seq_len"@,
            Json::Number(view.seq_len as nat),
        ).insert("keep"@, Json::Object(layer_entries(layers))),
    )
}

/// The object of a layer's heads.
fn head_object(heads: &Vec<Vec<usize>>) -> (m: serde_json::Map<String, serde_json::Value>)
    ensures
        entries(m) == head_entries(heads.deep_view()),
{
    let ghost lists = heads.deep_view();
    let mut m = new_object();
    let mut h: usize = 0;
    proof {
        assert(lists.take(0).len() == 0);
    }
    while h < heads.len()
        invariant
            h <= heads@.len(),
            lists == heads.deep_view(),
            entries(m) == head_entries(lists.take(h as int)),
        decreases heads@.len() - h,
    {
        let list = &heads[h];
        put(&mut m, decimal_text(h), numbers(list));
        proof {
            let next = lists.take(h + 1);
            assert(next.drop_last() =~= lists.take(h as int));
            assert(next.last() =~= list@);
        }
        h = h + 1;
    }
    proof {
        assert(lists.take(h as int) =~= lists);
    }
    m
}

/// The JSON document of a snapshot: the counts, and under `keep` one object per layer that holds
/// one array per head.
pub fn build_json(st: &DumpState) -> (v: serde_json::Value)
    requires
        st.wf(),
    ensures
        document(v) == dump_document(st@, st.spec_layers()),
{
    let mut keep = new_object();
    let mut i: usize = 0;
    proof {
        assert(st.layers@.take(0).len() == 0);
    }
    while i < st.layers.len()
        invariant
            i <= st.layers@.len(),
            entries(keep) == layer_entries(st.layers@.take(i as int)),
        decreases st.layers@.len() - i,
    {
        let heads = head_object(&st.layers[i].heads);
        put(&mut keep, decimal_text(st.layers[i].layer), object(heads));
        proof {
            let next = st.layers@.take(i + 1);
            assert(next.drop_last() =~= st.layers@.take(i as int));
            assert(next.last() == st.layers@[i as int]);
        }
        i = i + 1;
    }
    proof {
        assert(st.layers@.take(i as int) =~= st.layers@);
    }
    let mut doc = new_object();
    put(&mut doc, "n_layers".to_owned(), number(st.n_layers));
    put(&mut doc, "n_kv_heads".to_owned(), number(st.n_kv_heads));
    put(&mut doc, "seq_len".to_owned(), number(st.seq_len));
    put(&mut doc, "keep".to_owned(), object(keep));
    object(doc)
}

/// The text of a snapshot's document, as it goes to the file.
pub fn dump_text(st: &DumpState) -> (s: Option<String>)
    requires
        st.wf(),
    ensures
        s is Some,
        s->0@ == document_text(dump_document(st@, st.spec_layers())),
{
    text(&build_json(st))
}

/// Different numbers have different decimals.
proof fn lemma_decimal_injective(a: nat, b: nat)
    requires
        decimal(a) == decimal(b),
    ensures
        a == b,
    decreases a,
{
    lemma_decimal_nonempty(a);
    lemma_decimal_nonempty(b);
    assert(decimal(a).last() == digit(a % 10));
    assert(decimal(b).last() == digit(b % 10));
    assert(a % 10 == b % 10) by {
        assert(digit(a % 10) as int == '0' as int + a % 10);
        assert(digit(b % 10) as int == '0' as int + b % 10);
    }
    if a >= 10 && b >= 10 {
        assert(decimal(a).drop_last() =~= decimal(a / 10));
        assert(decimal(b).drop_last() =~= decimal(b / 10));
        lemma_decimal_injective(a / 10, b / 10);
    } else if a >= 10 {
        lemma_decimal_nonempty(a / 10);
    } else if b >= 10 {
        lemma_decimal_nonempty(b / 10);
    }
}

proof fn lemma_decimal_nonempty(a: nat)
    ensures
        decimal(a).len() > 0,
{
}

/// Every recorded layer is in the document under its decimal number, with its heads' lists.
pub proof fn lemma_document_holds_every_layer(layers: Seq<LayerKeep>, i: int)
    requires
        layers_ascending(layers),
        0 <= i < layers.len(),
    ensures
        layer_entries(layers).dom().contains(decimal(layers[i].layer as nat)),
        layer_entries(layers)[decimal(layers[i].layer as nat)] == Json::Object(
            head_entries(layers[i].heads.deep_view()),
        ),
    decreases layers.len(),
{
    let init = layers.drop_last();
    if i < init.len() {
        assert(layers_ascending(init)) by {
            assert forall|a: int, b: int| 0 <= a < b < init.len() implies (#[trigger] init[a]).layer
                < (#[trigger] init[b]).layer by {
                assert(layers[a].layer < layers[b].layer);
            }
        }
        lemma_document_holds_every_layer(init, i);
        assert(init[i] == layers[i]);
        assert(layers[i].layer < layers[layers.len() - 1].layer);
        if decimal(layers[i].layer as nat) == decimal(layers.last().layer as nat) {
            lemma_decimal_injective(layers[i].layer as nat, layers.last().layer as nat);
        }
    }
}

/// Every head of a layer is in the layer's object under its decimal number, with its list.
pub proof fn lemma_layer_object_holds_every_head(heads: Seq<Seq<usize>>, h: int)
    requires
        0 <= h < heads.len(),
    ensures
        head_entries(heads).dom().contains(decimal(h as nat)),
        head_entries(heads)[decimal(h as nat)] == Json::Numbers(heads[h]),
    decreases heads.len(),
{
    let init = heads.drop_last();
    if h < init.len() {
        lemma_layer_object_holds_every_head(init, h);
        if decimal(h as nat) == decimal((heads.len() - 1) as nat) {
            lemma_decimal_injective(h as nat, (heads.len() - 1) as nat);
        }
    }
}

/// What is recorded of a keep: one list for every head, the layer-wide one for each of them or each
/// head's own.
pub proof fn lemma_recorded_lists(keep: KeepSpec, n_kv_heads: usize, h: int)
    ensures
        keep matches KeepSpec::LayerWide(list) ==> {
            &&& n_kv_heads > 0 ==> head_lists(keep, n_kv_heads).len() == n_kv_heads
            &&& n_kv_heads == 0 ==> head_lists(keep, n_kv_heads).len() == 1
            &&& 0 <= h < head_lists(keep, n_kv_heads).len() ==> head_lists(keep, n_kv_heads)[h]
                == list@
        },
        keep matches KeepSpec::PerHead(heads) ==> {
            &&& head_lists(keep, n_kv_heads).len() == heads@.len()
            &&& 0 <= h < heads@.len() ==> head_lists(keep, n_kv_heads)[h] == heads@[h]@
        },
{
}

/// What a record changes: while armed, one capture more behind the others, with the layer, the frame, the
/// heads and the lists; while the snapshot is on, the layer's entry and the snapshot's sizes, and no other
/// layer's entry. What is off stays as it is.
pub proof fn lemma_what_a_record_changes(
    before: RecorderView,
    keep: Seq<Seq<usize>>,
    seq_len: usize,
    n_kv_heads: usize,
    layer_idx: usize,
    n_layers: usize,
    other: usize,
)
    ensures
        ({
            let after = before.recorded(keep, seq_len, n_kv_heads, layer_idx, n_layers);
            &&& after.armed == before.armed
            &&& after.to_file == before.to_file
            &&& !before.armed ==> after.captured == before.captured
            &&& before.armed ==> {
                &&& after.captured.len() == before.captured.len() + 1
                &&& forall|i: int|
                    0 <= i < before.captured.len() ==> #[trigger] after.captured[i]
                        == before.captured[i]
                &&& after.captured.last().layer_idx == layer_idx
                &&& after.captured.last().seq_len == seq_len
                &&& after.captured.last().n_kv_heads == n_kv_heads
                &&& after.captured.last().keep == keep
            }
            &&& !before.to_file ==> after.state == before.state
            &&& before.to_file ==> {
                &&& after.state.n_layers == n_layers
                &&& after.state.n_kv_heads == n_kv_heads
                &&& after.state.seq_len == seq_len
                &&& after.state.keep.dom().contains(layer_idx)
                &&& after.state.keep[layer_idx] == keep
                &&& other != layer_idx ==> (after.state.keep.dom().contains(other)
                    <==> before.state.keep.dom().contains(other))
                &&& other != layer_idx && before.state.keep.dom().contains(other)
                    ==> after.state.keep[other] == before.state.keep[other]
            }
            &&& before.active() <==> before.armed || before.to_file
        }),
{
}

/// What a snapshot's document holds: the three sizes under their names, and under `keep` the layers.
pub proof fn lemma_document_entries(view: DumpView, layers: Seq<LayerKeep>)
    ensures
        dump_document(view, layers) matches Json::Object(m) && {
            &&& m.dom().contains("n_layers"@) && m["n_layers"@] == Json::Number(view.n_layers as nat)
            &&& m.dom().contains("n_kv_heads"@) && m["n_kv_heads"@] == Json::Number(
                view.n_kv_heads as nat,
            )
            &&& m.dom().contains("seq_len"@) && m["seq_len"@] == Json::Number(view.seq_len as nat)
            &&& m.dom().contains("keep"@) && m["keep"@] == Json::Object(layer_entries(layers))
            &&& forall|name: Seq<char>| #[trigger]
                m.dom().contains(name) ==> name == "n_layers"@ || name == "n_kv_heads"@ || name
                    == "seq_len"@ || name == "keep"@
        },
{
    reveal_strlit("n_layers");
    reveal_strlit("n_kv_heads");
    reveal_strlit("seq_len");
    reveal_strlit("keep");
    assert("n_layers"@.len() == 8 && "n_kv_heads"@.len() == 10 && "seq_len"@.len() == 7
        && "keep"@.len() == 4);
}

} // verus!
