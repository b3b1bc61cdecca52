//! The map of the built-in techniques: which axis each occupies, which signals it reads, and which
//! it produces for others.
//!
//! The map is a fixed matrix, and it is occupied: no technique reads a signal that nothing produces
//! and that the engine does not supply.

use vstd::prelude::*;

verus! {

/// A signal that a technique can read.
#[derive(Clone, Copy, Debug, PartialEq, Eq, Structural)]
pub enum TensorKind {
    Key,
    Value,
    Scores,
    AttnWeights,
    QueryStats,
    PrefillAttention,
    Query,
}

impl TensorKind {
    /// The kind in words, as messages print it.
    pub open spec fn spec_label(self) -> Seq<char> {
        match self {
            TensorKind::Key => "Key"@,
            TensorKind::Value => "Value"@,
            TensorKind::Scores => "Scores"@,
            TensorKind::AttnWeights => "AttnWeights"@,
            TensorKind::QueryStats => "QueryStats"@,
            TensorKind::PrefillAttention => "PrefillAttention"@,
            TensorKind::Query => "Query"@,
        }
    }

    /// The kind in words, as messages print it.
    pub fn label(&self) -> (s: &'static str)
        ensures
            s@ == self.spec_label(),
    {
        match self {
            TensorKind::Key => "Key",
            TensorKind::Value => "Value",
            TensorKind::Scores => "Scores",
            TensorKind::AttnWeights => "AttnWeights",
            TensorKind::QueryStats => "QueryStats",
            TensorKind::PrefillAttention => "PrefillAttention",
            TensorKind::Query => "Query",
        }
    }
}

/// When a technique's effect is consumed.
#[derive(Clone, Copy, Debug, PartialEq, Eq, Structural)]
pub enum MutationPhase {
    /// The per-step slot in which the cache is changed.
    KvMutate,
}

/// The axis a technique occupies.
#[derive(Clone, Copy, Debug, PartialEq, Eq, Structural)]
pub enum KvAxis {
    /// Which tokens stay resident.
    Stage,
    /// How they are stored.
    Format,
    /// Where they are.
    Hardware,
    /// Who produces the attention scores.
    Score,
    /// Which positions a step reads.
    Read,
}

/// One technique on the map.
#[derive(Debug)]
pub struct KvTechniqueDescriptor {
    pub name: &'static str,
    pub axis: KvAxis,
    pub phase: MutationPhase,
    /// Signals it reads.
    pub reads: Vec<TensorKind>,
    /// Signals it produces.
    pub produces: Vec<TensorKind>,
}

/// A descriptor as its contracts speak of it.
#[verifier::ext_equal]
pub struct DescriptorView {
    pub name: Seq<char>,
    pub axis: KvAxis,
    pub phase: MutationPhase,
    pub reads: Seq<TensorKind>,
    pub produces: Seq<TensorKind>,
}

impl View for KvTechniqueDescriptor {
    type V = DescriptorView;

    open spec fn view(&self) -> DescriptorView {
        DescriptorView {
            name: self.name@,
            axis: self.axis,
            phase: self.phase,
            reads: self.reads@,
            produces: self.produces@,
        }
    }
}

/// The views of a list of descriptors.
pub open spec fn descriptor_views(list: Seq<KvTechniqueDescriptor>) -> Seq<DescriptorView> {
    Seq::new(list.len(), |i: int| list[i]@)
}

/// A technique of the built-in map.
pub open spec fn built_in(
    name: Seq<char>,
    axis: KvAxis,
    reads: Seq<TensorKind>,
    produces: Seq<TensorKind>,
) -> DescriptorView {
    DescriptorView { name, axis, phase: MutationPhase::KvMutate, reads, produces }
}

/// The built-in map.
pub open spec fn descriptor_table() -> Seq<DescriptorView> {
    seq![
        built_in("sliding"@, KvAxis::Stage, seq![], seq![]),
        built_in("streaming"@, KvAxis::Stage, seq![], seq![]),
        built_in("h2o"@, KvAxis::Stage, seq![TensorKind::Scores], seq![]),
        built_in("h2o_plus"@, KvAxis::Stage, seq![TensorKind::Scores], seq![]),
        built_in("d2o"@, KvAxis::Stage, seq![TensorKind::Scores, TensorKind::Key], seq![]),
        built_in("attn_score"@, KvAxis::Score, seq![], seq![TensorKind::Scores]),
        built_in("quest"@, KvAxis::Read, seq![TensorKind::Key, TensorKind::Query], seq![]),
    ]
}

/// The signals that the engine supplies itself.
pub open spec fn engine_intrinsic_kinds() -> Seq<TensorKind> {
    seq![
        TensorKind::Key,
        TensorKind::Value,
        TensorKind::AttnWeights,
        TensorKind::QueryStats,
        TensorKind::PrefillAttention,
        TensorKind::Query,
    ]
}

fn descriptor(
    name: &'static str,
    axis: KvAxis,
    reads: Vec<TensorKind>,
    produces: Vec<TensorKind>,
) -> (d: KvTechniqueDescriptor)
    ensures
        d@ == built_in(name@, axis, reads@, produces@),
{
    KvTechniqueDescriptor { name, axis, phase: MutationPhase::KvMutate, reads, produces }
}

/// The built-in map.
pub fn technique_descriptors() -> (list: Vec<KvTechniqueDescriptor>)
    ensures
        descriptor_views(list@) == descriptor_table(),
{
    let list = vec![
        descriptor("sliding", KvAxis::Stage, vec![], vec![]),
        descriptor("streaming", KvAxis::Stage, vec![], vec![]),
        descriptor("h2o", KvAxis::Stage, vec![TensorKind::Scores], vec![]),
        descriptor("h2o_plus", KvAxis::Stage, vec![TensorKind::Scores], vec![]),
        descriptor("d2o", KvAxis::Stage, vec![TensorKind::Scores, TensorKind::Key], vec![]),
        descriptor("attn_score", KvAxis::Score, vec![], vec![TensorKind::Scores]),
        descriptor("quest", KvAxis::Read, vec![TensorKind::Key, TensorKind::Query], vec![]),
    ];
    proof {
        let views = descriptor_views(list@);
        assert forall|i: int| 0 <= i < 7 implies #[trigger] views[i] =~= descriptor_table()[i] by {
            assert(views[i] == list@[i]@);
        }
        assert(views =~= descriptor_table());
    }
    list
}

/// The signals that the engine supplies itself.
pub fn engine_intrinsic() -> (kinds: Vec<TensorKind>)
    ensures
        kinds@ == engine_intrinsic_kinds(),
{
    let kinds = vec![
        TensorKind::Key,
        TensorKind::Value,
        TensorKind::AttnWeights,
        TensorKind::QueryStats,
        TensorKind::PrefillAttention,
        TensorKind::Query,
    ];
    assert(kinds@ =~= engine_intrinsic_kinds());
    kinds
}

/// The names on the built-in map, in its order.
pub fn descriptor_names() -> (names: Vec<&'static str>)
    ensures
        names@.len() == descriptor_table().len(),
        forall|i: int| 0 <= i < names@.len() ==> (#[trigger] names@[i])@ == descriptor_table()[i].name,
{
    let list = technique_descriptors();
    let mut names: Vec<&'static str> = Vec::new();
    let mut i: usize = 0;
    while i < list.len()
        invariant
            i <= list@.len(),
            names@.len() == i,
            descriptor_views(list@) == descriptor_table(),
            forall|k: int|
                0 <= k < i ==> (#[trigger] names@[k])@ == descriptor_table()[k].name,
        decreases list@.len() - i,
    {
        assert(descriptor_views(list@)[i as int] == list@[i as int]@);
        names.push(list[i].name);
        i = i + 1;
    }
    assert(descriptor_views(list@).len() == list@.len());
    names
}

/// Something supplies the signal: the engine, or a technique that produces it.
pub open spec fn available(
    list: Seq<DescriptorView>,
    intrinsic: Seq<TensorKind>,
    kind: TensorKind,
) -> bool {
    intrinsic.contains(kind) || exists|i: int|
        0 <= i < list.len() && (#[trigger] list[i]).produces.contains(kind)
}

/// No technique of the list reads a signal that nothing supplies.
pub open spec fn occupied(list: Seq<DescriptorView>, intrinsic: Seq<TensorKind>) -> bool {
    forall|i: int, j: int|
        0 <= i < list.len() && 0 <= j < list[i].reads.len() ==> available(
            list,
            intrinsic,
            #[trigger] list[i].reads[j],
        )
}

/// Read `j` of technique `i` is the first that nothing supplies.
pub open spec fn first_orphan(
    list: Seq<DescriptorView>,
    intrinsic: Seq<TensorKind>,
    i: int,
    j: int,
) -> bool {
    &&& 0 <= i < list.len()
    &&& 0 <= j < list[i].reads.len()
    &&& !available(list, intrinsic, list[i].reads[j])
    &&& forall|a: int, b: int|
        0 <= a < list.len() && 0 <= b < list[a].reads.len() && (a < i || (a == i && b < j))
            ==> available(list, intrinsic, #[trigger] list[a].reads[b])
}

/// What is said of an orphan read.
pub open spec fn orphan_words(name: Seq<char>, kind: TensorKind) -> Seq<char> {
    "technique '"@ + name + "' reads "@ + kind.spec_label()
        + " which no descriptor produces and is not engine-intrinsic (orphan read)"@
}

fn orphan_message(name: &str, kind: TensorKind) -> (m: String)
    ensures
        m@ == orphan_words(name@, kind),
{
    let mut m: String = "technique '".to_owned();
    m.append(name);
    m.append("' reads ");
    m.append(kind.label());
    m.append(" which no descriptor produces and is not engine-intrinsic (orphan read)");
    m
}

fn kinds_contain(kinds: &Vec<TensorKind>, kind: TensorKind) -> (found: bool)
    ensures
        found == kinds@.contains(kind),
{
    let mut i: usize = 0;
    while i < kinds.len()
        invariant
            i <= kinds@.len(),
            forall|k: int| 0 <= k < i ==> kinds@[k] != kind,
        decreases kinds@.len() - i,
    {
        if kinds[i] == kind {
            assert(kinds@[i as int] == kind);
            return true;
        }
        i = i + 1;
    }
    false
}

/// Whether something supplies the signal.
fn is_available(
    descriptors: &Vec<KvTechniqueDescriptor>,
    intrinsic: &Vec<TensorKind>,
    kind: TensorKind,
) -> (found: bool)
    ensures
        found == available(descriptor_views(descriptors@), intrinsic@, kind),
{
    let ghost views = descriptor_views(descriptors@);
    if kinds_contain(intrinsic, kind) {
        return true;
    }
    let mut i: usize = 0;
    while i < descriptors.len()
        invariant
            i <= descriptors@.len(),
            views == descriptor_views(descriptors@),
            !intrinsic@.contains(kind),
            forall|k: int| 0 <= k < i ==> !(#[trigger] views[k]).produces.contains(kind),
        decreases descriptors@.len() - i,
    {
        assert(views[i as int] == descriptors@[i as int]@);
        if kinds_contain(&descriptors[i].produces, kind) {
            return true;
        }
        i = i + 1;
    }
    false
}

/// Checks that no technique reads a signal that nothing supplies; the first that does is the error.
pub fn validate_occupancy(
    descriptors: &Vec<KvTechniqueDescriptor>,
    intrinsic: &Vec<TensorKind>,
) -> (r: Result<(), String>)
    ensures
        r is Ok <==> occupied(descriptor_views(descriptors@), intrinsic@),
        r matches Err(m) ==> exists|i: int, j: int|
            #[trigger] first_orphan(descriptor_views(descriptors@), intrinsic@, i, j) && m@
                == orphan_words(
                descriptor_views(descriptors@)[i].name,
                descriptor_views(descriptors@)[i].reads[j],
            ),
{
    let ghost views = descriptor_views(descriptors@);
    let mut i: usize = 0;
    while i < descriptors.len()
        invariant
            i <= descriptors@.len(),
            views == descriptor_views(descriptors@),
            forall|a: int, b: int|
                0 <= a < i && 0 <= b < views[a].reads.len() ==> available(
                    views,
                    intrinsic@,
                    #[trigger] views[a].reads[b],
                ),
        decreases descriptors@.len() - i,
    {
        assert(views[i as int] == descriptors@[i as int]@);
        let mut j: usize = 0;
        while j < descriptors[i].reads.len()
            invariant
                i < descriptors@.len(),
                views == descriptor_views(descriptors@),
                views[i as int] == descriptors@[i as int]@,
                j <= views[i as int].reads.len(),
                forall|a: int, b: int|
                    0 <= a < views.len() && 0 <= b < views[a].reads.len() && (a < i || (a == i && b
                        < j)) ==> available(views, intrinsic@, #[trigger] views[a].reads[b]),
            decreases views[i as int].reads.len() - j,
        {
            let kind: TensorKind = descriptors[i].reads[j];
            assert(kind == views[i as int].reads[j as int]);
            if !is_available(descriptors, intrinsic, kind) {
                let m = orphan_message(descriptors[i].name, kind);
                assert(first_orphan(views, intrinsic@, i as int, j as int));
                return Err(m);
            }
            j = j + 1;
        }
        i = i + 1;
    }
    Ok(())
}

/// The built-in map reads only what it produces or what the engine supplies. There is no outcome
/// but success.
pub fn descriptor_self_test()
    ensures
        occupied(descriptor_table(), engine_intrinsic_kinds()),
{
    proof {
        lemma_built_in_map_is_occupied();
    }
    let outcome = validate_occupancy(&technique_descriptors(), &engine_intrinsic());
    assert(outcome is Ok);
}

/// The built-in map has seven techniques, under seven names, and none of them reads a signal that
/// nothing supplies.
pub proof fn lemma_built_in_map_is_occupied()
    ensures
        descriptor_table().len() == 7,
        forall|i: int, j: int|
            0 <= i < j < 7 ==> (#[trigger] descriptor_table()[i]).name != (
            #[trigger] descriptor_table()[j]).name,
        occupied(descriptor_table(), engine_intrinsic_kinds()),
{
    let list = descriptor_table();
    let kinds = engine_intrinsic_kinds();
    reveal_strlit("sliding");
    reveal_strlit("streaming");
    reveal_strlit("h2o");
    reveal_strlit("h2o_plus");
    reveal_strlit("d2o");
    reveal_strlit("attn_score");
    reveal_strlit("quest");
    assert("h2o"@[0] == 'h' && "d2o"@[0] == 'd');
    assert(list[0].name.len() == 7 && list[1].name.len() == 9 && list[2].name.len() == 3);
    assert(list[3].name.len() == 8 && list[4].name.len() == 3 && list[5].name.len() == 10);
    assert(list[6].name.len() == 5);
    assert forall|i: int, j: int| 0 <= i < j < 7 implies (#[trigger] list[i]).name != (
    #[trigger] list[j]).name by {
        if i == 2 && j == 4 {
            assert(list[2].name[0] == 'h' && list[4].name[0] == 'd');
        } else {
            assert(list[i].name.len() != list[j].name.len());
        }
    }
    assert(list[5].produces[0] == TensorKind::Scores);
    assert(list[5].produces.contains(TensorKind::Scores));
    assert(kinds[0] == TensorKind::Key);
    assert(kinds.contains(TensorKind::Key));
    assert(kinds[5] == TensorKind::Query);
    assert(kinds.contains(TensorKind::Query));
}

/// An occupied map stays occupied when the engine supplies more, and when it is joined with another
/// occupied map.
pub proof fn lemma_occupancy_grows(
    a: Seq<DescriptorView>,
    b: Seq<DescriptorView>,
    intrinsic: Seq<TensorKind>,
    more: Seq<TensorKind>,
)
    requires
        occupied(a, intrinsic),
        occupied(b, intrinsic),
    ensures
        occupied(a + b, intrinsic + more),
{
    let list = a + b;
    let kinds = intrinsic + more;
    assert forall|k: TensorKind| intrinsic.contains(k) implies #[trigger] kinds.contains(k) by {
        let p = choose|p: int| 0 <= p < intrinsic.len() && intrinsic[p] == k;
        assert(kinds[p] == k);
    }
    assert forall|i: int, j: int|
        0 <= i < list.len() && 0 <= j < list[i].reads.len() implies available(
        list,
        kinds,
        #[trigger] list[i].reads[j],
    ) by {
        let kind = list[i].reads[j];
        if i < a.len() {
            assert(list[i] == a[i]);
            assert(available(a, intrinsic, a[i].reads[j]));
            if !intrinsic.contains(kind) {
                let p = choose|p: int| 0 <= p < a.len() && (#[trigger] a[p]).produces.contains(kind);
                assert(list[p] == a[p]);
            }
        } else {
            let q = i - a.len();
            assert(list[i] == b[q]);
            assert(available(b, intrinsic, b[q].reads[j]));
            if !intrinsic.contains(kind) {
                let p = choose|p: int| 0 <= p < b.len() && (#[trigger] b[p]).produces.contains(kind);
                assert(list[a.len() + p] == b[p]);
            }
        }
    }
}

/// A producer of a signal supplies it to every map that it joins.
pub proof fn lemma_producer_closes_reads(
    list: Seq<DescriptorView>,
    intrinsic: Seq<TensorKind>,
    producer: DescriptorView,
    kind: TensorKind,
)
    requires
        producer.produces.contains(kind),
    ensures
        available(list.push(producer), intrinsic, kind),
{
    assert(list.push(producer)[list.len() as int] == producer);
}

/// What each built-in technique reads and produces, and on which axis it is: the three that go by scores
/// read them, two read keys and one of these the query too, and the scores are produced by one.
pub proof fn lemma_built_in_reads(i: int)
    requires
        0 <= i < 7,
    ensures
        ({
            let d = descriptor_table()[i];
            &&& d.phase == MutationPhase::KvMutate
            &&& d.reads.contains(TensorKind::Scores) <==> d.name == "h2o"@ || d.name == "h2o_plus"@
                || d.name == "d2o"@
            &&& d.reads.contains(TensorKind::Key) <==> d.name == "d2o"@ || d.name == "quest"@
            &&& d.reads.contains(TensorKind::Query) <==> d.name == "quest"@
            &&& d.produces.contains(TensorKind::Scores) <==> d.name == "attn_score"@
            &&& d.produces.len() > 0 ==> d.name == "attn_score"@
            &&& d.reads.len() == 0 <==> d.name == "sliding"@ || d.name == "streaming"@ || d.name
                == "attn_score"@
            &&& d.axis == KvAxis::Score <==> d.name == "attn_score"@
            &&& d.axis == KvAxis::Read <==> d.name == "quest"@
            &&& d.axis == KvAxis::Stage <==> d.name != "quest"@ && d.name != "attn_score"@
        }),
{
    lemma_built_in_map_is_occupied();
    let list = descriptor_table();
    let none = Seq::<TensorKind>::empty();
    let s = seq![TensorKind::Scores];
    let sk = seq![TensorKind::Scores, TensorKind::Key];
    let kq = seq![TensorKind::Key, TensorKind::Query];
    assert(s[0] == TensorKind::Scores && sk[0] == TensorKind::Scores && sk[1] == TensorKind::Key);
    assert(kq[0] == TensorKind::Key && kq[1] == TensorKind::Query);
    assert(list[0].name == "sliding"@ && list[1].name == "streaming"@ && list[2].name == "h2o"@);
    assert(list[3].name == "h2o_plus"@ && list[4].name == "d2o"@ && list[5].name == "attn_score"@);
    assert(list[6].name == "quest"@);
    assert(forall|k: int| 0 <= k < 7 && k != i ==> (#[trigger] list[k]).name != list[i].name) by {
        assert forall|k: int| 0 <= k < 7 && k != i implies (#[trigger] list[k]).name
            != list[i].name by {
            if k < i {
                assert(list[k].name != list[i].name);
            } else {
                assert(list[i].name != list[k].name);
            }
        }
    }
    assert(s.contains(TensorKind::Scores) && sk.contains(TensorKind::Scores) && sk.contains(
        TensorKind::Key,
    ));
    assert(kq.contains(TensorKind::Key) && kq.contains(TensorKind::Query));
}

/// What the check finds: it passes where every signal that a technique reads is the engine's or some
/// technique's product, and only there.
pub proof fn lemma_when_a_map_is_occupied(
    descriptors: Vec<KvTechniqueDescriptor>,
    intrinsic: Vec<TensorKind>,
    r: Result<(), String>,
    i: int,
    j: int,
)
    requires
        call_ensures(validate_occupancy, (&descriptors, &intrinsic), r),
        0 <= i < descriptors@.len(),
        0 <= j < descriptors@[i].reads@.len(),
        r is Ok,
    ensures
        (exists|k: int|
            0 <= k < intrinsic@.len() && #[trigger] intrinsic@[k] == descriptors@[i].reads@[j])
            || exists|a: int, b: int|
            0 <= a < descriptors@.len() && 0 <= b < descriptors@[a].produces@.len()
                && #[trigger] descriptors@[a].produces@[b] == descriptors@[i].reads@[j],
{
    let list = descriptor_views(descriptors@);
    let kind = descriptors@[i].reads@[j];
    assert(list[i].reads[j] == kind);
    assert(available(list, intrinsic@, list[i].reads[j]));
    if intrinsic@.contains(kind) {
        let k = choose|k: int| 0 <= k < intrinsic@.len() && intrinsic@[k] == kind;
        assert(intrinsic@[k] == kind);
    } else {
        let a = choose|a: int| 0 <= a < list.len() && (#[trigger] list[a]).produces.contains(kind);
        let b = choose|b: int| 0 <= b < list[a].produces.len() && list[a].produces[b] == kind;
        assert(descriptors@[a].produces@[b] == kind);
    }
}

} // verus!
