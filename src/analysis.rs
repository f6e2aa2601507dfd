use vstd::prelude::*;
use crate::paths::{
    exclude, lemma_absent_reaches_nothing, lemma_reach_bounded, lemma_stripping_monotone, open_mask, reach_masked,
};
use crate::topology::{TopoView, Topology};

verus! {

/// The membership tables that classify ASes and define the hierarchy
/// layers that the stripping removes.
pub struct HierarchyConfig {
    pub tier1: Vec<u32>,
    pub tier2: Vec<u32>,
    pub cloud_providers: Vec<u32>,
}

/// The category of an analysed AS.
#[derive(Clone, Copy, PartialEq, Eq, Debug, Structural)]
pub enum AsType {
    Tier1,
    Tier2,
    CloudProvider,
    Other,
}

impl AsType {
    pub open spec fn name(self) -> Seq<char> {
        match self {
            AsType::Tier1 => "tier1"@,
            AsType::Tier2 => "tier2"@,
            AsType::CloudProvider => "cloud_provider"@,
            AsType::Other => "other"@,
        }
    }

    /// The label of the category in the output table.
    pub fn to_str(&self) -> (r: &'static str)
        ensures
            r@ == self.name(),
    {
        match self {
            AsType::Tier1 => "tier1",
            AsType::Tier2 => "tier2",
            AsType::CloudProvider => "cloud_provider",
            AsType::Other => "other",
        }
    }
}

/// The category of `asn`: the first of the Tier-1, Tier-2 and cloud-provider
/// tables that holds it, else `Other`.
pub open spec fn classify(c: &HierarchyConfig, asn: u32) -> AsType {
    if c.tier1@.contains(asn) {
        AsType::Tier1
    } else if c.tier2@.contains(asn) {
        AsType::Tier2
    } else if c.cloud_providers@.contains(asn) {
        AsType::CloudProvider
    } else {
        AsType::Other
    }
}

/// An AS that is both Tier-1 and something else is classified Tier-1.
pub proof fn lemma_tier1_first(c: &HierarchyConfig, asn: u32)
    requires
        c.tier1@.contains(asn),
    ensures
        classify(c, asn) == AsType::Tier1,
{
}

fn member(v: &Vec<u32>, x: u32) -> (r: bool)
    ensures
        r == v@.contains(x),
{
    let mut i: usize = 0;
    while i < v.len()
        invariant
            0 <= i <= v@.len(),
            forall|j: int| 0 <= j < i ==> v@[j] != x,
        decreases v@.len() - i,
    {
        if v[i] == x {
            assert(v@[i as int] == x);
            return true;
        }
        i = i + 1;
    }
    false
}

pub fn classify_asn(asn: u32, config: &HierarchyConfig) -> (r: AsType)
    ensures
        r == classify(config, asn),
{
    if member(&config.tier1, asn) {
        AsType::Tier1
    } else if member(&config.tier2, asn) {
        AsType::Tier2
    } else if member(&config.cloud_providers, asn) {
        AsType::CloudProvider
    } else {
        AsType::Other
    }
}

/// What is excluded once the direct providers of `asn` are stripped.
pub open spec fn provider_layer(tv: TopoView, asn: u32) -> Set<u32> {
    tv.providers(asn).remove(asn)
}

/// What is excluded once the Tier-1 table is stripped as well.
pub open spec fn tier1_layer(tv: TopoView, c: &HierarchyConfig, asn: u32) -> Set<u32> {
    provider_layer(tv, asn).union(c.tier1@.to_set().remove(asn))
}

/// What is excluded once the Tier-2 table is stripped as well.
pub open spec fn hierarchy_layer(tv: TopoView, c: &HierarchyConfig, asn: u32) -> Set<u32> {
    tier1_layer(tv, c, asn).union(c.tier2@.to_set().remove(asn))
}

/// The outcome of the analysis of one AS.
pub struct DataRecord {
    pub asn: u32,
    pub provider_free: usize,
    pub tier1_free: usize,
    pub hierachy_free: usize,
    pub type_: AsType,
}

/// Counts what `asn` reaches by valley-free paths as successive layers of
/// the hierarchy are stripped: its direct providers, then the Tier-1 table,
/// then the Tier-2 table, each on top of the last. `asn` itself is never
/// stripped and never counted; an absent `asn` reaches nothing.
pub fn count_hierachy_free_paths(topo: &Topology, asn: u32, config: &HierarchyConfig) -> (r: DataRecord)
    requires
        topo.wf(),
    ensures
        r.asn == asn,
        r.type_ == classify(config, asn),
        r.provider_free == topo@.reach_set(asn, provider_layer(topo@, asn)).len(),
        r.tier1_free == topo@.reach_set(asn, tier1_layer(topo@, config, asn)).len(),
        r.hierachy_free == topo@.reach_set(asn, hierarchy_layer(topo@, config, asn)).len(),
        r.provider_free >= r.tier1_free >= r.hierachy_free,
        r.provider_free <= topo@.asns.remove(asn).len(),
{
    let ghost tv = topo@;
    let ghost b1 = provider_layer(tv, asn);
    let ghost b2 = tier1_layer(tv, config, asn);
    let ghost b3 = hierarchy_layer(tv, config, asn);
    proof {
        lemma_stripping_monotone(topo, asn, b1, b2);
        lemma_stripping_monotone(topo, asn, b2, b3);
        lemma_reach_bounded(topo, asn, b1);
    }
    let type_ = classify_asn(asn, config);
    match (topo.index_of(asn), topo.providers_of(asn)) {
        (Some(h), Ok(providers)) => {
            let mut mask = open_mask(topo);
            exclude(topo, &mut mask, &providers, asn, Ghost(Set::empty()));
            assert(Set::<u32>::empty().union(providers@.to_set().remove(asn)) =~= b1);
            let reached = reach_masked(topo, h, &mask, Ghost(b1));
            proof {
                reached@.unique_seq_to_set();
            }
            let provider_free = reached.len();
            exclude(topo, &mut mask, &config.tier1, asn, Ghost(b1));
            let reached = reach_masked(topo, h, &mask, Ghost(b2));
            proof {
                reached@.unique_seq_to_set();
            }
            let tier1_free = reached.len();
            exclude(topo, &mut mask, &config.tier2, asn, Ghost(b2));
            let reached = reach_masked(topo, h, &mask, Ghost(b3));
            proof {
                reached@.unique_seq_to_set();
            }
            let hierachy_free = reached.len();
            DataRecord { asn, provider_free, tier1_free, hierachy_free, type_ }
        },
        _ => {
            proof {
                lemma_absent_reaches_nothing(topo, asn, b1);
                lemma_absent_reaches_nothing(topo, asn, b2);
                lemma_absent_reaches_nothing(topo, asn, b3);
            }
            DataRecord { asn, provider_free: 0, tier1_free: 0, hierachy_free: 0, type_ }
        },
    }
}

} // verus!
