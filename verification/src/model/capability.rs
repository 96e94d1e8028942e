//! Owned copies of the capabilities libqcperf reports. Backend identity is the
//! numeric id the library reports; this crate does not name backends.
use vstd::prelude::*;

use crate::seqs::{first_index, lemma_first_index_is};
use crate::text::{decimal, push_decimal, push_str};

verus! {

pub struct Capability {
    pub backend_id: u8,
    pub capability_id: u8,
    pub name: String,
    pub metrics: Vec<MetricInfo>,
    pub sampling_rates_ms: Vec<u16>,
    pub streaming_rates_ms: Vec<u16>,
}

pub struct MetricInfo {
    pub metric_id: u16,
    pub name: String,
    pub description: String,
    pub unit: String,
}

/// Position of the first metric with id `metric_id`, or the length.
pub open spec fn metric_pos(metrics: Seq<MetricInfo>, metric_id: u16) -> int {
    first_index(metrics, |m: MetricInfo| m.metric_id == metric_id)
}

/// Position of the first capability with the given ids, or the length.
pub open spec fn capability_pos(caps: Seq<Capability>, backend_id: u8, capability_id: u8) -> int {
    first_index(
        caps,
        |c: Capability| c.backend_id == backend_id && c.capability_id == capability_id,
    )
}

/// The label of a capability: its name and backend, or its ids when it has
/// no name.
pub open spec fn label_text(cap: Capability) -> Seq<char> {
    if cap.name@.len() == 0 {
        "backend "@ + decimal(cap.backend_id as nat) + " capability "@ + decimal(
            cap.capability_id as nat,
        )
    } else {
        cap.name@ + " (backend "@ + decimal(cap.backend_id as nat) + ")"@
    }
}

impl Capability {
    /// The first metric of this capability with id `metric_id`.
    pub fn metric(&self, metric_id: u16) -> (r: Option<&MetricInfo>)
        ensures
            ({
                let i = metric_pos(self.metrics@, metric_id);
                r == (if i < self.metrics@.len() {
                    Some(&self.metrics@[i])
                } else {
                    None
                })
            }),
    {
        let ghost p = |m: MetricInfo| m.metric_id == metric_id;
        assert(metric_pos(self.metrics@, metric_id) == first_index(self.metrics@, p));
        let mut i: usize = 0;
        while i < self.metrics.len()
            invariant
                i <= self.metrics.len(),
                p == (|m: MetricInfo| m.metric_id == metric_id),
                forall|j: int| 0 <= j < i ==> !p(#[trigger] self.metrics@[j]),
            decreases self.metrics.len() - i,
        {
            if self.metrics[i].metric_id == metric_id {
                proof {
                    lemma_first_index_is(self.metrics@, p, i as int);
                }
                return Some(&self.metrics[i]);
            }
            i = i + 1;
        }
        proof {
            lemma_first_index_is(self.metrics@, p, i as int);
        }
        None
    }

    pub fn label(&self) -> (res: String)
        ensures
            res@ == label_text(*self),
    {
        let mut s = String::new();
        if self.name.as_str().is_empty() {
            push_str(&mut s, "backend ");
            push_decimal(&mut s, self.backend_id as u64);
            push_str(&mut s, " capability ");
            push_decimal(&mut s, self.capability_id as u64);
        } else {
            push_str(&mut s, self.name.as_str());
            push_str(&mut s, " (backend ");
            push_decimal(&mut s, self.backend_id as u64);
            push_str(&mut s, ")");
        }
        s
    }
}

/// The first capability with the given backend and capability ids.
pub fn find<'a>(capabilities: &'a [Capability], backend_id: u8, capability_id: u8) -> (r: Option<
    &'a Capability,
>)
    ensures
        ({
            let i = capability_pos(capabilities@, backend_id, capability_id);
            r == (if i < capabilities@.len() {
                Some(&capabilities@[i])
            } else {
                None
            })
        }),
{
    let ghost p = |c: Capability| c.backend_id == backend_id && c.capability_id == capability_id;
    assert(capability_pos(capabilities@, backend_id, capability_id) == first_index(capabilities@, p));
    let mut i: usize = 0;
    while i < capabilities.len()
        invariant
            i <= capabilities@.len(),
            p == (|c: Capability| c.backend_id == backend_id && c.capability_id == capability_id),
            forall|j: int| 0 <= j < i ==> !p(#[trigger] capabilities@[j]),
        decreases capabilities.len() - i,
    {
        if capabilities[i].backend_id == backend_id && capabilities[i].capability_id
            == capability_id {
            proof {
                lemma_first_index_is(capabilities@, p, i as int);
            }
            return Some(&capabilities[i]);
        }
        i = i + 1;
    }
    proof {
        lemma_first_index_is(capabilities@, p, i as int);
    }
    None
}

/// Position of the first capability with the given ids that has metric
/// `metric_id`, or the length.
pub open spec fn metric_owner_pos(caps: Seq<Capability>, backend_id: u8, capability_id: u8, metric_id: u16) -> int {
    first_index(
        caps,
        |c: Capability|
            c.backend_id == backend_id && c.capability_id == capability_id && metric_pos(
                c.metrics@,
                metric_id,
            ) < c.metrics@.len(),
    )
}

/// A graph's metric: in the first capability with the graph's ids that has
/// the metric, its first metric with that id.
pub open spec fn graph_metric(caps: Seq<Capability>, backend_id: u8, capability_id: u8, metric_id: u16) -> Option<
    MetricInfo,
> {
    let i = metric_owner_pos(caps, backend_id, capability_id, metric_id);
    if i < caps.len() {
        Some(caps[i].metrics@[metric_pos(caps[i].metrics@, metric_id)])
    } else {
        None
    }
}

/// The metric a graph shows, looked up across every capability with the
/// graph's ids.
pub fn find_metric<'a>(
    capabilities: &'a [Capability],
    backend_id: u8,
    capability_id: u8,
    metric_id: u16,
) -> (r: Option<&'a MetricInfo>)
    ensures
        match graph_metric(capabilities@, backend_id, capability_id, metric_id) {
            Some(m) => r matches Some(x) && *x == m,
            None => r is None,
        },
{
    let ghost p = |c: Capability|
        c.backend_id == backend_id && c.capability_id == capability_id && metric_pos(
            c.metrics@,
            metric_id,
        ) < c.metrics@.len();
    let mut i: usize = 0;
    while i < capabilities.len()
        invariant
            i <= capabilities@.len(),
            p == (|c: Capability|
                c.backend_id == backend_id && c.capability_id == capability_id && metric_pos(
                    c.metrics@,
                    metric_id,
                ) < c.metrics@.len()),
            forall|j: int| 0 <= j < i ==> !p(#[trigger] capabilities@[j]),
        decreases capabilities.len() - i,
    {
        let cap = &capabilities[i];
        if cap.backend_id == backend_id && cap.capability_id == capability_id {
            match cap.metric(metric_id) {
                Some(m) => {
                    proof {
                        lemma_first_index_is(capabilities@, p, i as int);
                    }
                    return Some(m);
                },
                None => {},
            }
        }
        i = i + 1;
    }
    proof {
        lemma_first_index_is(capabilities@, p, i as int);
    }
    None
}

} // verus!
