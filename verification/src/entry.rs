//! Metric identities and the ephemeral entries built at export time.

use vstd::prelude::*;
use crate::text::str_eq;

verus! {

/// The metadata list as a sequence of (key, value) character sequences,
/// in insertion order.
pub open spec fn metadata_view(md: Seq<(String, String)>) -> Seq<(Seq<char>, Seq<char>)> {
    Seq::new(md.len(), |i: int| (md[i].0@, md[i].1@))
}

/// First value bound to `key` at or after position `i`.
pub open spec fn lookup_from(
    md: Seq<(Seq<char>, Seq<char>)>,
    key: Seq<char>,
    i: int,
) -> Option<Seq<char>>
    decreases md.len() - i,
{
    if i < 0 || i >= md.len() {
        None
    } else if md[i].0 == key {
        Some(md[i].1)
    } else {
        lookup_from(md, key, i + 1)
    }
}

/// The value bound to `key`: the first matching pair wins, mirroring the
/// mapping reading of the insertion-ordered list.
pub open spec fn metadata_lookup(md: Seq<(Seq<char>, Seq<char>)>, key: Seq<char>) -> Option<
    Seq<char>,
> {
    lookup_from(md, key, 0)
}

/// Names one observable quantity: a hierarchical path name plus
/// discriminating tags. Several identities may share a name and differ only
/// by metadata; the registry treats the whole pair as the key.
pub struct MetricIdentity {
    /// Hierarchical path name, such as `"blockio/operations"`.
    pub name: String,
    /// Insertion-ordered key/value tags, such as `op="read"`.
    pub metadata: Vec<(String, String)>,
}

impl MetricIdentity {
    /// The name as a character sequence.
    pub open spec fn name_view(&self) -> Seq<char> {
        self.name@
    }

    /// The metadata as a sequence of character-sequence pairs.
    pub open spec fn metadata_seq(&self) -> Seq<(Seq<char>, Seq<char>)> {
        metadata_view(self.metadata@)
    }

    /// Two identities denote the same metric when both the name and the
    /// full metadata list agree.
    pub open spec fn same_identity(&self, other: &MetricIdentity) -> bool {
        self.name_view() == other.name_view() && self.metadata_seq() == other.metadata_seq()
    }

    /// Builds an identity from its parts.
    pub fn new(name: String, metadata: Vec<(String, String)>) -> (id: MetricIdentity)
        ensures
            id.name@ == name@,
            id.metadata@ == metadata@,
    {
        MetricIdentity { name, metadata }
    }
}

/// Decides whether two identities denote the same metric.
pub fn identity_eq(a: &MetricIdentity, b: &MetricIdentity) -> (r: bool)
    ensures
        r == a.same_identity(b),
{
    if !str_eq(a.name.as_str(), b.name.as_str()) {
        return false;
    }
    let n = a.metadata.len();
    if n != b.metadata.len() {
        proof {
            assert(a.metadata_seq().len() != b.metadata_seq().len());
        }
        return false;
    }
    let mut i: usize = 0;
    while i < n
        invariant
            n == a.metadata@.len(),
            n == b.metadata@.len(),
            i <= n,
            a.name@ == b.name@,
            forall|k: int| 0 <= k < i as int ==> a.metadata_seq()[k] == b.metadata_seq()[k],
        decreases n - i,
    {
        let ak = &a.metadata[i];
        let bk = &b.metadata[i];
        if !str_eq(ak.0.as_str(), bk.0.as_str()) {
            proof {
                assert(a.metadata_seq()[i as int].0 != b.metadata_seq()[i as int].0);
            }
            return false;
        }
        if !str_eq(ak.1.as_str(), bk.1.as_str()) {
            proof {
                assert(a.metadata_seq()[i as int].1 != b.metadata_seq()[i as int].1);
            }
            return false;
        }
        i = i + 1;
    }
    proof {
        assert(a.metadata_seq() =~= b.metadata_seq());
    }
    true
}

/// Looks up the first value bound to `key` in an insertion-ordered
/// metadata list.
pub fn metadata_get<'a>(md: &'a Vec<(String, String)>, key: &str) -> (r: Option<&'a String>)
    ensures
        match r {
            Some(v) => metadata_lookup(metadata_view(md@), key@) == Some(v@),
            None => metadata_lookup(metadata_view(md@), key@) is None,
        },
{
    let ghost mv = metadata_view(md@);
    let n = md.len();
    let mut i: usize = 0;
    while i < n
        invariant
            n == md@.len(),
            i <= n,
            mv == metadata_view(md@),
            lookup_from(mv, key@, 0) == lookup_from(mv, key@, i as int),
        decreases n - i,
    {
        let pair = &md[i];
        if str_eq(pair.0.as_str(), key) {
            proof {
                assert(mv[i as int].0 == key@);
            }
            return Some(&pair.1);
        }
        proof {
            assert(mv[i as int].0 != key@);
        }
        i = i + 1;
    }
    None
}

/// Copies an insertion-ordered metadata list, preserving order and
/// contents.
pub fn clone_metadata(md: &Vec<(String, String)>) -> (r: Vec<(String, String)>)
    ensures
        r@.len() == md@.len(),
        metadata_view(r@) == metadata_view(md@),
{
    let n = md.len();
    let mut r: Vec<(String, String)> = Vec::new();
    let mut i: usize = 0;
    while i < n
        invariant
            n == md@.len(),
            i <= n,
            r@.len() == i as int,
            forall|j: int|
                0 <= j < i as int ==> (#[trigger] r@[j]).0@ == md@[j].0@ && r@[j].1@ == md@[j].1@,
        decreases n - i,
    {
        let pair = &md[i];
        r.push((pair.0.clone(), pair.1.clone()));
        i = i + 1;
    }
    proof {
        assert(metadata_view(r@) =~= metadata_view(md@));
    }
    r
}

/// The current numeric state of one metric, as read at export time.
pub enum MetricValue {
    /// A counter's running total.
    Counter(u64),
    /// A histogram's snapshot: (bucket lower boundary, count) pairs in
    /// bucket order.
    Histogram(Vec<(u64, u64)>),
}

/// One identity joined with its current value, built while iterating the
/// registry and consumed by the exposition formatter; never stored.
pub struct MetricEntry {
    /// The metric's path name.
    pub name: String,
    /// The metric's tags, in insertion order.
    pub metadata: Vec<(String, String)>,
    /// The value read when the entry was built.
    pub value: MetricValue,
}

} // verus!
