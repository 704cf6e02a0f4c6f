//! Pure exposition formatting: one metric entry in, one rendered text
//! line out.

use vstd::prelude::*;
use crate::entry::{metadata_get, metadata_lookup, metadata_view, MetricEntry};
use crate::text::{is_suffix_of, str_ends_with};

verus! {

/// The output encodings this crate renders itself. Anything else is the
/// business of an external default renderer supplied by the embedding
/// exposition layer, which the formatter signals by returning `None`.
#[derive(Clone, Copy, PartialEq, Eq, Structural, Debug)]
pub enum Format {
    /// Path-style names ending in `/total`; an `op` tag collapses into a
    /// path segment.
    Simple,
    /// Prometheus-style: `name/total{key="value", ...}` with every tag
    /// rendered as a label.
    Prometheus,
    /// Any other requested encoding: rendering is delegated.
    Other,
}

/// The rewritten name for the Simple format, before `/total` is appended.
/// Without an `op` tag the name stands as it is. With one, a family ending
/// in `/bytes` or `/operations` has the tag inserted before that final
/// segment; any other family has it appended as a new final segment.
pub open spec fn spec_simple_name(name: Seq<char>, md: Seq<(Seq<char>, Seq<char>)>) -> Seq<
    char,
> {
    match metadata_lookup(md, "op"@) {
        Some(op) => {
            if is_suffix_of("/bytes"@, name) {
                name.subrange(0, name.len() - "/bytes"@.len()) + "/"@ + op + "/bytes"@
            } else if is_suffix_of("/operations"@, name) {
                name.subrange(0, name.len() - "/operations"@.len()) + "/"@ + op + "/operations"@
            } else {
                name + "/"@ + op
            }
        },
        None => name,
    }
}

/// A Simple-format line: the rewritten name with `/total` appended.
pub open spec fn spec_simple(name: Seq<char>, md: Seq<(Seq<char>, Seq<char>)>) -> Seq<char> {
    spec_simple_name(name, md) + "/total"@
}

/// One rendered label: `key="value"`, by literal substitution; no escaping
/// is applied to the value.
pub open spec fn spec_label(e: (Seq<char>, Seq<char>)) -> Seq<char> {
    e.0 + "=\""@ + e.1 + "\""@
}

/// All labels joined with `", "`, in insertion order.
pub open spec fn spec_labels(md: Seq<(Seq<char>, Seq<char>)>) -> Seq<char>
    decreases md.len(),
{
    if md.len() == 0 {
        Seq::empty()
    } else if md.len() == 1 {
        spec_label(md[0])
    } else {
        spec_labels(md.drop_last()) + ", "@ + spec_label(md.last())
    }
}

/// A label-format line: the unmodified name with `/total` appended, then —
/// only when there is metadata — the label block `{...}`.
pub open spec fn spec_prometheus(name: Seq<char>, md: Seq<(Seq<char>, Seq<char>)>) -> Seq<
    char,
> {
    if md.len() == 0 {
        name + "/total"@
    } else {
        name + "/total"@ + "{"@ + spec_labels(md) + "}"@
    }
}

/// Renders an entry in the Simple format.
pub fn format_simple(entry: &MetricEntry) -> (r: String)
    ensures
        r@ == spec_simple(entry.name@, metadata_view(entry.metadata@)),
{
    let name = entry.name.as_str();
    let mut out: String;
    match metadata_get(&entry.metadata, "op") {
        Some(op) => {
            if str_ends_with(name, "/bytes") {
                proof {
                    reveal_strlit("/bytes");
                }
                let keep = name.unicode_len() - 6;
                let family = name.substring_char(0, keep);
                out = family.to_owned();
                out.append("/");
                out.append(op.as_str());
                out.append("/bytes");
            } else if str_ends_with(name, "/operations") {
                proof {
                    reveal_strlit("/operations");
                }
                let keep = name.unicode_len() - 11;
                let family = name.substring_char(0, keep);
                out = family.to_owned();
                out.append("/");
                out.append(op.as_str());
                out.append("/operations");
            } else {
                out = entry.name.clone();
                out.append("/");
                out.append(op.as_str());
            }
        },
        None => {
            out = entry.name.clone();
        },
    }
    out.append("/total");
    proof {
        assert(out@ =~= spec_simple(entry.name@, metadata_view(entry.metadata@)));
    }
    out
}

/// Renders an entry in the label-based format. An entry without metadata
/// gets no label block at all.
pub fn format_prometheus(entry: &MetricEntry) -> (r: String)
    ensures
        r@ == spec_prometheus(entry.name@, metadata_view(entry.metadata@)),
        entry.metadata@.len() == 0 ==> r@ == entry.name@ + "/total"@,
{
    let ghost mv = metadata_view(entry.metadata@);
    let mut out = entry.name.clone();
    out.append("/total");
    let n = entry.metadata.len();
    if n > 0 {
        out.append("{");
        let mut i: usize = 0;
        while i < n
            invariant
                n == entry.metadata@.len(),
                0 < n,
                i <= n,
                mv == metadata_view(entry.metadata@),
                out@ == entry.name@ + "/total"@ + "{"@ + spec_labels(mv.take(i as int)),
            decreases n - i,
        {
            if i > 0 {
                out.append(", ");
            }
            let pair = &entry.metadata[i];
            out.append(pair.0.as_str());
            out.append("=\"");
            out.append(pair.1.as_str());
            out.append("\"");
            proof {
                assert(mv.take(i + 1).drop_last() =~= mv.take(i as int));
                assert(mv.take(i + 1).last() == mv[i as int]);
                assert(out@ =~= entry.name@ + "/total"@ + "{"@ + spec_labels(mv.take(i + 1)));
            }
            i = i + 1;
        }
        out.append("}");
        proof {
            assert(mv.take(n as int) =~= mv);
            assert(out@ =~= spec_prometheus(entry.name@, mv));
        }
    }
    out
}

/// Renders one entry in the requested format. The two formats this crate
/// understands are rendered here, as pure functions of the entry; `None`
/// asks the caller to delegate the entry to the default renderer of its
/// exposition layer.
pub fn format_entry(entry: &MetricEntry, fmt: Format) -> (r: Option<String>)
    ensures
        fmt is Simple ==> r is Some && r.unwrap()@ == spec_simple(
            entry.name@,
            metadata_view(entry.metadata@),
        ),
        fmt is Prometheus ==> r is Some && r.unwrap()@ == spec_prometheus(
            entry.name@,
            metadata_view(entry.metadata@),
        ),
        fmt is Other ==> r is None,
{
    match fmt {
        Format::Simple => Some(format_simple(entry)),
        Format::Prometheus => Some(format_prometheus(entry)),
        Format::Other => None,
    }
}

/// Formatter for counter families whose instances differ only by an `op`
/// tag, block-I/O operation and byte counts being the motivating case: the
/// Simple format folds the tag into the path (`blockio/read/operations/total`),
/// while the label-based format keeps the name and renders the tag as a
/// label. Formats beyond those two are left to the caller's default
/// renderer, signalled by `None`.
pub fn blockio_metric_formatter(metric: &MetricEntry, fmt: Format) -> (r: Option<String>)
    ensures
        fmt is Simple ==> r is Some && r.unwrap()@ == spec_simple(
            metric.name@,
            metadata_view(metric.metadata@),
        ),
        fmt is Prometheus ==> r is Some && r.unwrap()@ == spec_prometheus(
            metric.name@,
            metadata_view(metric.metadata@),
        ),
        fmt is Other ==> r is None,
{
    format_entry(metric, fmt)
}

} // verus!
