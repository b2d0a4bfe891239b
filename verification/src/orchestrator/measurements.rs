//! The measurements of a benchmark: how they are read out of the text that nodes
//! expose, and what is made of them.
use crate::keymap::KeyMap;
use crate::modular;
use crate::orchestrator::number;
use crate::text::{before, characters, same_text, text, text_before};
use crate::textmap;
use crate::textmap::TextMap;
use prometheus_parse::Value::{Counter, Gauge, Histogram, Summary, Untyped};
use prometheus_parse::{Sample as Line, Scrape};
use vstd::multiset::Multiset;
use vstd::prelude::*;

verus! {

/// The value of a sample. Numbers are in binary64, by their bits.
#[derive(Debug)]
pub enum SampleValue {
    Counter(u64),
    /// How many observations lie below each bound.
    Histogram(Vec<(String, u64)>),
    Untyped(u64),
    /// A value of another sort.
    Other,
}

/// A line of the exposed text.
#[derive(Debug)]
pub struct Sample {
    pub metric: String,
    pub labels: Vec<(String, String)>,
    pub value: SampleValue,
}

/// The bounds and numbers of a histogram.
pub open spec fn bounds(v: Seq<(String, u64)>) -> Seq<(Seq<char>, u64)> {
    Seq::new(v.len(), |i: int| (v[i].0@, number_view(v[i].1)))
}

/// The bits of a number. Those of what is no number vary from machine to machine:
/// one of them stands for all.
pub open spec fn number_view(bits: u64) -> u64 {
    if bits % 0x8000_0000_0000_0000 > 0x7ff0_0000_0000_0000 {
        0x7ff8_0000_0000_0000
    } else {
        bits
    }
}

/// What a value says: its sort and its numbers.
pub open spec fn value_view(v: SampleValue) -> (int, Seq<(Seq<char>, u64)>) {
    match v {
        SampleValue::Counter(n) => (0, seq![(Seq::<char>::empty(), number_view(n))]),
        SampleValue::Histogram(b) => (1, bounds(b@)),
        SampleValue::Untyped(n) => (2, seq![(Seq::<char>::empty(), number_view(n))]),
        SampleValue::Other => (3, Seq::empty()),
    }
}

/// What labels say, whatever their order.
pub open spec fn label_map(labels: Seq<(String, String)>) -> Map<Seq<char>, Seq<char>> {
    Map::new(
        |k: Seq<char>| textmap::stands_in(labels, k),
        |k: Seq<char>| labels[textmap::place(labels, k)].1@,
    )
}

/// What a sample says.
pub open spec fn sample_view(s: Sample) -> (
    Seq<char>,
    Map<Seq<char>, Seq<char>>,
    (int, Seq<(Seq<char>, u64)>),
) {
    (s.metric@, label_map(s.labels@), value_view(s.value))
}

/// What samples say, in turn.
pub open spec fn sample_views(s: Seq<Sample>) -> Seq<
    (Seq<char>, Map<Seq<char>, Seq<char>>, (int, Seq<(Seq<char>, u64)>)),
> {
    Seq::new(s.len(), |i: int| sample_view(s[i]))
}

/// The samples that a text exposes: the plain ones in the order of their lines,
/// and the histograms and summaries.
pub uninterp spec fn scraped(text: Seq<char>) -> (
    Seq<(Seq<char>, Map<Seq<char>, Seq<char>>, (int, Seq<(Seq<char>, u64)>))>,
    Multiset<(Seq<char>, Map<Seq<char>, Seq<char>>, (int, Seq<(Seq<char>, u64)>))>,
);

/// Samples are the exposed ones: the plain ones come first, in the order
/// of their lines, and the histograms and summaries after them, in any order.
pub open spec fn are_exposed(
    samples: Seq<Sample>,
    exposed: (
        Seq<(Seq<char>, Map<Seq<char>, Seq<char>>, (int, Seq<(Seq<char>, u64)>))>,
        Multiset<(Seq<char>, Map<Seq<char>, Seq<char>>, (int, Seq<(Seq<char>, u64)>))>,
    ),
) -> bool {
    let (plain, buckets) = exposed;
    let views = sample_views(samples);
    &&& plain.len() <= views.len()
    &&& views.take(plain.len() as int) == plain
    &&& views.skip(plain.len() as int).to_multiset() == buckets
}

/// `prometheus_parse::Scrape::parse` on the lines of a text, which fails only
/// where reading a line does. Which samples there are depends on the text alone;
/// the order of the histograms and summaries, which come last, is left open. No
/// label occurs twice in a sample. The numbers of gauges and summaries are dropped.
#[verifier::external_body]
fn scrape(text: &str) -> (r: Vec<Sample>)
    ensures
        are_exposed(r@, scraped(text@)),
        forall|i: int|
            0 <= i < r@.len() ==> textmap::no_text_twice((#[trigger] r@[i]).labels@),
{
    let of = |v| match v {
        Counter(v) => SampleValue::Counter(v.to_bits()),
        Histogram(h) => SampleValue::Histogram(
            h.iter().map(|b| (b.less_than.to_string(), b.count.to_bits())).collect(),
        ),
        Untyped(v) => SampleValue::Untyped(v.to_bits()),
        Gauge(_) => SampleValue::Other,
        Summary(_) => SampleValue::Other,
    };
    let it = |s: Line| Sample {
        labels: (*s.labels).clone().into_iter().collect(),
        metric: s.metric,
        value: of(s.value),
    };
    Scrape::parse(text.lines().map(|l| Ok(l.into()))).unwrap().samples.into_iter().map(it).collect()
}

/// The names under which a protocol exposes its measurements.
#[derive(Debug)]
pub struct ProtocolMetrics {
    pub benchmark_duration: String,
    pub total_transactions: String,
    pub latency_buckets: String,
    pub latency_sum: String,
    pub latency_squared_sum: String,
}

/// Latencies: how many lie below each bound, their sum, their number and the sum
/// of their squares.
#[derive(Debug)]
pub struct HistogramSummary {
    pub buckets: TextMap<u64>,
    /// In nanoseconds.
    pub sum: u128,
    pub count: u64,
    /// In binary64, by its bits.
    pub squared_sum: u64,
}

/// Latencies, by their contents.
#[verifier::ext_equal]
pub struct SummaryView {
    pub buckets: Map<Seq<char>, u64>,
    pub sum: u128,
    pub count: u64,
    pub squared_sum: u64,
}

impl View for HistogramSummary {
    type V = SummaryView;

    open spec fn view(&self) -> SummaryView {
        SummaryView {
            buckets: self.buckets@,
            sum: self.sum,
            count: self.count,
            squared_sum: self.squared_sum,
        }
    }
}

/// No latencies.
pub open spec fn no_latencies() -> SummaryView {
    SummaryView { buckets: Map::empty(), sum: 0, count: 0, squared_sum: 0 }
}

impl HistogramSummary {
    pub open spec fn wf(&self) -> bool {
        self.buckets.wf()
    }

    /// No latencies.
    pub fn new() -> (r: Self)
        ensures
            r.wf(),
            r@ == no_latencies(),
    {
        HistogramSummary {
            buckets: TextMap::new(),
            sum: 0,
            count: 0,
            squared_sum: 0,
        }
    }

    /// The average, in nanoseconds: zero where there are no latencies. Only the
    /// low 32 bits of their number count.
    pub fn average(&self) -> (r: u128)
        ensures
            r == average_of(self.sum, self.count),
    {
        let low: u64 = self.count % 0x1_0000_0000;
        if low == 0 {
            0
        } else {
            self.sum / (low as u128)
        }
    }
}

/// The average of as many latencies as the low 32 bits of a number say.
pub open spec fn average_of(sum: u128, count: u64) -> int {
    if count % 0x1_0000_0000 == 0 {
        0
    } else {
        sum as int / (count % 0x1_0000_0000) as int
    }
}

/// The measurements of one workload at one time.
#[derive(Debug)]
pub struct Measurement {
    /// Since the beginning of the benchmark, in seconds.
    pub timestamp: u64,
    pub latency_e2e: HistogramSummary,
    pub breakdown: TextMap<HistogramSummary>,
    /// The times of the processors that were not idle, to be added up, in binary64,
    /// by their bits.
    pub cpu_seconds: Vec<u64>,
    /// What the network devices received, to be added up.
    pub network_in_bytes: Vec<u64>,
    /// What the network devices sent, to be added up.
    pub network_out_bytes: Vec<u64>,
}

/// Measurements, by their contents.
#[verifier::ext_equal]
pub struct MeasurementView {
    pub timestamp: u64,
    pub latency_e2e: SummaryView,
    pub breakdown: Map<Seq<char>, SummaryView>,
    pub cpu_seconds: Seq<u64>,
    pub network_in_bytes: Seq<u64>,
    pub network_out_bytes: Seq<u64>,
}

/// The contents of summaries.
pub open spec fn summaries(m: Map<Seq<char>, HistogramSummary>) -> Map<Seq<char>, SummaryView> {
    Map::new(|k: Seq<char>| m.dom().contains(k), |k: Seq<char>| m[k]@)
}

impl View for Measurement {
    type V = MeasurementView;

    open spec fn view(&self) -> MeasurementView {
        MeasurementView {
            timestamp: self.timestamp,
            latency_e2e: self.latency_e2e@,
            breakdown: summaries(self.breakdown@),
            cpu_seconds: self.cpu_seconds@,
            network_in_bytes: self.network_in_bytes@,
            network_out_bytes: self.network_out_bytes@,
        }
    }
}

/// Nothing was measured.
pub open spec fn nothing_measured() -> MeasurementView {
    MeasurementView {
        timestamp: 0,
        latency_e2e: no_latencies(),
        breakdown: Map::empty(),
        cpu_seconds: Seq::empty(),
        network_in_bytes: Seq::empty(),
        network_out_bytes: Seq::empty(),
    }
}

/// The part of a measurement that a metric is about.
#[derive(Clone, Copy, Debug, PartialEq, Eq, Structural)]
pub enum Metric {
    Buckets,
    Sum,
    Count,
    SquaredSum,
    StageBuckets,
    StageSum,
    StageCount,
    StageSquaredSum,
    Cpu,
    NetworkIn,
    NetworkOut,
    Other,
}

impl ProtocolMetrics {
    /// The part of a measurement that a metric is about. The names of the
    /// protocol come first.
    pub open spec fn metric_of(&self, name: Seq<char>) -> Metric {
        if name == self.latency_buckets@ {
            Metric::Buckets
        } else if name == self.latency_sum@ {
            Metric::Sum
        } else if name == self.total_transactions@ {
            Metric::Count
        } else if name == self.latency_squared_sum@ {
            Metric::SquaredSum
        } else if name == "latency_breakdown_bucket"@ {
            Metric::StageBuckets
        } else if name == "latency_breakdown_sum"@ {
            Metric::StageSum
        } else if name == "latency_breakdown_count"@ {
            Metric::StageCount
        } else if name == "latency_breakdown_squared_s"@ {
            Metric::StageSquaredSum
        } else if name == "node_cpu_seconds_total"@ {
            Metric::Cpu
        } else if name == "node_network_receive_bytes_total"@ {
            Metric::NetworkIn
        } else if name == "node_network_transmit_bytes_total"@ {
            Metric::NetworkOut
        } else {
            Metric::Other
        }
    }

    /// The part of a measurement that a metric is about.
    pub fn metric(&self, name: &str) -> (r: Metric)
        ensures
            r == self.metric_of(name@),
    {
        if same_text(name, self.latency_buckets.as_str()) {
            Metric::Buckets
        } else if same_text(name, self.latency_sum.as_str()) {
            Metric::Sum
        } else if same_text(name, self.total_transactions.as_str()) {
            Metric::Count
        } else if same_text(name, self.latency_squared_sum.as_str()) {
            Metric::SquaredSum
        } else if same_text(name, "latency_breakdown_bucket") {
            Metric::StageBuckets
        } else if same_text(name, "latency_breakdown_sum") {
            Metric::StageSum
        } else if same_text(name, "latency_breakdown_count") {
            Metric::StageCount
        } else if same_text(name, "latency_breakdown_squared_s") {
            Metric::StageSquaredSum
        } else if same_text(name, "node_cpu_seconds_total") {
            Metric::Cpu
        } else if same_text(name, "node_network_receive_bytes_total") {
            Metric::NetworkIn
        } else if same_text(name, "node_network_transmit_bytes_total") {
            Metric::NetworkOut
        } else {
            Metric::Other
        }
    }
}

/// A text begins with another one.
pub open spec fn starts_with(s: Seq<char>, prefix: Seq<char>) -> bool {
    prefix.len() <= s.len() && s.take(prefix.len() as int) == prefix
}

fn text_starts_with(s: &str, prefix: &str) -> (b: bool)
    ensures
        b == starts_with(s@, prefix@),
{
    let a = characters(s);
    let p = characters(prefix);
    if p.len() > a.len() {
        return false;
    }
    let mut i: usize = 0;
    while i < p.len()
        invariant
            i <= p@.len() <= a@.len(),
            a@ == s@,
            p@ == prefix@,
            forall|k: int| 0 <= k < i ==> a@[k] == p@[k],
        decreases p@.len() - i,
    {
        if a[i] != p[i] {
            assert(s@.take(prefix@.len() as int)[i as int] != prefix@[i as int]);
            return false;
        }
        i = i + 1;
    }
    assert(s@.take(prefix@.len() as int) =~= prefix@);
    true
}

/// The workload that a sample belongs to: the machine itself, the one that it is
/// labelled with, or none in particular.
pub open spec fn workload_of(metric: Seq<char>, labels: Map<Seq<char>, Seq<char>>) -> Seq<char> {
    if metric == "node_cpu_seconds_total"@ || starts_with(metric, "node_network"@) {
        "system"@
    } else if labels.dom().contains("workload"@) {
        labels["workload"@]
    } else {
        "global"@
    }
}

/// What a label says.
fn label<'a>(labels: &'a Vec<(String, String)>, name: &str) -> (r: Option<&'a String>)
    requires
        textmap::no_text_twice(labels@),
    ensures
        r is Some <==> label_map(labels@).dom().contains(name@),
        r matches Some(v) ==> v@ == label_map(labels@)[name@],
{
    let mut i: usize = 0;
    while i < labels.len()
        invariant
            i <= labels@.len(),
            textmap::no_text_twice(labels@),
            forall|k: int| 0 <= k < i ==> (#[trigger] labels@[k]).0@ != name@,
        decreases labels@.len() - i,
    {
        if same_text(labels[i].0.as_str(), name) {
            proof {
                textmap::lemma_place(labels@, i as int);
            }
            return Some(&labels[i].1);
        }
        i = i + 1;
    }
    None
}

fn workload(sample: &Sample) -> (r: String)
    requires
        textmap::no_text_twice(sample.labels@),
    ensures
        r@ == workload_of(sample.metric@, label_map(sample.labels@)),
{
    let metric = sample.metric.as_str();
    if same_text(metric, "node_cpu_seconds_total") || text_starts_with(metric, "node_network") {
        return text("system");
    }
    match label(&sample.labels, "workload") {
        Some(w) => text(w.as_str()),
        None => text("global"),
    }
}

/// Buckets with the first `k` bounds of a histogram.
pub open spec fn with_bounds(
    m: Map<Seq<char>, u64>,
    b: Seq<(String, u64)>,
    k: int,
) -> Map<Seq<char>, u64>
    decreases k,
{
    if k <= 0 {
        m
    } else {
        with_bounds(m, b, k - 1).insert(b[k - 1].0@, number::whole_number(b[k - 1].1) as u64)
    }
}

fn add_bounds(buckets: &mut TextMap<u64>, b: &Vec<(String, u64)>)
    requires
        old(buckets).wf(),
    ensures
        final(buckets).wf(),
        final(buckets)@ == with_bounds(old(buckets)@, b@, b@.len() as int),
{
    let ghost m = buckets@;
    let mut i: usize = 0;
    while i < b.len()
        invariant
            i <= b@.len(),
            buckets.wf(),
            buckets@ == with_bounds(m, b@, i as int),
        decreases b@.len() - i,
    {
        buckets.insert(b[i].0.as_str(), number::to_whole(b[i].1));
        i = i + 1;
    }
}

/// A sum of latencies is a duration.
pub open spec fn is_readable(metric: Metric, s: Sample) -> bool {
    match (metric, s.value) {
        (Metric::Sum, SampleValue::Untyped(n)) => number::duration(n) is Some,
        (Metric::StageSum, SampleValue::Untyped(n)) => label_map(s.labels@).dom().contains("stage"@)
            ==> number::duration(n) is Some,
        _ => true,
    }
}

fn readable(metric: Metric, s: &Sample) -> (b: bool)
    requires
        textmap::no_text_twice(s.labels@),
    ensures
        b == is_readable(metric, *s),
{
    match (metric, &s.value) {
        (Metric::Sum, SampleValue::Untyped(n)) => number::to_nanos(*n).is_some(),
        (Metric::StageSum, SampleValue::Untyped(n)) => number::to_nanos(*n).is_some() || label(
            &s.labels,
            "stage",
        ).is_none(),
        _ => true,
    }
}

/// A stage's latencies after a sample. A bucket may also stand alone, with its
/// bound among the labels.
pub open spec fn stage_recorded(v: SummaryView, metric: Metric, s: Sample) -> SummaryView {
    let labels = label_map(s.labels@);
    match (metric, s.value) {
        (Metric::StageBuckets, SampleValue::Histogram(b)) => SummaryView {
            buckets: with_bounds(v.buckets, b@, b@.len() as int),
            ..v
        },
        (Metric::StageBuckets, SampleValue::Untyped(n)) => if labels.dom().contains("le"@) {
            SummaryView { buckets: v.buckets.insert(labels["le"@], number::whole_number(n) as u64), ..v }
        } else {
            v
        },
        (Metric::StageSum, SampleValue::Untyped(n)) => SummaryView { sum: number::duration(n)->0 as u128, ..v },
        (Metric::StageCount, SampleValue::Untyped(n)) => SummaryView { count: number::whole_number(n) as u64, ..v },
        (Metric::StageSquaredSum, SampleValue::Counter(n)) => SummaryView { squared_sum: n, ..v },
        (Metric::StageSquaredSum, SampleValue::Untyped(n)) => SummaryView { squared_sum: n, ..v },
        _ => v,
    }
}

/// The latencies from end to end after a sample.
pub open spec fn total_recorded(v: SummaryView, metric: Metric, s: Sample) -> SummaryView {
    match (metric, s.value) {
        (Metric::Buckets, SampleValue::Histogram(b)) => SummaryView {
            buckets: with_bounds(v.buckets, b@, b@.len() as int),
            ..v
        },
        (Metric::Sum, SampleValue::Untyped(n)) => SummaryView { sum: number::duration(n)->0 as u128, ..v },
        (Metric::Count, SampleValue::Untyped(n)) => SummaryView { count: number::whole_number(n) as u64, ..v },
        (Metric::SquaredSum, SampleValue::Counter(n)) => SummaryView { squared_sum: n, ..v },
        _ => v,
    }
}

/// The metric is about a stage.
pub open spec fn is_stage(metric: Metric) -> bool {
    metric is StageBuckets || metric is StageSum || metric is StageCount || metric is StageSquaredSum
}

/// What one text maps to, or nothing measured.
pub open spec fn latencies_at(m: Map<Seq<char>, SummaryView>, k: Seq<char>) -> SummaryView {
    if m.dom().contains(k) {
        m[k]
    } else {
        no_latencies()
    }
}

/// A measurement after a sample.
pub open spec fn recorded(v: MeasurementView, metric: Metric, s: Sample) -> MeasurementView {
    let labels = label_map(s.labels@);
    if is_stage(metric) {
        if labels.dom().contains("stage"@) {
            let stage = labels["stage"@];
            MeasurementView {
                breakdown: v.breakdown.insert(
                    stage,
                    stage_recorded(latencies_at(v.breakdown, stage), metric, s),
                ),
                ..v
            }
        } else {
            v
        }
    } else {
        let outside = labels.dom().contains("device"@) && labels["device"@] != "lo"@;
        let idle = labels.dom().contains("mode"@) && labels["mode"@] == "idle"@;
        match (metric, s.value) {
            (Metric::Cpu, SampleValue::Counter(n)) if !idle => MeasurementView {
                cpu_seconds: v.cpu_seconds.push(n),
                ..v
            },
            (Metric::NetworkIn, SampleValue::Counter(n)) if outside => MeasurementView {
                network_in_bytes: v.network_in_bytes.push(n),
                ..v
            },
            (Metric::NetworkOut, SampleValue::Counter(n)) if outside => MeasurementView {
                network_out_bytes: v.network_out_bytes.push(n),
                ..v
            },
            _ => MeasurementView { latency_e2e: total_recorded(v.latency_e2e, metric, s), ..v },
        }
    }
}

fn record_stage(summary: &mut HistogramSummary, metric: Metric, s: &Sample)
    requires
        old(summary).wf(),
        is_readable(metric, *s),
        label_map(s.labels@).dom().contains("stage"@),
        textmap::no_text_twice(s.labels@),
    ensures
        final(summary).wf(),
        final(summary)@ == stage_recorded(old(summary)@, metric, *s),
{
    match (metric, &s.value) {
        (Metric::StageBuckets, SampleValue::Histogram(b)) => add_bounds(&mut summary.buckets, b),
        (Metric::StageBuckets, SampleValue::Untyped(n)) => {
            if let Some(le) = label(&s.labels, "le") {
                summary.buckets.insert(le.as_str(), number::to_whole(*n));
            }
        },
        (Metric::StageSum, SampleValue::Untyped(n)) => {
            if let Some(nanos) = number::to_nanos(*n) {
                summary.sum = nanos;
            }
        },
        (Metric::StageCount, SampleValue::Untyped(n)) => {
            summary.count = number::to_whole(*n);
        },
        (Metric::StageSquaredSum, SampleValue::Counter(n)) => {
            summary.squared_sum = *n;
        },
        (Metric::StageSquaredSum, SampleValue::Untyped(n)) => {
            summary.squared_sum = *n;
        },
        _ => {},
    }
}

fn record_total(summary: &mut HistogramSummary, metric: Metric, s: &Sample)
    requires
        old(summary).wf(),
        is_readable(metric, *s),
    ensures
        final(summary).wf(),
        final(summary)@ == total_recorded(old(summary)@, metric, *s),
{
    match (metric, &s.value) {
        (Metric::Buckets, SampleValue::Histogram(b)) => add_bounds(&mut summary.buckets, b),
        (Metric::Sum, SampleValue::Untyped(n)) => {
            if let Some(nanos) = number::to_nanos(*n) {
                summary.sum = nanos;
            }
        },
        (Metric::Count, SampleValue::Untyped(n)) => {
            summary.count = number::to_whole(*n);
        },
        (Metric::SquaredSum, SampleValue::Counter(n)) => {
            summary.squared_sum = *n;
        },
        _ => {},
    }
}

impl Measurement {
    /// The buckets and stages are listed once each.
    pub open spec fn wf(&self) -> bool {
        &&& self.latency_e2e.wf()
        &&& self.breakdown.wf()
        &&& forall|k: Seq<char>|
            self.breakdown@.dom().contains(k) ==> (#[trigger] self.breakdown@[k]).wf()
    }

    /// Nothing was measured.
    pub fn new() -> (r: Self)
        ensures
            r.wf(),
            r@ == nothing_measured(),
    {
        let r = Measurement {
            timestamp: 0,
            latency_e2e: HistogramSummary::new(),
            breakdown: TextMap::new(),
            cpu_seconds: Vec::new(),
            network_in_bytes: Vec::new(),
            network_out_bytes: Vec::new(),
        };
        assert(r@ =~= nothing_measured());
        r
    }

    fn record_in_stage(&mut self, metric: Metric, s: &Sample)
        requires
            old(self).wf(),
            is_stage(metric),
            is_readable(metric, *s),
            textmap::no_text_twice(s.labels@),
        ensures
            final(self).wf(),
            final(self)@ == recorded(old(self)@, metric, *s),
    {
        let ghost before = *self;
        if let Some(stage) = label(&s.labels, "stage") {
            let mut summary = match self.breakdown.remove(stage.as_str()) {
                Some(x) => x,
                None => HistogramSummary::new(),
            };
            record_stage(&mut summary, metric, s);
            self.breakdown.insert(stage.as_str(), summary);
            proof {
                let k = stage@;
                assert(summary@ == stage_recorded(
                    latencies_at(before@.breakdown, k),
                    metric,
                    *s,
                ));
                assert(self@.breakdown =~= before@.breakdown.insert(k, summary@));
            }
        }
    }

    /// Takes a sample into account.
    pub fn record(&mut self, metric: Metric, s: &Sample)
        requires
            old(self).wf(),
            is_readable(metric, *s),
            textmap::no_text_twice(s.labels@),
        ensures
            final(self).wf(),
            final(self)@ == recorded(old(self)@, metric, *s),
    {
        match metric {
            Metric::StageBuckets | Metric::StageSum | Metric::StageCount | Metric::StageSquaredSum => {
                self.record_in_stage(metric, s);
            },
            Metric::Cpu => {
                if let SampleValue::Counter(n) = &s.value {
                    let idle = match label(&s.labels, "mode") {
                        Some(mode) => same_text(mode.as_str(), "idle"),
                        None => false,
                    };
                    if !idle {
                        self.cpu_seconds.push(*n);
                    }
                }
            },
            Metric::NetworkIn => {
                if let SampleValue::Counter(n) = &s.value {
                    if let Some(device) = label(&s.labels, "device") {
                        if !same_text(device.as_str(), "lo") {
                            self.network_in_bytes.push(*n);
                        }
                    }
                }
            },
            Metric::NetworkOut => {
                if let SampleValue::Counter(n) = &s.value {
                    if let Some(device) = label(&s.labels, "device") {
                        if !same_text(device.as_str(), "lo") {
                            self.network_out_bytes.push(*n);
                        }
                    }
                }
            },
            _ => {
                record_total(&mut self.latency_e2e, metric, s);
            },
        }
    }
}

/// The contents of measurements by workload.
pub open spec fn contents(m: Map<Seq<char>, Measurement>) -> Map<Seq<char>, MeasurementView> {
    Map::new(|k: Seq<char>| m.dom().contains(k), |k: Seq<char>| m[k]@)
}

/// The measurements by workload after the first `k` samples.
pub open spec fn measured(
    names: ProtocolMetrics,
    samples: Seq<Sample>,
    k: int,
) -> Map<Seq<char>, MeasurementView>
    decreases k,
{
    if k <= 0 {
        Map::empty()
    } else {
        let before = measured(names, samples, k - 1);
        let s = samples[k - 1];
        let w = workload_of(s.metric@, label_map(s.labels@));
        let v = if before.dom().contains(w) {
            before[w]
        } else {
            nothing_measured()
        };
        before.insert(w, recorded(v, names.metric_of(s.metric@), s))
    }
}

/// How long the benchmark has run, in seconds: what the first sample of that name
/// from `i` on counts.
pub open spec fn duration_from(names: ProtocolMetrics, samples: Seq<Sample>, i: int) -> u64
    decreases samples.len() - i,
{
    if i >= samples.len() {
        0
    } else if samples[i].metric@ == names.benchmark_duration@ {
        match samples[i].value {
            SampleValue::Counter(n) => number::whole_number(n) as u64,
            _ => 0,
        }
    } else {
        duration_from(names, samples, i + 1)
    }
}

/// The measurements by workload that samples give.
pub open spec fn measurements_of(
    names: ProtocolMetrics,
    samples: Seq<Sample>,
) -> Map<Seq<char>, MeasurementView> {
    let m = measured(names, samples, samples.len() as int);
    let timestamp = duration_from(names, samples, 0);
    Map::new(
        |k: Seq<char>| m.dom().contains(k),
        |k: Seq<char>| MeasurementView { timestamp, ..m[k] },
    )
}

/// The measurements are well formed.
pub open spec fn all_wf(m: TextMap<Measurement>) -> bool {
    &&& m.wf()
    &&& forall|k: Seq<char>| m@.dom().contains(k) ==> (#[trigger] m@[k]).wf()
}

fn benchmark_seconds(names: &ProtocolMetrics, samples: &Vec<Sample>) -> (r: u64)
    ensures
        r == duration_from(*names, samples@, 0),
{
    let mut i: usize = 0;
    while i < samples.len()
        invariant
            i <= samples@.len(),
            duration_from(*names, samples@, 0) == duration_from(*names, samples@, i as int),
        decreases samples@.len() - i,
    {
        if same_text(samples[i].metric.as_str(), names.benchmark_duration.as_str()) {
            return match &samples[i].value {
                SampleValue::Counter(n) => number::to_whole(*n),
                _ => 0,
            };
        }
        i = i + 1;
    }
    0
}

/// Every sum of latencies is a duration.
pub open spec fn sums_are_durations(names: ProtocolMetrics, samples: Seq<Sample>) -> bool {
    forall|i: int|
        0 <= i < samples.len() ==> is_readable(
            names.metric_of((#[trigger] samples[i]).metric@),
            samples[i],
        )
}

/// Makes measurements out of samples.
pub fn measure(names: &ProtocolMetrics, samples: &Vec<Sample>) -> (r: TextMap<Measurement>)
    requires
        forall|i: int|
            0 <= i < samples@.len() ==> textmap::no_text_twice((#[trigger] samples@[i]).labels@),
        sums_are_durations(*names, samples@),
    ensures
        all_wf(r),
        contents(r@) == measurements_of(*names, samples@),
{
    let mut out: TextMap<Measurement> = TextMap::new();
    let mut i: usize = 0;
    assert(contents(out@) =~= measured(*names, samples@, 0));
    while i < samples.len()
        invariant
            i <= samples@.len(),
            forall|i: int|
                0 <= i < samples@.len() ==> textmap::no_text_twice(
                    (#[trigger] samples@[i]).labels@,
                ),
            sums_are_durations(*names, samples@),
            all_wf(out),
            contents(out@) == measured(*names, samples@, i as int),
        decreases samples@.len() - i,
    {
        let ghost before = out;
        let s = &samples[i];
        assert(textmap::no_text_twice(samples@[i as int].labels@));
        let w = workload(s);
        let mut m = match out.remove(w.as_str()) {
            Some(x) => x,
            None => Measurement::new(),
        };
        let ghost m0 = m@;
        let metric = names.metric(s.metric.as_str());
        m.record(metric, s);
        out.insert(w.as_str(), m);
        proof {
            let v = if contents(before@).dom().contains(w@) {
                contents(before@)[w@]
            } else {
                nothing_measured()
            };
            assert(m0 == v);
            assert(contents(out@) =~= contents(before@).insert(w@, m@));
        }
        i = i + 1;
    }
    let timestamp: u64 = benchmark_seconds(names, samples);
    let ghost all = out;
    let mut j: usize = 0;
    while j < out.entries.len()
        invariant
            j <= out.entries@.len(),
            out.entries@.len() == all.entries@.len(),
            forall|k: int|
                0 <= k < out.entries@.len() ==> (#[trigger] out.entries@[k]).0 == all.entries@[k].0,
            forall|k: int|
                0 <= k < j ==> (#[trigger] out.entries@[k]).1 == (Measurement {
                    timestamp,
                    ..all.entries@[k].1
                }),
            forall|k: int|
                j <= k < out.entries@.len() ==> (#[trigger] out.entries@[k]) == all.entries@[k],
        decreases out.entries@.len() - j,
    {
        out.entries[j].1.timestamp = timestamp;
        j = j + 1;
    }
    proof {
        lemma_stamped(all, out, timestamp);
        assert(contents(out@) =~= measurements_of(*names, samples@));
    }
    out
}

proof fn lemma_stamped(all: TextMap<Measurement>, out: TextMap<Measurement>, timestamp: u64)
    requires
        all_wf(all),
        out.entries@.len() == all.entries@.len(),
        forall|k: int|
            0 <= k < out.entries@.len() ==> (#[trigger] out.entries@[k]).0 == all.entries@[k].0,
        forall|k: int|
            0 <= k < out.entries@.len() ==> (#[trigger] out.entries@[k]).1 == (Measurement {
                timestamp,
                ..all.entries@[k].1
            }),
    ensures
        all_wf(out),
        out@.dom() == all@.dom(),
        forall|k: Seq<char>|
            all@.dom().contains(k) ==> #[trigger] out@[k] == (Measurement {
                timestamp,
                ..all@[k]
            }),
{
    let a = all.entries@;
    let b = out.entries@;
    assert forall|i: int, j: int| 0 <= i < j < b.len() implies (#[trigger] b[i]).0@ != (
    #[trigger] b[j]).0@ by {
        assert(a[i].0@ != a[j].0@);
    }
    assert forall|k: Seq<char>| textmap::stands_in(a, k) == textmap::stands_in(b, k) by {
        if textmap::stands_in(a, k) {
            let i = textmap::place(a, k);
            assert(b[i].0@ == k);
        }
        if textmap::stands_in(b, k) {
            let i = textmap::place(b, k);
            assert(a[i].0@ == k);
        }
    }
    assert(out@.dom() =~= all@.dom());
    assert forall|k: Seq<char>| all@.dom().contains(k) implies #[trigger] out@[k] == (Measurement {
        timestamp,
        ..all@[k]
    }) by {
        let i = textmap::place(a, k);
        assert(0 <= i < a.len() && a[i].0@ == k);
        assert(b[i].0 == a[i].0);
        textmap::lemma_place(a, i);
        textmap::lemma_place(b, i);
    }
    assert forall|k: Seq<char>| out@.dom().contains(k) implies (#[trigger] out@[k]).wf() by {
        assert(all@[k].wf());
    }
}

impl Measurement {
    /// Makes measurements out of the text that a node exposes: none where a sum of
    /// latencies is not a duration.
    pub fn from_prometheus(names: &ProtocolMetrics, exposed: &str) -> (r: Option<
        TextMap<Measurement>,
    >)
        ensures
            exists|samples: Seq<Sample>|
                {
                    &&& #[trigger] are_exposed(samples, scraped(exposed@))
                    &&& r is Some <==> sums_are_durations(*names, samples)
                    &&& r matches Some(m) ==> all_wf(m) && contents(m@) == measurements_of(
                        *names,
                        samples,
                    )
                },
    {
        let samples = scrape(exposed);
        let mut i: usize = 0;
        while i < samples.len()
            invariant
                i <= samples@.len(),
                are_exposed(samples@, scraped(exposed@)),
                forall|j: int|
                    0 <= j < samples@.len() ==> textmap::no_text_twice(
                        (#[trigger] samples@[j]).labels@,
                    ),
                forall|j: int|
                    0 <= j < i ==> is_readable(
                        names.metric_of((#[trigger] samples@[j]).metric@),
                        samples@[j],
                    ),
            decreases samples@.len() - i,
        {
            let s = &samples[i];
            if !readable(names.metric(s.metric.as_str()), s) {
                assert(!is_readable(names.metric_of(samples@[i as int].metric@), samples@[i as int]));
                return None;
            }
            i = i + 1;
        }
        Some(measure(names, &samples))
    }
}

/// The first measurements that are left out, in seconds.
pub const WARM_UP: u64 = 240;

/// The last measurements that are left out, in seconds.
pub const COOLDOWN: u64 = 3;

/// A time after the warm-up.
pub open spec fn is_warm(p: Measurement) -> bool {
    p.timestamp > WARM_UP
}

/// A time before the cooldown.
pub open spec fn before_cooldown(s: Seq<Measurement>, p: Measurement) -> bool {
    p.timestamp <= (if s.last().timestamp >= COOLDOWN {
        s.last().timestamp - COOLDOWN
    } else {
        0
    })
}

/// The window between the first time after the warm-up and the last one before
/// the cooldown.
pub open spec fn is_window(s: Seq<Measurement>, a: int, b: int) -> bool {
    &&& 0 <= a < s.len()
    &&& 0 <= b < s.len()
    &&& is_warm(s[a])
    &&& forall|i: int| 0 <= i < a ==> !is_warm(#[trigger] s[i])
    &&& before_cooldown(s, s[b])
    &&& forall|i: int| b < i < s.len() ==> !before_cooldown(s, #[trigger] s[i])
}

/// There is such a window, and it is not empty.
pub open spec fn is_steady(s: Seq<Measurement>, a: int, b: int) -> bool {
    is_window(s, a, b) && s[a].timestamp < s[b].timestamp
}

proof fn lemma_window(s: Seq<Measurement>, a: int, b: int, x: int, y: int)
    requires
        is_window(s, a, b),
        is_window(s, x, y),
    ensures
        a == x,
        b == y,
{
    if x < a {
        assert(!is_warm(s[x]));
    } else if a < x {
        assert(!is_warm(s[a]));
    }
    if y < b {
        assert(!before_cooldown(s, s[b]));
    } else if b < y {
        assert(!before_cooldown(s, s[y]));
    }
}

impl MeasurementsCollection {
    /// The window in which a benchmark runs steadily, if there is one that is not
    /// empty.
    pub fn get_steady_state_window(s: &Vec<Measurement>) -> (r: Option<(usize, usize)>)
        ensures
            r matches Some(w) ==> is_steady(s@, w.0 as int, w.1 as int),
            r is None ==> forall|a: int, b: int| !#[trigger] is_steady(s@, a, b),
    {
        let n: usize = s.len();
        if n == 0 {
            return None;
        }
        let cutoff: u64 = s[n - 1].timestamp.saturating_sub(COOLDOWN);
        let mut a: usize = 0;
        while a < n && s[a].timestamp <= WARM_UP
            invariant
                a <= n,
                n == s@.len(),
                forall|i: int| 0 <= i < a ==> !is_warm(#[trigger] s@[i]),
            decreases n - a,
        {
            a = a + 1;
        }
        if a == n {
            return None;
        }
        let mut b: usize = n;
        while b > 0 && s[b - 1].timestamp > cutoff
            invariant
                b <= n,
                n == s@.len(),
                n > 0,
                cutoff == (if s@.last().timestamp >= COOLDOWN {
                    (s@.last().timestamp - COOLDOWN) as u64
                } else {
                    0
                }),
                forall|i: int| b <= i < n ==> !before_cooldown(s@, #[trigger] s@[i]),
            decreases b,
        {
            b = b - 1;
        }
        if b == 0 {
            return None;
        }
        let e: usize = b - 1;
        assert(is_window(s@, a as int, e as int));
        if s[a].timestamp < s[e].timestamp {
            Some((a, e))
        } else {
            proof {
                assert forall|x: int, y: int| !#[trigger] is_steady(s@, x, y) by {
                    if is_steady(s@, x, y) {
                        lemma_window(s@, a as int, e as int, x, y);
                    }
                }
            }
            None
        }
    }
}

/// The longest duration that there is, in nanoseconds.
pub const LONGEST_DURATION: u128 = 18446744073709551615999999999;

/// One number less another, or zero.
pub open spec fn less(a: int, b: int) -> int {
    if a >= b {
        a - b
    } else {
        0
    }
}

/// The average latency in the steady window, if there are latencies in it.
pub open spec fn steady_average(s: Seq<Measurement>) -> Option<int> {
    if exists|a: int, b: int| #[trigger] is_steady(s, a, b) {
        let w = choose|w: (int, int)| #[trigger] is_steady(s, w.0, w.1);
        let from = s[w.0].latency_e2e;
        let to = s[w.1].latency_e2e;
        let count = less(to.count as int, from.count as int) % 0x1_0000_0000;
        if count > 0 {
            Some(less(to.sum as int, from.sum as int) / count)
        } else {
            None
        }
    } else {
        None
    }
}

fn average_in_window(s: &Vec<Measurement>) -> (r: Option<u128>)
    ensures
        r is Some <==> steady_average(s@) is Some,
        r matches Some(x) ==> x == steady_average(s@)->0,
{
    match MeasurementsCollection::get_steady_state_window(s) {
        Some((a, b)) => {
            proof {
                let w = (a as int, b as int);
                assert(is_steady(s@, w.0, w.1));
                let q = choose|w: (int, int)| #[trigger] is_steady(s@, w.0, w.1);
                lemma_window(s@, a as int, b as int, q.0, q.1);
            }
            let count: u64 = s[b].latency_e2e.count.saturating_sub(s[a].latency_e2e.count)
                % 0x1_0000_0000;
            if count > 0 {
                let sum: u128 = s[b].latency_e2e.sum.saturating_sub(s[a].latency_e2e.sum);
                Some(sum / (count as u128))
            } else {
                None
            }
        },
        None => None,
    }
}

/// The averages of the first `k` scrapers: their sum and their number.
pub open spec fn averages(s: Seq<(u64, Vec<Measurement>)>, k: int) -> (int, int)
    decreases k,
{
    if k <= 0 {
        (0, 0)
    } else {
        let before = averages(s, k - 1);
        match steady_average(s[k - 1].1@) {
            Some(x) => (before.0 + x, before.1 + 1),
            None => before,
        }
    }
}

proof fn lemma_averages(s: Seq<(u64, Vec<Measurement>)>, i: int, k: int)
    requires
        0 <= i <= k <= s.len(),
    ensures
        0 <= averages(s, i).0 <= averages(s, k).0,
        0 <= averages(s, i).1 <= averages(s, k).1 <= k,
    decreases k,
{
    if k > 0 {
        let v = s[k - 1].1@;
        assert(steady_average(v) matches Some(x) ==> x >= 0) by {
            if let Some(x) = steady_average(v) {
                let w = choose|w: (int, int)| #[trigger] is_steady(v, w.0, w.1);
                let a = less(v[w.1].latency_e2e.sum as int, v[w.0].latency_e2e.sum as int);
                let c = less(v[w.1].latency_e2e.count as int, v[w.0].latency_e2e.count as int)
                    % 0x1_0000_0000;
                vstd::arithmetic::div_mod::lemma_div_pos_is_pos(a, c);
            }
        }
        if i < k {
            lemma_averages(s, i, k - 1);
        } else {
            lemma_averages(s, i - 1, k - 1);
        }
    }
}

/// A text is in a list.
pub open spec fn lists(v: Seq<String>, l: Seq<char>) -> bool {
    exists|i: int| 0 <= i < v.len() && (#[trigger] v[i])@ == l
}

/// Puts a text into its place in an ordered list.
fn insert_in_order(list: &mut Vec<String>, x: &str)
    requires
        forall|i: int, j: int|
            0 <= i < j < old(list)@.len() ==> before(
                (#[trigger] old(list)@[i])@,
                (#[trigger] old(list)@[j])@,
            ),
        !lists(old(list)@, x@),
    ensures
        forall|i: int, j: int|
            0 <= i < j < final(list)@.len() ==> before(
                (#[trigger] final(list)@[i])@,
                (#[trigger] final(list)@[j])@,
            ),
        forall|l: Seq<char>| #[trigger]
            lists(final(list)@, l) == (lists(old(list)@, l) || l == x@),
{
    let ghost start = list@;
    let mut p: usize = 0;
    while p < list.len() && text_before(list[p].as_str(), x)
        invariant
            p <= list@.len(),
            list@ == start,
            forall|k: int| 0 <= k < p ==> before((#[trigger] list@[k])@, x@),
        decreases list@.len() - p,
    {
        p = p + 1;
    }
    let copy = text(x);
    list.insert(p, copy);
    proof {
        let out = list@;
        assert(out == start.insert(p as int, copy));
        assert forall|k: int| p <= k < start.len() implies before(x@, (#[trigger] start[k])@) by {
            assert(start[p as int]@ != x@);
            crate::text::lemma_before_is_total(x@, start[p as int]@);
            if p < k {
                crate::text::lemma_before_is_transitive(x@, start[p as int]@, start[k]@);
            }
        }
        assert forall|i: int, j: int| 0 <= i < j < out.len() implies before(
            (#[trigger] out[i])@,
            (#[trigger] out[j])@,
        ) by {
            let a = if i < p { i } else { i - 1 };
            let b = if j < p { j } else { j - 1 };
            if i != p && j != p {
                assert(out[i] == start[a] && out[j] == start[b]);
            } else if i == p {
                assert(out[j] == start[b]);
            } else {
                assert(out[i] == start[a]);
            }
        }
        assert forall|l: Seq<char>| #[trigger] lists(out, l) == (lists(start, l) || l == x@) by {
            if lists(out, l) {
                let i = choose|i: int| 0 <= i < out.len() && (#[trigger] out[i])@ == l;
                if i < p {
                    assert(start[i]@ == l);
                } else if i > p {
                    assert(start[i - 1]@ == l);
                }
            }
            if lists(start, l) {
                let i = choose|i: int| 0 <= i < start.len() && (#[trigger] start[i])@ == l;
                if i < p {
                    assert(out[i]@ == l);
                } else {
                    assert(out[i + 1]@ == l);
                }
            }
            if l == x@ {
                assert(out[p as int]@ == l);
            }
        }
    }
}

/// Measurements by workload and by scraper.
pub struct MeasurementsCollection {
    pub data: TextMap<KeyMap<u64, Vec<Measurement>>>,
}

impl MeasurementsCollection {
    /// Each workload and each of its scrapers is listed once.
    pub open spec fn wf(&self) -> bool {
        &&& self.data.wf()
        &&& forall|k: Seq<char>| self.data@.dom().contains(k) ==> (#[trigger] self.data@[k]).wf()
    }

    /// The scraper measured the workload.
    pub open spec fn has(&self, label: Seq<char>, scraper: u64) -> bool {
        self.data@.dom().contains(label) && self.data@[label]@.dom().contains(scraper)
    }

    /// What the scraper measured of the workload.
    pub open spec fn measured(&self, label: Seq<char>, scraper: u64) -> Seq<Measurement> {
        if self.has(label, scraper) {
            self.data@[label]@[scraper]@
        } else {
            Seq::empty()
        }
    }

    /// No measurements.
    pub fn new() -> (r: Self)
        ensures
            r.wf(),
            forall|l: Seq<char>, i: u64| !#[trigger] r.has(l, i),
    {
        MeasurementsCollection { data: TextMap::new() }
    }

    /// Adds a measurement.
    pub fn add(&mut self, scraper_id: u64, label: &str, measurement: Measurement)
        requires
            old(self).wf(),
        ensures
            final(self).wf(),
            final(self).data@.dom() == old(self).data@.dom().insert(label@),
            forall|l: Seq<char>, i: u64| #[trigger]
                final(self).has(l, i) == (old(self).has(l, i) || (l == label@ && i == scraper_id)),
            forall|l: Seq<char>, i: u64| #[trigger]
                final(self).measured(l, i) == (if l == label@ && i == scraper_id {
                    old(self).measured(l, i).push(measurement)
                } else {
                    old(self).measured(l, i)
                }),
    {
        let ghost before = *self;
        let mut scrapers = match self.data.remove(label) {
            Some(x) => x,
            None => KeyMap::new(),
        };
        let ghost scrapers0 = scrapers@;
        let mut list = match scrapers.remove(&scraper_id) {
            Some(x) => x,
            None => Vec::new(),
        };
        assert(list@ =~= before.measured(label@, scraper_id));
        list.push(measurement);
        scrapers.insert(scraper_id, list);
        assert(scrapers@ =~= scrapers0.insert(scraper_id, list));
        self.data.insert(label, scrapers);
        assert(self.data@ =~= before.data@.insert(label@, scrapers));
    }

    /// The workloads, each once.
    pub fn labels(&self) -> (r: Vec<&String>)
        ensures
            r@.len() == self.data.entries@.len(),
            forall|i: int| 0 <= i < r@.len() ==> *(#[trigger] r@[i]) == self.data.entries@[i].0,
    {
        let mut out: Vec<&String> = Vec::new();
        let mut i: usize = 0;
        while i < self.data.entries.len()
            invariant
                i <= self.data.entries@.len(),
                out@.len() == i,
                forall|k: int| 0 <= k < i ==> *(#[trigger] out@[k]) == self.data.entries@[k].0,
            decreases self.data.entries@.len() - i,
        {
            out.push(&self.data.entries[i].0);
            i = i + 1;
        }
        out
    }

    /// What the scrapers measured of a workload, one list for each of them.
    pub fn all_measurements(&self, label: &str) -> (r: Vec<&Vec<Measurement>>)
        requires
            self.wf(),
        ensures
            !self.data@.dom().contains(label@) ==> r@.len() == 0,
            self.data@.dom().contains(label@) ==> {
                let scrapers = self.data@[label@].entries@;
                &&& r@.len() == scrapers.len()
                &&& forall|i: int| 0 <= i < r@.len() ==> *(#[trigger] r@[i]) == scrapers[i].1
            },
    {
        let mut out: Vec<&Vec<Measurement>> = Vec::new();
        if let Some(scrapers) = self.data.get(label) {
            let mut i: usize = 0;
            while i < scrapers.entries.len()
                invariant
                    i <= scrapers.entries@.len(),
                    out@.len() == i,
                    forall|k: int| 0 <= k < i ==> *(#[trigger] out@[k]) == scrapers.entries@[k].1,
                decreases scrapers.entries@.len() - i,
            {
                out.push(&scrapers.entries[i].1);
                i = i + 1;
            }
        }
        out
    }

    /// The workloads that a summary shows, in order: all but that of the machines.
    pub fn summary_labels(&self) -> (r: Vec<String>)
        requires
            self.wf(),
        ensures
            forall|i: int, j: int|
                0 <= i < j < r@.len() ==> before((#[trigger] r@[i])@, (#[trigger] r@[j])@),
            forall|l: Seq<char>| #[trigger]
                lists(r@, l) == (self.data@.dom().contains(l) && l != "system"@),
    {
        let labels = self.labels();
        let ghost entries = self.data.entries@;
        let mut out: Vec<String> = Vec::new();
        let mut i: usize = 0;
        while i < labels.len()
            invariant
                i <= labels@.len(),
                entries == self.data.entries@,
                labels@.len() == entries.len(),
                textmap::no_text_twice(entries),
                forall|k: int| 0 <= k < labels@.len() ==> *(#[trigger] labels@[k]) == entries[k].0,
                forall|i: int, j: int|
                    0 <= i < j < out@.len() ==> before((#[trigger] out@[i])@, (#[trigger] out@[j])@),
                forall|l: Seq<char>| #[trigger]
                    lists(out@, l) == (textmap::stands_in(entries.take(i as int), l) && l
                        != "system"@),
            decreases labels@.len() - i,
        {
            let label = labels[i];
            if !same_text(label.as_str(), "system") {
                insert_in_order(&mut out, label.as_str());
            }
            proof {
                let shorter = entries.take(i as int);
                let longer = entries.take(i + 1);
                assert forall|l: Seq<char>| #[trigger]
                    textmap::stands_in(longer, l) == (textmap::stands_in(shorter, l) || l
                        == label@) by {
                    if textmap::stands_in(longer, l) && l != label@ {
                        assert(shorter[textmap::place(longer, l)].0@ == l);
                    }
                    if textmap::stands_in(shorter, l) {
                        assert(longer[textmap::place(shorter, l)].0@ == l);
                    }
                    assert(longer[i as int].0@ == label@);
                }
            }
            i = i + 1;
        }
        assert(entries.take(i as int) =~= entries);
        out
    }

    /// How long the benchmark took, in seconds: the latest time of a last
    /// measurement.
    pub fn benchmark_duration(&self) -> (r: u64)
        requires
            self.wf(),
        ensures
            forall|l: Seq<char>, i: u64| #[trigger]
                self.measured(l, i).len() > 0 ==> self.measured(l, i).last().timestamp <= r,
            r == 0 || exists|l: Seq<char>, i: u64| #[trigger]
                self.measured(l, i).len() > 0 && self.measured(l, i).last().timestamp == r,
    {
        let mut longest: u64 = 0;
        let mut i: usize = 0;
        while i < self.data.entries.len()
            invariant
                i <= self.data.entries@.len(),
                self.wf(),
                forall|a: int, b: int|
                    #![trigger self.data.entries@[a].1.entries@[b]]
                    0 <= a < i && 0 <= b < self.data.entries@[a].1.entries@.len()
                        && self.data.entries@[a].1.entries@[b].1@.len() > 0
                        ==> self.data.entries@[a].1.entries@[b].1@.last().timestamp <= longest,
                longest == 0 || exists|l: Seq<char>, i: u64| #[trigger]
                    self.measured(l, i).len() > 0 && self.measured(l, i).last().timestamp
                        == longest,
            decreases self.data.entries@.len() - i,
        {
            let scrapers = &self.data.entries[i].1;
            proof {
                textmap::lemma_place(self.data.entries@, i as int);
                assert(self.data@[self.data.entries@[i as int].0@].wf());
            }
            let ghost start = longest;
            let mut j: usize = 0;
            while j < scrapers.entries.len()
                invariant
                    i < self.data.entries@.len(),
                    *scrapers == self.data.entries@[i as int].1,
                    j <= scrapers.entries@.len(),
                    self.wf(),
                    scrapers.wf(),
                    self.data@.dom().contains(self.data.entries@[i as int].0@),
                    self.data@[self.data.entries@[i as int].0@] == *scrapers,
                    start <= longest,
                    forall|b: int|
                        0 <= b < j && (#[trigger] scrapers.entries@[b]).1@.len() > 0
                            ==> scrapers.entries@[b].1@.last().timestamp <= longest,
                    longest == 0 || exists|l: Seq<char>, i: u64| #[trigger]
                        self.measured(l, i).len() > 0 && self.measured(l, i).last().timestamp
                            == longest,
                decreases scrapers.entries@.len() - j,
            {
                let list = &scrapers.entries[j].1;
                let n: usize = list.len();
                if n > 0 && list[n - 1].timestamp > longest {
                    longest = list[n - 1].timestamp;
                    proof {
                        crate::keymap::lemma_entry(*scrapers, j as int);
                        let l = self.data.entries@[i as int].0@;
                        let id = scrapers.entries@[j as int].0;
                        assert(self.measured(l, id) == list@);
                    }
                }
                j = j + 1;
            }
            i = i + 1;
        }
        proof {
            assert forall|l: Seq<char>, id: u64| #[trigger]
                self.measured(l, id).len() > 0 implies self.measured(l, id).last().timestamp
                <= longest by {
                let a = textmap::place(self.data.entries@, l);
                assert(textmap::stands_in(self.data.entries@, l));
                assert(self.data.entries@[a].1 == self.data@[l]);
                let m = self.data.entries@[a].1;
                let b = crate::keymap::position(m.entries@, id);
                assert(m.has(id));
                assert(m.entries@[b].1 == m@[id]);
                assert(m.entries@[b].1@.len() > 0);
            }
        }
        longest
    }

    /// The average latency of a workload in the steady windows of its scrapers, in
    /// nanoseconds: the average of their averages, or zero. Only the low 32 bits of
    /// their number count.
    pub fn aggregate_average_latency(&self, label: &str) -> (r: u128)
        requires
            self.wf(),
            self.data@.dom().contains(label@) ==> {
                let e = self.data@[label@].entries@;
                let t = averages(e, e.len() as int);
                t.0 <= LONGEST_DURATION && (t.1 == 0 || t.1 % 0x1_0000_0000 != 0)
            },
        ensures
            r == (if self.data@.dom().contains(label@) {
                let e = self.data@[label@].entries@;
                let t = averages(e, e.len() as int);
                if t.1 == 0 {
                    0
                } else {
                    t.0 / (t.1 % 0x1_0000_0000)
                }
            } else {
                0
            }),
            self.data@.dom().contains(label@) ==> is_average_of(r as int, self.data@[label@].entries@),
            !self.data@.dom().contains(label@) ==> r == 0,
    {
        let scrapers = match self.data.get(label) {
            Some(x) => x,
            None => {
                return 0;
            },
        };
        let mut sum: u128 = 0;
        let mut number: u64 = 0;
        let mut i: usize = 0;
        let n: usize = scrapers.entries.len();
        while i < n
            invariant
                i <= n,
                n == scrapers.entries@.len(),
                number <= i,
                (sum as int, number as int) == averages(scrapers.entries@, i as int),
                averages(scrapers.entries@, n as int).0 <= LONGEST_DURATION,
            decreases n - i,
        {
            proof {
                lemma_averages(scrapers.entries@, i as int + 1, n as int);
            }
            if let Some(x) = average_in_window(&scrapers.entries[i].1) {
                sum = sum + x;
                number = number + 1;
            }
            i = i + 1;
        }
        proof {
            law_average_of_averages(scrapers.entries@);
        }
        if number == 0 {
            0
        } else {
            let low: u64 = number % 0x1_0000_0000;
            sum / (low as u128)
        }
    }
}

/// The scrapers among the first `k` that have an average in a steady window.
pub open spec fn steady_scrapers(s: Seq<(u64, Vec<Measurement>)>, k: int) -> Set<int> {
    Set::new(|i: int| 0 <= i < k && steady_average(s[i].1@) is Some)
}

/// The average of a scraper, or zero where it has none.
pub open spec fn average_or_zero(s: Seq<(u64, Vec<Measurement>)>) -> spec_fn(int) -> int {
    |i: int|
        match steady_average(s[i].1@) {
            Some(x) => x,
            None => 0,
        }
}

/// A number is the average of the averages that the scrapers have: where none has one it
/// is zero, and where `m` have one, `m` times the number is their sum but for less than
/// `m`, and the number lies between any bounds of them. Only the low 32 bits of `m` count.
pub open spec fn is_average_of(r: int, s: Seq<(u64, Vec<Measurement>)>) -> bool {
    let m = steady_scrapers(s, s.len() as int).len() as int;
    let total = modular::sum(s.len(), average_or_zero(s));
    &&& m == 0 ==> r == 0
    &&& 0 < m && m < 0x1_0000_0000 ==> r * m <= total < r * m + m
    &&& 0 < m && m < 0x1_0000_0000 ==> forall|low: int, high: int|
        #![trigger is_bound(s, low, high)]
        is_bound(s, low, high) ==> low <= r <= high
}

/// The averages of the scrapers that have one lie between two numbers.
pub open spec fn is_bound(s: Seq<(u64, Vec<Measurement>)>, low: int, high: int) -> bool {
    forall|i: int|
        0 <= i < s.len() && steady_average((#[trigger] s[i]).1@) is Some ==> low
            <= steady_average(s[i].1@)->0 <= high
}

proof fn lemma_averages_counted(s: Seq<(u64, Vec<Measurement>)>, k: nat)
    requires
        k <= s.len(),
    ensures
        steady_scrapers(s, k as int).finite(),
        averages(s, k as int).0 == modular::sum(k, average_or_zero(s)),
        averages(s, k as int).1 == steady_scrapers(s, k as int).len(),
        forall|low: int, high: int|
            #![trigger is_bound(s, low, high)]
            is_bound(s, low, high) ==> low * averages(s, k as int).1 <= averages(s, k as int).0
                <= high * averages(s, k as int).1,
    decreases k,
{
    let set = steady_scrapers(s, k as int);
    if k == 0 {
        assert(set =~= Set::<int>::empty());
    } else {
        let j = (k - 1) as nat;
        lemma_averages_counted(s, j);
        let before = steady_scrapers(s, j as int);
        let t = averages(s, j as int);
        match steady_average(s[j as int].1@) {
            Some(x) => {
                assert(set =~= before.insert(j as int));
                assert forall|low: int, high: int|
                    #![trigger is_bound(s, low, high)]
                    is_bound(s, low, high) implies low * averages(s, k as int).1 <= averages(
                    s,
                    k as int,
                ).0 <= high * averages(s, k as int).1 by {
                    let _ = s[j as int];
                    assert(low <= x <= high);
                    assert(low * (t.1 + 1) == low * t.1 + low) by (nonlinear_arith);
                    assert(high * (t.1 + 1) == high * t.1 + high) by (nonlinear_arith);
                }
            },
            None => {
                assert(set =~= before);
            },
        }
    }
}

/// The sum of the scrapers' averages by their number is the average of them: it lies
/// between the smallest and the largest, and times the number of scrapers that have an
/// average it is their sum, but for less than that number.
pub proof fn law_average_of_averages(s: Seq<(u64, Vec<Measurement>)>)
    ensures
        ({
            let t = averages(s, s.len() as int);
            is_average_of(
                if t.1 == 0 {
                    0
                } else {
                    t.0 / (t.1 % 0x1_0000_0000)
                },
                s,
            )
        }),
{
    let t = averages(s, s.len() as int);
    let m = t.1;
    lemma_averages_counted(s, s.len());
    if 0 < m && m < 0x1_0000_0000 {
        let r = t.0 / m;
        vstd::arithmetic::div_mod::lemma_fundamental_div_mod(t.0, m);
        assert(m * r == r * m) by (nonlinear_arith);
        assert forall|low: int, high: int|
            #![trigger is_bound(s, low, high)]
            is_bound(s, low, high) implies low <= r <= high by {
            assert(low * m <= t.0 <= high * m);
            assert(low <= r) by (nonlinear_arith)
                requires
                    low * m <= t.0,
                    t.0 < r * m + m,
                    m > 0,
            ;
            assert(r <= high) by (nonlinear_arith)
                requires
                    r * m <= t.0,
                    t.0 <= high * m,
                    m > 0,
            ;
        }
    }
}

/// The average latency of a scraper in its steady window. The window goes from the first
/// measurement that is more than four minutes after the beginning to the last that is
/// three seconds before the end. Where latencies were counted in it, the average times
/// their number is what their sum grew by, but for less than their number.
pub proof fn law_steady_average(s: Seq<Measurement>, a: int, b: int)
    requires
        0 <= a < s.len(),
        0 <= b < s.len(),
        s[a].timestamp > 240,
        forall|i: int| 0 <= i < a ==> (#[trigger] s[i]).timestamp <= 240,
        s[b].timestamp + 3 <= s[s.len() - 1].timestamp,
        forall|i: int| b < i < s.len() ==> (#[trigger] s[i]).timestamp + 3 > s[s.len() - 1].timestamp,
        s[a].timestamp < s[b].timestamp,
        s[a].latency_e2e.sum <= s[b].latency_e2e.sum,
        s[a].latency_e2e.count <= s[b].latency_e2e.count,
        s[b].latency_e2e.count - s[a].latency_e2e.count < 0x1_0000_0000,
    ensures
        ({
            let n = s[b].latency_e2e.count - s[a].latency_e2e.count;
            let grown = s[b].latency_e2e.sum - s[a].latency_e2e.sum;
            &&& steady_average(s) is Some <==> n > 0
            &&& steady_average(s) matches Some(x) ==> x * n <= grown < x * n + n
        }),
{
    let n = s[b].latency_e2e.count - s[a].latency_e2e.count;
    let grown = s[b].latency_e2e.sum - s[a].latency_e2e.sum;
    assert(is_window(s, a, b));
    assert(is_steady(s, a, b));
    let p = (a, b);
    assert(is_steady(s, p.0, p.1));
    let w = choose|w: (int, int)| #[trigger] is_steady(s, w.0, w.1);
    lemma_window(s, a, b, w.0, w.1);
    if n > 0 {
        let x = grown / n;
        vstd::arithmetic::div_mod::lemma_fundamental_div_mod(grown, n);
        assert(n * x == x * n) by (nonlinear_arith);
    }
}

/// There is no average where all measurements are of the first four minutes, or where
/// none lies three seconds before the end.
pub proof fn law_no_average_without_a_window(s: Seq<Measurement>)
    requires
        (forall|i: int| 0 <= i < s.len() ==> (#[trigger] s[i]).timestamp <= 240) || (forall|i: int|
            0 <= i < s.len() ==> (#[trigger] s[i]).timestamp + 3 > s[s.len() - 1].timestamp
                && s[i].timestamp > 0),
    ensures
        steady_average(s) is None,
{
    assert forall|a: int, b: int| !#[trigger] is_steady(s, a, b) by {
        if is_steady(s, a, b) {
            assert(s[a].timestamp > 240);
            assert(before_cooldown(s, s[b]));
        }
    }
}

/// The average of latencies times their number is their sum, but for less than their
/// number; and it is zero where there are none.
pub proof fn law_average_of_latencies(sum: u128, count: u64)
    requires
        count < 0x1_0000_0000,
    ensures
        count > 0 ==> average_of(sum, count) * count <= sum < average_of(sum, count) * count + count,
        count == 0 ==> average_of(sum, count) == 0,
{
    if count > 0 {
        let x = sum as int / count as int;
        vstd::arithmetic::div_mod::lemma_fundamental_div_mod(sum as int, count as int);
        assert(count * x == x * count) by (nonlinear_arith);
    }
}

/// A sample changes the part of a measurement that its metric is about, and nothing else.
/// The time of a processor is kept unless it was idle, and what a network device moved
/// unless it is the one of the machine itself or has no name.
pub proof fn law_sample_touches_its_part(v: MeasurementView, metric: Metric, s: Sample)
    ensures
        ({
            let w = recorded(v, metric, s);
            let labels = label_map(s.labels@);
            let idle = labels.dom().contains("mode"@) && labels["mode"@] == "idle"@;
            let outside = labels.dom().contains("device"@) && labels["device"@] != "lo"@;
            let n = s.value->Counter_0;
            &&& w.timestamp == v.timestamp
            &&& metric is Other ==> w == v
            &&& metric is Cpu && s.value is Counter && !idle ==> w == (MeasurementView {
                cpu_seconds: v.cpu_seconds.push(n),
                ..v
            })
            &&& metric is Cpu && (!(s.value is Counter) || idle) ==> w == v
            &&& metric is NetworkIn && s.value is Counter && outside ==> w == (MeasurementView {
                network_in_bytes: v.network_in_bytes.push(n),
                ..v
            })
            &&& metric is NetworkIn && (!(s.value is Counter) || !outside) ==> w == v
            &&& metric is NetworkOut && s.value is Counter && outside ==> w == (MeasurementView {
                network_out_bytes: v.network_out_bytes.push(n),
                ..v
            })
            &&& metric is NetworkOut && (!(s.value is Counter) || !outside) ==> w == v
        }),
{
}

/// The latencies from end to end after a sample: a sum is kept in nanoseconds, a number
/// as a whole number, squares as they are, and all else stays.
pub proof fn law_sample_of_all_latencies(v: MeasurementView, metric: Metric, s: Sample)
    requires
        metric is Buckets || metric is Sum || metric is Count || metric is SquaredSum,
    ensures
        ({
            let w = recorded(v, metric, s);
            let n = s.value->Untyped_0;
            &&& w == (MeasurementView { latency_e2e: w.latency_e2e, ..v })
            &&& !(metric is Sum && s.value is Untyped) ==> w.latency_e2e.sum == v.latency_e2e.sum
            &&& !(metric is Count && s.value is Untyped) ==> w.latency_e2e.count
                == v.latency_e2e.count
            &&& !(metric is SquaredSum && s.value is Counter) ==> w.latency_e2e.squared_sum
                == v.latency_e2e.squared_sum
            &&& !(metric is Buckets && s.value is Histogram) ==> w.latency_e2e.buckets
                == v.latency_e2e.buckets
            &&& metric is Sum && s.value is Untyped ==> w.latency_e2e.sum == number::duration(
                n,
            )->0 as u128
            &&& metric is Count && s.value is Untyped ==> w.latency_e2e.count
                == number::whole_number(n) as u64
            &&& metric is SquaredSum && s.value is Counter ==> w.latency_e2e.squared_sum
                == s.value->Counter_0
        }),
{
}

/// A sample about a stage changes the latencies of that stage alone, and one that names no
/// stage changes nothing.
pub proof fn law_sample_of_a_stage(v: MeasurementView, metric: Metric, s: Sample, other: Seq<char>)
    requires
        metric is StageBuckets || metric is StageSum || metric is StageCount
            || metric is StageSquaredSum,
    ensures
        ({
            let w = recorded(v, metric, s);
            let labels = label_map(s.labels@);
            let stage = labels["stage"@];
            let before = if v.breakdown.dom().contains(stage) {
                v.breakdown[stage]
            } else {
                SummaryView { buckets: Map::empty(), sum: 0, count: 0, squared_sum: 0 }
            };
            let after = w.breakdown[stage];
            let n = s.value->Untyped_0;
            &&& !labels.dom().contains("stage"@) ==> w == v
            &&& labels.dom().contains("stage"@) ==> {
                &&& w == (MeasurementView { breakdown: w.breakdown, ..v })
                &&& w.breakdown.dom().contains(other) <==> v.breakdown.dom().contains(other)
                    || other == stage
                &&& other != stage && v.breakdown.dom().contains(other) ==> w.breakdown[other]
                    == v.breakdown[other]
                &&& metric is StageSum && s.value is Untyped ==> after == (SummaryView {
                    sum: number::duration(n)->0 as u128,
                    ..before
                })
                &&& metric is StageCount && s.value is Untyped ==> after == (SummaryView {
                    count: number::whole_number(n) as u64,
                    ..before
                })
                &&& metric is StageSquaredSum && s.value is Untyped ==> after == (SummaryView {
                    squared_sum: n,
                    ..before
                })
                &&& metric is StageSquaredSum && s.value is Counter ==> after == (SummaryView {
                    squared_sum: s.value->Counter_0,
                    ..before
                })
                &&& metric is StageBuckets ==> after == (SummaryView {
                    buckets: after.buckets,
                    ..before
                })
                &&& s.value is Other ==> after == before
            }
        }),
{
}

/// Each bound of a histogram is kept with the number below it, the last of one bound, and
/// the other bounds stay.
pub proof fn law_bounds_are_kept(
    m: Map<Seq<char>, u64>,
    b: Seq<(String, u64)>,
    k: int,
    bound: Seq<char>,
)
    requires
        0 < k <= b.len(),
    ensures
        bound == b[k - 1].0@ ==> with_bounds(m, b, k).dom().contains(bound) && with_bounds(
            m,
            b,
            k,
        )[bound] == number::whole_number(b[k - 1].1) as u64,
        bound != b[k - 1].0@ ==> with_bounds(m, b, k).dom().contains(bound) == with_bounds(
            m,
            b,
            k - 1,
        ).dom().contains(bound),
        bound != b[k - 1].0@ && with_bounds(m, b, k - 1).dom().contains(bound) ==> with_bounds(
            m,
            b,
            k,
        )[bound] == with_bounds(m, b, k - 1)[bound],
        with_bounds(m, b, 0) == m,
{
}

/// A sample goes to one workload: that of the machine where it is about its processors or
/// its network, else the one that it is labelled with, and else the common one. The others
/// stay as they are.
pub proof fn law_sample_goes_to_its_workload(
    names: ProtocolMetrics,
    samples: Seq<Sample>,
    k: int,
    w: Seq<char>,
)
    requires
        0 < k <= samples.len(),
    ensures
        ({
            let s = samples[k - 1];
            let labels = label_map(s.labels@);
            let machine = s.metric@ == "node_cpu_seconds_total"@ || exists|rest: Seq<char>|
                s.metric@ == #[trigger] ("node_network"@ + rest);
            let mine = if machine {
                w == "system"@
            } else if labels.dom().contains("workload"@) {
                w == labels["workload"@]
            } else {
                w == "global"@
            };
            let before = measured(names, samples, k - 1);
            let after = measured(names, samples, k);
            &&& mine ==> after.dom().contains(w) && after[w] == recorded(
                if before.dom().contains(w) {
                    before[w]
                } else {
                    nothing_measured()
                },
                names.metric_of(s.metric@),
                s,
            )
            &&& !mine ==> after.dom().contains(w) == before.dom().contains(w)
            &&& !mine && before.dom().contains(w) ==> after[w] == before[w]
        }),
{
    let m = samples[k - 1].metric@;
    let p = "node_network"@;
    if starts_with(m, p) {
        let rest = m.skip(p.len() as int);
        assert(m =~= p + rest);
    }
    if exists|rest: Seq<char>| m == #[trigger] (p + rest) {
        let rest = choose|rest: Seq<char>| m == #[trigger] (p + rest);
        assert(m.take(p.len() as int) =~= p);
    }
}

/// All measurements of one scrape are of the same time: what the first sample of the
/// protocol's name for it counts, and zero where there is none.
pub proof fn law_measurements_are_of_one_time(
    names: ProtocolMetrics,
    samples: Seq<Sample>,
    i: int,
    w: Seq<char>,
)
    requires
        0 <= i <= samples.len(),
        forall|k: int|
            0 <= k < i ==> (#[trigger] samples[k]).metric@ != names.benchmark_duration@,
        i < samples.len() ==> samples[i].metric@ == names.benchmark_duration@,
        measurements_of(names, samples).dom().contains(w),
    ensures
        i == samples.len() ==> measurements_of(names, samples)[w].timestamp == 0,
        i < samples.len() && samples[i].value is Counter ==> measurements_of(
            names,
            samples,
        )[w].timestamp == number::whole_number(samples[i].value->Counter_0) as u64,
        i < samples.len() && !(samples[i].value is Counter) ==> measurements_of(
            names,
            samples,
        )[w].timestamp == 0,
        measured(names, samples, samples.len() as int).dom().contains(w),
        measurements_of(names, samples)[w] == (MeasurementView {
            timestamp: measurements_of(names, samples)[w].timestamp,
            ..measured(names, samples, samples.len() as int)[w]
        }),
{
    lemma_duration_from(names, samples, 0, i);
}

proof fn lemma_duration_from(names: ProtocolMetrics, samples: Seq<Sample>, from: int, i: int)
    requires
        0 <= from <= i <= samples.len(),
        forall|k: int|
            0 <= k < i ==> (#[trigger] samples[k]).metric@ != names.benchmark_duration@,
    ensures
        duration_from(names, samples, from) == duration_from(names, samples, i),
    decreases i - from,
{
    if from < i {
        let _ = samples[from];
        lemma_duration_from(names, samples, from + 1, i);
    }
}

/// The metrics of machines and of stages are told by their names, where the protocol does
/// not give these names to its own.
pub proof fn law_metrics_are_told_by_name(names: ProtocolMetrics, name: Seq<char>)
    requires
        name != names.latency_buckets@,
        name != names.latency_sum@,
        name != names.total_transactions@,
        name != names.latency_squared_sum@,
    ensures
        names.metric_of(name) is Cpu <==> name == "node_cpu_seconds_total"@,
        names.metric_of(name) is NetworkIn <==> name == "node_network_receive_bytes_total"@,
        names.metric_of(name) is NetworkOut <==> name == "node_network_transmit_bytes_total"@,
        names.metric_of(name) is StageBuckets <==> name == "latency_breakdown_bucket"@,
        names.metric_of(name) is StageSum <==> name == "latency_breakdown_sum"@,
        names.metric_of(name) is StageCount <==> name == "latency_breakdown_count"@,
        names.metric_of(name) is StageSquaredSum <==> name == "latency_breakdown_squared_s"@,
        !(names.metric_of(name) is Buckets),
        !(names.metric_of(name) is Sum),
        !(names.metric_of(name) is Count),
        !(names.metric_of(name) is SquaredSum),
{
    reveal_strlit("node_cpu_seconds_total");
    reveal_strlit("node_network_receive_bytes_total");
    reveal_strlit("node_network_transmit_bytes_total");
    reveal_strlit("latency_breakdown_bucket");
    reveal_strlit("latency_breakdown_sum");
    reveal_strlit("latency_breakdown_count");
    reveal_strlit("latency_breakdown_squared_s");
    assert("node_cpu_seconds_total"@.len() == 22);
    assert("node_network_receive_bytes_total"@.len() == 32);
    assert("node_network_transmit_bytes_total"@.len() == 33);
    assert("latency_breakdown_bucket"@.len() == 24);
    assert("latency_breakdown_sum"@.len() == 21);
    assert("latency_breakdown_count"@.len() == 23);
    assert("latency_breakdown_squared_s"@.len() == 27);
}

/// The metrics of the protocol are told by the names that it gives them, where these are
/// different.
pub proof fn law_protocol_names_its_metrics(names: ProtocolMetrics)
    requires
        names.latency_buckets@ != names.latency_sum@,
        names.latency_buckets@ != names.total_transactions@,
        names.latency_buckets@ != names.latency_squared_sum@,
        names.latency_sum@ != names.total_transactions@,
        names.latency_sum@ != names.latency_squared_sum@,
        names.total_transactions@ != names.latency_squared_sum@,
    ensures
        names.metric_of(names.latency_buckets@) is Buckets,
        names.metric_of(names.latency_sum@) is Sum,
        names.metric_of(names.total_transactions@) is Count,
        names.metric_of(names.latency_squared_sum@) is SquaredSum,
{
}

} // verus!
