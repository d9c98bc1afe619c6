use vstd::prelude::*;
use crate::text::{compare_text, lemma_text_asym, lemma_text_total, lemma_text_trans, text_lt};

verus! {

/// How serious a finding is.
#[derive(Clone, Copy, Debug, PartialEq, Eq, Structural)]
pub enum Severity {
    Info,
    Warning,
    Error,
}

/// Where in the analyzed unit a finding occurred.
#[derive(Clone, Copy, Debug, PartialEq, Eq, Structural)]
pub struct SourceSpan {
    pub start: usize,
    pub end: usize,
    pub line: usize,
    pub column: usize,
}

/// One reported issue.
#[derive(Clone, Debug, PartialEq, Eq)]
pub struct Finding {
    pub rule_id: String,
    pub severity: Severity,
    pub message: String,
    pub span: SourceSpan,
}

/// The mathematical value of a finding.
pub ghost struct FindingView {
    pub rule_id: Seq<char>,
    pub severity: Severity,
    pub message: Seq<char>,
    pub span: SourceSpan,
}

impl View for Finding {
    type V = FindingView;

    open spec fn view(&self) -> FindingView {
        FindingView {
            rule_id: self.rule_id@,
            severity: self.severity,
            message: self.message@,
            span: self.span,
        }
    }
}

pub open spec fn views(v: Seq<Finding>) -> Seq<FindingView> {
    v.map_values(|f: Finding| f@)
}

/// Two findings report the same rule at the same span.
pub open spec fn same_key(x: FindingView, y: FindingView) -> bool {
    x.rule_id == y.rule_id && x.span == y.span
}

/// The output order: line, column, rule identifier, then start and end offsets.
pub open spec fn key_lt(x: FindingView, y: FindingView) -> bool {
    x.span.line < y.span.line || (x.span.line == y.span.line && (x.span.column < y.span.column
        || (x.span.column == y.span.column && (text_lt(x.rule_id, y.rule_id) || (x.rule_id
        == y.rule_id && (x.span.start < y.span.start || (x.span.start == y.span.start
        && x.span.end < y.span.end)))))))
}

/// Each finding orders strictly before the next one.
pub open spec fn sorted(s: Seq<FindingView>) -> bool {
    forall|i: int| 0 <= i < s.len() - 1 ==> key_lt(#[trigger] s[i], s[i + 1])
}

/// No two findings share a rule identifier and a span.
pub open spec fn distinct_keys(s: Seq<FindingView>) -> bool {
    forall|i: int, j: int| 0 <= i < s.len() && 0 <= j < s.len() && i != j ==> !same_key(#[trigger] s[i], #[trigger] s[j])
}

pub open spec fn has_key(s: Seq<FindingView>, x: FindingView) -> bool {
    exists|j: int| 0 <= j < s.len() && same_key(#[trigger] s[j], x)
}

/// Places `x` before the first finding that does not order before it.
pub open spec fn insert_sorted(s: Seq<FindingView>, x: FindingView) -> Seq<FindingView>
    decreases s.len(),
{
    if s.len() == 0 {
        seq![x]
    } else if key_lt(s[0], x) {
        seq![s[0]] + insert_sorted(s.drop_first(), x)
    } else {
        seq![x] + s
    }
}

/// Adds `x` unless a finding with its key is already there.
pub open spec fn merge(s: Seq<FindingView>, x: FindingView) -> Seq<FindingView> {
    if has_key(s, x) {
        s
    } else {
        insert_sorted(s, x)
    }
}

/// The aggregated form of raw findings: each merged in turn, so the first finding
/// with a given key is the one kept.
pub open spec fn aggregated(raw: Seq<FindingView>) -> Seq<FindingView>
    decreases raw.len(),
{
    if raw.len() == 0 {
        seq![]
    } else {
        merge(aggregated(raw.drop_last()), raw.last())
    }
}

pub proof fn lemma_key_total(x: FindingView, y: FindingView)
    ensures
        !(key_lt(x, y) && key_lt(y, x)),
        !key_lt(x, x),
        !same_key(x, y) ==> key_lt(x, y) || key_lt(y, x),
        same_key(x, y) ==> !key_lt(x, y),
{
    lemma_text_asym(x.rule_id, y.rule_id);
    lemma_text_asym(x.rule_id, x.rule_id);
    if x.rule_id != y.rule_id {
        lemma_text_total(x.rule_id, y.rule_id, 0);
    }
}

pub proof fn lemma_key_trans(x: FindingView, y: FindingView, z: FindingView)
    requires
        key_lt(x, y),
        key_lt(y, z),
    ensures
        key_lt(x, z),
{
    if text_lt(x.rule_id, y.rule_id) && text_lt(y.rule_id, z.rule_id) {
        lemma_text_trans(x.rule_id, y.rule_id, z.rule_id);
    }
}

/// In a sorted sequence every finding orders before every later one.
pub proof fn lemma_sorted_pairwise(s: Seq<FindingView>, i: int, j: int)
    requires
        sorted(s),
        0 <= i < j < s.len(),
    ensures
        key_lt(s[i], s[j]),
    decreases j - i,
{
    if j > i + 1 {
        lemma_sorted_pairwise(s, i, j - 1);
        lemma_key_trans(s[i], s[j - 1], s[j]);
    }
}

/// Aggregating findings that are already sorted and free of duplicate keys
/// leaves them as they are.
pub proof fn lemma_aggregated_fixed(s: Seq<FindingView>)
    requires
        sorted(s),
        distinct_keys(s),
    ensures
        aggregated(s) == s,
    decreases s.len(),
{
    if s.len() > 0 {
        let prev = s.drop_last();
        let x = s.last();
        assert(sorted(prev)) by {
            assert forall|i: int| 0 <= i < prev.len() - 1 implies key_lt(#[trigger] prev[i], prev[i + 1]) by {
                assert(prev[i] == s[i] && prev[i + 1] == s[i + 1]);
            }
        }
        assert(distinct_keys(prev)) by {
            assert forall|i: int, j: int| 0 <= i < prev.len() && 0 <= j < prev.len() && i != j implies !same_key(#[trigger] prev[i], #[trigger] prev[j]) by {
                assert(prev[i] == s[i] && prev[j] == s[j]);
            }
        }
        lemma_aggregated_fixed(prev);
        assert(!has_key(prev, x)) by {
            if has_key(prev, x) {
                let j = choose|j: int| 0 <= j < prev.len() && same_key(#[trigger] prev[j], x);
                assert(prev[j] == s[j]);
                assert(!same_key(s[j], s[s.len() - 1]));
            }
        }
        let p = prev.len() as int;
        assert forall|j: int| 0 <= j < p implies key_lt(#[trigger] prev[j], x) by {
            lemma_sorted_pairwise(s, j, s.len() - 1);
            assert(prev[j] == s[j]);
        }
        lemma_insert_shape(prev, x, p);
        assert(prev.take(p) + seq![x] + prev.skip(p) =~= s);
    }
}

proof fn lemma_insert_shape(s: Seq<FindingView>, x: FindingView, p: int)
    requires
        0 <= p <= s.len(),
        forall|j: int| 0 <= j < p ==> key_lt(#[trigger] s[j], x),
        p < s.len() ==> !key_lt(s[p], x),
    ensures
        insert_sorted(s, x) == s.take(p) + seq![x] + s.skip(p),
    decreases s.len(),
{
    if s.len() == 0 {
        assert(s.take(p) + seq![x] + s.skip(p) =~= seq![x]);
    } else if p == 0 {
        assert(s.take(p) + seq![x] + s.skip(p) =~= seq![x] + s);
    } else {
        let t = s.drop_first();
        assert forall|j: int| 0 <= j < p - 1 implies key_lt(#[trigger] t[j], x) by {
            assert(t[j] == s[j + 1]);
        }
        lemma_insert_shape(t, x, p - 1);
        assert(s.take(p) + seq![x] + s.skip(p) =~= seq![s[0]] + (t.take(p - 1) + seq![x] + t.skip(p - 1)));
    }
}

proof fn lemma_insert_keeps(s: Seq<FindingView>, x: FindingView)
    requires
        sorted(s),
        distinct_keys(s),
        !has_key(s, x),
    ensures
        sorted(insert_sorted(s, x)),
        distinct_keys(insert_sorted(s, x)),
        insert_sorted(s, x).len() == s.len() + 1,
        forall|j: int| 0 <= j < insert_sorted(s, x).len() ==> (#[trigger] insert_sorted(s, x)[j] == x
            || s.contains(insert_sorted(s, x)[j])),
        insert_sorted(s, x).contains(x),
        forall|j: int| 0 <= j < s.len() ==> insert_sorted(s, x).contains(#[trigger] s[j]),
    decreases s.len(),
{
    let r = insert_sorted(s, x);
    if s.len() == 0 {
        assert(r[0] == x);
    } else if key_lt(s[0], x) {
        let t = s.drop_first();
        assert(!has_key(t, x)) by {
            if has_key(t, x) {
                let j = choose|j: int| 0 <= j < t.len() && same_key(#[trigger] t[j], x);
                assert(s[j + 1] == t[j]);
            }
        }
        assert(sorted(t)) by {
            assert forall|i: int| 0 <= i < t.len() - 1 implies key_lt(#[trigger] t[i], t[i + 1]) by {
                assert(s[i + 1] == t[i]);
            }
        }
        assert(distinct_keys(t)) by {
            assert forall|i: int, j: int| 0 <= i < t.len() && 0 <= j < t.len() && i != j implies !same_key(#[trigger] t[i], #[trigger] t[j]) by {
                assert(s[i + 1] == t[i] && s[j + 1] == t[j]);
            }
        }
        lemma_insert_keeps(t, x);
        let u = insert_sorted(t, x);
        assert(r == seq![s[0]] + u);
        assert(key_lt(s[0], u[0])) by {
            if u[0] != x {
                if t.len() > 0 && key_lt(t[0], x) {
                    assert(u[0] == t[0]);
                    assert(key_lt(s[0], s[1]));
                } else {
                    assert(u == seq![x] + t);
                }
            }
        }
        assert forall|i: int| 0 <= i < r.len() - 1 implies key_lt(#[trigger] r[i], r[i + 1]) by {
            if i > 0 {
                assert(r[i] == u[i - 1] && r[i + 1] == u[i]);
            }
        }
        assert forall|i: int| 0 <= i < r.len() implies (#[trigger] r[i] == x || s.contains(r[i])) by {
            if i > 0 {
                assert(r[i] == u[i - 1]);
                if u[i - 1] != x {
                    let q = choose|q: int| 0 <= q < t.len() && t[q] == u[i - 1];
                    assert(s[q + 1] == t[q]);
                }
            } else {
                assert(s[0] == r[0]);
            }
        }
        assert forall|i: int, j: int| 0 <= i < r.len() && 0 <= j < r.len() && i != j implies !same_key(#[trigger] r[i], #[trigger] r[j]) by {
            if i > 0 && j > 0 {
                assert(r[i] == u[i - 1] && r[j] == u[j - 1]);
            } else {
                let k = if i == 0 { j } else { i };
                assert(r[k] == u[k - 1]);
                if u[k - 1] == x {
                    assert(same_key(s[0], x) ==> has_key(s, x));
                } else {
                    let q = choose|q: int| 0 <= q < t.len() && t[q] == u[k - 1];
                    assert(s[q + 1] == t[q]);
                    assert(!same_key(s[0], s[q + 1]));
                }
            }
        }
        assert(r.contains(x)) by {
            let q = choose|q: int| 0 <= q < u.len() && u[q] == x;
            assert(r[q + 1] == u[q]);
        }
        assert forall|j: int| 0 <= j < s.len() implies r.contains(#[trigger] s[j]) by {
            if j == 0 {
                assert(r[0] == s[0]);
            } else {
                assert(t[j - 1] == s[j]);
                let q = choose|q: int| 0 <= q < u.len() && u[q] == t[j - 1];
                assert(r[q + 1] == u[q]);
            }
        }
    } else {
        assert(r == seq![x] + s);
        lemma_key_total(s[0], x);
        assert(!same_key(s[0], x));
        assert(key_lt(x, s[0]));
        assert forall|i: int| 0 <= i < r.len() - 1 implies key_lt(#[trigger] r[i], r[i + 1]) by {
            if i > 0 {
                assert(r[i] == s[i - 1] && r[i + 1] == s[i]);
            }
        }
        assert forall|i: int, j: int| 0 <= i < r.len() && 0 <= j < r.len() && i != j implies !same_key(#[trigger] r[i], #[trigger] r[j]) by {
            if i > 0 && j > 0 {
                assert(r[i] == s[i - 1] && r[j] == s[j - 1]);
            } else if i == 0 {
                assert(r[j] == s[j - 1]);
            } else {
                assert(r[i] == s[i - 1]);
            }
        }
        assert forall|i: int| 0 <= i < r.len() implies (#[trigger] r[i] == x || s.contains(r[i])) by {
            if i > 0 {
                assert(r[i] == s[i - 1]);
            }
        }
        assert(r[0] == x);
        assert forall|j: int| 0 <= j < s.len() implies r.contains(#[trigger] s[j]) by {
            assert(r[j + 1] == s[j]);
        }
    }
}


/// Aggregated findings are strictly ordered by (line, column, rule identifier,
/// offsets) and hold no two findings with the same rule identifier and span.
pub proof fn lemma_aggregated_sorted_distinct(raw: Seq<FindingView>)
    ensures
        sorted(aggregated(raw)),
        distinct_keys(aggregated(raw)),
    decreases raw.len(),
{
    if raw.len() > 0 {
        let prev = raw.drop_last();
        lemma_aggregated_sorted_distinct(prev);
        if !has_key(aggregated(prev), raw.last()) {
            lemma_insert_keeps(aggregated(prev), raw.last());
        }
    }
}

/// Every raw finding's key is kept by aggregation.
pub proof fn lemma_aggregated_covers(raw: Seq<FindingView>, i: int)
    requires
        0 <= i < raw.len(),
    ensures
        has_key(aggregated(raw), raw[i]),
    decreases raw.len(),
{
    let prev = raw.drop_last();
    let x = raw.last();
    let a = aggregated(prev);
    lemma_aggregated_sorted_distinct(prev);
    if i < raw.len() - 1 {
        lemma_aggregated_covers(prev, i);
        assert(prev[i] == raw[i]);
        if !has_key(a, x) {
            lemma_insert_keeps(a, x);
            let j = choose|j: int| 0 <= j < a.len() && same_key(#[trigger] a[j], raw[i]);
            let r = insert_sorted(a, x);
            assert(r.contains(a[j]));
            let q = choose|q: int| 0 <= q < r.len() && r[q] == a[j];
            assert(same_key(r[q], raw[i]));
        }
    } else if !has_key(a, x) {
        lemma_insert_keeps(a, x);
        let r = insert_sorted(a, x);
        let q = choose|q: int| 0 <= q < r.len() && r[q] == x;
        assert(same_key(r[q], raw[i]));
    }
}

/// Every aggregated finding is one of the raw findings.
pub proof fn lemma_aggregated_from_raw(raw: Seq<FindingView>, j: int)
    requires
        0 <= j < aggregated(raw).len(),
    ensures
        raw.contains(aggregated(raw)[j]),
    decreases raw.len(),
{
    let prev = raw.drop_last();
    let x = raw.last();
    let a = aggregated(prev);
    let r = aggregated(raw);
    lemma_aggregated_sorted_distinct(prev);
    if has_key(a, x) {
        lemma_aggregated_from_raw(prev, j);
        let w = choose|w: int| 0 <= w < prev.len() && prev[w] == a[j];
        assert(raw[w] == prev[w]);
    } else {
        lemma_insert_keeps(a, x);
        if r[j] == x {
            assert(raw[raw.len() - 1] == x);
        } else {
            let q = choose|q: int| 0 <= q < a.len() && a[q] == r[j];
            lemma_aggregated_from_raw(prev, q);
            let w = choose|w: int| 0 <= w < prev.len() && prev[w] == a[q];
            assert(raw[w] == prev[w]);
        }
    }
}

impl Finding {
    /// A copy of this finding.
    pub fn duplicate(&self) -> (r: Finding)
        ensures
            r@ == self@,
    {
        Finding {
            rule_id: self.rule_id.clone(),
            severity: self.severity,
            message: self.message.clone(),
            span: self.span,
        }
    }
}

fn compare_keys(x: &Finding, y: &Finding) -> (r: core::cmp::Ordering)
    ensures
        (r == core::cmp::Ordering::Less) == key_lt(x@, y@),
        (r == core::cmp::Ordering::Equal) == same_key(x@, y@),
{
    proof {
        lemma_key_total(x@, y@);
    }
    if x.span.line != y.span.line {
        if x.span.line < y.span.line {
            core::cmp::Ordering::Less
        } else {
            core::cmp::Ordering::Greater
        }
    } else if x.span.column != y.span.column {
        if x.span.column < y.span.column {
            core::cmp::Ordering::Less
        } else {
            core::cmp::Ordering::Greater
        }
    } else {
        let c = compare_text(x.rule_id.as_str(), y.rule_id.as_str());
        match c {
            core::cmp::Ordering::Equal => {
                if x.span.start != y.span.start {
                    if x.span.start < y.span.start {
                        core::cmp::Ordering::Less
                    } else {
                        core::cmp::Ordering::Greater
                    }
                } else if x.span.end != y.span.end {
                    if x.span.end < y.span.end {
                        core::cmp::Ordering::Less
                    } else {
                        core::cmp::Ordering::Greater
                    }
                } else {
                    core::cmp::Ordering::Equal
                }
            },
            _ => c,
        }
    }
}

fn key_before(x: &Finding, y: &Finding) -> (r: bool)
    ensures
        r == key_lt(x@, y@),
{
    match compare_keys(x, y) {
        core::cmp::Ordering::Less => true,
        _ => false,
    }
}

/// Findings of one run, deduplicated and in output order, with their count and the
/// time the run took.
pub struct AnalysisResult {
    pub findings: Vec<Finding>,
    pub total: usize,
    pub elapsed_micros: u64,
}

/// Merges `x` into the ordered findings `out`.
fn merge_into(out: &mut Vec<Finding>, x: Finding)
    ensures
        views(final(out)@) == merge(views(old(out)@), x@),
{
    let ghost s = views(out@);
    let n = out.len();
    let mut j: usize = 0;
    while j < n
        invariant
            n == out.len(),
            s == views(out@),
            forall|q: int| 0 <= q < j ==> !same_key(#[trigger] s[q], x@),
        decreases n - j,
    {
        if let core::cmp::Ordering::Equal = compare_keys(&out[j], &x) {
            assert(same_key(s[j as int], x@));
            return;
        }
        j = j + 1;
    }
    assert(!has_key(s, x@));
    let mut p: usize = 0;
    while p < n && key_before(&out[p], &x)
        invariant
            n == out.len(),
            s == views(out@),
            p <= n,
            forall|q: int| 0 <= q < p ==> key_lt(#[trigger] s[q], x@),
        decreases n - p,
    {
        p = p + 1;
    }
    proof {
        lemma_insert_shape(s, x@, p as int);
    }
    let ghost xv = x@;
    out.insert(p, x);
    assert(views(out@) =~= s.take(p as int) + seq![xv] + s.skip(p as int));
}

/// Deduplicates and orders the raw findings of a run, stamping the elapsed time.
pub fn aggregate(raw: Vec<Finding>, elapsed_micros: u64) -> (r: AnalysisResult)
    ensures
        views(r.findings@) == aggregated(views(raw@)),
        r.total == r.findings.len(),
        r.elapsed_micros == elapsed_micros,
{
    let mut out: Vec<Finding> = Vec::new();
    let mut i: usize = 0;
    while i < raw.len()
        invariant
            i <= raw.len(),
            views(out@) == aggregated(views(raw@).take(i as int)),
        decreases raw.len() - i,
    {
        let x = raw[i].duplicate();
        merge_into(&mut out, x);
        assert(views(raw@).take(i + 1).drop_last() =~= views(raw@).take(i as int));
        i = i + 1;
    }
    assert(views(raw@).take(i as int) =~= views(raw@));
    let total = out.len();
    AnalysisResult { findings: out, total, elapsed_micros }
}

} // verus!
