use vstd::prelude::*;
use vstd::string::*;
use crate::finding::{
    aggregate, aggregated, distinct_keys, key_lt, lemma_aggregated_covers,
    lemma_aggregated_fixed, lemma_aggregated_from_raw, lemma_aggregated_sorted_distinct,
    lemma_sorted_pairwise, same_key, views, AnalysisResult, Finding, FindingView, Severity,
};
use crate::rules::{applicable, Registry, Rule, RuleKind};
use crate::text::{contains_folded, contains_ignore_case};
use crate::tree::{well_formed, InvalidTreeError, Node, NodeKind, SyntaxTree};

verus! {

/// What an open scope contributes to the traversal context.
#[derive(Clone, Copy, Debug, PartialEq, Eq, Structural)]
pub enum FrameKind {
    Unsafe,
    /// An enclosing function; `true` when it returns the never type.
    Function(bool),
    ZeroGuard,
    LenGuard,
}

/// An open scope, opened by the node at position `node` and depth `depth`.
#[derive(Clone, Copy, Debug, PartialEq, Eq, Structural)]
pub struct Frame {
    pub kind: FrameKind,
    pub depth: usize,
    pub node: usize,
}

/// A block covers the nodes below it; a guard also covers its later siblings.
pub open spec fn encloses(f: Frame, depth: usize) -> bool {
    match f.kind {
        FrameKind::ZeroGuard | FrameKind::LenGuard => f.depth <= depth,
        _ => f.depth < depth,
    }
}

/// The frames still open at a node of the given depth.
pub open spec fn scope_at(frames: Seq<Frame>, depth: usize) -> Seq<Frame>
    decreases frames.len(),
{
    if frames.len() > 0 && !encloses(frames.last(), depth) {
        scope_at(frames.drop_last(), depth)
    } else {
        frames
    }
}

/// The frame that node `i` opens, if any.
pub open spec fn frame_of(node: Node, i: usize) -> Option<Frame> {
    match node.kind {
        NodeKind::UnsafeBlock => Some(Frame { kind: FrameKind::Unsafe, depth: node.depth, node: i }),
        NodeKind::Function => Some(
            Frame { kind: FrameKind::Function(node.diverges), depth: node.depth, node: i },
        ),
        NodeKind::ZeroGuard => Some(Frame { kind: FrameKind::ZeroGuard, depth: node.depth, node: i }),
        NodeKind::LenGuard => Some(Frame { kind: FrameKind::LenGuard, depth: node.depth, node: i }),
        _ => None,
    }
}

/// The frame stack after the first `i` nodes.
pub open spec fn frames_before(nodes: Seq<Node>, i: int) -> Seq<Frame>
    decreases i,
{
    if i <= 0 {
        seq![]
    } else {
        let open = scope_at(frames_before(nodes, i - 1), nodes[i - 1].depth);
        match frame_of(nodes[i - 1], (i - 1) as usize) {
            Some(f) => open.push(f),
            None => open,
        }
    }
}

/// The frames enclosing node `i`.
pub open spec fn context(nodes: Seq<Node>, i: int) -> Seq<Frame> {
    scope_at(frames_before(nodes, i), nodes[i].depth)
}

pub open spec fn in_unsafe(ctx: Seq<Frame>) -> bool {
    exists|j: int| 0 <= j < ctx.len() && (#[trigger] ctx[j]).kind == FrameKind::Unsafe
}

/// Whether the innermost enclosing function diverges, if there is one.
pub open spec fn innermost_fn(ctx: Seq<Frame>) -> Option<bool>
    decreases ctx.len(),
{
    if ctx.len() == 0 {
        None
    } else {
        match ctx.last().kind {
            FrameKind::Function(d) => Some(d),
            _ => innermost_fn(ctx.drop_last()),
        }
    }
}

/// A guard of the given kind on the binding `name` is in effect.
pub open spec fn guarded(nodes: Seq<Node>, ctx: Seq<Frame>, kind: FrameKind, name: Seq<char>) -> bool {
    name.len() > 0 && exists|j: int|
        0 <= j < ctx.len() && (#[trigger] ctx[j]).kind == kind && ctx[j].node < nodes.len()
            && nodes[ctx[j].node as int].name@ == name
}

/// `name` is bound by a mutable top-level static of the unit.
pub open spec fn is_mut_static(nodes: Seq<Node>, name: Seq<char>) -> bool {
    exists|k: int|
        0 <= k < nodes.len() && (#[trigger] nodes[k]).kind == NodeKind::Static && nodes[k].mutable
            && nodes[k].depth == 0 && nodes[k].name@ == name
}

/// Node `j` comes after node `i` within the scope that holds `i`.
pub open spec fn later_in_scope(nodes: Seq<Node>, i: int, j: int) -> bool {
    0 <= i < j < nodes.len() && forall|k: int| i < k <= j ==> (#[trigger] nodes[k]).depth >= nodes[i].depth
}

/// Node `j` lies inside node `i`.
pub open spec fn inside(nodes: Seq<Node>, i: int, j: int) -> bool {
    0 <= i < j < nodes.len() && forall|k: int| i < k <= j ==> (#[trigger] nodes[k]).depth > nodes[i].depth
}

/// The binding `name` of node `i` is read later in its scope.
pub open spec fn read_later(nodes: Seq<Node>, i: int, name: Seq<char>) -> bool {
    exists|j: int|
        later_in_scope(nodes, i, j) && (#[trigger] nodes[j]).kind == NodeKind::Read && nodes[j].name@ == name
}

/// The body of function `i` mutates through its receiver.
pub open spec fn mutates_receiver(nodes: Seq<Node>, i: int) -> bool {
    exists|j: int| inside(nodes, i, j) && (#[trigger] nodes[j]).kind == NodeKind::SelfMutation
}

pub open spec fn ref_param_after(nodes: Seq<Node>, i: int, j: int) -> bool {
    later_in_scope(nodes, i, j) && nodes[j].kind == NodeKind::RefParam
}

/// Exactly one reference parameter follows node `i` in its scope, so elision
/// would infer the lifetime that `i` declares.
pub open spec fn single_ref_param(nodes: Seq<Node>, i: int) -> bool {
    exists|j: int|
        #[trigger] ref_param_after(nodes, i, j) && forall|k: int| #[trigger] ref_param_after(nodes, i, k) ==> k == j
}

pub open spec fn secret_name(patterns: Seq<String>, name: Seq<char>) -> bool {
    exists|p: int| 0 <= p < patterns.len() && contains_folded(name, (#[trigger] patterns[p])@)
}

/// What one inspection of a node by a rule yields.
#[derive(Clone, Copy, Debug, PartialEq, Eq, Structural)]
pub enum Outcome {
    Clean,
    Flagged,
    /// The node lacks what the rule needs to decide.
    Fault,
}

/// The inspection of node `i` by a rule of class `kind`.
pub open spec fn inspect(kind: RuleKind, patterns: Seq<String>, nodes: Seq<Node>, i: int) -> Outcome {
    let node = nodes[i];
    let ctx = context(nodes, i);
    let flag = |b: bool| if b { Outcome::Flagged } else { Outcome::Clean };
    match kind {
        RuleKind::UnsafeGlobalState => if node.name@.len() == 0 {
            Outcome::Fault
        } else if node.kind == NodeKind::Static {
            flag(node.mutable && node.depth == 0)
        } else {
            flag(in_unsafe(ctx) && is_mut_static(nodes, node.name@))
        },
        RuleKind::HardcodedSecret => if node.name@.len() == 0 {
            Outcome::Fault
        } else {
            flag(!node.mutable && node.literal && node.depth == 0 && secret_name(patterns, node.name@))
        },
        RuleKind::UncheckedDivision => flag(!guarded(nodes, ctx, FrameKind::ZeroGuard, node.name@)),
        RuleKind::UnhandledParse => if node.name@.len() == 0 {
            Outcome::Fault
        } else {
            flag(node.name@ == "unwrap"@ && node.receiver@ == "parse"@)
        },
        RuleKind::PanicControlFlow => flag(innermost_fn(ctx) == Some(false)),
        RuleKind::UncheckedIndex => if node.name@.len() == 0 {
            Outcome::Fault
        } else {
            flag(!guarded(nodes, ctx, FrameKind::LenGuard, node.name@))
        },
        RuleKind::MutableReceiver => flag(node.mutable && !mutates_receiver(nodes, i)),
        RuleKind::UnusedBinding | RuleKind::UnnecessaryClone => if node.name@.len() == 0 {
            Outcome::Fault
        } else {
            flag(!read_later(nodes, i, node.name@))
        },
        RuleKind::NeedlessLifetime => if node.name@.len() == 0 {
            Outcome::Fault
        } else {
            flag(single_ref_param(nodes, i))
        },
    }
}

pub open spec fn message_of(kind: RuleKind) -> Seq<char> {
    match kind {
        RuleKind::UnsafeGlobalState => "unsafe global mutable state"@,
        RuleKind::HardcodedSecret => "hardcoded secret"@,
        RuleKind::UncheckedDivision => "unchecked division"@,
        RuleKind::UnhandledParse => "missing error handling on parse"@,
        RuleKind::PanicControlFlow => "panic used as control flow"@,
        RuleKind::UncheckedIndex => "indexing without a bounds check"@,
        RuleKind::MutableReceiver => "mutable receiver never mutated"@,
        RuleKind::UnusedBinding => "unused binding"@,
        RuleKind::UnnecessaryClone => "unnecessary clone"@,
        RuleKind::NeedlessLifetime => "lifetime parameter could be elided"@,
    }
}

/// The findings that an inspection of `node` by `rule` contributes.
pub open spec fn outcome_findings(rule: Rule, node: Node, o: Outcome) -> Seq<FindingView> {
    match o {
        Outcome::Clean => seq![],
        Outcome::Flagged => seq![
            FindingView { rule_id: rule.id@, severity: rule.severity, message: message_of(rule.kind), span: node.span },
        ],
        Outcome::Fault => seq![
            FindingView {
                rule_id: rule.id@,
                severity: Severity::Error,
                message: "internal rule error in "@ + rule.id@,
                span: node.span,
            },
        ],
    }
}

/// The findings of the rules at positions `idxs` on node `i`.
pub open spec fn findings_via(
    rules: Seq<Rule>,
    patterns: Seq<String>,
    nodes: Seq<Node>,
    i: int,
    idxs: Seq<usize>,
) -> Seq<FindingView>
    decreases idxs.len(),
{
    if idxs.len() == 0 {
        seq![]
    } else {
        let rule = rules[idxs.last() as int];
        findings_via(rules, patterns, nodes, i, idxs.drop_last()) + outcome_findings(
            rule,
            nodes[i],
            inspect(rule.kind, patterns, nodes, i),
        )
    }
}

/// The raw findings on the first `n` nodes, in traversal order.
pub open spec fn raw_findings(rules: Seq<Rule>, patterns: Seq<String>, nodes: Seq<Node>, n: int) -> Seq<
    FindingView,
>
    decreases n,
{
    if n <= 0 {
        seq![]
    } else {
        raw_findings(rules, patterns, nodes, n - 1) + findings_via(
            rules,
            patterns,
            nodes,
            n - 1,
            applicable(rules, nodes[n - 1].kind),
        )
    }
}

/// The findings of a run of `registry` over `tree`.
pub open spec fn analysis(tree: SyntaxTree, registry: Registry) -> Seq<FindingView> {
    aggregated(
        raw_findings(registry.rules(), registry.patterns(), tree.nodes@, tree.nodes.len() as int),
    )
}

fn unsafe_open(frames: &Vec<Frame>) -> (r: bool)
    ensures
        r == in_unsafe(frames@),
{
    let mut j: usize = 0;
    while j < frames.len()
        invariant
            j <= frames.len(),
            forall|q: int| 0 <= q < j ==> (#[trigger] frames@[q]).kind != FrameKind::Unsafe,
        decreases frames.len() - j,
    {
        if let FrameKind::Unsafe = frames[j].kind {
            return true;
        }
        j = j + 1;
    }
    false
}

fn enclosing_fn(frames: &Vec<Frame>) -> (r: Option<bool>)
    ensures
        r == innermost_fn(frames@),
{
    let mut j: usize = frames.len();
    assert(frames@.take(j as int) =~= frames@);
    while j > 0
        invariant
            j <= frames.len(),
            innermost_fn(frames@) == innermost_fn(frames@.take(j as int)),
        decreases j,
    {
        assert(frames@.take(j as int).drop_last() =~= frames@.take(j - 1));
        if let FrameKind::Function(d) = frames[j - 1].kind {
            return Some(d);
        }
        j = j - 1;
    }
    None
}

fn has_guard(nodes: &Vec<Node>, frames: &Vec<Frame>, kind: FrameKind, name: &String) -> (r: bool)
    ensures
        r == guarded(nodes@, frames@, kind, name@),
{
    if name.unicode_len() == 0 {
        return false;
    }
    let mut j: usize = 0;
    while j < frames.len()
        invariant
            j <= frames.len(),
            name@.len() > 0,
            forall|q: int|
                0 <= q < j ==> !((#[trigger] frames@[q]).kind == kind && frames@[q].node < nodes.len()
                    && nodes@[frames@[q].node as int].name@ == name@),
        decreases frames.len() - j,
    {
        let f = frames[j];
        if f.kind == kind && f.node < nodes.len() && nodes[f.node].name == *name {
            return true;
        }
        j = j + 1;
    }
    false
}

fn mutable_static(nodes: &Vec<Node>, name: &String) -> (r: bool)
    ensures
        r == is_mut_static(nodes@, name@),
{
    let mut k: usize = 0;
    while k < nodes.len()
        invariant
            k <= nodes.len(),
            forall|q: int|
                0 <= q < k ==> !((#[trigger] nodes@[q]).kind == NodeKind::Static && nodes@[q].mutable
                    && nodes@[q].depth == 0 && nodes@[q].name@ == name@),
        decreases nodes.len() - k,
    {
        let n = &nodes[k];
        if n.kind == NodeKind::Static && n.mutable && n.depth == 0 && n.name == *name {
            return true;
        }
        k = k + 1;
    }
    false
}

fn matches_secret(patterns: &Vec<String>, name: &String) -> (r: bool)
    ensures
        r == secret_name(patterns@, name@),
{
    let mut p: usize = 0;
    while p < patterns.len()
        invariant
            p <= patterns.len(),
            forall|q: int| 0 <= q < p ==> !contains_folded(name@, (#[trigger] patterns@[q])@),
        decreases patterns.len() - p,
    {
        if contains_ignore_case(name.as_str(), patterns[p].as_str()) {
            return true;
        }
        p = p + 1;
    }
    false
}

/// Scans the rest of the scope of node `i` for a read of its binding.
fn later_read(nodes: &Vec<Node>, i: usize) -> (r: bool)
    requires
        i < nodes.len(),
    ensures
        r == read_later(nodes@, i as int, nodes@[i as int].name@),
{
    let d = nodes[i].depth;
    let mut j: usize = i + 1;
    while j < nodes.len() && nodes[j].depth >= d
        invariant
            i < j <= nodes.len(),
            d == nodes@[i as int].depth,
            forall|k: int| i < k < j ==> (#[trigger] nodes@[k]).depth >= d,
            forall|q: int| i < q < j ==> !((#[trigger] nodes@[q]).kind == NodeKind::Read && nodes@[q].name@ == nodes@[i as int].name@),
        decreases nodes.len() - j,
    {
        if nodes[j].kind == NodeKind::Read && nodes[j].name == nodes[i].name {
            assert(later_in_scope(nodes@, i as int, j as int));
            return true;
        }
        j = j + 1;
    }
    assert forall|q: int| !(later_in_scope(nodes@, i as int, q) && (#[trigger] nodes@[q]).kind == NodeKind::Read && nodes@[q].name@ == nodes@[i as int].name@) by {
        if later_in_scope(nodes@, i as int, q) && q >= j {
            assert(nodes@[j as int].depth >= d);
        }
    }
    false
}

/// Counts, up to two, the reference parameters after node `i` in its scope.
fn one_ref_param(nodes: &Vec<Node>, i: usize) -> (r: bool)
    requires
        i < nodes.len(),
    ensures
        r == single_ref_param(nodes@, i as int),
{
    let d = nodes[i].depth;
    let mut found: Option<usize> = None;
    let mut j: usize = i + 1;
    while j < nodes.len() && nodes[j].depth >= d
        invariant
            i < j <= nodes.len(),
            d == nodes@[i as int].depth,
            forall|k: int| i < k < j ==> (#[trigger] nodes@[k]).depth >= d,
            found matches None ==> forall|q: int| i < q < j ==> (#[trigger] nodes@[q]).kind != NodeKind::RefParam,
            found matches Some(f) ==> i < f < j && nodes@[f as int].kind == NodeKind::RefParam
                && forall|q: int| i < q < j && q != f ==> (#[trigger] nodes@[q]).kind != NodeKind::RefParam,
        decreases nodes.len() - j,
    {
        if nodes[j].kind == NodeKind::RefParam {
            match found {
                Some(f) => {
                    assert(ref_param_after(nodes@, i as int, f as int));
                    assert(ref_param_after(nodes@, i as int, j as int));
                    return false;
                },
                None => {
                    found = Some(j);
                },
            }
        }
        j = j + 1;
    }
    assert forall|q: int| #[trigger] ref_param_after(nodes@, i as int, q) implies i < q < j by {
        if q >= j {
            assert(nodes@[j as int].depth >= d);
        }
    }
    match found {
        Some(f) => {
            assert(ref_param_after(nodes@, i as int, f as int));
            true
        },
        None => false,
    }
}

/// Scans the body of function `i` for a mutation through its receiver.
fn receiver_mutated(nodes: &Vec<Node>, i: usize) -> (r: bool)
    requires
        i < nodes.len(),
    ensures
        r == mutates_receiver(nodes@, i as int),
{
    let d = nodes[i].depth;
    let mut j: usize = i + 1;
    while j < nodes.len() && nodes[j].depth > d
        invariant
            i < j <= nodes.len(),
            d == nodes@[i as int].depth,
            forall|k: int| i < k < j ==> (#[trigger] nodes@[k]).depth > d,
            forall|q: int| i < q < j ==> (#[trigger] nodes@[q]).kind != NodeKind::SelfMutation,
        decreases nodes.len() - j,
    {
        if nodes[j].kind == NodeKind::SelfMutation {
            assert(inside(nodes@, i as int, j as int));
            return true;
        }
        j = j + 1;
    }
    assert forall|q: int| !(inside(nodes@, i as int, q) && (#[trigger] nodes@[q]).kind == NodeKind::SelfMutation) by {
        if inside(nodes@, i as int, q) && q >= j {
            assert(nodes@[j as int].depth > d);
        }
    }
    false
}

fn flag(b: bool) -> (r: Outcome)
    ensures
        r == (if b { Outcome::Flagged } else { Outcome::Clean }),
{
    if b {
        Outcome::Flagged
    } else {
        Outcome::Clean
    }
}

/// Inspects node `i` with a rule of class `kind`, given the frames enclosing it.
fn inspect_node(
    kind: RuleKind,
    patterns: &Vec<String>,
    nodes: &Vec<Node>,
    frames: &Vec<Frame>,
    i: usize,
) -> (r: Outcome)
    requires
        i < nodes.len(),
        frames@ == context(nodes@, i as int),
    ensures
        r == inspect(kind, patterns@, nodes@, i as int),
{
    let node = &nodes[i];
    let unnamed = node.name.unicode_len() == 0;
    match kind {
        RuleKind::UnsafeGlobalState => if unnamed {
            Outcome::Fault
        } else if node.kind == NodeKind::Static {
            flag(node.mutable && node.depth == 0)
        } else {
            flag(unsafe_open(frames) && mutable_static(nodes, &node.name))
        },
        RuleKind::HardcodedSecret => if unnamed {
            Outcome::Fault
        } else {
            flag(
                !node.mutable && node.literal && node.depth == 0 && matches_secret(patterns, &node.name),
            )
        },
        RuleKind::UncheckedDivision => flag(!has_guard(nodes, frames, FrameKind::ZeroGuard, &node.name)),
        RuleKind::UnhandledParse => if unnamed {
            Outcome::Fault
        } else {
            let unwrap = String::from_str("unwrap");
            let parse = String::from_str("parse");
            flag(node.name == unwrap && node.receiver == parse)
        },
        RuleKind::PanicControlFlow => {
            let f = enclosing_fn(frames);
            flag(
                match f {
                    Some(d) => !d,
                    None => false,
                },
            )
        },
        RuleKind::UncheckedIndex => if unnamed {
            Outcome::Fault
        } else {
            flag(!has_guard(nodes, frames, FrameKind::LenGuard, &node.name))
        },
        RuleKind::MutableReceiver => flag(node.mutable && !receiver_mutated(nodes, i)),
        RuleKind::UnusedBinding | RuleKind::UnnecessaryClone => if unnamed {
            Outcome::Fault
        } else {
            flag(!later_read(nodes, i))
        },
        RuleKind::NeedlessLifetime => if unnamed {
            Outcome::Fault
        } else {
            flag(one_ref_param(nodes, i))
        },
    }
}

fn message_for(kind: RuleKind) -> (r: String)
    ensures
        r@ == message_of(kind),
{
    match kind {
        RuleKind::UnsafeGlobalState => String::from_str("unsafe global mutable state"),
        RuleKind::HardcodedSecret => String::from_str("hardcoded secret"),
        RuleKind::UncheckedDivision => String::from_str("unchecked division"),
        RuleKind::UnhandledParse => String::from_str("missing error handling on parse"),
        RuleKind::PanicControlFlow => String::from_str("panic used as control flow"),
        RuleKind::UncheckedIndex => String::from_str("indexing without a bounds check"),
        RuleKind::MutableReceiver => String::from_str("mutable receiver never mutated"),
        RuleKind::UnusedBinding => String::from_str("unused binding"),
        RuleKind::UnnecessaryClone => String::from_str("unnecessary clone"),
        RuleKind::NeedlessLifetime => String::from_str("lifetime parameter could be elided"),
    }
}

/// Appends the findings of one inspection; a rule that cannot decide on a node
/// is reported as an internal rule error rather than ending the run.
fn report(raw: &mut Vec<Finding>, rule: &Rule, node: &Node, o: Outcome)
    ensures
        views(final(raw)@) == views(old(raw)@) + outcome_findings(*rule, *node, o),
{
    let ghost before = views(raw@);
    match o {
        Outcome::Clean => {},
        Outcome::Flagged => {
            raw.push(
                Finding {
                    rule_id: rule.id.clone(),
                    severity: rule.severity,
                    message: message_for(rule.kind),
                    span: node.span,
                },
            );
        },
        Outcome::Fault => {
            let message = String::from_str("internal rule error in ").concat(rule.id.as_str());
            raw.push(
                Finding { rule_id: rule.id.clone(), severity: Severity::Error, message, span: node.span },
            );
        },
    }
    assert(views(raw@) =~= before + outcome_findings(*rule, *node, o));
}

/// Runs every applicable rule of `registry` over `tree` in one pre-order pass and
/// returns the aggregated findings; a malformed tree stops the run.
pub fn analyze(tree: &SyntaxTree, registry: &Registry) -> (r: Result<AnalysisResult, InvalidTreeError>)
    ensures
        r is Ok <==> well_formed(*tree),
        r matches Ok(res) ==> views(res.findings@) == analysis(*tree, *registry) && res.total
            == res.findings.len() && res.elapsed_micros == 0,
        r matches Err(e) ==> e.node < tree.nodes.len(),
{
    if let Err(e) = tree.validate() {
        return Err(e);
    }
    let nodes = &tree.nodes;
    let patterns = registry.secret_patterns();
    let ghost rules = registry.rules();
    let mut frames: Vec<Frame> = Vec::new();
    let mut raw: Vec<Finding> = Vec::new();
    let mut i: usize = 0;
    while i < nodes.len()
        invariant
            i <= nodes.len(),
            rules == registry.rules(),
            patterns@ == registry.patterns(),
            frames@ == frames_before(nodes@, i as int),
            views(raw@) == raw_findings(rules, patterns@, nodes@, i as int),
        decreases nodes.len() - i,
    {
        let depth = nodes[i].depth;
        while frames.len() > 0 && !encloses_exec(frames[frames.len() - 1], depth)
            invariant
                scope_at(frames@, depth) == context(nodes@, i as int),
            decreases frames.len(),
        {
            frames.pop();
        }
        let ghost base = views(raw@);
        let idxs = registry.rules_for(nodes[i].kind);
        let mut k: usize = 0;
        while k < idxs.len()
            invariant
                i < nodes.len(),
                k <= idxs.len(),
                idxs@ == applicable(rules, nodes@[i as int].kind),
                rules == registry.rules(),
                patterns@ == registry.patterns(),
                frames@ == context(nodes@, i as int),
                views(raw@) == base + findings_via(rules, patterns@, nodes@, i as int, idxs@.take(k as int)),
            decreases idxs.len() - k,
        {
            proof {
                lemma_applicable_bounded(rules, nodes@[i as int].kind, k as int);
            }
            let rule = registry.rule(idxs[k]);
            let o = inspect_node(rule.kind, patterns, nodes, &frames, i);
            report(&mut raw, rule, &nodes[i], o);
            assert(idxs@.take(k + 1).drop_last() =~= idxs@.take(k as int));
            k = k + 1;
        }
        assert(idxs@.take(k as int) =~= idxs@);
        match nodes[i].kind {
            NodeKind::UnsafeBlock => frames.push(Frame { kind: FrameKind::Unsafe, depth, node: i }),
            NodeKind::Function => frames.push(
                Frame { kind: FrameKind::Function(nodes[i].diverges), depth, node: i },
            ),
            NodeKind::ZeroGuard => frames.push(Frame { kind: FrameKind::ZeroGuard, depth, node: i }),
            NodeKind::LenGuard => frames.push(Frame { kind: FrameKind::LenGuard, depth, node: i }),
            _ => {},
        }
        i = i + 1;
    }
    Ok(aggregate(raw, 0))
}

fn encloses_exec(f: Frame, depth: usize) -> (r: bool)
    ensures
        r == encloses(f, depth),
{
    match f.kind {
        FrameKind::ZeroGuard | FrameKind::LenGuard => f.depth <= depth,
        _ => f.depth < depth,
    }
}

proof fn lemma_applicable_bounded(rules: Seq<Rule>, kind: NodeKind, k: int)
    requires
        0 <= k < applicable(rules, kind).len(),
    ensures
        applicable(rules, kind)[k] < rules.len(),
    decreases rules.len(),
{
    let prev = applicable(rules.drop_last(), kind);
    if k < prev.len() {
        lemma_applicable_bounded(rules.drop_last(), kind, k);
    }
}

proof fn lemma_via_member(
    rules: Seq<Rule>,
    patterns: Seq<String>,
    nodes: Seq<Node>,
    i: int,
    idxs: Seq<usize>,
    k: int,
    x: FindingView,
)
    requires
        0 <= k < idxs.len(),
        outcome_findings(rules[idxs[k] as int], nodes[i], inspect(rules[idxs[k] as int].kind, patterns, nodes, i)).contains(x),
    ensures
        findings_via(rules, patterns, nodes, i, idxs).contains(x),
    decreases idxs.len(),
{
    let prev = findings_via(rules, patterns, nodes, i, idxs.drop_last());
    let last = idxs.last() as int;
    let tail = outcome_findings(rules[last], nodes[i], inspect(rules[last].kind, patterns, nodes, i));
    let all = findings_via(rules, patterns, nodes, i, idxs);
    assert(all == prev + tail);
    if k < idxs.len() - 1 {
        assert(idxs.drop_last()[k] == idxs[k]);
        lemma_via_member(rules, patterns, nodes, i, idxs.drop_last(), k, x);
        let q = choose|q: int| 0 <= q < prev.len() && prev[q] == x;
        assert(all[q] == x);
    } else {
        let q = choose|q: int| 0 <= q < tail.len() && tail[q] == x;
        assert(all[prev.len() + q] == x);
    }
}

proof fn lemma_raw_member(
    rules: Seq<Rule>,
    patterns: Seq<String>,
    nodes: Seq<Node>,
    n: int,
    i: int,
    x: FindingView,
)
    requires
        0 <= i < n,
        findings_via(rules, patterns, nodes, i, applicable(rules, nodes[i].kind)).contains(x),
    ensures
        raw_findings(rules, patterns, nodes, n).contains(x),
    decreases n,
{
    let prev = raw_findings(rules, patterns, nodes, n - 1);
    let tail = findings_via(rules, patterns, nodes, n - 1, applicable(rules, nodes[n - 1].kind));
    let all = raw_findings(rules, patterns, nodes, n);
    assert(all == prev + tail);
    if i < n - 1 {
        lemma_raw_member(rules, patterns, nodes, n - 1, i, x);
        let q = choose|q: int| 0 <= q < prev.len() && prev[q] == x;
        assert(all[q] == x);
    } else {
        let q = choose|q: int| 0 <= q < tail.len() && tail[q] == x;
        assert(all[prev.len() + q] == x);
    }
}

proof fn lemma_via_spans(
    rules: Seq<Rule>,
    patterns: Seq<String>,
    nodes: Seq<Node>,
    i: int,
    idxs: Seq<usize>,
)
    ensures
        forall|j: int| 0 <= j < findings_via(rules, patterns, nodes, i, idxs).len()
            ==> (#[trigger] findings_via(rules, patterns, nodes, i, idxs)[j]).span == nodes[i].span,
    decreases idxs.len(),
{
    if idxs.len() > 0 {
        lemma_via_spans(rules, patterns, nodes, i, idxs.drop_last());
        let prev = findings_via(rules, patterns, nodes, i, idxs.drop_last());
        let all = findings_via(rules, patterns, nodes, i, idxs);
        assert forall|j: int| 0 <= j < all.len() implies (#[trigger] all[j]).span == nodes[i].span by {
            if j < prev.len() {
                assert(all[j] == prev[j]);
            }
        }
    }
}

proof fn lemma_raw_spans(
    rules: Seq<Rule>,
    patterns: Seq<String>,
    nodes: Seq<Node>,
    n: int,
    source_len: usize,
)
    requires
        n <= nodes.len(),
        forall|i: int| 0 <= i < n ==> (#[trigger] nodes[i]).span.start <= nodes[i].span.end
            <= source_len,
    ensures
        forall|j: int| 0 <= j < raw_findings(rules, patterns, nodes, n).len() ==> (#[trigger] raw_findings(rules, patterns, nodes, n)[j]).span.start
            <= raw_findings(rules, patterns, nodes, n)[j].span.end <= source_len,
    decreases n,
{
    if n > 0 {
        lemma_raw_spans(rules, patterns, nodes, n - 1, source_len);
        let idxs = applicable(rules, nodes[n - 1].kind);
        lemma_via_spans(rules, patterns, nodes, n - 1, idxs);
        let prev = raw_findings(rules, patterns, nodes, n - 1);
        let tail = findings_via(rules, patterns, nodes, n - 1, idxs);
        let all = raw_findings(rules, patterns, nodes, n);
        assert(all == prev + tail);
        assert forall|j: int| 0 <= j < all.len() implies (#[trigger] all[j]).span.start
            <= all[j].span.end <= source_len by {
            if j < prev.len() {
                assert(all[j] == prev[j]);
            } else {
                assert(all[j] == tail[j - prev.len()]);
            }
        }
    }
}

/// The findings of a run are in strictly increasing order of (line, column, rule
/// identifier, offsets), and no two of them share a rule identifier and a span.
pub proof fn law_findings_ordered(tree: SyntaxTree, registry: Registry)
    ensures
        forall|i: int, j: int|
            0 <= i < j < analysis(tree, registry).len() ==> key_lt(
                #[trigger] analysis(tree, registry)[i],
                #[trigger] analysis(tree, registry)[j],
            ),
        distinct_keys(analysis(tree, registry)),
{
    let raw = raw_findings(registry.rules(), registry.patterns(), tree.nodes@, tree.nodes.len() as int);
    lemma_aggregated_sorted_distinct(raw);
    assert forall|i: int, j: int| 0 <= i < j < analysis(tree, registry).len() implies key_lt(
        #[trigger] analysis(tree, registry)[i],
        #[trigger] analysis(tree, registry)[j],
    ) by {
        lemma_sorted_pairwise(aggregated(raw), i, j);
    }
}

/// Running the aggregation again over the findings of a run changes nothing: the
/// result of `analyze` is a fixed point, fully determined by the tree and registry.
pub proof fn law_analysis_idempotent(tree: SyntaxTree, registry: Registry)
    ensures
        aggregated(analysis(tree, registry)) == analysis(tree, registry),
{
    let raw = raw_findings(registry.rules(), registry.patterns(), tree.nodes@, tree.nodes.len() as int);
    lemma_aggregated_sorted_distinct(raw);
    lemma_aggregated_fixed(aggregated(raw));
}

/// A rule that cannot decide on a node does not end the run: the findings hold an
/// entry of that rule at that node's span.
pub proof fn law_rule_fault_reported(tree: SyntaxTree, registry: Registry, i: int, k: int)
    requires
        0 <= i < tree.nodes.len(),
        0 <= k < applicable(registry.rules(), tree.nodes@[i].kind).len(),
        inspect(
            registry.rules()[applicable(registry.rules(), tree.nodes@[i].kind)[k] as int].kind,
            registry.patterns(),
            tree.nodes@,
            i,
        ) == Outcome::Fault,
    ensures
        exists|j: int|
            0 <= j < analysis(tree, registry).len() && (#[trigger] analysis(tree, registry)[j]).rule_id
                == registry.rules()[applicable(registry.rules(), tree.nodes@[i].kind)[k] as int].id@
                && analysis(tree, registry)[j].span == tree.nodes@[i].span,
{
    let rules = registry.rules();
    let patterns = registry.patterns();
    let nodes = tree.nodes@;
    let idxs = applicable(rules, nodes[i].kind);
    let rule = rules[idxs[k] as int];
    let out = outcome_findings(rule, nodes[i], Outcome::Fault);
    let x = out[0];
    assert(out.contains(x));
    lemma_via_member(rules, patterns, nodes, i, idxs, k, x);
    lemma_raw_member(rules, patterns, nodes, nodes.len() as int, i, x);
    let raw = raw_findings(rules, patterns, nodes, nodes.len() as int);
    let q = choose|q: int| 0 <= q < raw.len() && raw[q] == x;
    lemma_aggregated_covers(raw, q);
    let a = aggregated(raw);
    let j = choose|j: int| 0 <= j < a.len() && same_key(#[trigger] a[j], raw[q]);
    assert(a == analysis(tree, registry));
    assert(analysis(tree, registry)[j].rule_id == rule.id@ && a[j].span == nodes[i].span);
}

/// Every finding of a run over a well-formed tree lies within the analyzed unit.
pub proof fn law_spans_within_unit(tree: SyntaxTree, registry: Registry)
    requires
        well_formed(tree),
    ensures
        forall|j: int|
            0 <= j < analysis(tree, registry).len() ==> (#[trigger] analysis(tree, registry)[j]).span.start
                <= analysis(tree, registry)[j].span.end <= tree.source_len,
{
    let raw = raw_findings(registry.rules(), registry.patterns(), tree.nodes@, tree.nodes.len() as int);
    assert forall|i: int| 0 <= i < tree.nodes.len() implies (#[trigger] tree.nodes@[i]).span.start
        <= tree.nodes@[i].span.end <= tree.source_len by {
        assert(crate::tree::node_ok(tree.nodes@, tree.source_len, i));
    }
    lemma_raw_spans(registry.rules(), registry.patterns(), tree.nodes@, tree.nodes.len() as int, tree.source_len);
    assert forall|j: int| 0 <= j < analysis(tree, registry).len() implies (#[trigger] analysis(tree, registry)[j]).span.start
        <= analysis(tree, registry)[j].span.end <= tree.source_len by {
        lemma_aggregated_from_raw(raw, j);
        let q = choose|q: int| 0 <= q < raw.len() && raw[q] == aggregated(raw)[j];
    }
}

} // verus!
