use vstd::prelude::*;
use crate::finding::Severity;
use crate::tree::NodeKind;

verus! {

/// The issue classes the analyzer detects.
#[derive(Clone, Copy, Debug, PartialEq, Eq, Structural)]
pub enum RuleKind {
    UnsafeGlobalState,
    HardcodedSecret,
    UncheckedDivision,
    UnhandledParse,
    PanicControlFlow,
    UncheckedIndex,
    MutableReceiver,
    UnusedBinding,
    UnnecessaryClone,
    NeedlessLifetime,
}

/// A detector: its identifier, the severity of its findings and its issue class.
#[derive(Clone, Debug)]
pub struct Rule {
    pub id: String,
    pub severity: Severity,
    pub kind: RuleKind,
}

/// Two rules given to `Registry::build` share the identifier `id`.
#[derive(Clone, Debug, PartialEq, Eq)]
pub struct DuplicateRuleError {
    pub id: String,
}

/// The node kinds a rule of class `rule` inspects.
pub open spec fn applies(rule: RuleKind, node: NodeKind) -> bool {
    match rule {
        RuleKind::UnsafeGlobalState => node == NodeKind::Static || node == NodeKind::Read,
        RuleKind::HardcodedSecret => node == NodeKind::Static,
        RuleKind::UncheckedDivision => node == NodeKind::Division,
        RuleKind::UnhandledParse => node == NodeKind::MethodCall,
        RuleKind::PanicControlFlow => node == NodeKind::Panic,
        RuleKind::UncheckedIndex => node == NodeKind::Index,
        RuleKind::MutableReceiver => node == NodeKind::Function,
        RuleKind::UnusedBinding => node == NodeKind::Let,
        RuleKind::UnnecessaryClone => node == NodeKind::CloneInit,
        RuleKind::NeedlessLifetime => node == NodeKind::LifetimeParam,
    }
}

/// The positions, in order, of the rules that inspect nodes of `kind`.
pub open spec fn applicable(rules: Seq<Rule>, kind: NodeKind) -> Seq<usize>
    decreases rules.len(),
{
    if rules.len() == 0 {
        seq![]
    } else {
        applicable(rules.drop_last(), kind) + if applies(rules.last().kind, kind) {
            seq![(rules.len() - 1) as usize]
        } else {
            seq![]
        }
    }
}

pub open spec fn unique_ids(rules: Seq<Rule>) -> bool {
    forall|i: int, j: int|
        0 <= i < j < rules.len() ==> #[trigger] rules[i].id@ != #[trigger] rules[j].id@
}

/// The rules of a run and the name patterns that mark a binding as secret.
pub struct Registry {
    rules: Vec<Rule>,
    secret_patterns: Vec<String>,
}

impl Registry {
    pub closed spec fn rules(&self) -> Seq<Rule> {
        self.rules@
    }

    pub closed spec fn patterns(&self) -> Seq<String> {
        self.secret_patterns@
    }

    /// Builds a registry, refusing two rules with the same identifier.
    pub fn build(rules: Vec<Rule>, secret_patterns: Vec<String>) -> (r: Result<
        Registry,
        DuplicateRuleError,
    >)
        ensures
            r is Ok <==> unique_ids(rules@),
            r matches Ok(g) ==> g.rules() == rules@ && g.patterns() == secret_patterns@,
            r matches Err(e) ==> exists|i: int, j: int|
                0 <= i < j < rules.len() && rules@[i].id@ == e.id@ && rules@[j].id@ == e.id@,
    {
        let n = rules.len();
        let mut j: usize = 0;
        while j < n
            invariant
                n == rules.len(),
                j <= n,
                forall|a: int, b: int|
                    0 <= a < b < j ==> #[trigger] rules@[a].id@ != #[trigger] rules@[b].id@,
            decreases n - j,
        {
            let mut i: usize = 0;
            while i < j
                invariant
                    n == rules.len(),
                    i <= j < n,
                    forall|a: int| 0 <= a < i ==> rules@[a].id@ != rules@[j as int].id@,
                decreases j - i,
            {
                if rules[i].id == rules[j].id {
                    return Err(DuplicateRuleError { id: rules[j].id.clone() });
                }
                i = i + 1;
            }
            j = j + 1;
        }
        Ok(Registry { rules, secret_patterns })
    }

    /// The positions of the rules that inspect nodes of `kind`, in registry order.
    pub fn rules_for(&self, kind: NodeKind) -> (r: Vec<usize>)
        ensures
            r@ == applicable(self.rules(), kind),
    {
        let mut r: Vec<usize> = Vec::new();
        let mut i: usize = 0;
        while i < self.rules.len()
            invariant
                i <= self.rules.len(),
                r@ == applicable(self.rules@.take(i as int), kind),
            decreases self.rules.len() - i,
        {
            assert(self.rules@.take(i + 1).drop_last() =~= self.rules@.take(i as int));
            if applies_to(self.rules[i].kind, kind) {
                r.push(i);
            }
            i = i + 1;
        }
        assert(self.rules@.take(i as int) =~= self.rules@);
        r
    }

    pub fn rule_count(&self) -> (r: usize)
        ensures
            r == self.rules().len(),
    {
        self.rules.len()
    }

    pub fn rule(&self, i: usize) -> (r: &Rule)
        requires
            i < self.rules().len(),
        ensures
            *r == self.rules()[i as int],
    {
        &self.rules[i]
    }

    pub fn secret_patterns(&self) -> (r: &Vec<String>)
        ensures
            r@ == self.patterns(),
    {
        &self.secret_patterns
    }
}

fn applies_to(rule: RuleKind, node: NodeKind) -> (r: bool)
    ensures
        r == applies(rule, node),
{
    match rule {
        RuleKind::UnsafeGlobalState => node == NodeKind::Static || node == NodeKind::Read,
        RuleKind::HardcodedSecret => node == NodeKind::Static,
        RuleKind::UncheckedDivision => node == NodeKind::Division,
        RuleKind::UnhandledParse => node == NodeKind::MethodCall,
        RuleKind::PanicControlFlow => node == NodeKind::Panic,
        RuleKind::UncheckedIndex => node == NodeKind::Index,
        RuleKind::MutableReceiver => node == NodeKind::Function,
        RuleKind::UnusedBinding => node == NodeKind::Let,
        RuleKind::UnnecessaryClone => node == NodeKind::CloneInit,
        RuleKind::NeedlessLifetime => node == NodeKind::LifetimeParam,
    }
}

} // verus!
