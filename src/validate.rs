use vstd::prelude::*;
use crate::model::{Chain, Link, Node, normalized, weight_sum, lemma_find_from, SCALE, EPSILON};

verus! {

/// The first broken invariant of a model.
#[derive(Debug, PartialEq, Eq)]
pub enum Violation {
    /// `start` names no node.
    MissingStartNode,
    /// `end` names a node, though it must stay a sentinel.
    TerminalNodeDefined,
    /// A link of the node (first field) targets a name (second field) that is
    /// neither `end` nor a node.
    DanglingLink(String, String),
    /// The weights of the named node do not sum to one within `EPSILON`.
    WeightsNotNormalized(String),
}

/// A model that could not be accepted, with a description of why.
#[derive(Debug)]
pub struct Error(pub String);

/// The human-readable description of a violation.
pub open spec fn message_of(v: Violation) -> Seq<char> {
    match v {
        Violation::MissingStartNode => "start node not found"@,
        Violation::TerminalNodeDefined => "non-dummy end node"@,
        Violation::DanglingLink(node, target) => "link "@ + target@ + " in node "@ + node@
            + " has no definition"@,
        Violation::WeightsNotNormalized(node) => "links in node "@ + node@ + " do not sum to 1"@,
    }
}

impl Violation {
    /// Describes the violation, naming the node and link where there is one.
    pub fn message(&self) -> (r: String)
        ensures
            r@ == message_of(*self),
    {
        match self {
            Violation::MissingStartNode => "start node not found".to_owned(),
            Violation::TerminalNodeDefined => "non-dummy end node".to_owned(),
            Violation::DanglingLink(node, target) => {
                let r = "link ".to_owned().concat(target.as_str()).concat(" in node ").concat(
                    node.as_str(),
                ).concat(" has no definition");
                r
            },
            Violation::WeightsNotNormalized(node) => {
                "links in node ".to_owned().concat(node.as_str()).concat(" do not sum to 1")
            },
        }
    }
}

/// Index of the first link at or after `j` whose target is undefined.
pub open spec fn dangling_from(c: &Chain, links: Seq<Link>, j: int) -> Option<int>
    decreases links.len() - j,
{
    if j < 0 || j >= links.len() {
        None
    } else if !c.link_defined(links[j].next@) {
        Some(j)
    } else {
        dangling_from(c, links, j + 1)
    }
}

/// What is wrong with one node: its first dangling link, else its weights.
pub open spec fn node_violation(c: &Chain, name: String, node: Node) -> Option<Violation> {
    match dangling_from(c, node.links@, 0) {
        Some(j) => Some(Violation::DanglingLink(name, node.links@[j].next)),
        None => if normalized(node.links@) {
            None
        } else {
            Some(Violation::WeightsNotNormalized(name))
        },
    }
}

/// The violation of the first node at or after `i` that has one.
pub open spec fn violation_from(c: &Chain, i: int) -> Option<Violation>
    decreases c.nodes@.len() - i,
{
    if i < 0 || i >= c.nodes@.len() {
        None
    } else {
        match node_violation(c, c.nodes@[i].0, c.nodes@[i].1) {
            Some(v) => Some(v),
            None => violation_from(c, i + 1),
        }
    }
}

/// The violation that validation reports: the start check, then the end check,
/// then the nodes in order.
pub open spec fn first_violation(c: &Chain) -> Option<Violation> {
    if !c.has_node(c.start@) {
        Some(Violation::MissingStartNode)
    } else if c.has_node(c.end@) {
        Some(Violation::TerminalNodeDefined)
    } else {
        violation_from(c, 0)
    }
}

pub proof fn lemma_dangling_from(c: &Chain, links: Seq<Link>, j: int)
    requires
        0 <= j <= links.len(),
    ensures
        dangling_from(c, links, j) is None <==> forall|k: int|
            j <= k < links.len() ==> c.link_defined(#[trigger] links[k].next@),
        dangling_from(c, links, j) matches Some(k) ==> j <= k < links.len() && !c.link_defined(
            links[k].next@,
        ),
    decreases links.len() - j,
{
    if j < links.len() {
        lemma_dangling_from(c, links, j + 1);
    }
}

pub proof fn lemma_node_violation(c: &Chain, name: String, node: Node)
    ensures
        node_violation(c, name, node) is None <==> c.node_ok(node),
{
    lemma_dangling_from(c, node.links@, 0);
}

pub proof fn lemma_violation_from(c: &Chain, i: int)
    requires
        0 <= i <= c.nodes@.len(),
    ensures
        violation_from(c, i) is None <==> forall|k: int|
            i <= k < c.nodes@.len() ==> c.node_ok(#[trigger] c.nodes@[k].1),
    decreases c.nodes@.len() - i,
{
    if i < c.nodes@.len() {
        lemma_node_violation(c, c.nodes@[i].0, c.nodes@[i].1);
        lemma_violation_from(c, i + 1);
    }
}

/// Validation finds nothing exactly on the models that meet every invariant.
pub proof fn lemma_first_violation(c: &Chain)
    ensures
        first_violation(c) is None <==> c.valid(),
{
    lemma_violation_from(c, 0);
}

/// In a valid model the weights of every node sum to one, within `EPSILON`.
pub proof fn lemma_valid_weights_normalized(c: &Chain)
    requires
        c.valid(),
    ensures
        forall|i: int|
            0 <= i < c.nodes@.len() ==> SCALE - EPSILON <= #[trigger] weight_sum(c.nodes@[i].1.links@)
                <= SCALE + EPSILON,
{
    assert forall|i: int| 0 <= i < c.nodes@.len() implies SCALE - EPSILON <= #[trigger] weight_sum(
        c.nodes@[i].1.links@,
    ) <= SCALE + EPSILON by {
        assert(c.node_ok(c.nodes@[i].1));
    }
}

/// Validation rejects a model whose start is undefined (and says so), whose end
/// names a node, that has a dangling link, or that has a node whose weights do
/// not sum to one.
pub proof fn lemma_validation_rejects(c: &Chain)
    ensures
        !c.has_node(c.start@) ==> first_violation(c) == Some(Violation::MissingStartNode),
        c.has_node(c.end@) ==> first_violation(c) is Some,
        (exists|i: int, j: int|
            0 <= i < c.nodes@.len() && 0 <= j < c.nodes@[i].1.links@.len() && !c.link_defined(
                #[trigger] c.nodes@[i].1.links@[j].next@,
            )) ==> first_violation(c) is Some,
        (exists|i: int|
            0 <= i < c.nodes@.len() && !normalized(#[trigger] c.nodes@[i].1.links@))
            ==> first_violation(c) is Some,
{
    lemma_first_violation(c);
}

/// A model that validation accepts meets every invariant, so validating it again
/// finds nothing.
pub proof fn lemma_revalidation(c: &Chain)
    requires
        first_violation(c) is None,
    ensures
        c.valid(),
        first_violation(c) is None,
{
    lemma_first_violation(c);
}

/// Sum of `links`, capped at one past `SCALE + EPSILON`.
fn capped_sum(links: &Vec<Link>) -> (r: u64)
    ensures
        weight_sum(links@) <= SCALE + EPSILON ==> r == weight_sum(links@),
        weight_sum(links@) > SCALE + EPSILON ==> r == SCALE + EPSILON + 1,
{
    let cap: u64 = SCALE + EPSILON;
    let mut sum: u64 = 0;
    let mut j: usize = 0;
    while j < links.len()
        invariant
            j <= links@.len(),
            cap == SCALE + EPSILON,
            weight_sum(links@.take(j as int)) <= cap ==> sum == weight_sum(links@.take(j as int)),
            weight_sum(links@.take(j as int)) > cap ==> sum == cap + 1,
        decreases links@.len() - j,
    {
        let w = links[j].weight;
        assert(links@.take(j + 1).drop_last() =~= links@.take(j as int));
        if sum <= cap {
            if w > cap - sum {
                sum = cap + 1;
            } else {
                sum = sum + w;
            }
        }
        j = j + 1;
    }
    assert(links@.take(j as int) =~= links@);
    sum
}

impl Chain {
    /// Checks one node: its first dangling link, else its weight sum.
    fn check_node(&self, name: &String, node: &Node) -> (r: Option<Violation>)
        ensures
            r == node_violation(self, *name, *node),
    {
        let n = node.links.len();
        let mut j: usize = 0;
        while j < n
            invariant
                n == node.links@.len(),
                j <= n,
                dangling_from(self, node.links@, 0) == dangling_from(self, node.links@, j as int),
            decreases n - j,
        {
            let target = &node.links[j].next;
            if *target != self.end {
                let k = self.find(target);
                if k >= self.nodes.len() {
                    return Some(Violation::DanglingLink(name.clone(), target.clone()));
                }
            }
            j = j + 1;
        }
        let sum = capped_sum(&node.links);
        if SCALE - EPSILON <= sum && sum <= SCALE + EPSILON {
            None
        } else {
            Some(Violation::WeightsNotNormalized(name.clone()))
        }
    }

    /// The first broken invariant, or `None` where the model is valid.
    pub fn verify(&self) -> (r: Option<Violation>)
        ensures
            r == first_violation(self),
            r is None <==> self.valid(),
    {
        proof {
            lemma_first_violation(self);
        }
        if self.find(&self.start) >= self.nodes.len() {
            return Some(Violation::MissingStartNode);
        }
        if self.find(&self.end) < self.nodes.len() {
            return Some(Violation::TerminalNodeDefined);
        }
        let n = self.nodes.len();
        let mut i: usize = 0;
        while i < n
            invariant
                n == self.nodes@.len(),
                i <= n,
                first_violation(self) == violation_from(self, 0),
                first_violation(self) is None <==> self.valid(),
                violation_from(self, 0) == violation_from(self, i as int),
            decreases n - i,
        {
            let r = self.check_node(&self.nodes[i].0, &self.nodes[i].1);
            if r.is_some() {
                return r;
            }
            i = i + 1;
        }
        None
    }

    /// Hands the model back where it is valid; otherwise the description of its
    /// first violation.
    pub fn validated(self) -> (r: Result<Chain, Error>)
        ensures
            r is Ok <==> self.valid(),
            r matches Ok(c) ==> c == self,
            r matches Err(e) ==> first_violation(&self) matches Some(v) && e.0@ == message_of(v),
    {
        match self.verify() {
            None => Ok(self),
            Some(v) => Err(Error(v.message())),
        }
    }
}

} // verus!
