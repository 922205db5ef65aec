use vstd::prelude::*;

verus! {

/// The fixed-point unit of weight: a weight of `SCALE` is a probability of one.
pub const SCALE: u64 = 1_000_000_000;

/// How far the weights of a node may sum away from `SCALE`.
pub const EPSILON: u64 = 1_000;

/// A weighted transition to another node or to the end sentinel.
#[derive(Debug)]
pub struct Link {
    pub next: String,
    pub weight: u64,
}

/// A state: the text it emits and its outgoing links, kept by `add_link` in
/// ascending target order with no target repeated.
#[derive(Debug)]
pub struct Node {
    pub text: String,
    pub links: Vec<Link>,
}

/// The whole model. A node name is looked up by its first occurrence in `nodes`;
/// `insert` keeps the names distinct (see `wf`).
#[derive(Debug)]
pub struct Chain {
    pub nodes: Vec<(String, Node)>,
    pub start: String,
    pub end: String,
}

/// Lexicographic order on names, by character code.
pub open spec fn lex_less(a: Seq<char>, b: Seq<char>) -> bool
    decreases a.len(),
{
    if a.len() == 0 {
        b.len() > 0
    } else if b.len() == 0 {
        false
    } else if a[0] != b[0] {
        a[0] < b[0]
    } else {
        lex_less(a.drop_first(), b.drop_first())
    }
}

/// Of two distinct names, one comes first; no name comes before itself.
pub proof fn lemma_lex_total(a: Seq<char>, b: Seq<char>)
    ensures
        !lex_less(a, a),
        a != b ==> lex_less(a, b) || lex_less(b, a),
        !(lex_less(a, b) && lex_less(b, a)),
    decreases a.len(),
{
    if a.len() > 0 {
        lemma_lex_total(a.drop_first(), a.drop_first());
        if b.len() > 0 {
            lemma_lex_total(a.drop_first(), b.drop_first());
            if a != b && a[0] == b[0] {
                assert(a.drop_first() != b.drop_first()) by {
                    if a.drop_first() == b.drop_first() {
                        assert(a =~= seq![a[0]] + a.drop_first());
                        assert(b =~= seq![b[0]] + b.drop_first());
                    }
                }
            }
        }
    } else if b.len() == 0 {
        assert(a =~= b);
    }
}

/// The order is transitive.
pub proof fn lemma_lex_transitive(a: Seq<char>, b: Seq<char>, c: Seq<char>)
    requires
        lex_less(a, b),
        lex_less(b, c),
    ensures
        lex_less(a, c),
    decreases a.len(),
{
    if a.len() > 0 && b.len() > 0 && c.len() > 0 && a[0] == b[0] && b[0] == c[0] {
        lemma_lex_transitive(a.drop_first(), b.drop_first(), c.drop_first());
    }
}

/// Each link's target comes strictly after the one before: the links are in
/// ascending target order, and no target repeats.
pub open spec fn links_sorted(links: Seq<Link>) -> bool {
    forall|i: int| 0 < i < links.len() ==> lex_less(links[i - 1].next@, #[trigger] links[i].next@)
}

/// Ascending in every pair, not only in neighbours.
pub proof fn lemma_links_sorted(links: Seq<Link>, i: int, j: int)
    requires
        links_sorted(links),
        0 <= i < j < links.len(),
    ensures
        lex_less(links[i].next@, links[j].next@),
    decreases j - i,
{
    if i + 1 < j {
        lemma_links_sorted(links, i, j - 1);
        lemma_lex_transitive(links[i].next@, links[j - 1].next@, links[j].next@);
    }
}

/// Index of the first link at or after `i` whose target does not come before `t`.
pub open spec fn lower_bound_from(links: Seq<Link>, t: Seq<char>, i: int) -> int
    decreases links.len() - i,
{
    if i < 0 || i >= links.len() {
        links.len() as int
    } else if !lex_less(links[i].next@, t) {
        i
    } else {
        lower_bound_from(links, t, i + 1)
    }
}

/// Where a link to `t` stands, or would stand, among `links`.
pub open spec fn lower_bound(links: Seq<Link>, t: Seq<char>) -> int {
    lower_bound_from(links, t, 0)
}

proof fn lemma_lower_bound_from(links: Seq<Link>, t: Seq<char>, i: int)
    requires
        0 <= i <= links.len(),
    ensures
        i <= lower_bound_from(links, t, i) <= links.len(),
        lower_bound_from(links, t, i) < links.len() ==> !lex_less(
            links[lower_bound_from(links, t, i)].next@,
            t,
        ),
        forall|k: int| i <= k < lower_bound_from(links, t, i) ==> lex_less(#[trigger] links[k].next@, t),
    decreases links.len() - i,
{
    if i < links.len() && lex_less(links[i].next@, t) {
        lemma_lower_bound_from(links, t, i + 1);
    }
}

/// No two nodes share a name.
pub open spec fn names_distinct(nodes: Seq<(String, Node)>) -> bool {
    forall|i: int, j: int| 0 <= i < j < nodes.len() ==> nodes[i].0@ != nodes[j].0@
}

/// Sum of the weights of `links`.
pub open spec fn weight_sum(links: Seq<Link>) -> int
    decreases links.len(),
{
    if links.len() == 0 {
        0
    } else {
        weight_sum(links.drop_last()) + links.last().weight
    }
}

/// The weights sum to one, within `EPSILON`.
pub open spec fn normalized(links: Seq<Link>) -> bool {
    SCALE - EPSILON <= weight_sum(links) <= SCALE + EPSILON
}

/// Index of the first node at or after `i` named `name`, or the length if there is none.
pub open spec fn find_from(nodes: Seq<(String, Node)>, name: Seq<char>, i: int) -> int
    decreases nodes.len() - i,
{
    if i < 0 || i >= nodes.len() {
        nodes.len() as int
    } else if nodes[i].0@ == name {
        i
    } else {
        find_from(nodes, name, i + 1)
    }
}

pub proof fn lemma_find_from(nodes: Seq<(String, Node)>, name: Seq<char>, i: int)
    requires
        0 <= i <= nodes.len(),
    ensures
        i <= find_from(nodes, name, i) <= nodes.len(),
        find_from(nodes, name, i) < nodes.len() ==> nodes[find_from(nodes, name, i)].0@ == name,
        forall|k: int| i <= k < find_from(nodes, name, i) ==> nodes[k].0@ != name,
    decreases nodes.len() - i,
{
    if i < nodes.len() && nodes[i].0@ != name {
        lemma_find_from(nodes, name, i + 1);
    }
}

/// Whether `a` comes strictly before `b`.
pub fn name_less(a: &String, b: &String) -> (r: bool)
    ensures
        r == lex_less(a@, b@),
{
    let la = a.as_str().unicode_len();
    let lb = b.as_str().unicode_len();
    let mut i: usize = 0;
    assert(a@.skip(0) =~= a@ && b@.skip(0) =~= b@);
    while i < la && i < lb
        invariant
            la == a@.len(),
            lb == b@.len(),
            i <= la,
            i <= lb,
            lex_less(a@, b@) == lex_less(a@.skip(i as int), b@.skip(i as int)),
        decreases la - i,
    {
        let ca = a.as_str().get_char(i);
        let cb = b.as_str().get_char(i);
        assert(a@.skip(i as int)[0] == ca && b@.skip(i as int)[0] == cb);
        if ca != cb {
            return ca < cb;
        }
        assert(a@.skip(i as int).drop_first() =~= a@.skip(i + 1));
        assert(b@.skip(i as int).drop_first() =~= b@.skip(i + 1));
        i = i + 1;
    }
    i == la && i < lb
}

/// Whether `links` are in ascending target order with no target repeated.
fn links_in_order(links: &Vec<Link>) -> (r: bool)
    ensures
        r == links_sorted(links@),
{
    let n = links.len();
    let mut i: usize = 1;
    while i < n
        invariant
            n == links@.len(),
            1 <= i,
            i <= n || n == 0,
            forall|k: int| 0 < k < i && k < n ==> lex_less(links@[k - 1].next@, #[trigger] links@[k].next@),
        decreases n - i,
    {
        if !name_less(&links[i - 1].next, &links[i].next) {
            return false;
        }
        i = i + 1;
    }
    true
}

impl Node {
    /// A node that emits `text` and has no links yet.
    pub fn new(text: String) -> (r: Node)
        ensures
            r.text@ == text@,
            r.links@.len() == 0,
    {
        Node { text, links: Vec::new() }
    }

    /// Sets the weight of the link to `target`, adding the link in its place in
    /// ascending target order where there is none.
    pub fn add_link(&mut self, target: String, weight: u64)
        requires
            links_sorted(old(self).links@),
        ensures
            links_sorted(final(self).links@),
            final(self).text == old(self).text,
            ({
                let p = lower_bound(old(self).links@, target@);
                if p < old(self).links@.len() && old(self).links@[p].next@ == target@ {
                    final(self).links@ == old(self).links@.update(p, Link { next: target, weight })
                } else {
                    final(self).links@ == old(self).links@.insert(p, Link { next: target, weight })
                }
            }),
    {
        proof {
            lemma_lower_bound_from(self.links@, target@, 0);
        }
        let n = self.links.len();
        let mut p: usize = 0;
        while p < n && name_less(&self.links[p].next, &target)
            invariant
                n == self.links@.len(),
                p <= n,
                lower_bound(self.links@, target@) == lower_bound_from(self.links@, target@, p as int),
            decreases n - p,
        {
            p = p + 1;
        }
        let ghost old_links = self.links@;
        let ghost t = target@;
        proof {
            lemma_lower_bound_from(old_links, t, 0);
            lemma_lex_total(t, t);
            if p < n {
                lemma_lex_total(old_links[p as int].next@, t);
            }
        }
        if p < n && self.links[p].next == target {
            self.links.set(p, Link { next: target, weight });
            assert forall|i: int| 0 < i < self.links@.len() implies lex_less(
                self.links@[i - 1].next@,
                #[trigger] self.links@[i].next@,
            ) by {
                assert(lex_less(old_links[i - 1].next@, old_links[i].next@));
            }
        } else {
            self.links.insert(p, Link { next: target, weight });
            assert forall|i: int| 0 < i < self.links@.len() implies lex_less(
                self.links@[i - 1].next@,
                #[trigger] self.links@[i].next@,
            ) by {
                if i < p {
                    assert(lex_less(old_links[i - 1].next@, old_links[i].next@));
                } else if i == p {
                    assert(lex_less(old_links[i - 1].next@, t));
                } else if i == p + 1 {
                    assert(lex_less(t, old_links[p as int].next@));
                } else {
                    assert(lex_less(old_links[i - 2].next@, old_links[i - 1].next@));
                }
            }
        }
    }
}

impl Chain {
    /// Index of the node named `name`, or the number of nodes if there is none.
    pub open spec fn index_of(&self, name: Seq<char>) -> int {
        find_from(self.nodes@, name, 0)
    }

    pub open spec fn has_node(&self, name: Seq<char>) -> bool {
        self.index_of(name) < self.nodes@.len()
    }

    /// A link target is the end sentinel or a defined node.
    pub open spec fn link_defined(&self, target: Seq<char>) -> bool {
        target == self.end@ || self.has_node(target)
    }

    pub open spec fn node_ok(&self, node: Node) -> bool {
        &&& forall|j: int| 0 <= j < node.links@.len() ==> self.link_defined(#[trigger] node.links@[j].next@)
        &&& normalized(node.links@)
    }

    /// How the library keeps a model: node names are distinct, and each node's
    /// links are in ascending target order with no target repeated, so that a
    /// walk depends on each node's target-to-weight contents alone.
    pub open spec fn wf(&self) -> bool {
        &&& names_distinct(self.nodes@)
        &&& forall|i: int| 0 <= i < self.nodes@.len() ==> links_sorted(#[trigger] self.nodes@[i].1.links@)
    }

    /// The model's invariants: the start is defined, the end is not, no link dangles,
    /// and the weights of every node sum to one.
    pub open spec fn valid(&self) -> bool {
        &&& self.has_node(self.start@)
        &&& !self.has_node(self.end@)
        &&& forall|i: int| 0 <= i < self.nodes@.len() ==> self.node_ok(#[trigger] self.nodes@[i].1)
    }

    /// An empty model with the given start and end names.
    pub fn new(start: String, end: String) -> (r: Chain)
        ensures
            r.nodes@.len() == 0,
            r.start@ == start@,
            r.end@ == end@,
    {
        Chain { nodes: Vec::new(), start, end }
    }

    /// Defines the node `name`, replacing an earlier definition in its place.
    pub fn insert(&mut self, name: String, node: Node)
        requires
            old(self).wf(),
            links_sorted(node.links@),
        ensures
            final(self).wf(),
            final(self).start == old(self).start,
            final(self).end == old(self).end,
            old(self).has_node(name@) ==> final(self).nodes@ == old(self).nodes@.update(
                old(self).index_of(name@),
                (name, node),
            ),
            !old(self).has_node(name@) ==> final(self).nodes@ == old(self).nodes@.push((name, node)),
    {
        let i = self.find(&name);
        proof {
            lemma_find_from(self.nodes@, name@, 0);
        }
        if i < self.nodes.len() {
            self.nodes.set(i, (name, node));
        } else {
            self.nodes.push((name, node));
        }
    }

    /// Whether the model is kept as `wf` says.
    pub fn well_formed(&self) -> (r: bool)
        ensures
            r == self.wf(),
    {
        let n = self.nodes.len();
        let mut i: usize = 0;
        while i < n
            invariant
                n == self.nodes@.len(),
                i <= n,
                forall|k: int| 0 <= k < i ==> links_sorted(#[trigger] self.nodes@[k].1.links@),
                forall|k: int| 0 <= k < i ==> self.index_of(#[trigger] self.nodes@[k].0@) == k,
            decreases n - i,
        {
            proof {
                lemma_find_from(self.nodes@, self.nodes@[i as int].0@, 0);
            }
            if !links_in_order(&self.nodes[i].1.links) || self.find(&self.nodes[i].0) != i {
                proof {
                    if self.index_of(self.nodes@[i as int].0@) != i {
                        let j = self.index_of(self.nodes@[i as int].0@);
                        assert(j < i);
                        assert(self.nodes@[j].0@ == self.nodes@[i as int].0@);
                    }
                }
                return false;
            }
            i = i + 1;
        }
        proof {
            assert forall|a: int, b: int| 0 <= a < b < n implies self.nodes@[a].0@ != self.nodes@[b].0@ by {
                lemma_find_from(self.nodes@, self.nodes@[b].0@, 0);
                assert(self.index_of(self.nodes@[b].0@) == b);
            }
        }
        true
    }

    /// Finds the node named `name`: its index, or the number of nodes.
    pub fn find(&self, name: &String) -> (r: usize)
        ensures
            r == self.index_of(name@),
    {
        proof {
            lemma_find_from(self.nodes@, name@, 0);
        }
        let mut i: usize = 0;
        while i < self.nodes.len()
            invariant
                0 <= i <= self.nodes@.len(),
                find_from(self.nodes@, name@, 0) == find_from(self.nodes@, name@, i as int),
            decreases self.nodes@.len() - i,
        {
            if self.nodes[i].0 == *name {
                return i;
            }
            i = i + 1;
        }
        i
    }
}

} // verus!
