use vstd::prelude::*;
use rand::Rng;
use rand::rngs::ThreadRng;
use crate::model::{
    Chain, Link, weight_sum, lemma_find_from, links_sorted, lemma_links_sorted, lemma_lex_total, lex_less, SCALE,
};

verus! {

/// rand's per-thread generator, carried opaquely by the walk generator.
#[verifier::external_type_specification]
#[verifier::external_body]
pub struct ExThreadRng(rand::rngs::ThreadRng);

/// Relies on rand::thread_rng: it hands out the thread's generator and has no
/// other effect that the logic reads.
pub assume_specification[ rand::thread_rng ]() -> rand::rngs::ThreadRng;

/// Relies on rand::Rng::gen_range: a value drawn from `0..bound`, which it
/// requires to be non-empty.
#[verifier::external_body]
fn draw_below(rng: &mut ThreadRng, bound: u64) -> (r: u64)
    requires
        bound > 0,
    ensures
        r < bound,
{
    rng.gen_range(0..bound)
}

/// What one draw does to a walk.
#[derive(Debug, PartialEq, Eq)]
pub enum Step {
    /// No link was chosen (the draw lies past the total weight): draw again.
    Stay,
    /// The chosen link leads to the end sentinel: the walk is over.
    Finish,
    /// The chosen link leads to the node at this index.
    Move(usize),
}

/// The first link at or after `i` whose cumulative weight reaches `r`.
pub open spec fn pick_from(links: Seq<Link>, r: int, i: int) -> Option<int>
    decreases links.len() - i,
{
    if i < 0 || i >= links.len() {
        None
    } else if weight_sum(links.take(i + 1)) >= r {
        Some(i)
    } else {
        pick_from(links, r, i + 1)
    }
}

/// The link that a draw `r` chooses: the first whose cumulative weight reaches `r`.
pub open spec fn pick(links: Seq<Link>, r: int) -> Option<int> {
    pick_from(links, r, 0)
}

pub proof fn lemma_pick_from(links: Seq<Link>, r: int, i: int)
    requires
        0 <= i <= links.len(),
    ensures
        pick_from(links, r, i) matches Some(k) ==> i <= k < links.len(),
    decreases links.len() - i,
{
    if i < links.len() {
        lemma_pick_from(links, r, i + 1);
    }
}

/// The step that draw `r` makes from the node at index `cur`. In a model kept as
/// `Chain::wf` says, the links stand in ascending target order.
pub open spec fn step_of(c: &Chain, cur: int, r: int) -> Step {
    let links = c.nodes@[cur].1.links@;
    match pick(links, r) {
        None => Step::Stay,
        Some(i) => if links[i].next@ == c.end@ {
            Step::Finish
        } else {
            Step::Move(c.index_of(links[i].next@) as usize)
        },
    }
}

/// `links` hold a link to `t` of weight `w`.
pub open spec fn has_link(links: Seq<Link>, t: Seq<char>, w: u64) -> bool {
    exists|k: int| 0 <= k < links.len() && links[k].next@ == t && links[k].weight == w
}

/// Links kept in ascending target order are fixed by what they hold: two such
/// lists with the same targets and weights agree position by position.
pub proof fn lemma_sorted_links_canonical(a: Seq<Link>, b: Seq<Link>)
    requires
        links_sorted(a),
        links_sorted(b),
        forall|t: Seq<char>, w: u64| has_link(a, t, w) == has_link(b, t, w),
    ensures
        a.len() == b.len(),
        forall|k: int| 0 <= k < a.len() ==> a[k].next@ == b[k].next@ && a[k].weight == b[k].weight,
    decreases a.len(),
{
    if a.len() == 0 {
        if b.len() > 0 {
            assert(has_link(b, b[0].next@, b[0].weight));
        }
    } else if b.len() == 0 {
        assert(has_link(a, a[0].next@, a[0].weight));
    } else {
        assert(has_link(a, a[0].next@, a[0].weight));
        assert(has_link(b, b[0].next@, b[0].weight));
        let kb = choose|k: int| 0 <= k < b.len() && b[k].next@ == a[0].next@ && b[k].weight == a[0].weight;
        let ka = choose|k: int| 0 <= k < a.len() && a[k].next@ == b[0].next@ && a[k].weight == b[0].weight;
        lemma_lex_total(a[0].next@, b[0].next@);
        if kb > 0 {
            lemma_links_sorted(b, 0, kb);
        }
        if ka > 0 {
            lemma_links_sorted(a, 0, ka);
        }
        assert(a[0].next@ == b[0].next@ && a[0].weight == b[0].weight);
        let a1 = a.drop_first();
        let b1 = b.drop_first();
        assert forall|t: Seq<char>, w: u64| has_link(a1, t, w) == has_link(b1, t, w) by {
            if has_link(a1, t, w) {
                let k = choose|k: int| 0 <= k < a1.len() && a1[k].next@ == t && a1[k].weight == w;
                assert(has_link(a, t, w) && a[k + 1].next@ == t);
                lemma_links_sorted(a, 0, k + 1);
                lemma_lex_total(t, t);
                let j = choose|j: int| 0 <= j < b.len() && b[j].next@ == t && b[j].weight == w;
                assert(j != 0);
                assert(b1[j - 1].next@ == t && b1[j - 1].weight == w);
            }
            if has_link(b1, t, w) {
                let k = choose|k: int| 0 <= k < b1.len() && b1[k].next@ == t && b1[k].weight == w;
                assert(has_link(b, t, w) && b[k + 1].next@ == t);
                lemma_links_sorted(b, 0, k + 1);
                lemma_lex_total(t, t);
                let j = choose|j: int| 0 <= j < a.len() && a[j].next@ == t && a[j].weight == w;
                assert(j != 0);
                assert(a1[j - 1].next@ == t && a1[j - 1].weight == w);
            }
        }
        assert(links_sorted(a1)) by {
            assert forall|i: int| 0 < i < a1.len() implies lex_less(a1[i - 1].next@, #[trigger] a1[i].next@) by {
                assert(a[i + 1].next@ == a1[i].next@);
            }
        }
        assert(links_sorted(b1)) by {
            assert forall|i: int| 0 < i < b1.len() implies lex_less(b1[i - 1].next@, #[trigger] b1[i].next@) by {
                assert(b[i + 1].next@ == b1[i].next@);
            }
        }
        lemma_sorted_links_canonical(a1, b1);
        assert forall|k: int| 0 <= k < a.len() implies a[k].next@ == b[k].next@ && a[k].weight == b[k].weight by {
            if k > 0 {
                assert(a[k] == a1[k - 1] && b[k] == b1[k - 1]);
            }
        }
    }
}

proof fn lemma_pick_pointwise(a: Seq<Link>, b: Seq<Link>, r: int, i: int)
    requires
        a.len() == b.len(),
        forall|k: int| 0 <= k < a.len() ==> a[k].weight == b[k].weight,
        0 <= i <= a.len(),
    ensures
        pick_from(a, r, i) == pick_from(b, r, i),
    decreases a.len() - i,
{
    if i < a.len() {
        lemma_weight_sum_pointwise(a.take(i + 1), b.take(i + 1));
        lemma_pick_pointwise(a, b, r, i + 1);
    }
}

proof fn lemma_weight_sum_pointwise(a: Seq<Link>, b: Seq<Link>)
    requires
        a.len() == b.len(),
        forall|k: int| 0 <= k < a.len() ==> a[k].weight == b[k].weight,
    ensures
        weight_sum(a) == weight_sum(b),
    decreases a.len(),
{
    if a.len() > 0 {
        lemma_weight_sum_pointwise(a.drop_last(), b.drop_last());
    }
}

/// Two nodes whose links hold the same targets with the same weights, each kept
/// in ascending target order, choose the same target on every draw, however
/// their links were added.
pub proof fn lemma_same_links_same_choice(a: Seq<Link>, b: Seq<Link>, r: int)
    requires
        links_sorted(a),
        links_sorted(b),
        forall|t: Seq<char>, w: u64| has_link(a, t, w) == has_link(b, t, w),
    ensures
        pick(a, r) == pick(b, r),
        pick(a, r) matches Some(i) ==> a[i].next@ == b[i].next@,
{
    lemma_sorted_links_canonical(a, b);
    lemma_pick_pointwise(a, b, r, 0);
    lemma_pick_from(a, r, 0);
}

/// Index of the start node.
pub open spec fn start_index(c: &Chain) -> int {
    c.index_of(c.start@)
}

/// A walk's cursor and text after draw `r`, and the finished text if the walk ended.
/// A finished walk starts over at the start node.
pub open spec fn advance(c: &Chain, cur: int, text: Seq<char>, r: int) -> (
    int,
    Seq<char>,
    Option<Seq<char>>,
) {
    match step_of(c, cur, r) {
        Step::Stay => (cur, text, None),
        Step::Finish => (start_index(c), c.nodes@[start_index(c)].1.text@, Some(text)),
        Step::Move(j) => (j as int, text + c.nodes@[j as int].1.text@, None),
    }
}

/// The text of the walk that the draws complete, going on from the given cursor and
/// text; `None` where the draws run out first.
pub open spec fn walk_from(c: &Chain, cur: int, text: Seq<char>, draws: Seq<u64>) -> Option<
    Seq<char>,
>
    decreases draws.len(),
{
    if draws.len() == 0 {
        None
    } else {
        let (n, t, out) = advance(c, cur, text, draws[0] as int);
        match out {
            Some(s) => Some(s),
            None => walk_from(c, n, t, draws.drop_first()),
        }
    }
}

/// The text of a whole walk from the start node driven by `draws`.
pub open spec fn walk_of(c: &Chain, draws: Seq<u64>) -> Option<Seq<char>> {
    walk_from(c, start_index(c), c.nodes@[start_index(c)].1.text@, draws)
}

pub open spec fn text_of(o: Option<String>) -> Option<Seq<char>> {
    match o {
        Some(s) => Some(s@),
        None => None,
    }
}

/// Every step of a valid model lands on a defined node, never on the end
/// sentinel: a walk emits only the texts of defined nodes.
pub proof fn lemma_step_stays_in_nodes(c: &Chain, cur: int, r: int)
    requires
        c.valid(),
        0 <= cur < c.nodes@.len(),
        c.nodes@.len() <= usize::MAX,
    ensures
        step_of(c, cur, r) matches Step::Move(j) ==> j < c.nodes@.len() && c.nodes@[j as int].0@
            != c.end@,
{
    let links = c.nodes@[cur].1.links@;
    lemma_pick_from(links, r, 0);
    assert(c.node_ok(c.nodes@[cur].1));
    if let Some(i) = pick(links, r) {
        assert(c.link_defined(links[i].next@));
        lemma_find_from(c.nodes@, links[i].next@, 0);
    }
}

/// The walk that a sequence of draws drives is determined by the model and the
/// draws alone.
pub proof fn lemma_walk_reproducible(c1: &Chain, c2: &Chain, d1: Seq<u64>, d2: Seq<u64>)
    requires
        c1.nodes@ == c2.nodes@,
        c1.start@ == c2.start@,
        c1.end@ == c2.end@,
        d1 == d2,
    ensures
        walk_of(c1, d1) == walk_of(c2, d2),
{
    assert(walk_of(c1, d1) == walk_of(c2, d2)) by {
        lemma_walk_from_same(c1, c2, start_index(c1), c1.nodes@[start_index(c1)].1.text@, d1);
    }
}

proof fn lemma_walk_from_same(c1: &Chain, c2: &Chain, cur: int, text: Seq<char>, d: Seq<u64>)
    requires
        c1.nodes@ == c2.nodes@,
        c1.start@ == c2.start@,
        c1.end@ == c2.end@,
    ensures
        walk_from(c1, cur, text, d) == walk_from(c2, cur, text, d),
    decreases d.len(),
{
    if d.len() > 0 {
        let (n, t, out) = advance(c1, cur, text, d[0] as int);
        lemma_walk_from_same(c1, c2, n, t, d.drop_first());
    }
}

impl Chain {
    /// The link of `links` that draw `r` chooses.
    fn pick_link(links: &Vec<Link>, r: u64) -> (res: Option<usize>)
        ensures
            match res {
                Some(i) => pick(links@, r as int) == Some(i as int),
                None => pick(links@, r as int) is None,
            },
    {
        let mut acc: u64 = 0;
        let mut i: usize = 0;
        while i < links.len()
            invariant
                i <= links@.len(),
                acc == weight_sum(links@.take(i as int)),
                acc <= r,
                pick(links@, r as int) == pick_from(links@, r as int, i as int),
            decreases links@.len() - i,
        {
            let w = links[i].weight;
            assert(links@.take(i + 1).drop_last() =~= links@.take(i as int));
            if w >= r - acc {
                return Some(i);
            }
            acc = acc + w;
            i = i + 1;
        }
        None
    }

    /// The step that draw `r` makes from the node at index `cur`: the links are
    /// taken in ascending target order, which `wf` keeps them in.
    pub fn transition(&self, cur: usize, r: u64) -> (s: Step)
        requires
            self.wf(),
            cur < self.nodes@.len(),
        ensures
            s == step_of(self, cur as int, r as int),
    {
        let links = &self.nodes[cur].1.links;
        match Chain::pick_link(links, r) {
            None => Step::Stay,
            Some(i) => {
                proof {
                    lemma_pick_from(links@, r as int, 0);
                }
                let target = &links[i].next;
                if *target == self.end {
                    Step::Finish
                } else {
                    Step::Move(self.find(target))
                }
            },
        }
    }

    /// Applies draw `r` to a walk at node `cur` that has emitted `text`.
    fn advance_walk(&self, cur: usize, text: String, r: u64) -> (res: (usize, String, Option<String>))
        requires
            self.wf(),
            self.valid(),
            cur < self.nodes@.len(),
        ensures
            res.0 < self.nodes@.len(),
            (res.0 as int, res.1@, text_of(res.2)) == advance(self, cur as int, text@, r as int),
    {
        let n = self.nodes.len();
        proof {
            assert(n == self.nodes@.len());
            lemma_step_stays_in_nodes(self, cur as int, r as int);
            lemma_find_from(self.nodes@, self.start@, 0);
        }
        match self.transition(cur, r) {
            Step::Stay => (cur, text, None),
            Step::Finish => {
                let s = self.find(&self.start);
                (s, self.nodes[s].1.text.clone(), Some(text))
            },
            Step::Move(j) => {
                let t = text.concat(self.nodes[j].1.text.as_str());
                (j, t, None)
            },
        }
    }

    /// The text of one walk from the start node, each step chosen by the next of
    /// `draws`; `None` where the draws run out before the walk reaches the end.
    /// Links are taken in ascending target order.
    pub fn walk(&self, draws: &Vec<u64>) -> (r: Option<String>)
        requires
            self.wf(),
            self.valid(),
        ensures
            text_of(r) == walk_of(self, draws@),
    {
        proof {
            lemma_find_from(self.nodes@, self.start@, 0);
        }
        let mut cur = self.find(&self.start);
        let mut text = self.nodes[cur].1.text.clone();
        let mut i: usize = 0;
        assert(draws@.skip(0) =~= draws@);
        while i < draws.len()
            invariant
                self.wf(),
                self.valid(),
                i <= draws@.len(),
                cur < self.nodes@.len(),
                walk_of(self, draws@) == walk_from(self, cur as int, text@, draws@.skip(i as int)),
            decreases draws@.len() - i,
        {
            assert(draws@.skip(i as int).drop_first() =~= draws@.skip(i + 1));
            let (n, t, out) = self.advance_walk(cur, text, draws[i]);
            if out.is_some() {
                return out;
            }
            cur = n;
            text = t;
            i = i + 1;
        }
        None
    }
}

/// An endless source of walks over a valid model: the model, the node the current
/// walk stands at, the text it has emitted so far, and its own randomness.
pub struct ChainIter {
    chain: Chain,
    current: usize,
    text: String,
    rng: ThreadRng,
}

impl ChainIter {
    /// The model the walks run over.
    pub closed spec fn model(&self) -> Chain {
        self.chain
    }

    /// Index of the node the current walk stands at.
    pub closed spec fn cursor(&self) -> int {
        self.current as int
    }

    /// The text the current walk has emitted so far.
    pub closed spec fn emitted(&self) -> Seq<char> {
        self.text@
    }

    /// The model is kept in order and valid, and the cursor stands at one of its
    /// nodes.
    pub open spec fn wf(&self) -> bool {
        &&& self.model().wf()
        &&& self.model().valid()
        &&& 0 <= self.cursor() < self.model().nodes@.len()
    }

    /// Applies draw `r`, a value in `0..SCALE` standing for a uniform value in
    /// `[0, 1)`: returns the walk's text where the draw ends it, and starts the next
    /// walk at the start node.
    pub fn feed(&mut self, r: u64) -> (out: Option<String>)
        requires
            old(self).wf(),
        ensures
            final(self).wf(),
            final(self).model() == old(self).model(),
            (final(self).cursor(), final(self).emitted(), text_of(out)) == advance(
                &old(self).model(),
                old(self).cursor(),
                old(self).emitted(),
                r as int,
            ),
    {
        let mut text = String::new();
        std::mem::swap(&mut text, &mut self.text);
        let (n, t, out) = self.chain.advance_walk(self.current, text, r);
        self.current = n;
        self.text = t;
        out
    }

    /// Draws one value from the generator's randomness and applies it as `feed`
    /// does.
    pub fn step(&mut self) -> (out: Option<String>)
        requires
            old(self).wf(),
        ensures
            final(self).wf(),
            final(self).model() == old(self).model(),
            exists|r: int|
                0 <= r < SCALE && (final(self).cursor(), final(self).emitted(), text_of(out))
                    == advance(&old(self).model(), old(self).cursor(), old(self).emitted(), r),
    {
        let ghost before = *self;
        let r = draw_below(&mut self.rng, SCALE);
        proof {
            assert(self.model() == before.model() && self.cursor() == before.cursor()
                && self.emitted() == before.emitted());
        }
        let out = self.feed(r);
        assert(0 <= r < SCALE && (self.cursor(), self.emitted(), text_of(out)) == advance(
            &before.model(),
            before.cursor(),
            before.emitted(),
            r as int,
        ));
        out
    }
}

impl Chain {
    /// Hands a valid model to a generator of walks, which starts at the start node.
    pub fn into_iter(self) -> (it: ChainIter)
        requires
            self.wf(),
            self.valid(),
        ensures
            it.wf(),
            it.model() == self,
            it.cursor() == start_index(&self),
            it.emitted() == self.nodes@[start_index(&self)].1.text@,
    {
        proof {
            lemma_find_from(self.nodes@, self.start@, 0);
        }
        let current = self.find(&self.start);
        let text = self.nodes[current].1.text.clone();
        ChainIter { chain: self, current, text, rng: rand::thread_rng() }
    }
}

} // verus!
