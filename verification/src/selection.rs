//! The random choices that the genetic operators make, as traits: the
//! operators decide what to do with each outcome, an implementation draws the
//! outcomes (with the probabilities and selection pressure of its parameters).
use vstd::prelude::*;
use crate::real_key::RealKey;

verus! {

/// The random choices of crossover. `R` is the rescaling kept at each path
/// node, `P` the crossover parameters.
pub trait CrossoverChoices<R, P> {
    /// The parameters at a path node: `params` rescaled by the node's
    /// rescaling.
    fn rescale(&self, rescaling: &R, params: &P) -> P;

    /// Whether to cross over the parts of an inner node, rather than take the
    /// node of one individual whole.
    fn decide_to_crossover(&mut self, params: &P) -> bool;

    /// A position among `n` candidates that are ordered best first.
    fn select(&mut self, params: &P, n: usize) -> usize;

    /// The keys in random order.
    fn shuffle(&mut self, keys: Vec<usize>) -> Vec<usize>;
}

/// The random choices of mutation. `R` is the rescaling kept at each path
/// node, `P` the mutation parameters.
pub trait MutationChoices<R, P> {
    /// The parameters at a path node: `params` rescaled by the node's
    /// rescaling.
    fn rescale(&self, rescaling: &R, params: &P) -> P;

    /// Whether to mutate a node (with the mutation probability).
    fn decide_to_mutate(&mut self, params: &P) -> bool;

    /// A fair coin.
    fn flip_coin(&mut self) -> bool;

    /// A position among `n` candidates, all equally likely.
    fn pick(&mut self, n: usize) -> usize;

    /// A real drawn around `value` with the given scale (before bounds).
    fn sample_real(&mut self, value: RealKey, scale: RealKey, params: &P) -> RealKey;

    /// An integer drawn around `value` with the given scale (before bounds).
    fn sample_int(&mut self, value: i64, scale: RealKey, params: &P) -> i64;
}

/// Operator parameters at a node of the path tree: their value, and the
/// rescalings (one per path node, from the root down) through which they
/// were made from the parameters that the operator was given. Only the
/// functions below make them, each by one rescaling with the choices.
#[verifier::reject_recursive_types(R)]
#[verifier::reject_recursive_types(P)]
pub struct Scaled<R, P> {
    params: P,
    rescalings: Ghost<Seq<R>>,
}

impl<R, P> Scaled<R, P> {
    /// The rescalings that made these parameters, from the root down.
    pub closed spec fn rescalings(&self) -> Seq<R> {
        self.rescalings@
    }

    /// The parameters.
    pub fn params(&self) -> &P {
        &self.params
    }

    /// The parameters that mutation is given, rescaled by the root's
    /// rescaling.
    pub fn at_root_for_mutation<C: MutationChoices<R, P>>(choices: &C, rescaling: &R, params: &P) -> (r: Scaled<R, P>)
        ensures
            r.rescalings() == seq![*rescaling],
    {
        let ghost g: Seq<R> = seq![*rescaling];
        let p = choices.rescale(rescaling, params);
        Scaled { params: p, rescalings: Ghost(g) }
    }

    /// These parameters rescaled by a child's rescaling, for mutation there.
    pub fn rescaled_for_mutation<C: MutationChoices<R, P>>(&self, choices: &C, rescaling: &R) -> (r: Scaled<R, P>)
        ensures
            r.rescalings() == self.rescalings().push(*rescaling),
    {
        let ghost g: Seq<R> = self.rescalings@.push(*rescaling);
        let p = choices.rescale(rescaling, &self.params);
        Scaled { params: p, rescalings: Ghost(g) }
    }

    /// The parameters that crossover is given, rescaled by the root's
    /// rescaling.
    pub fn at_root_for_crossover<C: CrossoverChoices<R, P>>(choices: &C, rescaling: &R, params: &P) -> (r: Scaled<R, P>)
        ensures
            r.rescalings() == seq![*rescaling],
    {
        let ghost g: Seq<R> = seq![*rescaling];
        let p = choices.rescale(rescaling, params);
        Scaled { params: p, rescalings: Ghost(g) }
    }

    /// These parameters rescaled by a child's rescaling, for crossover there.
    pub fn rescaled_for_crossover<C: CrossoverChoices<R, P>>(&self, choices: &C, rescaling: &R) -> (r: Scaled<R, P>)
        ensures
            r.rescalings() == self.rescalings().push(*rescaling),
    {
        let ghost g: Seq<R> = self.rescalings@.push(*rescaling);
        let p = choices.rescale(rescaling, &self.params);
        Scaled { params: p, rescalings: Ghost(g) }
    }
}

/// One answer that the random choices of the algorithm, crossover or
/// mutation gave, as they were used.
#[derive(Clone, Copy, Debug, PartialEq, Eq, Structural)]
pub enum Draw {
    /// Whether to mutate a node.
    Decide(bool),
    /// A fair coin.
    Coin(bool),
    /// A position among the number of candidates handed (first), as
    /// answered (second, before it is moved into range).
    Pick(usize, usize),
    /// A real drawn around a value.
    Real(RealKey),
    /// An integer drawn around a value.
    Int(i64),
    /// Whether to cross over the parts of an inner node.
    Cross(bool),
    /// A position among the number of candidates handed (first), ordered
    /// best first, as answered (second, before it is moved into range).
    Select(usize, usize),
    /// A key of anon maps, in the (shuffled) order in which crossover
    /// considers them.
    Order(usize),
    /// Whether to evaluate a promising individual once more.
    Reeval(bool),
    /// Whether to try exploratory meta parameters.
    Explore(bool),
    /// A position among the number of sets of meta parameters handed
    /// (first), ordered best first, as answered (second, before it is moved
    /// into range).
    MetaPick(usize, usize),
    /// Whether to mutate the selected meta parameters.
    MetaMutate(bool),
}

/// The answers that the random choices gave, in the order in which they were
/// drawn. Only the drawing functions of this module add to it.
pub struct DrawLog {
    draws: Vec<Draw>,
}

impl View for DrawLog {
    type V = Seq<Draw>;

    closed spec fn view(&self) -> Seq<Draw> {
        self.draws@
    }
}

impl DrawLog {
    /// Adds an answer at the end.
    pub(crate) fn record(&mut self, d: Draw)
        ensures
            final(self)@ == old(self)@.push(d),
            extends(old(self)@, final(self)@),
    {
        self.draws.push(d);
        assert(self.draws@.take(old(self)@.len() as int) =~= old(self)@);
    }

    /// An empty log.
    pub fn new() -> (r: DrawLog)
        ensures
            r@ == Seq::<Draw>::empty(),
    {
        DrawLog { draws: Vec::new() }
    }

    /// The number of answers logged.
    pub fn len(&self) -> (r: usize)
        ensures
            r == self@.len(),
    {
        self.draws.len()
    }

    /// The answer logged at a position.
    pub fn get(&self, i: usize) -> (r: Draw)
        requires
            i < self@.len(),
        ensures
            r == self@[i as int],
    {
        self.draws[i]
    }
}

/// Whether `after` is `before` with more answers at its end.
pub open spec fn extends(before: Seq<Draw>, after: Seq<Draw>) -> bool {
    after.len() >= before.len() && after.take(before.len() as int) == before
}

/// The answers drawn since the log was `before`.
pub open spec fn drawn_since(before: Seq<Draw>, after: Seq<Draw>) -> Seq<Draw> {
    after.skip(before.len() as int)
}

/// Position `i` moved to below `n`: an out-of-range answer counts as the
/// last position.
pub open spec fn clamp_position(i: usize, n: int) -> int {
    if i < n {
        i as int
    } else {
        n - 1
    }
}

/// Logs extend one another in turn.
pub proof fn lemma_extends_trans(a: Seq<Draw>, b: Seq<Draw>, c: Seq<Draw>)
    requires
        extends(a, b),
        extends(b, c),
    ensures
        extends(a, c),
        drawn_since(a, c) == drawn_since(a, b) + drawn_since(b, c),
{
    assert(c.take(a.len() as int) =~= c.take(b.len() as int).take(a.len() as int));
    assert(drawn_since(a, c) =~= drawn_since(a, b) + drawn_since(b, c)) by {
        assert forall|j: int| 0 <= j < drawn_since(a, c).len() implies drawn_since(a, c)[j] == (drawn_since(a, b) + drawn_since(b, c))[j] by {
            if j < b.len() - a.len() {
                assert(c[a.len() + j] == c.take(b.len() as int)[a.len() + j]);
            }
        }
    }
}

/// A log extends itself; with one more answer, it starts with that answer.
pub proof fn lemma_first_drawn(a: Seq<Draw>, x: Draw, c: Seq<Draw>)
    requires
        extends(a.push(x), c),
    ensures
        extends(a, c),
        drawn_since(a, c).len() >= 1,
        drawn_since(a, c)[0] == x,
        drawn_since(a, c) == seq![x] + drawn_since(a.push(x), c),
{
    assert(extends(a, a.push(x))) by {
        assert(a.push(x).take(a.len() as int) =~= a);
    }
    lemma_extends_trans(a, a.push(x), c);
    assert(drawn_since(a, a.push(x)) =~= seq![x]);
}

/// A log extends itself.
pub proof fn lemma_extends_refl(a: Seq<Draw>)
    ensures
        extends(a, a),
        drawn_since(a, a) == Seq::<Draw>::empty(),
{
    assert(a.take(a.len() as int) =~= a);
    assert(drawn_since(a, a) =~= Seq::<Draw>::empty());
}

/// Whether to cross over the parts of an inner node, as the choices decide;
/// the answer is logged.
pub fn draw_crossover_decision<R, P, C: CrossoverChoices<R, P>>(choices: &mut C, params: &P, log: &mut DrawLog) -> (r: bool)
    ensures
        final(log)@ == old(log)@.push(Draw::Cross(r)),
        extends(old(log)@, final(log)@),
{
    let r = choices.decide_to_crossover(params);
    log.draws.push(Draw::Cross(r));
    assert(log.draws@.take(old(log)@.len() as int) =~= old(log)@);
    r
}

/// A position below `n` picked by `select`; an out-of-range answer counts as
/// the last position. The answer is logged.
pub fn select_position<R, P, C: CrossoverChoices<R, P>>(choices: &mut C, params: &P, n: usize, log: &mut DrawLog) -> (r: usize)
    requires
        n > 0,
    ensures
        final(log)@.len() == old(log)@.len() + 1,
        final(log)@.drop_last() == old(log)@,
        final(log)@.last() matches Draw::Select(m, i) && m == n && r == clamp_position(i, n as int),
        extends(old(log)@, final(log)@),
{
    let i = choices.select(params, n);
    log.draws.push(Draw::Select(n, i));
    proof {
        assert(log.draws@.drop_last() =~= old(log)@);
        assert(log.draws@.take(old(log)@.len() as int) =~= old(log)@);
    }
    if i < n {
        i
    } else {
        n - 1
    }
}

/// Whether to mutate a node, as the choices decide; the answer is logged.
pub fn draw_decision<R, P, C: MutationChoices<R, P>>(choices: &mut C, params: &P, log: &mut DrawLog) -> (r: bool)
    ensures
        final(log)@ == old(log)@.push(Draw::Decide(r)),
        extends(old(log)@, final(log)@),
{
    let r = choices.decide_to_mutate(params);
    log.draws.push(Draw::Decide(r));
    assert(log.draws@.take(old(log)@.len() as int) =~= old(log)@);
    r
}

/// A fair coin, as the choices flip it; the answer is logged.
pub fn draw_coin<R, P, C: MutationChoices<R, P>>(choices: &mut C, log: &mut DrawLog) -> (r: bool)
    ensures
        final(log)@ == old(log)@.push(Draw::Coin(r)),
        extends(old(log)@, final(log)@),
{
    let r = choices.flip_coin();
    log.draws.push(Draw::Coin(r));
    assert(log.draws@.take(old(log)@.len() as int) =~= old(log)@);
    r
}

/// A real drawn around `value`; the answer is logged.
pub fn draw_real<R, P, C: MutationChoices<R, P>>(choices: &mut C, value: RealKey, scale: RealKey, params: &P, log: &mut DrawLog) -> (r: RealKey)
    ensures
        final(log)@ == old(log)@.push(Draw::Real(r)),
        extends(old(log)@, final(log)@),
{
    let r = choices.sample_real(value, scale, params);
    log.draws.push(Draw::Real(r));
    assert(log.draws@.take(old(log)@.len() as int) =~= old(log)@);
    r
}

/// An integer drawn around `value`; the answer is logged.
pub fn draw_int<R, P, C: MutationChoices<R, P>>(choices: &mut C, value: i64, scale: RealKey, params: &P, log: &mut DrawLog) -> (r: i64)
    ensures
        final(log)@ == old(log)@.push(Draw::Int(r)),
        extends(old(log)@, final(log)@),
{
    let r = choices.sample_int(value, scale, params);
    log.draws.push(Draw::Int(r));
    assert(log.draws@.take(old(log)@.len() as int) =~= old(log)@);
    r
}

/// A position below `n` picked by `pick`; an out-of-range answer counts as
/// the last position. The answer is logged.
pub fn choose_position<R, P, C: MutationChoices<R, P>>(choices: &mut C, n: usize, log: &mut DrawLog) -> (r: usize)
    requires
        n > 0,
    ensures
        final(log)@.len() == old(log)@.len() + 1,
        final(log)@.drop_last() == old(log)@,
        final(log)@.last() matches Draw::Pick(m, i) && m == n && r == clamp_position(i, n as int),
        extends(old(log)@, final(log)@),
{
    let i = choices.pick(n);
    log.draws.push(Draw::Pick(n, i));
    proof {
        assert(log.draws@.drop_last() =~= old(log)@);
        assert(log.draws@.take(old(log)@.len() as int) =~= old(log)@);
    }
    if i < n {
        i
    } else {
        n - 1
    }
}

} // verus!
