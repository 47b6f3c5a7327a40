use vstd::prelude::*;

use rand::Rng;

use crate::catalog::{catalog_wf, index_categories, load_pool, CachedCategory};
use crate::category::{category_at, lemma_ordinal_injective, ordinal_of, Category, CATEGORY_COUNT};
use crate::error::TriviaError;
use crate::parser::models;
use crate::question::{Question, QuestionModel};

verus! {

/// How the index of the served question is chosen.
#[derive(Debug, Clone, Copy, PartialEq, Eq, Structural)]
pub enum Seeding {
    /// An index drawn uniformly at random.
    Random,
    /// The given index, reduced modulo the pool size.
    Specific(usize),
}

/// A trivia session: the catalog, whether questions may repeat, and the
/// questions already served when they may not.
#[derive(Debug)]
pub struct TriviaContext {
    /// Whether or not questions may repeat
    pub repeat_questions: bool,
    categories: Vec<CachedCategory>,
    spent_questions: Vec<Question>,
}

/// Mathematical state of a session.
pub struct ContextModel {
    pub repeat: bool,
    /// One pool per category, indexed by the category's ordinal.
    pub pools: Seq<Seq<QuestionModel>>,
    /// Questions served so far, in serving order (always empty when
    /// repeats are allowed).
    pub spent: Seq<QuestionModel>,
}

impl ContextModel {
    pub open spec fn pool(self, c: Category) -> Seq<QuestionModel> {
        self.pools[ordinal_of(c) as int]
    }
}

/// The pools of a catalog, in catalog order.
pub open spec fn pools_of(cats: Seq<CachedCategory>) -> Seq<Seq<QuestionModel>> {
    cats.map_values(|c: CachedCategory| models(c.questions@))
}

impl View for TriviaContext {
    type V = ContextModel;

    closed spec fn view(&self) -> ContextModel {
        ContextModel {
            repeat: self.repeat_questions,
            pools: pools_of(self.categories@),
            spent: models(self.spent_questions@),
        }
    }
}

/// Every question of `pool` has been served.
pub open spec fn exhausted(pool: Seq<QuestionModel>, spent: Seq<QuestionModel>) -> bool {
    forall|j: int| 0 <= j < pool.len() ==> spent.contains(#[trigger] pool[j])
}

/// Scans the pool forward from `idx`, wrapping from the last index to the
/// first, for at most `fuel` positions; the first index whose question has
/// not been served.
pub open spec fn scan_unspent(
    pool: Seq<QuestionModel>,
    spent: Seq<QuestionModel>,
    start: int,
    k: int,
) -> Option<int>
    decreases pool.len() - k,
{
    if k >= pool.len() || k < 0 {
        None
    } else {
        let idx = (start + k) % (pool.len() as int);
        if !spent.contains(pool[idx]) {
            Some(idx)
        } else {
            scan_unspent(pool, spent, start, k + 1)
        }
    }
}

/// The indices among the first `n` of `pool` whose question has not been
/// served, ascending.
pub open spec fn unspent_upto(pool: Seq<QuestionModel>, spent: Seq<QuestionModel>, n: int) -> Seq<
    int,
>
    decreases n,
{
    if n <= 0 {
        Seq::empty()
    } else if spent.contains(pool[n - 1]) {
        unspent_upto(pool, spent, n - 1)
    } else {
        unspent_upto(pool, spent, n - 1).push(n - 1)
    }
}

pub open spec fn unspent_indices(pool: Seq<QuestionModel>, spent: Seq<QuestionModel>) -> Seq<int> {
    unspent_upto(pool, spent, pool.len() as int)
}

/// The outcome common to every request for a question of category `c`:
/// with repeats allowed, some question of the pool and no change; without,
/// an unserved question of the pool, which is recorded as served, or, when
/// none is left, `PoolExhausted` and no change.
pub open spec fn serve_step(
    before: ContextModel,
    after: ContextModel,
    c: Category,
    r: Result<QuestionModel, TriviaError>,
) -> bool {
    &&& after.repeat == before.repeat
    &&& after.pools == before.pools
    &&& if before.repeat {
        &&& r is Ok
        &&& before.pool(c).contains(r->Ok_0)
        &&& after.spent == before.spent
    } else {
        match r {
            Ok(q) => {
                &&& before.pool(c).contains(q)
                &&& !before.spent.contains(q)
                &&& after.spent == before.spent.push(q)
            },
            Err(e) => {
                &&& e == TriviaError::PoolExhausted { category: c }
                &&& exhausted(before.pool(c), before.spent)
                &&& after == before
            },
        }
    }
}

/// The index served for `Specific(n)`: `n` modulo the pool size, or,
/// without repeats, the first unserved index from there on.
pub open spec fn specific_pick(m: ContextModel, c: Category, n: int) -> Option<int> {
    let pool = m.pool(c);
    if m.repeat {
        Some(n % (pool.len() as int))
    } else {
        scan_unspent(pool, m.spent, n % (pool.len() as int), 0)
    }
}

/// The index served for a drawn number `d`: `d` modulo the pool size, or,
/// without repeats, the unserved index at position `d` modulo their count.
pub open spec fn drawn_pick(m: ContextModel, c: Category, d: int) -> Option<int> {
    let pool = m.pool(c);
    let u = unspent_indices(pool, m.spent);
    if m.repeat {
        Some(d % (pool.len() as int))
    } else if u.len() == 0 {
        None
    } else {
        Some(u[d % (u.len() as int)])
    }
}

pub open spec fn result_model(r: Result<Question, TriviaError>) -> Result<QuestionModel, TriviaError> {
    match r {
        Ok(q) => Ok(q@),
        Err(e) => Err(e),
    }
}

/// The served question at a picked index, or exhaustion when none is picked.
pub open spec fn picked_result(m: ContextModel, c: Category, pick: Option<int>) -> Result<
    QuestionModel,
    TriviaError,
> {
    match pick {
        Some(i) => Ok(m.pool(c)[i]),
        None => Err(TriviaError::PoolExhausted { category: c }),
    }
}

/// A complete catalog has, for every category, its own non-empty entry at
/// the category's ordinal.
pub proof fn lemma_catalog_total(cats: Seq<CachedCategory>)
    requires
        catalog_wf(cats),
    ensures
        forall|c: Category|
            {
                &&& (#[trigger] cats[ordinal_of(c) as int]).category == c
                &&& cats[ordinal_of(c) as int].questions.len() > 0
            },
{
    assert forall|c: Category|
        {
            &&& (#[trigger] cats[ordinal_of(c) as int]).category == c
            &&& cats[ordinal_of(c) as int].questions.len() > 0
        } by {
        lemma_ordinal_injective(c, c);
    }
}

/// No unserved index is left exactly when the pool is exhausted.
proof fn lemma_unspent_upto(pool: Seq<QuestionModel>, spent: Seq<QuestionModel>, n: int)
    requires
        0 <= n <= pool.len(),
    ensures
        forall|k: int|
            0 <= k < unspent_upto(pool, spent, n).len() ==> {
                &&& 0 <= #[trigger] unspent_upto(pool, spent, n)[k] < n
                &&& !spent.contains(pool[unspent_upto(pool, spent, n)[k]])
            },
        unspent_upto(pool, spent, n).len() == 0 <==> forall|j: int|
            0 <= j < n ==> spent.contains(#[trigger] pool[j]),
    decreases n,
{
    if n > 0 {
        lemma_unspent_upto(pool, spent, n - 1);
        if unspent_upto(pool, spent, n).len() == 0 {
            assert forall|j: int| 0 <= j < n implies spent.contains(#[trigger] pool[j]) by {
                if j < n - 1 {
                    assert(spent.contains(pool[j]));
                }
            }
        }
    }
}

/// Scanning from offset `k0` finds an unserved index when one lies at an
/// offset `k` at or after `k0`.
proof fn lemma_scan_finds(pool: Seq<QuestionModel>, spent: Seq<QuestionModel>, start: int, k0: int, k: int)
    requires
        0 <= k0 <= k < pool.len(),
        !spent.contains(pool[(start + k) % (pool.len() as int)]),
    ensures
        scan_unspent(pool, spent, start, k0) is Some,
    decreases k - k0,
{
    if k0 < k && spent.contains(pool[(start + k0) % (pool.len() as int)]) {
        lemma_scan_finds(pool, spent, start, k0 + 1, k);
    }
}

/// An exhausted pool leaves the scan nothing to find.
proof fn lemma_scan_exhausted(pool: Seq<QuestionModel>, spent: Seq<QuestionModel>, start: int, k: int)
    requires
        exhausted(pool, spent),
        pool.len() > 0,
    ensures
        scan_unspent(pool, spent, start, k) is None,
    decreases pool.len() - k,
{
    if 0 <= k < pool.len() {
        let idx = (start + k) % (pool.len() as int);
        assert(spent.contains(pool[idx]));
        lemma_scan_exhausted(pool, spent, start, k + 1);
    }
}

/// Whether `q` has been served already.
fn is_spent(spent: &Vec<Question>, q: &Question) -> (r: bool)
    ensures
        r == models(spent@).contains(q@),
{
    let mut i: usize = 0;
    while i < spent.len()
        invariant
            i <= spent.len(),
            forall|j: int| 0 <= j < i ==> spent@[j]@ != q@,
        decreases spent.len() - i,
    {
        if spent[i] == *q {
            assert(models(spent@)[i as int] == q@);
            return true;
        }
        i = i + 1;
    }
    assert(!models(spent@).contains(q@)) by {
        if models(spent@).contains(q@) {
            let j = choose|j: int| 0 <= j < spent.len() && models(spent@)[j] == q@;
            assert(spent@[j]@ == q@);
        }
    }
    false
}

/// The indices of `pool` whose question has not been served, ascending.
fn unspent_indices_of(pool: &Vec<Question>, spent: &Vec<Question>) -> (r: Vec<usize>)
    ensures
        r@.map_values(|i: usize| i as int) == unspent_indices(models(pool@), models(spent@)),
{
    let ghost p = models(pool@);
    let ghost s = models(spent@);
    let mut r: Vec<usize> = Vec::new();
    let mut j: usize = 0;
    while j < pool.len()
        invariant
            j <= pool.len(),
            p == models(pool@),
            s == models(spent@),
            r@.map_values(|i: usize| i as int) == unspent_upto(p, s, j as int),
        decreases pool.len() - j,
    {
        let ghost before = r@;
        if !is_spent(spent, &pool[j]) {
            r.push(j);
            assert(r@.map_values(|i: usize| i as int) =~= before.map_values(|i: usize| i as int).push(
                j as int,
            ));
        }
        j = j + 1;
    }
    r
}

/// The first unserved index scanning forward from `start` with wrap-around.
fn first_unspent_from(pool: &Vec<Question>, spent: &Vec<Question>, start: usize) -> (r: usize)
    requires
        start < pool.len(),
        !exhausted(models(pool@), models(spent@)),
    ensures
        Some(r as int) == scan_unspent(models(pool@), models(spent@), start as int, 0),
        r < pool.len(),
        !models(spent@).contains(models(pool@)[r as int]),
{
    let ghost p = models(pool@);
    let ghost s = models(spent@);
    let len = pool.len();
    proof {
        let j = choose|j: int| 0 <= j < p.len() && !s.contains(p[j]);
        let k = if j >= start { j - start } else { j - start + len };
        assert((start + k) % (len as int) == j) by (nonlinear_arith)
            requires
                0 <= j < len,
                0 <= start < len,
                k == if j >= start { j - start } else { j - start + len },
        ;
        lemma_scan_finds(p, s, start as int, 0, k);
    }
    let mut k: usize = 0;
    loop
        invariant
            k < len == pool.len(),
            start < len,
            p == models(pool@),
            s == models(spent@),
            scan_unspent(p, s, start as int, 0) == scan_unspent(p, s, start as int, k as int),
            scan_unspent(p, s, start as int, k as int) is Some,
        decreases len - k,
    {
        let idx = if k < len - start {
            start + k
        } else {
            k - (len - start)
        };
        assert(idx == (start + k) % (len as int)) by (nonlinear_arith)
            requires
                k < len,
                start < len,
                idx == if k < len - start { start + k } else { k - (len - start) },
        ;
        if !is_spent(spent, &pool[idx]) {
            assert(p[idx as int] == pool@[idx as int]@);
            return idx;
        }
        k = k + 1;
    }
}

/// Relies on `rand::thread_rng` and `rand::Rng::gen_range`: a number drawn
/// from `0..n`, which must not be empty.
#[verifier::external_body]
fn random_below(n: usize) -> (r: usize)
    requires
        n > 0,
    ensures
        r < n,
{
    rand::thread_rng().gen_range(0..n)
}

impl TriviaContext {
    /// The session invariant: a complete catalog, nothing recorded as
    /// served when repeats are allowed, and no question served twice.
    pub closed spec fn wf(&self) -> bool {
        &&& catalog_wf(self.categories@)
        &&& self.repeat_questions ==> self.spent_questions.len() == 0
        &&& models(self.spent_questions@).no_duplicates()
    }

    /// Every category has a non-empty pool in a well-formed session.
    pub proof fn lemma_pools_nonempty(&self)
        requires
            self.wf(),
        ensures
            self@.pools.len() == CATEGORY_COUNT,
            forall|c: Category| (#[trigger] self@.pool(c)).len() > 0,
    {
        lemma_catalog_total(self.categories@);
        assert forall|c: Category| (#[trigger] self@.pool(c)).len() > 0 by {
            lemma_ordinal_injective(c, c);
            assert(self.categories@[ordinal_of(c) as int].questions.len() > 0);
        }
    }

    /// Whether questions may be served more than once.
    pub fn allows_repeats(&self) -> (r: bool)
        ensures
            r == self@.repeat,
    {
        self.repeat_questions
    }

    /// A session over the catalog built from `resources` (see
    /// `index_categories`), with nothing served yet.
    pub fn new(repeat_questions: bool, resources: &[String; 20]) -> (r: Result<TriviaContext, TriviaError>)
        ensures
            match r {
                Ok(ctx) => {
                    &&& ctx.wf()
                    &&& ctx@.repeat == repeat_questions
                    &&& ctx@.spent.len() == 0
                    &&& ctx@.pools.len() == CATEGORY_COUNT
                    &&& forall|i: int|
                        0 <= i < CATEGORY_COUNT ==> load_pool(resources@[i]@, category_at(i))
                            == Ok::<Seq<QuestionModel>, TriviaError>(#[trigger] ctx@.pools[i])
                    &&& forall|c: Category| (#[trigger] ctx@.pool(c)).len() > 0
                },
                Err(e) => exists|i: int|
                    0 <= i < CATEGORY_COUNT && load_pool(resources@[i]@, category_at(i)) == Err::<
                        Seq<QuestionModel>,
                        TriviaError,
                    >(e) && forall|j: int|
                        0 <= j < i ==> (#[trigger] load_pool(resources@[j]@, category_at(j))) is Ok,
            },
    {
        let categories = match index_categories(resources) {
            Ok(cats) => cats,
            Err(e) => {
                return Err(e);
            },
        };
        let ctx = TriviaContext { repeat_questions, categories, spent_questions: Vec::new() };
        assert(models(ctx.spent_questions@) =~= Seq::<QuestionModel>::empty());
        proof {
            ctx.lemma_pools_nonempty();
            assert forall|i: int| 0 <= i < CATEGORY_COUNT implies load_pool(
                resources@[i]@,
                category_at(i),
            ) == Ok::<Seq<QuestionModel>, TriviaError>(#[trigger] ctx@.pools[i]) by {
                assert(ctx.categories@[i].category == category_at(i));
            }
        }
        Ok(ctx)
    }

    /// Records the unserved question at `idx` of `category`'s pool as served
    /// and returns it.
    fn take_unspent(&mut self, category: Category, idx: usize) -> (r: Question)
        requires
            old(self).wf(),
            !old(self).repeat_questions,
            idx < old(self)@.pool(category).len(),
            !old(self)@.spent.contains(old(self)@.pool(category)[idx as int]),
        ensures
            final(self).wf(),
            r@ == old(self)@.pool(category)[idx as int],
            final(self)@ == (ContextModel { spent: old(self)@.spent.push(r@), ..old(self)@ }),
    {
        proof {
            lemma_catalog_total(self.categories@);
        }
        let k = category.ordinal();
        let q = self.categories[k].questions[idx].clone();
        let ghost before = self.spent_questions@;
        self.spent_questions.push(q.clone());
        assert(models(self.spent_questions@) =~= models(before).push(q@));
        q
    }

    /// Serves a question of `category` chosen by the number `draw`: with
    /// repeats allowed, the question at `draw` modulo the pool size;
    /// without, the unserved question at position `draw` modulo their count,
    /// which is then recorded as served, or `PoolExhausted` when none is left.
    pub fn get_question_drawn(&mut self, category: Category, draw: usize) -> (r: Result<
        Question,
        TriviaError,
    >)
        requires
            old(self).wf(),
        ensures
            final(self).wf(),
            serve_step(old(self)@, final(self)@, category, result_model(r)),
            result_model(r) == picked_result(
                old(self)@,
                category,
                drawn_pick(old(self)@, category, draw as int),
            ),
    {
        proof {
            self.lemma_pools_nonempty();
            lemma_catalog_total(self.categories@);
        }
        let ghost m = self@;
        let k = category.ordinal();
        let len = self.categories[k].questions.len();
        if self.repeat_questions {
            let q = self.categories[k].questions[draw % len].clone();
            assert(m.pool(category).contains(q@)) by {
                assert(m.pool(category)[(draw % len) as int] == q@);
            }
            return Ok(q);
        }
        let u = unspent_indices_of(&self.categories[k].questions, &self.spent_questions);
        proof {
            lemma_unspent_upto(m.pool(category), m.spent, len as int);
            assert(u@.map_values(|i: usize| i as int).len() == u.len());
        }
        if u.len() == 0 {
            return Err(TriviaError::PoolExhausted { category });
        }
        let idx = u[draw % u.len()];
        assert(u@.map_values(|i: usize| i as int)[(draw % u.len()) as int] == idx);
        let q = self.take_unspent(category, idx);
        assert(m.pool(category)[idx as int] == q@);
        Ok(q)
    }

    /// Serves a question of `category`. `Specific(n)` takes the index `n`
    /// modulo the pool size; `Random` draws one uniformly. With repeats
    /// allowed, that question is returned and nothing changes. Without, the
    /// question is recorded as served; a `Specific` index whose question was
    /// served already moves on to the next index, wrapping around, and a
    /// random draw is made among the unserved questions only. When every
    /// question of the pool has been served, the result is `PoolExhausted`.
    pub fn get_question(&mut self, category: Category, seeding: Seeding) -> (r: Result<
        Question,
        TriviaError,
    >)
        requires
            old(self).wf(),
        ensures
            final(self).wf(),
            serve_step(old(self)@, final(self)@, category, result_model(r)),
            match seeding {
                Seeding::Specific(n) => result_model(r) == picked_result(
                    old(self)@,
                    category,
                    specific_pick(old(self)@, category, n as int),
                ),
                Seeding::Random => true,
            },
    {
        proof {
            self.lemma_pools_nonempty();
            lemma_catalog_total(self.categories@);
        }
        let ghost m = self@;
        let k = category.ordinal();
        let len = self.categories[k].questions.len();
        match seeding {
            Seeding::Random => {
                let bound = if self.repeat_questions {
                    len
                } else {
                    let u = unspent_indices_of(&self.categories[k].questions, &self.spent_questions);
                    proof {
                        lemma_unspent_upto(m.pool(category), m.spent, len as int);
                        assert(u@.map_values(|i: usize| i as int).len() == u.len());
                    }
                    u.len()
                };
                if bound == 0 {
                    assert(!self.repeat_questions);
                    assert(exhausted(m.pool(category), m.spent));
                    return Err(TriviaError::PoolExhausted { category });
                }
                let draw = random_below(bound);
                self.get_question_drawn(category, draw)
            },
            Seeding::Specific(n) => {
                let start = n % len;
                if self.repeat_questions {
                    let q = self.categories[k].questions[start].clone();
                    assert(m.pool(category).contains(q@)) by {
                        assert(m.pool(category)[start as int] == q@);
                    }
                    return Ok(q);
                }
                let u = unspent_indices_of(&self.categories[k].questions, &self.spent_questions);
                proof {
                    lemma_unspent_upto(m.pool(category), m.spent, len as int);
                    assert(u@.map_values(|i: usize| i as int).len() == u.len());
                }
                if u.len() == 0 {
                    proof {
                        lemma_scan_exhausted(m.pool(category), m.spent, start as int, 0);
                    }
                    return Err(TriviaError::PoolExhausted { category });
                }
                let idx = first_unspent_from(&self.categories[k].questions, &self.spent_questions, start);
                let q = self.take_unspent(category, idx);
                assert(m.pool(category)[idx as int] == q@);
                Ok(q)
            },
        }
    }
}

} // verus!
