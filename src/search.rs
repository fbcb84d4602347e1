use crate::big_set::{room_for_one_more, BigHashSet, HashedItemSet, MAX_SLOTS};
use crate::big_stack::{PopStep, SpillStack};
use crate::fingerprint::{hash, spec_hash};
use crate::board::{board_wf, slides, Board, BoardModel};
use std::collections::hash_map::DefaultHasher;
use vstd::std_specs::hash::DefaultHasherAdditionalSpecFns;
use vstd::pervasive::unreached;
use vstd::prelude::*;

verus! {

/// `x!`
pub open spec fn spec_factorial(x: nat) -> nat
    decreases x,
{
    if x <= 1 {
        1
    } else {
        x * spec_factorial((x - 1) as nat)
    }
}

/// Computes `x!`.
pub fn factorial(x: usize) -> (r: usize)
    requires
        spec_factorial(x as nat) <= usize::MAX,
    ensures
        r == spec_factorial(x as nat),
{
    if x <= 1 {
        return 1;
    }
    let mut acc: usize = 1;
    let mut y: usize = 1;
    while y < x
        invariant
            1 <= y <= x,
            acc == spec_factorial(y as nat),
            spec_factorial(x as nat) <= usize::MAX,
        decreases x - y,
    {
        proof {
            lemma_factorial_monotone((y + 1) as nat, x as nat);
            let next = spec_factorial((y + 1) as nat);
            assert(next == (y + 1) * spec_factorial(y as nat));
            assert(acc * (y + 1) == next) by (nonlinear_arith)
                requires
                    acc == spec_factorial(y as nat),
                    next == (y + 1) * spec_factorial(y as nat),
            ;
        }
        acc = acc * (y + 1);
        y += 1;
    }
    acc
}

/// The factorial grows with its argument.
proof fn lemma_factorial_monotone(a: nat, b: nat)
    requires
        a <= b,
    ensures
        spec_factorial(a) <= spec_factorial(b),
        1 <= spec_factorial(a),
    decreases b,
{
    if a < b {
        lemma_factorial_monotone(a, (b - 1) as nat);
        assert(spec_factorial((b - 1) as nat) <= b * spec_factorial((b - 1) as nat)) by (nonlinear_arith)
            requires
                b >= 1,
        ;
    } else if b > 1 {
        lemma_factorial_monotone(1, (b - 1) as nat);
        assert(1 <= b * spec_factorial((b - 1) as nat)) by (nonlinear_arith)
            requires
                b >= 1,
                spec_factorial((b - 1) as nat) >= 1,
        ;
    }
}

/// The capacity of the working buffer of the stack of boards to expand.
pub const SEARCH_STACK_CAPACITY: usize = 0x200_0000;

/// The maximum load, in percent, of the set of visited boards.
pub const SEARCH_MAX_LOAD: usize = 50;

/// The fingerprint of a board with the given content.
pub open spec fn model_hash(m: BoardModel) -> u64 {
    DefaultHasher::spec_finish(seq![m.cells])
}

/// Whether `path` starts at `seed` and takes one slide at each step.
pub open spec fn is_slide_path(seed: BoardModel, path: Seq<BoardModel>) -> bool {
    &&& path.len() >= 1
    &&& path[0] == seed
    &&& forall|i: int| 0 <= i < path.len() - 1 ==> slides(path[i]).contains(#[trigger] path[i + 1])
}

/// Whether `b` can be reached from `seed` by a sequence of slides.
pub open spec fn reachable(seed: BoardModel, b: BoardModel) -> bool {
    exists|path: Seq<BoardModel>| is_slide_path(seed, path) && path.last() == b
}

/// The boards reachable from `seed`.
pub open spec fn reachable_set(seed: BoardModel) -> Set<BoardModel> {
    Set::new(|b: BoardModel| reachable(seed, b))
}

/// Whether no two distinct boards reachable from `seed` share a fingerprint.
pub open spec fn hashes_distinguish_reachable(seed: BoardModel) -> bool {
    forall|a: BoardModel, b: BoardModel|
        reachable(seed, a) && reachable(seed, b) && model_hash(a) == model_hash(b) ==> a == b
}

/// A slide from a reachable board reaches another one.
proof fn lemma_reachable_step(seed: BoardModel, a: BoardModel, c: BoardModel)
    requires
        reachable(seed, a),
        slides(a).contains(c),
    ensures
        reachable(seed, c),
{
    let path = choose|path: Seq<BoardModel>| is_slide_path(seed, path) && path.last() == a;
    let longer = path.push(c);
    assert forall|i: int| 0 <= i < longer.len() - 1 implies slides(longer[i]).contains(
        #[trigger] longer[i + 1],
    ) by {
        if i < path.len() - 1 {
            assert(longer[i] == path[i] && longer[i + 1] == path[i + 1]);
        }
    }
    assert(is_slide_path(seed, longer) && longer.last() == c);
}

/// Every board along a slide path from `seed` lies in a set that holds `seed`
/// and is closed under slides.
proof fn lemma_path_stays_in(seed: BoardModel, found: Set<BoardModel>, path: Seq<BoardModel>, k: int)
    requires
        found.contains(seed),
        forall|b: BoardModel, c: BoardModel|
            found.contains(b) && #[trigger] slides(b).contains(c) ==> found.contains(c),
        is_slide_path(seed, path),
        0 <= k < path.len(),
    ensures
        found.contains(path[k]),
    decreases k,
{
    if k > 0 {
        lemma_path_stays_in(seed, found, path, k - 1);
        assert(slides(path[k - 1]).contains(path[k - 1 + 1]));
    }
}

/// A set of boards that holds `seed`, holds only boards reachable from it and
/// is closed under slides is exactly the set of boards reachable from `seed`.
pub proof fn law_closed_set_is_reachable_set(seed: BoardModel, found: Set<BoardModel>)
    requires
        found.contains(seed),
        forall|b: BoardModel| #[trigger] found.contains(b) ==> reachable(seed, b),
        forall|b: BoardModel, c: BoardModel|
            found.contains(b) && #[trigger] slides(b).contains(c) ==> found.contains(c),
    ensures
        found == reachable_set(seed),
{
    assert forall|b: BoardModel| reachable(seed, b) implies found.contains(b) by {
        let path = choose|path: Seq<BoardModel>| is_slide_path(seed, path) && path.last() == b;
        lemma_path_stays_in(seed, found, path, path.len() - 1);
    }
    assert(found =~= reachable_set(seed));
}

/// What a step of a `Search` asks of its owner.
pub enum SearchStep {
    /// A board was expanded; these batches of boards still to expand were
    /// spilled, oldest first, and must be kept until `Reload` asks for them.
    Expanded(Vec<Vec<Board>>),
    /// The newest batch kept must be handed back with `reload`.
    Reload,
    /// The search is over, having found this many boards.
    Done(usize),
    /// The set of hashes could take no more boards; this many were found.
    Full(usize),
}

/// Whether the boards reachable from `seed` are few enough for the set of
/// hashes of a search to hold them all.
pub open spec fn search_fits(seed: BoardModel) -> bool {
    &&& reachable_set(seed).finite()
    &&& reachable_set(seed).len() * 200 <= MAX_SLOTS * SEARCH_MAX_LOAD
}

/// A depth-first count of the boards reachable from a seed, advanced one
/// board at a time. The boards still to expand sit in a `SpillStack`, whose
/// spilled batches the owner keeps wherever it likes.
pub struct Search {
    /// The boards still to expand.
    frontier: SpillStack<Board>,
    /// The hashes of the boards found.
    all_boards: BigHashSet<Board>,
    /// Whether the set of hashes filled up, which ends the count.
    full: bool,
    /// The board the search started from.
    seed: Ghost<BoardModel>,
    /// The boards found.
    found: Ghost<Set<BoardModel>>,
}

impl Search {
    /// The board the search started from.
    pub closed spec fn spec_seed(&self) -> BoardModel {
        self.seed@
    }

    /// The spilled batches the owner keeps, oldest first.
    pub closed spec fn stored_batches(&self) -> Seq<Seq<Board>> {
        self.frontier.spilled_batches()
    }

    /// The number of boards still to expand.
    pub closed spec fn pending(&self) -> nat {
        self.frontier.items().len()
    }

    /// Whether the set of hashes filled up, which ends the search.
    pub closed spec fn is_full(&self) -> bool {
        self.full
    }

    /// The number of hashes of boards found so far.
    pub closed spec fn found_count(&self) -> nat {
        self.all_boards@.len()
    }

    /// Whether the next step needs the newest kept batch back.
    pub closed spec fn awaiting_reload(&self) -> bool {
        &&& !self.full
        &&& self.frontier.buffer().len() == 0
        &&& self.frontier.spilled_batches().len() > 0
    }

    /// A measure that every expanding step decreases.
    pub closed spec fn progress(&self) -> nat {
        ((MAX_SLOTS - self.all_boards@.len()) * 5 + self.frontier.items().len()) as nat
    }

    /// The search's invariant.
    pub closed spec fn inv(&self) -> bool {
        let items = self.frontier.items();
        let set = self.all_boards@;
        let found = self.found@;
        let seed = self.seed@;
        &&& self.frontier.inv()
        &&& self.all_boards.inv()
        &&& set.finite()
        &&& 1 <= set.len() <= MAX_SLOTS
        &&& self.all_boards.load_percent() == SEARCH_MAX_LOAD
        &&& self.full ==> !search_fits(seed)
        &&& items.len() <= set.len()
        &&& forall|i: int|
            0 <= i < items.len() ==> board_wf(#[trigger] items[i]@) && items[i]@.cells.contains(0)
                && found.contains(items[i]@)
        &&& found.finite()
        &&& found.len() == set.len()
        &&& found.contains(seed)
        &&& forall|b: BoardModel| #[trigger] found.contains(b) ==> reachable(seed, b)
        &&& forall|b: BoardModel| #[trigger] found.contains(b) ==> set.contains(model_hash(b))
        &&& forall|h: u64| #[trigger]
            set.contains(h) ==> exists|b: BoardModel| found.contains(b) && model_hash(b) == h
        &&& forall|b: BoardModel| #[trigger]
            found.contains(b) ==> self.full || (exists|i: int| 0 <= i < items.len() && items[i]@ == b)
                || (forall|c: BoardModel| #[trigger]
                slides(b).contains(c) ==> set.contains(model_hash(c)))
    }

    /// Starts a search from `board`, sizing the set of hashes for `n_solns`
    /// boards and holding at most `capacity` boards to expand in memory.
    pub fn new(board: Board, n_solns: usize, capacity: usize) -> (r: Self)
        requires
            board_wf(board@),
            board@.cells.contains(0),
            capacity >= 2,
        ensures
            r.inv(),
            r.spec_seed() == board@,
            r.stored_batches().len() == 0,
            !r.awaiting_reload(),
    {
        let ghost seed = board@;
        let mut frontier: SpillStack<Board> = SpillStack::new(capacity);
        let mut all_boards: BigHashSet<Board> = BigHashSet::new(n_solns, SEARCH_MAX_LOAD);
        let first = hash(&board);
        all_boards.insert_hash(first);
        let ghost first_hash = spec_hash(&board);
        let spill = frontier.push(board);
        let r = Search {
            frontier,
            all_boards,
            full: false,
            seed: Ghost(seed),
            found: Ghost(Set::empty().insert(seed)),
        };
        proof {
            let items = r.frontier.items();
            assert(items.len() == 1);
            assert(items[0]@ == seed);
            let path = seq![seed];
            assert(is_slide_path(seed, path) && path.last() == seed);
            assert(reachable(seed, seed));
            assert(first_hash == model_hash(seed));
            assert forall|h: u64| #[trigger] r.all_boards@.contains(h) implies exists|b: BoardModel|
                r.found@.contains(b) && model_hash(b) == h by {
                assert(r.found@.contains(seed) && model_hash(seed) == h);
            }
            assert forall|b: BoardModel| #[trigger] r.found@.contains(b) implies r.full || (exists|
                i: int,
            | 0 <= i < items.len() && items[i]@ == b) || (forall|c: BoardModel| #[trigger]
                slides(b).contains(c) ==> r.all_boards@.contains(model_hash(c))) by {
                assert(items[0]@ == b);
            }
        }
        r
    }

    /// Expands the next board, unless the kept batch it sits in must come
    /// back first or nothing is left to expand.
    pub fn step(&mut self) -> (r: SearchStep)
        requires
            old(self).inv(),
        ensures
            final(self).inv(),
            final(self).spec_seed() == old(self).spec_seed(),
            r is Reload ==> old(self).awaiting_reload() && *final(self) == *old(self),
            !old(self).awaiting_reload() ==> !(r is Reload),
            r matches SearchStep::Expanded(bs) ==> final(self).progress() < old(self).progress()
                && final(self).stored_batches() == old(self).stored_batches() + bs@.map_values(
                |b: Vec<Board>| b@,
            ),
            (r is Done) <==> (!old(self).is_full() && old(self).pending() == 0),
            (r is Full) <==> old(self).is_full(),
            r matches SearchStep::Done(n) ==> n == old(self).found_count() && n >= 1,
            r matches SearchStep::Full(n) ==> n == old(self).found_count(),
            r matches SearchStep::Done(n) ==> (hashes_distinguish_reachable(old(self).spec_seed())
                ==> reachable_set(old(self).spec_seed()).finite() && n == reachable_set(
                old(self).spec_seed(),
            ).len()),
            final(self).is_full() ==> !search_fits(old(self).spec_seed()),
            r is Full ==> !search_fits(old(self).spec_seed()),
            old(self).is_full() ==> *final(self) == *old(self),
    {
        let ghost seed = self.seed@;
        if self.full {
            return SearchStep::Full(self.all_boards.len());
        }
        if self.frontier.len() == 0 {
            proof {
                let found = self.found@;
                assert forall|b: BoardModel, c: BoardModel|
                    found.contains(b) && #[trigger] slides(b).contains(c)
                        && hashes_distinguish_reachable(seed) implies found.contains(c) by {
                    assert(self.all_boards@.contains(model_hash(c)));
                    let d = choose|d: BoardModel| found.contains(d) && model_hash(d) == model_hash(c);
                    lemma_reachable_step(seed, b, c);
                }
                if hashes_distinguish_reachable(seed) {
                    law_closed_set_is_reachable_set(seed, found);
                }
            }
            return SearchStep::Done(self.all_boards.len());
        }
        let ghost before = self.progress();
        let ghost items_before = self.frontier.items();
        let ghost batches_before = self.frontier.spilled_batches();
        proof {
            if self.frontier.buffer().len() == 0 && self.frontier.spilled_batches().len() == 0 {
                assert(self.frontier.items() =~= Seq::<Board>::empty());
            }
        }
        let board = match self.frontier.pop() {
            PopStep::Item(board) => board,
            PopStep::Reload => {
                return SearchStep::Reload;
            },
            PopStep::Empty => unreached(),
        };
        let ghost cur = board@;
        let mut next_boards = board.slide_iter();
        let mut batches: Vec<Vec<Board>> = Vec::new();
        proof {
            assert(batches@.map_values(|b: Vec<Board>| b@) =~= Seq::<Seq<Board>>::empty());
            assert(batches_before + Seq::<Seq<Board>>::empty() =~= batches_before);
            assert forall|i: int| 0 <= i < next_boards@.len() implies slides(cur).contains(
                #[trigger] next_boards@[i]@,
            ) by {
                assert(next_boards@.map_values(|b: Board| b@)[i] == next_boards@[i]@);
            }
            assert forall|c: BoardModel| #[trigger] slides(cur).contains(c) implies exists|i: int|
                0 <= i < next_boards@.len() && next_boards@[i]@ == c by {
                let i = choose|i: int| 0 <= i < slides(cur).len() && slides(cur)[i] == c;
                assert(next_boards@.map_values(|b: Board| b@)[i] == next_boards@[i]@);
            }
            let items = self.frontier.items();
            assert forall|b: BoardModel| #[trigger] self.found@.contains(b) && b != cur implies (exists|
                i: int,
            | 0 <= i < items.len() && items[i]@ == b) || (forall|c: BoardModel| #[trigger]
                slides(b).contains(c) ==> self.all_boards@.contains(model_hash(c))) by {
                if exists|i: int| 0 <= i < items_before.len() && items_before[i]@ == b {
                    let i = choose|i: int| 0 <= i < items_before.len() && items_before[i]@ == b;
                    if i < items_before.len() - 1 {
                        assert(items[i] == items_before[i]);
                    }
                }
            }
        }
        while next_boards.len() > 0
            invariant
                self.frontier.inv(),
                self.all_boards.inv(),
                self.all_boards@.finite(),
                !self.full,
                self.seed@ == seed,
                1 <= self.all_boards@.len() <= MAX_SLOTS,
                self.all_boards.load_percent() == SEARCH_MAX_LOAD,
                self.frontier.items().len() <= self.all_boards@.len(),
                forall|i: int|
                    0 <= i < self.frontier.items().len() ==> board_wf(
                        #[trigger] self.frontier.items()[i]@,
                    ) && self.frontier.items()[i]@.cells.contains(0) && self.found@.contains(
                        self.frontier.items()[i]@,
                    ),
                forall|i: int|
                    0 <= i < next_boards@.len() ==> board_wf(#[trigger] next_boards@[i]@)
                        && next_boards@[i]@.cells.contains(0) && slides(cur).contains(
                        next_boards@[i]@,
                    ),
                seed == old(self).seed@,
                !old(self).full,
                old(self).frontier.items().len() > 0,
                before == old(self).progress(),
                batches_before == old(self).frontier.spilled_batches(),
                self.progress() < before,
                self.frontier.spilled_batches() == batches_before + batches@.map_values(
                    |b: Vec<Board>| b@,
                ),
                self.found@.finite(),
                self.found@.len() == self.all_boards@.len(),
                self.found@.contains(seed),
                self.found@.contains(cur),
                forall|b: BoardModel| #[trigger] self.found@.contains(b) ==> reachable(seed, b),
                forall|b: BoardModel| #[trigger]
                    self.found@.contains(b) ==> self.all_boards@.contains(model_hash(b)),
                forall|h: u64| #[trigger]
                    self.all_boards@.contains(h) ==> exists|b: BoardModel|
                        self.found@.contains(b) && model_hash(b) == h,
                forall|b: BoardModel| #[trigger]
                    self.found@.contains(b) && b != cur ==> (exists|i: int|
                        0 <= i < self.frontier.items().len() && self.frontier.items()[i]@ == b)
                        || (forall|c: BoardModel| #[trigger]
                        slides(b).contains(c) ==> self.all_boards@.contains(model_hash(c))),
                forall|c: BoardModel| #[trigger]
                    slides(cur).contains(c) ==> (exists|i: int|
                        0 <= i < next_boards@.len() && next_boards@[i]@ == c)
                        || self.all_boards@.contains(model_hash(c)),
            decreases next_boards@.len(),
        {
            let ghost next_before = next_boards@;
            let ghost stack_mid = self.frontier.items();
            let ghost set_mid = self.all_boards@;
            let ghost batches_mid = batches@;
            let permuted_board = next_boards.pop().unwrap();
            let ghost p = permuted_board@;
            let h = hash(&permuted_board);
            if !self.all_boards.contains_hash(h) {
                proof {
                    assert(h == model_hash(p));
                    assert(!self.found@.contains(p));
                    lemma_reachable_step(seed, cur, p);
                }
                if !self.all_boards.has_room_for_one() {
                    proof {
                        if search_fits(seed) {
                            let grown = self.found@.insert(p);
                            assert(grown.subset_of(reachable_set(seed)));
                            vstd::set_lib::lemma_len_subset(grown, reachable_set(seed));
                        }
                    }
                    self.full = true;
                    return SearchStep::Expanded(batches);
                }
                self.all_boards.insert_hash(h);
                let spill = self.frontier.push(permuted_board);
                match spill {
                    Some(batch) => {
                        let ghost spilled = batch@;
                        batches.push(batch);
                        proof {
                            assert(batches@.map_values(|b: Vec<Board>| b@) =~= batches_mid.map_values(
                                |b: Vec<Board>| b@,
                            ).push(spilled));
                            assert(batches_before + batches@.map_values(|b: Vec<Board>| b@) =~= (
                            batches_before + batches_mid.map_values(|b: Vec<Board>| b@)).push(
                                spilled,
                            ));
                        }
                    },
                    None => {},
                }
                proof {
                    self.found@ = self.found@.insert(p);
                    let stack_now = self.frontier.items();
                    assert(stack_now[stack_now.len() - 1]@ == p);
                    assert forall|i: int| 0 <= i < stack_now.len() implies board_wf(
                        #[trigger] stack_now[i]@,
                    ) && stack_now[i]@.cells.contains(0) && self.found@.contains(stack_now[i]@) by {
                        if i < stack_mid.len() {
                            assert(stack_now[i] == stack_mid[i]);
                        }
                    }
                    assert forall|h: u64| #[trigger] self.all_boards@.contains(h) implies exists|
                        b: BoardModel,
                    | self.found@.contains(b) && model_hash(b) == h by {
                        if h != model_hash(p) {
                            assert(set_mid.contains(h));
                        }
                    }
                    assert forall|b: BoardModel| #[trigger]
                        self.found@.contains(b) && b != cur implies (exists|i: int|
                        0 <= i < stack_now.len() && stack_now[i]@ == b) || (forall|
                        c: BoardModel,
                    | #[trigger] slides(b).contains(c) ==> self.all_boards@.contains(model_hash(c)))
                        by {
                        if b == p {
                            assert(stack_now[stack_now.len() - 1]@ == b);
                        } else if exists|i: int| 0 <= i < stack_mid.len() && stack_mid[i]@ == b {
                            let i = choose|i: int| 0 <= i < stack_mid.len() && stack_mid[i]@ == b;
                            assert(stack_now[i] == stack_mid[i]);
                        }
                    }
                }
            }
            proof {
                assert forall|c: BoardModel| #[trigger] slides(cur).contains(c) implies (exists|i: int|
                    0 <= i < next_boards@.len() && next_boards@[i]@ == c)
                    || self.all_boards@.contains(model_hash(c)) by {
                    if exists|i: int| 0 <= i < next_before.len() && next_before[i]@ == c {
                        let i = choose|i: int| 0 <= i < next_before.len() && next_before[i]@ == c;
                        if i < next_before.len() - 1 {
                            assert(next_boards@[i] == next_before[i]);
                        }
                    }
                }
            }
        }
        SearchStep::Expanded(batches)
    }

    /// Hands back the newest kept batch.
    pub fn reload(&mut self, batch: Vec<Board>)
        requires
            old(self).inv(),
            old(self).awaiting_reload(),
            batch@ == old(self).stored_batches().last(),
        ensures
            final(self).inv(),
            final(self).spec_seed() == old(self).spec_seed(),
            !final(self).awaiting_reload(),
            final(self).progress() == old(self).progress(),
            final(self).stored_batches() == old(self).stored_batches().drop_last(),
    {
        self.frontier.reload(batch);
        proof {
            assert(self.frontier.items() == old(self).frontier.items());
            assert(self.all_boards == old(self).all_boards);
        }
    }
}

/// Counts the boards reachable from `board` by slides, telling boards apart
/// by their hashes; `n_solns` is the expected count, used to size the set.
///
/// When no two reachable boards share a hash, the count is the number of
/// reachable boards. It is `None` only when the set of hashes fills up, which
/// cannot happen when the reachable boards fit (`search_fits`).
pub fn find_all_boards_iteratively(board: Board, n_solns: usize) -> (r: Option<usize>)
    requires
        board_wf(board@),
        board@.cells.contains(0),
    ensures
        search_fits(board@) ==> r is Some,
        r matches Some(n) ==> n >= 1,
        r matches Some(n) ==> (hashes_distinguish_reachable(board@) ==> reachable_set(
            board@,
        ).finite() && n == reachable_set(board@).len()),
{
    let ghost seed = board@;
    let mut search = Search::new(board, n_solns, SEARCH_STACK_CAPACITY);
    let mut kept: Vec<Vec<Board>> = Vec::new();
    proof {
        assert(kept@.map_values(|b: Vec<Board>| b@) =~= search.stored_batches());
    }
    loop
        invariant
            search.inv(),
            search.spec_seed() == seed,
            seed == board@,
            kept@.map_values(|b: Vec<Board>| b@) == search.stored_batches(),
        decreases search.progress(),
    {
        match search.step() {
            SearchStep::Done(n) => {
                return Some(n);
            },
            SearchStep::Full(_) => {
                return None;
            },
            SearchStep::Expanded(mut batches) => {
                keep_batches(&mut kept, &mut batches);
            },
            SearchStep::Reload => {
                let ghost kept_before = kept@;
                let batch = kept.pop().unwrap();
                proof {
                    assert(kept_before.map_values(|b: Vec<Board>| b@).last() == batch@);
                    assert(kept@.map_values(|b: Vec<Board>| b@) =~= kept_before.map_values(
                        |b: Vec<Board>| b@,
                    ).drop_last());
                }
                search.reload(batch);
                match search.step() {
                    SearchStep::Done(n) => {
                        return Some(n);
                    },
                    SearchStep::Full(_) => {
                        return None;
                    },
                    SearchStep::Expanded(mut batches) => {
                        keep_batches(&mut kept, &mut batches);
                    },
                    SearchStep::Reload => unreached(),
                }
            },
        }
    }
}

/// Moves freshly spilled batches, oldest first, behind the batches kept.
fn keep_batches(kept: &mut Vec<Vec<Board>>, batches: &mut Vec<Vec<Board>>)
    ensures
        final(kept)@.map_values(|b: Vec<Board>| b@) == old(kept)@.map_values(|b: Vec<Board>| b@)
            + old(batches)@.map_values(|b: Vec<Board>| b@),
{
    kept.append(batches);
    proof {
        assert(final(kept)@.map_values(|b: Vec<Board>| b@) =~= old(kept)@.map_values(
            |b: Vec<Board>| b@,
        ) + old(batches)@.map_values(|b: Vec<Board>| b@));
    }
}

} // verus!
