//! The order in which the accounts of the pool are tried.

use std::cmp::Ordering;
use vstd::prelude::*;
use crate::account;
use crate::account::CodexAccount;
use crate::sort;
use crate::text;

verus! {

/// Which accounts are tried first.
#[derive(Debug, Clone, Copy, PartialEq, Eq, Structural)]
pub enum CodexLocalAccessRoutingStrategy {
    Auto,
    QuotaHighFirst,
    QuotaLowFirst,
    PlanHighFirst,
    PlanLowFirst,
}

impl Default for CodexLocalAccessRoutingStrategy {
    fn default() -> (strategy: Self)
        ensures
            strategy == CodexLocalAccessRoutingStrategy::Auto,
    {
        CodexLocalAccessRoutingStrategy::Auto
    }
}

// ---------------------------------------------------------------------------------------
// Rotation
// ---------------------------------------------------------------------------------------

/// The values in a circle, beginning at `start`.
pub open spec fn rotation<T>(s: Seq<T>, start: int) -> Seq<T> {
    Seq::new(s.len(), |k: int| s[(start + k) % s.len() as int])
}

/// The values of `s`, each only where it stands first.
pub open spec fn firsts<T>(s: Seq<T>) -> Seq<T>
    decreases s.len(),
{
    if s.len() == 0 {
        Seq::empty()
    } else {
        let before = firsts(s.drop_last());
        if before.contains(s.last()) {
            before
        } else {
            before.push(s.last())
        }
    }
}

/// The preferred account, if it is in the pool, as a list.
pub open spec fn preferred_in(ids: Seq<Seq<char>>, preferred: Option<Seq<char>>) -> Seq<Seq<char>> {
    match preferred {
        Some(id) => if ids.contains(id) {
            seq![id]
        } else {
            Seq::empty()
        },
        None => Seq::empty(),
    }
}

/// The pool in the order of one round: the preferred account first, then the others in
/// turn from `start` on, none of them twice.
pub open spec fn round_order(
    ids: Seq<Seq<char>>,
    start: int,
    preferred: Option<Seq<char>>,
) -> Seq<Seq<char>> {
    firsts(preferred_in(ids, preferred) + rotation(ids, start))
}

/// The pool in the order of one round.
pub fn build_ordered_account_ids(
    account_ids: &[String],
    start: usize,
    preferred_account_id: Option<&str>,
) -> (ordered: Vec<String>)
    ensures
        text::texts(ordered@) == round_order(
            text::texts(account_ids@),
            start as int,
            text::opt_str(preferred_account_id),
        ),
{
    let ghost ids = text::texts(account_ids@);
    let ghost head = preferred_in(ids, text::opt_str(preferred_account_id));
    let ghost turn = rotation(ids, start as int);
    let mut ordered: Vec<String> = Vec::new();
    assert(text::texts(ordered@) =~= Seq::empty());
    if let Some(preferred) = preferred_account_id {
        if text::is_member(account_ids, preferred) {
            ordered.push(preferred.to_owned());
        }
    }
    proof {
        assert(text::texts(ordered@) =~= head);
        if head.len() == 1 {
            assert(head.drop_last() =~= Seq::empty());
            assert(firsts(Seq::<Seq<char>>::empty()) =~= Seq::empty());
            assert(firsts(head) =~= head);
        }
        assert(head + turn.take(0) =~= head);
    }
    let mut offset: usize = 0;
    while offset < account_ids.len()
        invariant
            offset <= account_ids@.len(),
            ids == text::texts(account_ids@),
            turn == rotation(ids, start as int),
            text::texts(ordered@) == firsts(head + turn.take(offset as int)),
        decreases account_ids@.len() - offset,
    {
        let index: usize = circle_index(start, offset, account_ids.len());
        let ghost so_far = head + turn.take(offset as int);
        let ghost next = head + turn.take(offset + 1);
        proof {
            assert(next.drop_last() =~= so_far);
            assert(next.last() == turn[offset as int]);
            assert(turn[offset as int] == account_ids@[index as int]@);
        }
        let ghost before = ordered@;
        if !text::is_member(ordered.as_slice(), account_ids[index].as_str()) {
            ordered.push(account_ids[index].clone());
            assert(text::texts(ordered@) =~= text::texts(before).push(
                account_ids@[index as int]@,
            ));
        }
        offset += 1;
    }
    assert(turn.take(offset as int) =~= turn);
    ordered
}

/// The place `offset` steps behind `start` in a circle of `n` places.
fn circle_index(start: usize, offset: usize, n: usize) -> (index: usize)
    requires
        offset < n,
    ensures
        index == (start + offset) % (n as int),
        index < n,
{
    let first: usize = start % n;
    proof {
        vstd::arithmetic::div_mod::lemma_add_mod_noop(start as int, offset as int, n as int);
        vstd::arithmetic::div_mod::lemma_small_mod(offset as nat, n as nat);
    }
    if offset < n - first {
        proof {
            vstd::arithmetic::div_mod::lemma_small_mod((first + offset) as nat, n as nat);
        }
        first + offset
    } else {
        let index: usize = offset - (n - first);
        proof {
            vstd::arithmetic::div_mod::lemma_small_mod(index as nat, n as nat);
            vstd::arithmetic::div_mod::lemma_mod_add_multiples_vanish(index as int, n as int);
        }
        index
    }
}

/// What [`firsts`] keeps: every value of `s`, none twice, and the first one in first place.
pub proof fn firsts_are_distinct<T>(s: Seq<T>)
    ensures
        firsts(s).no_duplicates(),
        forall|x: T| #[trigger] firsts(s).contains(x) == s.contains(x),
        s.len() > 0 ==> firsts(s).len() > 0 && firsts(s)[0] == s[0],
    decreases s.len(),
{
    if s.len() > 0 {
        firsts_are_distinct(s.drop_last());
        let before = firsts(s.drop_last());
        assert forall|x: T| #[trigger] firsts(s).contains(x) == s.contains(x) by {
            if s.contains(x) {
                let k = choose|k: int| 0 <= k < s.len() && s[k] == x;
                if k < s.len() - 1 {
                    assert(s.drop_last()[k] == x);
                    assert(s.drop_last().contains(x));
                    assert(before.contains(x));
                    let m = choose|m: int| 0 <= m < before.len() && before[m] == x;
                    assert(firsts(s)[m] == x);
                } else if !before.contains(x) {
                    assert(firsts(s)[before.len() as int] == x);
                }
            }
            if firsts(s).contains(x) {
                let m = choose|m: int| 0 <= m < firsts(s).len() && firsts(s)[m] == x;
                if m < before.len() {
                    assert(before.contains(before[m]));
                    assert(s.drop_last().contains(x));
                    let k = choose|k: int| 0 <= k < s.drop_last().len() && s.drop_last()[k] == x;
                    assert(s[k] == x);
                } else {
                    assert(s[s.len() - 1] == x);
                }
            }
        }
        if s.len() == 1 {
            assert(before =~= Seq::empty());
        } else {
            assert(s.drop_last()[0] == s[0]);
        }
    }
}

/// A round tries every account of the pool, none of them twice, and the preferred one
/// first.
pub proof fn round_covers_pool(ids: Seq<Seq<char>>, start: int, preferred: Option<Seq<char>>)
    requires
        0 <= start,
    ensures
        round_order(ids, start, preferred).no_duplicates(),
        forall|id: Seq<char>| #[trigger]
            round_order(ids, start, preferred).contains(id) == ids.contains(id),
        preferred is Some && ids.contains(preferred->0) ==> round_order(
            ids,
            start,
            preferred,
        ).len() > 0 && round_order(ids, start, preferred)[0] == preferred->0,
{
    let head = preferred_in(ids, preferred);
    let turn = rotation(ids, start);
    let all = head + turn;
    firsts_are_distinct(all);
    assert forall|id: Seq<char>| #[trigger]
        round_order(ids, start, preferred).contains(id) == ids.contains(id) by {
        if ids.contains(id) {
            let k = choose|k: int| 0 <= k < ids.len() && ids[k] == id;
            let n = ids.len() as int;
            let j = (k - start) % n;
            assert((start + j) % n == k) by {
                vstd::arithmetic::div_mod::lemma_add_mod_noop_right(start, k - start, n);
                vstd::arithmetic::div_mod::lemma_small_mod(k as nat, n as nat);
            }
            assert(turn[j] == id);
            assert(all[head.len() + j] == id);
            assert(all.contains(id));
        }
        if all.contains(id) {
            let k = choose|k: int| 0 <= k < all.len() && all[k] == id;
            if k >= head.len() {
                let n = ids.len() as int;
                let m = (start + (k - head.len())) % n;
                assert(turn[k - head.len()] == ids[m]);
                assert(ids.contains(ids[m]));
            }
        }
    }
    if preferred is Some && ids.contains(preferred->0) {
        assert(all[0] == preferred->0);
    }
}

/// Without a preferred account, consecutive rounds begin with the accounts of the pool in
/// turn.
pub proof fn rounds_take_turns(ids: Seq<Seq<char>>, start: int)
    requires
        0 <= start,
        ids.len() > 0,
    ensures
        round_order(ids, start, None)[0] == ids[start % ids.len() as int],
        round_order(ids, start, None) == round_order(ids, start + ids.len(), None),
{
    let n = ids.len() as int;
    let all = preferred_in(ids, None) + rotation(ids, start);
    firsts_are_distinct(all);
    assert(all[0] == rotation(ids, start)[0]);
    assert forall|k: int| 0 <= k < n implies #[trigger] rotation(ids, start)[k] == rotation(
        ids,
        start + n,
    )[k] by {
        vstd::arithmetic::div_mod::lemma_mod_add_multiples_vanish(start + k, n);
    }
    assert(rotation(ids, start) =~= rotation(ids, start + n));
}

// ---------------------------------------------------------------------------------------
// Strategy
// ---------------------------------------------------------------------------------------

/// An account as the strategies see it.
#[derive(Debug)]
pub struct RoutingCandidate {
    pub account_id: String,
    pub plan_rank: Option<i32>,
    pub remaining_quota: Option<i32>,
}

/// An account as the strategies see it, as a mathematical value.
pub struct Candidate {
    pub id: Seq<char>,
    pub plan_rank: Option<i32>,
    pub remaining_quota: Option<i32>,
}

impl View for RoutingCandidate {
    type V = Candidate;

    open spec fn view(&self) -> Candidate {
        Candidate {
            id: self.account_id@,
            plan_rank: self.plan_rank,
            remaining_quota: self.remaining_quota,
        }
    }
}

/// What is known of an account that may not have been found.
pub open spec fn candidate_of(id: Seq<char>, found: Option<CodexAccount>) -> Candidate {
    match found {
        Some(a) => Candidate {
            id,
            plan_rank: account::plan_rank(a),
            remaining_quota: account::quota_left(a),
        },
        None => Candidate { id, plan_rank: None, remaining_quota: None },
    }
}

/// The candidates of a round.
pub open spec fn candidates_of(
    ids: Seq<Seq<char>>,
    accounts: Seq<Option<CodexAccount>>,
) -> Seq<Candidate> {
    Seq::new(ids.len(), |i: int| candidate_of(ids[i], accounts[i]))
}

/// The candidates as mathematical values.
pub open spec fn candidate_views(candidates: Seq<RoutingCandidate>) -> Seq<Candidate> {
    candidates.map_values(|c: RoutingCandidate| c@)
}

/// The candidates of a round: `accounts[i]` is what was found under `ordered_account_ids[i]`.
pub fn build_routing_candidates(
    ordered_account_ids: &[String],
    accounts: &[Option<CodexAccount>],
) -> (candidates: Vec<RoutingCandidate>)
    requires
        accounts@.len() == ordered_account_ids@.len(),
    ensures
        candidate_views(candidates@) == candidates_of(
            text::texts(ordered_account_ids@),
            accounts@,
        ),
{
    let mut candidates: Vec<RoutingCandidate> = Vec::new();
    let mut i: usize = 0;
    while i < ordered_account_ids.len()
        invariant
            i <= ordered_account_ids@.len(),
            accounts@.len() == ordered_account_ids@.len(),
            candidates@.len() == i,
            forall|k: int|
                0 <= k < i ==> (#[trigger] candidates@[k])@ == candidate_of(
                    ordered_account_ids@[k]@,
                    accounts@[k],
                ),
        decreases ordered_account_ids@.len() - i,
    {
        let (plan_rank, remaining_quota) = match &accounts[i] {
            Some(a) => (account::resolve_plan_rank(a), account::resolve_remaining_quota(a)),
            None => (None, None),
        };
        candidates.push(
            RoutingCandidate {
                account_id: ordered_account_ids[i].clone(),
                plan_rank,
                remaining_quota,
            },
        );
        i += 1;
    }
    assert(candidate_views(candidates@) =~= candidates_of(
        text::texts(ordered_account_ids@),
        accounts@,
    ));
    candidates
}

/// The last place of `id` in `ids`; the largest `usize` if it has none.
pub open spec fn place_of(ids: Seq<Seq<char>>, id: Seq<char>) -> int
    decreases ids.len(),
{
    if ids.len() == 0 {
        usize::MAX as int
    } else if ids.last() == id {
        ids.len() - 1
    } else {
        place_of(ids.drop_last(), id)
    }
}

fn find_place(ids: &[String], id: &str) -> (place: usize)
    ensures
        place == place_of(text::texts(ids@), id@),
{
    let ghost all = text::texts(ids@);
    let mut i: usize = ids.len();
    assert(all.take(i as int) =~= all);
    while i > 0
        invariant
            i <= ids@.len(),
            all == text::texts(ids@),
            place_of(all, id@) == place_of(all.take(i as int), id@),
        decreases i,
    {
        assert(all.take(i as int).drop_last() =~= all.take(i - 1));
        assert(all.take(i as int).last() == ids@[i - 1]@);
        i -= 1;
        if text::same(ids[i].as_str(), id) {
            return i;
        }
    }
    usize::MAX
}

/// The larger first; what is known before what is not.
pub open spec fn larger_first(a: Option<i32>, b: Option<i32>) -> Ordering {
    match (a, b) {
        (Some(x), Some(y)) => if x > y {
            Ordering::Less
        } else if x < y {
            Ordering::Greater
        } else {
            Ordering::Equal
        },
        (Some(_), None) => Ordering::Less,
        (None, Some(_)) => Ordering::Greater,
        (None, None) => Ordering::Equal,
    }
}

/// The smaller first; what is known before what is not.
pub open spec fn smaller_first(a: Option<i32>, b: Option<i32>) -> Ordering {
    match (a, b) {
        (Some(x), Some(y)) => larger_first(Some(y), Some(x)),
        _ => larger_first(a, b),
    }
}

/// The first comparison or, where it finds no difference, the second.
pub open spec fn and_next(first: Ordering, second: Ordering) -> Ordering {
    match first {
        Ordering::Equal => second,
        _ => first,
    }
}

/// How two candidates compare by plan and quota.
pub open spec fn by_strategy(
    left: Candidate,
    right: Candidate,
    strategy: CodexLocalAccessRoutingStrategy,
) -> Ordering {
    match strategy {
        CodexLocalAccessRoutingStrategy::Auto | CodexLocalAccessRoutingStrategy::PlanHighFirst =>
        and_next(
            larger_first(left.plan_rank, right.plan_rank),
            larger_first(left.remaining_quota, right.remaining_quota),
        ),
        CodexLocalAccessRoutingStrategy::QuotaHighFirst => and_next(
            larger_first(left.remaining_quota, right.remaining_quota),
            larger_first(left.plan_rank, right.plan_rank),
        ),
        CodexLocalAccessRoutingStrategy::QuotaLowFirst => and_next(
            smaller_first(left.remaining_quota, right.remaining_quota),
            larger_first(left.plan_rank, right.plan_rank),
        ),
        CodexLocalAccessRoutingStrategy::PlanLowFirst => and_next(
            smaller_first(left.plan_rank, right.plan_rank),
            larger_first(left.remaining_quota, right.remaining_quota),
        ),
    }
}

/// How two places compare.
pub open spec fn by_place(left: int, right: int) -> Ordering {
    if left < right {
        Ordering::Less
    } else if left > right {
        Ordering::Greater
    } else {
        Ordering::Equal
    }
}

/// How two candidates compare: by the strategy, then by their places in `ids`.
pub open spec fn comparison(
    left: Candidate,
    right: Candidate,
    strategy: CodexLocalAccessRoutingStrategy,
    ids: Seq<Seq<char>>,
) -> Ordering {
    and_next(
        by_strategy(left, right, strategy),
        by_place(place_of(ids, left.id), place_of(ids, right.id)),
    )
}

/// The order of a strategy.
pub open spec fn strategy_order(
    strategy: CodexLocalAccessRoutingStrategy,
    ids: Seq<Seq<char>>,
) -> spec_fn(Candidate, Candidate) -> bool {
    |left: Candidate, right: Candidate|
        comparison(left, right, strategy, ids) != Ordering::Greater
}

fn put_larger_first(a: Option<i32>, b: Option<i32>) -> (ordering: Ordering)
    ensures
        ordering == larger_first(a, b),
{
    match (a, b) {
        (Some(x), Some(y)) => if x > y {
            Ordering::Less
        } else if x < y {
            Ordering::Greater
        } else {
            Ordering::Equal
        },
        (Some(_), None) => Ordering::Less,
        (None, Some(_)) => Ordering::Greater,
        (None, None) => Ordering::Equal,
    }
}

fn put_smaller_first(a: Option<i32>, b: Option<i32>) -> (ordering: Ordering)
    ensures
        ordering == smaller_first(a, b),
{
    match (a, b) {
        (Some(x), Some(y)) => put_larger_first(Some(y), Some(x)),
        _ => put_larger_first(a, b),
    }
}

fn then_next(first: Ordering, second: Ordering) -> (ordering: Ordering)
    ensures
        ordering == and_next(first, second),
{
    match first {
        Ordering::Equal => second,
        _ => first,
    }
}

/// How two candidates compare: by the strategy, then by their places in `original_order`.
pub fn compare_routing_candidates(
    left: &RoutingCandidate,
    right: &RoutingCandidate,
    strategy: CodexLocalAccessRoutingStrategy,
    original_order: &[String],
) -> (ordering: Ordering)
    ensures
        ordering == comparison(left@, right@, strategy, text::texts(original_order@)),
{
    let ordering = match strategy {
        CodexLocalAccessRoutingStrategy::Auto | CodexLocalAccessRoutingStrategy::PlanHighFirst =>
        then_next(
            put_larger_first(left.plan_rank, right.plan_rank),
            put_larger_first(left.remaining_quota, right.remaining_quota),
        ),
        CodexLocalAccessRoutingStrategy::QuotaHighFirst => then_next(
            put_larger_first(left.remaining_quota, right.remaining_quota),
            put_larger_first(left.plan_rank, right.plan_rank),
        ),
        CodexLocalAccessRoutingStrategy::QuotaLowFirst => then_next(
            put_smaller_first(left.remaining_quota, right.remaining_quota),
            put_larger_first(left.plan_rank, right.plan_rank),
        ),
        CodexLocalAccessRoutingStrategy::PlanLowFirst => then_next(
            put_smaller_first(left.plan_rank, right.plan_rank),
            put_larger_first(left.remaining_quota, right.remaining_quota),
        ),
    };
    match ordering {
        Ordering::Equal => {
            let left_place = find_place(original_order, left.account_id.as_str());
            let right_place = find_place(original_order, right.account_id.as_str());
            if left_place < right_place {
                Ordering::Less
            } else if left_place > right_place {
                Ordering::Greater
            } else {
                Ordering::Equal
            }
        },
        _ => ordering,
    }
}

/// A strategy compares any two candidates and is consistent: it sorts.
pub proof fn strategies_are_orders(strategy: CodexLocalAccessRoutingStrategy, ids: Seq<Seq<char>>)
    ensures
        sort::total_preorder(strategy_order(strategy, ids)),
{
    let order = strategy_order(strategy, ids);
    assert forall|a: Candidate, b: Candidate| #[trigger] order(a, b) || order(b, a) by {}
    assert forall|a: Candidate, b: Candidate, c: Candidate| #[trigger]
        order(a, b) && #[trigger] order(b, c) implies order(a, c) by {}
}

/// The ids of candidates.
pub open spec fn candidate_ids(candidates: Seq<Candidate>) -> Seq<Seq<char>> {
    candidates.map_values(|c: Candidate| c.id)
}

/// The accounts in the order of the strategy.
pub open spec fn strategy_ids(
    ids: Seq<Seq<char>>,
    accounts: Seq<Option<CodexAccount>>,
    strategy: CodexLocalAccessRoutingStrategy,
) -> Seq<Seq<char>> {
    candidate_ids(
        sort::stable_sorted(candidates_of(ids, accounts), strategy_order(strategy, ids)),
    )
}

/// The accounts in the order of the strategy: `accounts[i]` is what was found under
/// `account_ids[i]`.
pub fn apply_routing_strategy(
    account_ids: &[String],
    accounts: &[Option<CodexAccount>],
    strategy: CodexLocalAccessRoutingStrategy,
) -> (ordered: Vec<String>)
    requires
        accounts@.len() == account_ids@.len(),
    ensures
        text::texts(ordered@) == strategy_ids(text::texts(account_ids@), accounts@, strategy),
{
    let candidates = build_routing_candidates(account_ids, accounts);
    let ghost ids = text::texts(account_ids@);
    let ghost order = strategy_order(strategy, ids);
    let ghost exact = |a: RoutingCandidate, b: RoutingCandidate| order(a@, b@);
    proof {
        let f = |c: RoutingCandidate| c@;
        sort::sorting_follows_map(candidates@, f, exact, order);
        assert(candidates@.map_values(f) =~= candidate_views(candidates@));
    }
    let before = |a: &RoutingCandidate, b: &RoutingCandidate| -> (yes: bool)
        ensures
            yes == (comparison(a@, b@, strategy, text::texts(account_ids@)) != Ordering::Greater),
        {
            match compare_routing_candidates(a, b, strategy, account_ids) {
                Ordering::Greater => false,
                _ => true,
            }
        };
    let sorted = sort::stable_sort(candidates, before, Ghost(exact));
    let mut ordered: Vec<String> = Vec::new();
    let mut i: usize = 0;
    while i < sorted.len()
        invariant
            i <= sorted@.len(),
            ordered@.len() == i,
            forall|k: int| 0 <= k < i ==> (#[trigger] ordered@[k])@ == sorted@[k].account_id@,
        decreases sorted@.len() - i,
    {
        ordered.push(sorted[i].account_id.clone());
        i += 1;
    }
    assert(candidate_views(sorted@) =~= sorted@.map_values(|c: RoutingCandidate| c@));
    assert(text::texts(ordered@) =~= candidate_ids(candidate_views(sorted@)));
    ordered
}

proof fn lemma_inserted_ids(
    s: Seq<Candidate>,
    x: Candidate,
    order: spec_fn(Candidate, Candidate) -> bool,
)
    ensures
        candidate_ids(sort::inserted(s, x, order)).to_multiset() == candidate_ids(
            s,
        ).to_multiset().insert(x.id),
    decreases s.len(),
{
    broadcast use vstd::seq_lib::group_to_multiset_ensures;

    if s.len() == 0 || order(s.last(), x) {
        assert(candidate_ids(s.push(x)) =~= candidate_ids(s).push(x.id));
    } else {
        lemma_inserted_ids(s.drop_last(), x, order);
        let t = sort::inserted(s.drop_last(), x, order);
        assert(candidate_ids(t.push(s.last())) =~= candidate_ids(t).push(s.last().id));
        assert(candidate_ids(s) =~= candidate_ids(s.drop_last()).push(s.last().id));
        assert(candidate_ids(t).push(s.last().id).to_multiset() =~= candidate_ids(
            s,
        ).to_multiset().insert(x.id));
    }
}

proof fn lemma_sorted_ids(s: Seq<Candidate>, order: spec_fn(Candidate, Candidate) -> bool)
    ensures
        candidate_ids(sort::stable_sorted(s, order)).to_multiset() == candidate_ids(
            s,
        ).to_multiset(),
    decreases s.len(),
{
    broadcast use vstd::seq_lib::group_to_multiset_ensures;

    if s.len() > 0 {
        lemma_sorted_ids(s.drop_last(), order);
        lemma_inserted_ids(sort::stable_sorted(s.drop_last(), order), s.last(), order);
        assert(candidate_ids(s) =~= candidate_ids(s.drop_last()).push(s.last().id));
    } else {
        assert(sort::stable_sorted(s, order) =~= s);
    }
}

/// A strategy only reorders: it neither drops nor repeats an account.
pub proof fn strategy_only_reorders(
    ids: Seq<Seq<char>>,
    accounts: Seq<Option<CodexAccount>>,
    strategy: CodexLocalAccessRoutingStrategy,
)
    requires
        accounts.len() == ids.len(),
    ensures
        strategy_ids(ids, accounts, strategy).to_multiset() == ids.to_multiset(),
        sort::sorted_by(
            sort::stable_sorted(candidates_of(ids, accounts), strategy_order(strategy, ids)),
            strategy_order(strategy, ids),
        ),
{
    strategies_are_orders(strategy, ids);
    sort::sorting_orders_and_keeps(candidates_of(ids, accounts), strategy_order(strategy, ids));
    lemma_sorted_ids(candidates_of(ids, accounts), strategy_order(strategy, ids));
    assert(candidate_ids(candidates_of(ids, accounts)) =~= ids);
}

// ---------------------------------------------------------------------------------------
// Pinning
// ---------------------------------------------------------------------------------------

/// The values of `s` other than `x`.
pub open spec fn without<T>(s: Seq<T>, x: T) -> Seq<T>
    decreases s.len(),
{
    if s.len() == 0 {
        Seq::empty()
    } else if s.last() == x {
        without(s.drop_last(), x)
    } else {
        without(s.drop_last(), x).push(s.last())
    }
}

/// The ids other than `id`.
pub fn remove_id(ids: &[String], id: &str) -> (rest: Vec<String>)
    ensures
        text::texts(rest@) == without(text::texts(ids@), id@),
{
    let ghost all = text::texts(ids@);
    let mut rest: Vec<String> = Vec::new();
    assert(text::texts(rest@) =~= without(all.take(0), id@));
    let mut i: usize = 0;
    while i < ids.len()
        invariant
            i <= ids@.len(),
            all == text::texts(ids@),
            text::texts(rest@) == without(all.take(i as int), id@),
        decreases ids@.len() - i,
    {
        let ghost before = rest@;
        proof {
            assert(all.take(i + 1).drop_last() =~= all.take(i as int));
            assert(all.take(i + 1).last() == ids@[i as int]@);
        }
        if !text::same(ids[i].as_str(), id) {
            rest.push(ids[i].clone());
            assert(text::texts(rest@) =~= text::texts(before).push(ids@[i as int]@));
        }
        i += 1;
    }
    assert(all.take(i as int) =~= all);
    rest
}

/// The accounts with the preferred one, if it is among them, in first place.
pub open spec fn pinned(ids: Seq<Seq<char>>, preferred: Option<Seq<char>>) -> Seq<Seq<char>> {
    match preferred {
        Some(p) => {
            let id = text::trimmed(p);
            if id.len() == 0 {
                ids
            } else {
                preferred_in(ids, Some(id)) + without(ids, id)
            }
        },
        None => ids,
    }
}

/// The accounts with the preferred one, if it is among them, in first place.
pub fn pin_account_to_front(
    account_ids: Vec<String>,
    preferred_account_id: Option<&str>,
) -> (ordered: Vec<String>)
    ensures
        text::texts(ordered@) == pinned(
            text::texts(account_ids@),
            text::opt_str(preferred_account_id),
        ),
{
    let preferred = match preferred_account_id {
        Some(id) => match text::trim_non_empty(id) {
            Some(inner) => inner,
            None => return account_ids,
        },
        None => return account_ids,
    };
    let ghost ids = text::texts(account_ids@);
    let mut ordered = remove_id(account_ids.as_slice(), preferred.as_str());
    if text::is_member(account_ids.as_slice(), preferred.as_str()) {
        let ghost rest = ordered@;
        let ghost id = preferred@;
        ordered.insert(0, preferred);
        assert(text::texts(ordered@) =~= seq![id] + text::texts(rest));
    } else {
        assert(text::texts(ordered@) =~= Seq::empty() + text::texts(ordered@));
    }
    ordered
}

/// What [`without`] keeps: every value of `s` but `x`.
pub proof fn lemma_without<T>(s: Seq<T>, x: T)
    ensures
        forall|y: T| #[trigger] without(s, x).contains(y) == (y != x && s.contains(y)),
        s.no_duplicates() ==> without(s, x).no_duplicates(),
    decreases s.len(),
{
    if s.len() > 0 {
        let shorter = s.drop_last();
        lemma_without(shorter, x);
        let w = without(shorter, x);
        assert forall|y: T| #[trigger] without(s, x).contains(y) == (y != x && s.contains(y)) by {
            if without(s, x).contains(y) {
                let k = choose|k: int| 0 <= k < without(s, x).len() && without(s, x)[k] == y;
                if k < w.len() {
                    assert(w.contains(w[k]));
                    let m = choose|m: int| 0 <= m < shorter.len() && shorter[m] == y;
                    assert(s[m] == y);
                } else {
                    assert(s[s.len() - 1] == y);
                }
            }
            if y != x && s.contains(y) {
                let k = choose|k: int| 0 <= k < s.len() && s[k] == y;
                if k < s.len() - 1 {
                    assert(shorter[k] == y);
                    assert(shorter.contains(y));
                    assert(w.contains(y));
                    let m = choose|m: int| 0 <= m < w.len() && w[m] == y;
                    assert(without(s, x)[m] == y);
                } else {
                    assert(without(s, x)[w.len() as int] == y);
                }
            }
        }
        if s.no_duplicates() {
            assert(shorter.no_duplicates());
            if s.last() != x && w.contains(s.last()) {
                assert(shorter.contains(s.last()));
                let m = choose|m: int| 0 <= m < shorter.len() && shorter[m] == s.last();
                assert(s[m] == s[s.len() - 1]);
            }
        }
    }
}

/// Pinning neither drops nor adds an account, repeats none that was not repeated before,
/// and puts the preferred one first.
pub proof fn pinning_only_reorders(ids: Seq<Seq<char>>, preferred: Option<Seq<char>>)
    ensures
        forall|id: Seq<char>| #[trigger] pinned(ids, preferred).contains(id) == ids.contains(id),
        ids.no_duplicates() ==> pinned(ids, preferred).no_duplicates(),
        preferred is Some && text::trimmed(preferred->0).len() > 0 && ids.contains(
            text::trimmed(preferred->0),
        ) ==> pinned(ids, preferred).len() > 0 && pinned(ids, preferred)[0] == text::trimmed(
            preferred->0,
        ),
{
    if preferred is Some && text::trimmed(preferred->0).len() > 0 {
        let id = text::trimmed(preferred->0);
        lemma_without(ids, id);
        let head = preferred_in(ids, Some(id));
        let tail = without(ids, id);
        let all = pinned(ids, preferred);
        assert forall|y: Seq<char>| #[trigger] all.contains(y) == ids.contains(y) by {
            if all.contains(y) {
                let k = choose|k: int| 0 <= k < all.len() && all[k] == y;
                if k >= head.len() {
                    assert(tail[k - head.len()] == y);
                    assert(tail.contains(y));
                }
            }
            if ids.contains(y) {
                if y == id {
                    assert(all[0] == y);
                } else {
                    assert(tail.contains(y));
                    let k = choose|k: int| 0 <= k < tail.len() && tail[k] == y;
                    assert(all[head.len() + k] == y);
                }
            }
        }
        if ids.no_duplicates() {
            assert forall|i: int, j: int|
                0 <= i < all.len() && 0 <= j < all.len() && i != j implies all[i] != all[j] by {
                assert(!tail.contains(id));
                if i >= head.len() && j >= head.len() {
                    assert(tail[i - head.len()] != tail[j - head.len()]);
                } else if i >= head.len() {
                    assert(tail.contains(tail[i - head.len()]));
                } else if j >= head.len() {
                    assert(tail.contains(tail[j - head.len()]));
                }
            }
        }
        if ids.contains(id) {
            assert(all[0] == id);
        }
    }
}

// ---------------------------------------------------------------------------------------
// What comes first
// ---------------------------------------------------------------------------------------

/// In `order`, `a` stands somewhere before `b`.
pub open spec fn stands_before<T>(order: Seq<T>, a: T, b: T) -> bool {
    exists|p: int, q: int| 0 <= p < q < order.len() && #[trigger] order[p] == a && #[trigger] order[q] == b
}

/// How high the plan of an account ranks, if it was found and that is known.
pub open spec fn known_rank(found: Option<CodexAccount>) -> Option<i32> {
    if found is Some {
        account::plan_rank(found->0)
    } else {
        None
    }
}

/// How much an account has left, if it was found and that is known.
pub open spec fn known_quota(found: Option<CodexAccount>) -> Option<i32> {
    if found is Some {
        account::quota_left(found->0)
    } else {
        None
    }
}

/// The first number is known, and the second is smaller or unknown.
pub open spec fn known_to_be_more(a: Option<i32>, b: Option<i32>) -> bool {
    a is Some && (b is None || a->0 > b->0)
}

/// The first number is known, and the second is larger or unknown.
pub open spec fn known_to_be_less(a: Option<i32>, b: Option<i32>) -> bool {
    a is Some && (b is None || a->0 < b->0)
}

proof fn lemma_strictly_first(
    ids: Seq<Seq<char>>,
    accounts: Seq<Option<CodexAccount>>,
    strategy: CodexLocalAccessRoutingStrategy,
    i: int,
    k: int,
)
    requires
        accounts.len() == ids.len(),
        0 <= i < ids.len(),
        0 <= k < ids.len(),
        comparison(candidate_of(ids[i], accounts[i]), candidate_of(ids[k], accounts[k]), strategy, ids)
            == Ordering::Less,
    ensures
        stands_before(strategy_ids(ids, accounts, strategy), ids[i], ids[k]),
{
    broadcast use vstd::seq_lib::group_to_multiset_ensures;

    let order = strategy_order(strategy, ids);
    let all = candidates_of(ids, accounts);
    let sorted = sort::stable_sorted(all, order);
    strategies_are_orders(strategy, ids);
    sort::sorting_orders_and_keeps(all, order);
    let a = candidate_of(ids[i], accounts[i]);
    let b = candidate_of(ids[k], accounts[k]);
    assert(all[i] == a && all[k] == b);
    assert(all.to_multiset().count(a) > 0 && all.to_multiset().count(b) > 0);
    assert(sorted.contains(a) && sorted.contains(b));
    let p = choose|p: int| 0 <= p < sorted.len() && sorted[p] == a;
    let q = choose|q: int| 0 <= q < sorted.len() && sorted[q] == b;
    assert(!order(b, a));
    if q < p {
        assert(order(sorted[q], sorted[p]));
    }
    assert(p != q) by {
        assert(order(a, a));
    }
    let out = strategy_ids(ids, accounts, strategy);
    assert(out[p] == ids[i] && out[q] == ids[k]);
}

proof fn lemma_place(ids: Seq<Seq<char>>, i: int)
    requires
        ids.no_duplicates(),
        0 <= i < ids.len(),
    ensures
        place_of(ids, ids[i]) == i,
    decreases ids.len(),
{
    if i < ids.len() - 1 {
        let shorter = ids.drop_last();
        assert(shorter.no_duplicates());
        assert(ids[i] != ids[ids.len() - 1]);
        assert(shorter[i] == ids[i]);
        lemma_place(shorter, i);
    }
}

/// Where plans are to be used from the highest down, and by default, the account with the
/// higher plan is tried first, and of two with the same plan the one with more quota left.
pub proof fn high_plans_come_first(
    ids: Seq<Seq<char>>,
    accounts: Seq<Option<CodexAccount>>,
    strategy: CodexLocalAccessRoutingStrategy,
    i: int,
    k: int,
)
    requires
        accounts.len() == ids.len(),
        0 <= i < ids.len(),
        0 <= k < ids.len(),
        strategy is Auto || strategy is PlanHighFirst,
    ensures
        known_to_be_more(known_rank(accounts[i]), known_rank(accounts[k])) ==> stands_before(
            strategy_ids(ids, accounts, strategy),
            ids[i],
            ids[k],
        ),
        known_rank(accounts[i]) == known_rank(accounts[k]) && known_to_be_more(
            known_quota(accounts[i]),
            known_quota(accounts[k]),
        ) ==> stands_before(strategy_ids(ids, accounts, strategy), ids[i], ids[k]),
{
    if known_to_be_more(known_rank(accounts[i]), known_rank(accounts[k])) || (known_rank(accounts[i])
        == known_rank(accounts[k]) && known_to_be_more(
        known_quota(accounts[i]),
        known_quota(accounts[k]),
    )) {
        lemma_strictly_first(ids, accounts, strategy, i, k);
    }
}

/// Where plans are to be used from the lowest up, the account with the lower plan is tried
/// first, and of two with the same plan the one with more quota left.
pub proof fn low_plans_come_first(
    ids: Seq<Seq<char>>,
    accounts: Seq<Option<CodexAccount>>,
    i: int,
    k: int,
)
    requires
        accounts.len() == ids.len(),
        0 <= i < ids.len(),
        0 <= k < ids.len(),
    ensures
        ({
            let order = strategy_ids(
                ids,
                accounts,
                CodexLocalAccessRoutingStrategy::PlanLowFirst,
            );
            &&& known_to_be_less(known_rank(accounts[i]), known_rank(accounts[k]))
                ==> stands_before(order, ids[i], ids[k])
            &&& known_rank(accounts[i]) == known_rank(accounts[k]) && known_to_be_more(
                known_quota(accounts[i]),
                known_quota(accounts[k]),
            ) ==> stands_before(order, ids[i], ids[k])
        }),
{
    if known_to_be_less(known_rank(accounts[i]), known_rank(accounts[k])) || (known_rank(accounts[i])
        == known_rank(accounts[k]) && known_to_be_more(
        known_quota(accounts[i]),
        known_quota(accounts[k]),
    )) {
        lemma_strictly_first(
            ids,
            accounts,
            CodexLocalAccessRoutingStrategy::PlanLowFirst,
            i,
            k,
        );
    }
}

/// Where much quota comes first, the account with more quota left is tried first, and of two
/// with the same the one with the higher plan.
pub proof fn high_quotas_come_first(
    ids: Seq<Seq<char>>,
    accounts: Seq<Option<CodexAccount>>,
    i: int,
    k: int,
)
    requires
        accounts.len() == ids.len(),
        0 <= i < ids.len(),
        0 <= k < ids.len(),
    ensures
        ({
            let order = strategy_ids(
                ids,
                accounts,
                CodexLocalAccessRoutingStrategy::QuotaHighFirst,
            );
            &&& known_to_be_more(known_quota(accounts[i]), known_quota(accounts[k]))
                ==> stands_before(order, ids[i], ids[k])
            &&& known_quota(accounts[i]) == known_quota(accounts[k]) && known_to_be_more(
                known_rank(accounts[i]),
                known_rank(accounts[k]),
            ) ==> stands_before(order, ids[i], ids[k])
        }),
{
    if known_to_be_more(known_quota(accounts[i]), known_quota(accounts[k])) || (known_quota(
        accounts[i],
    ) == known_quota(accounts[k]) && known_to_be_more(
        known_rank(accounts[i]),
        known_rank(accounts[k]),
    )) {
        lemma_strictly_first(
            ids,
            accounts,
            CodexLocalAccessRoutingStrategy::QuotaHighFirst,
            i,
            k,
        );
    }
}

/// Where little quota comes first, the account with less quota left is tried first, and of two
/// with the same the one with the higher plan.
pub proof fn low_quotas_come_first(
    ids: Seq<Seq<char>>,
    accounts: Seq<Option<CodexAccount>>,
    i: int,
    k: int,
)
    requires
        accounts.len() == ids.len(),
        0 <= i < ids.len(),
        0 <= k < ids.len(),
    ensures
        ({
            let order = strategy_ids(
                ids,
                accounts,
                CodexLocalAccessRoutingStrategy::QuotaLowFirst,
            );
            &&& known_to_be_less(known_quota(accounts[i]), known_quota(accounts[k]))
                ==> stands_before(order, ids[i], ids[k])
            &&& known_quota(accounts[i]) == known_quota(accounts[k]) && known_to_be_more(
                known_rank(accounts[i]),
                known_rank(accounts[k]),
            ) ==> stands_before(order, ids[i], ids[k])
        }),
{
    if known_to_be_less(known_quota(accounts[i]), known_quota(accounts[k])) || (known_quota(
        accounts[i],
    ) == known_quota(accounts[k]) && known_to_be_more(
        known_rank(accounts[i]),
        known_rank(accounts[k]),
    )) {
        lemma_strictly_first(
            ids,
            accounts,
            CodexLocalAccessRoutingStrategy::QuotaLowFirst,
            i,
            k,
        );
    }
}

/// Accounts between which plan and quota make no difference are tried in turn, whatever the
/// strategy.
pub proof fn equal_accounts_take_turns(
    ids: Seq<Seq<char>>,
    accounts: Seq<Option<CodexAccount>>,
    strategy: CodexLocalAccessRoutingStrategy,
    i: int,
    k: int,
)
    requires
        accounts.len() == ids.len(),
        ids.no_duplicates(),
        0 <= i < k < ids.len(),
        known_rank(accounts[i]) == known_rank(accounts[k]),
        known_quota(accounts[i]) == known_quota(accounts[k]),
    ensures
        stands_before(strategy_ids(ids, accounts, strategy), ids[i], ids[k]),
{
    lemma_place(ids, i);
    lemma_place(ids, k);
    lemma_strictly_first(ids, accounts, strategy, i, k);
}

/// Who stands before whom in a list without repetitions is one-sided, so that the laws of the
/// strategies fix the order.
pub proof fn standing_before_is_one_sided<T>(order: Seq<T>, a: T, b: T)
    requires
        order.no_duplicates(),
        stands_before(order, a, b),
    ensures
        !stands_before(order, b, a),
{
}

proof fn lemma_firsts_of_distinct<T>(s: Seq<T>)
    requires
        s.no_duplicates(),
    ensures
        firsts(s) == s,
    decreases s.len(),
{
    if s.len() > 0 {
        let shorter = s.drop_last();
        assert(shorter.no_duplicates());
        lemma_firsts_of_distinct(shorter);
        assert(!shorter.contains(s.last())) by {
            if shorter.contains(s.last()) {
                let k = choose|k: int| 0 <= k < shorter.len() && shorter[k] == s.last();
                assert(s[k] == s[s.len() - 1]);
            }
        }
        assert(shorter.push(s.last()) =~= s);
    } else {
        assert(firsts(s) =~= s);
    }
}

proof fn lemma_rotation_distinct<T>(s: Seq<T>, start: int)
    requires
        s.no_duplicates(),
        0 <= start,
    ensures
        rotation(s, start).no_duplicates(),
{
    let r = rotation(s, start);
    let n = s.len() as int;
    assert forall|a: int, b: int|
        0 <= a < r.len() && 0 <= b < r.len() && a != b implies r[a] != r[b] by {
        let x = (start + a) % n;
        let y = (start + b) % n;
        if x == y {
            vstd::arithmetic::div_mod::lemma_fundamental_div_mod(start + a, n);
            vstd::arithmetic::div_mod::lemma_fundamental_div_mod(start + b, n);
            let p = (start + a) / n;
            let q = (start + b) / n;
            assert(a - b == n * p - n * q);
            assert(n * p - n * q == n * (p - q)) by (nonlinear_arith);
            if p > q {
                assert(n * (p - q) >= n) by (nonlinear_arith)
                    requires
                        p > q,
                        n > 0,
                ;
            } else if p < q {
                assert(n * (p - q) <= -n) by (nonlinear_arith)
                    requires
                        p < q,
                        n > 0,
                ;
            } else {
                assert(n * (p - q) == 0) by (nonlinear_arith)
                    requires
                        p == q,
                ;
            }
        }
    }
}

/// Without a preferred account a round goes through the pool in its own order, beginning with
/// the account whose turn it is, and round again from its beginning. The next turn begins with
/// the next account.
pub proof fn rounds_go_in_circles(ids: Seq<Seq<char>>, start: int, k: int)
    requires
        ids.no_duplicates(),
        0 <= start,
        0 <= k < ids.len(),
    ensures
        round_order(ids, start, None).len() == ids.len(),
        round_order(ids, start, None)[k] == ids[(start + k) % ids.len() as int],
        k + 1 < ids.len() ==> round_order(ids, start + 1, None)[k] == round_order(
            ids,
            start,
            None,
        )[k + 1],
        round_order(ids, start + 1, None).last() == round_order(ids, start, None)[0],
{
    let n = ids.len() as int;
    let r = rotation(ids, start);
    let later = rotation(ids, start + 1);
    lemma_rotation_distinct(ids, start);
    lemma_rotation_distinct(ids, start + 1);
    lemma_firsts_of_distinct(r);
    lemma_firsts_of_distinct(later);
    assert(preferred_in(ids, None) + r =~= r);
    assert(preferred_in(ids, None) + later =~= later);
    vstd::arithmetic::div_mod::lemma_mod_add_multiples_vanish(start, n);
    assert(later[n - 1] == ids[(start + 1 + (n - 1)) % n]);
    assert(start + 1 + (n - 1) == n + start);
}

proof fn lemma_without_push<T>(s: Seq<T>, x: T, last: T)
    ensures
        without(s.push(last), x) == (if last == x {
            without(s, x)
        } else {
            without(s, x).push(last)
        }),
{
    assert(s.push(last).drop_last() =~= s);
}

proof fn lemma_firsts_behind<T>(x: T, s: Seq<T>)
    ensures
        firsts(seq![x] + s) == seq![x] + without(firsts(s), x),
    decreases s.len(),
{
    let all = seq![x] + s;
    if s.len() == 0 {
        assert(all.drop_last() =~= Seq::empty());
        assert(firsts(Seq::<T>::empty()) =~= Seq::empty());
        assert(firsts(s) =~= Seq::empty());
        assert(without(firsts(s), x) =~= Seq::empty());
        assert(firsts(all) =~= seq![x]);
        assert(seq![x] + without(firsts(s), x) =~= seq![x]);
    } else {
        let shorter = s.drop_last();
        let last = s.last();
        lemma_firsts_behind(x, shorter);
        assert(all.drop_last() =~= seq![x] + shorter);
        assert(all.last() == last);
        let before = firsts(shorter);
        let head = seq![x] + without(before, x);
        lemma_without(before, x);
        assert(head.contains(last) == (last == x || before.contains(last))) by {
            if last == x {
                assert(head[0] == last);
            }
            if before.contains(last) && last != x {
                assert(without(before, x).contains(last));
                let k = choose|k: int|
                    0 <= k < without(before, x).len() && without(before, x)[k] == last;
                assert(head[k + 1] == last);
            }
            if head.contains(last) && last != x {
                let k = choose|k: int| 0 <= k < head.len() && head[k] == last;
                assert(without(before, x)[k - 1] == last);
                assert(without(before, x).contains(last));
            }
        }
        if !before.contains(last) {
            lemma_without_push(before, x, last);
            if last != x {
                assert(head.push(last) =~= seq![x] + without(before, x).push(last));
            }
        }
    }
}

/// A preferred account of the pool moves to the front of the round; the others keep the order
/// that they have without it. One that is not of the pool changes nothing.
pub proof fn preference_moves_one_account(ids: Seq<Seq<char>>, start: int, preferred: Seq<char>)
    ensures
        ids.contains(preferred) ==> round_order(ids, start, Some(preferred)) == seq![preferred]
            + without(round_order(ids, start, None), preferred),
        !ids.contains(preferred) ==> round_order(ids, start, Some(preferred)) == round_order(
            ids,
            start,
            None,
        ),
{
    let turn = rotation(ids, start);
    assert(preferred_in(ids, None) + turn =~= turn);
    if ids.contains(preferred) {
        lemma_firsts_behind(preferred, turn);
    }
}

proof fn lemma_without_keeps_order<T>(s: Seq<T>, x: T, a: T, b: T)
    requires
        stands_before(s, a, b),
        a != x,
        b != x,
    ensures
        stands_before(without(s, x), a, b),
    decreases s.len(),
{
    let (p, q) = choose|p: int, q: int|
        0 <= p < q < s.len() && #[trigger] s[p] == a && #[trigger] s[q] == b;
    let shorter = s.drop_last();
    let w = without(shorter, x);
    if q < s.len() - 1 {
        assert(shorter[p] == a && shorter[q] == b);
        lemma_without_keeps_order(shorter, x, a, b);
        let (m, n) = choose|m: int, n: int|
            0 <= m < n < w.len() && #[trigger] w[m] == a && #[trigger] w[n] == b;
        assert(without(s, x)[m] == a && without(s, x)[n] == b);
    } else {
        lemma_without(shorter, x);
        assert(shorter[p] == a);
        assert(shorter.contains(a));
        assert(w.contains(a));
        let m = choose|m: int| 0 <= m < w.len() && w[m] == a;
        assert(without(s, x)[m] == a && without(s, x)[w.len() as int] == b);
    }
}

/// Leaving out one account, or moving it to the front, keeps the order of the others.
pub proof fn others_keep_their_order(
    ids: Seq<Seq<char>>,
    id: Seq<char>,
    a: Seq<char>,
    b: Seq<char>,
)
    requires
        stands_before(ids, a, b),
        a != text::trimmed(id),
        b != text::trimmed(id),
    ensures
        stands_before(without(ids, text::trimmed(id)), a, b),
        stands_before(pinned(ids, Some(id)), a, b),
        pinned(ids, None) == ids,
{
    let p = text::trimmed(id);
    let rest = without(ids, p);
    lemma_without_keeps_order(ids, p, a, b);
    let (m, n) = choose|m: int, n: int|
        0 <= m < n < rest.len() && #[trigger] rest[m] == a && #[trigger] rest[n] == b;
    if p.len() > 0 {
        let head = preferred_in(ids, Some(p));
        let all = pinned(ids, Some(id));
        assert(all[head.len() + m] == a && all[head.len() + n] == b);
    }
}

} // verus!
