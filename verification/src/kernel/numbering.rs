//! Allocation of nonzero `u64` numbers (reply tokens, anonymous store ids): starting from a
//! cursor, take the first number that is not in use, and move the cursor past it.
use vstd::prelude::*;

verus! {

/// The number after `n` in allocation order: numbers run through `1..=u64::MAX` and then
/// start over at 1, so 0 is never handed out.
pub open spec fn next_number(n: u64) -> u64 {
    if n == u64::MAX { 1 } else { (n + 1) as u64 }
}

/// The `k`-th number tried when allocation starts at `start` (with `1 <= start`).
pub open spec fn number_probe(start: u64, k: nat) -> u64 {
    ((((start - 1) + k) % (u64::MAX as int)) + 1) as u64
}

/// The number that allocation starting at `start` hands out when the numbers in `taken` are
/// in use: the first probe that is not taken.
pub open spec fn allocated_number(start: u64, taken: Set<u64>, n: u64) -> bool {
    exists|k: nat|
        #![trigger number_probe(start, k)]
        number_probe(start, k) == n && !taken.contains(n) && (forall|j: nat|
            j < k ==> taken.contains(#[trigger] number_probe(start, j)))
}

/// The allocated number is determined by the start and the numbers in use.
pub proof fn lemma_allocated_unique(start: u64, taken: Set<u64>, t1: u64, t2: u64)
    requires
        allocated_number(start, taken, t1),
        allocated_number(start, taken, t2),
    ensures
        t1 == t2,
{
    let k1 = choose|k: nat|
        #![trigger number_probe(start, k)]
        number_probe(start, k) == t1 && !taken.contains(t1) && (forall|j: nat| j < k ==> taken.contains(#[trigger] number_probe(start, j)));
    let k2 = choose|k: nat|
        #![trigger number_probe(start, k)]
        number_probe(start, k) == t2 && !taken.contains(t2) && (forall|j: nat| j < k ==> taken.contains(#[trigger] number_probe(start, j)));
    if k1 < k2 {
        assert(taken.contains(number_probe(start, k1)));
    } else if k2 < k1 {
        assert(taken.contains(number_probe(start, k2)));
    }
}

/// `t` is the number chosen for `start` and `taken`.
pub proof fn lemma_allocated_is_chosen(start: u64, taken: Set<u64>, t: u64)
    requires
        allocated_number(start, taken, t),
    ensures
        (choose|x: u64| allocated_number(start, taken, x)) == t,
{
    let c = choose|x: u64| allocated_number(start, taken, x);
    lemma_allocated_unique(start, taken, c, t);
}

/// One probe step is one successor step.
pub proof fn lemma_probe_step(start: u64, k: nat)
    requires
        1 <= start,
    ensures
        number_probe(start, k + 1) == next_number(number_probe(start, k)),
        1 <= number_probe(start, k),
{
    let m = u64::MAX as int;
    let a = (start - 1) + k;
    assert(a % m + 1 <= m);
    if a % m == m - 1 {
        assert((a + 1) % m == 0) by {
            vstd::arithmetic::div_mod::lemma_fundamental_div_mod(a, m);
            vstd::arithmetic::div_mod::lemma_fundamental_div_mod_converse(
                a + 1,
                m,
                a / m + 1,
                0,
            );
        }
    } else {
        assert((a + 1) % m == a % m + 1) by {
            vstd::arithmetic::div_mod::lemma_fundamental_div_mod(a, m);
            vstd::arithmetic::div_mod::lemma_fundamental_div_mod_converse(
                a + 1,
                m,
                a / m,
                a % m + 1,
            );
        }
    }
}

/// Probes at distinct steps below `u64::MAX` are distinct numbers.
pub proof fn lemma_probe_injective(start: u64, i: nat, j: nat)
    requires
        1 <= start,
        i < j < u64::MAX,
    ensures
        number_probe(start, i) != number_probe(start, j),
{
    let m = u64::MAX as int;
    let a = (start - 1) + i;
    let b = (start - 1) + j;
    vstd::arithmetic::div_mod::lemma_fundamental_div_mod(a, m);
    vstd::arithmetic::div_mod::lemma_fundamental_div_mod(b, m);
    if a % m == b % m {
        assert(b - a == m * (b / m - a / m)) by (nonlinear_arith)
            requires
                a == m * (a / m) + a % m,
                b == m * (b / m) + b % m,
                a % m == b % m,
        ;
        assert(0 < b - a < m);
        if b / m - a / m >= 1 {
            assert(m * (b / m - a / m) >= m) by (nonlinear_arith)
                requires
                    b / m - a / m >= 1,
                    m > 0,
            ;
        } else {
            assert(m * (b / m - a / m) <= 0) by (nonlinear_arith)
                requires
                    b / m - a / m <= 0,
                    m > 0,
            ;
        }
    }
}

/// A number handed out is never 0 and never one already in use.
pub proof fn law_allocated_is_fresh(start: u64, taken: Set<u64>, n: u64)
    requires
        1 <= start,
        allocated_number(start, taken, n),
    ensures
        n != 0,
        !taken.contains(n),
{
    let k = choose|k: nat|
        #![trigger number_probe(start, k)]
        number_probe(start, k) == n && !taken.contains(n) && (forall|j: nat| j < k ==> taken.contains(#[trigger] number_probe(start, j)));
    lemma_probe_step(start, k);
}

/// Probing from step `k` on finds a free number, given that the steps before `k` hit the
/// numbers `tried`, all of them in use.
proof fn lemma_free_from(start: u64, taken: Set<u64>, k: nat, tried: Set<u64>) -> (n: u64)
    requires
        1 <= start,
        taken.finite(),
        taken.len() < u64::MAX,
        tried.finite(),
        tried.len() == k,
        tried.subset_of(taken),
        forall|j: nat| j < k ==> taken.contains(#[trigger] number_probe(start, j)),
        forall|x: u64| tried.contains(x) ==> exists|j: nat| j < k && number_probe(start, j) == x,
    ensures
        allocated_number(start, taken, n),
    decreases taken.len() - k,
{
    vstd::set_lib::lemma_len_subset(tried, taken);
    let c = number_probe(start, k);
    if !taken.contains(c) {
        c
    } else {
        assert(!tried.contains(c)) by {
            if tried.contains(c) {
                let j = choose|j: nat| j < k && number_probe(start, j) == c;
                lemma_probe_injective(start, j, k);
            }
        }
        let tried2 = tried.insert(c);
        vstd::set_lib::lemma_len_subset(tried2, taken);
        assert forall|x: u64| tried2.contains(x) implies exists|j: nat| j < k + 1 && number_probe(start, j) == x by {
            if x == c {
                assert(number_probe(start, k) == x);
            } else {
                let j = choose|j: nat| j < k && number_probe(start, j) == x;
                assert(j < k + 1 && number_probe(start, j) == x);
            }
        }
        lemma_free_from(start, taken, k + 1, tried2)
    }
}

/// While fewer than `u64::MAX` numbers are in use, allocation from any nonzero start finds a
/// number.
pub proof fn lemma_free_number_exists(start: u64, taken: Set<u64>)
    requires
        1 <= start,
        taken.finite(),
        taken.len() < u64::MAX,
    ensures
        exists|n: u64| allocated_number(start, taken, n),
{
    let n = lemma_free_from(start, taken, 0, Set::empty());
}

/// A table whose keys are `u64` numbers.
pub trait NumberedTable {
    /// The numbers in use.
    spec fn numbers(&self) -> Set<u64>;

    /// Whether `n` is in use.
    fn holds(&self, n: u64) -> (r: bool)
        ensures
            r == self.numbers().contains(n);
}

/// Picks the first number from `*next` on that `table` does not hold, and moves `*next` to
/// the number after it.
pub fn allocate_number<T: NumberedTable>(next: &mut u64, table: &T) -> (n: u64)
    requires
        *old(next) != 0,
        table.numbers().finite(),
        table.numbers().len() < u64::MAX,
    ensures
        allocated_number(*old(next), table.numbers(), n),
        n != 0,
        *final(next) == next_number(n),
{
    let ghost start = *next;
    let ghost dom = table.numbers();
    let ghost mut tried: Set<u64> = Set::empty();
    let ghost mut k: nat = 0;
    assert(number_probe(start, 0) == start) by {
        vstd::arithmetic::div_mod::lemma_small_mod((start - 1) as nat, u64::MAX as nat);
    }
    loop
        invariant
            1 <= start,
            dom.finite(),
            dom.len() < u64::MAX,
            dom == table.numbers(),
            start == *old(next),
            *next == number_probe(start, k),
            *next != 0,
            tried.finite(),
            tried.len() == k,
            tried.subset_of(dom),
            k <= dom.len(),
            forall|j: nat| j < k ==> dom.contains(#[trigger] number_probe(start, j)),
            forall|x: u64| tried.contains(x) ==> exists|j: nat| j < k && number_probe(start, j) == x,
        decreases dom.len() - k,
    {
        let candidate = *next;
        let mut following = candidate.wrapping_add(1);
        if following == 0 {
            following = 1;
        }
        proof {
            lemma_probe_step(start, k);
        }
        *next = following;
        if !table.holds(candidate) {
            assert(number_probe(start, k) == candidate);
            return candidate;
        }
        proof {
            assert(!tried.contains(candidate)) by {
                if tried.contains(candidate) {
                    let j = choose|j: nat| j < k && number_probe(start, j) == candidate;
                    lemma_probe_injective(start, j, k);
                }
            }
            tried = tried.insert(candidate);
            vstd::set_lib::lemma_len_subset(tried, dom);
            k = k + 1;
        }
    }
}

} // verus!
