//! The xorshift generator that drives every random choice, the Fisher-Yates shuffle
//! built on it, and the clock that seeds it.
use std::time::Duration;
use std::time::SystemTime;
use std::time::SystemTimeError;

use vstd::prelude::*;

use crate::types::{Dir, all_dirs};

verus! {

#[verifier::external_type_specification]
#[verifier::external_body]
pub struct ExSystemTime(SystemTime);

#[verifier::external_type_specification]
#[verifier::external_body]
pub struct ExSystemTimeError(SystemTimeError);

/// One step of Marsaglia's 32-bit xorshift (shifts 13, 17, 5).
pub open spec fn xorshift_next(s: u32) -> u32 {
    let a = s ^ (s << 13u32);
    let b = a ^ (a >> 17u32);
    b ^ (b << 5u32)
}

/// The state after `n` steps of the generator.
pub open spec fn xorshift_iter(s: u32, n: nat) -> u32
    decreases n,
{
    if n == 0 {
        s
    } else {
        xorshift_iter(xorshift_next(s), (n - 1) as nat)
    }
}

/// One more step of the generator after `n` steps.
pub proof fn lemma_xorshift_iter_succ(s: u32, n: nat)
    ensures
        xorshift_iter(s, n + 1) == xorshift_next(xorshift_iter(s, n)),
    decreases n,
{
    if n > 0 {
        lemma_xorshift_iter_succ(xorshift_next(s), (n - 1) as nat);
        assert(xorshift_iter(s, n + 1) == xorshift_iter(xorshift_next(s), n));
        assert(xorshift_iter(s, n) == xorshift_iter(xorshift_next(s), (n - 1) as nat));
    } else {
        assert(xorshift_iter(xorshift_next(s), 0) == xorshift_next(s));
        assert(xorshift_iter(s, 1) == xorshift_iter(xorshift_next(s), 0));
    }
}

/// Advances the generator and returns the new state.
pub fn xorshift(seed: &mut u32) -> (r: u32)
    ensures
        *final(seed) == xorshift_next(*old(seed)),
        r == *final(seed),
{
    *seed = *seed ^ (*seed << 13u32);
    *seed = *seed ^ (*seed >> 17u32);
    *seed = *seed ^ (*seed << 5u32);
    *seed
}

/// `s` with the entries at `i` and `j` exchanged.
pub open spec fn swap_at<A>(s: Seq<A>, i: int, j: int) -> Seq<A> {
    s.update(i, s[j]).update(j, s[i])
}

/// The Fisher-Yates shuffle of the first `i + 1` entries of `s`: for `i` down to 1,
/// draw the next state `r` and swap entry `i` with entry `r % (i + 1)`.
pub open spec fn fy_shuffle<A>(s: Seq<A>, i: nat, seed: u32) -> Seq<A>
    decreases i,
{
    if i == 0 {
        s
    } else {
        let r = xorshift_next(seed);
        fy_shuffle(swap_at(s, i as int, (r as int) % ((i + 1) as int)), (i - 1) as nat, r)
    }
}

/// The Fisher-Yates shuffle of the whole of `s`.
pub open spec fn fy_shuffle_all<A>(s: Seq<A>, seed: u32) -> Seq<A> {
    if s.len() == 0 {
        s
    } else {
        fy_shuffle(s, (s.len() - 1) as nat, seed)
    }
}

pub proof fn lemma_fy_shuffle_perm<A>(s: Seq<A>, i: nat, seed: u32)
    requires
        i < s.len(),
    ensures
        fy_shuffle(s, i, seed).len() == s.len(),
        forall|x: A| #[trigger] fy_shuffle(s, i, seed).contains(x) <==> s.contains(x),
    decreases i,
{
    if i > 0 {
        let r = xorshift_next(seed);
        let j = (r as int) % ((i + 1) as int);
        let t = swap_at(s, i as int, j);
        lemma_fy_shuffle_perm(t, (i - 1) as nat, r);
        assert forall|x: A| t.contains(x) <==> s.contains(x) by {
            if s.contains(x) {
                let k = choose|k: int| 0 <= k < s.len() && s[k] == x;
                if k == i {
                    assert(t[j] == x);
                } else if k == j {
                    assert(t[i as int] == x);
                } else {
                    assert(t[k] == x);
                }
            }
            if t.contains(x) {
                let k = choose|k: int| 0 <= k < t.len() && t[k] == x;
                if k == i {
                    assert(s[j] == x);
                } else if k == j {
                    assert(s[i as int] == x);
                } else {
                    assert(s[k] == x);
                }
            }
        }
    }
}

/// N, E, S, W shuffled by Fisher-Yates from a generator in state `seed`.
pub open spec fn shuffled_dirs(seed: u32) -> Seq<Dir> {
    fy_shuffle(seq![Dir::N, Dir::E, Dir::S, Dir::W], 3, seed)
}

/// The four directions N, E, S, W in the order a Fisher-Yates shuffle leaves them.
pub fn shuffle_dirs(seed: &mut u32) -> (r: [Dir; 4])
    ensures
        r@ == shuffled_dirs(*old(seed)),
        r@ == fy_shuffle(seq![Dir::N, Dir::E, Dir::S, Dir::W], 3, *old(seed)),
        *final(seed) == xorshift_iter(*old(seed), 3),
        forall|d: Dir| #[trigger] r@.contains(d),
{
    let ghost s0 = *seed;
    let mut dirs = all_dirs();
    let mut i: usize = 3;
    while i > 0
        invariant
            i <= 3,
            fy_shuffle(seq![Dir::N, Dir::E, Dir::S, Dir::W], 3, s0) == fy_shuffle(
                dirs@,
                i as nat,
                *seed,
            ),
            xorshift_iter(s0, 3) == xorshift_iter(*seed, i as nat),
            dirs@.len() == 4,
        decreases i,
    {
        let ghost before = dirs@;
        let r = xorshift(seed);
        let j = (r as usize) % (i + 1);
        let a = dirs[i];
        let b = dirs[j];
        dirs[i] = b;
        dirs[j] = a;
        assert(dirs@ == swap_at(before, i as int, j as int)) by {
            assert(dirs@ =~= swap_at(before, i as int, j as int));
        }
        i = i - 1;
    }
    proof {
        lemma_fy_shuffle_perm(seq![Dir::N, Dir::E, Dir::S, Dir::W], 3, s0);
        assert forall|d: Dir| #[trigger] dirs@.contains(d) by {
            let all = seq![Dir::N, Dir::E, Dir::S, Dir::W];
            match d {
                Dir::N => assert(all[0] == d),
                Dir::E => assert(all[1] == d),
                Dir::S => assert(all[2] == d),
                Dir::W => assert(all[3] == d),
            }
        }
    }
    dirs
}

/// Shuffles `arr` in place with Fisher-Yates, drawing from a generator seeded with `seed`.
pub fn shuffle_with_seed<T: Copy>(arr: &mut Vec<T>, seed: u32)
    ensures
        final(arr)@ == fy_shuffle_all(old(arr)@, seed),
{
    let mut s = seed;
    let n = arr.len();
    if n == 0 {
        return ;
    }
    let mut i: usize = n - 1;
    while i > 0
        invariant
            i < n,
            arr@.len() == n,
            fy_shuffle(old(arr)@, (n - 1) as nat, seed) == fy_shuffle(arr@, i as nat, s),
        decreases i,
    {
        let ghost before = arr@;
        let r = xorshift(&mut s);
        let j = (r as usize) % (i + 1);
        let a = arr[i];
        let b = arr[j];
        arr.set(i, b);
        arr.set(j, a);
        assert(arr@ == swap_at(before, i as int, j as int)) by {
            assert(arr@ =~= swap_at(before, i as int, j as int));
        }
        i = i - 1;
    }
}

/// Reads the system clock.
#[verifier::external_body]
fn clock_now() -> SystemTime {
    SystemTime::now()
}

/// How long after the Unix epoch `t` lies (`SystemTime::duration_since(UNIX_EPOCH)`),
/// or an error for a time before it.
#[verifier::external_body]
fn since_unix_epoch(t: &SystemTime) -> Result<Duration, SystemTimeError> {
    t.duration_since(std::time::UNIX_EPOCH)
}

/// The whole length of `d` in nanoseconds (`Duration::as_nanos`).
#[verifier::external_body]
fn duration_as_nanos(d: &Duration) -> u128 {
    d.as_nanos()
}

/// The fractional part of `d` in nanoseconds (`Duration::subsec_nanos`), which the
/// documentation bounds below one billion.
#[verifier::external_body]
fn duration_subsec_nanos(d: &Duration) -> (n: u32)
    ensures
        n < 1_000_000_000,
{
    d.subsec_nanos()
}

/// Folds a nanosecond count into 32 bits: its low 64 bits, xored with their high half.
pub open spec fn fold_nanos(n: u128) -> u32 {
    let m = n as u64;
    (m ^ (m >> 32u64)) as u32
}

/// A seed taken from the clock: the nanoseconds since the Unix epoch (zero before it),
/// folded into 32 bits.
pub fn time_seed() -> (r: u32)
    ensures
        exists|n: u128| r == fold_nanos(n),
{
    let now = clock_now();
    let nanos: u128 = match since_unix_epoch(&now) {
        Ok(d) => duration_as_nanos(&d),
        Err(_) => 0,
    };
    let r = seed_from_nanos(nanos);
    assert(r == fold_nanos(nanos));
    r
}

/// Folds a nanosecond count into a 32-bit seed.
pub fn seed_from_nanos(n: u128) -> (r: u32)
    ensures
        r == fold_nanos(n),
{
    let m = #[verifier::truncate] (n as u64);
    #[verifier::truncate] ((m ^ (m >> 32u64)) as u32)
}

/// The nanoseconds within the current second of the clock, as the builders use for a seed;
/// zero if the clock reads before the Unix epoch.
pub fn clock_subsec_nanos() -> (r: u32)
    ensures
        r < 1_000_000_000,
{
    let now = clock_now();
    match since_unix_epoch(&now) {
        Ok(d) => duration_subsec_nanos(&d),
        Err(_) => 0,
    }
}

} // verus!
