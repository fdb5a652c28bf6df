use vstd::prelude::*;
use crate::random::{range_draw, SecureRng};

verus! {

/// Why a password could not be generated.
#[derive(Clone, Copy, Debug, PartialEq, Eq, Structural)]
pub enum GenError {
    /// The operating system gave no random bytes to seed the generator.
    EntropyUnavailable,
    /// No character is left to draw from.
    EmptyCharset,
    /// Distinct characters were asked for, more than the charset holds.
    NoRepeatInfeasible,
}

/// The indices `0, 1, ..., n - 1` in order: the pool before any draw.
pub open spec fn full_pool(n: nat) -> Seq<usize> {
    Seq::new(n, |j: int| j as usize)
}

/// Position `i` of a password over `charset`: the draw moves the generator's
/// counter from `cs[i]` to `cs[i + 1]` and yields `picks[i]`. Without
/// `no_repeat` it draws from the whole charset and the pick is the charset
/// index. With `no_repeat` it draws from the `n - i` indices still in the pool
/// `pools[i]`, takes the picked one and removes it from the pool.
pub open spec fn step_ok(
    k0: u64,
    k1: u64,
    charset: Seq<char>,
    no_repeat: bool,
    cs: Seq<u64>,
    picks: Seq<usize>,
    pools: Seq<Seq<usize>>,
    pwd: Seq<char>,
    i: int,
) -> bool {
    if no_repeat {
        &&& range_draw(k0, k1, cs[i], cs[i + 1], (charset.len() - i) as nat, picks[i] as nat)
        &&& pools[i + 1] == pools[i].remove(picks[i] as int)
        &&& pwd[i] == charset[pools[i][picks[i] as int] as int]
    } else {
        &&& range_draw(k0, k1, cs[i], cs[i + 1], charset.len(), picks[i] as nat)
        &&& pools[i + 1] == pools[i]
        &&& pwd[i] == charset[picks[i] as int]
    }
}

/// `pwd` is the password that a generator keyed by `(k0, k1)` assembles from
/// `charset`, drawing one position after another with the counter values `cs`.
pub open spec fn assembled(
    k0: u64,
    k1: u64,
    charset: Seq<char>,
    no_repeat: bool,
    cs: Seq<u64>,
    picks: Seq<usize>,
    pools: Seq<Seq<usize>>,
    pwd: Seq<char>,
) -> bool {
    &&& cs.len() == pwd.len() + 1
    &&& picks.len() == pwd.len()
    &&& pools.len() == pwd.len() + 1
    &&& pools[0] == full_pool(charset.len())
    &&& forall|i: int|
        0 <= i < pwd.len() ==> #[trigger] step_ok(
            k0,
            k1,
            charset,
            no_repeat,
            cs,
            picks,
            pools,
            pwd,
            i,
        )
}

/// Relies on String::push: the character is appended at the end.
#[verifier::external_body]
fn push_char(s: &mut String, c: char)
    ensures
        final(s)@ == old(s)@.push(c),
{
    s.push(c);
}

/// A password of `length` characters drawn from `charset` with `rng`; with
/// `no_repeat`, no charset position is drawn twice.
pub fn create_password(length: usize, charset: &Vec<char>, no_repeat: bool, rng: &mut SecureRng) -> (r:
    Result<String, GenError>)
    ensures
        final(rng).k0() == old(rng).k0(),
        final(rng).k1() == old(rng).k1(),
        charset@.len() == 0 ==> r == Err::<String, GenError>(GenError::EmptyCharset),
        charset@.len() > 0 && no_repeat && length > charset@.len() ==> r == Err::<String, GenError>(
            GenError::NoRepeatInfeasible,
        ),
        r is Err ==> final(rng).counter() == old(rng).counter(),
        charset@.len() > 0 && !(no_repeat && length > charset@.len()) ==> r is Ok,
        r matches Ok(p) ==> {
            &&& p@.len() == length
            &&& forall|i: int| 0 <= i < p@.len() ==> charset@.contains(#[trigger] p@[i])
            &&& (no_repeat && charset@.no_duplicates()) ==> p@.no_duplicates()
            &&& exists|cs: Seq<u64>, picks: Seq<usize>, pools: Seq<Seq<usize>>|
                #[trigger] assembled(old(rng).k0(), old(rng).k1(), charset@, no_repeat, cs, picks, pools, p@)
                && cs[0] == old(rng).counter() && cs[length as int] == final(rng).counter()
        },
{
    let n = charset.len();
    if n == 0 {
        return Err(GenError::EmptyCharset);
    }
    if no_repeat && length > n {
        return Err(GenError::NoRepeatInfeasible);
    }
    let ghost k0 = rng.k0();
    let ghost k1 = rng.k1();
    let mut avail: Vec<usize> = Vec::new();
    if no_repeat {
        let mut j: usize = 0;
        while j < n
            invariant
                j <= n,
                avail@ == full_pool(n as nat).subrange(0, j as int),
            decreases n - j,
        {
            avail.push(j);
            j = j + 1;
            assert(avail@ =~= full_pool(n as nat).subrange(0, j as int));
        }
        assert(avail@ =~= full_pool(n as nat));
    }
    let mut result = String::new();
    let ghost mut cs: Seq<u64> = seq![rng.counter()];
    let ghost mut picks: Seq<usize> = Seq::empty();
    let ghost mut pools: Seq<Seq<usize>> = seq![full_pool(n as nat)];
    let ghost mut chosen: Seq<usize> = Seq::empty();
    let mut i: usize = 0;
    while i < length
        invariant
            n == charset@.len(),
            n > 0,
            no_repeat ==> length <= n,
            i <= length,
            rng.k0() == k0,
            rng.k1() == k1,
            k0 == old(rng).k0(),
            k1 == old(rng).k1(),
            cs.len() == i + 1,
            picks.len() == i,
            pools.len() == i + 1,
            chosen.len() == i,
            result@.len() == i,
            cs[0] == old(rng).counter(),
            cs[i as int] == rng.counter(),
            pools[0] == full_pool(n as nat),
            forall|j: int|
                0 <= j < i ==> #[trigger] step_ok(
                    k0,
                    k1,
                    charset@,
                    no_repeat,
                    cs,
                    picks,
                    pools,
                    result@,
                    j,
                ),
            forall|j: int|
                0 <= j < i ==> #[trigger] chosen[j] < n && result@[j] == charset@[chosen[j] as int],
            no_repeat ==> avail@ == pools[i as int],
            no_repeat ==> avail@.len() == n - i,
            no_repeat ==> forall|a: int| 0 <= a < avail@.len() ==> #[trigger] avail@[a] < n,
            no_repeat ==> avail@.no_duplicates(),
            no_repeat ==> chosen.no_duplicates(),
            no_repeat ==> forall|a: int, b: int|
                0 <= a < chosen.len() && 0 <= b < avail@.len() ==> #[trigger] chosen[a]
                    != #[trigger] avail@[b],
        decreases length - i,
    {
        let ghost old_cs = cs;
        let ghost old_picks = picks;
        let ghost old_pools = pools;
        let ghost old_pwd = result@;
        let ghost old_chosen = chosen;
        let ghost old_avail = avail@;
        if no_repeat {
            // Drawing among the unused positions gives each of them the same
            // chance as redrawing until an unused one comes up, and takes one draw.
            let k = rng.gen_range(avail.len());
            let idx = avail.remove(k);
            push_char(&mut result, charset[idx]);
            proof {
                cs = cs.push(rng.counter());
                picks = picks.push(k);
                pools = pools.push(avail@);
                chosen = chosen.push(idx);
                assert(old_avail[k as int] == idx);
                assert forall|a: int, b: int|
                    0 <= a < chosen.len() && 0 <= b < avail@.len() implies #[trigger] chosen[a]
                        != #[trigger] avail@[b] by {
                    let ob = if b < k { b } else { b + 1 };
                    assert(avail@[b] == old_avail[ob]);
                    if a < i {
                        assert(chosen[a] == old_chosen[a]);
                    }
                }
                assert forall|a: int, b: int|
                    0 <= a < chosen.len() && 0 <= b < chosen.len() && a != b implies chosen[a]
                        != chosen[b] by {
                    if a < i && b < i {
                        assert(old_chosen[a] != old_chosen[b]);
                    } else if a < i {
                        assert(old_chosen[a] != old_avail[k as int]);
                    } else if b < i {
                        assert(old_chosen[b] != old_avail[k as int]);
                    }
                }
                assert forall|a: int, b: int|
                    0 <= a < avail@.len() && 0 <= b < avail@.len() && a != b implies avail@[a]
                        != avail@[b] by {
                    let oa = if a < k { a } else { a + 1 };
                    let ob = if b < k { b } else { b + 1 };
                    assert(avail@[a] == old_avail[oa]);
                    assert(avail@[b] == old_avail[ob]);
                }
                assert forall|a: int| 0 <= a < avail@.len() implies #[trigger] avail@[a] < n by {
                    let oa = if a < k { a } else { a + 1 };
                    assert(avail@[a] == old_avail[oa]);
                }
            }
        } else {
            let k = rng.gen_range(n);
            push_char(&mut result, charset[k]);
            proof {
                cs = cs.push(rng.counter());
                picks = picks.push(k);
                pools = pools.push(old_pools[i as int]);
                chosen = chosen.push(k);
            }
        }
        proof {
            assert forall|j: int|
                0 <= j < i + 1 implies #[trigger] step_ok(
                k0,
                k1,
                charset@,
                no_repeat,
                cs,
                picks,
                pools,
                result@,
                j,
            ) by {
                if j < i {
                    assert(step_ok(k0, k1, charset@, no_repeat, old_cs, old_picks, old_pools, old_pwd, j));
                    assert(cs[j] == old_cs[j] && cs[j + 1] == old_cs[j + 1]);
                    assert(pools[j] == old_pools[j] && pools[j + 1] == old_pools[j + 1]);
                    assert(picks[j] == old_picks[j]);
                    assert(result@[j] == old_pwd[j]);
                }
            }
            assert forall|j: int|
                0 <= j < i + 1 implies #[trigger] chosen[j] < n && result@[j] == charset@[chosen[j] as int] by {
                if j < i {
                    assert(chosen[j] == old_chosen[j]);
                    assert(result@[j] == old_pwd[j]);
                }
            }
        }
        i = i + 1;
    }
    proof {
        assert(assembled(k0, k1, charset@, no_repeat, cs, picks, pools, result@));
        assert forall|j: int| 0 <= j < result@.len() implies charset@.contains(#[trigger] result@[j]) by {
            assert(charset@[chosen[j] as int] == result@[j]);
        }
        if no_repeat && charset@.no_duplicates() {
            assert forall|a: int, b: int|
                0 <= a < result@.len() && 0 <= b < result@.len() && a != b implies result@[a]
                    != result@[b] by {
                assert(chosen[a] < n && chosen[b] < n);
                assert(chosen[a] != chosen[b]);
            }
        }
    }
    Ok(result)
}

} // verus!
