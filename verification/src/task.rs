//! The names given to the threads of a task pool, and which sub apps a
//! frame hands to the pool.
use vstd::prelude::*;

verus! {

/// The character of decimal digit `d`.
pub open spec fn digit_char(d: nat) -> char {
    (48 + d) as char
}

/// The decimal digits of `n`, most significant first, without leading
/// zeros.
pub open spec fn decimal(n: nat) -> Seq<char>
    decreases n,
{
    if n < 10 {
        seq![digit_char(n)]
    } else {
        decimal(n / 10).push(digit_char(n % 10))
    }
}

/// Calls `format!` to write `prefix`, a colon, a space and `index` in
/// decimal.
#[verifier::external_body]
fn format_indexed(prefix: &str, index: usize) -> (r: String)
    ensures
        r@ == prefix@ + seq![':', ' '] + decimal(index as nat),
{
    format!("{prefix}: {index}")
}

/// The name of thread `index` of a task pool: the pool's name, or `Thread`
/// when it has none, then a colon, a space and the index.
pub fn thread_name(pool_name: Option<&str>, index: usize) -> (r: String)
    ensures
        r@ == (match pool_name {
            Some(name) => name@,
            None => seq!['T', 'h', 'r', 'e', 'a', 'd'],
        }) + seq![':', ' '] + decimal(index as nat),
{
    match pool_name {
        Some(name) => format_indexed(name, index),
        None => {
            proof {
                reveal_strlit("Thread");
            }
            format_indexed("Thread", index)
        },
    }
}

/// The entries of `s` whose flag in `flags` is `want`, in order.
pub open spec fn with_flag<A>(s: Seq<A>, flags: Seq<bool>, want: bool) -> Seq<A>
    decreases s.len(),
{
    if s.len() == 0 || flags.len() == 0 {
        Seq::empty()
    } else if flags.last() == want {
        with_flag(s.drop_last(), flags.drop_last(), want).push(s.last())
    } else {
        with_flag(s.drop_last(), flags.drop_last(), want)
    }
}

/// Parts the sub apps of a frame into those handed to the task pool, the
/// ones that may be sent to another thread (`sendable`), and those run in
/// place; each part keeps the order of `apps`.
pub fn split_sendable<A>(apps: Vec<A>, sendable: Vec<bool>) -> (r: (Vec<A>, Vec<A>))
    requires
        apps@.len() == sendable@.len(),
    ensures
        r.0@ == with_flag(apps@, sendable@, true),
        r.1@ == with_flag(apps@, sendable@, false),
{
    let ghost all = apps@;
    let ghost flags = sendable@;
    let mut rest = apps;
    let mut backwards: Vec<A> = Vec::new();
    while rest.len() > 0
        invariant
            rest@ == all.take(rest@.len() as int),
            backwards@.len() + rest@.len() == all.len(),
            forall|j: int| 0 <= j < backwards@.len() ==> #[trigger] backwards@[j] == all[all.len() - 1 - j],
        decreases rest@.len(),
    {
        let app = rest.pop().unwrap();
        backwards.push(app);
    }
    let mut pooled: Vec<A> = Vec::new();
    let mut local: Vec<A> = Vec::new();
    let n = sendable.len();
    let mut i: usize = 0;
    while backwards.len() > 0
        invariant
            all.len() == flags.len(),
            n == flags.len(),
            flags == sendable@,
            i + backwards@.len() == all.len(),
            forall|j: int| 0 <= j < backwards@.len() ==> #[trigger] backwards@[j] == all[all.len() - 1 - j],
            pooled@ == with_flag(all.take(i as int), flags.take(i as int), true),
            local@ == with_flag(all.take(i as int), flags.take(i as int), false),
        decreases backwards@.len(),
    {
        let app = backwards.pop().unwrap();
        proof {
            assert(app == all[i as int]);
            assert(all.take(i + 1).drop_last() =~= all.take(i as int));
            assert(flags.take(i + 1).drop_last() =~= flags.take(i as int));
            assert(all.take(i + 1).last() == all[i as int]);
            assert(flags.take(i + 1).last() == flags[i as int]);
        }
        if sendable[i] {
            pooled.push(app);
        } else {
            local.push(app);
        }
        i = i + 1;
    }
    proof {
        assert(all.take(all.len() as int) =~= all);
        assert(flags.take(flags.len() as int) =~= flags);
    }
    (pooled, local)
}

} // verus!
