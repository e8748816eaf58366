use vstd::prelude::*;

use crate::text::same_text;

verus! {

/// How often the plugin server is asked before the engine gives up.
pub const PROBE_ATTEMPTS: u32 = 10;

/// Seconds between two probes.
pub const PROBE_PAUSE_SECS: u64 = 2;

/// What follows a probe of the plugin server.
pub enum AfterProbe {
    /// The server answers: go on.
    Proceed,
    /// Ask again after this many seconds.
    Wait { secs: u64 },
    /// Give up.
    Unreachable,
}

/// Decides what follows the probe of this number, counted from 1.
pub fn after_probe(attempt: u32, healthy: bool) -> (r: AfterProbe)
    ensures
        r == (if healthy {
            AfterProbe::Proceed
        } else if attempt >= 10 {
            AfterProbe::Unreachable
        } else {
            AfterProbe::Wait { secs: 2 }
        }),
{
    if healthy {
        AfterProbe::Proceed
    } else if attempt >= PROBE_ATTEMPTS {
        AfterProbe::Unreachable
    } else {
        AfterProbe::Wait { secs: PROBE_PAUSE_SECS }
    }
}

/// The argument behind the first occurrence of a flag that has one behind it.
pub open spec fn arg_behind(args: Seq<String>, flag: Seq<char>) -> Option<Seq<char>>
    decreases args.len(),
{
    if args.len() < 2 {
        None
    } else {
        match arg_behind(args.drop_last(), flag) {
            Some(found) => Some(found),
            None => if args[args.len() - 2]@ == flag {
                Some(args.last()@)
            } else {
                None
            },
        }
    }
}

proof fn lemma_arg_prefix(args: Seq<String>, flag: Seq<char>, k: int)
    requires
        0 <= k <= args.len(),
        arg_behind(args.take(k), flag) is Some,
    ensures
        arg_behind(args, flag) == arg_behind(args.take(k), flag),
    decreases args.len(),
{
    if k < args.len() {
        assert(args.drop_last().take(k) =~= args.take(k));
        lemma_arg_prefix(args.drop_last(), flag, k);
    } else {
        assert(args.take(k) =~= args);
    }
}

/// Reads the value of a command line flag.
pub fn get_arg(args: &Vec<String>, flag: &str) -> (r: Option<String>)
    ensures
        match r {
            Some(value) => arg_behind(args@, flag@) == Some(value@),
            None => arg_behind(args@, flag@) is None,
        },
{
    if args.len() < 2 {
        return None;
    }
    let mut i: usize = 0;
    proof {
        assert(args@.take(1).len() == 1);
    }
    while i < args.len() - 1
        invariant
            i < args@.len(),
            arg_behind(args@.take(i + 1), flag@) is None,
        decreases args@.len() - i,
    {
        proof {
            let seen = args@.take(i + 2);
            assert(seen.drop_last() =~= args@.take(i + 1));
            assert(seen.last() == args@[i + 1]);
            assert(seen[seen.len() - 2] == args@[i as int]);
        }
        if same_text(args[i].as_str(), flag) {
            proof {
                lemma_arg_prefix(args@, flag@, i + 2);
            }
            return Some(args[i + 1].clone());
        }
        i += 1;
    }
    proof {
        assert(args@.take(i + 1) =~= args@);
    }
    None
}

/// The value of a flag is the argument behind the first copy of it that has one behind it.
pub proof fn law_flag_is_followed_by_its_value(args: Seq<String>, flag: Seq<char>)
    ensures
        match arg_behind(args, flag) {
            Some(value) => exists|i: int|
                0 <= i < args.len() - 1 && (#[trigger] args[i])@ == flag && args[i + 1]@ == value
                    && forall|j: int| 0 <= j < i ==> (#[trigger] args[j])@ != flag,
            None => forall|j: int| 0 <= j < args.len() - 1 ==> (#[trigger] args[j])@ != flag,
        },
    decreases args.len(),
{
    if args.len() >= 2 {
        let rest = args.drop_last();
        law_flag_is_followed_by_its_value(rest, flag);
        match arg_behind(rest, flag) {
            Some(value) => {
                let i = choose|i: int|
                    0 <= i < rest.len() - 1 && (#[trigger] rest[i])@ == flag && rest[i + 1]@
                        == value && forall|j: int| 0 <= j < i ==> (#[trigger] rest[j])@ != flag;
                assert(args[i]@ == flag && args[i + 1]@ == value);
                assert forall|j: int| 0 <= j < i implies (#[trigger] args[j])@ != flag by {
                    assert(rest[j] == args[j]);
                }
            },
            None => {
                assert forall|j: int| 0 <= j < args.len() - 2 implies (#[trigger] args[j])@
                    != flag by {
                    assert(rest[j] == args[j]);
                }
            },
        }
    }
}

} // verus!
