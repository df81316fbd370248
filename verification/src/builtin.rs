//! Built-in commands: the name → built-in dispatch and the decision logic
//! of each built-in. Effects on the operating system — changing directory,
//! ending the process, reading directories — are carried out by the
//! embedding program, which this module tells exactly what to do.

use vstd::prelude::*;
use vstd::slice::{slice_index_get, slice_to_vec};

use crate::global::State;
use crate::parser::{digits_val, is_digit_byte, lemma_digits_val_bounds};
use crate::types::words_view;

verus! {

/// The three built-ins: `cd`, `exit`, `rehash`.
#[derive(Clone, Copy, Debug, PartialEq, Eq, Structural)]
pub enum Builtin {
    Cd,
    Exit,
    Rehash,
}

/// The byte string `cd`.
pub open spec fn cd_name() -> Seq<u8> {
    seq![99u8, 100u8]
}

/// The byte string `exit`.
pub open spec fn exit_name() -> Seq<u8> {
    seq![101u8, 120u8, 105u8, 116u8]
}

/// The byte string `rehash`.
pub open spec fn rehash_name() -> Seq<u8> {
    seq![114u8, 101u8, 104u8, 97u8, 115u8, 104u8]
}

pub open spec fn spec_match_builtin(name: Seq<u8>) -> Option<Builtin> {
    if name == cd_name() {
        Some(Builtin::Cd)
    } else if name == exit_name() {
        Some(Builtin::Exit)
    } else if name == rehash_name() {
        Some(Builtin::Rehash)
    } else {
        None
    }
}

/// Which built-in, if any, a command name denotes.
pub fn match_builtin(name: &[u8]) -> (r: Option<Builtin>)
    ensures
        r == spec_match_builtin(name@),
{
    if name.len() == 2 && *slice_index_get(name, 0) == 99 && *slice_index_get(name, 1) == 100 {
        proof {
            assert(name@ =~= cd_name());
        }
        Some(Builtin::Cd)
    } else if name.len() == 4 && *slice_index_get(name, 0) == 101 && *slice_index_get(name, 1)
        == 120 && *slice_index_get(name, 2) == 105 && *slice_index_get(name, 3) == 116 {
        proof {
            assert(name@ =~= exit_name());
        }
        Some(Builtin::Exit)
    } else if name.len() == 6 && *slice_index_get(name, 0) == 114 && *slice_index_get(name, 1)
        == 101 && *slice_index_get(name, 2) == 104 && *slice_index_get(name, 3) == 97
        && *slice_index_get(name, 4) == 115 && *slice_index_get(name, 5) == 104 {
        proof {
            assert(name@ =~= rehash_name());
        }
        Some(Builtin::Rehash)
    } else {
        proof {
            if name@ == cd_name() || name@ == exit_name() || name@ == rehash_name() {
                assert(false);
            }
        }
        None
    }
}

/// What `cd` asks the embedding program to do: change to a directory, or
/// finish at once with an exit code.
#[derive(Clone, Debug, PartialEq, Eq)]
pub enum CdAction {
    Chdir(Vec<u8>),
    Code(u8),
}

/// The `cd` decision. With more than one argument: code 1, no directory
/// change. With one argument: change to it. With none: change to HOME, or
/// code 2 when HOME is unset. A failed directory change is reported by the
/// embedding program with code 3.
pub fn builtin_cd(args: &Vec<Vec<u8>>, home: Option<&Vec<u8>>) -> (r: CdAction)
    ensures
        args@.len() > 1 ==> r == CdAction::Code(1u8),
        args@.len() == 1 ==> (r matches CdAction::Chdir(d) && d@ == words_view(args@)[0]),
        args@.len() == 0 && home is Some ==> (r matches CdAction::Chdir(d) && d@
            == home->Some_0@),
        args@.len() == 0 && home is None ==> r == CdAction::Code(2u8),
{
    if args.len() > 1 {
        CdAction::Code(1)
    } else if args.len() == 1 {
        CdAction::Chdir(slice_to_vec(args[0].as_slice()))
    } else {
        match home {
            Some(dir) => CdAction::Chdir(slice_to_vec(dir.as_slice())),
            None => CdAction::Code(2),
        }
    }
}

/// Whether every byte is a decimal digit.
pub open spec fn all_digits(ds: Seq<u8>) -> bool {
    forall|k: int| 0 <= k < ds.len() ==> is_digit_byte(ds[k])
}

/// What a byte string means as a decimal 32-bit integer, with the same
/// acceptance rule as Rust's string-to-integer parsing: an optional sign,
/// then one or more digits, the value fitting the type.
pub open spec fn spec_parse_i32(s: Seq<u8>) -> Option<int> {
    let neg = s.len() > 0 && s[0] == 45;
    let ds = if s.len() > 0 && (s[0] == 43 || s[0] == 45) {
        s.skip(1)
    } else {
        s
    };
    if ds.len() == 0 || !all_digits(ds) {
        None
    } else {
        let v = if neg {
            -digits_val(ds)
        } else {
            digits_val(ds)
        };
        if -0x8000_0000 <= v <= 0x7fff_ffff {
            Some(v)
        } else {
            None
        }
    }
}

/// Parse a decimal 32-bit integer from bytes; `None` when the bytes are
/// not a number or it does not fit.
pub fn parse_i32(s: &[u8]) -> (r: Option<i32>)
    ensures
        match r {
            Some(v) => spec_parse_i32(s@) == Some(v as int),
            None => spec_parse_i32(s@) is None,
        },
{
    let n = s.len();
    let mut start: usize = 0;
    let mut neg = false;
    if n > 0 && *slice_index_get(s, 0) == 45 {
        neg = true;
        start = 1;
    } else if n > 0 && *slice_index_get(s, 0) == 43 {
        start = 1;
    }
    let ghost ds = if start == 1 {
        s@.skip(1)
    } else {
        s@
    };
    proof {
        assert(start == 1 ==> s@.skip(1) == ds);
        assert(start == 0 ==> s@.skip(0) =~= ds);
    }
    if start == n {
        return None;
    }
    let mut mag: u64 = 0;
    let mut m = start;
    while m < n
        invariant
            start <= m <= n,
            n == s@.len(),
            start <= 1,
            (start == 1) == (n > 0 && (s@[0] == 43 || s@[0] == 45)),
            ds == s@.skip(start as int),
            forall|t: int| start <= t < m ==> is_digit_byte(s@[t]),
            mag <= 0x8000_0001u64,
            ({
                let dv = digits_val(s@.subrange(start as int, m as int));
                &&& (dv <= 0x8000_0000 ==> mag == dv)
                &&& (dv > 0x8000_0000 ==> mag == 0x8000_0001u64)
            }),
        decreases n - m,
    {
        let d = *slice_index_get(s, m);
        if !(48 <= d && d <= 57) {
            proof {
                assert(s@.skip(0) =~= s@);
                assert(0 <= m - start < ds.len());
                assert(ds[m - start] == s@[m as int]);
                assert(!is_digit_byte(ds[m - start]));
                assert(!all_digits(ds));
            }
            return None;
        }
        proof {
            let pre = s@.subrange(start as int, m as int);
            let post = s@.subrange(start as int, m + 1);
            assert(post.drop_last() =~= pre);
            assert(post.last() == s@[m as int]);
            lemma_digits_val_bounds(pre);
            lemma_digits_val_bounds(post);
            assert(digits_val(post) == digits_val(pre) * 10 + (s@[m as int] - 48));
        }
        let grown: u64 = mag * 10 + ((d - 48) as u64);
        mag = if grown > 0x8000_0001u64 {
            0x8000_0001u64
        } else {
            grown
        };
        m = m + 1;
    }
    proof {
        assert(s@.subrange(start as int, n as int) =~= ds);
        lemma_digits_val_bounds(ds);
        assert forall|k: int| 0 <= k < ds.len() implies is_digit_byte(ds[k]) by {
            assert(ds[k] == s@[k + start]);
        }
        assert(all_digits(ds));
    }
    if neg {
        if mag > 0x8000_0000u64 {
            None
        } else {
            Some((0i64 - mag as i64) as i32)
        }
    } else {
        if mag > 0x7fff_ffffu64 {
            None
        } else {
            Some(mag as i32)
        }
    }
}

/// The `exit` decision: the shell's exit status is the first argument read
/// as a decimal integer, or 0 when it is absent or not a number. The
/// embedding program ends the process with this status at once.
pub fn builtin_exit(args: &Vec<Vec<u8>>) -> (code: i32)
    ensures
        args@.len() == 0 ==> code == 0,
        args@.len() > 0 ==> code as int == (match spec_parse_i32(words_view(args@)[0]) {
            Some(v) => v,
            None => 0,
        }),
{
    if args.len() == 0 {
        return 0;
    }
    match parse_i32(args[0].as_slice()) {
        Some(v) => v,
        None => 0,
    }
}

/// The `rehash` built-in: rebuild the search cache from the PATH
/// directories' entries, which the embedding program read afresh.
pub fn builtin_rehash(state: &mut State, entries: &Vec<(Vec<u8>, Vec<u8>)>) -> (code: u8)
    ensures
        code == 0,
        final(state).search_cache.wf(),
        forall|name: Seq<u8>| #![all_triggers]
            final(state).search_cache.spec_lookup(name) == crate::search::spec_first_entry(
                crate::search::entries_view(entries@),
                name,
            ),
        final(state).job_set == old(state).job_set,
{
    state.search_cache.rehash(entries);
    0
}

} // verus!
