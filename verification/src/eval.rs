//! Evaluation decisions: the built-in fast path, the open plan of each
//! redirect, the pipe topology of a pipeline, argv and environment
//! assembly, the not-found message, and the pipeline's exit code. The
//! embedding program forks, opens, duplicates and waits exactly as these
//! functions direct.

use vstd::prelude::*;
use vstd::slice::{slice_index_get, slice_to_vec};

use crate::builtin::{Builtin, match_builtin, spec_match_builtin};
use crate::job::{Job, JobDescriptor, spec_code_of};
use crate::types::{Pipeline, RedirectType};

verus! {

/// What one evaluation yields: a finished exit code, or a live job to be
/// waited on (foreground) or kept (background).
#[derive(Clone, Copy, Debug, PartialEq, Eq, Structural)]
pub enum EvalResult {
    Done(u8),
    Running(JobDescriptor),
}

/// The fast-path rule: exactly one command, no redirects, and the name is
/// a built-in — then the built-in runs in the shell process itself and
/// nothing is forked.
pub open spec fn spec_fast_path(p: crate::types::PipelineModel) -> Option<Builtin> {
    if p.commands.len() == 1 && p.commands[0].redirects.len() == 0 {
        spec_match_builtin(p.commands[0].name)
    } else {
        None
    }
}

/// Decide the fast path. Returns the built-in to run in the shell process
/// when the pipeline is a single command without redirects whose name is a
/// built-in; `None` means the pipeline must be spawned.
pub fn builtin_fast_path(p: &Pipeline) -> (r: Option<Builtin>)
    requires
        p.commands@.len() > 0,
    ensures
        r == spec_fast_path(p@),
{
    if p.commands.len() == 1 && p.commands[0].redirects.len() == 0 {
        match_builtin(p.commands[0].name.as_slice())
    } else {
        None
    }
}

/// How a redirect's target file is opened.
#[derive(Clone, Copy, Debug, PartialEq, Eq, Structural)]
pub struct OpenPlan {
    pub read: bool,
    pub write: bool,
    pub create: bool,
    pub append: bool,
    pub truncate: bool,
}

/// The open options of each redirect type: input is read-only; output is
/// write, create and truncate, as POSIX `>` demands; append is write,
/// create and append.
pub fn open_plan(typ: RedirectType) -> (r: OpenPlan)
    ensures
        typ == RedirectType::Input ==> r == (OpenPlan {
            read: true,
            write: false,
            create: false,
            append: false,
            truncate: false,
        }),
        typ == RedirectType::Output ==> r == (OpenPlan {
            read: false,
            write: true,
            create: true,
            append: false,
            truncate: true,
        }),
        typ == RedirectType::Append ==> r == (OpenPlan {
            read: false,
            write: true,
            create: true,
            append: true,
            truncate: false,
        }),
{
    match typ {
        RedirectType::Input => OpenPlan {
            read: true,
            write: false,
            create: false,
            append: false,
            truncate: false,
        },
        RedirectType::Output => OpenPlan {
            read: false,
            write: true,
            create: true,
            append: false,
            truncate: true,
        },
        RedirectType::Append => OpenPlan {
            read: false,
            write: true,
            create: true,
            append: true,
            truncate: false,
        },
    }
}

/// The pipe topology of an `n`-stage pipeline: stage `i` reads a pipe when
/// it is not the first stage and writes one when it is not the last; the
/// first reads the terminal, the last writes it.
pub fn pipe_plan(n: usize) -> (plan: Vec<(bool, bool)>)
    ensures
        plan@.len() == n,
        forall|i: int| 0 <= i < n ==> (#[trigger] plan@[i]).0 == (i > 0),
        forall|i: int| 0 <= i < n ==> (#[trigger] plan@[i]).1 == (i + 1 < n),
{
    let mut plan: Vec<(bool, bool)> = Vec::with_capacity(n);
    let mut i: usize = 0;
    while i < n
        invariant
            i <= n,
            plan@.len() == i,
            forall|t: int| 0 <= t < i ==> (#[trigger] plan@[t]).0 == (t > 0),
            forall|t: int| 0 <= t < i ==> (#[trigger] plan@[t]).1 == (t + 1 < n),
        decreases n - i,
    {
        plan.push((i > 0, i + 1 < n));
        i = i + 1;
    }
    plan
}

/// The argv a command execs with: the command name as argv[0], then the
/// arguments in order.
pub fn build_argv(name: &[u8], arguments: &Vec<Vec<u8>>) -> (argv: Vec<Vec<u8>>)
    ensures
        argv@.len() == 1 + arguments@.len(),
        argv@[0]@ == name@,
        forall|i: int| 0 <= i < arguments@.len() ==> (#[trigger] argv@[i + 1])@ == arguments@[i]@,
{
    let mut argv: Vec<Vec<u8>> = Vec::new();
    argv.push(slice_to_vec(name));
    let n = arguments.len();
    let mut i: usize = 0;
    while i < n
        invariant
            i <= n,
            n == arguments@.len(),
            argv@.len() == 1 + i,
            argv@[0]@ == name@,
            forall|t: int| 0 <= t < i ==> (#[trigger] argv@[t + 1])@ == arguments@[t]@,
        decreases n - i,
    {
        argv.push(slice_to_vec(arguments[i].as_slice()));
        i = i + 1;
    }
    argv
}

/// One environment entry as handed to exec: `key=value`.
pub fn env_pair(key: &[u8], value: &[u8]) -> (r: Vec<u8>)
    ensures
        r@ == key@ + seq![61u8] + value@,
{
    let mut out = slice_to_vec(key);
    out.push(61);
    let n = value.len();
    let mut i: usize = 0;
    while i < n
        invariant
            i <= n,
            n == value@.len(),
            out@ == key@ + seq![61u8] + value@.take(i as int),
        decreases n - i,
    {
        out.push(*slice_index_get(value, i));
        proof {
            assert(key@ + seq![61u8] + value@.take(i + 1) =~= (key@ + seq![61u8] + value@.take(
                i as int,
            )).push(value@[i as int]));
        }
        i = i + 1;
    }
    proof {
        assert(value@.take(n as int) =~= value@);
        assert(out@ == key@ + seq![61u8] + value@.take(i as int));
    }
    out
}

/// The byte string `command not found: `.
pub open spec fn not_found_prefix() -> Seq<u8> {
    seq![
        99u8,
        111u8,
        109u8,
        109u8,
        97u8,
        110u8,
        100u8,
        32u8,
        110u8,
        111u8,
        116u8,
        32u8,
        102u8,
        111u8,
        117u8,
        110u8,
        100u8,
        58u8,
        32u8,
    ]
}

/// The diagnostic a child writes to standard error before exiting 127 when
/// the command name is not in the search cache:
/// `command not found: <name>` and a newline.
pub fn not_found_message(name: &[u8]) -> (r: Vec<u8>)
    ensures
        r@ == not_found_prefix() + name@ + seq![10u8],
{
    let mut out: Vec<u8> = vec![99, 111, 109, 109, 97, 110, 100, 32, 110, 111, 116, 32, 102, 111,
        117, 110, 100, 58, 32];
    proof {
        assert(out@ =~= not_found_prefix());
    }
    let n = name.len();
    let mut i: usize = 0;
    while i < n
        invariant
            i <= n,
            n == name@.len(),
            out@ == not_found_prefix() + name@.take(i as int),
        decreases n - i,
    {
        out.push(*slice_index_get(name, i));
        proof {
            assert(not_found_prefix() + name@.take(i + 1) =~= (not_found_prefix() + name@.take(
                i as int,
            )).push(name@[i as int]));
        }
        i = i + 1;
    }
    proof {
        assert(name@.take(n as int) =~= name@);
    }
    out.push(10);
    proof {
        assert(not_found_prefix() + name@ + seq![10u8] =~= (not_found_prefix() + name@).push(
            10u8,
        ));
    }
    out
}

/// The exit code a finished pipeline yields: that of its last command, the
/// POSIX default.
pub fn pipeline_code(job: &Job) -> (r: u8)
    requires
        job.proccesses@.len() > 0,
    ensures
        r == spec_code_of(job.proccesses@.last().status),
{
    let n = job.proccesses.len();
    job.proccesses[n - 1].status.code()
}

/// Split a PATH value on `:` into its directory list; empty segments stay,
/// as the platform splitter keeps them.
pub open spec fn spec_split_colon(s: Seq<u8>) -> Seq<Seq<u8>>
    decreases s.len(),
    via spec_split_colon_dec
{
    let c = colon_pos(s);
    if c == s.len() {
        seq![s]
    } else {
        seq![s.take(c)] + spec_split_colon(s.skip(c + 1))
    }
}

/// The first `:` in `s`, or its length when there is none.
pub open spec fn colon_pos(s: Seq<u8>) -> int
    decreases s.len(),
{
    if s.len() == 0 {
        0
    } else if s[0] == 58 {
        0
    } else {
        1 + colon_pos(s.skip(1))
    }
}

pub proof fn lemma_colon_pos_bounds(s: Seq<u8>)
    ensures
        0 <= colon_pos(s) <= s.len(),
        colon_pos(s) < s.len() ==> s[colon_pos(s)] == 58,
        forall|k: int| 0 <= k < colon_pos(s) ==> s[k] != 58,
    decreases s.len(),
{
    if s.len() > 0 && s[0] != 58 {
        lemma_colon_pos_bounds(s.skip(1));
        assert forall|k: int| 0 <= k < colon_pos(s) implies s[k] != 58 by {
            if k > 0 {
                assert(s.skip(1)[k - 1] == s[k]);
            }
        }
    }
}

#[via_fn]
proof fn spec_split_colon_dec(s: Seq<u8>) {
    lemma_colon_pos_bounds(s);
}

/// Split a PATH environment value into its directories.
pub fn split_path_list(path: &[u8]) -> (dirs: Vec<Vec<u8>>)
    ensures
        crate::types::words_view(dirs@) == spec_split_colon(path@),
{
    let mut dirs: Vec<Vec<u8>> = Vec::new();
    let n = path.len();
    let mut start: usize = 0;
    let mut i: usize = 0;
    proof {
        assert(path@.skip(0) =~= path@);
        assert(crate::types::words_view(dirs@) =~= Seq::<Seq<u8>>::empty());
    }
    while i < n
        invariant
            start <= i <= n,
            n == path@.len(),
            forall|k: int| start <= k < i ==> path@[k] != 58,
            spec_split_colon(path@) == crate::types::words_view(dirs@) + spec_split_colon(
                path@.skip(start as int),
            ),
        decreases n - i,
    {
        if *slice_index_get(path, i) == 58 {
            let seg = slice_to_vec(vstd::slice::slice_subrange(path, start, i));
            dirs.push(seg);
            proof {
                let rest = path@.skip(start as int);
                lemma_colon_pos_inside(path@, start as int, i as int);
                assert(rest.take(i - start) =~= path@.subrange(start as int, i as int));
                assert(rest.skip(i - start + 1) =~= path@.skip(i + 1));
                assert(crate::types::words_view(dirs@) =~= crate::types::words_view(
                    dirs@.drop_last(),
                ).push(path@.subrange(start as int, i as int)));
                assert(crate::types::words_view(dirs@) + spec_split_colon(path@.skip(i + 1))
                    =~= (crate::types::words_view(dirs@.drop_last()) + (seq![
                    path@.subrange(start as int, i as int),
                ] + spec_split_colon(path@.skip(i + 1)))));
            }
            start = i + 1;
        }
        i = i + 1;
    }
    let seg = slice_to_vec(vstd::slice::slice_subrange(path, start, n));
    dirs.push(seg);
    proof {
        let rest = path@.skip(start as int);
        lemma_colon_pos_end(path@, start as int);
        assert(rest.take(rest.len() as int) =~= path@.subrange(start as int, n as int));
        assert(spec_split_colon(rest) == seq![rest]);
        assert(rest =~= path@.subrange(start as int, n as int));
        assert(crate::types::words_view(dirs@) =~= crate::types::words_view(dirs@.drop_last()).push(
            path@.subrange(start as int, n as int),
        ));
        assert(crate::types::words_view(dirs@) =~= crate::types::words_view(dirs@.drop_last()) + seq![
            rest,
        ]);
    }
    dirs
}

/// When `s[i]` is the first colon at or after `start`, the remainder's
/// split begins with the segment up to it.
proof fn lemma_colon_pos_inside(s: Seq<u8>, start: int, i: int)
    requires
        0 <= start <= i < s.len(),
        s[i] == 58,
        forall|k: int| start <= k < i ==> s[k] != 58,
    ensures
        colon_pos(s.skip(start)) == i - start,
    decreases i - start,
{
    if start < i {
        assert(s.skip(start)[0] == s[start]);
        assert(s.skip(start).skip(1) =~= s.skip(start + 1));
        lemma_colon_pos_inside(s, start + 1, i);
    } else {
        assert(s.skip(start)[0] == s[i]);
    }
}

/// When no colon follows `start`, the remainder is one whole segment.
proof fn lemma_colon_pos_end(s: Seq<u8>, start: int)
    requires
        0 <= start <= s.len(),
        forall|k: int| start <= k < s.len() ==> s[k] != 58,
    ensures
        colon_pos(s.skip(start)) == s.len() - start,
    decreases s.len() - start,
{
    if start < s.len() {
        assert(s.skip(start)[0] == s[start]);
        assert(s.skip(start).skip(1) =~= s.skip(start + 1));
        lemma_colon_pos_end(s, start + 1);
    }
}

} // verus!
