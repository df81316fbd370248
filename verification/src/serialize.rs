//! Rendering a pipeline back to bytes, and the round-trip law: parsing
//! what `serialize` renders gives back exactly the pipeline that was
//! rendered. Serialization writes each command's redirects first — each
//! with its file descriptor written out — then the name, then the
//! arguments; commands are joined by `|` and a background pipeline ends
//! with ` &`.

use vstd::prelude::*;

use crate::parser::{
    B_AMP, B_GT, B_LT, B_PIPE, B_SPACE, B_ZERO, FD_MAX, ParseError, digit_len, digits_val,
    is_digit_byte, is_structural_byte, is_word_byte, is_ws_byte, lemma_digit_len_bounds,
    lemma_digits_val_bounds, lemma_skip_skip, lemma_word_len_bounds, lemma_ws_len_bounds, skip_ws,
    spec_command, spec_parse, spec_pipeline, spec_redirect, spec_redirects, spec_args,
    word_len, ws_len,
};
use crate::types::{CommandModel, PipelineModel, RedirectModel, RedirectType};

verus! {

/// A word as the scanner produces one: non-empty, every byte a word byte.
pub open spec fn wf_word(w: Seq<u8>) -> bool {
    w.len() >= 1 && forall|k: int| 0 <= k < w.len() ==> is_word_byte(#[trigger] w[k])
}

/// A redirect as the parser produces one: a word target and a descriptor
/// that fits a signed 32-bit integer.
pub open spec fn wf_redirect(r: RedirectModel) -> bool {
    wf_word(r.target) && 0 <= r.from <= FD_MAX as int
}

pub open spec fn wf_command(c: CommandModel) -> bool {
    &&& wf_word(c.name)
    &&& forall|k: int| 0 <= k < c.arguments.len() ==> wf_word(#[trigger] c.arguments[k])
    &&& forall|k: int| 0 <= k < c.redirects.len() ==> wf_redirect(#[trigger] c.redirects[k])
}

pub open spec fn wf_pipeline(p: PipelineModel) -> bool {
    p.commands.len() >= 1 && forall|k: int|
        0 <= k < p.commands.len() ==> wf_command(#[trigger] p.commands[k])
}

/// The decimal digits of `n` (for non-negative `n`), most significant
/// first.
pub open spec fn dec_digits(n: int) -> Seq<u8>
    decreases n,
{
    if n < 10 {
        seq![(B_ZERO + n) as u8]
    } else {
        dec_digits(n / 10).push((B_ZERO + n % 10) as u8)
    }
}

pub proof fn lemma_dec_digits(n: int)
    requires
        0 <= n,
    ensures
        dec_digits(n).len() >= 1,
        forall|k: int| 0 <= k < dec_digits(n).len() ==> is_digit_byte(#[trigger] dec_digits(n)[k]),
        digits_val(dec_digits(n)) == n,
    decreases n,
{
    if n < 10 {
        let d = (B_ZERO + n) as u8;
        assert(d == B_ZERO + n);
        assert(dec_digits(n) == seq![d]);
        assert(seq![d].drop_last() =~= Seq::<u8>::empty());
        assert(seq![d].last() == d);
        assert(digits_val(seq![d]) == digits_val(Seq::<u8>::empty()) * 10 + (d - B_ZERO));
        assert(digits_val(Seq::<u8>::empty()) == 0);
    } else {
        lemma_dec_digits(n / 10);
        let ds = dec_digits(n / 10);
        let d = (B_ZERO + n % 10) as u8;
        assert(ds.push(d).drop_last() =~= ds);
        assert(ds.push(d).last() == d);
        assert(digits_val(ds.push(d)) == digits_val(ds) * 10 + (d - B_ZERO));
        assert(n / 10 * 10 + n % 10 == n) by (nonlinear_arith)
            requires
                n >= 10,
        ;
        assert forall|k: int| 0 <= k < ds.push(d).len() implies is_digit_byte(
            #[trigger] ds.push(d)[k],
        ) by {
            if k < ds.len() {
                assert(ds.push(d)[k] == ds[k]);
            }
        }
    }
}

/// The operator bytes of a redirect type.
pub open spec fn op_bytes(t: RedirectType) -> Seq<u8> {
    match t {
        RedirectType::Input => seq![B_LT],
        RedirectType::Output => seq![B_GT],
        RedirectType::Append => seq![B_GT, B_GT],
    }
}

/// One redirect: its descriptor written out, the operator, the target.
pub open spec fn ser_redirect(r: RedirectModel) -> Seq<u8> {
    dec_digits(r.from) + op_bytes(r.typ) + r.target
}

/// The redirects of a command, each followed by a space; they precede the
/// command name, where an explicit descriptor is read back as written.
pub open spec fn ser_redirects(rs: Seq<RedirectModel>) -> Seq<u8>
    decreases rs.len(),
{
    if rs.len() == 0 {
        Seq::empty()
    } else {
        ser_redirect(rs[0]) + seq![B_SPACE] + ser_redirects(rs.skip(1))
    }
}

/// The arguments, each preceded by a space.
pub open spec fn ser_args(args: Seq<Seq<u8>>) -> Seq<u8>
    decreases args.len(),
{
    if args.len() == 0 {
        Seq::empty()
    } else {
        seq![B_SPACE] + args[0] + ser_args(args.skip(1))
    }
}

/// One command: redirects, name, arguments.
pub open spec fn ser_command(c: CommandModel) -> Seq<u8> {
    ser_redirects(c.redirects) + c.name + ser_args(c.arguments)
}

/// The commands joined by `|`.
pub open spec fn ser_commands(cs: Seq<CommandModel>) -> Seq<u8>
    decreases cs.len(),
{
    if cs.len() <= 1 {
        ser_command(cs[0])
    } else {
        ser_command(cs[0]) + seq![B_PIPE] + ser_commands(cs.skip(1))
    }
}

/// A whole pipeline; a background one ends with ` &`.
pub open spec fn ser_pipeline(p: PipelineModel) -> Seq<u8> {
    ser_commands(p.commands) + (if p.is_background {
        seq![B_SPACE, B_AMP]
    } else {
        Seq::<u8>::empty()
    })
}

/// A run of word bytes followed by a non-word byte (or nothing) scans as
/// exactly that run.
proof fn lemma_word_prefix(w: Seq<u8>, rest: Seq<u8>)
    requires
        forall|k: int| 0 <= k < w.len() ==> is_word_byte(#[trigger] w[k]),
        rest.len() == 0 || !is_word_byte(rest[0]),
    ensures
        word_len(w + rest) == w.len(),
        (w + rest).take(w.len() as int) == w,
        (w + rest).skip(w.len() as int) == rest,
    decreases w.len(),
{
    if w.len() == 0 {
        assert(w + rest =~= rest);
        assert((w + rest).take(0) =~= w);
        assert((w + rest).skip(0) =~= rest);
    } else {
        assert((w + rest)[0] == w[0]);
        assert((w + rest).skip(1) =~= w.skip(1) + rest);
        lemma_word_prefix(w.skip(1), rest);
        assert((w + rest).take(w.len() as int) =~= w);
        assert((w + rest).skip(w.len() as int) =~= rest);
    }
}

/// A run of digits followed by a non-digit byte (or nothing) scans as
/// exactly that run.
proof fn lemma_digit_prefix(w: Seq<u8>, rest: Seq<u8>)
    requires
        forall|k: int| 0 <= k < w.len() ==> is_digit_byte(#[trigger] w[k]),
        rest.len() == 0 || !is_digit_byte(rest[0]),
    ensures
        digit_len(w + rest) == w.len(),
        (w + rest).take(w.len() as int) == w,
        (w + rest).skip(w.len() as int) == rest,
    decreases w.len(),
{
    if w.len() == 0 {
        assert(w + rest =~= rest);
        assert((w + rest).take(0) =~= w);
        assert((w + rest).skip(0) =~= rest);
    } else {
        assert((w + rest)[0] == w[0]);
        assert((w + rest).skip(1) =~= w.skip(1) + rest);
        lemma_digit_prefix(w.skip(1), rest);
        assert((w + rest).take(w.len() as int) =~= w);
        assert((w + rest).skip(w.len() as int) =~= rest);
    }
}

/// Nothing is skipped before a non-whitespace byte.
proof fn lemma_ws_none(s: Seq<u8>)
    requires
        s.len() == 0 || !is_ws_byte(s[0]),
    ensures
        skip_ws(s) == s,
{
    assert(ws_len(s) == 0);
    assert(s.skip(0) =~= s);
}

/// One space before a non-whitespace remainder is skipped entirely.
proof fn lemma_ws_one(rest: Seq<u8>)
    requires
        rest.len() == 0 || !is_ws_byte(rest[0]),
    ensures
        skip_ws(seq![B_SPACE] + rest) == rest,
{
    let s = seq![B_SPACE] + rest;
    assert(s[0] == B_SPACE);
    assert(s.skip(1) =~= rest);
    assert(ws_len(s) == 1 + ws_len(rest));
    assert(ws_len(rest) == 0);
    lemma_skip_skip(s, 1, 0);
    assert(s.skip(1).skip(0) =~= s.skip(1));
    assert(skip_ws(s) =~= rest);
}

/// One serialized redirect parses back to itself whenever something that
/// cannot extend its target follows.
proof fn lemma_parse_ser_redirect(r: RedirectModel, rest: Seq<u8>)
    requires
        wf_redirect(r),
        rest.len() > 0,
        !is_word_byte(rest[0]),
    ensures
        spec_redirect(ser_redirect(r) + rest) == Ok::<
            Option<(RedirectModel, Seq<u8>)>,
            ParseError,
        >(Some((r, rest))),
{
    let ds = dec_digits(r.from);
    let op = op_bytes(r.typ);
    let s = ser_redirect(r) + rest;
    lemma_dec_digits(r.from);
    let tail1 = op + (r.target + rest);
    assert(s =~= ds + tail1);
    assert(!is_digit_byte(tail1[0]));
    lemma_digit_prefix(ds, tail1);
    assert(digits_val(s.take(digit_len(s))) == r.from);
    let t = s.skip(digit_len(s));
    assert(t == tail1);
    let target_rest = r.target + rest;
    assert(target_rest[0] == r.target[0]);
    assert(!is_ws_byte(target_rest[0]));
    lemma_ws_none(target_rest);
    lemma_word_prefix(r.target, rest);
    match r.typ {
        RedirectType::Input => {
            assert(t[0] == B_LT);
            assert(t.skip(1) =~= target_rest);
        },
        RedirectType::Output => {
            assert(t[0] == B_GT);
            assert(t.len() > 1);
            assert(t[1] == r.target[0]);
            assert(t[1] != B_GT);
            assert(t.skip(1) =~= target_rest);
        },
        RedirectType::Append => {
            assert(t[0] == B_GT);
            assert(t[1] == B_GT);
            assert(t.skip(2) =~= target_rest);
        },
    }
}

/// A run of serialized redirects parses back to the run, leaving `tail`,
/// whenever no redirect starts at `tail`.
proof fn lemma_parse_ser_redirects(rs: Seq<RedirectModel>, tail: Seq<u8>)
    requires
        forall|k: int| 0 <= k < rs.len() ==> wf_redirect(#[trigger] rs[k]),
        tail.len() == 0 || !is_ws_byte(tail[0]),
        spec_redirect(tail) == Ok::<Option<(RedirectModel, Seq<u8>)>, ParseError>(None),
    ensures
        spec_redirects(ser_redirects(rs) + tail) == Ok::<
            (Seq<RedirectModel>, Seq<u8>),
            ParseError,
        >((rs, tail)),
    decreases rs.len(),
{
    if rs.len() == 0 {
        assert(ser_redirects(rs) + tail =~= tail);
        assert(rs =~= Seq::<RedirectModel>::empty());
    } else {
        assert forall|k: int| 0 <= k < rs.skip(1).len() implies wf_redirect(
            #[trigger] rs.skip(1)[k],
        ) by {
            assert(rs.skip(1)[k] == rs[k + 1]);
        }
        let inner = ser_redirects(rs.skip(1)) + tail;
        let s = ser_redirects(rs) + tail;
        assert(s =~= ser_redirect(rs[0]) + (seq![B_SPACE] + inner));
        lemma_parse_ser_redirect(rs[0], seq![B_SPACE] + inner);
        if rs.skip(1).len() > 0 {
            let r1 = rs.skip(1)[0];
            lemma_dec_digits(r1.from);
            assert(ser_redirects(rs.skip(1))[0] == dec_digits(r1.from)[0]);
            assert(inner[0] == dec_digits(r1.from)[0]);
            assert(!is_ws_byte(inner[0]));
        } else {
            assert(inner =~= tail);
        }
        lemma_ws_one(inner);
        lemma_parse_ser_redirects(rs.skip(1), tail);
        assert(seq![rs[0]] + rs.skip(1) =~= rs);
    }
}

/// No redirect starts at a word followed by a separator: the digit run it
/// may open is never followed by an operator byte.
proof fn lemma_name_no_redirect(name: Seq<u8>, tail2: Seq<u8>)
    requires
        wf_word(name),
        tail2.len() == 0 || tail2[0] == B_SPACE || tail2[0] == B_PIPE || tail2[0] == B_AMP,
    ensures
        spec_redirect(name + tail2) == Ok::<Option<(RedirectModel, Seq<u8>)>, ParseError>(None),
{
    let s = name + tail2;
    lemma_digit_len_bounds(s);
    let dl = digit_len(s);
    if dl > name.len() {
        assert(is_digit_byte(s[name.len() as int]));
        assert(s[name.len() as int] == tail2[0]);
        assert(false);
    }
    let t = s.skip(dl);
    if t.len() > 0 {
        assert(t[0] == s[dl]);
        if dl < name.len() {
            assert(s[dl] == name[dl]);
            assert(is_word_byte(name[dl]));
            assert(!is_structural_byte(name[dl]));
        } else {
            assert(s[dl] == tail2[0]);
        }
        assert(t[0] != B_LT && t[0] != B_GT);
    }
}

/// What remains of the pipeline tail once the argument scanner has gone
/// over it: the space before a background marker is consumed.
pub open spec fn tail_rem(ptail: Seq<u8>) -> Seq<u8> {
    if ptail.len() > 0 && ptail[0] == B_SPACE {
        ptail.skip(1)
    } else {
        ptail
    }
}

/// A pipeline tail is empty, a `|` and more, or exactly ` &`.
pub open spec fn is_ptail(ptail: Seq<u8>) -> bool {
    ||| ptail.len() == 0
    ||| (ptail.len() > 0 && ptail[0] == B_PIPE)
    ||| (ptail.len() == 2 && ptail[0] == B_SPACE && ptail[1] == B_AMP)
}

/// Serialized arguments parse back to the argument list, leaving the tail
/// with its leading space, if any, consumed.
proof fn lemma_parse_ser_args(args: Seq<Seq<u8>>, ptail: Seq<u8>)
    requires
        forall|k: int| 0 <= k < args.len() ==> wf_word(#[trigger] args[k]),
        is_ptail(ptail),
    ensures
        spec_args(ser_args(args) + ptail) == (args, tail_rem(ptail)),
    decreases args.len(),
{
    if args.len() == 0 {
        let s = ser_args(args) + ptail;
        assert(s =~= ptail);
        assert(args =~= Seq::<Seq<u8>>::empty());
        if ptail.len() == 0 {
            lemma_ws_none(ptail);
        } else if ptail[0] == B_PIPE {
            lemma_ws_none(ptail);
        } else {
            assert(ptail =~= seq![B_SPACE] + ptail.skip(1));
            assert(ptail.skip(1)[0] == B_AMP);
            lemma_ws_one(ptail.skip(1));
            assert(word_len(ptail.skip(1)) == 0);
        }
    } else {
        assert forall|k: int| 0 <= k < args.skip(1).len() implies wf_word(
            #[trigger] args.skip(1)[k],
        ) by {
            assert(args.skip(1)[k] == args[k + 1]);
        }
        let inner2 = ser_args(args.skip(1)) + ptail;
        let s = ser_args(args) + ptail;
        assert(s =~= seq![B_SPACE] + (args[0] + inner2));
        assert((args[0] + inner2)[0] == args[0][0]);
        assert(!is_ws_byte(args[0][0]));
        lemma_ws_one(args[0] + inner2);
        if args.skip(1).len() > 0 {
            assert(ser_args(args.skip(1))[0] == B_SPACE);
            assert(inner2[0] == B_SPACE);
            assert(!is_word_byte(inner2[0]));
        } else {
            assert(inner2 =~= ptail);
            if ptail.len() > 0 {
                assert(!is_word_byte(ptail[0]));
            }
        }
        lemma_word_prefix(args[0], inner2);
        lemma_parse_ser_args(args.skip(1), ptail);
        assert(seq![args[0]] + args.skip(1) =~= args);
    }
}

/// No redirect starts at a consumed tail.
proof fn lemma_tail_no_redirect(rem: Seq<u8>)
    requires
        rem.len() == 0 || rem[0] == B_PIPE || rem[0] == B_AMP,
    ensures
        spec_redirect(rem) == Ok::<Option<(RedirectModel, Seq<u8>)>, ParseError>(None),
        spec_redirects(rem) == Ok::<(Seq<RedirectModel>, Seq<u8>), ParseError>(
            (Seq::empty(), rem),
        ),
{
    if rem.len() > 0 {
        assert(digit_len(rem) == 0);
        assert(rem.skip(0) =~= rem);
    }
}

/// One serialized command parses back to itself, leaving the consumed
/// tail.
proof fn lemma_parse_ser_command(c: CommandModel, ptail: Seq<u8>)
    requires
        wf_command(c),
        is_ptail(ptail),
    ensures
        spec_command(ser_command(c) + ptail) == Ok::<(CommandModel, Seq<u8>), ParseError>(
            (c, tail_rem(ptail)),
        ),
{
    let tail2 = ser_args(c.arguments) + ptail;
    let tail = c.name + tail2;
    let s = ser_command(c) + ptail;
    assert(s =~= ser_redirects(c.redirects) + tail);
    if c.arguments.len() > 0 {
        assert(ser_args(c.arguments)[0] == B_SPACE);
        assert(tail2[0] == B_SPACE);
    } else {
        assert(tail2 =~= ptail);
    }
    lemma_name_no_redirect(c.name, tail2);
    assert(tail[0] == c.name[0]);
    assert(!is_ws_byte(tail[0]));
    lemma_parse_ser_redirects(c.redirects, tail);
    if tail2.len() > 0 {
        assert(!is_word_byte(tail2[0]));
    }
    lemma_word_prefix(c.name, tail2);
    lemma_parse_ser_args(c.arguments, ptail);
    let rem = tail_rem(ptail);
    lemma_tail_no_redirect(rem);
    assert(c.redirects + Seq::<RedirectModel>::empty() =~= c.redirects);
}

/// The tail a pipeline's serialization appends: ` &` for a background
/// pipeline, nothing otherwise.
pub open spec fn bg_tail(bg: bool) -> Seq<u8> {
    if bg {
        seq![B_SPACE, B_AMP]
    } else {
        Seq::<u8>::empty()
    }
}

/// A serialized command is non-empty and opens with a digit or a word
/// byte, never whitespace.
proof fn lemma_command_first_byte(c: CommandModel)
    requires
        wf_command(c),
    ensures
        ser_command(c).len() > 0,
        !is_ws_byte(ser_command(c)[0]),
{
    if c.redirects.len() > 0 {
        lemma_dec_digits(c.redirects[0].from);
        assert(ser_command(c)[0] == dec_digits(c.redirects[0].from)[0]);
        assert(is_digit_byte(ser_command(c)[0]));
    } else {
        assert(ser_redirects(c.redirects).len() == 0);
        assert(ser_command(c)[0] == c.name[0]);
        assert(is_word_byte(ser_command(c)[0]));
    }
}

/// Serialized commands with a background tail parse back to exactly that
/// pipeline.
proof fn lemma_parse_ser_commands(cs: Seq<CommandModel>, bg: bool)
    requires
        cs.len() >= 1,
        forall|k: int| 0 <= k < cs.len() ==> wf_command(#[trigger] cs[k]),
    ensures
        spec_pipeline(ser_commands(cs) + bg_tail(bg)) == Ok::<PipelineModel, ParseError>(
            PipelineModel { commands: cs, is_background: bg },
        ),
    decreases cs.len(),
{
    let s = ser_commands(cs) + bg_tail(bg);
    lemma_command_first_byte(cs[0]);
    if cs.len() == 1 {
        assert(s =~= ser_command(cs[0]) + bg_tail(bg));
        assert(s[0] == ser_command(cs[0])[0]);
        lemma_ws_none(s);
        lemma_parse_ser_command(cs[0], bg_tail(bg));
        if bg {
            let r = tail_rem(bg_tail(bg));
            assert(r =~= seq![B_AMP]);
            assert(r[0] == B_AMP);
            assert(r.skip(1) =~= Seq::<u8>::empty());
            lemma_ws_none(r.skip(1));
            assert(seq![cs[0]] =~= cs);
        } else {
            assert(tail_rem(bg_tail(bg)).len() == 0);
            assert(seq![cs[0]] =~= cs);
        }
    } else {
        assert forall|k: int| 0 <= k < cs.skip(1).len() implies wf_command(
            #[trigger] cs.skip(1)[k],
        ) by {
            assert(cs.skip(1)[k] == cs[k + 1]);
        }
        let x = ser_commands(cs.skip(1)) + bg_tail(bg);
        let ptail = seq![B_PIPE] + x;
        assert(s =~= ser_command(cs[0]) + ptail);
        assert(s[0] == ser_command(cs[0])[0]);
        lemma_ws_none(s);
        lemma_parse_ser_command(cs[0], ptail);
        let r = tail_rem(ptail);
        assert(r =~= ptail);
        assert(r[0] == B_PIPE);
        assert(r.skip(1) =~= x);
        lemma_parse_ser_commands(cs.skip(1), bg);
        assert(seq![cs[0]] + cs.skip(1) =~= cs);
    }
}

/// Serializing a well-formed pipeline and parsing the rendering gives the
/// pipeline back.
pub proof fn lemma_serialize_parses_back(p: PipelineModel)
    requires
        wf_pipeline(p),
    ensures
        spec_parse(ser_pipeline(p)) == Ok::<PipelineModel, ParseError>(p),
{
    lemma_parse_ser_commands(p.commands, p.is_background);
    assert(ser_pipeline(p) == ser_commands(p.commands) + bg_tail(p.is_background));
    assert(PipelineModel { commands: p.commands, is_background: p.is_background } == p);
}

/// A parsed redirect target is a well-formed word and carries the
/// descriptor and type the scanner resolved.
proof fn lemma_target_image_wf(
    from: int,
    typ: RedirectType,
    rest0: Seq<u8>,
    r: RedirectModel,
    rest: Seq<u8>,
)
    requires
        crate::parser::spec_redirect_target(from, typ, rest0) == Ok::<
            Option<(RedirectModel, Seq<u8>)>,
            ParseError,
        >(Some((r, rest))),
    ensures
        wf_word(r.target),
        r.from == from,
        r.typ == typ,
{
    let rest1 = skip_ws(rest0);
    let wl = word_len(rest1);
    lemma_word_len_bounds(rest1);
    assert forall|k: int| 0 <= k < r.target.len() implies is_word_byte(
        #[trigger] r.target[k],
    ) by {
        assert(r.target[k] == rest1[k]);
    }
}

/// A parsed redirect is well-formed.
proof fn lemma_redirect_image_wf(s: Seq<u8>, r: RedirectModel, rest: Seq<u8>)
    requires
        spec_redirect(s) == Ok::<Option<(RedirectModel, Seq<u8>)>, ParseError>(Some((r, rest))),
    ensures
        wf_redirect(r),
        rest.len() < s.len(),
{
    let dl = digit_len(s);
    let t = s.skip(dl);
    lemma_digit_len_bounds(s);
    if dl > 0 {
        assert forall|k: int| 0 <= k < s.take(dl).len() implies is_digit_byte(
            #[trigger] s.take(dl)[k],
        ) by {
            assert(s.take(dl)[k] == s[k]);
        }
        lemma_digits_val_bounds(s.take(dl));
    }
    crate::parser::lemma_spec_redirect_shrinks(s);
    if t.len() > 0 && t[0] == B_LT {
        if dl == 0 {
            lemma_target_image_wf(0, RedirectType::Input, t.skip(1), r, rest);
        } else {
            lemma_target_image_wf(digits_val(s.take(dl)), RedirectType::Input, t.skip(1), r, rest);
        }
    } else if t.len() > 0 && t[0] == B_GT {
        let (typ, rest0): (RedirectType, Seq<u8>) = if t.len() > 1 && t[1] == B_GT {
            (RedirectType::Append, t.skip(2))
        } else {
            (RedirectType::Output, t.skip(1))
        };
        if dl == 0 {
            lemma_target_image_wf(1, typ, rest0, r, rest);
        } else {
            lemma_target_image_wf(digits_val(s.take(dl)), typ, rest0, r, rest);
        }
    }
}

/// Every redirect a run yields is well-formed.
proof fn lemma_redirects_image_wf(s: Seq<u8>, rs: Seq<RedirectModel>, rem: Seq<u8>)
    requires
        spec_redirects(s) == Ok::<(Seq<RedirectModel>, Seq<u8>), ParseError>((rs, rem)),
    ensures
        forall|k: int| 0 <= k < rs.len() ==> wf_redirect(#[trigger] rs[k]),
    decreases s.len(),
{
    match spec_redirect(s) {
        Ok(opt) => match opt {
            None => {},
            Some((r0, rest)) => {
                lemma_redirect_image_wf(s, r0, rest);
                lemma_ws_len_bounds(rest);
                let rest2 = skip_ws(rest);
                match spec_redirects(rest2) {
                    Ok((rs2, rem2)) => {
                        lemma_redirects_image_wf(rest2, rs2, rem2);
                        assert forall|k: int| 0 <= k < rs.len() implies wf_redirect(
                            #[trigger] rs[k],
                        ) by {
                            if k == 0 {
                                assert(rs[0] == r0);
                            } else {
                                assert(rs[k] == rs2[k - 1]);
                            }
                        }
                    },
                    Err(_) => {},
                }
            },
        },
        Err(_) => {},
    }
}

/// Every argument word the scanner yields is well-formed.
proof fn lemma_args_image_wf(s: Seq<u8>)
    ensures
        forall|k: int|
            0 <= k < spec_args(s).0.len() ==> wf_word(#[trigger] spec_args(s).0[k]),
    decreases s.len(),
{
    lemma_ws_len_bounds(s);
    let t = skip_ws(s);
    let wl = word_len(t);
    lemma_word_len_bounds(t);
    if wl != 0 {
        lemma_args_image_wf(t.skip(wl));
        let w = t.take(wl);
        assert forall|k: int| 0 <= k < w.len() implies is_word_byte(#[trigger] w[k]) by {
            assert(w[k] == t[k]);
        }
        assert forall|k: int|
            0 <= k < spec_args(s).0.len() implies wf_word(#[trigger] spec_args(s).0[k]) by {
            if k == 0 {
                assert(spec_args(s).0[0] == w);
            } else {
                assert(spec_args(s).0[k] == spec_args(t.skip(wl)).0[k - 1]);
            }
        }
    }
}

/// A parsed command is well-formed.
proof fn lemma_command_image_wf(s: Seq<u8>, c: CommandModel, rem: Seq<u8>)
    requires
        spec_command(s) == Ok::<(CommandModel, Seq<u8>), ParseError>((c, rem)),
    ensures
        wf_command(c),
{
    match spec_redirects(s) {
        Err(_) => {},
        Ok((rs1, s1)) => {
            lemma_redirects_image_wf(s, rs1, s1);
            let wl = word_len(s1);
            lemma_word_len_bounds(s1);
            assert forall|k: int| 0 <= k < c.name.len() implies is_word_byte(
                #[trigger] c.name[k],
            ) by {
                assert(c.name[k] == s1[k]);
            }
            lemma_args_image_wf(s1.skip(wl));
            let s3 = spec_args(s1.skip(wl)).1;
            match spec_redirects(s3) {
                Err(_) => {},
                Ok((rs2, s4)) => {
                    lemma_redirects_image_wf(s3, rs2, s4);
                    assert forall|k: int| 0 <= k < c.redirects.len() implies wf_redirect(
                        #[trigger] c.redirects[k],
                    ) by {
                        if k < rs1.len() {
                            assert(c.redirects[k] == rs1[k]);
                        } else {
                            assert(c.redirects[k] == rs2[k - rs1.len()]);
                        }
                    }
                },
            }
        },
    }
}

/// Whatever parsing accepts is a well-formed pipeline.
pub proof fn lemma_parse_wf(s: Seq<u8>, p: PipelineModel)
    requires
        spec_parse(s) == Ok::<PipelineModel, ParseError>(p),
    ensures
        wf_pipeline(p),
    decreases s.len(),
{
    lemma_ws_len_bounds(s);
    let t = skip_ws(s);
    match spec_command(t) {
        Err(_) => {},
        Ok((c, r)) => {
            lemma_command_image_wf(t, c, r);
            crate::parser::lemma_spec_command_shrinks(t);
            if r.len() == 0 {
                assert(p.commands =~= seq![c]);
            } else if r[0] == B_PIPE {
                match spec_pipeline(r.skip(1)) {
                    Err(_) => {},
                    Ok(p2) => {
                        lemma_parse_wf(r.skip(1), p2);
                        assert forall|k: int| 0 <= k < p.commands.len() implies wf_command(
                            #[trigger] p.commands[k],
                        ) by {
                            if k == 0 {
                                assert(p.commands[0] == c);
                            } else {
                                assert(p.commands[k] == p2.commands[k - 1]);
                            }
                        }
                    },
                }
            } else if r[0] == B_AMP {
                if skip_ws(r.skip(1)).len() == 0 {
                    assert(p.commands =~= seq![c]);
                }
            }
        },
    }
}

/// Append a byte slice.
fn push_bytes(out: &mut Vec<u8>, s: &[u8])
    ensures
        final(out)@ == old(out)@ + s@,
{
    let ghost orig = out@;
    let n = s.len();
    let mut i: usize = 0;
    proof {
        assert(orig + s@.take(0) =~= orig);
    }
    while i < n
        invariant
            i <= n,
            n == s@.len(),
            out@ == orig + s@.take(i as int),
        decreases n - i,
    {
        out.push(*vstd::slice::slice_index_get(s, i));
        proof {
            assert(orig + s@.take(i + 1) =~= (orig + s@.take(i as int)).push(s@[i as int]));
        }
        i = i + 1;
    }
    proof {
        assert(s@.take(n as int) =~= s@);
    }
}

/// Append the decimal digits of a non-negative number.
fn push_digits(out: &mut Vec<u8>, n: i32)
    requires
        n >= 0,
    ensures
        final(out)@ == old(out)@ + dec_digits(n as int),
    decreases n,
{
    let ghost orig = out@;
    if n < 10 {
        out.push((48 + n) as u8);
        proof {
            assert(orig + dec_digits(n as int) =~= orig.push((B_ZERO + n as int) as u8));
        }
    } else {
        push_digits(out, n / 10);
        out.push((48 + (n % 10)) as u8);
        proof {
            assert(n as int / 10 == (n / 10) as int);
            assert(orig + dec_digits(n as int) =~= (orig + dec_digits(n as int / 10)).push(
                (B_ZERO + n as int % 10) as u8,
            ));
        }
    }
}

/// Append one redirect: descriptor digits, operator, target.
fn push_redirect(out: &mut Vec<u8>, r: &crate::types::Redirect)
    requires
        wf_redirect(r@),
    ensures
        final(out)@ == old(out)@ + ser_redirect(r@),
{
    let ghost orig = out@;
    push_digits(out, r.from);
    match r.typ {
        RedirectType::Input => {
            out.push(60);
        },
        RedirectType::Output => {
            out.push(62);
        },
        RedirectType::Append => {
            out.push(62);
            out.push(62);
        },
    }
    let ghost mid = out@;
    proof {
        assert(mid =~= orig + dec_digits(r@.from) + op_bytes(r@.typ));
    }
    push_bytes(out, r.target.as_slice());
    proof {
        assert(out@ =~= orig + ser_redirect(r@));
    }
}

/// Append the redirects from position `k` on, each followed by a space.
fn push_redirects(out: &mut Vec<u8>, rs: &Vec<crate::types::Redirect>, k: usize)
    requires
        k <= rs@.len(),
        forall|t: int|
            0 <= t < rs@.len() ==> wf_redirect(#[trigger] crate::types::redirects_view(rs@)[t]),
    ensures
        final(out)@ == old(out)@ + ser_redirects(crate::types::redirects_view(rs@).skip(k as int)),
    decreases rs@.len() - k,
{
    let ghost orig = out@;
    let ghost rv = crate::types::redirects_view(rs@);
    if k == rs.len() {
        proof {
            assert(rv.skip(k as int).len() == 0);
            assert(orig + ser_redirects(rv.skip(k as int)) =~= orig);
        }
    } else {
        proof {
            assert(rv.skip(k as int)[0] == rv[k as int]);
            assert(rv[k as int] == rs@[k as int]@);
        }
        push_redirect(out, &rs[k]);
        out.push(32);
        let ghost mid = out@;
        proof {
            assert(mid =~= orig + ser_redirect(rv[k as int]) + seq![B_SPACE]);
        }
        push_redirects(out, rs, k + 1);
        proof {
            assert(rv.skip(k as int).skip(1) =~= rv.skip(k + 1));
            assert(out@ =~= orig + ser_redirects(rv.skip(k as int)));
        }
    }
}

/// Append the arguments from position `k` on, each preceded by a space.
fn push_args(out: &mut Vec<u8>, args: &Vec<Vec<u8>>, k: usize)
    requires
        k <= args@.len(),
    ensures
        final(out)@ == old(out)@ + ser_args(crate::types::words_view(args@).skip(k as int)),
    decreases args@.len() - k,
{
    let ghost orig = out@;
    let ghost av = crate::types::words_view(args@);
    if k == args.len() {
        proof {
            assert(av.skip(k as int).len() == 0);
            assert(orig + ser_args(av.skip(k as int)) =~= orig);
        }
    } else {
        proof {
            assert(av.skip(k as int)[0] == av[k as int]);
            assert(av[k as int] == args@[k as int]@);
        }
        out.push(32);
        push_bytes(out, args[k].as_slice());
        let ghost mid = out@;
        proof {
            assert(mid =~= orig + seq![B_SPACE] + av[k as int]);
        }
        push_args(out, args, k + 1);
        proof {
            assert(av.skip(k as int).skip(1) =~= av.skip(k + 1));
            assert(out@ =~= orig + ser_args(av.skip(k as int)));
        }
    }
}

/// Append one command: redirects, name, arguments.
fn push_command(out: &mut Vec<u8>, c: &crate::types::Command)
    requires
        wf_command(c@),
    ensures
        final(out)@ == old(out)@ + ser_command(c@),
{
    let ghost orig = out@;
    proof {
        assert(crate::types::redirects_view(c.redirects@).skip(0) =~= crate::types::redirects_view(
            c.redirects@,
        ));
        assert(crate::types::words_view(c.arguments@).skip(0) =~= crate::types::words_view(
            c.arguments@,
        ));
    }
    proof {
        assert forall|t: int|
            0 <= t < c.redirects@.len() implies wf_redirect(
            #[trigger] crate::types::redirects_view(c.redirects@)[t],
        ) by {
            assert(c@.redirects[t] == crate::types::redirects_view(c.redirects@)[t]);
        }
    }
    push_redirects(out, &c.redirects, 0);
    push_bytes(out, c.name.as_slice());
    push_args(out, &c.arguments, 0);
    proof {
        assert(out@ =~= orig + ser_command(c@));
    }
}

/// Append the commands from position `k` on, joined by `|`.
fn push_commands(out: &mut Vec<u8>, cs: &Vec<crate::types::Command>, k: usize)
    requires
        k < cs@.len(),
        forall|t: int|
            0 <= t < cs@.len() ==> wf_command(#[trigger] crate::types::commands_view(cs@)[t]),
    ensures
        final(out)@ == old(out)@ + ser_commands(crate::types::commands_view(cs@).skip(k as int)),
    decreases cs@.len() - k,
{
    let ghost orig = out@;
    let ghost cv = crate::types::commands_view(cs@);
    let n = cs.len();
    proof {
        assert(k < n);
        assert(cv.skip(k as int)[0] == cv[k as int]);
        assert(cv[k as int] == cs@[k as int]@);
    }
    push_command(out, &cs[k]);
    if k + 1 < n {
        out.push(124);
        let ghost mid = out@;
        proof {
            assert(mid =~= orig + ser_command(cv[k as int]) + seq![B_PIPE]);
        }
        push_commands(out, cs, k + 1);
        proof {
            assert(cv.skip(k as int).skip(1) =~= cv.skip(k + 1));
            assert(out@ =~= orig + ser_commands(cv.skip(k as int)));
        }
    } else {
        proof {
            assert(cv.skip(k as int).len() == 1);
            assert(out@ =~= orig + ser_commands(cv.skip(k as int)));
        }
    }
}

/// Render a pipeline to bytes exactly as `ser_pipeline` describes; the
/// rendering parses back to the pipeline it came from.
pub fn serialize(p: &crate::types::Pipeline) -> (out: Vec<u8>)
    requires
        wf_pipeline(p@),
    ensures
        out@ == ser_pipeline(p@),
{
    let mut out: Vec<u8> = Vec::new();
    proof {
        assert(crate::types::commands_view(p.commands@).skip(0) =~= crate::types::commands_view(
            p.commands@,
        ));
        assert forall|t: int|
            0 <= t < p.commands@.len() implies wf_command(
            #[trigger] crate::types::commands_view(p.commands@)[t],
        ) by {
            assert(p@.commands[t] == crate::types::commands_view(p.commands@)[t]);
        }
    }
    push_commands(&mut out, &p.commands, 0);
    if p.is_background {
        out.push(32);
        out.push(38);
    }
    proof {
        assert(out@ =~= ser_pipeline(p@));
    }
    out
}

/// Law (parser round trip): serializing what a line parsed to, and
/// parsing the rendering, gives exactly the first parse's result —
/// `parse(serialize(parse(x))) == parse(x)` for every line `x` that
/// parses.
pub proof fn lemma_parser_round_trip(x: Seq<u8>, p: PipelineModel)
    requires
        spec_parse(x) == Ok::<PipelineModel, ParseError>(p),
    ensures
        spec_parse(ser_pipeline(p)) == spec_parse(x),
{
    lemma_parse_wf(x, p);
    lemma_serialize_parses_back(p);
}

} // verus!
