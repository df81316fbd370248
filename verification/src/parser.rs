//! The line parser: a single-pass scanner over the bytes of one input line.
//!
//! The grammar is
//! ```text
//! pipeline   ::= command ( '|' command )* ( '&' )?
//! command    ::= redirects word ( word )* redirects
//! redirects  ::= ( redirect )*
//! redirect   ::= [number] ( '<' | '>' | '>>' ) target
//! ```
//! Whitespace (space, tab, newline) is skipped between elements; a word is a
//! maximal run of bytes that are neither whitespace nor one of `<`, `>`, `&`,
//! `|`. A digit run before a redirection operator gives the file descriptor;
//! when no operator follows, the scanner rewinds so the digits open a word.
//!
//! The spec functions `spec_*` define what parsing means on byte sequences;
//! each executable function is proved to return exactly what its spec
//! function says.

use vstd::prelude::*;
use vstd::slice::{slice_index_get, slice_subrange, slice_to_vec};

use crate::types::{
    Command, CommandModel, Pipeline, PipelineModel, Redirect, RedirectModel, RedirectType,
    commands_view, redirects_view, words_view,
};

verus! {

/// Why a line was rejected. The payload of the last two variants is the
/// offending byte.
#[derive(Clone, Copy, Debug, PartialEq, Eq, Structural)]
pub enum ParseError {
    EmptyRedirect,
    EmptyCommand,
    NumberTooLarge,
    CharAfterBackground(u8),
    UnknownSeparator(u8),
}

/// Byte values the scanner distinguishes: space, tab, newline, the four
/// structural characters, and the decimal digits.
pub const B_SPACE: u8 = 32;

pub const B_TAB: u8 = 9;

pub const B_NEWLINE: u8 = 10;

pub const B_LT: u8 = 60;

pub const B_GT: u8 = 62;

pub const B_AMP: u8 = 38;

pub const B_PIPE: u8 = 124;

pub const B_ZERO: u8 = 48;

pub const B_NINE: u8 = 57;

pub open spec fn is_ws_byte(c: u8) -> bool {
    c == B_SPACE || c == B_TAB || c == B_NEWLINE
}

pub open spec fn is_structural_byte(c: u8) -> bool {
    c == B_LT || c == B_GT || c == B_AMP || c == B_PIPE
}

/// A word byte is anything that is neither whitespace nor structural.
pub open spec fn is_word_byte(c: u8) -> bool {
    !is_ws_byte(c) && !is_structural_byte(c)
}

pub open spec fn is_digit_byte(c: u8) -> bool {
    B_ZERO <= c && c <= B_NINE
}

/// Length of the run of whitespace bytes at the front of `s`.
pub open spec fn ws_len(s: Seq<u8>) -> int
    decreases s.len(),
{
    if s.len() > 0 && is_ws_byte(s[0]) {
        1 + ws_len(s.skip(1))
    } else {
        0
    }
}

/// Length of the run of word bytes at the front of `s`.
pub open spec fn word_len(s: Seq<u8>) -> int
    decreases s.len(),
{
    if s.len() > 0 && is_word_byte(s[0]) {
        1 + word_len(s.skip(1))
    } else {
        0
    }
}

/// Length of the run of digit bytes at the front of `s`.
pub open spec fn digit_len(s: Seq<u8>) -> int
    decreases s.len(),
{
    if s.len() > 0 && is_digit_byte(s[0]) {
        1 + digit_len(s.skip(1))
    } else {
        0
    }
}

/// `s` with its leading whitespace removed.
pub open spec fn skip_ws(s: Seq<u8>) -> Seq<u8> {
    s.skip(ws_len(s))
}

pub proof fn lemma_skip_skip(s: Seq<u8>, a: int, b: int)
    requires
        0 <= a,
        0 <= b,
        a + b <= s.len(),
    ensures
        s.skip(a).skip(b) == s.skip(a + b),
{
    assert(s.skip(a).skip(b) =~= s.skip(a + b));
}

pub proof fn lemma_ws_len_bounds(s: Seq<u8>)
    ensures
        0 <= ws_len(s) <= s.len(),
        forall|k: int| 0 <= k < ws_len(s) ==> is_ws_byte(s[k]),
        ws_len(s) < s.len() ==> !is_ws_byte(s[ws_len(s)]),
    decreases s.len(),
{
    if s.len() > 0 && is_ws_byte(s[0]) {
        lemma_ws_len_bounds(s.skip(1));
        assert forall|k: int| 0 <= k < ws_len(s) implies is_ws_byte(s[k]) by {
            if k > 0 {
                assert(is_ws_byte(s.skip(1)[k - 1]));
            }
        }
    }
}

pub proof fn lemma_word_len_bounds(s: Seq<u8>)
    ensures
        0 <= word_len(s) <= s.len(),
        forall|k: int| 0 <= k < word_len(s) ==> is_word_byte(s[k]),
        word_len(s) < s.len() ==> !is_word_byte(s[word_len(s)]),
    decreases s.len(),
{
    if s.len() > 0 && is_word_byte(s[0]) {
        lemma_word_len_bounds(s.skip(1));
        assert forall|k: int| 0 <= k < word_len(s) implies is_word_byte(s[k]) by {
            if k > 0 {
                assert(is_word_byte(s.skip(1)[k - 1]));
            }
        }
    }
}

pub proof fn lemma_digit_len_bounds(s: Seq<u8>)
    ensures
        0 <= digit_len(s) <= s.len(),
        forall|k: int| 0 <= k < digit_len(s) ==> is_digit_byte(s[k]),
        digit_len(s) < s.len() ==> !is_digit_byte(s[digit_len(s)]),
    decreases s.len(),
{
    if s.len() > 0 && is_digit_byte(s[0]) {
        lemma_digit_len_bounds(s.skip(1));
        assert forall|k: int| 0 <= k < digit_len(s) implies is_digit_byte(s[k]) by {
            if k > 0 {
                assert(is_digit_byte(s.skip(1)[k - 1]));
            }
        }
    }
}

/// Numeric value of a sequence of decimal digit bytes.
pub open spec fn digits_val(ds: Seq<u8>) -> int
    decreases ds.len(),
{
    if ds.len() == 0 {
        0
    } else {
        digits_val(ds.drop_last()) * 10 + (ds.last() - B_ZERO)
    }
}

pub open spec fn pow10(n: nat) -> int
    decreases n,
{
    if n == 0 {
        1
    } else {
        10 * pow10((n - 1) as nat)
    }
}

pub proof fn lemma_digits_val_bounds(ds: Seq<u8>)
    requires
        forall|k: int| 0 <= k < ds.len() ==> is_digit_byte(ds[k]),
    ensures
        0 <= digits_val(ds) < pow10(ds.len()),
    decreases ds.len(),
{
    if ds.len() > 0 {
        lemma_digits_val_bounds(ds.drop_last());
    }
}

/// Largest file descriptor number a redirect may carry.
pub const FD_MAX: i32 = 0x7fff_ffff;

/// What parsing one redirect at the front of `s` yields: an error, no
/// redirect (the scanner rewinds, `s` is unconsumed), or a redirect together
/// with the unconsumed remainder.
pub open spec fn spec_redirect(s: Seq<u8>) -> Result<Option<(RedirectModel, Seq<u8>)>, ParseError> {
    let dl = digit_len(s);
    let t = s.skip(dl);
    if t.len() > 0 && t[0] == B_LT {
        spec_redirect_from(s, dl, RedirectType::Input, t.skip(1))
    } else if t.len() > 0 && t[0] == B_GT {
        if t.len() > 1 && t[1] == B_GT {
            spec_redirect_from(s, dl, RedirectType::Append, t.skip(2))
        } else {
            spec_redirect_from(s, dl, RedirectType::Output, t.skip(1))
        }
    } else {
        Ok(None)
    }
}

/// Resolve the file descriptor of a redirect: the default when no digits
/// were written (0 for input, 1 for output and append), else their value,
/// rejected when it does not fit a signed 32-bit integer.
pub open spec fn spec_redirect_from(
    s: Seq<u8>,
    dl: int,
    typ: RedirectType,
    rest0: Seq<u8>,
) -> Result<Option<(RedirectModel, Seq<u8>)>, ParseError> {
    if dl == 0 {
        let from: int = if typ == RedirectType::Input { 0 } else { 1 };
        spec_redirect_target(from, typ, rest0)
    } else if digits_val(s.take(dl)) > FD_MAX as int {
        Err(ParseError::NumberTooLarge)
    } else {
        spec_redirect_target(digits_val(s.take(dl)), typ, rest0)
    }
}

/// Read the target word of a redirect after its operator; it must be
/// non-empty.
pub open spec fn spec_redirect_target(
    from: int,
    typ: RedirectType,
    rest0: Seq<u8>,
) -> Result<Option<(RedirectModel, Seq<u8>)>, ParseError> {
    let rest1 = skip_ws(rest0);
    let wl = word_len(rest1);
    if wl == 0 {
        Err(ParseError::EmptyRedirect)
    } else {
        Ok(Some((RedirectModel { target: rest1.take(wl), from: from, typ: typ }, rest1.skip(wl))))
    }
}

/// When `spec_redirect` returns a redirect it consumed at least two bytes.
pub proof fn lemma_spec_redirect_shrinks(s: Seq<u8>)
    ensures
        spec_redirect(s) matches Ok(Some((r, rest))) ==> rest.len() < s.len(),
{
    lemma_digit_len_bounds(s);
    let dl = digit_len(s);
    let t = s.skip(dl);
    if t.len() > 0 && (t[0] == B_LT || t[0] == B_GT) {
        let oplen: int = if t[0] == B_GT && t.len() > 1 && t[1] == B_GT {
            2
        } else {
            1
        };
        let rest0 = t.skip(oplen);
        lemma_ws_len_bounds(rest0);
        let rest1 = skip_ws(rest0);
        lemma_word_len_bounds(rest1);
    }
}

/// A run of redirects, each followed by skipped whitespace; ends at the
/// first position where no redirect starts.
pub open spec fn spec_redirects(s: Seq<u8>) -> Result<(Seq<RedirectModel>, Seq<u8>), ParseError>
    decreases s.len(),
    via spec_redirects_dec
{
    match spec_redirect(s) {
        Err(e) => Err(e),
        Ok(None) => Ok((Seq::empty(), s)),
        Ok(Some((r, rest))) => {
            let rest2 = skip_ws(rest);
            match spec_redirects(rest2) {
                Err(e) => Err(e),
                Ok((rs, rem)) => Ok((seq![r] + rs, rem)),
            }
        },
    }
}

#[via_fn]
proof fn spec_redirects_dec(s: Seq<u8>) {
    lemma_spec_redirect_shrinks(s);
    if let Ok(Some((r, rest))) = spec_redirect(s) {
        lemma_ws_len_bounds(rest);
    }
}

pub proof fn lemma_spec_redirects_mono(s: Seq<u8>)
    ensures
        spec_redirects(s) matches Ok((rs, rem)) ==> rem.len() <= s.len(),
    decreases s.len(),
{
    lemma_spec_redirect_shrinks(s);
    if let Ok(Some((r, rest))) = spec_redirect(s) {
        lemma_ws_len_bounds(rest);
        lemma_spec_redirects_mono(skip_ws(rest));
    }
}

/// The argument words after the command name: whitespace is skipped before
/// each; the run ends at the first empty word. Yields the arguments and the
/// remainder, which begins right after the last skipped whitespace.
pub open spec fn spec_args(s: Seq<u8>) -> (Seq<Seq<u8>>, Seq<u8>)
    decreases s.len(),
    via spec_args_dec
{
    let t = skip_ws(s);
    let wl = word_len(t);
    if wl == 0 {
        (Seq::empty(), t)
    } else {
        let (rest_args, rem) = spec_args(t.skip(wl));
        (seq![t.take(wl)] + rest_args, rem)
    }
}

#[via_fn]
proof fn spec_args_dec(s: Seq<u8>) {
    lemma_ws_len_bounds(s);
    lemma_word_len_bounds(skip_ws(s));
}

pub proof fn lemma_spec_args_mono(s: Seq<u8>)
    ensures
        spec_args(s).1.len() <= s.len(),
    decreases s.len(),
{
    lemma_ws_len_bounds(s);
    let t = skip_ws(s);
    lemma_word_len_bounds(t);
    let wl = word_len(t);
    if wl != 0 {
        lemma_spec_args_mono(t.skip(wl));
    }
}

/// One command: leading redirects, a non-empty name word, argument words,
/// trailing redirects. The redirects of both sides are pooled in source
/// order.
pub open spec fn spec_command(s: Seq<u8>) -> Result<(CommandModel, Seq<u8>), ParseError> {
    match spec_redirects(s) {
        Err(e) => Err(e),
        Ok((rs1, s1)) => {
            let wl = word_len(s1);
            if wl == 0 {
                Err(ParseError::EmptyCommand)
            } else {
                let name = s1.take(wl);
                let (args, s3) = spec_args(s1.skip(wl));
                match spec_redirects(s3) {
                    Err(e) => Err(e),
                    Ok((rs2, s4)) => Ok(
                        (CommandModel { name: name, arguments: args, redirects: rs1 + rs2 }, s4),
                    ),
                }
            }
        },
    }
}

pub proof fn lemma_spec_command_shrinks(s: Seq<u8>)
    ensures
        spec_command(s) matches Ok((c, rem)) ==> rem.len() < s.len(),
{
    lemma_spec_redirects_mono(s);
    if let Ok((rs1, s1)) = spec_redirects(s) {
        let wl = word_len(s1);
        lemma_word_len_bounds(s1);
        if wl != 0 {
            lemma_spec_args_mono(s1.skip(wl));
            let (args, s3) = spec_args(s1.skip(wl));
            lemma_spec_redirects_mono(s3);
        }
    }
}

/// A whole line: commands separated by `|`, an optional final `&` that must
/// be the last non-whitespace byte.
pub open spec fn spec_pipeline(s: Seq<u8>) -> Result<PipelineModel, ParseError>
    decreases s.len(),
    via spec_pipeline_dec
{
    let t = skip_ws(s);
    match spec_command(t) {
        Err(e) => Err(e),
        Ok((c, r)) => {
            if r.len() == 0 {
                Ok(PipelineModel { commands: seq![c], is_background: false })
            } else if r[0] == B_PIPE {
                match spec_pipeline(r.skip(1)) {
                    Err(e) => Err(e),
                    Ok(p) => Ok(
                        PipelineModel {
                            commands: seq![c] + p.commands,
                            is_background: p.is_background,
                        },
                    ),
                }
            } else if r[0] == B_AMP {
                let u = skip_ws(r.skip(1));
                if u.len() == 0 {
                    Ok(PipelineModel { commands: seq![c], is_background: true })
                } else {
                    Err(ParseError::CharAfterBackground(u[0]))
                }
            } else {
                Err(ParseError::UnknownSeparator(r[0]))
            }
        },
    }
}

#[via_fn]
proof fn spec_pipeline_dec(s: Seq<u8>) {
    lemma_ws_len_bounds(s);
    lemma_spec_command_shrinks(skip_ws(s));
}

/// What parsing a line means: `spec_pipeline` over the whole buffer.
pub open spec fn spec_parse(s: Seq<u8>) -> Result<PipelineModel, ParseError> {
    spec_pipeline(s)
}

pub fn is_whitespace(c: u8) -> (r: bool)
    ensures
        r == is_ws_byte(c),
{
    c == B_SPACE || c == B_TAB || c == B_NEWLINE
}

pub fn is_letter(c: u8) -> (r: bool)
    ensures
        r == is_word_byte(c),
{
    !(c == B_SPACE || c == B_TAB || c == B_NEWLINE || c == B_LT || c == B_GT || c == B_AMP || c
        == B_PIPE)
}

pub fn is_digit(c: u8) -> (r: bool)
    ensures
        r == is_digit_byte(c),
{
    B_ZERO <= c && c <= B_NINE
}

/// Advance `i` past the whitespace run that starts there.
pub fn skip_whitespaces(line: &[u8], i: usize) -> (j: usize)
    requires
        i <= line.len(),
    ensures
        i <= j <= line.len(),
        j - i == ws_len(line@.skip(i as int)),
        line@.skip(j as int) == skip_ws(line@.skip(i as int)),
{
    let mut j = i;
    while j < line.len() && is_whitespace(*slice_index_get(line, j))
        invariant
            i <= j <= line.len(),
            ws_len(line@.skip(i as int)) == j - i + ws_len(line@.skip(j as int)),
        decreases line@.len() - j,
    {
        proof {
            lemma_skip_skip(line@, j as int, 1);
        }
        j = j + 1;
    }
    proof {
        lemma_ws_len_bounds(line@.skip(i as int));
        lemma_skip_skip(line@, i as int, (j - i) as int);
    }
    j
}

/// Read the word that starts at `i`: the maximal run of word bytes, copied
/// out, together with the index just past it. The word may be empty.
pub fn read_word(line: &[u8], i: usize) -> (r: (Vec<u8>, usize))
    requires
        i <= line.len(),
    ensures
        i <= r.1 <= line.len(),
        r.1 - i == word_len(line@.skip(i as int)),
        r.0@ == line@.skip(i as int).take(word_len(line@.skip(i as int))),
{
    let mut j = i;
    while j < line.len() && is_letter(*slice_index_get(line, j))
        invariant
            i <= j <= line.len(),
            word_len(line@.skip(i as int)) == j - i + word_len(line@.skip(j as int)),
        decreases line@.len() - j,
    {
        proof {
            lemma_skip_skip(line@, j as int, 1);
        }
        j = j + 1;
    }
    proof {
        lemma_word_len_bounds(line@.skip(i as int));
    }
    let w = slice_to_vec(slice_subrange(line, i, j));
    proof {
        assert(line@.subrange(i as int, j as int) =~= line@.skip(i as int).take(
            word_len(line@.skip(i as int)),
        ));
    }
    (w, j)
}

/// `digits_val` ignores leading zero digits.
proof fn lemma_digits_val_leading_zeros(ds: Seq<u8>, k: int)
    requires
        0 <= k <= ds.len(),
        forall|m: int| 0 <= m < k ==> ds[m] == B_ZERO,
    ensures
        digits_val(ds) == digits_val(ds.skip(k)),
    decreases ds.len(),
{
    if ds.len() > k {
        lemma_digits_val_leading_zeros(ds.drop_last(), k);
        assert(ds.skip(k).drop_last() =~= ds.drop_last().skip(k));
        assert(ds.skip(k).last() == ds.last());
    } else if ds.len() > 0 {
        lemma_digits_val_leading_zeros(ds.drop_last(), k - 1);
        assert(ds.drop_last().skip(k - 1) =~= ds.skip(k - 1).drop_last());
        assert(digits_val(ds) == digits_val(ds.drop_last()) * 10 + (ds.last() - B_ZERO));
        assert(ds.skip(k).len() == 0);
    }
}

/// Read the digit run that starts at `i`. `None` when there is none;
/// otherwise the value, or an error when it exceeds `FD_MAX`.
pub fn read_number(line: &[u8], i: usize) -> (r: (Option<Result<i32, ParseError>>, usize))
    requires
        i <= line.len(),
    ensures
        i <= r.1 <= line.len(),
        r.1 - i == digit_len(line@.skip(i as int)),
        ({
            let dl = digit_len(line@.skip(i as int));
            let v = digits_val(line@.skip(i as int).take(dl));
            &&& 0 <= v
            &&& (dl == 0 ==> r.0 is None)
            &&& (dl > 0 && v > FD_MAX as int ==> r.0 == Some(
                Err::<i32, ParseError>(ParseError::NumberTooLarge),
            ))
            &&& (dl > 0 && v <= FD_MAX as int ==> r.0 == Some(Ok::<i32, ParseError>(v as i32)))
        }),
{
    let mut j = i;
    while j < line.len() && is_digit(*slice_index_get(line, j))
        invariant
            i <= j <= line.len(),
            digit_len(line@.skip(i as int)) == j - i + digit_len(line@.skip(j as int)),
        decreases line@.len() - j,
    {
        proof {
            lemma_skip_skip(line@, j as int, 1);
        }
        j = j + 1;
    }
    proof {
        lemma_digit_len_bounds(line@.skip(i as int));
        assert forall|k: int| i <= k < j implies is_digit_byte(line@[k]) by {
            assert(is_digit_byte(line@.skip(i as int)[k - i]));
        }
        assert(line@.skip(i as int).take((j - i) as int) =~= line@.subrange(i as int, j as int));
    }
    if j == i {
        proof {
            assert(line@.skip(i as int).take(0) =~= Seq::<u8>::empty());
        }
        return (None, i);
    }
    let mut acc: u64 = 0;
    let mut m = i;
    while m < j
        invariant
            i <= m <= j <= line.len(),
            forall|k: int| i <= k < j ==> is_digit_byte(line@[k]),
            acc <= 0x8000_0000u64,
            ({
                let dv = digits_val(line@.subrange(i as int, m as int));
                &&& (dv <= FD_MAX as int ==> acc == dv)
                &&& (dv > FD_MAX as int ==> acc == 0x8000_0000u64)
            }),
        decreases j - m,
    {
        let d = *slice_index_get(line, m);
        proof {
            let pre = line@.subrange(i as int, m as int);
            let post = line@.subrange(i as int, m + 1);
            assert(post.drop_last() =~= pre);
            assert(post.last() == line@[m as int]);
            lemma_digits_val_bounds(pre);
            lemma_digits_val_bounds(post);
            assert(digits_val(post) == digits_val(pre) * 10 + (line@[m as int] - B_ZERO));
        }
        let grown: u64 = acc * 10 + ((d - B_ZERO) as u64);
        proof {
            let dv = digits_val(line@.subrange(i as int, m as int));
            let dv2 = digits_val(line@.subrange(i as int, m + 1));
            if dv <= FD_MAX as int {
                assert(grown == dv2);
            } else {
                assert(acc == 0x8000_0000u64);
                assert(grown >= 0x8000_0000u64 * 10);
                assert(dv2 > FD_MAX as int);
            }
        }
        acc = if grown > 0x8000_0000u64 {
            0x8000_0000u64
        } else {
            grown
        };
        m = m + 1;
    }
    proof {
        assert(line@.subrange(i as int, j as int) =~= line@.skip(i as int).take(
            digit_len(line@.skip(i as int)),
        ));
        lemma_digits_val_bounds(line@.subrange(i as int, j as int));
    }
    if acc > FD_MAX as u64 {
        (Some(Err(ParseError::NumberTooLarge)), j)
    } else {
        (Some(Ok(acc as i32)), j)
    }
}

/// Try to read one redirect at `i`. `Ok(None)` leaves the position
/// unconsumed (the caller goes on at `i`); a digit run not followed by an
/// operator is rewound so it can still be read as a word.
pub fn parse_redirect(line: &[u8], i: usize) -> (r: Result<
    Option<(Redirect, usize)>,
    ParseError,
>)
    requires
        i <= line.len(),
    ensures
        match r {
            Ok(None) => spec_redirect(line@.skip(i as int)) == Ok::<
                Option<(RedirectModel, Seq<u8>)>,
                ParseError,
            >(None),
            Ok(Some((rd, j))) => i < j <= line.len() && spec_redirect(line@.skip(i as int))
                == Ok::<Option<(RedirectModel, Seq<u8>)>, ParseError>(
                Some((rd@, line@.skip(j as int))),
            ),
            Err(e) => spec_redirect(line@.skip(i as int)) == Err::<
                Option<(RedirectModel, Seq<u8>)>,
                ParseError,
            >(e),
        },
{
    let ghost s = line@.skip(i as int);
    let (num, j) = read_number(line, i);
    proof {
        lemma_skip_skip(line@, i as int, (j - i) as int);
        assert(s.skip((j - i) as int) == line@.skip(j as int));
        if j < line.len() {
            assert(line@.skip(j as int)[0] == line@[j as int]);
        }
        if j + 1 < line.len() {
            assert(line@.skip(j as int)[1] == line@[j + 1]);
        }
    }
    let (typ, j2): (RedirectType, usize) = if j < line.len() && *slice_index_get(line, j)
        == B_LT {
        (RedirectType::Input, j + 1)
    } else if j < line.len() && *slice_index_get(line, j) == B_GT {
        if j + 1 < line.len() && *slice_index_get(line, j + 1) == B_GT {
            (RedirectType::Append, j + 2)
        } else {
            (RedirectType::Output, j + 1)
        }
    } else {
        return Ok(None);
    };
    proof {
        lemma_skip_skip(line@, j as int, (j2 - j) as int);
        assert(line@.skip(j as int).skip((j2 - j) as int) == line@.skip(j2 as int));
    }
    let from: i32 = match num {
        None => if matches!(typ, RedirectType::Input) {
            0
        } else {
            1
        },
        Some(res) => match res {
            Ok(n) => n,
            Err(e) => {
                return Err(e);
            },
        },
    };
    let k = skip_whitespaces(line, j2);
    let (target, k2) = read_word(line, k);
    if target.len() == 0 {
        return Err(ParseError::EmptyRedirect);
    }
    proof {
        lemma_skip_skip(line@, k as int, (k2 - k) as int);
    }
    Ok(Some((Redirect { target: target, from: from, typ: typ }, k2)))
}

/// Read redirects at `i`, appending each to `redirects`, skipping
/// whitespace after each, until no further redirect starts.
pub fn parse_and_append_redirects(line: &[u8], i: usize, redirects: &mut Vec<Redirect>) -> (r:
    Result<usize, ParseError>)
    requires
        i <= line.len(),
    ensures
        match r {
            Ok(j) => i <= j <= line.len() && old(redirects)@.len() <= final(redirects)@.len()
                && final(redirects)@.take(old(redirects)@.len() as int) == old(redirects)@
                && spec_redirects(line@.skip(i as int)) == Ok::<
                (Seq<RedirectModel>, Seq<u8>),
                ParseError,
            >(
                (
                    redirects_view(final(redirects)@.skip(old(redirects)@.len() as int)),
                    line@.skip(j as int),
                ),
            ),
            Err(e) => spec_redirects(line@.skip(i as int)) == Err::<
                (Seq<RedirectModel>, Seq<u8>),
                ParseError,
            >(e),
        },
    decreases line@.len() - i,
{
    let ghost orig = redirects@;
    match parse_redirect(line, i) {
        Err(e) => Err(e),
        Ok(None) => {
            proof {
                assert(redirects@.take(orig.len() as int) =~= orig);
                assert(redirects_view(redirects@.skip(orig.len() as int)) =~= Seq::<
                    RedirectModel,
                >::empty());
            }
            Ok(i)
        },
        Ok(Some((rd, j))) => {
            redirects.push(rd);
            let ghost mid = redirects@;
            let k = skip_whitespaces(line, j);
            match parse_and_append_redirects(line, k, redirects) {
                Err(e) => Err(e),
                Ok(m) => {
                    proof {
                        assert(redirects@.take(orig.len() as int) =~= orig);
                        let suffix = redirects@.skip(orig.len() as int);
                        let inner = redirects@.skip(mid.len() as int);
                        assert(redirects@[orig.len() as int] == rd) by {
                            assert(redirects@.take(mid.len() as int)[orig.len() as int] == rd);
                        }
                        assert(suffix =~= seq![rd] + inner);
                        assert(redirects_view(suffix) =~= seq![rd@] + redirects_view(inner));
                    }
                    Ok(m)
                },
            }
        },
    }
}

/// Read the argument words after a command name, appending each to
/// `arguments`; stops at the first position whose word is empty.
pub fn read_arguments(line: &[u8], i: usize, arguments: &mut Vec<Vec<u8>>) -> (j: usize)
    requires
        i <= line.len(),
    ensures
        i <= j <= line.len(),
        old(arguments)@.len() <= final(arguments)@.len(),
        final(arguments)@.take(old(arguments)@.len() as int) == old(arguments)@,
        spec_args(line@.skip(i as int)) == (
            words_view(final(arguments)@.skip(old(arguments)@.len() as int)),
            line@.skip(j as int),
        ),
    decreases line@.len() - i,
{
    let ghost orig = arguments@;
    let k = skip_whitespaces(line, i);
    let (w, m) = read_word(line, k);
    if w.len() == 0 {
        proof {
            assert(arguments@.take(orig.len() as int) =~= orig);
            assert(words_view(arguments@.skip(orig.len() as int)) =~= Seq::<Seq<u8>>::empty());
        }
        k
    } else {
        arguments.push(w);
        let ghost mid = arguments@;
        proof {
            lemma_skip_skip(line@, k as int, (m - k) as int);
        }
        let j = read_arguments(line, m, arguments);
        proof {
            assert(arguments@.take(orig.len() as int) =~= orig);
            let suffix = arguments@.skip(orig.len() as int);
            let inner = arguments@.skip(mid.len() as int);
            assert(arguments@[orig.len() as int] == mid[orig.len() as int]) by {
                assert(arguments@.take(mid.len() as int)[orig.len() as int] == arguments@[orig.len(
                ) as int]);
            }
            assert(suffix =~= seq![mid[orig.len() as int]] + inner);
            assert(words_view(suffix) =~= seq![mid[orig.len() as int]@] + words_view(inner));
        }
        j
    }
}

/// Parse one command: leading redirects, a non-empty name, arguments,
/// trailing redirects, pooled in source order.
pub fn parse_command(line: &[u8], i: usize) -> (r: Result<(Command, usize), ParseError>)
    requires
        i <= line.len(),
    ensures
        match r {
            Ok((c, j)) => i < j <= line.len() && spec_command(line@.skip(i as int)) == Ok::<
                (CommandModel, Seq<u8>),
                ParseError,
            >((c@, line@.skip(j as int))),
            Err(e) => spec_command(line@.skip(i as int)) == Err::<
                (CommandModel, Seq<u8>),
                ParseError,
            >(e),
        },
{
    let mut redirects: Vec<Redirect> = Vec::new();
    let i1 = match parse_and_append_redirects(line, i, &mut redirects) {
        Err(e) => {
            return Err(e);
        },
        Ok(v) => v,
    };
    let ghost rs1_vec = redirects@;
    let (name, i2) = read_word(line, i1);
    if name.len() == 0 {
        return Err(ParseError::EmptyCommand);
    }
    let mut arguments: Vec<Vec<u8>> = Vec::new();
    let i3 = read_arguments(line, i2, &mut arguments);
    proof {
        lemma_skip_skip(line@, i1 as int, (i2 - i1) as int);
    }
    let i4 = match parse_and_append_redirects(line, i3, &mut redirects) {
        Err(e) => {
            return Err(e);
        },
        Ok(v) => v,
    };
    proof {
        assert(rs1_vec =~= rs1_vec.take(rs1_vec.len() as int));
        assert(redirects@ =~= redirects@.take(rs1_vec.len() as int) + redirects@.skip(
            rs1_vec.len() as int,
        ));
        assert(redirects_view(redirects@) =~= redirects_view(rs1_vec) + redirects_view(
            redirects@.skip(rs1_vec.len() as int),
        ));
        assert(redirects_view(rs1_vec) =~= redirects_view(rs1_vec.skip(0)));
        assert(arguments@.skip(0) =~= arguments@);
    }
    let cmd = Command { name: name, arguments: arguments, redirects: redirects };
    Ok((cmd, i4))
}

/// Parse a whole pipeline starting at `i`: commands separated by `|`, an
/// optional trailing `&` that must be the last non-whitespace byte.
pub fn parse_pipeline(line: &[u8], i: usize) -> (r: Result<Pipeline, ParseError>)
    requires
        i <= line.len(),
    ensures
        match r {
            Ok(p) => spec_pipeline(line@.skip(i as int)) == Ok::<PipelineModel, ParseError>(p@),
            Err(e) => spec_pipeline(line@.skip(i as int)) == Err::<PipelineModel, ParseError>(e),
        },
    decreases line@.len() - i,
{
    let j = skip_whitespaces(line, i);
    let (cmd, k) = match parse_command(line, j) {
        Err(e) => {
            return Err(e);
        },
        Ok(v) => v,
    };
    if k == line.len() {
        let p = Pipeline { commands: vec![cmd], is_background: false };
        proof {
            assert(commands_view(p.commands@) =~= seq![cmd@]);
            assert(line@.skip(k as int).len() == 0);
        }
        Ok(p)
    } else {
        let c = *slice_index_get(line, k);
        proof {
            assert(line@.skip(k as int)[0] == line@[k as int]);
        }
        if c == B_PIPE {
            proof {
                lemma_skip_skip(line@, k as int, 1);
            }
            match parse_pipeline(line, k + 1) {
                Err(e) => Err(e),
                Ok(mut p) => {
                    let ghost tail = p.commands@;
                    p.commands.insert(0, cmd);
                    proof {
                        assert(p.commands@ =~= seq![cmd] + tail);
                        assert(commands_view(p.commands@) =~= seq![cmd@] + commands_view(tail));
                    }
                    Ok(p)
                },
            }
        } else if c == B_AMP {
            proof {
                lemma_skip_skip(line@, k as int, 1);
            }
            let m = skip_whitespaces(line, k + 1);
            if m == line.len() {
                let p = Pipeline { commands: vec![cmd], is_background: true };
                proof {
                    assert(commands_view(p.commands@) =~= seq![cmd@]);
                    assert(line@.skip(m as int).len() == 0);
                }
                Ok(p)
            } else {
                proof {
                    assert(line@.skip(m as int)[0] == line@[m as int]);
                }
                Err(ParseError::CharAfterBackground(*slice_index_get(line, m)))
            }
        } else {
            Err(ParseError::UnknownSeparator(c))
        }
    }
}

/// Law (redirect defaults): a redirect written without a numeric prefix
/// reads from descriptor 0 when it is an input redirect and writes
/// descriptor 1 when it is an output or append redirect.
pub proof fn lemma_redirect_defaults(s: Seq<u8>, r: RedirectModel, rest: Seq<u8>)
    requires
        digit_len(s) == 0,
        spec_redirect(s) == Ok::<Option<(RedirectModel, Seq<u8>)>, ParseError>(Some((r, rest))),
    ensures
        r.typ == RedirectType::Input ==> r.from == 0,
        r.typ != RedirectType::Input ==> r.from == 1,
{
}

/// Law (command order): a pipeline's commands stand in the order written:
/// the first command of the source is the first of the parse, and what
/// follows the `|` parses to the remaining commands, in order; the
/// background marker is whatever the remainder carries.
pub proof fn lemma_command_order(
    s: Seq<u8>,
    c: CommandModel,
    r: Seq<u8>,
    p2: PipelineModel,
    p: PipelineModel,
)
    requires
        spec_command(skip_ws(s)) == Ok::<(CommandModel, Seq<u8>), ParseError>((c, r)),
        r.len() > 0,
        r[0] == B_PIPE,
        spec_pipeline(r.skip(1)) == Ok::<PipelineModel, ParseError>(p2),
        spec_pipeline(s) == Ok::<PipelineModel, ParseError>(p),
    ensures
        p.commands.len() == 1 + p2.commands.len(),
        p.commands[0] == c,
        forall|k: int| 0 <= k < p2.commands.len() ==> p.commands[k + 1] == #[trigger] p2.commands[k],
        p.is_background == p2.is_background,
{
    assert(p.commands == seq![c] + p2.commands);
}

/// Parse one input line. Returns exactly what `spec_parse` says: the
/// pipeline's model on success, the error and the reason on failure.
pub fn parse(line: &[u8]) -> (r: Result<Pipeline, ParseError>)
    ensures
        match r {
            Ok(p) => spec_parse(line@) == Ok::<PipelineModel, ParseError>(p@),
            Err(e) => spec_parse(line@) == Err::<PipelineModel, ParseError>(e),
        },
{
    proof {
        assert(line@.skip(0) =~= line@);
    }
    parse_pipeline(line, 0)
}

} // verus!
