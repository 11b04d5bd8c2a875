//! The line parser: turns one line of source text into an optional label
//! definition and the instructions the line carries, and accumulates the
//! program, the label table and the largest register indices seen.
//!
//! A line is split into whitespace-delimited tokens. A first token between
//! square brackets defines a label for the line. The remaining tokens
//! dispatch on keywords: `INCREMENT` and `DECREMENT` take a register,
//! `IF` takes a register, skips words up to a `GOTO`, then takes a label,
//! `GOTO` takes a label, `STOP` stands alone. A register token is one tag
//! letter — `X`, `Y` or `Z` — followed, for `X` and `Z`, by a decimal
//! index. Anything else is a syntax error carrying the offending token.

use crate::primitives::{
    Error, ErrorV, Instruction, InstructionV, Label, Register, Unsigned,
};
use crate::tables::LabelTable;
use vstd::prelude::*;
use vstd::string::StrSliceExecFns;
use vstd::string::StringSliceAdditionalSpecFns;

verus! {

/// The view of an instruction list.
pub open spec fn instrs_view(s: Seq<Instruction>) -> Seq<InstructionV> {
    s.map(|i: int, ins: Instruction| ins@)
}

/// The byte sequences of a list of source lines.
pub open spec fn lines_view(lines: Seq<&str>) -> Seq<Seq<u8>> {
    lines.map(|i: int, s: &str| s.spec_bytes())
}

/// True for the ASCII whitespace bytes: space, tab, line feed, form feed,
/// carriage return.
pub open spec fn is_space(b: u8) -> bool {
    b == 32 || b == 9 || b == 10 || b == 12 || b == 13
}

/// True for the ASCII digit bytes.
pub open spec fn is_digit(b: u8) -> bool {
    48 <= b <= 57
}

/// The text of the keyword `INCREMENT`.
pub open spec fn kw_increment() -> Seq<u8> {
    seq![73u8, 78u8, 67u8, 82u8, 69u8, 77u8, 69u8, 78u8, 84u8]
}

/// The text of the keyword `DECREMENT`.
pub open spec fn kw_decrement() -> Seq<u8> {
    seq![68u8, 69u8, 67u8, 82u8, 69u8, 77u8, 69u8, 78u8, 84u8]
}

/// The text of the keyword `IF`.
pub open spec fn kw_if() -> Seq<u8> {
    seq![73u8, 70u8]
}

/// The text of the keyword `GOTO`.
pub open spec fn kw_goto() -> Seq<u8> {
    seq![71u8, 79u8, 84u8, 79u8]
}

/// The text of the keyword `STOP`.
pub open spec fn kw_stop() -> Seq<u8> {
    seq![83u8, 84u8, 79u8, 80u8]
}

/// The tokens of a prefix read left to right: the finished tokens and the
/// partial token the prefix ends inside.
pub open spec fn scan(s: Seq<u8>) -> (Seq<Seq<u8>>, Seq<u8>)
    decreases s.len(),
{
    if s.len() == 0 {
        (Seq::empty(), Seq::empty())
    } else {
        let (ts, cur) = scan(s.drop_last());
        if is_space(s.last()) {
            if cur.len() == 0 {
                (ts, Seq::empty())
            } else {
                (ts.push(cur), Seq::empty())
            }
        } else {
            (ts, cur.push(s.last()))
        }
    }
}

/// The whitespace-delimited tokens of a line.
pub open spec fn spec_tokens(s: Seq<u8>) -> Seq<Seq<u8>> {
    let (ts, cur) = scan(s);
    if cur.len() == 0 {
        ts
    } else {
        ts.push(cur)
    }
}

/// The value of a digit string read in base ten.
pub open spec fn digits_val(s: Seq<u8>) -> int
    decreases s.len(),
{
    if s.len() == 0 {
        0
    } else {
        digits_val(s.drop_last()) * 10 + (s.last() - 48)
    }
}

/// Every byte of the string is an ASCII digit.
pub open spec fn all_digits(s: Seq<u8>) -> bool {
    forall|i: int| 0 <= i < s.len() ==> is_digit(#[trigger] s[i])
}

/// The string is a well-formed register index: non-empty, all digits, and
/// its value fits the machine word.
pub open spec fn valid_index(s: Seq<u8>) -> bool {
    s.len() >= 1 && all_digits(s) && digits_val(s) <= usize::MAX
}

/// A digit string's value is non-negative.
pub proof fn lemma_digits_val_nonneg(s: Seq<u8>)
    requires
        all_digits(s),
    ensures
        digits_val(s) >= 0,
    decreases s.len(),
{
    if s.len() > 0 {
        assert(forall|i: int| 0 <= i < s.len() - 1 ==> s.drop_last()[i] == s[i]);
        lemma_digits_val_nonneg(s.drop_last());
        assert(is_digit(s[s.len() - 1]));
    }
}

/// A digit string's value is at least the value of any of its prefixes.
pub proof fn lemma_digits_val_prefix(s: Seq<u8>, k: int)
    requires
        all_digits(s),
        0 <= k <= s.len(),
    ensures
        digits_val(s.take(k)) <= digits_val(s),
    decreases s.len(),
{
    if k < s.len() {
        assert(forall|i: int| 0 <= i < s.len() - 1 ==> s.drop_last()[i] == s[i]);
        assert(s.take(k) =~= s.drop_last().take(k));
        lemma_digits_val_prefix(s.drop_last(), k);
        lemma_digits_val_nonneg(s.drop_last());
        assert(is_digit(s[s.len() - 1]));
    } else {
        assert(s.take(k) =~= s);
    }
}

/// What a register token denotes: the tag letter picks the kind, and for
/// `X` and `Z` the rest of the token is the index. A `Y` takes no index
/// and any trailing text after the tag is ignored.
pub open spec fn spec_parse_register(t: Seq<u8>) -> Option<Register> {
    if t.len() == 0 {
        None
    } else if t[0] == 88 {
        if valid_index(t.drop_first()) {
            Some(Register::X(Unsigned(digits_val(t.drop_first()) as usize)))
        } else {
            None
        }
    } else if t[0] == 89 {
        Some(Register::Y)
    } else if t[0] == 90 {
        if valid_index(t.drop_first()) {
            Some(Register::Z(Unsigned(digits_val(t.drop_first()) as usize)))
        } else {
            None
        }
    } else {
        None
    }
}

/// The position of the first `GOTO` token, or the length when there is
/// none.
pub open spec fn first_goto(toks: Seq<Seq<u8>>) -> int
    decreases toks.len(),
{
    if toks.len() == 0 {
        0
    } else if toks[0] == kw_goto() {
        0
    } else {
        1 + first_goto(toks.drop_first())
    }
}

/// `first_goto` lies between zero and the length, no token before it is a
/// `GOTO`, and the token there, if any, is one.
pub proof fn lemma_first_goto(toks: Seq<Seq<u8>>)
    ensures
        0 <= first_goto(toks) <= toks.len(),
        forall|i: int| 0 <= i < first_goto(toks) ==> toks[i] != kw_goto(),
        first_goto(toks) < toks.len() ==> toks[first_goto(toks)] == kw_goto(),
    decreases toks.len(),
{
    if toks.len() > 0 && toks[0] != kw_goto() {
        lemma_first_goto(toks.drop_first());
        assert forall|i: int| 0 <= i < first_goto(toks) implies toks[i] != kw_goto() by {
            if i > 0 {
                assert(toks.drop_first()[i - 1] == toks[i]);
            }
        }
        if first_goto(toks) < toks.len() {
            assert(toks.drop_first()[first_goto(toks) - 1] == toks[first_goto(toks)]);
        }
    }
}

/// The instructions a token list denotes, or the offending token. The list
/// is read left to right; each keyword consumes its operands and the rest
/// of the list parses in turn. A keyword missing its operand is reported
/// under the keyword token itself.
pub open spec fn parse_items(toks: Seq<Seq<u8>>) -> Result<Seq<InstructionV>, Seq<u8>>
    decreases toks.len(),
    via parse_items_decreases
{
    if toks.len() == 0 {
        Ok(Seq::empty())
    } else if toks[0] == kw_increment() || toks[0] == kw_decrement() {
        if toks.len() < 2 {
            Err(toks[0])
        } else {
            match spec_parse_register(toks[1]) {
                None => Err(toks[1]),
                Some(r) => {
                    let ins = if toks[0] == kw_increment() {
                        InstructionV::Increment(r)
                    } else {
                        InstructionV::Decrement(r)
                    };
                    match parse_items(toks.skip(2)) {
                        Ok(rest) => Ok(seq![ins] + rest),
                        Err(e) => Err(e),
                    }
                },
            }
        }
    } else if toks[0] == kw_if() {
        if toks.len() < 2 {
            Err(toks[0])
        } else {
            match spec_parse_register(toks[1]) {
                None => Err(toks[1]),
                Some(r) => {
                    let g = 2 + first_goto(toks.skip(2));
                    if g + 1 >= toks.len() {
                        Err(toks[0])
                    } else {
                        match parse_items(toks.skip(g + 2)) {
                            Ok(rest) => Ok(seq![InstructionV::Conditional(r, toks[g + 1])] + rest),
                            Err(e) => Err(e),
                        }
                    }
                },
            }
        }
    } else if toks[0] == kw_goto() {
        if toks.len() < 2 {
            Err(toks[0])
        } else {
            match parse_items(toks.skip(2)) {
                Ok(rest) => Ok(seq![InstructionV::Goto(toks[1])] + rest),
                Err(e) => Err(e),
            }
        }
    } else if toks[0] == kw_stop() {
        match parse_items(toks.skip(1)) {
            Ok(rest) => Ok(seq![InstructionV::Stop] + rest),
            Err(e) => Err(e),
        }
    } else {
        Err(toks[0])
    }
}

#[via_fn]
proof fn parse_items_decreases(toks: Seq<Seq<u8>>) {
    if toks.len() >= 2 {
        lemma_first_goto(toks.skip(2));
    }
}

/// True exactly when the byte is ASCII whitespace.
fn byte_is_space(b: u8) -> (r: bool)
    ensures
        r == is_space(b),
{
    b == 32 || b == 9 || b == 10 || b == 12 || b == 13
}

/// The view of a token list.
pub open spec fn toks_view(ts: Seq<Vec<u8>>) -> Seq<Seq<u8>> {
    ts.map(|i: int, t: Vec<u8>| t@)
}

/// Splits a line into its whitespace-delimited tokens.
fn tokenize(bytes: &Vec<u8>) -> (r: Vec<Vec<u8>>)
    ensures
        toks_view(r@) == spec_tokens(bytes@),
{
    let mut ts: Vec<Vec<u8>> = Vec::new();
    let mut cur: Vec<u8> = Vec::new();
    let mut i: usize = 0;
    proof {
        assert(bytes@.take(0) =~= Seq::<u8>::empty());
        assert(toks_view(ts@) =~= scan(bytes@.take(0)).0);
        assert(cur@ =~= scan(bytes@.take(0)).1);
    }
    #[verifier::loop_isolation(false)]
    while i < bytes.len()
        invariant
            i <= bytes.len(),
            toks_view(ts@) == scan(bytes@.take(i as int)).0,
            cur@ == scan(bytes@.take(i as int)).1,
        decreases bytes.len() - i,
    {
        let ghost pre = bytes@.take(i as int);
        proof {
            assert(bytes@.take(i + 1).drop_last() =~= pre);
            assert(bytes@.take(i + 1).last() == bytes@[i as int]);
        }
        let b = bytes[i];
        if byte_is_space(b) {
            if cur.len() > 0 {
                let ghost ts0 = ts@;
                ts.push(cur);
                proof {
                    assert(toks_view(ts@) =~= toks_view(ts0).push(scan(pre).1));
                }
                cur = Vec::new();
            }
        } else {
            cur.push(b);
        }
        i = i + 1;
    }
    proof {
        assert(bytes@.take(bytes@.len() as int) =~= bytes@);
    }
    if cur.len() > 0 {
        let ghost ts0 = ts@;
        ts.push(cur);
        proof {
            assert(toks_view(ts@) =~= toks_view(ts0).push(scan(bytes@).1));
        }
    }
    ts
}

/// Reads the digits of a token from the given position as a register
/// index.
fn parse_index(t: &Vec<u8>, from: usize) -> (r: Option<usize>)
    requires
        from <= t@.len(),
    ensures
        match r {
            Some(v) => valid_index(t@.skip(from as int)) && v == digits_val(t@.skip(from as int)),
            None => !valid_index(t@.skip(from as int)),
        },
{
    let ghost s = t@.skip(from as int);
    let n = t.len();
    if from == n {
        return None;
    }
    let mut acc: usize = 0;
    let mut i: usize = from;
    proof {
        assert(t@.subrange(from as int, from as int) =~= Seq::<u8>::empty());
    }
    #[verifier::loop_isolation(false)]
    while i < n
        invariant
            from <= i <= n,
            all_digits(t@.subrange(from as int, i as int)),
            acc == digits_val(t@.subrange(from as int, i as int)),
        decreases n - i,
    {
        let ghost pre = t@.subrange(from as int, i as int);
        proof {
            assert(t@.subrange(from as int, i + 1).drop_last() =~= pre);
            assert(t@.subrange(from as int, i + 1).last() == t@[i as int]);
        }
        let b = t[i];
        if !(48 <= b && b <= 57) {
            proof {
                assert(s[i - from] == t@[i as int]);
                assert(!all_digits(s));
            }
            return None;
        }
        let d = (b - 48) as usize;
        let wide: u128 = acc as u128 * 10 + d as u128;
        if wide > usize::MAX as u128 {
            proof {
                assert(t@.subrange(from as int, i + 1) =~= s.take(i + 1 - from));
                if all_digits(s) {
                    lemma_digits_val_prefix(s, i + 1 - from);
                    assert(digits_val(s) > usize::MAX);
                }
            }
            return None;
        }
        acc = wide as usize;
        i = i + 1;
    }
    proof {
        assert(t@.subrange(from as int, n as int) =~= s);
    }
    Some(acc)
}

/// Reads a register token: the tag letter picks the kind, the rest is the
/// index for `X` and `Z`.
fn parse_register(t: &Vec<u8>) -> (r: Option<Register>)
    ensures
        r == spec_parse_register(t@),
{
    if t.len() == 0 {
        return None;
    }
    proof {
        assert(t@.skip(1) =~= t@.drop_first());
    }
    let b = t[0];
    if b == 88 {
        match parse_index(t, 1) {
            Some(v) => Some(Register::X(Unsigned(v))),
            None => None,
        }
    } else if b == 89 {
        Some(Register::Y)
    } else if b == 90 {
        match parse_index(t, 1) {
            Some(v) => Some(Register::Z(Unsigned(v))),
            None => None,
        }
    } else {
        None
    }
}

/// True exactly when the token reads `INCREMENT`.
fn is_kw_increment(t: &Vec<u8>) -> (r: bool)
    ensures
        r == (t@ == kw_increment()),
{
    let r = t.len() == 9 && t[0] == 73 && t[1] == 78 && t[2] == 67 && t[3] == 82 && t[4] == 69
        && t[5] == 77 && t[6] == 69 && t[7] == 78 && t[8] == 84;
    proof {
        if r {
            assert(t@ =~= kw_increment());
        }
    }
    r
}

/// True exactly when the token reads `DECREMENT`.
fn is_kw_decrement(t: &Vec<u8>) -> (r: bool)
    ensures
        r == (t@ == kw_decrement()),
{
    let r = t.len() == 9 && t[0] == 68 && t[1] == 69 && t[2] == 67 && t[3] == 82 && t[4] == 69
        && t[5] == 77 && t[6] == 69 && t[7] == 78 && t[8] == 84;
    proof {
        if r {
            assert(t@ =~= kw_decrement());
        }
    }
    r
}

/// True exactly when the token reads `IF`.
fn is_kw_if(t: &Vec<u8>) -> (r: bool)
    ensures
        r == (t@ == kw_if()),
{
    let r = t.len() == 2 && t[0] == 73 && t[1] == 70;
    proof {
        if r {
            assert(t@ =~= kw_if());
        }
    }
    r
}

/// True exactly when the token reads `GOTO`.
fn is_kw_goto(t: &Vec<u8>) -> (r: bool)
    ensures
        r == (t@ == kw_goto()),
{
    let r = t.len() == 4 && t[0] == 71 && t[1] == 79 && t[2] == 84 && t[3] == 79;
    proof {
        if r {
            assert(t@ =~= kw_goto());
        }
    }
    r
}

/// True exactly when the token reads `STOP`.
fn is_kw_stop(t: &Vec<u8>) -> (r: bool)
    ensures
        r == (t@ == kw_stop()),
{
    let r = t.len() == 4 && t[0] == 83 && t[1] == 84 && t[2] == 79 && t[3] == 80;
    proof {
        if r {
            assert(t@ =~= kw_stop());
        }
    }
    r
}

/// The position of the first byte that is not whitespace, if any.
fn first_non_space(bytes: &Vec<u8>) -> (r: Option<usize>)
    ensures
        match r {
            Some(i) => i < bytes@.len() && !is_space(bytes@[i as int]),
            None => forall|j: int| 0 <= j < bytes@.len() ==> is_space(#[trigger] bytes@[j]),
        },
{
    let mut i: usize = 0;
    #[verifier::loop_isolation(false)]
    while i < bytes.len()
        invariant
            i <= bytes.len(),
            forall|j: int| 0 <= j < i ==> is_space(#[trigger] bytes@[j]),
        decreases bytes.len() - i,
    {
        if !byte_is_space(bytes[i]) {
            return Some(i);
        }
        i = i + 1;
    }
    None
}

/// The position of the first `GOTO` token at or after `from`, or the
/// token count when there is none.
fn find_goto(toks: &Vec<Vec<u8>>, from: usize) -> (r: usize)
    requires
        from <= toks@.len(),
    ensures
        from <= r <= toks@.len(),
        forall|m: int| from <= m < r ==> (#[trigger] toks@[m])@ != kw_goto(),
        r < toks@.len() ==> toks@[r as int]@ == kw_goto(),
{
    let mut g: usize = from;
    #[verifier::loop_isolation(false)]
    while g < toks.len()
        invariant
            from <= g <= toks.len(),
            forall|m: int| from <= m < g ==> (#[trigger] toks@[m])@ != kw_goto(),
        decreases toks.len() - g,
    {
        if is_kw_goto(&toks[g]) {
            return g;
        }
        g = g + 1;
    }
    g
}

/// A fresh byte vector holding the same bytes.
fn clone_token(t: &Vec<u8>) -> (r: Vec<u8>)
    ensures
        r@ == t@,
{
    let c = t.clone();
    proof {
        assert(c@ =~= t@);
    }
    c
}

/// When no token before `d` is a `GOTO` and the token at `d`, if any, is
/// one, `d` is the first `GOTO` position.
pub proof fn lemma_first_goto_char(w: Seq<Seq<u8>>, d: int)
    requires
        0 <= d <= w.len(),
        forall|m: int| 0 <= m < d ==> w[m] != kw_goto(),
        d < w.len() ==> w[d] == kw_goto(),
    ensures
        first_goto(w) == d,
    decreases w.len(),
{
    if w.len() > 0 && d > 0 {
        assert(forall|i: int| 0 <= i < w.len() - 1 ==> #[trigger] w.drop_first()[i] == w[i + 1]);
        lemma_first_goto_char(w.drop_first(), d - 1);
    }
}

/// True when the line is skipped whole: its first byte marks a comment, or
/// it is empty up to whitespace.
pub open spec fn is_blank_line(line: Seq<u8>) -> bool {
    (line.len() > 0 && line[0] == 35) || (forall|i: int|
        0 <= i < line.len() ==> is_space(#[trigger] line[i]))
}

/// What one line denotes: nothing for a blank line, else an optional label
/// definition and the instructions the line carries — or the offending
/// token.
#[verifier::ext_equal]
pub ghost struct ParsedLine {
    /// The line is skipped whole.
    pub blank: bool,
    /// The label the line defines, if any.
    pub label: Option<Seq<u8>>,
    /// The instructions the line carries, in order.
    pub instrs: Seq<InstructionV>,
}

/// Reads one line: a comment or whitespace line is blank; a first token
/// between square brackets defines a label, stripped of its first and last
/// byte; the remaining tokens parse as instructions.
pub open spec fn spec_parse_line(line: Seq<u8>) -> Result<ParsedLine, Seq<u8>> {
    if is_blank_line(line) {
        Ok(ParsedLine { blank: true, label: None, instrs: Seq::empty() })
    } else {
        let toks = spec_tokens(line);
        if toks.len() > 0 && toks[0].len() > 0 && toks[0][0] == 91 {
            if toks[0].len() >= 2 {
                match parse_items(toks.drop_first()) {
                    Ok(ins) => Ok(
                        ParsedLine {
                            blank: false,
                            label: Some(toks[0].subrange(1, toks[0].len() - 1)),
                            instrs: ins,
                        },
                    ),
                    Err(e) => Err(e),
                }
            } else {
                Err(toks[0])
            }
        } else {
            match parse_items(toks) {
                Ok(ins) => Ok(ParsedLine { blank: false, label: None, instrs: ins }),
                Err(e) => Err(e),
            }
        }
    }
}

/// The register an instruction reads or writes, if any.
pub open spec fn instr_register(i: InstructionV) -> Option<Register> {
    match i {
        InstructionV::Increment(r) => Some(r),
        InstructionV::Decrement(r) => Some(r),
        InstructionV::Conditional(r, _) => Some(r),
        InstructionV::Goto(_) => None,
        InstructionV::Stop => None,
    }
}

/// The largest input-register index after the instructions' registers are
/// taken in.
pub open spec fn max_x_after(m: Option<usize>, instrs: Seq<InstructionV>) -> Option<usize>
    decreases instrs.len(),
{
    if instrs.len() == 0 {
        m
    } else {
        let prev = max_x_after(m, instrs.drop_last());
        match instr_register(instrs.last()) {
            Some(Register::X(u)) => Some(
                match prev {
                    Some(p) => if p >= u.0 {
                        p
                    } else {
                        u.0
                    },
                    None => u.0,
                },
            ),
            _ => prev,
        }
    }
}

/// The largest scratch-register index after the instructions' registers
/// are taken in.
pub open spec fn max_z_after(m: Option<usize>, instrs: Seq<InstructionV>) -> Option<usize>
    decreases instrs.len(),
{
    if instrs.len() == 0 {
        m
    } else {
        let prev = max_z_after(m, instrs.drop_last());
        match instr_register(instrs.last()) {
            Some(Register::Z(u)) => Some(
                match prev {
                    Some(p) => if p >= u.0 {
                        p
                    } else {
                        u.0
                    },
                    None => u.0,
                },
            ),
            _ => prev,
        }
    }
}

/// The mathematical shape of a [`Parser`].
#[verifier::ext_equal]
pub ghost struct ParserV {
    /// How many lines were skipped as blank or comment.
    pub blank_lines: usize,
    /// The instructions gathered so far, in source order.
    pub instructions: Seq<InstructionV>,
    /// Maps each defined label to an instruction position.
    pub jump_table: Map<Seq<u8>, usize>,
    /// The largest input-register index seen, if any.
    pub max_x: Option<usize>,
    /// The largest scratch-register index seen, if any.
    pub max_z: Option<usize>,
}

/// What parsing one line does to the parser: a blank line only counts; any
/// other line stores its label, if one, at the position the line number
/// minus the blank lines gives, appends its instructions, and takes their
/// register indices into the maxima.
pub open spec fn line_effect(p: ParserV, line: Seq<u8>, line_num: usize) -> Result<
    ParserV,
    Seq<u8>,
> {
    match spec_parse_line(line) {
        Err(e) => Err(e),
        Ok(pl) => if pl.blank {
            Ok(ParserV { blank_lines: (p.blank_lines + 1) as usize, ..p })
        } else {
            Ok(
                ParserV {
                    blank_lines: p.blank_lines,
                    instructions: p.instructions + pl.instrs,
                    jump_table: match pl.label {
                        Some(l) => p.jump_table.insert(l, (line_num - p.blank_lines) as usize),
                        None => p.jump_table,
                    },
                    max_x: max_x_after(p.max_x, pl.instrs),
                    max_z: max_z_after(p.max_z, pl.instrs),
                },
            )
        },
    }
}

/// What parsing the first `upto` lines does, line numbers counted from
/// zero, or the first offending token.
pub open spec fn lines_effect(p: ParserV, lines: Seq<Seq<u8>>, upto: int) -> Result<
    ParserV,
    Seq<u8>,
>
    decreases upto,
{
    if upto <= 0 {
        Ok(p)
    } else {
        match lines_effect(p, lines, upto - 1) {
            Ok(p1) => line_effect(p1, lines[upto - 1], (upto - 1) as usize),
            Err(e) => Err(e),
        }
    }
}

/// The parser's state before any line: nothing gathered.
pub open spec fn initial_parser() -> ParserV {
    ParserV {
        blank_lines: 0,
        instructions: Seq::empty(),
        jump_table: Map::empty(),
        max_x: None,
        max_z: None,
    }
}

/// Once a prefix of the lines fails, every longer prefix fails the same
/// way.
pub proof fn lemma_lines_effect_err(p: ParserV, lines: Seq<Seq<u8>>, k: int, m: int)
    requires
        0 <= k <= m,
        lines_effect(p, lines, k) is Err,
    ensures
        lines_effect(p, lines, m) == lines_effect(p, lines, k),
    decreases m,
{
    if m > k {
        lemma_lines_effect_err(p, lines, k, m - 1);
    }
}

/// Gathers a program from source lines: the instructions in order, the
/// label table, the count of skipped lines and the largest register
/// indices seen.
pub struct Parser {
    /// How many lines were skipped as blank or comment.
    pub blank_lines: usize,
    /// The instructions gathered so far, in source order.
    pub instructions: Vec<Instruction>,
    /// Maps each defined label to an instruction position.
    pub jump_table: LabelTable<usize>,
    /// The largest input-register index seen, if any.
    pub max_x: Option<Unsigned>,
    /// The largest scratch-register index seen, if any.
    pub max_z: Option<Unsigned>,
}

impl View for Parser {
    type V = ParserV;

    open spec fn view(&self) -> ParserV {
        ParserV {
            blank_lines: self.blank_lines,
            instructions: self.instructions@.map(|i: int, ins: Instruction| ins@),
            jump_table: self.jump_table@,
            max_x: match self.max_x {
                Some(u) => Some(u.0),
                None => None,
            },
            max_z: match self.max_z {
                Some(u) => Some(u.0),
                None => None,
            },
        }
    }
}

impl Parser {
    /// The parser is well formed.
    pub open spec fn wf(&self) -> bool {
        self.jump_table.wf()
    }

    /// A parser with nothing gathered yet.
    pub fn new() -> (r: Self)
        ensures
            r.wf(),
            r@ =~~= (ParserV {
                blank_lines: 0,
                instructions: Seq::empty(),
                jump_table: Map::empty(),
                max_x: None,
                max_z: None,
            }),
    {
        Self {
            blank_lines: 0,
            instructions: Vec::new(),
            jump_table: LabelTable::new(),
            max_x: None,
            max_z: None,
        }
    }

    /// Takes an input-register index into the maximum seen.
    fn maybe_set_max_x(&mut self, x: &Unsigned)
        ensures
            final(self).max_x == Some(
                match old(self).max_x {
                    Some(m) => if m.0 >= x.0 {
                        m
                    } else {
                        *x
                    },
                    None => *x,
                },
            ),
            final(self).blank_lines == old(self).blank_lines,
            final(self).instructions == old(self).instructions,
            final(self).jump_table == old(self).jump_table,
            final(self).max_z == old(self).max_z,
    {
        self.max_x = match &self.max_x {
            Some(m) => if m.0 >= x.0 {
                Some(*m)
            } else {
                Some(*x)
            },
            None => Some(*x),
        };
    }

    /// Takes a scratch-register index into the maximum seen.
    fn maybe_set_max_z(&mut self, z: &Unsigned)
        ensures
            final(self).max_z == Some(
                match old(self).max_z {
                    Some(m) => if m.0 >= z.0 {
                        m
                    } else {
                        *z
                    },
                    None => *z,
                },
            ),
            final(self).blank_lines == old(self).blank_lines,
            final(self).instructions == old(self).instructions,
            final(self).jump_table == old(self).jump_table,
            final(self).max_x == old(self).max_x,
    {
        self.max_z = match &self.max_z {
            Some(m) => if m.0 >= z.0 {
                Some(*m)
            } else {
                Some(*z)
            },
            None => Some(*z),
        };
    }

    /// Parses one source line, numbered from zero over the whole file, and
    /// folds it into the parser. On a syntax error the parser is left as
    /// it stands and the offending token is reported.
    #[verifier::rlimit(50)]
    pub fn parse_line(&mut self, line: &str, line_num: usize) -> (r: Result<(), Error>)
        requires
            old(self).wf(),
            old(self).blank_lines <= line_num,
            line_num < usize::MAX,
        ensures
            final(self).wf(),
            final(self).blank_lines <= line_num + 1,
            match r {
                Ok(()) => line_effect(old(self)@, line.spec_bytes(), line_num) == Ok::<
                    ParserV,
                    Seq<u8>,
                >(final(self)@),
                Err(e) => final(self)@ == old(self)@ && (line_effect(
                    old(self)@,
                    line.spec_bytes(),
                    line_num,
                ) matches Err(t) && e@ == ErrorV::SyntaxError(t)),
            },
    {
        let ghost p0 = self@;
        let ghost lb = line.spec_bytes();
        let bytes = line.as_bytes_vec();

        // A comment or whitespace line is only counted.
        let comment = bytes.len() > 0 && bytes[0] == 35;
        let fns = first_non_space(&bytes);
        if comment || fns.is_none() {
            proof {
                assert(is_blank_line(lb));
            }
            self.blank_lines = self.blank_lines + 1;
            proof {
                assert(self@ =~~= (ParserV { blank_lines: (p0.blank_lines + 1) as usize, ..p0 }));
            }
            return Ok(());
        }
        proof {
            match fns {
                Some(i) => {
                    assert(!is_space(lb[i as int]));
                },
                None => {
                    assert(false);
                },
            }
            assert(!is_blank_line(lb));
        }

        let toks = tokenize(&bytes);
        let ghost tv = spec_tokens(lb);
        proof {
            assert(toks_view(toks@) == tv);
        }

        // A first token between square brackets defines a label.
        let mut start: usize = 0;
        let mut label_opt: Option<Label> = None;
        if toks.len() > 0 && toks[0].len() > 0 && toks[0][0] == 91 {
            let t0len = toks[0].len();
            if t0len < 2 {
                let tok = clone_token(&toks[0]);
                proof {
                    assert(tok@ == tv[0]);
                }
                return Err(Error::SyntaxError(tok));
            }
            let mut lbl: Vec<u8> = Vec::new();
            let mut q: usize = 1;
            proof {
                assert(lbl@ =~= toks@[0]@.subrange(1, 1));
            }
            #[verifier::loop_isolation(false)]
            while q < t0len - 1
                invariant
                    1 <= q <= t0len - 1,
                    t0len == toks@[0]@.len(),
                    lbl@ == toks@[0]@.subrange(1, q as int),
                decreases t0len - q,
            {
                proof {
                    assert(toks@[0]@.subrange(1, q + 1).drop_last() =~= toks@[0]@.subrange(
                        1,
                        q as int,
                    ));
                }
                lbl.push(toks[0][q]);
                q = q + 1;
            }
            label_opt = Some(Label(lbl));
            start = 1;
        }
        let ghost lab_view = crate::jump_list::opt_label_view(label_opt);
        let ghost rem0 = tv.skip(start as int);

        // The goal: what this line denotes at the spec level.
        proof {
            if start == 1 {
                assert(rem0 =~= tv.drop_first());
            } else {
                assert(rem0 =~= tv);
            }
            assert(spec_parse_line(lb) == (match parse_items(rem0) {
                Ok(ins) => Ok::<ParsedLine, Seq<u8>>(
                    ParsedLine { blank: false, label: lab_view, instrs: ins },
                ),
                Err(e) => Err::<ParsedLine, Seq<u8>>(e),
            }));
        }

        // Read the instructions the line carries, left to right.
        let mut instrs: Vec<Instruction> = Vec::new();
        let mut k: usize = start;
        proof {
            assert(instrs_view(instrs@) =~= Seq::<InstructionV>::empty());
            match parse_items(tv.skip(k as int)) {
                Ok(rest) => {
                    assert(instrs_view(instrs@) + rest =~= rest);
                },
                Err(e) => {},
            }
        }
        #[verifier::loop_isolation(false)]
        while k < toks.len()
            invariant
                start <= k <= toks.len(),
                toks_view(toks@) == tv,
                parse_items(rem0) == (match parse_items(tv.skip(k as int)) {
                    Ok(rest) => Ok::<Seq<InstructionV>, Seq<u8>>(instrs_view(instrs@) + rest),
                    Err(e) => Err::<Seq<InstructionV>, Seq<u8>>(e),
                }),
            decreases toks.len() - k,
        {
            let ghost remk = tv.skip(k as int);
            proof {
                assert(remk[0] == toks@[k as int]@);
            }
            let t_inc = is_kw_increment(&toks[k]);
            let t_dec = is_kw_decrement(&toks[k]);
            if t_inc || t_dec {
                if toks.len() - k < 2 {
                    let tok = clone_token(&toks[k]);
                    return Err(Error::SyntaxError(tok));
                }
                proof {
                    assert(remk[1] == toks@[k + 1]@);
                }
                match parse_register(&toks[k + 1]) {
                    None => {
                        let tok = clone_token(&toks[k + 1]);
                        return Err(Error::SyntaxError(tok));
                    },
                    Some(reg) => {
                        let ins = if t_inc {
                            Instruction::Increment(reg)
                        } else {
                            Instruction::Decrement(reg)
                        };
                        let ghost prev = instrs@;
                        let ghost iv = ins@;
                        instrs.push(ins);
                        proof {
                            assert(tv.skip(k + 2) =~= remk.skip(2));
                            assert(instrs_view(instrs@) =~= instrs_view(prev).push(iv));
                            match parse_items(tv.skip(k + 2)) {
                                Ok(rest2) => {
                                    assert(instrs_view(instrs@) + rest2 =~= instrs_view(prev) + (
                                    seq![iv] + rest2));
                                },
                                Err(e) => {},
                            }
                        }
                        k = k + 2;
                    },
                }
            } else if is_kw_if(&toks[k]) {
                if toks.len() - k < 2 {
                    let tok = clone_token(&toks[k]);
                    return Err(Error::SyntaxError(tok));
                }
                proof {
                    assert(remk[1] == toks@[k + 1]@);
                }
                match parse_register(&toks[k + 1]) {
                    None => {
                        let tok = clone_token(&toks[k + 1]);
                        return Err(Error::SyntaxError(tok));
                    },
                    Some(reg) => {
                        let g = find_goto(&toks, k + 2);
                        proof {
                            assert(remk.skip(2) =~= tv.skip(k + 2));
                            assert forall|m: int| 0 <= m < g - (k + 2) implies #[trigger] tv.skip(
                                k + 2,
                            )[m] != kw_goto() by {
                                assert(tv.skip(k + 2)[m] == toks@[k + 2 + m]@);
                            }
                            if g < toks@.len() {
                                assert(tv.skip(k + 2)[g - (k + 2)] == toks@[g as int]@);
                            }
                            lemma_first_goto_char(tv.skip(k + 2), g - (k + 2));
                            assert(first_goto(remk.skip(2)) == g - (k + 2));
                        }
                        if toks.len() - g <= 1 {
                            let tok = clone_token(&toks[k]);
                            return Err(Error::SyntaxError(tok));
                        }
                        proof {
                            assert(remk[g + 1 - k] == toks@[g + 1]@);
                        }
                        let lab = Label(clone_token(&toks[g + 1]));
                        let ghost prev = instrs@;
                        let ghost iv = InstructionV::Conditional(reg, lab@);
                        instrs.push(Instruction::Conditional(reg, lab));
                        proof {
                            assert(tv.skip(g + 2) =~= remk.skip(g - k + 2));
                            assert(instrs_view(instrs@) =~= instrs_view(prev).push(iv));
                            match parse_items(tv.skip(g + 2)) {
                                Ok(rest2) => {
                                    assert(instrs_view(instrs@) + rest2 =~= instrs_view(prev) + (
                                    seq![iv] + rest2));
                                },
                                Err(e) => {},
                            }
                        }
                        k = g + 2;
                    },
                }
            } else if is_kw_goto(&toks[k]) {
                if toks.len() - k < 2 {
                    let tok = clone_token(&toks[k]);
                    return Err(Error::SyntaxError(tok));
                }
                proof {
                    assert(remk[1] == toks@[k + 1]@);
                }
                let lab = Label(clone_token(&toks[k + 1]));
                let ghost prev = instrs@;
                let ghost iv = InstructionV::Goto(lab@);
                instrs.push(Instruction::Goto(lab));
                proof {
                    assert(tv.skip(k + 2) =~= remk.skip(2));
                    assert(instrs_view(instrs@) =~= instrs_view(prev).push(iv));
                    match parse_items(tv.skip(k + 2)) {
                        Ok(rest2) => {
                            assert(instrs_view(instrs@) + rest2 =~= instrs_view(prev) + (seq![iv]
                                + rest2));
                        },
                        Err(e) => {},
                    }
                }
                k = k + 2;
            } else if is_kw_stop(&toks[k]) {
                let ghost prev = instrs@;
                instrs.push(Instruction::Stop);
                proof {
                    assert(tv.skip(k + 1) =~= remk.skip(1));
                    assert(instrs_view(instrs@) =~= instrs_view(prev).push(InstructionV::Stop));
                    match parse_items(tv.skip(k + 1)) {
                        Ok(rest2) => {
                            assert(instrs_view(instrs@) + rest2 =~= instrs_view(prev) + (seq![
                                InstructionV::Stop,
                            ] + rest2));
                        },
                        Err(e) => {},
                    }
                }
                k = k + 1;
            } else {
                let tok = clone_token(&toks[k]);
                return Err(Error::SyntaxError(tok));
            }
        }
        proof {
            assert(tv.skip(k as int) =~= Seq::<Seq<u8>>::empty());
            assert(instrs_view(instrs@) + Seq::<InstructionV>::empty() =~= instrs_view(instrs@));
        }
        let ghost pl_instrs = instrs_view(instrs@);

        // Commit: the label, the maxima, then the instructions.
        if let Some(lab) = label_opt {
            let idx = line_num - self.blank_lines;
            self.jump_table.insert(lab, idx);
        }
        let ghost committed = *self;
        let mut c: usize = 0;
        proof {
            assert(pl_instrs.take(0) =~= Seq::<InstructionV>::empty());
        }
        #[verifier::loop_isolation(false)]
        while c < instrs.len()
            invariant
                c <= instrs@.len(),
                pl_instrs == instrs_view(instrs@),
                self.blank_lines == committed.blank_lines,
                self.instructions == committed.instructions,
                self.jump_table == committed.jump_table,
                (match self.max_x {
                    Some(u) => Some(u.0),
                    None => None::<usize>,
                }) == max_x_after(p0.max_x, pl_instrs.take(c as int)),
                (match self.max_z {
                    Some(u) => Some(u.0),
                    None => None::<usize>,
                }) == max_z_after(p0.max_z, pl_instrs.take(c as int)),
            decreases instrs@.len() - c,
        {
            proof {
                assert(pl_instrs.take(c + 1).drop_last() =~= pl_instrs.take(c as int));
                assert(pl_instrs.take(c + 1).last() == instrs@[c as int]@);
            }
            let regopt = match &instrs[c] {
                Instruction::Increment(r) => Some(*r),
                Instruction::Decrement(r) => Some(*r),
                Instruction::Conditional(r, _) => Some(*r),
                Instruction::Goto(_) => None,
                Instruction::Stop => None,
            };
            match regopt {
                Some(Register::X(u)) => self.maybe_set_max_x(&u),
                Some(Register::Z(u)) => self.maybe_set_max_z(&u),
                _ => {},
            }
            c = c + 1;
        }
        proof {
            assert(pl_instrs.take(instrs@.len() as int) =~= pl_instrs);
        }
        let ghost before_append = self.instructions@;
        self.instructions.append(&mut instrs);
        proof {
            assert(instrs_view(self.instructions@) =~= instrs_view(before_append) + pl_instrs);
            assert(line_effect(p0, lb, line_num) == Ok::<ParserV, Seq<u8>>(self@)) by {
                match line_effect(p0, lb, line_num) {
                    Ok(p2) => {
                        assert(p2 =~~= self@);
                    },
                    Err(e) => {
                        assert(false);
                    },
                }
            }
        }
        Ok(())
    }

    /// Parses a whole file, line by line in order, line numbers counted
    /// from zero. Stops at the first syntax error, leaving the lines
    /// before it folded in.
    pub fn parse_lines(&mut self, lines: &Vec<&str>) -> (r: Result<(), Error>)
        requires
            old(self).wf(),
            old(self).blank_lines == 0,
        ensures
            final(self).wf(),
            match r {
                Ok(()) => lines_effect(old(self)@, lines_view(lines@), lines@.len() as int)
                    == Ok::<ParserV, Seq<u8>>(final(self)@),
                Err(e) => {
                    &&& (lines_effect(old(self)@, lines_view(lines@), lines@.len() as int) matches
                    Err(t) && e@ == ErrorV::SyntaxError(t))
                    &&& exists|k: int|
                        {
                            &&& 0 <= k < lines@.len()
                            &&& #[trigger] lines_effect(old(self)@, lines_view(lines@), k) == Ok::<
                                ParserV,
                                Seq<u8>,
                            >(final(self)@)
                            &&& line_effect(
                                final(self)@,
                                lines_view(lines@)[k],
                                k as usize,
                            ) matches Err(t) && e@ == ErrorV::SyntaxError(t)
                        }
                },
            },
    {
        let ghost p0 = self@;
        let ghost lv = lines_view(lines@);
        let mut i: usize = 0;
        #[verifier::loop_isolation(false)]
        while i < lines.len()
            invariant
                i <= lines@.len(),
                self.wf(),
                self.blank_lines <= i,
                lines_effect(p0, lv, i as int) == Ok::<ParserV, Seq<u8>>(self@),
            decreases lines@.len() - i,
        {
            let ln = lines[i];
            proof {
                assert(lv[i as int] == ln.spec_bytes());
            }
            match self.parse_line(ln, i) {
                Ok(()) => {},
                Err(e) => {
                    proof {
                        let k = i as int;
                        assert(lines_effect(p0, lv, k) == Ok::<ParserV, Seq<u8>>(self@));
                        assert(lines_effect(p0, lv, k + 1) is Err);
                        lemma_lines_effect_err(p0, lv, k + 1, lv.len() as int);
                    }
                    return Err(e);
                },
            }
            i = i + 1;
        }
        Ok(())
    }
}

} // verus!
