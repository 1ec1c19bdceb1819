//! The lexer: from a line of source text to a sequence of operations, with
//! adjacent `Add`s and adjacent `Move`s folded into one.

use crate::symbols::{ops, Op, SYMBOLS};
use vstd::prelude::*;
use vstd::string::StringSliceAdditionalSpecFns;
use vstd::utf8::{encode_scalar, encode_utf8};

verus! {

/// The operation that one character of source text stands for. Every other
/// character is commentary and stands for nothing.
pub open spec fn decode(c: char) -> Option<Op> {
    if c == '+' {
        Some(Op::Add(1))
    } else if c == '-' {
        Some(Op::Add(-1))
    } else if c == '>' {
        Some(Op::Move(1))
    } else if c == '<' {
        Some(Op::Move(-1))
    } else if c == '.' {
        Some(Op::Output)
    } else if c == ',' {
        Some(Op::Input)
    } else if c == '[' {
        Some(Op::LoopB)
    } else if c == ']' {
        Some(Op::LoopE)
    } else {
        None
    }
}

/// `program` with `op` appended: merged into the last operation where the
/// two combine, and pushed after it otherwise.
pub open spec fn push_folded(program: Seq<Op>, op: Op) -> Seq<Op> {
    if program.len() > 0 && program.last().combine(op) is Some {
        program.drop_last().push(program.last().combine(op)->0)
    } else {
        program.push(op)
    }
}

/// The operations of a line of text: its characters are decoded from left to
/// right, and each operation is folded into the one before it where the two
/// combine.
pub open spec fn lex(text: Seq<char>) -> Seq<Op>
    decreases text.len(),
{
    if text.len() == 0 {
        Seq::empty()
    } else {
        let before = lex(text.drop_last());
        match decode(text.last()) {
            Some(op) => push_folded(before, op),
            None => before,
        }
    }
}

/// What one character adds to the delta of the run it stands in: one for `+`
/// and `>`, one less for `-` and `<`.
pub open spec fn weight(c: char) -> int {
    if c == '+' || c == '>' {
        1
    } else if c == '-' || c == '<' {
        -1
    } else {
        0
    }
}

/// The sum of the weights of the characters of `run`.
pub open spec fn net(run: Seq<char>) -> int
    decreases run.len(),
{
    if run.len() == 0 {
        0
    } else {
        net(run.drop_last()) + weight(run.last())
    }
}

/// A run of `+` and `-` folds into exactly one `Add`, whose delta is the
/// whole net count of the run, however long the run is and whatever
/// commentary stands in it: after any text whose own operations do not end
/// in an `Add`, the run contributes that one operation and nothing else.
pub proof fn lemma_additive_run_folds(prefix: Seq<char>, run: Seq<char>)
    requires
        run.len() > 0,
        run[0] == '+' || run[0] == '-',
        forall|j: int|
            0 <= j < run.len() ==> run[j] == '+' || run[j] == '-' || decode(run[j]) is None,
        lex(prefix).len() == 0 || !(lex(prefix).last() is Add),
    ensures
        lex(prefix + run) == lex(prefix).push(Op::Add(net(run))),
    decreases run.len(),
{
    let shorter = run.drop_last();
    assert((prefix + run).drop_last() =~= prefix + shorter);
    if shorter.len() == 0 {
        assert(net(shorter) == 0);
    } else {
        lemma_additive_run_folds(prefix, shorter);
    }
}

/// A run of `>` and `<` folds into exactly one `Move`, whose delta is the
/// whole net count of the run, whatever commentary stands in it: after any
/// text whose own operations do not end in a `Move`, the run contributes
/// that one operation and nothing else.
pub proof fn lemma_shifting_run_folds(prefix: Seq<char>, run: Seq<char>)
    requires
        run.len() > 0,
        run[0] == '>' || run[0] == '<',
        forall|j: int|
            0 <= j < run.len() ==> run[j] == '>' || run[j] == '<' || decode(run[j]) is None,
        lex(prefix).len() == 0 || !(lex(prefix).last() is Move),
    ensures
        lex(prefix + run) == lex(prefix).push(Op::Move(net(run))),
    decreases run.len(),
{
    let shorter = run.drop_last();
    assert((prefix + run).drop_last() =~= prefix + shorter);
    if shorter.len() == 0 {
        assert(net(shorter) == 0);
    } else {
        lemma_shifting_run_folds(prefix, shorter);
    }
}

/// A line that holds nothing but `+` and `-` lexes to a single `Add` with
/// the net count of the line.
pub proof fn lemma_additive_line(line: Seq<char>)
    requires
        line.len() > 0,
        forall|j: int| 0 <= j < line.len() ==> line[j] == '+' || line[j] == '-',
    ensures
        lex(line) == seq![Op::Add(net(line))],
{
    lemma_additive_run_folds(Seq::empty(), line);
}

/// The operations of two texts that are lexed as one, from what each gives
/// alone: the first operation of the second folds into the last operation
/// of the first where the two combine, and nothing else changes.
pub open spec fn join_folded(first: Seq<Op>, second: Seq<Op>) -> Seq<Op> {
    if second.len() == 0 {
        first
    } else {
        push_folded(first, second[0]) + second.drop_first()
    }
}

/// Folding one more operation onto joined operations is joining with the
/// second part folded.
proof fn lemma_push_folded_joined(first: Seq<Op>, second: Seq<Op>, op: Op)
    ensures
        push_folded(join_folded(first, second), op) == join_folded(
            first,
            push_folded(second, op),
        ),
{
    if second.len() > 1 && second.last().combine(op) is Some {
        let sum = second.last().combine(op)->0;
        assert(push_folded(second, op).drop_first() =~= second.drop_first().drop_last().push(sum));
    }
}

/// Lexing is local: the operations of a text in two parts are the operations
/// of the parts, joined where the parts meet. So a text lexed line by line
/// differs from the same text lexed as one line at most by a run that the
/// line boundary cuts in two.
pub proof fn lemma_lex_concat(first: Seq<char>, second: Seq<char>)
    ensures
        lex(first + second) == join_folded(lex(first), lex(second)),
    decreases second.len(),
{
    if second.len() > 0 {
        assert((first + second).drop_last() =~= first + second.drop_last());
        lemma_lex_concat(first, second.drop_last());
        if let Some(op) = decode(second.last()) {
            lemma_push_folded_joined(lex(first), lex(second.drop_last()), op);
        }
    }
}

/// Within the operations of one line no two neighbours combine: every run
/// has been folded as far as it goes.
pub proof fn lemma_lex_is_folded(text: Seq<char>)
    ensures
        forall|j: int|
            0 < j < lex(text).len() ==> (#[trigger] lex(text)[j - 1]).combine(lex(text)[j])
                is None,
    decreases text.len(),
{
    if text.len() > 0 {
        lemma_lex_is_folded(text.drop_last());
    }
}

/// Text without any of the eight operators lexes to the empty program.
pub proof fn lemma_commentary_lexes_empty(text: Seq<char>)
    requires
        forall|j: int| 0 <= j < text.len() ==> decode(#[trigger] text[j]) is None,
    ensures
        lex(text) == Seq::<Op>::empty(),
    decreases text.len(),
{
    if text.len() > 0 {
        lemma_commentary_lexes_empty(text.drop_last());
    }
}

const PLUS: u8 = 0x2b;

const MINUS: u8 = 0x2d;

const GREATER: u8 = 0x3e;

const LESS: u8 = 0x3c;

const DOT: u8 = 0x2e;

const COMMA: u8 = 0x2c;

const OPEN: u8 = 0x5b;

const CLOSE: u8 = 0x5d;

/// What `decode` is on the bytes of the encoded text.
spec fn decode_byte(b: u8) -> Option<Op> {
    if b == PLUS {
        Some(Op::Add(1))
    } else if b == MINUS {
        Some(Op::Add(-1))
    } else if b == GREATER {
        Some(Op::Move(1))
    } else if b == LESS {
        Some(Op::Move(-1))
    } else if b == DOT {
        Some(Op::Output)
    } else if b == COMMA {
        Some(Op::Input)
    } else if b == OPEN {
        Some(Op::LoopB)
    } else if b == CLOSE {
        Some(Op::LoopE)
    } else {
        None
    }
}

/// What `lex` is on the bytes of the encoded text.
spec fn lex_bytes(bytes: Seq<u8>) -> Seq<Op>
    decreases bytes.len(),
{
    if bytes.len() == 0 {
        Seq::empty()
    } else {
        let before = lex_bytes(bytes.drop_last());
        match decode_byte(bytes.last()) {
            Some(op) => push_folded(before, op),
            None => before,
        }
    }
}

/// The encoding of a text is the encoding of its front followed by that of
/// its last character.
proof fn lemma_encode_push(text: Seq<char>, c: char)
    ensures
        encode_utf8(text.push(c)) == encode_utf8(text) + encode_scalar(c as u32),
    decreases text.len(),
{
    if text.len() == 0 {
        assert(text.push(c).drop_first() =~= text);
    } else {
        assert(text.push(c).drop_first() =~= text.drop_first().push(c));
        lemma_encode_push(text.drop_first(), c);
    }
}

/// Bytes that stand for nothing add nothing.
proof fn lemma_lex_bytes_commentary(bytes: Seq<u8>, tail: Seq<u8>)
    requires
        forall|j: int| 0 <= j < tail.len() ==> decode_byte(#[trigger] tail[j]) is None,
    ensures
        lex_bytes(bytes + tail) == lex_bytes(bytes),
    decreases tail.len(),
{
    if tail.len() > 0 {
        assert((bytes + tail).drop_last() =~= bytes + tail.drop_last());
        lemma_lex_bytes_commentary(bytes, tail.drop_last());
    }
}

/// A byte of a scalar below 0x80 is the scalar itself, and every byte of a
/// longer encoding has its high bit set.
proof fn lemma_high_bytes(v: u32)
    by (bit_vector)
    ensures
        v <= 0x7f ==> (v & 0x7f) as u8 == v,
        0xc0u8 | ((v >> 6) & 0x1f) as u8 >= 0x80,
        0xe0u8 | ((v >> 12) & 0x0f) as u8 >= 0x80,
        0xf0u8 | ((v >> 18) & 0x07) as u8 >= 0x80,
        0x80u8 | (v & 0x3f) as u8 >= 0x80,
        0x80u8 | ((v >> 6) & 0x3f) as u8 >= 0x80,
        0x80u8 | ((v >> 12) & 0x3f) as u8 >= 0x80,
{
}

/// The bytes that encode one character decode as the character does: an
/// ASCII character is its own byte, and no byte of a longer encoding is one
/// of the eight operators.
proof fn lemma_decode_encoded(c: char)
    ensures
        c as u32 <= 0x7f ==> encode_scalar(c as u32) == seq![c as u8] && decode_byte(c as u8)
            == decode(c),
        c as u32 > 0x7f ==> decode(c) is None && forall|j: int|
            0 <= j < encode_scalar(c as u32).len() ==> decode_byte(
                #[trigger] encode_scalar(c as u32)[j],
            ) is None,
{
    lemma_high_bytes(c as u32);
}

/// Lexing the UTF-8 encoding of a text byte by byte gives what lexing the
/// text character by character gives.
proof fn lemma_lex_encoded(text: Seq<char>)
    ensures
        lex_bytes(encode_utf8(text)) == lex(text),
    decreases text.len(),
{
    if text.len() > 0 {
        let front = text.drop_last();
        let c = text.last();
        assert(text == front.push(c));
        lemma_encode_push(front, c);
        lemma_lex_encoded(front);
        lemma_decode_encoded(c);
        if c as u32 <= 0x7f {
            assert(encode_utf8(front) + seq![c as u8] =~= encode_utf8(front).push(c as u8));
            assert(encode_utf8(front).push(c as u8).drop_last() =~= encode_utf8(front));
        } else {
            lemma_lex_bytes_commentary(encode_utf8(front), encode_scalar(c as u32));
        }
    }
}

/// Every delta of `program` lies within `bound` of zero.
spec fn deltas_within(program: Seq<Op>, bound: int) -> bool {
    forall|j: int|
        0 <= j < program.len() ==> match #[trigger] program[j] {
            Op::Add(n) => -bound <= n <= bound,
            Op::Move(n) => -bound <= n <= bound,
            _ => true,
        }
}

/// The operation that one byte of the encoded text stands for.
fn decode_exec(b: u8) -> (r: Option<SYMBOLS>)
    ensures
        match r {
            Some(s) => decode_byte(b) == Some(s@),
            None => decode_byte(b) is None,
        },
{
    match b {
        PLUS => Some(SYMBOLS::Add(1)),
        MINUS => Some(SYMBOLS::Add(-1)),
        GREATER => Some(SYMBOLS::Move(1)),
        LESS => Some(SYMBOLS::Move(-1)),
        DOT => Some(SYMBOLS::Output),
        COMMA => Some(SYMBOLS::Input),
        OPEN => Some(SYMBOLS::LoopB),
        CLOSE => Some(SYMBOLS::LoopE),
        _ => None,
    }
}

/// The model of a program with one more operation.
proof fn lemma_ops_push(program: Seq<SYMBOLS>, s: SYMBOLS)
    ensures
        ops(program.push(s)) == ops(program).push(s@),
{
}

/// The model of a program without its last operation.
proof fn lemma_ops_drop_last(program: Seq<SYMBOLS>)
    requires
        program.len() > 0,
    ensures
        ops(program.drop_last()) == ops(program).drop_last(),
        ops(program).last() == program.last()@,
{
}

/// Lexes one line of source text.
///
/// The result is `lex` of the text. A line of more than `isize::MAX` bytes is
/// turned down with `None`: within that length no folded delta can leave the
/// range of an `isize`.
pub fn str_to_symbol(string: &str) -> (result: Option<Vec<SYMBOLS>>)
    ensures
        result is Some <==> string.spec_bytes().len() <= isize::MAX,
        result matches Some(instructions) ==> ops(instructions@) == lex(string@),
{
    let bytes = string.as_bytes();
    let n: usize = bytes.len();
    if n > isize::MAX as usize {
        return None;
    }
    let mut instructions_ret: Vec<SYMBOLS> = Vec::new();
    instructions_ret.reserve(n);
    let mut k: usize = 0;
    while k < n
        invariant
            k <= n == bytes@.len() <= isize::MAX,
            ops(instructions_ret@) == lex_bytes(bytes@.take(k as int)),
            deltas_within(ops(instructions_ret@), k as int),
        decreases n - k,
    {
        let ghost before = instructions_ret@;
        proof {
            assert(bytes@.take(k + 1).drop_last() == bytes@.take(k as int));
            if before.len() > 0 {
                lemma_ops_drop_last(before);
            }
        }
        if let Some(instr) = decode_exec(bytes[k]) {
            let len: usize = instructions_ret.len();
            let merged = if len > 0 {
                instructions_ret[len - 1].combine(instr)
            } else {
                None
            };
            match merged {
                Some(sum) => {
                    instructions_ret.pop();
                    instructions_ret.push(sum);
                    proof {
                        lemma_ops_push(before.drop_last(), sum);
                    }
                },
                None => {
                    instructions_ret.push(instr);
                    proof {
                        lemma_ops_push(before, instr);
                    }
                },
            }
        }
        k += 1;
    }
    proof {
        assert(bytes@.take(n as int) == bytes@);
        lemma_lex_encoded(string@);
    }
    Some(instructions_ret)
}

/// Lexes one more line and appends its operations to `program`.
///
/// Each line is folded on its own: the first operation of the line is never
/// merged into the last operation that `program` already holds. A line that
/// `str_to_symbol` turns down leaves `program` as it was.
pub fn append_line(program: &mut Vec<SYMBOLS>, line: &str) -> (accepted: bool)
    ensures
        accepted <==> line.spec_bytes().len() <= isize::MAX,
        accepted ==> ops(final(program)@) == ops(old(program)@) + lex(line@),
        accepted ==> final(program)@.take(old(program)@.len() as int) == old(program)@,
        !accepted ==> final(program)@ == old(program)@,
{
    match str_to_symbol(line) {
        Some(mut instructions) => {
            program.append(&mut instructions);
            true
        },
        None => false,
    }
}

} // verus!
