//! The assembler: a listing, one instruction a line, to a program.
//!
//! An empty line is passed over. A line that is one of the fixed mnemonics
//! gives that instruction. Any other line is held to the push pattern, which
//! takes the whole line; what it captures is the numeral to push, handed on
//! as it was written. A line is a push only where it is `PUSH`, ASCII white
//! space and a decimal numeral, and nothing else.

use crate::text::{
    cut, find_line_end, is_decimal, is_decimal_text, is_space, lemma_boundary_at_ascii,
    lemma_boundary_behind_ascii, lemma_line_end_bounds, line_end, next_line, same_bytes, space,
    LINE_FEED,
};
use crate::value::Value;
use vstd::prelude::*;
use vstd::string::StringSliceAdditionalSpecFns;
use vstd::utf8::*;

pub use crate::instr::Instr;

verus! {

/// The pattern of a push, from the start of the line to its end: the
/// mnemonic, white space, then digits with an optional dot and fraction. The
/// numeral is its first group.
pub const PUSH_PATTERN: &'static str = "^PUSH\\s+(\\d+(?:\\.(?:\\d*)?)?)$";

/// An assembly error.
#[derive(Clone, Debug, PartialEq, Eq)]
pub enum AsmError {
    /// A push without a numeral to push.
    MissingArgument,
    /// A line that is no instruction; it holds the line.
    UnknownInstruction(String),
}

/// An assembly error as contracts see it.
pub enum AsmFault {
    MissingArgument,
    UnknownInstruction(Seq<char>),
}

impl View for AsmError {
    type V = AsmFault;

    open spec fn view(&self) -> AsmFault {
        match self {
            AsmError::MissingArgument => AsmFault::MissingArgument,
            AsmError::UnknownInstruction(line) => AsmFault::UnknownInstruction(line@),
        }
    }
}

/// What group 1 holds in the leftmost match of `pattern` in `text`, as the
/// regex crate finds it. `None` where the crate rejects the pattern, where
/// nothing matches, and where the group took no part in the match.
pub uninterp spec fn regex_first_group(pattern: Seq<char>, text: Seq<char>) -> Option<Seq<char>>;

/// Compiles `pattern` with `regex::Regex::new`, searches `text` with
/// `Regex::captures`, and returns the text of group 1 (`Captures::get`,
/// `Match::as_str`). The contract names the result and claims nothing else of
/// it. The pattern is compiled at each call, so that the result is a function
/// of the two texts alone.
#[verifier::external_body]
fn first_group(pattern: &str, text: &str) -> (r: Option<String>)
    ensures
        (match r {
            Some(found) => Some(found@),
            None => None,
        }) == regex_first_group(pattern@, text@),
{
    let re = regex::Regex::new(pattern).ok()?;
    let found = re.captures(text)?;
    Some(found.get(1)?.as_str().to_owned())
}

/// The instruction that a line names by a fixed mnemonic.
pub open spec fn mnemonic(line: Seq<char>) -> Option<Instr<Seq<char>>> {
    if line == "TRUE"@ {
        Some(Instr::True)
    } else if line == "FALSE"@ {
        Some(Instr::False)
    } else if line == "POP"@ {
        Some(Instr::Pop)
    } else if line == "ADD"@ {
        Some(Instr::Add)
    } else if line == "SUB"@ {
        Some(Instr::Sub)
    } else if line == "MUL"@ {
        Some(Instr::Mul)
    } else if line == "DIV"@ {
        Some(Instr::Div)
    } else if line == "MOD"@ {
        Some(Instr::Mod)
    } else if line == "PRINTLN"@ {
        Some(Instr::PrintLn)
    } else {
        None
    }
}

/// Whether a line's first word is the push mnemonic: the line is `PUSH`, or
/// starts with `PUSH` and ASCII white space.
pub open spec fn names_push(line: Seq<char>) -> bool {
    let s = encode_utf8(line);
    &&& s.len() >= 4
    &&& s.subrange(0, 4) == encode_utf8("PUSH"@)
    &&& s.len() == 4 || is_space(s[4])
}

/// Whether a line is a push of `numeral` and nothing else: `PUSH`, ASCII
/// white space, at least one byte of it, and the numeral up to the end.
pub open spec fn is_push_of(line: Seq<char>, numeral: Seq<char>) -> bool {
    let s = encode_utf8(line);
    let n = encode_utf8(numeral);
    &&& s.len() > 4 + n.len()
    &&& s.subrange(0, 4) == encode_utf8("PUSH"@)
    &&& s.subrange(s.len() - n.len(), s.len() as int) == n
    &&& forall|j: int| 4 <= j < s.len() - n.len() ==> is_space(#[trigger] s[j])
}

/// What a line that is neither empty nor a fixed mnemonic assembles to, given
/// what the push pattern captured in it.
///
/// The capture is pushed where it is a decimal numeral and the line is a
/// push of it and nothing else. In any other line that names `PUSH` the
/// argument is missing. Any other line is unknown.
pub open spec fn push_of(line: Seq<char>, argument: Option<Seq<char>>) -> Result<
    Instr<Seq<char>>,
    AsmFault,
> {
    if argument is Some && is_decimal(argument.unwrap()) && is_push_of(line, argument.unwrap()) {
        Ok(Instr::Push(Value::Number(argument.unwrap())))
    } else if names_push(line) {
        Err(AsmFault::MissingArgument)
    } else {
        Err(AsmFault::UnknownInstruction(line))
    }
}

/// What one line assembles to: nothing where it is empty, else its
/// instruction.
pub open spec fn line_of(line: Seq<char>) -> Result<Option<Instr<Seq<char>>>, AsmFault> {
    if line.len() == 0 {
        Ok(None)
    } else if mnemonic(line) is Some {
        Ok(mnemonic(line))
    } else {
        match push_of(line, regex_first_group(PUSH_PATTERN@, line)) {
            Ok(instr) => Ok(Some(instr)),
            Err(e) => Err(e),
        }
    }
}

/// `program` in front of what `rest` holds; the error of `rest` where it is one.
pub open spec fn program_then(
    program: Seq<Instr<Seq<char>>>,
    rest: Result<Seq<Instr<Seq<char>>>, AsmFault>,
) -> Result<Seq<Instr<Seq<char>>>, AsmFault> {
    match rest {
        Ok(more) => Ok(program + more),
        Err(e) => Err(e),
    }
}

/// The program of the lines from byte `start` on, where a line starts.
pub open spec fn assemble_from(s: Seq<u8>, start: int) -> Result<Seq<Instr<Seq<char>>>, AsmFault>
    decreases s.len() - start,
    via assemble_from_decreases
{
    if start < 0 || start >= s.len() {
        Ok(Seq::empty())
    } else {
        let end = line_end(s, start);
        match line_of(decode_utf8(s.subrange(start, end))) {
            Err(e) => Err(e),
            Ok(None) => assemble_from(s, next_line(s, end)),
            Ok(Some(instr)) => program_then(seq![instr], assemble_from(s, next_line(s, end))),
        }
    }
}

#[via_fn]
proof fn assemble_from_decreases(s: Seq<u8>, start: int) {
    if 0 <= start < s.len() {
        lemma_line_end_bounds(s, start);
    }
}

/// The program that a listing assembles to, or its first error.
pub open spec fn assembled(listing: Seq<char>) -> Result<Seq<Instr<Seq<char>>>, AsmFault> {
    assemble_from(encode_utf8(listing), 0)
}

/// The views of a run of instructions.
pub open spec fn instr_views(program: Seq<Instr<String>>) -> Seq<Instr<Seq<char>>> {
    program.map_values(|i: Instr<String>| i@)
}

/// The text that an optional string holds.
pub open spec fn text_of(found: Option<String>) -> Option<Seq<char>> {
    match found {
        Some(text) => Some(text@),
        None => None,
    }
}

/// Two texts are the same where their UTF-8 bytes are.
pub proof fn lemma_same_bytes_same_text(a: Seq<char>, b: Seq<char>)
    ensures
        (encode_utf8(a) == encode_utf8(b)) <==> a == b,
{
    encode_utf8_decode_utf8(a);
    encode_utf8_decode_utf8(b);
}

fn spells(line: &str, word: &str) -> (r: bool)
    ensures
        r == (line@ == word@),
{
    let s = line.as_bytes();
    proof {
        lemma_same_bytes_same_text(line@, word@);
        assert(s@.subrange(0, s@.len() as int) =~= s@);
    }
    same_bytes(s, 0, s.len(), word)
}

fn fixed(line: &str) -> (r: Option<Instr<String>>)
    ensures
        match mnemonic(line@) {
            Some(instr) => r matches Some(i) && i@ == instr,
            None => r is None,
        },
{
    if spells(line, "TRUE") {
        Some(Instr::True)
    } else if spells(line, "FALSE") {
        Some(Instr::False)
    } else if spells(line, "POP") {
        Some(Instr::Pop)
    } else if spells(line, "ADD") {
        Some(Instr::Add)
    } else if spells(line, "SUB") {
        Some(Instr::Sub)
    } else if spells(line, "MUL") {
        Some(Instr::Mul)
    } else if spells(line, "DIV") {
        Some(Instr::Div)
    } else if spells(line, "MOD") {
        Some(Instr::Mod)
    } else if spells(line, "PRINTLN") {
        Some(Instr::PrintLn)
    } else {
        None
    }
}

fn first_word_is_push(line: &str) -> (r: bool)
    ensures
        r == names_push(line@),
{
    let s = line.as_bytes();
    s.len() >= 4 && same_bytes(s, 0, 4, "PUSH") && (s.len() == 4 || space(s[4]))
}

fn is_push_line(line: &str, numeral: &str) -> (r: bool)
    ensures
        r == is_push_of(line@, numeral@),
{
    let s = line.as_bytes();
    let n = numeral.as_bytes();
    if s.len() < 5 || n.len() > s.len() - 5 {
        return false;
    }
    let behind = s.len() - n.len();
    if !same_bytes(s, 0, 4, "PUSH") || !same_bytes(s, behind, s.len(), numeral) {
        return false;
    }
    let mut j: usize = 4;
    while j < behind
        invariant
            s@ == encode_utf8(line@),
            n@ == encode_utf8(numeral@),
            behind == s@.len() - n@.len(),
            s@.subrange(0, 4) == encode_utf8("PUSH"@),
            s@.subrange(behind as int, s@.len() as int) == n@,
            4 <= j <= behind <= s@.len(),
            forall|k: int| 4 <= k < j ==> is_space(#[trigger] s@[k]),
        decreases behind - j,
    {
        if !space(s[j]) {
            assert(!is_space(s@[j as int]));
            return false;
        }
        j += 1;
    }
    true
}

/// Assembles a line that is neither empty nor a fixed mnemonic, from what the
/// push pattern captured in it.
pub fn push_instr(line: &str, argument: Option<String>) -> (r: Result<Instr<String>, AsmError>)
    ensures
        match push_of(line@, text_of(argument)) {
            Ok(instr) => r matches Ok(i) && i@ == instr,
            Err(fault) => r matches Err(e) && e@ == fault,
        },
{
    if let Some(numeral) = argument {
        if is_decimal_text(numeral.as_str()) && is_push_line(line, numeral.as_str()) {
            return Ok(Instr::Push(Value::Number(numeral)));
        }
    }
    if first_word_is_push(line) {
        Err(AsmError::MissingArgument)
    } else {
        Err(AsmError::UnknownInstruction(line.to_owned()))
    }
}

proof fn lemma_program_then_push(
    program: Seq<Instr<Seq<char>>>,
    instr: Instr<Seq<char>>,
    rest: Result<Seq<Instr<Seq<char>>>, AsmFault>,
)
    ensures
        program_then(program, program_then(seq![instr], rest)) == program_then(
            program.push(instr),
            rest,
        ),
{
    if let Ok(more) = rest {
        assert(program + (seq![instr] + more) =~= program.push(instr) + more);
    }
}

/// Assembles a whole listing: its instructions in order, or the first error.
pub fn assemble(listing: &str) -> (r: Result<Vec<Instr<String>>, AsmError>)
    ensures
        match assembled(listing@) {
            Ok(program) => r matches Ok(v) && instr_views(v@) == program,
            Err(fault) => r matches Err(e) && e@ == fault,
        },
{
    let s = listing.as_bytes();
    let n = s.len();
    let mut program: Vec<Instr<String>> = Vec::new();
    let mut start: usize = 0;
    proof {
        encode_utf8_valid_utf8(listing@);
        assert(instr_views(program@) =~= Seq::<Instr<Seq<char>>>::empty());
        if let Ok(more) = assemble_from(s@, 0) {
            assert(Seq::<Instr<Seq<char>>>::empty() + more =~= more);
        }
    }
    while start < n
        invariant
            s@ == listing.spec_bytes(),
            s@ == encode_utf8(listing@),
            valid_utf8(s@),
            n == s@.len(),
            start <= n,
            is_char_boundary(s@, start as int),
            assembled(listing@) == program_then(
                instr_views(program@),
                assemble_from(s@, start as int),
            ),
        decreases n - start,
    {
        let end = find_line_end(s, start);
        proof {
            lemma_line_end_bounds(s@, start as int);
            if end == n {
                is_char_boundary_start_end_of_seq(s@);
            } else {
                lemma_boundary_at_ascii(s@, end as int);
            }
        }
        let line = cut(listing, start, end);
        let next = if end >= n {
            n
        } else if s[end] == LINE_FEED {
            end + 1
        } else {
            end + 2
        };
        proof {
            if end < n {
                lemma_boundary_behind_ascii(s@, next - 1);
            }
            let bytes = s@.subrange(start as int, end as int);
            assert(line@.len() == 0 <==> end == start) by {
                if end == start {
                    assert(bytes.len() == 0);
                } else {
                    assert(encode_utf8(line@) == bytes);
                    assert(encode_utf8(Seq::<char>::empty()).len() == 0);
                }
            }
        }
        if end > start {
            let found = match fixed(line) {
                Some(instr) => instr,
                None => {
                    let argument = first_group(PUSH_PATTERN, line);
                    match push_instr(line, argument) {
                        Ok(instr) => instr,
                        Err(e) => {
                            return Err(e);
                        },
                    }
                },
            };
            proof {
                lemma_program_then_push(
                    instr_views(program@),
                    found@,
                    assemble_from(s@, next as int),
                );
                assert(instr_views(program@.push(found)) =~= instr_views(program@).push(found@));
            }
            program.push(found);
        }
        start = next;
    }
    proof {
        assert(instr_views(program@) + Seq::<Instr<Seq<char>>>::empty() =~= instr_views(program@));
    }
    Ok(program)
}

/// Every number that an assembled program pushes is a decimal numeral, and
/// the assembler pushes nothing but numbers.
pub proof fn lemma_assembled_pushes_decimals(listing: Seq<char>)
    ensures
        assembled(listing) matches Ok(program) ==> forall|k: int|
            0 <= k < program.len() ==> ((#[trigger] program[k]) matches Instr::Push(value)
                ==> value matches Value::Number(numeral) && is_decimal(numeral)),
{
    lemma_assemble_from_pushes_decimals(encode_utf8(listing), 0);
}

proof fn lemma_assemble_from_pushes_decimals(s: Seq<u8>, start: int)
    ensures
        assemble_from(s, start) matches Ok(program) ==> forall|k: int|
            0 <= k < program.len() ==> ((#[trigger] program[k]) matches Instr::Push(value)
                ==> value matches Value::Number(numeral) && is_decimal(numeral)),
    decreases s.len() - start,
{
    if 0 <= start < s.len() {
        lemma_line_end_bounds(s, start);
        let end = line_end(s, start);
        lemma_assemble_from_pushes_decimals(s, next_line(s, end));
    }
}

/// A line is a push only where it is `PUSH`, white space and a decimal
/// numeral and nothing else, whatever the pattern found in it.
pub proof fn lemma_push_takes_the_whole_line(line: Seq<char>, argument: Option<Seq<char>>)
    ensures
        push_of(line, argument) matches Ok(instr) ==> {
            &&& argument matches Some(numeral)
            &&& instr == Instr::Push(Value::Number(numeral))
            &&& is_decimal(numeral)
            &&& is_push_of(line, numeral)
            &&& names_push(line)
        },
{
    if push_of(line, argument) is Ok {
        let s = encode_utf8(line);
        assert(is_space(s[4]));
    }
}

/// A line that is not empty, is no fixed mnemonic and does not name `PUSH`
/// is unknown, whatever the pattern finds in it.
pub proof fn lemma_line_without_push_is_unknown(line: Seq<char>)
    requires
        line.len() > 0,
        mnemonic(line) is None,
        !names_push(line),
    ensures
        line_of(line) == Err::<Option<Instr<Seq<char>>>, AsmFault>(
            AsmFault::UnknownInstruction(line),
        ),
{
    lemma_push_takes_the_whole_line(line, regex_first_group(PUSH_PATTERN@, line));
}

/// A line that names `PUSH` and is no push of a decimal numeral misses its
/// argument, whatever the pattern finds in it.
pub proof fn lemma_push_without_numeral_misses_it(line: Seq<char>)
    requires
        names_push(line),
        mnemonic(line) is None,
        forall|numeral: Seq<char>| !(is_decimal(numeral) && #[trigger] is_push_of(line, numeral)),
    ensures
        line_of(line) == Err::<Option<Instr<Seq<char>>>, AsmFault>(AsmFault::MissingArgument),
{
    let s = encode_utf8(line);
    assert(line.len() > 0) by {
        if line.len() == 0 {
            assert(s.len() == 0);
        }
    }
}

} // verus!
