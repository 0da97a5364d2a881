//! The instruction tokenizer: a fixed three-opcode grammar, one
//! instruction per line of the form `nop +0`, `acc -7`, `jmp +4`.

use vstd::prelude::*;
use vstd::string::StrSliceExecFns;
use crate::instruction::Instruction;
use crate::machine::fits_i64;

verus! {

/// A decimal digit.
pub open spec fn is_digit_char(c: char) -> bool {
    48 <= c as int <= 57
}

/// The numeric value of a decimal digit.
pub open spec fn digit_val(c: char) -> int {
    c as int - 48
}

/// The value of a digit string read in base 10, most significant first.
pub open spec fn digits_val(s: Seq<char>) -> int
    decreases s.len(),
{
    if s.len() == 0 {
        0
    } else {
        digits_val(s.drop_last()) * 10 + digit_val(s.last())
    }
}

/// Whether every character of `s` is a decimal digit.
pub open spec fn all_digits(s: Seq<char>) -> bool {
    forall|k: int| 0 <= k < s.len() ==> is_digit_char(s[k])
}

/// A digit string's value is never negative.
proof fn lemma_digits_val_nonneg(s: Seq<char>)
    requires
        all_digits(s),
    ensures
        digits_val(s) >= 0,
    decreases s.len(),
{
    if s.len() > 0 {
        lemma_digits_val_nonneg(s.drop_last());
    }
}

/// Reading more digits never shrinks the value: the value of a prefix is at
/// most the value of the whole digit string.
proof fn lemma_digits_val_prefix(s: Seq<char>, k: int)
    requires
        all_digits(s),
        0 <= k <= s.len(),
    ensures
        digits_val(s.subrange(0, k)) <= digits_val(s),
    decreases s.len() - k,
{
    if k == s.len() {
        assert(s.subrange(0, k) =~= s);
    } else {
        lemma_digits_val_prefix(s, k + 1);
        assert(s.subrange(0, k + 1).drop_last() =~= s.subrange(0, k));
        lemma_digits_val_nonneg(s.subrange(0, k));
    }
}

/// What a line of assembly means.  A well-formed line is one of the three
/// opcodes, a single space, a mandatory sign and at least one decimal
/// digit, with nothing around them; its operand must fit in an `i64`.
/// Anything else means nothing.
pub open spec fn spec_parse_instruction(s: Seq<char>) -> Option<Instruction> {
    if s.len() < 6 {
        None
    } else if s[3] != ' ' {
        None
    } else if s[4] != '+' && s[4] != '-' {
        None
    } else if !all_digits(s.subrange(5, s.len() as int)) {
        None
    } else {
        let magnitude = digits_val(s.subrange(5, s.len() as int));
        let operand = if s[4] == '-' {
            -magnitude
        } else {
            magnitude
        };
        if !fits_i64(operand) {
            None
        } else if s[0] == 'n' && s[1] == 'o' && s[2] == 'p' {
            Some(Instruction::Nop(operand as i64))
        } else if s[0] == 'a' && s[1] == 'c' && s[2] == 'c' {
            Some(Instruction::Acc(operand as i64))
        } else if s[0] == 'j' && s[1] == 'm' && s[2] == 'p' {
            Some(Instruction::Jmp(operand as i64))
        } else {
            None
        }
    }
}

/// Reads one line of assembly; `None` exactly on the lines the grammar
/// `spec_parse_instruction` rejects.
pub fn parse_instruction(code: &str) -> (r: Option<Instruction>)
    ensures
        r == spec_parse_instruction(code@),
{
    let n = code.unicode_len();
    if n < 6 {
        return None;
    }
    if code.get_char(3) != ' ' {
        return None;
    }
    let sign = code.get_char(4);
    if sign != '+' && sign != '-' {
        return None;
    }
    let neg = sign == '-';
    let ghost whole = code@.subrange(5, n as int);
    let mut value: i64 = 0;
    let mut i: usize = 5;
    while i < n
        invariant
            5 <= i <= n,
            n == code@.len(),
            n >= 6,
            code@[3] == ' ',
            code@[4] == '+' || code@[4] == '-',
            neg == (code@[4] == '-'),
            whole == code@.subrange(5, n as int),
            all_digits(code@.subrange(5, i as int)),
            neg ==> value == -digits_val(code@.subrange(5, i as int)),
            !neg ==> value == digits_val(code@.subrange(5, i as int)),
        decreases n - i,
    {
        let c = code.get_char(i);
        let cv: u32 = c as u32;
        if cv < 48 || cv > 57 {
            proof {
                assert(whole[i - 5] == code@[i as int]);
                assert(!all_digits(whole));
            }
            return None;
        }
        let d: i64 = cv as i64 - 48;
        let ghost prefix = code@.subrange(5, i as int);
        let ghost grown = code@.subrange(5, i as int + 1);
        proof {
            lemma_digits_val_nonneg(prefix);
            assert(grown.drop_last() =~= prefix);
            assert(grown.last() == code@[i as int]);
            assert(grown =~= whole.subrange(0, i as int + 1 - 5));
            assert(digit_val(code@[i as int]) == d);
            assert(digits_val(grown) == digits_val(prefix) * 10 + d);
            assert(all_digits(grown));
        }
        if neg {
            if value < -922337203685477580i64 || (value == -922337203685477580i64 && d > 8) {
                proof {
                    if all_digits(whole) {
                        lemma_digits_val_prefix(whole, i as int + 1 - 5);
                        assert(digits_val(whole) >= digits_val(grown));
                        assert(!fits_i64(-digits_val(whole)));
                    }
                }
                return None;
            }
            value = value * 10 - d;
        } else {
            if value > 922337203685477580i64 || (value == 922337203685477580i64 && d > 7) {
                proof {
                    if all_digits(whole) {
                        lemma_digits_val_prefix(whole, i as int + 1 - 5);
                        assert(digits_val(whole) >= digits_val(grown));
                        assert(!fits_i64(digits_val(whole)));
                    }
                }
                return None;
            }
            value = value * 10 + d;
        }
        i = i + 1;
    }
    proof {
        assert(code@.subrange(5, i as int) =~= whole);
    }
    let c0 = code.get_char(0);
    let c1 = code.get_char(1);
    let c2 = code.get_char(2);
    if c0 == 'n' && c1 == 'o' && c2 == 'p' {
        Some(Instruction::Nop(value))
    } else if c0 == 'a' && c1 == 'c' && c2 == 'c' {
        Some(Instruction::Acc(value))
    } else if c0 == 'j' && c1 == 'm' && c2 == 'p' {
        Some(Instruction::Jmp(value))
    } else {
        None
    }
}

/// Reads a whole listing, one instruction per line, in order.  `None`
/// exactly when some line is rejected; otherwise the program has one
/// instruction per line.
pub fn read_all_instructions(lines: &Vec<String>) -> (r: Option<Vec<Instruction>>)
    ensures
        r is Some <==> (forall|j: int|
            0 <= j < lines@.len() ==> spec_parse_instruction(lines@[j]@) is Some),
        r matches Some(p) ==> p@.len() == lines@.len() && (forall|j: int|
            0 <= j < lines@.len() ==> spec_parse_instruction(lines@[j]@) == Some(p@[j])),
{
    let mut all: Vec<Instruction> = Vec::new();
    let mut i: usize = 0;
    while i < lines.len()
        invariant
            i <= lines@.len(),
            all@.len() == i,
            forall|j: int| 0 <= j < i ==> spec_parse_instruction(lines@[j]@) == Some(all@[j]),
        decreases lines@.len() - i,
    {
        match parse_instruction(lines[i].as_str()) {
            Some(inst) => {
                all.push(inst);
            }
            None => {
                return None;
            }
        }
        i = i + 1;
    }
    proof {
        assert forall|j: int| 0 <= j < lines@.len() implies spec_parse_instruction(
            lines@[j]@,
        ) is Some by {
            assert(spec_parse_instruction(lines@[j]@) == Some(all@[j]));
        }
    }
    Some(all)
}

} // verus!
