//! The program of a docking computer: lines that set a bit mask and lines
//! that store a value.
use crate::text::{all_digits, chars_of, decimal_value, is_digit, read_decimal};
use std::collections::HashMap;
use vstd::prelude::*;
use vstd::string::StrSliceExecFns;
use vstd::string::StringExecFns;

verus! {

/// One line of the program.
#[derive(Debug)]
pub enum Operation {
    /// `mask = ` and 36 characters `0`, `1` or `X`.
    SetMask(String),
    /// `mem[<address>] = <value>`.
    Store(i64, i64),
}

/// Why a line is no operation.
#[derive(Debug, Clone, Copy, PartialEq, Eq, Structural)]
pub enum LineFault {
    /// The line ends neither like a mask nor like a store.
    Unrecognised,
    /// The address of a store does not fit in 64 bits with a sign.
    InvalidAddress,
    /// The value of a store does not fit in 64 bits with a sign.
    InvalidValue,
}

/// Whether `c` may stand in a mask.
pub open spec fn is_mask_char(c: char) -> bool {
    c == '0' || c == '1' || c == 'X'
}

/// Whether `s` ends with `mask = ` and 36 mask characters.
pub open spec fn ends_as_mask(s: Seq<char>) -> bool {
    &&& s.len() >= 43
    &&& s.subrange(s.len() - 43, s.len() - 36) == "mask = "@
    &&& forall|i: int| s.len() - 36 <= i < s.len() ==> is_mask_char(#[trigger] s[i])
}

/// The place where the run of digits that ends before `end` begins.
pub open spec fn digits_start(s: Seq<char>, end: int) -> int
    decreases end,
{
    if end <= 0 || !is_digit(s[end - 1]) {
        end
    } else {
        digits_start(s, end - 1)
    }
}

/// Where the value of a store begins: the line ends with a run of digits.
pub open spec fn value_start(s: Seq<char>) -> int {
    digits_start(s, s.len() as int)
}

/// Where the address of a store begins: before the value stands `] = `, and
/// before that a run of digits.
pub open spec fn address_start(s: Seq<char>) -> int {
    digits_start(s, value_start(s) - 4)
}

/// Whether `s` ends with `mem[`, digits, `] = `, digits.
pub open spec fn ends_as_store(s: Seq<char>) -> bool {
    let v = value_start(s);
    let a = address_start(s);
    &&& v < s.len()
    &&& v >= 4
    &&& s.subrange(v - 4, v) == "] = "@
    &&& a < v - 4
    &&& a >= 4
    &&& s.subrange(a - 4, a) == "mem["@
}

/// What a line says, or why it says nothing.  A line that ends like a mask
/// is a mask.
pub open spec fn line_meaning(s: Seq<char>) -> Result<(Seq<char>, int, int), LineFault> {
    let v = value_start(s);
    let a = address_start(s);
    if ends_as_mask(s) {
        Ok((s.subrange(s.len() - 36, s.len() as int), 0, 0))
    } else if !ends_as_store(s) {
        Err(LineFault::Unrecognised)
    } else if decimal_value(s.subrange(a, v - 4)) > i64::MAX {
        Err(LineFault::InvalidAddress)
    } else if decimal_value(s.subrange(v, s.len() as int)) > i64::MAX {
        Err(LineFault::InvalidValue)
    } else {
        Ok(
            (
                Seq::empty(),
                decimal_value(s.subrange(a, v - 4)) as int,
                decimal_value(s.subrange(v, s.len() as int)) as int,
            ),
        )
    }
}

/// Whether the operation `op` is what the meaning `m` of a line says.
pub open spec fn says(op: Operation, s: Seq<char>, m: (Seq<char>, int, int)) -> bool {
    if ends_as_mask(s) {
        op matches Operation::SetMask(mask) && mask@ == m.0
    } else {
        op matches Operation::Store(addr, val) && addr == m.1 && val == m.2
    }
}

/// Finds where the run of digits that ends before `end` begins.
fn find_digits_start(s: &Vec<char>, end: usize) -> (r: usize)
    requires
        end <= s.len(),
    ensures
        r == digits_start(s@, end as int),
        r <= end,
        all_digits(s@.subrange(r as int, end as int)),
{
    let mut i: usize = end;
    while i > 0 && '0' <= s[i - 1] && s[i - 1] <= '9'
        invariant
            0 <= i <= end <= s.len(),
            digits_start(s@, end as int) == digits_start(s@, i as int),
            forall|k: int| i <= k < end ==> is_digit(#[trigger] s[k]),
        decreases i,
    {
        i -= 1;
    }
    assert forall|k: int| 0 <= k < end - i implies is_digit(
        #[trigger] s@.subrange(i as int, end as int)[k],
    ) by {
        assert(s@.subrange(i as int, end as int)[k] == s[i + k]);
    }
    i
}

/// Whether the four characters before `end` are `a`, `b`, `c`, `d`.
fn four_before(s: &Vec<char>, end: usize, a: char, b: char, c: char, d: char) -> (r: bool)
    requires
        4 <= end <= s.len(),
    ensures
        r == (s@.subrange(end - 4, end as int) == seq![a, b, c, d]),
{
    let r = s[end - 4] == a && s[end - 3] == b && s[end - 2] == c && s[end - 1] == d;
    proof {
        let part = s@.subrange(end - 4, end as int);
        assert(part[0] == s[end - 4] && part[1] == s[end - 3] && part[2] == s[end - 2] && part[3]
            == s[end - 1]);
        if r {
            assert(part =~= seq![a, b, c, d]);
        }
    }
    r
}

/// Whether the line ends like a mask.
fn is_mask_line(s: &Vec<char>) -> (r: bool)
    ensures
        r == ends_as_mask(s@),
{
    let n = s.len();
    if n < 43 {
        return false;
    }
    proof {
        reveal_strlit("mask = ");
    }
    let head = s[n - 43] == 'm' && s[n - 42] == 'a' && s[n - 41] == 's' && s[n - 40] == 'k' && s[n
        - 39] == ' ' && s[n - 38] == '=' && s[n - 37] == ' ';
    proof {
        let part = s@.subrange(n - 43, n - 36);
        assert(part[0] == s[n - 43] && part[1] == s[n - 42] && part[2] == s[n - 41] && part[3]
            == s[n - 40] && part[4] == s[n - 39] && part[5] == s[n - 38] && part[6] == s[n - 37]);
        if head {
            assert(part =~= "mask = "@);
        }
    }
    if !head {
        return false;
    }
    let mut i: usize = n - 36;
    while i < n
        invariant
            n - 36 <= i <= n,
            n == s.len(),
            forall|k: int| n - 36 <= k < i ==> is_mask_char(#[trigger] s[k]),
        decreases n - i,
    {
        let c = s[i];
        if !(c == '0' || c == '1' || c == 'X') {
            return false;
        }
        i += 1;
    }
    true
}

/// Reads one line of a program.
pub fn parse_line(s: &str) -> (r: Result<Operation, LineFault>)
    ensures
        r is Ok <==> line_meaning(s@) is Ok,
        r matches Ok(op) ==> says(op, s@, line_meaning(s@)->Ok_0),
        r matches Err(e) ==> line_meaning(s@) == Err::<(Seq<char>, int, int), LineFault>(e),
{
    let chars = chars_of(s);
    let n = chars.len();
    if is_mask_line(&chars) {
        let mask = s.substring_char(n - 36, n);
        return Ok(Operation::SetMask(String::from_str(mask)));
    }
    proof {
        reveal_strlit("] = ");
        reveal_strlit("mem[");
        assert("] = "@ =~= seq![']', ' ', '=', ' ']);
        assert("mem["@ =~= seq!['m', 'e', 'm', '[']);
    }
    let v = find_digits_start(&chars, n);
    if v >= n || v < 4 || !four_before(&chars, v, ']', ' ', '=', ' ') {
        return Err(LineFault::Unrecognised);
    }
    let a = find_digits_start(&chars, v - 4);
    if a >= v - 4 || a < 4 || !four_before(&chars, a, 'm', 'e', 'm', '[') {
        return Err(LineFault::Unrecognised);
    }
    let addr = match read_decimal(&chars, a, v - 4, 0x7fff_ffff_ffff_ffff) {
        Some(addr) => addr as i64,
        None => {
            return Err(LineFault::InvalidAddress);
        },
    };
    let val = match read_decimal(&chars, v, n, 0x7fff_ffff_ffff_ffff) {
        Some(val) => val as i64,
        None => {
            return Err(LineFault::InvalidValue);
        },
    };
    Ok(Operation::Store(addr, val))
}

/// The first line that is no operation, if there is one among the first `n`.
pub open spec fn first_fault(lines: Seq<String>, n: int) -> Option<(int, LineFault)>
    decreases n,
{
    if n <= 0 {
        None
    } else if first_fault(lines, n - 1) is Some {
        first_fault(lines, n - 1)
    } else {
        match line_meaning(lines[n - 1]@) {
            Ok(_) => None,
            Err(e) => Some((n - 1, e)),
        }
    }
}

/// Reads a program from its lines.  Fails at the first line that is no
/// operation, with the number of that line, counted from 0.
pub fn read_input(lines: &Vec<String>) -> (r: Result<Vec<Operation>, (usize, LineFault)>)
    ensures
        r is Ok <==> first_fault(lines@, lines@.len() as int) is None,
        r matches Err(e) ==> first_fault(lines@, lines@.len() as int) == Some((e.0 as int, e.1)),
        r matches Ok(ops) ==> ops@.len() == lines@.len() && forall|i: int|
            0 <= i < ops@.len() ==> says(
                #[trigger] ops@[i],
                lines@[i]@,
                line_meaning(lines@[i]@)->Ok_0,
            ),
{
    let mut ops: Vec<Operation> = Vec::new();
    let mut i: usize = 0;
    while i < lines.len()
        invariant
            0 <= i <= lines@.len(),
            first_fault(lines@, i as int) is None,
            ops@.len() == i,
            forall|k: int|
                0 <= k < i ==> says(#[trigger] ops@[k], lines@[k]@, line_meaning(lines@[k]@)->Ok_0),
        decreases lines@.len() - i,
    {
        match parse_line(lines[i].as_str()) {
            Ok(op) => {
                ops.push(op);
            },
            Err(e) => {
                proof {
                    lemma_fault_sticks(lines@, i + 1, lines@.len() as int);
                }
                return Err((i, e));
            },
        }
        i += 1;
    }
    Ok(ops)
}

/// Once a faulty line was found, the lines after it change nothing.
pub proof fn lemma_fault_sticks(lines: Seq<String>, n: int, m: int)
    requires
        0 <= n <= m,
        first_fault(lines, n) is Some,
    ensures
        first_fault(lines, m) == first_fault(lines, n),
    decreases m - n,
{
    if n < m {
        lemma_fault_sticks(lines, n, m - 1);
    }
}

/// Why a program cannot be run.
#[derive(Debug, Clone, Copy, PartialEq, Eq, Structural)]
pub enum ExecError {
    /// A mask is longer than 63 characters or holds a character that is
    /// none of `0`, `1`, `X`.
    BadMask,
    /// The sum of the memory does not fit in 64 bits with a sign.
    Overflow,
}

/// The two masks that a mask text stands for, made of its first `n`
/// characters from the right: the bits of its `X`, and the bits of its `1`.
pub open spec fn masks_of(mask: Seq<char>, n: int) -> (i64, i64)
    decreases n,
{
    if n <= 0 {
        (0i64, 0i64)
    } else {
        let (x_bits, one_bits) = masks_of(mask, n - 1);
        let bit = 1i64 << ((n - 1) as i64);
        let ch = mask[mask.len() - n];
        if ch == 'X' {
            (x_bits | bit, one_bits)
        } else if ch == '1' {
            (x_bits, one_bits | bit)
        } else {
            (x_bits, one_bits)
        }
    }
}

/// Whether a mask text can be used.
pub open spec fn mask_ok(mask: Seq<char>) -> bool {
    mask.len() <= 63 && forall|i: int| 0 <= i < mask.len() ==> is_mask_char(#[trigger] mask[i])
}

/// The bits of the `X` of a mask text and the bits of its `1`.
pub fn read_masks(mask: &str) -> (r: Option<(i64, i64)>)
    ensures
        r is Some <==> mask_ok(mask@),
        r matches Some(found) ==> found == masks_of(mask@, mask@.len() as int),
{
    let chars = chars_of(mask);
    let n = chars.len();
    if n > 63 {
        return None;
    }
    let mut x_bits: i64 = 0;
    let mut one_bits: i64 = 0;
    let mut bitpos: usize = 0;
    while bitpos < n
        invariant
            0 <= bitpos <= n,
            n == chars@.len(),
            n <= 63,
            chars@ == mask@,
            (x_bits, one_bits) == masks_of(mask@, bitpos as int),
            forall|i: int| n - bitpos <= i < n ==> is_mask_char(#[trigger] chars@[i]),
        decreases n - bitpos,
    {
        let ch = chars[n - 1 - bitpos];
        let bit: i64 = 1i64 << (bitpos as i64);
        if ch == 'X' {
            x_bits = x_bits | bit;
        } else if ch == '1' {
            one_bits = one_bits | bit;
        } else if ch != '0' {
            assert(!is_mask_char(chars@[n - 1 - bitpos]));
            return None;
        }
        bitpos += 1;
    }
    Some((x_bits, one_bits))
}

/// The memory and the masks while a program runs, with the sum of the
/// memory.
pub struct Machine {
    pub memory: Map<i64, i64>,
    pub total: int,
    pub x_bits: i64,
    pub one_bits: i64,
}

/// The machine after `value` was written to `address`: the sum loses what
/// stood there and gains the value.
pub open spec fn written(m: Machine, address: i64, value: i64) -> Machine {
    Machine {
        memory: m.memory.insert(address, value),
        total: m.total - (if m.memory.contains_key(address) {
            m.memory[address] as int
        } else {
            0
        }) + value,
        ..m
    }
}

/// Whether the sum is so far from the ends of the range in which it is
/// kept that one more value can be taken in.
pub open spec fn roomy(total: int) -> bool {
    i128::MIN + 0x1_0000_0000_0000_0000 <= total <= i128::MAX - 0x1_0000_0000_0000_0000
}

/// The machine after a write, if the sum can take it in.
pub open spec fn stored(m: Machine, address: i64, value: i64) -> Result<Machine, ExecError> {
    if roomy(m.total) {
        Ok(written(m, address, value))
    } else {
        Err(ExecError::Overflow)
    }
}

/// The machine after one operation of the first kind of machine: a store
/// writes the value with the bits of the `1` of the mask set and the bits of
/// its `0` cleared.
pub open spec fn step_v1(m: Machine, op: Operation) -> Result<Machine, ExecError> {
    match op {
        Operation::SetMask(text) => if mask_ok(text@) {
            Ok(
                Machine {
                    x_bits: masks_of(text@, text@.len() as int).0,
                    one_bits: masks_of(text@, text@.len() as int).1,
                    ..m
                },
            )
        } else {
            Err(ExecError::BadMask)
        },
        Operation::Store(addr, val) => stored(m, addr, (val & (m.x_bits | m.one_bits)) | m.one_bits),
    }
}

/// The machine of the first kind after the first `n` operations, or the
/// first failure.
pub open spec fn run_v1(ops: Seq<Operation>, n: int) -> Result<Machine, ExecError>
    decreases n,
{
    if n <= 0 {
        Ok(Machine { memory: Map::empty(), total: 0, x_bits: 0, one_bits: 0 })
    } else {
        match run_v1(ops, n - 1) {
            Ok(m) => step_v1(m, ops[n - 1]),
            Err(e) => Err(e),
        }
    }
}

/// The sum of the memory of a machine that ran to the end, if it fits in
/// 64 bits with a sign.
pub open spec fn outcome(end: Result<Machine, ExecError>) -> Result<i64, ExecError> {
    match end {
        Ok(m) => if i64::MIN <= m.total <= i64::MAX {
            Ok(m.total as i64)
        } else {
            Err(ExecError::Overflow)
        },
        Err(e) => Err(e),
    }
}

/// Nothing that follows can mend a program that went wrong.
pub proof fn lemma_run_v1_sticks(ops: Seq<Operation>, n: int, m: int)
    requires
        0 <= n <= m,
        run_v1(ops, n) is Err,
    ensures
        run_v1(ops, m) == run_v1(ops, n),
    decreases m - n,
{
    if n < m {
        lemma_run_v1_sticks(ops, n, m - 1);
    }
}

/// Writes `value` to `address` and keeps the sum of the memory up to date.
/// `None` when the sum leaves the range in which it is kept.
fn write(data: &mut HashMap<i64, i64>, total: i128, address: i64, value: i64) -> (r: Option<i128>)
    ensures
        final(data)@ == old(data)@.insert(address, value),
        r matches Some(sum) ==> sum == total - (if old(data)@.contains_key(address) {
            old(data)@[address] as int
        } else {
            0
        }) + value,
        r is None <==> !roomy(total as int),
{
    broadcast use vstd::std_specs::hash::group_hash_axioms;

    let before: i64 = match data.get(&address) {
        Some(v) => *v,
        None => 0,
    };
    data.insert(address, value);
    if total < i128::MIN + 0x1_0000_0000_0000_0000 || total > i128::MAX - 0x1_0000_0000_0000_0000 {
        return None;
    }
    Some(total - before as i128 + value as i128)
}

/// Runs a program on the first kind of machine and gives the sum of its
/// memory.
pub fn execute_v1(operations: &Vec<Operation>) -> (r: Result<i64, ExecError>)
    ensures
        r == outcome(run_v1(operations@, operations@.len() as int)),
{
    let mut data: HashMap<i64, i64> = HashMap::new();
    let mut total: i128 = 0;
    let mut or_mask: i64 = 0;
    let mut and_mask: i64 = 0;
    let ghost mut x_bits: i64 = 0;
    let mut i: usize = 0;
    assert(0i64 | 0i64 == 0i64) by (bit_vector);
    while i < operations.len()
        invariant
            0 <= i <= operations@.len(),
            and_mask == x_bits | or_mask,
            run_v1(operations@, i as int) == Ok::<Machine, ExecError>(
                Machine { memory: data@, total: total as int, x_bits, one_bits: or_mask },
            ),
        decreases operations@.len() - i,
    {
        match &operations[i] {
            Operation::SetMask(s) => {
                match read_masks(s.as_str()) {
                    Some((x, ones)) => {
                        or_mask = ones;
                        and_mask = x | ones;
                        proof {
                            x_bits = x;
                        }
                    },
                    None => {
                        proof {
                            lemma_run_v1_sticks(operations@, i + 1, operations@.len() as int);
                        }
                        return Err(ExecError::BadMask);
                    },
                }
            },
            Operation::Store(addr, val) => {
                let v = (*val & and_mask) | or_mask;
                match write(&mut data, total, *addr, v) {
                    Some(sum) => {
                        total = sum;
                    },
                    None => {
                        proof {
                            lemma_run_v1_sticks(operations@, i + 1, operations@.len() as int);
                        }
                        return Err(ExecError::Overflow);
                    },
                }
            },
        }
        i += 1;
    }
    if total < i64::MIN as i128 || total > i64::MAX as i128 {
        return Err(ExecError::Overflow);
    }
    Ok(total as i64)
}

/// Every address twice: once with the bit cleared and once with it set.
pub open spec fn both_ways(locs: Seq<i64>, bit: i64, n: int) -> Seq<i64>
    decreases n,
{
    if n <= 0 {
        Seq::empty()
    } else {
        both_ways(locs, bit, n - 1).push(locs[n - 1] & !bit).push(locs[n - 1] | bit)
    }
}

/// The addresses that a store of the second kind of machine writes to: the
/// address with the bits of the `1` of the mask set, and for each `X` of the
/// mask among the lowest `n` bits both ways to put that bit.
pub open spec fn floating(address: i64, x_bits: i64, n: int) -> Seq<i64>
    decreases n,
{
    if n <= 0 {
        seq![address]
    } else if x_bits & (1i64 << ((n - 1) as i64)) != 0 {
        both_ways(
            floating(address, x_bits, n - 1),
            1i64 << ((n - 1) as i64),
            floating(address, x_bits, n - 1).len() as int,
        )
    } else {
        floating(address, x_bits, n - 1)
    }
}

/// The machine after `value` was written to the first `n` of `locs`, one
/// after the other.
pub open spec fn stored_all(m: Machine, locs: Seq<i64>, n: int, value: i64) -> Result<
    Machine,
    ExecError,
>
    decreases n,
{
    if n <= 0 {
        Ok(m)
    } else {
        match stored_all(m, locs, n - 1, value) {
            Ok(before) => stored(before, locs[n - 1], value),
            Err(e) => Err(e),
        }
    }
}

/// Once the sum has left its range, further writes change nothing.
pub proof fn lemma_stored_all_sticks(m: Machine, locs: Seq<i64>, n: int, k: int, value: i64)
    requires
        0 <= n <= k,
        stored_all(m, locs, n, value) is Err,
    ensures
        stored_all(m, locs, k, value) == stored_all(m, locs, n, value),
    decreases k - n,
{
    if n < k {
        lemma_stored_all_sticks(m, locs, n, k - 1, value);
    }
}

/// The machine after one operation of the second kind of machine: a store
/// writes the value as it is to every address that the mask lets the address
/// float to.  The lowest 37 bits may float.
pub open spec fn step_v2(m: Machine, op: Operation) -> Result<Machine, ExecError> {
    match op {
        Operation::SetMask(text) => if mask_ok(text@) {
            Ok(
                Machine {
                    x_bits: masks_of(text@, text@.len() as int).0,
                    one_bits: masks_of(text@, text@.len() as int).1,
                    ..m
                },
            )
        } else {
            Err(ExecError::BadMask)
        },
        Operation::Store(addr, val) => stored_all(
            m,
            floating(addr | m.one_bits, m.x_bits, 37),
            floating(addr | m.one_bits, m.x_bits, 37).len() as int,
            val,
        ),
    }
}

/// The machine of the second kind after the first `n` operations, or the
/// first failure.
pub open spec fn run_v2(ops: Seq<Operation>, n: int) -> Result<Machine, ExecError>
    decreases n,
{
    if n <= 0 {
        Ok(Machine { memory: Map::empty(), total: 0, x_bits: 0, one_bits: 0 })
    } else {
        match run_v2(ops, n - 1) {
            Ok(m) => step_v2(m, ops[n - 1]),
            Err(e) => Err(e),
        }
    }
}

/// Nothing that follows can mend a program that went wrong.
pub proof fn lemma_run_v2_sticks(ops: Seq<Operation>, n: int, m: int)
    requires
        0 <= n <= m,
        run_v2(ops, n) is Err,
    ensures
        run_v2(ops, m) == run_v2(ops, n),
    decreases m - n,
{
    if n < m {
        lemma_run_v2_sticks(ops, n, m - 1);
    }
}

/// The addresses that `address` floats to under the mask `float_mask`.
pub fn floating_addresses(address: i64, float_mask: i64) -> (r: Vec<i64>)
    ensures
        r@ == floating(address, float_mask, 37),
{
    let mut locations: Vec<i64> = Vec::new();
    locations.push(address);
    assert(locations@ =~= seq![address]);
    let mut bitnum: usize = 0;
    while bitnum <= 36
        invariant
            0 <= bitnum <= 37,
            locations@ == floating(address, float_mask, bitnum as int),
        decreases 37 - bitnum,
    {
        let mask: i64 = 1i64 << (bitnum as i64);
        if (float_mask & mask) != 0 {
            let mut updated: Vec<i64> = Vec::new();
            let mut k: usize = 0;
            while k < locations.len()
                invariant
                    0 <= k <= locations@.len(),
                    updated@ == both_ways(locations@, mask, k as int),
                decreases locations@.len() - k,
            {
                let loc = locations[k];
                updated.push(loc & !mask);
                updated.push(loc | mask);
                k += 1;
            }
            locations = updated;
        }
        bitnum += 1;
    }
    locations
}

/// Runs a program on the second kind of machine and gives the sum of its
/// memory.
pub fn execute_v2(operations: &Vec<Operation>) -> (r: Result<i64, ExecError>)
    ensures
        r == outcome(run_v2(operations@, operations@.len() as int)),
{
    let mut data: HashMap<i64, i64> = HashMap::new();
    let mut total: i128 = 0;
    let mut or_mask: i64 = 0;
    let mut float_mask: i64 = 0;
    let mut i: usize = 0;
    while i < operations.len()
        invariant
            0 <= i <= operations@.len(),
            run_v2(operations@, i as int) == Ok::<Machine, ExecError>(
                Machine {
                    memory: data@,
                    total: total as int,
                    x_bits: float_mask,
                    one_bits: or_mask,
                },
            ),
        decreases operations@.len() - i,
    {
        match &operations[i] {
            Operation::SetMask(s) => {
                match read_masks(s.as_str()) {
                    Some((x, ones)) => {
                        or_mask = ones;
                        float_mask = x;
                    },
                    None => {
                        proof {
                            lemma_run_v2_sticks(operations@, i + 1, operations@.len() as int);
                        }
                        return Err(ExecError::BadMask);
                    },
                }
            },
            Operation::Store(addr, val) => {
                let locations = floating_addresses(*addr | or_mask, float_mask);
                let ghost start = Machine {
                    memory: data@,
                    total: total as int,
                    x_bits: float_mask,
                    one_bits: or_mask,
                };
                let mut k: usize = 0;
                while k < locations.len()
                    invariant
                        0 <= k <= locations@.len(),
                        0 <= i < operations@.len(),
                        locations@ == floating(*addr | or_mask, float_mask, 37),
                        operations@[i as int] == Operation::Store(*addr, *val),
                        run_v2(operations@, i as int) == Ok::<Machine, ExecError>(start),
                        start.x_bits == float_mask,
                        start.one_bits == or_mask,
                        stored_all(start, locations@, k as int, *val) == Ok::<Machine, ExecError>(
                            Machine {
                                memory: data@,
                                total: total as int,
                                x_bits: float_mask,
                                one_bits: or_mask,
                            },
                        ),
                    decreases locations@.len() - k,
                {
                    match write(&mut data, total, locations[k], *val) {
                        Some(sum) => {
                            total = sum;
                        },
                        None => {
                            proof {
                                lemma_stored_all_sticks(
                                    start,
                                    locations@,
                                    k + 1,
                                    locations@.len() as int,
                                    *val,
                                );
                                lemma_run_v2_sticks(operations@, i + 1, operations@.len() as int);
                            }
                            return Err(ExecError::Overflow);
                        },
                    }
                    k += 1;
                }
            },
        }
        i += 1;
    }
    if total < i64::MIN as i128 || total > i64::MAX as i128 {
        return Err(ExecError::Overflow);
    }
    Ok(total as i64)
}

} // verus!
