use vstd::prelude::*;

use crate::instruction::Instruction;

verus! {

// ---------------------------------------------------------------------------
// Byte classification
// ---------------------------------------------------------------------------

/// ASCII whitespace, as the source grammar understands it.
pub open spec fn is_space(b: u8) -> bool {
    b == 32 || b == 9 || b == 10 || b == 11 || b == 12 || b == 13
}

/// The value of `b` as a hexadecimal digit, or 16 when it is none.
pub open spec fn hex_digit_val(b: u8) -> nat {
    if 48 <= b <= 57 {
        (b - 48) as nat
    } else if 97 <= b <= 102 {
        (b - 87) as nat
    } else if 65 <= b <= 70 {
        (b - 55) as nat
    } else {
        16
    }
}

/// Whether `b` is a digit of the given base (2, 10 or 16).
pub open spec fn is_base_digit(b: u8, base: nat) -> bool {
    hex_digit_val(b) < base
}

/// Whether every byte of `s` is a digit of the given base.
pub open spec fn all_base_digits(s: Seq<u8>, base: nat) -> bool {
    forall|i: int| 0 <= i < s.len() ==> #[trigger] is_base_digit(s[i], base)
}

/// The numeric value of the digit string `s` in the given base.
pub open spec fn base_val(s: Seq<u8>, base: nat) -> nat
    decreases s.len(),
{
    if s.len() == 0 {
        0
    } else {
        base_val(s.drop_last(), base) * base + hex_digit_val(s.last())
    }
}

/// `b` with ASCII lower-case letters folded to upper case.
pub open spec fn upper_byte(b: u8) -> u8 {
    if 97 <= b <= 122 {
        (b - 32) as u8
    } else {
        b
    }
}

/// `s` with ASCII lower-case letters folded to upper case.
pub open spec fn spec_upper(s: Seq<u8>) -> Seq<u8> {
    Seq::new(s.len(), |i: int| upper_byte(s[i]))
}

// ---------------------------------------------------------------------------
// Scanning
// ---------------------------------------------------------------------------

/// Index of the first occurrence of the byte pair `a b` at or after `i`, or
/// `s.len()` when there is none.
pub open spec fn pair_idx(s: Seq<u8>, a: u8, b: u8, i: nat) -> nat
    decreases s.len() - i,
{
    if i + 2 > s.len() {
        s.len()
    } else if s[i as int] == a && s[i as int + 1] == b {
        i
    } else {
        pair_idx(s, a, b, i + 1)
    }
}

/// Whether the byte pair `a b` occurs anywhere in `s`.
pub open spec fn contains_pair(s: Seq<u8>, a: u8, b: u8) -> bool {
    pair_idx(s, a, b, 0) < s.len()
}

/// A line truncated at its inline comment marker `;;`.
pub open spec fn strip_comment(line: Seq<u8>) -> Seq<u8> {
    line.take(pair_idx(line, 59, 59, 0) as int)
}

/// Whether a line is blank: empty or whitespace only.
pub open spec fn is_blank(line: Seq<u8>) -> bool {
    forall|i: int| 0 <= i < line.len() ==> is_space(#[trigger] line[i])
}

/// Index of the first whitespace byte at or after `i`, or `s.len()`.
pub open spec fn first_space_idx(s: Seq<u8>, i: nat) -> nat
    decreases s.len() - i,
{
    if i < s.len() && !is_space(s[i as int]) {
        first_space_idx(s, i + 1)
    } else {
        i
    }
}

/// Index of the first non-whitespace byte at or after `i`, or `s.len()`.
pub open spec fn ltrim_idx(s: Seq<u8>, i: nat) -> nat
    decreases s.len() - i,
{
    if i < s.len() && is_space(s[i as int]) {
        ltrim_idx(s, i + 1)
    } else {
        i
    }
}

/// Index just past the last non-whitespace byte strictly below `j`, or 0.
pub open spec fn rtrim_idx(s: Seq<u8>, j: nat) -> nat
    decreases j,
{
    if j > 0 && is_space(s[j as int - 1]) {
        rtrim_idx(s, (j - 1) as nat)
    } else {
        j
    }
}

/// `s` with leading and trailing whitespace removed.
pub open spec fn trim(s: Seq<u8>) -> Seq<u8> {
    let l = ltrim_idx(s, 0);
    let r = rtrim_idx(s, s.len());
    if l <= r {
        s.subrange(l as int, r as int)
    } else {
        Seq::empty()
    }
}

/// Whether `s` contains a plain space byte; this is what separates the
/// one-token instruction form from the mnemonic-and-operand form.
pub open spec fn contains_space_byte(s: Seq<u8>) -> bool {
    exists|i: int| 0 <= i < s.len() && s[i] == 32u8
}

/// `s` with every leading repetition of the byte pair `a b` removed.
pub open spec fn strip_pairs(s: Seq<u8>, a: u8, b: u8) -> Seq<u8>
    decreases s.len(),
{
    if s.len() >= 2 && s[0] == a && s[1] == b {
        strip_pairs(s.skip(2), a, b)
    } else {
        s
    }
}

// ---------------------------------------------------------------------------
// Mnemonic tables
// ---------------------------------------------------------------------------

/// The operand-bearing mnemonic table, on upper-cased text: the opcode byte
/// emitted when the mnemonic's operand is a label name.  Unknown mnemonics
/// fall back to opcode 0.
pub open spec fn mnem_opcode(m: Seq<u8>) -> u8 {
    if m == seq![69u8, 88u8, 73u8, 84u8] {
        0x11
    } else if m == seq![83u8, 84u8, 65u8] {
        0x02
    } else if m == seq![76u8, 68u8, 65u8] {
        0x01
    } else if m == seq![83u8, 69u8, 84u8, 86u8] {
        0x05
    } else if m == seq![83u8, 69u8, 84u8, 65u8] {
        0x06
    } else if m == seq![83u8, 84u8, 82u8] {
        0x07
    } else if m == seq![76u8, 79u8, 65u8, 68u8] {
        0x08
    } else if m == seq![74u8, 77u8, 80u8] {
        0x0B
    } else if m == seq![74u8, 67u8] {
        0x0C
    } else if m == seq![74u8, 90u8] {
        0x0E
    } else if m == seq![74u8, 79u8] {
        0x0F
    } else {
        0
    }
}

/// The operand-bearing mnemonic table with a numeric operand already in
/// hand: the decoded instruction, or `None` for an unknown mnemonic.
pub open spec fn operand_instr(m: Seq<u8>, arg: u8) -> Option<Instruction> {
    if m == seq![76u8, 68u8, 65u8] {
        Some(Instruction::LDA(arg))
    } else if m == seq![83u8, 84u8, 65u8] {
        Some(Instruction::STA(arg))
    } else if m == seq![83u8, 69u8, 84u8, 86u8] {
        Some(Instruction::SETV(arg))
    } else if m == seq![83u8, 69u8, 84u8, 65u8] {
        Some(Instruction::SETA(arg))
    } else if m == seq![83u8, 84u8, 82u8] {
        Some(Instruction::STR(arg))
    } else if m == seq![76u8, 79u8, 65u8, 68u8] {
        Some(Instruction::LOAD(arg))
    } else if m == seq![74u8, 77u8, 80u8] {
        Some(Instruction::JMP(arg))
    } else if m == seq![74u8, 67u8] {
        Some(Instruction::JC(arg))
    } else if m == seq![74u8, 90u8] {
        Some(Instruction::JZ(arg))
    } else if m == seq![74u8, 79u8] {
        Some(Instruction::JO(arg))
    } else if m == seq![69u8, 88u8, 73u8, 84u8] {
        Some(Instruction::EXIT(arg))
    } else {
        None
    }
}

/// The operand-free mnemonic table, on upper-cased text.
pub open spec fn zero_op_instr(m: Seq<u8>) -> Option<Instruction> {
    if m == seq![73u8, 78u8, 67u8] {
        Some(Instruction::INC)
    } else if m == seq![68u8, 69u8, 67u8] {
        Some(Instruction::DEC)
    } else if m == seq![65u8, 68u8, 68u8] {
        Some(Instruction::ADD)
    } else if m == seq![83u8, 85u8, 66u8] {
        Some(Instruction::SUB)
    } else if m == seq![78u8, 79u8, 80u8] {
        Some(Instruction::NOP)
    } else if m == seq![79u8, 85u8, 84u8] {
        Some(Instruction::OUT)
    } else if m == seq![67u8, 76u8, 78u8] {
        Some(Instruction::CLN)
    } else {
        None
    }
}

// ---------------------------------------------------------------------------
// The three-way outcome of parsing one instruction line
// ---------------------------------------------------------------------------

/// What one non-blank, whitespace-led source line parses to: a fully
/// resolved instruction, an opcode waiting for a label's address, or a
/// malformed line carrying the text that failed.
#[derive(Debug, PartialEq, Eq)]
pub enum LineParse {
    Resolved(Instruction),
    PendingLabel(u8, Vec<u8>),
    ParseError(Vec<u8>),
}

/// The mathematical image of a `LineParse`.
pub enum LineParseV {
    Resolved(Instruction),
    PendingLabel(u8, Seq<u8>),
    ParseError(Seq<u8>),
}

impl View for LineParse {
    type V = LineParseV;

    open spec fn view(&self) -> LineParseV {
        match self {
            LineParse::Resolved(i) => LineParseV::Resolved(*i),
            LineParse::PendingLabel(op, name) => LineParseV::PendingLabel(*op, name@),
            LineParse::ParseError(t) => LineParseV::ParseError(t@),
        }
    }
}

/// The numeric-operand outcome shared by the three radix forms: a resolved
/// instruction for a known operand-bearing mnemonic, else a malformed-line
/// report carrying the mnemonic as written.
pub open spec fn numeric_outcome(m: Seq<u8>, um: Seq<u8>, n: u8) -> LineParseV {
    match operand_instr(um, n) {
        Some(i) => LineParseV::Resolved(i),
        None => LineParseV::ParseError(m),
    }
}

/// What a numeric token of the given base parses to: its value when it is a
/// non-empty all-digit string whose value fits in one byte.
pub open spec fn spec_parse_base(s: Seq<u8>, base: nat) -> Option<u8> {
    if s.len() > 0 && all_base_digits(s, base) && base_val(s, base) <= 255 {
        Some(base_val(s, base) as u8)
    } else {
        None
    }
}

/// The grammar of one instruction line (already stripped of its comment and
/// known not to be blank or a label declaration).
///
/// The line is trimmed.  A line without a plain space byte must be an
/// operand-free mnemonic.  Otherwise the first token is the mnemonic and the
/// second the operand: an all-decimal-digit operand is decimal; else one
/// containing `0x` has every leading `0x` stripped and is hexadecimal; else
/// one containing `0b` likewise is binary; anything else is a label name,
/// left for the assembler to resolve against the mnemonic's opcode.
pub open spec fn spec_parse_line(raw: Seq<u8>) -> LineParseV {
    let s = trim(raw);
    if contains_space_byte(s) {
        let m = s.take(first_space_idx(s, 0) as int);
        let rest = ltrim_idx(s, first_space_idx(s, 0));
        let a = s.subrange(rest as int, first_space_idx(s, rest) as int);
        let um = spec_upper(m);
        if all_base_digits(a, 10) {
            match spec_parse_base(a, 10) {
                Some(n) => numeric_outcome(m, um, n),
                None => LineParseV::ParseError(a),
            }
        } else if contains_pair(a, 48, 120) {
            let h = strip_pairs(a, 48, 120);
            match spec_parse_base(h, 16) {
                Some(n) => numeric_outcome(m, um, n),
                None => LineParseV::ParseError(h),
            }
        } else if contains_pair(a, 48, 98) {
            let h = strip_pairs(a, 48, 98);
            match spec_parse_base(h, 2) {
                Some(n) => numeric_outcome(m, um, n),
                None => LineParseV::ParseError(h),
            }
        } else {
            LineParseV::PendingLabel(mnem_opcode(um), a)
        }
    } else {
        match zero_op_instr(spec_upper(s)) {
            Some(i) => LineParseV::Resolved(i),
            None => LineParseV::ParseError(s),
        }
    }
}


// ---------------------------------------------------------------------------
// Executable scanning, proved against the spec functions above
// ---------------------------------------------------------------------------

fn is_space_b(b: u8) -> (r: bool)
    ensures
        r == is_space(b),
{
    b == 32 || b == 9 || b == 10 || b == 11 || b == 12 || b == 13
}

/// Byte-string equality.
pub fn bytes_eq(a: &Vec<u8>, b: &Vec<u8>) -> (r: bool)
    ensures
        r == (a@ == b@),
{
    if a.len() != b.len() {
        return false;
    }
    let mut i: usize = 0;
    while i < a.len()
        invariant
            i <= a@.len(),
            a@.len() == b@.len(),
            forall|j: int| 0 <= j < i ==> a@[j] == b@[j],
        decreases a@.len() - i,
    {
        if a[i] != b[i] {
            return false;
        }
        i += 1;
    }
    proof {
        assert(a@ =~= b@);
    }
    true
}

fn copy_range(v: &Vec<u8>, from: usize, to: usize) -> (r: Vec<u8>)
    requires
        from <= to <= v@.len(),
    ensures
        r@ == v@.subrange(from as int, to as int),
{
    let mut r: Vec<u8> = Vec::new();
    let mut i: usize = from;
    while i < to
        invariant
            from <= i <= to <= v@.len(),
            r@ == v@.subrange(from as int, i as int),
        decreases to - i,
    {
        r.push(v[i]);
        i += 1;
        proof {
            assert(v@.subrange(from as int, i as int)
                =~= v@.subrange(from as int, i - 1).push(v@[i - 1]));
        }
    }
    r
}

fn pair_find_b(v: &Vec<u8>, a: u8, b: u8) -> (r: usize)
    ensures
        r as nat == pair_idx(v@, a, b, 0),
        r <= v@.len(),
{
    let mut i: usize = 0;
    while i < v.len() && i + 1 < v.len()
        invariant
            i <= v@.len(),
            pair_idx(v@, a, b, 0) == pair_idx(v@, a, b, i as nat),
        decreases v@.len() - i,
    {
        if v[i] == a && v[i + 1] == b {
            return i;
        }
        i += 1;
    }
    v.len()
}

fn skip_space(v: &Vec<u8>, from: usize) -> (r: usize)
    requires
        from <= v@.len(),
    ensures
        r as nat == ltrim_idx(v@, from as nat),
        from <= r <= v@.len(),
{
    let mut i: usize = from;
    while i < v.len() && is_space_b(v[i])
        invariant
            from <= i <= v@.len(),
            ltrim_idx(v@, from as nat) == ltrim_idx(v@, i as nat),
        decreases v@.len() - i,
    {
        i += 1;
    }
    i
}

fn skip_nonspace(v: &Vec<u8>, from: usize) -> (r: usize)
    requires
        from <= v@.len(),
    ensures
        r as nat == first_space_idx(v@, from as nat),
        from <= r <= v@.len(),
{
    let mut i: usize = from;
    while i < v.len() && !is_space_b(v[i])
        invariant
            from <= i <= v@.len(),
            first_space_idx(v@, from as nat) == first_space_idx(v@, i as nat),
        decreases v@.len() - i,
    {
        i += 1;
    }
    i
}

fn rscan_space(v: &Vec<u8>) -> (r: usize)
    ensures
        r as nat == rtrim_idx(v@, v@.len()),
        r <= v@.len(),
{
    let mut j: usize = v.len();
    while j > 0 && is_space_b(v[j - 1])
        invariant
            j <= v@.len(),
            rtrim_idx(v@, v@.len()) == rtrim_idx(v@, j as nat),
        decreases j,
    {
        j -= 1;
    }
    j
}

/// A line truncated at its `;;` comment marker, per `strip_comment`.
pub fn strip_comment_b(line: &Vec<u8>) -> (r: Vec<u8>)
    ensures
        r@ == strip_comment(line@),
{
    let k = pair_find_b(line, 59, 59);
    let r = copy_range(line, 0, k);
    proof {
        assert(r@ =~= strip_comment(line@));
    }
    r
}

/// Whether a line is blank, per `is_blank`.
pub fn is_blank_b(line: &Vec<u8>) -> (r: bool)
    ensures
        r == is_blank(line@),
{
    let mut i: usize = 0;
    while i < line.len()
        invariant
            i <= line@.len(),
            forall|j: int| 0 <= j < i ==> is_space(#[trigger] line@[j]),
        decreases line@.len() - i,
    {
        if !is_space_b(line[i]) {
            return false;
        }
        i += 1;
    }
    true
}

/// Leading and trailing whitespace removed, per `trim`.
pub fn trim_b(line: &Vec<u8>) -> (r: Vec<u8>)
    ensures
        r@ == trim(line@),
{
    let l = skip_space(line, 0);
    let rend = rscan_space(line);
    if l <= rend {
        copy_range(line, l, rend)
    } else {
        Vec::new()
    }
}

fn contains_space_b(v: &Vec<u8>) -> (r: bool)
    ensures
        r == contains_space_byte(v@),
{
    let mut i: usize = 0;
    while i < v.len()
        invariant
            i <= v@.len(),
            forall|j: int| 0 <= j < i ==> v@[j] != 32u8,
        decreases v@.len() - i,
    {
        if v[i] == 32 {
            return true;
        }
        i += 1;
    }
    false
}

fn to_upper_b(v: &Vec<u8>) -> (r: Vec<u8>)
    ensures
        r@ == spec_upper(v@),
{
    let mut r: Vec<u8> = Vec::new();
    let mut i: usize = 0;
    while i < v.len()
        invariant
            i <= v@.len(),
            r@.len() == i,
            forall|j: int| 0 <= j < i ==> r@[j] == upper_byte(#[trigger] v@[j]),
        decreases v@.len() - i,
    {
        let b = v[i];
        if 97 <= b && b <= 122 {
            r.push(b - 32);
        } else {
            r.push(b);
        }
        i += 1;
    }
    proof {
        assert(r@ =~= spec_upper(v@));
    }
    r
}

fn strip_pairs_b(v: &Vec<u8>, a: u8, b: u8) -> (r: Vec<u8>)
    ensures
        r@ == strip_pairs(v@, a, b),
{
    let mut i: usize = 0;
    proof {
        assert(v@.skip(0) =~= v@);
    }
    while i < v.len() && i + 1 < v.len() && v[i] == a && v[i + 1] == b
        invariant
            i <= v@.len(),
            strip_pairs(v@, a, b) == strip_pairs(v@.skip(i as int), a, b),
        decreases v@.len() - i,
    {
        i += 2;
        proof {
            assert(v@.skip(i - 2).skip(2) =~= v@.skip(i as int));
        }
    }
    let r = copy_range(v, i, v.len());
    proof {
        assert(r@ =~= v@.skip(i as int));
    }
    r
}

fn digit_val_b(b: u8) -> (r: u8)
    ensures
        r as nat == hex_digit_val(b),
{
    if 48 <= b && b <= 57 {
        b - 48
    } else if 97 <= b && b <= 102 {
        b - 87
    } else if 65 <= b && b <= 70 {
        b - 55
    } else {
        16
    }
}

fn all_base_digits_b(v: &Vec<u8>, base: u8) -> (r: bool)
    ensures
        r == all_base_digits(v@, base as nat),
{
    let mut i: usize = 0;
    while i < v.len()
        invariant
            i <= v@.len(),
            forall|j: int| 0 <= j < i ==> #[trigger] is_base_digit(v@[j], base as nat),
        decreases v@.len() - i,
    {
        if digit_val_b(v[i]) >= base {
            assert(!is_base_digit(v@[i as int], base as nat));
            return false;
        }
        i += 1;
    }
    true
}

proof fn lemma_base_val_take_mono(s: Seq<u8>, base: nat, i: int)
    requires
        0 <= i <= s.len(),
        base >= 1,
    ensures
        base_val(s.take(i), base) <= base_val(s, base),
    decreases s.len(),
{
    if i == s.len() {
        assert(s.take(i) =~= s);
    } else {
        let d = s.drop_last();
        lemma_base_val_take_mono(d, base, i);
        assert(d.take(i) =~= s.take(i));
        assert(base_val(d, base) * base >= base_val(d, base) * 1) by (nonlinear_arith)
            requires
                base >= 1,
        ;
    }
}

fn base_value_b(v: &Vec<u8>, base: u8) -> (r: Option<u8>)
    requires
        2 <= base <= 16,
    ensures
        r == spec_parse_base(v@, base as nat),
{
    if v.len() == 0 {
        return None;
    }
    if !all_base_digits_b(v, base) {
        return None;
    }
    let mut acc: u16 = 0;
    let mut i: usize = 0;
    while i < v.len()
        invariant
            i <= v@.len(),
            2 <= base <= 16,
            acc <= 255,
            acc as nat == base_val(v@.take(i as int), base as nat),
            all_base_digits(v@, base as nat),
            v@.len() > 0,
        decreases v@.len() - i,
    {
        let d = digit_val_b(v[i]);
        proof {
            assert(acc as int * (base as int) <= 255 * 16) by (nonlinear_arith)
                requires
                    acc <= 255,
                    base <= 16,
            ;
        }
        let next: u16 = acc * (base as u16) + (d as u16);
        proof {
            assert(v@.take(i + 1).drop_last() =~= v@.take(i as int));
            assert(v@.take(i + 1).last() == v@[i as int]);
        }
        if next > 255 {
            proof {
                lemma_base_val_take_mono(v@, base as nat, i + 1);
            }
            return None;
        }
        acc = next;
        i += 1;
    }
    proof {
        assert(v@.take(v@.len() as int) =~= v@);
    }
    Some(acc as u8)
}

fn eq2(v: &Vec<u8>, a: u8, b: u8) -> (r: bool)
    ensures
        r == (v@ == seq![a, b]),
{
    let r = v.len() == 2 && v[0] == a && v[1] == b;
    proof {
        if r {
            assert(v@ =~= seq![a, b]);
        }
    }
    r
}

fn eq3(v: &Vec<u8>, a: u8, b: u8, c: u8) -> (r: bool)
    ensures
        r == (v@ == seq![a, b, c]),
{
    let r = v.len() == 3 && v[0] == a && v[1] == b && v[2] == c;
    proof {
        if r {
            assert(v@ =~= seq![a, b, c]);
        }
    }
    r
}

fn eq4(v: &Vec<u8>, a: u8, b: u8, c: u8, d: u8) -> (r: bool)
    ensures
        r == (v@ == seq![a, b, c, d]),
{
    let r = v.len() == 4 && v[0] == a && v[1] == b && v[2] == c && v[3] == d;
    proof {
        if r {
            assert(v@ =~= seq![a, b, c, d]);
        }
    }
    r
}

fn mnem_opcode_b(um: &Vec<u8>) -> (r: u8)
    ensures
        r == mnem_opcode(um@),
{
    if eq4(um, 69, 88, 73, 84) {
        0x11
    } else if eq3(um, 83, 84, 65) {
        0x02
    } else if eq3(um, 76, 68, 65) {
        0x01
    } else if eq4(um, 83, 69, 84, 86) {
        0x05
    } else if eq4(um, 83, 69, 84, 65) {
        0x06
    } else if eq3(um, 83, 84, 82) {
        0x07
    } else if eq4(um, 76, 79, 65, 68) {
        0x08
    } else if eq3(um, 74, 77, 80) {
        0x0B
    } else if eq2(um, 74, 67) {
        0x0C
    } else if eq2(um, 74, 90) {
        0x0E
    } else if eq2(um, 74, 79) {
        0x0F
    } else {
        0
    }
}

fn operand_instr_b(um: &Vec<u8>, arg: u8) -> (r: Option<Instruction>)
    ensures
        r == operand_instr(um@, arg),
{
    if eq3(um, 76, 68, 65) {
        Some(Instruction::LDA(arg))
    } else if eq3(um, 83, 84, 65) {
        Some(Instruction::STA(arg))
    } else if eq4(um, 83, 69, 84, 86) {
        Some(Instruction::SETV(arg))
    } else if eq4(um, 83, 69, 84, 65) {
        Some(Instruction::SETA(arg))
    } else if eq3(um, 83, 84, 82) {
        Some(Instruction::STR(arg))
    } else if eq4(um, 76, 79, 65, 68) {
        Some(Instruction::LOAD(arg))
    } else if eq3(um, 74, 77, 80) {
        Some(Instruction::JMP(arg))
    } else if eq2(um, 74, 67) {
        Some(Instruction::JC(arg))
    } else if eq2(um, 74, 90) {
        Some(Instruction::JZ(arg))
    } else if eq2(um, 74, 79) {
        Some(Instruction::JO(arg))
    } else if eq4(um, 69, 88, 73, 84) {
        Some(Instruction::EXIT(arg))
    } else {
        None
    }
}

fn zero_op_b(um: &Vec<u8>) -> (r: Option<Instruction>)
    ensures
        r == zero_op_instr(um@),
{
    if eq3(um, 73, 78, 67) {
        Some(Instruction::INC)
    } else if eq3(um, 68, 69, 67) {
        Some(Instruction::DEC)
    } else if eq3(um, 65, 68, 68) {
        Some(Instruction::ADD)
    } else if eq3(um, 83, 85, 66) {
        Some(Instruction::SUB)
    } else if eq3(um, 78, 79, 80) {
        Some(Instruction::NOP)
    } else if eq3(um, 79, 85, 84) {
        Some(Instruction::OUT)
    } else if eq3(um, 67, 76, 78) {
        Some(Instruction::CLN)
    } else {
        None
    }
}

fn numeric_outcome_b(m: Vec<u8>, um: &Vec<u8>, n: u8) -> (r: LineParse)
    ensures
        r@ == numeric_outcome(m@, um@, n),
{
    match operand_instr_b(um, n) {
        Some(i) => LineParse::Resolved(i),
        None => LineParse::ParseError(m),
    }
}

/// Parse one non-blank, whitespace-led source line into its three-way
/// outcome, exactly as `spec_parse_line` states the grammar.
pub fn parse_line(line: &Vec<u8>) -> (r: LineParse)
    ensures
        r@ == spec_parse_line(line@),
{
    let s = trim_b(line);
    if contains_space_b(&s) {
        let k1 = skip_nonspace(&s, 0);
        let rest = skip_space(&s, k1);
        let k2 = skip_nonspace(&s, rest);
        let m = copy_range(&s, 0, k1);
        let a = copy_range(&s, rest, k2);
        let um = to_upper_b(&m);
        proof {
            assert(m@ =~= trim(line@).take(first_space_idx(trim(line@), 0) as int));
        }
        if all_base_digits_b(&a, 10) {
            match base_value_b(&a, 10) {
                Some(n) => numeric_outcome_b(m, &um, n),
                None => LineParse::ParseError(a),
            }
        } else if contains_pair_b(&a, 48, 120) {
            let h = strip_pairs_b(&a, 48, 120);
            match base_value_b(&h, 16) {
                Some(n) => numeric_outcome_b(m, &um, n),
                None => LineParse::ParseError(h),
            }
        } else if contains_pair_b(&a, 48, 98) {
            let h = strip_pairs_b(&a, 48, 98);
            match base_value_b(&h, 2) {
                Some(n) => numeric_outcome_b(m, &um, n),
                None => LineParse::ParseError(h),
            }
        } else {
            LineParse::PendingLabel(mnem_opcode_b(&um), a)
        }
    } else {
        let us = to_upper_b(&s);
        match zero_op_b(&us) {
            Some(i) => LineParse::Resolved(i),
            None => LineParse::ParseError(s),
        }
    }
}

fn contains_pair_b(v: &Vec<u8>, a: u8, b: u8) -> (r: bool)
    ensures
        r == contains_pair(v@, a, b),
{
    let k = pair_find_b(v, a, b);
    k < v.len()
}

} // verus!
