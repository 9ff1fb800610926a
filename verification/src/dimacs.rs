//! Formulas as DIMACS CNF text.
//!
//! A text is read line by line. A line that begins with `c` is a comment,
//! and a line that begins with `p` is the problem line `p cnf <variables>
//! <clauses>`. Any other line is a clause if it holds one to three nonzero
//! signed numbers and a final `0`, separated by blanks. A line with more
//! such numbers makes the text malformed, and any other line is
//! passed over. The text is a formula if it has one problem line, as many
//! clauses as that line says, and the largest variable that it says.

use vstd::prelude::*;
use vstd::string::StringSliceAdditionalSpecFns;
use crate::clause::{Clause, Literal};
use crate::error::{Error, Reason};
use crate::phi::{bounded, lemma_vars_of, Phi, vars_of};
use crate::solver::Solver;

verus! {

/// The byte of a line break.
pub const LINE_BREAK: u8 = 10;

/// The byte of the digit zero.
pub const ZERO: u8 = 48;

/// The byte of the minus sign.
pub const MINUS: u8 = 45;

/// The byte of the plus sign.
pub const PLUS: u8 = 43;

/// The byte of the letter `c`, which begins a comment.
pub const COMMENT: u8 = 99;

/// The byte of the letter `p`, which begins the problem line.
pub const PROBLEM: u8 = 112;

/// What has been read of a text: the declaration of its problem line, its
/// clauses, and whether a problem line was malformed or came twice or a
/// clause had more than three literals.
pub struct Reading {
    pub header: Option<(usize, usize)>,
    pub clauses: Seq<Clause>,
    pub broken: bool,
}

// What the values mean.

/// A blank: a space, a tab, a line break or another ASCII white space.
pub open spec fn is_blank(b: u8) -> bool {
    b == 32 || (9 <= b <= 13)
}

/// Whether byte `b` separates pieces: line breaks separate lines, blanks
/// separate words.
pub open spec fn separates(lines: bool, b: u8) -> bool {
    if lines {
        b == LINE_BREAK
    } else {
        is_blank(b)
    }
}

/// The pieces of `s` that are complete, and the piece that is still open.
pub open spec fn split(s: Seq<u8>, lines: bool) -> (Seq<Seq<u8>>, Seq<u8>)
    decreases s.len(),
{
    if s.len() == 0 {
        (Seq::empty(), Seq::empty())
    } else {
        let (done, open) = split(s.drop_last(), lines);
        if separates(lines, s.last()) {
            if open.len() > 0 {
                (done.push(open), Seq::empty())
            } else {
                (done, open)
            }
        } else {
            (done, open.push(s.last()))
        }
    }
}

/// The pieces of `s` between separators that are not empty, in order.
pub open spec fn pieces(s: Seq<u8>, lines: bool) -> Seq<Seq<u8>> {
    let (done, open) = split(s, lines);
    if open.len() > 0 {
        done.push(open)
    } else {
        done
    }
}

/// The value of a sequence of decimal digits.
pub open spec fn digits_value(s: Seq<u8>) -> nat
    decreases s.len(),
{
    if s.len() == 0 {
        0
    } else {
        (10 * digits_value(s.drop_last()) + (s.last() - ZERO)) as nat
    }
}

/// Every byte of `s` is a decimal digit.
pub open spec fn all_digits(s: Seq<u8>) -> bool {
    forall|i: int| 0 <= i < s.len() ==> ZERO <= #[trigger] s[i] <= ZERO + 9
}

/// The natural number that `s` writes: one or more decimal digits.
pub open spec fn natural(s: Seq<u8>) -> Option<nat> {
    if s.len() > 0 && all_digits(s) {
        Some(digits_value(s))
    } else {
        None
    }
}

/// The integer that `s` writes: a natural number, with a sign before it or without.
pub open spec fn integer(s: Seq<u8>) -> Option<int> {
    if s.len() > 0 && s[0] == MINUS {
        match natural(s.drop_first()) {
            Some(n) => Some(-(n as int)),
            None => None,
        }
    } else if s.len() > 0 && s[0] == PLUS {
        match natural(s.drop_first()) {
            Some(n) => Some(n as int),
            None => None,
        }
    } else {
        match natural(s) {
            Some(n) => Some(n as int),
            None => None,
        }
    }
}

/// The signed number of a literal that `s` writes: an integer that is not
/// zero and whose magnitude fits.
pub open spec fn literal_code(s: Seq<u8>) -> Option<int> {
    match integer(s) {
        Some(v) => if v != 0 && -isize::MAX <= v <= isize::MAX { Some(v) } else { None },
        None => None,
    }
}

/// The clause that a line writes: one to three literals and a final zero.
pub open spec fn clause_of(line: Seq<u8>) -> Option<Clause> {
    let ws = pieces(line, false);
    if 2 <= ws.len() <= 4 && integer(ws.last()) == Some(0int) && (forall|i: int|
        0 <= i < ws.len() - 1 ==> literal_code(#[trigger] ws[i]) is Some) {
        Some(
            Clause::with_literals(
                Seq::new((ws.len() - 1) as nat, |i: int| Literal::of_code(literal_code(ws[i]).unwrap())),
            ),
        )
    } else {
        None
    }
}

/// The numbers of variables and of clauses that a problem line declares.
pub open spec fn header_of(line: Seq<u8>) -> Option<(usize, usize)> {
    let ws = pieces(line, false);
    if ws.len() == 4 && ws[0] == seq![PROBLEM] && ws[1] == seq![99u8, 110u8, 102u8] {
        match (natural(ws[2]), natural(ws[3])) {
            (Some(variables), Some(clauses)) => {
                if variables <= usize::MAX && clauses <= usize::MAX {
                    Some((variables as usize, clauses as usize))
                } else {
                    None
                }
            },
            _ => None,
        }
    } else {
        None
    }
}

/// The line writes a clause of more than three literals.
pub open spec fn wide_clause(line: Seq<u8>) -> bool {
    let ws = pieces(line, false);
    &&& ws.len() > 4
    &&& integer(ws.last()) == Some(0int)
    &&& forall|i: int| 0 <= i < ws.len() - 1 ==> literal_code(#[trigger] ws[i]) is Some
}

/// What one more line adds to a reading.
pub open spec fn read_line(r: Reading, line: Seq<u8>) -> Reading {
    if line.len() == 0 || line[0] == COMMENT {
        r
    } else if line[0] == PROBLEM {
        match header_of(line) {
            Some(h) => if r.header is None {
                Reading { header: Some(h), ..r }
            } else {
                Reading { broken: true, ..r }
            },
            None => Reading { broken: true, ..r },
        }
    } else {
        match clause_of(line) {
            Some(c) => Reading { clauses: r.clauses.push(c), ..r },
            None => if wide_clause(line) {
                Reading { broken: true, ..r }
            } else {
                r
            },
        }
    }
}

/// The reading of the lines `ls`.
pub open spec fn read(ls: Seq<Seq<u8>>) -> Reading
    decreases ls.len(),
{
    if ls.len() == 0 {
        Reading { header: None, clauses: Seq::empty(), broken: false }
    } else {
        read_line(read(ls.drop_last()), ls.last())
    }
}

/// The formula that a text writes, if it is well formed: one well-formed
/// problem line, as many clauses as it declares, and the largest variable
/// that it declares.
pub open spec fn formula_of(text: Seq<u8>) -> Option<Seq<Clause>> {
    let r = read(pieces(text, true));
    match r.header {
        Some((variables, clauses)) => {
            if !r.broken && r.clauses.len() == clauses && vars_of(r.clauses) == variables {
                Some(r.clauses)
            } else {
                None
            }
        },
        None => None,
    }
}

// The operations.

impl Clause {
    /// The clause that a line of DIMACS text writes: one to three nonzero
    /// signed numbers and a final `0`, separated by blanks. Anything else
    /// is an error, with a message of its own where the line has too few
    /// or too many words for a clause.
    pub fn from_str(s: &str) -> (r: Result<Clause, Error>)
        ensures
            match clause_of(s.spec_bytes()) {
                Some(c) => r == Ok::<Clause, Error>(c),
                None => r matches Err(e) && e.reason == Reason::Malformed && e.message@ == if 2 <= pieces(
                    s.spec_bytes(),
                    false,
                ).len() <= 4 {
                    "Error while parsing clause"@
                } else {
                    "Clause is not 3-SAT or empty"@
                },
            },
    {
        match parse_clause(s.as_bytes()) {
            Some(c) => Ok(c),
            None => {
                let words = split_on(s.as_bytes(), false).len();
                if words > 4 || words < 2 {
                    Err(Error::new("Clause is not 3-SAT or empty"))
                } else {
                    Err(Error::new("Error while parsing clause"))
                }
            },
        }
    }
}

impl Phi {
    /// The formula that a DIMACS CNF text writes.
    ///
    /// Fails if the text has no problem line, a malformed one or more than
    /// one, if a clause has more than three literals, or if the number of
    /// clauses or the largest variable is not what the problem line
    /// declares. Other lines that are neither comments nor clauses are
    /// passed over.
    pub fn from_dimacs(text: &str) -> (r: Result<Phi, Error>)
        ensures
            match formula_of(text.spec_bytes()) {
                Some(cs) => r matches Ok(phi) && phi@ == cs && vars_of(cs) <= isize::MAX,
                None => r matches Err(e) && e.reason == Reason::Malformed && e.message@ == "Error while parsing the file"@,
            },
    {
        let lines = split_on(text.as_bytes(), true);
        let ghost ls = pieces(text.spec_bytes(), true);
        let mut ret = Phi::new();
        let mut header: Option<(usize, usize)> = None;
        let mut broken = false;
        let mut i: usize = 0;
        while i < lines.len()
            invariant
                i <= lines.len(),
                lines@.len() == ls.len(),
                forall|j: int| 0 <= j < lines@.len() ==> (#[trigger] lines@[j])@ == ls[j],
                bounded(ret@, isize::MAX as nat),
                read(ls.take(i as int)) == (Reading { header, clauses: ret@, broken }),
            decreases lines.len() - i,
        {
            let line = &lines[i];
            proof {
                assert(ls.take(i + 1).drop_last() =~= ls.take(i as int));
                assert(ls.take(i + 1).last() == line@);
            }
            if line.len() == 0 || line[0] == COMMENT {
            } else if line[0] == PROBLEM {
                match parse_header(line.as_slice()) {
                    Some(h) => {
                        if header.is_none() {
                            header = Some(h);
                        } else {
                            broken = true;
                        }
                    },
                    None => {
                        broken = true;
                    },
                }
            } else {
                match parse_clause(line.as_slice()) {
                    Some(c) => {
                        ret.clauses.push(c);
                    },
                    None => {
                        if is_wide_clause(line.as_slice()) {
                            broken = true;
                        }
                    },
                }
            }
            i += 1;
        }
        proof {
            assert(ls.take(i as int) =~= ls);
            lemma_vars_of(ret@, isize::MAX as nat);
        }
        match header {
            Some((num_vars, num_clauses)) => {
                if broken || num_clauses != ret.clauses.len() || num_vars != ret.vars() {
                    Err(Error::new("Error while parsing the file"))
                } else {
                    Ok(ret)
                }
            },
            None => Err(Error::new("Error while parsing the file")),
        }
    }
}

impl Solver {
    /// A solver for the formula that a DIMACS CNF text writes.
    pub fn create(dimacs: &str) -> (r: Result<Solver, Error>)
        ensures
            match formula_of(dimacs.spec_bytes()) {
                Some(cs) => r matches Ok(solver) && solver.phi@ == cs && solver.solution is None && vars_of(cs)
                    <= isize::MAX,
                None => r matches Err(e) && e.reason == Reason::Malformed && e.message@ == "Error while parsing the file"@,
            },
    {
        match Phi::from_dimacs(dimacs) {
            Ok(phi) => Ok(Solver { phi, solution: None }),
            Err(e) => Err(e),
        }
    }
}

/// Whether `b` is a blank.
fn blank(b: u8) -> (r: bool)
    ensures
        r == is_blank(b),
{
    b == 32 || (9 <= b && b <= 13)
}

/// The pieces of `s` between separators that are not empty: the lines
/// between line breaks, or the words between blanks.
fn split_on(s: &[u8], lines: bool) -> (r: Vec<Vec<u8>>)
    ensures
        r@.len() == pieces(s@, lines).len(),
        forall|i: int| 0 <= i < r@.len() ==> (#[trigger] r@[i])@ == pieces(s@, lines)[i],
{
    let mut done: Vec<Vec<u8>> = Vec::new();
    let mut open: Vec<u8> = Vec::new();
    let mut i: usize = 0;
    while i < s.len()
        invariant
            i <= s.len(),
            done@.len() == split(s@.take(i as int), lines).0.len(),
            forall|j: int| 0 <= j < done@.len() ==> (#[trigger] done@[j])@ == split(s@.take(i as int), lines).0[j],
            open@ == split(s@.take(i as int), lines).1,
        decreases s.len() - i,
    {
        let b = s[i];
        proof {
            assert(s@.take(i + 1).drop_last() =~= s@.take(i as int));
        }
        let separator = if lines { b == LINE_BREAK } else { blank(b) };
        if separator {
            if open.len() > 0 {
                done.push(open);
                open = Vec::new();
            }
        } else {
            open.push(b);
        }
        i += 1;
    }
    assert(s@.take(i as int) =~= s@);
    if open.len() > 0 {
        done.push(open);
    }
    done
}

/// The natural number that the bytes of `word` from place `from` on write,
/// if it is at most `limit`.
fn parse_natural(word: &Vec<u8>, from: usize, limit: usize) -> (r: Option<usize>)
    requires
        from <= word@.len(),
    ensures
        r == match natural(word@.subrange(from as int, word@.len() as int)) {
            Some(n) => if n <= limit { Some(n as usize) } else { None },
            None => None,
        },
{
    let ghost digits = word@.subrange(from as int, word@.len() as int);
    if from == word.len() {
        return None;
    }
    let mut value: usize = 0;
    let mut i: usize = from;
    while i < word.len()
        invariant
            from <= i <= word.len(),
            digits == word@.subrange(from as int, word@.len() as int),
            all_digits(digits.take(i - from)),
            value == digits_value(digits.take(i - from)),
            value <= limit,
        decreases word.len() - i,
    {
        let b = word[i];
        let ghost init = digits.take(i - from);
        let ghost next = digits.take(i + 1 - from);
        proof {
            assert(next.drop_last() =~= init);
            assert(next.last() == b);
        }
        if b < ZERO || b > ZERO + 9 {
            assert(!all_digits(digits)) by {
                assert(digits[i - from] == b);
            }
            return None;
        }
        let d = (b - ZERO) as usize;
        if d > limit || value > (limit - d) / 10 {
            proof {
                assert(digits_value(next) > limit);
                if all_digits(digits) {
                    lemma_digits_grow(digits, i + 1 - from);
                }
            }
            return None;
        }
        value = value * 10 + d;
        proof {
            assert forall|j: int| 0 <= j < next.len() implies ZERO <= #[trigger] next[j] <= ZERO + 9 by {
                if j < init.len() {
                    assert(init[j] == next[j]);
                }
            }
        }
        i += 1;
    }
    assert(digits.take(i - from) =~= digits);
    Some(value)
}

/// The integer that `word` writes, if its magnitude is at most `isize::MAX`.
fn parse_integer(word: &Vec<u8>) -> (r: Option<isize>)
    ensures
        r == match integer(word@) {
            Some(v) => if -isize::MAX <= v <= isize::MAX { Some(v as isize) } else { None },
            None => None,
        },
{
    let limit = isize::MAX as usize;
    if word.len() > 0 && word[0] == MINUS {
        assert(word@.drop_first() =~= word@.subrange(1, word@.len() as int));
        match parse_natural(word, 1, limit) {
            Some(n) => Some(-(n as isize)),
            None => None,
        }
    } else if word.len() > 0 && word[0] == PLUS {
        assert(word@.drop_first() =~= word@.subrange(1, word@.len() as int));
        match parse_natural(word, 1, limit) {
            Some(n) => Some(n as isize),
            None => None,
        }
    } else {
        assert(word@ =~= word@.subrange(0, word@.len() as int));
        match parse_natural(word, 0, limit) {
            Some(n) => Some(n as isize),
            None => None,
        }
    }
}

/// The literal that `word` writes, if it writes one.
fn parse_literal(word: &Vec<u8>) -> (r: Option<Literal>)
    ensures
        r == match literal_code(word@) {
            Some(v) => Some(Literal::of_code(v)),
            None => None,
        },
        r matches Some(l) ==> l.index < isize::MAX,
{
    match parse_integer(word) {
        Some(v) => if v != 0 { Some(Literal::from_isize(v)) } else { None },
        None => None,
    }
}

/// The clause that the line writes, if it writes one.
pub fn parse_clause(line: &[u8]) -> (r: Option<Clause>)
    ensures
        r == clause_of(line@),
        r matches Some(c) ==> c.bounded(isize::MAX as nat),
{
    let words = split_on(line, false);
    let ghost ws = pieces(line@, false);
    let n = words.len();
    if n > 4 || n < 2 {
        return None;
    }
    assert(words@[n - 1]@ == ws.last());
    match parse_integer(&words[n - 1]) {
        Some(v) => {
            if v != 0 {
                return None;
            }
        },
        None => {
            return None;
        },
    }
    let l1 = match parse_literal(&words[0]) {
        Some(l) => l,
        None => {
            assert(literal_code(ws[0]) is None);
            return None;
        },
    };
    if n == 2 {
        let c = Clause::C1(l1);
        assert(clause_of(line@) == Some(c)) by {
            assert forall|i: int| 0 <= i < ws.len() - 1 implies literal_code(#[trigger] ws[i]) is Some by {}
        }
        return Some(c);
    }
    let l2 = match parse_literal(&words[1]) {
        Some(l) => l,
        None => {
            assert(literal_code(ws[1]) is None);
            return None;
        },
    };
    if n == 3 {
        let c = Clause::C2(l1, l2);
        assert(clause_of(line@) == Some(c)) by {
            assert forall|i: int| 0 <= i < ws.len() - 1 implies literal_code(#[trigger] ws[i]) is Some by {}
        }
        return Some(c);
    }
    let l3 = match parse_literal(&words[2]) {
        Some(l) => l,
        None => {
            assert(literal_code(ws[2]) is None);
            return None;
        },
    };
    let c = Clause::C3(l1, l2, l3);
    assert(clause_of(line@) == Some(c)) by {
        assert forall|i: int| 0 <= i < ws.len() - 1 implies literal_code(#[trigger] ws[i]) is Some by {}
    }
    Some(c)
}

/// Whether the line writes a clause of more than three literals.
fn is_wide_clause(line: &[u8]) -> (r: bool)
    ensures
        r == wide_clause(line@),
{
    let words = split_on(line, false);
    let ghost ws = pieces(line@, false);
    let n = words.len();
    if n <= 4 {
        return false;
    }
    assert(words@[n - 1]@ == ws.last());
    match parse_integer(&words[n - 1]) {
        Some(v) => {
            if v != 0 {
                return false;
            }
        },
        None => {
            return false;
        },
    }
    let mut i: usize = 0;
    while i < n - 1
        invariant
            i <= n - 1,
            n == words@.len(),
            ws == pieces(line@, false),
            words@.len() == ws.len(),
            forall|j: int| 0 <= j < words@.len() ==> (#[trigger] words@[j])@ == ws[j],
            forall|j: int| 0 <= j < i ==> literal_code(#[trigger] ws[j]) is Some,
        decreases n - i,
    {
        if parse_literal(&words[i]).is_none() {
            assert(literal_code(ws[i as int]) is None);
            return false;
        }
        i += 1;
    }
    true
}

/// The declaration of the problem line, if the line is a well-formed one.
fn parse_header(line: &[u8]) -> (r: Option<(usize, usize)>)
    ensures
        r == header_of(line@),
{
    let words = split_on(line, false);
    let ghost ws = pieces(line@, false);
    if words.len() != 4 {
        return None;
    }
    let p = &words[0];
    let cnf = &words[1];
    if p.len() != 1 || p[0] != PROBLEM {
        assert(ws[0] != seq![PROBLEM]) by {
            if ws[0] == seq![PROBLEM] {
                assert(seq![PROBLEM].len() == 1 && seq![PROBLEM][0] == PROBLEM);
            }
        }
        return None;
    }
    assert(ws[0] =~= seq![PROBLEM]);
    if cnf.len() != 3 || cnf[0] != 99 || cnf[1] != 110 || cnf[2] != 102 {
        assert(ws[1] != seq![99u8, 110u8, 102u8]) by {
            let word = seq![99u8, 110u8, 102u8];
            if ws[1] == word {
                assert(word.len() == 3 && word[0] == 99 && word[1] == 110 && word[2] == 102);
            }
        }
        return None;
    }
    assert(ws[1] =~= seq![99u8, 110u8, 102u8]);
    assert(words@[2]@ =~= words@[2]@.subrange(0, words@[2]@.len() as int));
    assert(words@[3]@ =~= words@[3]@.subrange(0, words@[3]@.len() as int));
    let variables = match parse_natural(&words[2], 0, usize::MAX) {
        Some(n) => n,
        None => {
            return None;
        },
    };
    let clauses = match parse_natural(&words[3], 0, usize::MAX) {
        Some(n) => n,
        None => {
            return None;
        },
    };
    Some((variables, clauses))
}

// The proofs.

/// The value of a prefix of digits is at most the value of all of them.
pub proof fn lemma_digits_grow(s: Seq<u8>, i: int)
    requires
        0 <= i <= s.len(),
        all_digits(s),
    ensures
        digits_value(s.take(i)) <= digits_value(s),
    decreases s.len(),
{
    if i < s.len() {
        let init = s.drop_last();
        assert(all_digits(init)) by {
            assert forall|j: int| 0 <= j < init.len() implies ZERO <= #[trigger] init[j] <= ZERO + 9 by {
                assert(init[j] == s[j]);
            }
        }
        assert(init.take(i) =~= s.take(i));
        lemma_digits_grow(init, i);
        assert(ZERO <= s[s.len() - 1]);
    } else {
        assert(s.take(i) =~= s);
    }
}
} // verus!
