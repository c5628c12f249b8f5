use vstd::prelude::*;

use crate::path::{lookup, str_eq, Environment};

verus! {

/// The operations a condition may apply.
#[derive(Debug, Clone, Copy, PartialEq, Eq, Structural)]
pub enum Operation {
    Eq,
}

/// Why a condition could not be parsed.
#[derive(Debug, Clone, Copy, PartialEq, Eq, Structural)]
pub enum CondError {
    /// One of `(`, `,` and `)` does not occur.
    MissingDelimiter,
    /// The text before `(` names no known operation.
    UnknownOperation,
    /// The first `(`, `,` and `)` do not come in that order.
    MisplacedDelimiter,
}

/// A parsed condition `op(lhs, rhs)`, operands trimmed.
pub struct Condition {
    pub op: Operation,
    pub lhs: String,
    pub rhs: String,
}

/// Unicode white space, as `char::is_whitespace` (and so `str::trim`) defines it.
pub open spec fn is_white(c: char) -> bool {
    ('\u{9}' <= c && c <= '\u{d}') || c == ' ' || c == '\u{85}' || c == '\u{a0}' || c
        == '\u{1680}' || ('\u{2000}' <= c && c <= '\u{200a}') || c == '\u{2028}' || c
        == '\u{2029}' || c == '\u{202f}' || c == '\u{205f}' || c == '\u{3000}'
}

pub open spec fn trim_start(s: Seq<char>) -> Seq<char>
    decreases s.len(),
{
    if s.len() > 0 && is_white(s[0]) {
        trim_start(s.drop_first())
    } else {
        s
    }
}

pub open spec fn trim_end(s: Seq<char>) -> Seq<char>
    decreases s.len(),
{
    if s.len() > 0 && is_white(s.last()) {
        trim_end(s.drop_last())
    } else {
        s
    }
}

/// `s` without leading and trailing white space.
pub open spec fn trimmed(s: Seq<char>) -> Seq<char> {
    trim_end(trim_start(s))
}

/// `i` is the position of the first `c` in `s`.
pub open spec fn is_first(s: Seq<char>, c: char, i: int) -> bool {
    0 <= i < s.len() && s[i] == c && forall|k: int| 0 <= k < i ==> s[k] != c
}

pub open spec fn first_index(s: Seq<char>, c: char) -> int {
    choose|i: int| is_first(s, c, i)
}

/// The operation named `s`, compared without regard to case.
pub open spec fn operation_named(s: Seq<char>) -> Option<Operation> {
    if s.len() == 2 && (s[0] == 'e' || s[0] == 'E') && (s[1] == 'q' || s[1] == 'Q') {
        Some(Operation::Eq)
    } else {
        None
    }
}

/// What parsing `s` gives: the operation and the two trimmed operands, or
/// the first fault found.
pub open spec fn parse_spec(s: Seq<char>) -> Result<(Operation, Seq<char>, Seq<char>), CondError> {
    if !s.contains('(') || !s.contains(',') || !s.contains(')') {
        Err(CondError::MissingDelimiter)
    } else {
        let open = first_index(s, '(');
        let comma = first_index(s, ',');
        let close = first_index(s, ')');
        match operation_named(s.subrange(0, open)) {
            None => Err(CondError::UnknownOperation),
            Some(op) => if open + 1 <= comma && comma + 1 <= close {
                Ok(
                    (
                        op,
                        trimmed(s.subrange(open + 1, comma)),
                        trimmed(s.subrange(comma + 1, close)),
                    ),
                )
            } else {
                Err(CondError::MisplacedDelimiter)
            },
        }
    }
}

pub open spec fn hostname_var() -> Seq<char> {
    seq!['h', 'o', 's', 't', 'n', 'a', 'm', 'e']
}

/// The value of `op(lhs, rhs)`: `lhs` must be `$NAME`; `$hostname` stands for
/// the system's host name, any other name for an environment variable, and
/// an unset variable makes the condition false.
pub open spec fn eval_spec(
    op: Operation,
    lhs: Seq<char>,
    rhs: Seq<char>,
    env: Seq<(Seq<char>, Seq<char>)>,
    host: Seq<char>,
) -> bool {
    match op {
        Operation::Eq => if lhs.len() > 0 && lhs[0] == '$' {
            if lhs.drop_first() == hostname_var() {
                host == rhs
            } else {
                match lookup(env, lhs.drop_first()) {
                    Some(v) => v == rhs,
                    None => false,
                }
            }
        } else {
            false
        },
    }
}

/// The variable that the operand `lhs` reads from the environment, when it
/// is not set there: the condition is then false, and the fault is reported.
pub open spec fn unset_var(lhs: Seq<char>, env: Seq<(Seq<char>, Seq<char>)>) -> Option<Seq<char>> {
    if lhs.len() > 0 && lhs[0] == '$' && lhs.drop_first() != hostname_var() && lookup(
        env,
        lhs.drop_first(),
    ).is_none() {
        Some(lhs.drop_first())
    } else {
        None
    }
}

/// Whether a condition holds: `None` when it does not parse.
pub open spec fn cond_value(
    s: Seq<char>,
    env: Seq<(Seq<char>, Seq<char>)>,
    host: Seq<char>,
) -> Option<bool> {
    match parse_spec(s) {
        Ok(p) => Some(eval_spec(p.0, p.1, p.2, env, host)),
        Err(_) => None,
    }
}

/// Position of the first `c` in `s`.
fn find_char(s: &str, c: char) -> (r: Option<usize>)
    ensures
        match r {
            Some(i) => is_first(s@, c, i as int) && first_index(s@, c) == i,
            None => !s@.contains(c),
        },
{
    let n = s.unicode_len();
    let mut i: usize = 0;
    while i < n
        invariant
            n == s@.len(),
            i <= n,
            forall|k: int| 0 <= k < i ==> s@[k] != c,
        decreases n - i,
    {
        if s.get_char(i) == c {
            proof {
                assert(is_first(s@, c, i as int));
                let j = first_index(s@, c);
                assert(is_first(s@, c, j));
            }
            return Some(i);
        }
        i += 1;
    }
    None
}

/// `s` without leading and trailing white space.
pub fn trim(s: &str) -> (r: &str)
    ensures
        r@ == trimmed(s@),
{
    let n = s.unicode_len();
    let mut lo: usize = 0;
    proof {
        assert(s@.subrange(0, n as int) =~= s@);
    }
    while lo < n && is_whitespace(s.get_char(lo))
        invariant
            n == s@.len(),
            lo <= n,
            trim_start(s@) == trim_start(s@.subrange(lo as int, n as int)),
        decreases n - lo,
    {
        proof {
            assert(s@.subrange(lo as int, n as int).drop_first() =~= s@.subrange(lo + 1, n as int));
        }
        lo += 1;
    }
    let mut hi: usize = n;
    proof {
        assert(s@.subrange(lo as int, n as int).subrange(0, (hi - lo) as int) =~= s@.subrange(lo as int, n as int));
    }
    while hi > lo && is_whitespace(s.get_char(hi - 1))
        invariant
            n == s@.len(),
            lo <= hi <= n,
            trim_start(s@) == s@.subrange(lo as int, n as int),
            trimmed(s@) == trim_end(s@.subrange(lo as int, hi as int)),
        decreases hi,
    {
        proof {
            assert(s@.subrange(lo as int, hi as int).drop_last() =~= s@.subrange(lo as int, hi - 1));
        }
        hi -= 1;
    }
    s.substring_char(lo, hi)
}

/// Whether `c` is white space in Unicode's sense.
pub fn is_whitespace(c: char) -> (r: bool)
    ensures
        r == is_white(c),
{
    ('\u{9}' <= c && c <= '\u{d}') || c == ' ' || c == '\u{85}' || c == '\u{a0}' || c == '\u{1680}'
        || ('\u{2000}' <= c && c <= '\u{200a}') || c == '\u{2028}' || c == '\u{2029}' || c
        == '\u{202f}' || c == '\u{205f}' || c == '\u{3000}'
}

impl Operation {
    /// The operation named `s`, compared without regard to case.
    pub fn from_name(s: &str) -> (r: Option<Operation>)
        ensures
            r == operation_named(s@),
    {
        if s.unicode_len() != 2 {
            return None;
        }
        let a = s.get_char(0);
        let b = s.get_char(1);
        if (a == 'e' || a == 'E') && (b == 'q' || b == 'Q') {
            Some(Operation::Eq)
        } else {
            None
        }
    }

    /// Applies the operation to its operands; `hostname` is the system's host name.
    pub fn eval(&self, first_operand: &str, second_operand: &str, env: &Environment, hostname: &str) -> (r: bool)
        ensures
            r == eval_spec(*self, first_operand@, second_operand@, env@, hostname@),
    {
        let n = first_operand.unicode_len();
        if n == 0 || first_operand.get_char(0) != '$' {
            return false;
        }
        let name = first_operand.substring_char(1, n);
        proof {
            assert(name@ =~= first_operand@.drop_first());
            reveal_strlit("hostname");
            assert("hostname"@ =~= hostname_var());
        }
        if str_eq(name, "hostname") {
            return str_eq(hostname, second_operand);
        }
        match env.get(name) {
            Some(v) => str_eq(v.as_str(), second_operand),
            None => false,
        }
    }
}

/// The name of the environment variable that the operand reads, when that
/// variable is unset.
pub fn unset_variable(first_operand: &str, env: &Environment) -> (r: Option<String>)
    ensures
        match r {
            Some(n) => unset_var(first_operand@, env@) == Some(n@),
            None => unset_var(first_operand@, env@).is_none(),
        },
{
    let n = first_operand.unicode_len();
    if n == 0 || first_operand.get_char(0) != '$' {
        return None;
    }
    let name = first_operand.substring_char(1, n);
    proof {
        assert(name@ =~= first_operand@.drop_first());
        reveal_strlit("hostname");
        assert("hostname"@ =~= hostname_var());
    }
    if str_eq(name, "hostname") {
        return None;
    }
    match env.get(name) {
        Some(_) => None,
        None => Some(name.to_owned()),
    }
}

/// Parses `op(lhs, rhs)`: the operation is the text before the first `(`,
/// the operands the trimmed text between it and the first `,`, and between
/// that and the first `)`.
pub fn parse_cond(cond: &str) -> (r: Result<Condition, CondError>)
    ensures
        match r {
            Ok(c) => parse_spec(cond@) == Ok::<_, CondError>((c.op, c.lhs@, c.rhs@)),
            Err(e) => parse_spec(cond@) == Err::<(Operation, Seq<char>, Seq<char>), _>(e),
        },
{
    let open = match find_char(cond, '(') {
        Some(i) => i,
        None => return Err(CondError::MissingDelimiter),
    };
    let comma = match find_char(cond, ',') {
        Some(i) => i,
        None => return Err(CondError::MissingDelimiter),
    };
    let close = match find_char(cond, ')') {
        Some(i) => i,
        None => return Err(CondError::MissingDelimiter),
    };
    proof {
        assert(cond@.contains('('));
        assert(cond@.contains(','));
        assert(cond@.contains(')'));
    }
    let op = match Operation::from_name(cond.substring_char(0, open)) {
        Some(op) => op,
        None => return Err(CondError::UnknownOperation),
    };
    if open >= comma || comma >= close {
        return Err(CondError::MisplacedDelimiter);
    }
    let lhs = trim(cond.substring_char(open + 1, comma)).to_owned();
    let rhs = trim(cond.substring_char(comma + 1, close)).to_owned();
    Ok(Condition { op, lhs, rhs })
}

/// Evaluates a condition against the environment and the host name: `None`
/// when it does not parse.
pub fn eval_cond(cond: &str, env: &Environment, hostname: &str) -> (r: Option<bool>)
    ensures
        r == cond_value(cond@, env@, hostname@),
{
    match parse_cond(cond) {
        Ok(c) => Some(c.op.eval(c.lhs.as_str(), c.rhs.as_str(), env, hostname)),
        Err(_) => None,
    }
}


/// `eq($hostname, h)` holds exactly when the system's host name is `h`,
/// whatever the environment holds.
pub proof fn lemma_hostname_condition(
    rhs: Seq<char>,
    env: Seq<(Seq<char>, Seq<char>)>,
    host: Seq<char>,
)
    ensures
        eval_spec(Operation::Eq, seq!['$'] + hostname_var(), rhs, env, host) == (host == rhs),
{
    assert((seq!['$'] + hostname_var()).drop_first() =~= hostname_var());
}

} // verus!
