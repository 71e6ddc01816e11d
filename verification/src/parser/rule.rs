//! Override rules and their textual form, `isolate=<id>` and
//! `separate=<id>,<id>`.

use crate::model::Vnum;
use vstd::prelude::*;

verus! {

/// An override that forces rooms apart when planes are formed.
#[derive(Debug, PartialEq, Eq, Copy, Clone, Structural)]
pub enum Rule {
    /// Every exit of the named room leaves its plane.
    Isolate(Vnum),
    /// The exits between the two named rooms leave their plane.
    Separate(Vnum, Vnum),
}

/// Why a text is not a rule.
#[derive(Debug, PartialEq, Eq, Copy, Clone, Structural)]
pub enum ParseRuleError {
    /// The text before `=` names no rule.
    UnknownRule,
    /// There is no `=`, or what follows it does not hold the identifiers
    /// the rule needs.
    InvalidVnum,
}

/// Whether `c` is one of the ten decimal digits.
pub open spec fn is_digit(c: char) -> bool {
    48 <= c as u32 <= 57
}

/// The number that one decimal digit writes; zero for any other character.
pub open spec fn digit_value(c: char) -> nat {
    if is_digit(c) {
        (c as u32 - 48) as nat
    } else {
        0
    }
}

/// The number that a string of decimal digits writes, most significant
/// digit first.
pub open spec fn decimal_value(s: Seq<char>) -> nat
    decreases s.len(),
{
    if s.len() == 0 {
        0
    } else {
        10 * decimal_value(s.drop_last()) + digit_value(s.last())
    }
}

/// The digits of an identifier: the text without its one optional
/// leading `+`.
pub open spec fn unsigned_part(s: Seq<char>) -> Seq<char> {
    if s.len() > 0 && s[0] == '+' {
        s.subrange(1, s.len() as int)
    } else {
        s
    }
}

/// The identifier that `s` writes: an optional `+`, then at least one
/// decimal digit and nothing else, with a value that fits in 32 bits.
pub open spec fn parse_vnum(s: Seq<char>) -> Option<Vnum> {
    let d = unsigned_part(s);
    if d.len() > 0 && (forall|i: int| 0 <= i < d.len() ==> is_digit(#[trigger] d[i]))
        && decimal_value(d) <= u32::MAX {
        Some(decimal_value(d) as u32)
    } else {
        None
    }
}

/// Index of the first `c` in `s`, or the length of `s` where `c` does
/// not occur.
pub open spec fn position(s: Seq<char>, c: char) -> int
    decreases s.len(),
{
    if s.len() == 0 {
        0
    } else {
        let p = position(s.drop_last(), c);
        if p < s.len() - 1 {
            p
        } else if s.last() == c {
            s.len() - 1
        } else {
            s.len() as int
        }
    }
}

/// The word `isolate`.
pub open spec fn isolate_word() -> Seq<char> {
    seq!['i', 's', 'o', 'l', 'a', 't', 'e']
}

/// The word `separate`.
pub open spec fn separate_word() -> Seq<char> {
    seq!['s', 'e', 'p', 'a', 'r', 'a', 't', 'e']
}

/// What a text means as a rule. The text is cut at its first `=`; the
/// part before names the rule, the part after holds one identifier for
/// `isolate` and two, cut at the first `,`, for `separate`.
pub open spec fn parse_rule(s: Seq<char>) -> Result<Rule, ParseRuleError> {
    let eq = position(s, '=');
    if eq == s.len() {
        Err(ParseRuleError::InvalidVnum)
    } else {
        let name = s.subrange(0, eq);
        let arg = s.subrange(eq + 1, s.len() as int);
        if name == isolate_word() {
            match parse_vnum(arg) {
                Some(v) => Ok(Rule::Isolate(v)),
                None => Err(ParseRuleError::InvalidVnum),
            }
        } else if name == separate_word() {
            let comma = position(arg, ',');
            if comma == arg.len() {
                Err(ParseRuleError::InvalidVnum)
            } else {
                match (
                    parse_vnum(arg.subrange(0, comma)),
                    parse_vnum(arg.subrange(comma + 1, arg.len() as int)),
                ) {
                    (Some(a), Some(b)) => Ok(Rule::Separate(a, b)),
                    _ => Err(ParseRuleError::InvalidVnum),
                }
            }
        } else {
            Err(ParseRuleError::UnknownRule)
        }
    }
}

/// `position` never leaves the string, and what it finds is the first
/// occurrence.
pub proof fn lemma_position(s: Seq<char>, c: char)
    ensures
        0 <= position(s, c) <= s.len(),
        position(s, c) < s.len() ==> s[position(s, c)] == c,
        forall|j: int| 0 <= j < position(s, c) ==> s[j] != c,
    decreases s.len(),
{
    if s.len() > 0 {
        let front = s.drop_last();
        lemma_position(front, c);
        assert forall|j: int| 0 <= j < position(s, c) implies s[j] != c by {
            if j < front.len() {
                assert(front[j] == s[j]);
            }
        }
    }
}

/// The characters of `s`, one by one.
fn chars_of(s: &str) -> (v: Vec<char>)
    ensures
        v@ == s@,
{
    let mut v: Vec<char> = Vec::new();
    for c in it: s.chars()
        invariant
            it.seq() == s@,
            v@ == s@.take(it.index() as int),
    {
        v.push(c);
    }
    v
}

/// Index of the first `c` in `text[from..to]`, counted from `from`.
fn find_char(text: &Vec<char>, from: usize, to: usize, c: char) -> (p: usize)
    requires
        from <= to <= text.len(),
    ensures
        p == position(text@.subrange(from as int, to as int), c),
        p <= to - from,
{
    let mut i: usize = from;
    while i < to
        invariant
            from <= i <= to <= text.len(),
            position(text@.subrange(from as int, i as int), c) == i - from,
        decreases to - i,
    {
        proof {
            let next = text@.subrange(from as int, i + 1);
            assert(next.drop_last() == text@.subrange(from as int, i as int));
        }
        if text[i] == c {
            proof {
                let whole = text@.subrange(from as int, to as int);
                lemma_position_prefix(whole, (i - from + 1) as int, c);
                assert(whole.take(i - from + 1) == text@.subrange(from as int, i + 1));
            }
            return i - from;
        }
        i = i + 1;
    }
    i - from
}

/// Once `c` has been found in a prefix, it is found at the same place in
/// the whole string.
proof fn lemma_position_prefix(s: Seq<char>, n: int, c: char)
    requires
        0 <= n <= s.len(),
        position(s.take(n), c) < n,
    ensures
        position(s, c) == position(s.take(n), c),
    decreases s.len() - n,
{
    if n < s.len() {
        assert(s.take(n + 1).drop_last() == s.take(n));
        lemma_position_prefix(s, n + 1, c);
    } else {
        assert(s.take(n) == s);
    }
}

/// Whether `text[from..to]` spells `word`.
fn spells(text: &Vec<char>, from: usize, to: usize, word: &str) -> (r: bool)
    requires
        from <= to <= text.len(),
    ensures
        r == (text@.subrange(from as int, to as int) == word@),
{
    let letters = chars_of(word);
    if letters.len() != to - from {
        return false;
    }
    let mut i: usize = 0;
    while i < letters.len()
        invariant
            from <= to <= text.len(),
            letters.len() == to - from,
            i <= letters.len(),
            letters@ == word@,
            forall|j: int| 0 <= j < i ==> text@[from + j] == letters@[j],
        decreases letters.len() - i,
    {
        if text[from + i] != letters[i] {
            assert(text@.subrange(from as int, to as int)[i as int] != word@[i as int]);
            return false;
        }
        i = i + 1;
    }
    assert(text@.subrange(from as int, to as int) =~= word@);
    true
}

/// Reads the identifier written in `text[from..to]`.
fn read_vnum(text: &Vec<char>, from: usize, to: usize) -> (r: Option<Vnum>)
    requires
        from <= to <= text.len(),
    ensures
        r == parse_vnum(text@.subrange(from as int, to as int)),
{
    let ghost s = text@.subrange(from as int, to as int);
    let start: usize = if from < to && text[from] == '+' {
        from + 1
    } else {
        from
    };
    let ghost d = unsigned_part(s);
    assert(d == text@.subrange(start as int, to as int));
    if start == to {
        return None;
    }
    let mut value: u32 = 0;
    let mut i: usize = start;
    while i < to
        invariant
            from <= start <= i <= to <= text.len(),
            d == unsigned_part(text@.subrange(from as int, to as int)),
            d == text@.subrange(start as int, to as int),
            forall|j: int| 0 <= j < i - start ==> is_digit(#[trigger] d[j]),
            value == decimal_value(d.take(i - start)),
        decreases to - i,
    {
        let c = text[i];
        let ghost before = d.take(i - start);
        let ghost after = d.take(i - start + 1);
        proof {
            assert(after.drop_last() == before);
            assert(after.last() == c);
            assert(d[i - start] == c);
        }
        let code: u32 = c as u32;
        if code < 48 || code > 57 {
            assert(!is_digit(d[i - start]));
            return None;
        }
        let digit: u32 = code - 48;
        if value > (u32::MAX - digit) / 10 {
            proof {
                assert(decimal_value(after) > u32::MAX);
                lemma_decimal_value_grows(d, i - start + 1);
            }
            return None;
        }
        value = 10 * value + digit;
        i = i + 1;
    }
    assert(d.take(to - start) == d);
    Some(value)
}

/// A longer string of digits writes no smaller a number than its prefix.
proof fn lemma_decimal_value_grows(s: Seq<char>, n: int)
    requires
        0 <= n <= s.len(),
    ensures
        decimal_value(s.take(n)) <= decimal_value(s),
    decreases s.len() - n,
{
    if n < s.len() {
        assert(s.take(n + 1).drop_last() == s.take(n));
        lemma_decimal_value_grows(s, n + 1);
    } else {
        assert(s.take(n) == s);
    }
}

impl Rule {
    /// Whether this rule makes the exit from room `from` to room `to`
    /// leave its plane: `from` is isolated, or the two are separated,
    /// named in either order.
    pub open spec fn splits(&self, from: Vnum, to: Vnum) -> bool {
        match *self {
            Rule::Isolate(v) => v == from,
            Rule::Separate(a, b) => (a == from && b == to) || (b == from && a == to),
        }
    }

    /// Reads a rule from its textual form.
    pub fn try_from(value: &str) -> (r: Result<Rule, ParseRuleError>)
        ensures
            r == parse_rule(value@),
    {
        let text = chars_of(value);
        let n = text.len();
        let eq = find_char(&text, 0, n, '=');
        assert(text@.subrange(0, n as int) == value@);
        if eq == n {
            return Err(ParseRuleError::InvalidVnum);
        }
        proof {
            reveal_strlit("isolate");
            reveal_strlit("separate");
            assert("isolate"@ =~= isolate_word());
            assert("separate"@ =~= separate_word());
        }
        let ghost arg = value@.subrange(eq + 1, n as int);
        if spells(&text, 0, eq, "isolate") {
            match read_vnum(&text, eq + 1, n) {
                Some(v) => Ok(Rule::Isolate(v)),
                None => Err(ParseRuleError::InvalidVnum),
            }
        } else if spells(&text, 0, eq, "separate") {
            let comma = find_char(&text, eq + 1, n, ',');
            if comma == n - (eq + 1) {
                return Err(ParseRuleError::InvalidVnum);
            }
            assert(arg.subrange(0, comma as int) == text@.subrange(eq + 1, eq + 1 + comma));
            assert(arg.subrange(comma + 1, arg.len() as int) == text@.subrange(
                eq + 1 + comma + 1,
                n as int,
            ));
            let first = read_vnum(&text, eq + 1, eq + 1 + comma);
            let second = read_vnum(&text, eq + 1 + comma + 1, n);
            match (first, second) {
                (Some(a), Some(b)) => Ok(Rule::Separate(a, b)),
                _ => Err(ParseRuleError::InvalidVnum),
            }
        } else {
            Err(ParseRuleError::UnknownRule)
        }
    }
}

/// The rules that `texts` hold, in their order: a text that does not
/// read as a rule holds none.
pub open spec fn rules_among(texts: Seq<String>) -> Seq<Rule>
    decreases texts.len(),
{
    if texts.len() == 0 {
        Seq::empty()
    } else {
        let front = rules_among(texts.drop_last());
        match parse_rule(texts.last()@) {
            Ok(rule) => front.push(rule),
            Err(_) => front,
        }
    }
}

/// The places of the texts that are to be reported: those that fail to
/// read as a rule for any reason but an unknown name.
pub open spec fn malformed_among(texts: Seq<String>) -> Seq<usize>
    decreases texts.len(),
{
    if texts.len() == 0 {
        Seq::empty()
    } else {
        let front = malformed_among(texts.drop_last());
        match parse_rule(texts.last()@) {
            Err(ParseRuleError::InvalidVnum) => front.push((texts.len() - 1) as usize),
            _ => front,
        }
    }
}

/// Reads every text as a rule. Returns the rules read, in order, and the
/// places of the texts to report. No text keeps the others from being
/// read: one with an unknown name is passed over, one that names a rule
/// and fails to give its identifiers is passed over and reported.
pub fn read_rules(texts: &Vec<String>) -> (r: (Vec<Rule>, Vec<usize>))
    ensures
        r.0@ == rules_among(texts@),
        r.1@ == malformed_among(texts@),
{
    let mut rules: Vec<Rule> = Vec::new();
    let mut malformed: Vec<usize> = Vec::new();
    let mut i: usize = 0;
    while i < texts.len()
        invariant
            i <= texts.len(),
            rules@ == rules_among(texts@.take(i as int)),
            malformed@ == malformed_among(texts@.take(i as int)),
        decreases texts.len() - i,
    {
        proof {
            assert(texts@.take(i + 1).drop_last() == texts@.take(i as int));
        }
        match Rule::try_from(texts[i].as_str()) {
            Ok(rule) => rules.push(rule),
            Err(ParseRuleError::InvalidVnum) => malformed.push(i),
            Err(ParseRuleError::UnknownRule) => {},
        }
        i = i + 1;
    }
    proof {
        assert(texts@.take(i as int) == texts@);
    }
    (rules, malformed)
}

} // verus!
