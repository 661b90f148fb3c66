//! Command-line targets: a PID (`1234`), a port (`:3000`), or anything else
//! as a name to match.

use vstd::prelude::*;

use crate::text::{chars_of, decimal, digit_char, string_of};

verus! {

/// One target of a run.
#[derive(Clone, Debug)]
pub enum Target {
    /// A process id.
    Pid(u32),
    /// A local port; the processes that have a socket on it.
    Port(u16),
    /// Text matched against process names and command lines.
    Name(String),
}

/// A target as a mathematical value.
pub enum TargetView {
    Pid(u32),
    Port(u16),
    Name(Seq<char>),
}

impl View for Target {
    type V = TargetView;

    open spec fn view(&self) -> TargetView {
        match self {
            Target::Pid(p) => TargetView::Pid(*p),
            Target::Port(p) => TargetView::Port(*p),
            Target::Name(n) => TargetView::Name(n@),
        }
    }
}

/// Every character is an ASCII digit.
pub open spec fn all_digits(s: Seq<char>) -> bool {
    forall|i: int| 0 <= i < s.len() ==> 48 <= #[trigger] (s[i] as u32) <= 57
}

/// The number that a string of ASCII digits spells in base ten.
pub open spec fn digits_value(s: Seq<char>) -> nat
    decreases s.len(),
{
    if s.len() == 0 {
        0
    } else {
        10 * digits_value(s.drop_last()) + ((s.last() as u32) - 48) as nat
    }
}

/// What std's `from_str` for an unsigned integer reads, before the range
/// check: an optional `+`, then one or more ASCII digits, nothing else.
pub open spec fn unsigned_value(s: Seq<char>) -> Option<nat> {
    let digits = if s.len() > 0 && s[0] == '+' {
        s.drop_first()
    } else {
        s
    };
    if digits.len() > 0 && all_digits(digits) {
        Some(digits_value(digits))
    } else {
        None
    }
}

/// An unsigned number no greater than `max`, read as `from_str` reads it.
pub open spec fn bounded_value(s: Seq<char>, max: nat) -> Option<nat> {
    match unsigned_value(s) {
        Some(v) => if v <= max {
            Some(v)
        } else {
            None
        },
        None => None,
    }
}

/// The target that a command-line argument names: `:` and a port number is a
/// port, a number that fits a `u32` is a PID, anything else is a name.
pub open spec fn target_of(s: Seq<char>) -> TargetView {
    if s.len() > 0 && s[0] == ':' && bounded_value(s.drop_first(), 65535) is Some {
        TargetView::Port(bounded_value(s.drop_first(), 65535).unwrap() as u16)
    } else if bounded_value(s, 4294967295) is Some {
        TargetView::Pid(bounded_value(s, 4294967295).unwrap() as u32)
    } else {
        TargetView::Name(s)
    }
}

proof fn lemma_value_grows(s: Seq<char>, i: int)
    requires
        all_digits(s),
        0 <= i <= s.len(),
    ensures
        digits_value(s.take(i)) <= digits_value(s),
    decreases s.len(),
{
    if i < s.len() {
        let t = s.drop_last();
        assert(all_digits(t)) by {
            assert forall|k: int| 0 <= k < t.len() implies 48 <= #[trigger] (t[k] as u32) <= 57 by {
                assert(t[k] == s[k]);
            }
        }
        lemma_value_grows(t, i);
        assert(t.take(i) == s.take(i));
    } else {
        assert(s.take(i) == s);
    }
}

proof fn lemma_next_digit(v: nat, d: nat, max: nat)
    requires
        d <= 9,
        d <= max,
    ensures
        v <= (max - d) / 10 ==> 10 * v + d <= max,
        v > (max - d) / 10 ==> 10 * v + d > max,
{
    assert(v <= (max - d) / 10 ==> 10 * v + d <= max) by (nonlinear_arith)
        requires
            d <= max,
    ;
    assert(v > (max - d) / 10 ==> 10 * v + d > max) by (nonlinear_arith)
        requires
            d <= max,
    ;
}

/// Reads `s[from..]` as an unsigned number no greater than `max`.
fn parse_unsigned(s: &Vec<char>, from: usize, max: u64) -> (r: Option<u64>)
    requires
        from <= s@.len(),
        9 <= max,
    ensures
        r == (match bounded_value(s@.skip(from as int), max as nat) {
            Some(v) => Some(v as u64),
            None => None,
        }),
{
    let ghost text = s@.skip(from as int);
    let mut start = from;
    if from < s.len() && s[from] == '+' {
        start = from + 1;
    }
    let ghost digits = s@.skip(start as int);
    assert(digits == (if text.len() > 0 && text[0] == '+' {
        text.drop_first()
    } else {
        text
    }));
    if start >= s.len() {
        return None;
    }
    let mut v: u64 = 0;
    let mut i = start;
    while i < s.len()
        invariant
            start <= i <= s@.len(),
            start < s@.len(),
            text == s@.skip(from as int),
            digits == s@.skip(start as int),
            digits == (if text.len() > 0 && text[0] == '+' {
                text.drop_first()
            } else {
                text
            }),
            all_digits(digits.take(i - start)),
            v == digits_value(digits.take(i - start)),
            v <= max,
            9 <= max,
        decreases s@.len() - i,
    {
        let c = s[i];
        let code = c as u32;
        if code < 48 || code > 57 {
            assert(digits[i - start] == c);
            assert(!(48 <= (digits[i - start] as u32) <= 57));
            assert(!all_digits(digits));
            return None;
        }
        let d = (code - 48) as u64;
        proof {
            lemma_next_digit(v as nat, d as nat, max as nat);
        }
        let ghost prefix = digits.take(i - start + 1);
        assert(prefix.drop_last() == digits.take(i - start));
        assert(prefix.last() == c);
        assert(digits_value(prefix) == 10 * v + d);
        if v > (max - d) / 10 {
            proof {
                if all_digits(digits) {
                    lemma_value_grows(digits, i - start + 1);
                }
            }
            return None;
        }
        v = v * 10 + d;
        i = i + 1;
        assert(all_digits(digits.take(i - start))) by {
            assert forall|k: int| 0 <= k < i - start implies 48 <= #[trigger] (digits.take(
                i - start,
            )[k] as u32) <= 57 by {
                if k < i - start - 1 {
                    assert(digits.take(i - start)[k] == digits.take(i - start - 1)[k]);
                }
            }
        }
    }
    assert(digits.take(i - start) == digits);
    Some(v)
}

/// The target that a command-line argument names (see `target_of`).
pub fn parse_target(input: &str) -> (t: Target)
    ensures
        t@ == target_of(input@),
        t matches Target::Name(n) ==> n@ == input@,
{
    let chars = chars_of(input);
    if chars.len() > 0 && chars[0] == ':' {
        if let Some(port) = parse_unsigned(&chars, 1, 65535) {
            assert(chars@.skip(1) == input@.drop_first());
            return Target::Port(port as u16);
        }
        assert(chars@.skip(1) == input@.drop_first());
    }
    assert(chars@.skip(0) == input@);
    if let Some(pid) = parse_unsigned(&chars, 0, 4294967295) {
        return Target::Pid(pid as u32);
    }
    Target::Name(string_of(input))
}

/// The targets that the arguments name, one for each, in order.
pub fn parse_targets(input: &[String]) -> (r: Vec<Target>)
    ensures
        r@.len() == input@.len(),
        forall|i: int| 0 <= i < input@.len() ==> #[trigger] r@[i]@ == target_of(input@[i]@),
{
    let mut r: Vec<Target> = Vec::new();
    for i in 0..input.len()
        invariant
            r@.len() == i,
            forall|k: int| 0 <= k < i ==> #[trigger] r@[k]@ == target_of(input@[k]@),
    {
        r.push(parse_target(input[i].as_str()));
    }
    r
}


proof fn lemma_decimal_digits(n: nat)
    ensures
        decimal(n).len() > 0,
        all_digits(decimal(n)),
        digits_value(decimal(n)) == n,
        48 <= (decimal(n)[0] as u32) <= 57,
    decreases n,
{
    if n < 10 {
        assert((digit_char(n) as u32) == 48 + n);
        assert(decimal(n).drop_last() =~= Seq::<char>::empty());
        assert(digits_value(Seq::<char>::empty()) == 0);
        assert(decimal(n).last() == digit_char(n));
        assert(digits_value(decimal(n)) == n);
    } else {
        lemma_decimal_digits(n / 10);
        let d = decimal(n);
        assert((digit_char(n % 10) as u32) == 48 + n % 10);
        assert(d.drop_last() == decimal(n / 10));
        assert(d[0] == decimal(n / 10)[0]);
        assert(d.last() == digit_char(n % 10));
        assert(digits_value(d) == 10 * (n / 10) + n % 10);
        assert(all_digits(d)) by {
            assert forall|i: int| 0 <= i < d.len() implies 48 <= #[trigger] (d[i] as u32) <= 57 by {
                if i < d.len() - 1 {
                    assert(d[i] == decimal(n / 10)[i]);
                }
            }
        }
    }
}

/// A PID written in decimal names that process.
pub proof fn lemma_pid_target(pid: u32)
    ensures
        target_of(decimal(pid as nat)) == TargetView::Pid(pid),
{
    lemma_decimal_digits(pid as nat);
    let s = decimal(pid as nat);
    assert(s[0] != ':' && s[0] != '+');
}

/// `:` and a port written in decimal names that port.
pub proof fn lemma_port_target(port: u16)
    ensures
        target_of(":"@ + decimal(port as nat)) == TargetView::Port(port),
{
    reveal_strlit(":");
    lemma_decimal_digits(port as nat);
    let s = ":"@ + decimal(port as nat);
    assert(s.drop_first() =~= decimal(port as nat));
    assert(decimal(port as nat)[0] != '+');
}

/// A target that is neither a port nor a PID keeps its text as it was
/// written: nothing is dropped, added or changed in case.
pub proof fn lemma_name_keeps_text(s: Seq<char>)
    ensures
        target_of(s) matches TargetView::Name(n) ==> n == s,
        target_of(s) is Name <==> (bounded_value(s, 4294967295) is None && !(s.len() > 0 && s[0]
            == ':' && bounded_value(s.drop_first(), 65535) is Some)),
{
}

} // verus!
