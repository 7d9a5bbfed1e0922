//! The textual form of a logged operation.
//!
//! Every requested operation is recorded as one line of the shape
//! `Thread <worker-id>: <ActionVerb> value: <integer>`, with the verb taken
//! from the action kind and both numbers written in decimal. The rendering
//! is specified character by character, down to the decimal digits.

use vstd::prelude::*;
use vstd::string::StringExecFns;
use crate::workload::Action;

verus! {

/// The decimal digit character for `d`, which must lie below ten.
pub open spec fn digit_char(d: nat) -> char {
    if d == 0 {
        '0'
    } else if d == 1 {
        '1'
    } else if d == 2 {
        '2'
    } else if d == 3 {
        '3'
    } else if d == 4 {
        '4'
    } else if d == 5 {
        '5'
    } else if d == 6 {
        '6'
    } else if d == 7 {
        '7'
    } else if d == 8 {
        '8'
    } else {
        '9'
    }
}

/// The decimal digits of `n`, most significant first, without a sign and
/// without leading zeros (a single `'0'` for zero itself).
pub open spec fn dec_digits(n: nat) -> Seq<char>
    decreases n,
{
    if n < 10 {
        seq![digit_char(n)]
    } else {
        dec_digits(n / 10).push(digit_char(n % 10))
    }
}

/// The decimal rendering of a signed value: a leading `'-'` for negative
/// values, the digits of the magnitude otherwise unchanged.
pub open spec fn int_dec(v: int) -> Seq<char> {
    if v >= 0 {
        dec_digits(v as nat)
    } else {
        seq!['-'] + dec_digits((-v) as nat)
    }
}

/// The verb a log line uses for each action kind.
pub open spec fn verb_chars(a: Action) -> Seq<char> {
    match a {
        Action::Insert => "Inserting"@,
        Action::Delete => "Deleting"@,
        Action::Search => "Searching for"@,
    }
}

/// One whole log line: worker identity, action verb, operand value.
pub open spec fn log_line_chars(worker: nat, a: Action, value: int) -> Seq<char> {
    "Thread "@ + dec_digits(worker) + ": "@ + verb_chars(a) + " value: "@ + int_dec(value)
}

fn digit_str(d: u64) -> (r: &'static str)
    requires
        d < 10,
    ensures
        r@ == seq![digit_char(d as nat)],
{
    proof {
        reveal_strlit("0");
        reveal_strlit("1");
        reveal_strlit("2");
        reveal_strlit("3");
        reveal_strlit("4");
        reveal_strlit("5");
        reveal_strlit("6");
        reveal_strlit("7");
        reveal_strlit("8");
        reveal_strlit("9");
    }
    if d == 0 {
        let r = "0";
        assert(r@ =~= seq![digit_char(d as nat)]);
        r
    } else if d == 1 {
        let r = "1";
        assert(r@ =~= seq![digit_char(d as nat)]);
        r
    } else if d == 2 {
        let r = "2";
        assert(r@ =~= seq![digit_char(d as nat)]);
        r
    } else if d == 3 {
        let r = "3";
        assert(r@ =~= seq![digit_char(d as nat)]);
        r
    } else if d == 4 {
        let r = "4";
        assert(r@ =~= seq![digit_char(d as nat)]);
        r
    } else if d == 5 {
        let r = "5";
        assert(r@ =~= seq![digit_char(d as nat)]);
        r
    } else if d == 6 {
        let r = "6";
        assert(r@ =~= seq![digit_char(d as nat)]);
        r
    } else if d == 7 {
        let r = "7";
        assert(r@ =~= seq![digit_char(d as nat)]);
        r
    } else if d == 8 {
        let r = "8";
        assert(r@ =~= seq![digit_char(d as nat)]);
        r
    } else {
        let r = "9";
        assert(r@ =~= seq![digit_char(d as nat)]);
        r
    }
}

/// The decimal rendering of an unsigned value.
pub fn u64_dec(n: u64) -> (r: String)
    ensures
        r@ == dec_digits(n as nat),
    decreases n,
{
    if n < 10 {
        digit_str(n).to_owned()
    } else {
        let mut s = u64_dec(n / 10);
        s.append(digit_str(n % 10));
        proof {
            assert(s@ =~= dec_digits(n as nat));
        }
        s
    }
}

/// The decimal rendering of a signed value.
pub fn i32_dec(v: i32) -> (r: String)
    ensures
        r@ == int_dec(v as int),
{
    if v >= 0 {
        u64_dec(v as u64)
    } else {
        proof {
            reveal_strlit("-");
        }
        let mag: u64 = (-(v as i64)) as u64;
        assert(mag as nat == (-(v as int)) as nat);
        let mut s = "-".to_owned();
        let d = u64_dec(mag);
        s.append(d.as_str());
        proof {
            assert(s@ =~= int_dec(v as int));
        }
        s
    }
}

/// The verb for an action kind, as it appears in the log.
pub fn action_verb(a: Action) -> (r: &'static str)
    ensures
        r@ == verb_chars(a),
{
    match a {
        Action::Insert => "Inserting",
        Action::Delete => "Deleting",
        Action::Search => "Searching for",
    }
}

/// One log line for the given worker, action and value, exactly in the shape
/// `Thread <worker-id>: <ActionVerb> value: <integer>`.
pub fn log_line(worker: u64, a: Action, value: i32) -> (r: String)
    ensures
        r@ == log_line_chars(worker as nat, a, value as int),
{
    let mut s = "Thread ".to_owned();
    let w = u64_dec(worker);
    s.append(w.as_str());
    s.append(": ");
    s.append(action_verb(a));
    s.append(" value: ");
    let d = i32_dec(value);
    s.append(d.as_str());
    proof {
        assert(s@ =~= log_line_chars(worker as nat, a, value as int));
    }
    s
}

} // verus!
