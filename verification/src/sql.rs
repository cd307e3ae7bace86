//! Parts of SQL statements built from values.

use vstd::prelude::*;
use vstd::string::StringExecFns;

use crate::text::{join, push_char};

verus! {

broadcast use vstd::string::group_string_axioms;

/// The character of the decimal digit `d`.
pub open spec fn digit_char(d: nat) -> char {
    if d == 0 {
        '0'
    } else if d == 1 {
        '1'
    } else if d == 2 {
        '2'
    } else if d == 3 {
        '3'
    } else if d == 4 {
        '4'
    } else if d == 5 {
        '5'
    } else if d == 6 {
        '6'
    } else if d == 7 {
        '7'
    } else if d == 8 {
        '8'
    } else {
        '9'
    }
}

/// The decimal representation of `n`, without leading zeros.
pub open spec fn decimal(n: nat) -> Seq<char>
    decreases n,
{
    if n < 10 {
        seq![digit_char(n)]
    } else {
        decimal(n / 10).push(digit_char(n % 10))
    }
}

/// The numbered parameter markers `?1, ?2, ..., ?n`.
pub open spec fn placeholders_text(n: nat) -> Seq<char> {
    join(Seq::new(n, |i: int| "?"@ + decimal((i + 1) as nat)), ", "@)
}

fn digit_of(d: usize) -> (c: char)
    requires
        d < 10,
    ensures
        c == digit_char(d as nat),
{
    match d {
        0 => '0',
        1 => '1',
        2 => '2',
        3 => '3',
        4 => '4',
        5 => '5',
        6 => '6',
        7 => '7',
        8 => '8',
        _ => '9',
    }
}

/// Appends the decimal representation of `n` to `s`.
pub fn push_decimal(s: &mut String, n: usize)
    ensures
        final(s)@ == old(s)@ + decimal(n as nat),
    decreases n,
{
    if n >= 10 {
        push_decimal(s, n / 10);
    }
    push_char(s, digit_of(n % 10));
    proof {
        if n < 10 {
            assert(old(s)@.push(digit_char(n as nat)) == old(s)@ + seq![digit_char(n as nat)]);
        }
    }
}

/// The numbered parameter markers `?1, ?2, ..., ?n` of an `IN (...)` list.
pub fn placeholders(n: usize) -> (p: String)
    ensures
        p@ == placeholders_text(n as nat),
{
    let ghost parts = Seq::new(n as nat, |i: int| "?"@ + decimal((i + 1) as nat));
    let mut p = String::new();
    let mut i: usize = 0;
    while i < n
        invariant
            i <= n,
            parts == Seq::new(n as nat, |i: int| "?"@ + decimal((i + 1) as nat)),
            p@ == join(parts.take(i as int), ", "@),
        decreases n - i,
    {
        let ghost before = p@;
        if i > 0 {
            p.append(", ");
        }
        p.append("?");
        push_decimal(&mut p, i + 1);
        proof {
            assert(parts.take(i + 1).drop_last() == parts.take(i as int));
            assert(parts.take(i + 1).last() == "?"@ + decimal((i + 1) as nat));
            if i == 0 {
                assert(parts.take(1)[0] == "?"@ + decimal(1));
                assert(before == Seq::<char>::empty());
            }
        }
        i = i + 1;
    }
    assert(parts.take(n as int) == parts);
    p
}

/// The query fetching the notes with the `n` given ids.
pub fn notes_by_ids_sql(n: usize) -> (q: String)
    ensures
        q@ == "SELECT id, content, thought_at, logged_at, sentiment
             FROM notes WHERE id IN ("@ + placeholders_text(n as nat) + ")"@,
{
    let mut q = "SELECT id, content, thought_at, logged_at, sentiment
             FROM notes WHERE id IN (".to_string();
    let p = placeholders(n);
    q.append(p.as_str());
    q.append(")");
    q
}

} // verus!
