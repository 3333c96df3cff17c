use vstd::prelude::*;

use crate::domain::command::{command_views, is_command_text, string_views, CommandText};
use crate::domain::queue::{QueueError, QueueRepository};

verus! {

/// The decimal digit for `d`, which is below ten.
pub open spec fn digit_char(d: nat) -> char {
    (d + 48) as char
}

/// The decimal notation of `n`, without leading zeros.
pub open spec fn decimal(n: nat) -> Seq<char>
    decreases n,
{
    if n < 10 {
        seq![digit_char(n)]
    } else {
        decimal(n / 10).push(digit_char(n % 10))
    }
}

/// The line that shows the command `c` at position `number` (counting
/// from one) in a listing: `number: c`.
pub open spec fn listing_line(number: nat, c: Seq<char>) -> Seq<char> {
    decimal(number) + seq![':', ' '] + c
}

/// The listing of the commands `cs`, numbered from one.
pub open spec fn listing(cs: Seq<Seq<char>>) -> Seq<Seq<char>> {
    Seq::new(cs.len(), |i: int| listing_line((i + 1) as nat, cs[i]))
}

/// The one-character text of the decimal digit `d`.
fn digit_text(d: usize) -> (r: &'static str)
    requires
        d < 10,
    ensures
        r@ == seq![digit_char(d as nat)],
{
    proof {
        reveal_strlit("0");
        reveal_strlit("1");
        reveal_strlit("2");
        reveal_strlit("3");
        reveal_strlit("4");
        reveal_strlit("5");
        reveal_strlit("6");
        reveal_strlit("7");
        reveal_strlit("8");
        reveal_strlit("9");
    }
    if d == 0 {
        "0"
    } else if d == 1 {
        "1"
    } else if d == 2 {
        "2"
    } else if d == 3 {
        "3"
    } else if d == 4 {
        "4"
    } else if d == 5 {
        "5"
    } else if d == 6 {
        "6"
    } else if d == 7 {
        "7"
    } else if d == 8 {
        "8"
    } else {
        "9"
    }
}

/// Appends the decimal notation of `n` to `s`.
fn push_decimal(s: &mut String, n: usize)
    ensures
        final(s)@ == old(s)@ + decimal(n as nat),
    decreases n,
{
    if n >= 10 {
        push_decimal(s, n / 10);
    }
    s.append(digit_text(n % 10));
    assert(final(s)@ =~= old(s)@ + decimal(n as nat));
}

/// The lines that show `commands`, numbered from one, front first.
pub fn format_listing(commands: &Vec<CommandText>) -> (r: Vec<String>)
    ensures
        string_views(r@) == listing(command_views(commands@)),
        forall|i: int|
            0 <= i < commands@.len() ==> is_command_text(#[trigger] command_views(commands@)[i]),
        r@.len() == commands@.len(),
        forall|i: int|
            0 <= i < commands@.len() ==> shows_at(#[trigger] r@[i]@, i + 1, commands@[i]@),
{
    let n = commands.len();
    let mut out: Vec<String> = Vec::new();
    let separator = ": ";
    proof {
        reveal_strlit(": ");
    }
    let mut i: usize = 0;
    while i < n
        invariant
            n == commands.len(),
            i <= n,
            separator@ == seq![':', ' '],
            string_views(out@) == listing(command_views(commands@)).take(i as int),
            forall|j: int| 0 <= j < i ==> is_command_text(#[trigger] command_views(commands@)[j]),
        decreases n - i,
    {
        let mut line = String::new();
        push_decimal(&mut line, i + 1);
        line.append(separator);
        line.append(commands[i].as_str());
        let ghost before = out@;
        assert(command_views(commands@)[i as int] == commands@[i as int]@);
        assert(line@ =~= listing_line((i + 1) as nat, commands@[i as int]@));
        assert(listing(command_views(commands@))[i as int] == listing_line(
            (i + 1) as nat,
            commands@[i as int]@,
        ));
        out.push(line);
        assert(string_views(out@) =~= string_views(before).push(out@[i as int]@));
        assert(string_views(out@) =~= listing(command_views(commands@)).take(i + 1));
        i = i + 1;
    }
    assert(listing(command_views(commands@)).take(n as int) =~= listing(
        command_views(commands@),
    ));
    proof {
        lemma_listing_numbers_positions(command_views(commands@));
        assert forall|i: int| 0 <= i < commands@.len() implies shows_at(
            #[trigger] out@[i]@,
            i + 1,
            commands@[i]@,
        ) by {
            assert(string_views(out@)[i] == out@[i]@);
            assert(command_views(commands@)[i] == commands@[i]@);
            assert(listing(command_views(commands@))[i] == string_views(out@)[i]);
        }
    }
    out
}

/// The listing of the queue, for showing to the user: one line per
/// command, `number: command`, numbered from one, front first, made from
/// what the repository's `list` gave. A failure to read the queue is
/// passed on as it came.
pub fn list_commands<Q: QueueRepository>(repo: &Q) -> (r: Result<Vec<String>, QueueError>)
    ensures
        r matches Ok(lines) ==> exists|v: Vec<CommandText>|
            #![trigger call_ensures(Q::list, (repo,), Ok::<Vec<CommandText>, QueueError>(v))]
            call_ensures(Q::list, (repo,), Ok::<Vec<CommandText>, QueueError>(v)) && string_views(
                lines@,
            ) == listing(command_views(v@)) && forall|i: int|
                0 <= i < v@.len() ==> is_command_text(#[trigger] command_views(v@)[i]),
        r matches Err(e) ==> call_ensures(Q::list, (repo,), Err::<Vec<CommandText>, QueueError>(e)),
{
    match repo.list() {
        Ok(commands) => {
            let lines = format_listing(&commands);
            assert(string_views(lines@) == listing(command_views(commands@)));
            Ok(lines)
        },
        Err(e) => Err(e),
    }
}


/// `c` is one of the decimal digits `0` to `9`.
pub open spec fn is_digit(c: char) -> bool {
    '0' <= c <= '9'
}

/// The number that the decimal digits `s` denote, most significant first.
pub open spec fn digits_value(s: Seq<char>) -> int
    decreases s.len(),
{
    if s.len() == 0 {
        0
    } else {
        digits_value(s.drop_last()) * 10 + (s.last() as int - '0' as int)
    }
}

/// The decimal notation of `n` is made of digits, has no leading zero, and
/// denotes `n`.
pub proof fn lemma_decimal_denotes(n: nat)
    ensures
        decimal(n).len() > 0,
        forall|j: int| 0 <= j < decimal(n).len() ==> is_digit(#[trigger] decimal(n)[j]),
        decimal(n).len() == 1 || decimal(n)[0] != '0',
        n < 10 ==> decimal(n).len() == 1,
        n >= 10 ==> decimal(n).len() > 1,
        digits_value(decimal(n)) == n,
    decreases n,
{
    if n < 10 {
        let d = decimal(n);
        assert(d[0] == digit_char(n));
        assert(d.last() == digit_char(n));
        assert(d.drop_last() =~= Seq::<char>::empty());
        assert(digits_value(d.drop_last()) == 0);
        assert(digit_char(n) as int == n + 48);
        assert('0' as int == 48);
    } else {
        let q = n / 10;
        let r = n % 10;
        lemma_decimal_denotes(q);
        let d = decimal(n);
        assert(d == decimal(q).push(digit_char(r)));
        assert(d.drop_last() =~= decimal(q));
        assert(d[0] == decimal(q)[0]);
        assert forall|j: int| 0 <= j < d.len() implies is_digit(#[trigger] d[j]) by {
            if j < decimal(q).len() {
                assert(d[j] == decimal(q)[j]);
            }
        }
        assert(d.last() == digit_char(r));
        assert(digit_char(r) as int == r + 48);
        assert('0' as int == 48);
        assert(q * 10 + r == n) by (nonlinear_arith)
            requires
                q == n / 10,
                r == n % 10,
        ;
        if decimal(q).len() == 1 {
            assert(q >= 1) by (nonlinear_arith)
                requires
                    q == n / 10,
                    n >= 10,
            ;
            assert(decimal(q)[0] != '0') by {
                assert(decimal(q)[0] == digit_char(q));
                assert(digit_char(q) as int == q + 48);
                assert('0' as int == 48);
            }
        }
    }
}

/// `line` shows the command `c` at position `number`: the number in
/// decimal digits without a leading zero, then `: `, then the command.
pub open spec fn shows_at(line: Seq<char>, number: int, c: Seq<char>) -> bool {
    exists|d: Seq<char>|
        #![trigger digits_value(d)]
        {
            &&& line == d + seq![':', ' '] + c
            &&& d.len() > 0
            &&& forall|j: int| 0 <= j < d.len() ==> is_digit(#[trigger] d[j])
            &&& d.len() == 1 || d[0] != '0'
            &&& digits_value(d) == number
        }
}

/// Each line of a listing shows the command at that position, numbered
/// from one.
pub proof fn lemma_listing_numbers_positions(cs: Seq<Seq<char>>)
    ensures
        listing(cs).len() == cs.len(),
        forall|i: int| 0 <= i < cs.len() ==> shows_at(#[trigger] listing(cs)[i], i + 1, cs[i]),
{
    assert forall|i: int| 0 <= i < cs.len() implies shows_at(
        #[trigger] listing(cs)[i],
        i + 1,
        cs[i],
    ) by {
        lemma_decimal_denotes((i + 1) as nat);
        let d = decimal((i + 1) as nat);
        assert(listing(cs)[i] == listing_line((i + 1) as nat, cs[i]));
        assert(digits_value(d) == i + 1);
    }
}

} // verus!
