//! The `lease` command: how its request reads and what reply it expects.

use crate::error::Error;
use vstd::prelude::*;
use vstd::string::StringExecFns;

verus! {

/// The timeout of a lease when the caller names none, in milliseconds.
pub const DEFAULT_TIMEOUT: usize = 10000;

/// The character of one decimal digit.
pub open spec fn digit(d: nat) -> char {
    seq!['0', '1', '2', '3', '4', '5', '6', '7', '8', '9'][d as int]
}

/// The decimal digits of `n`, without leading zeros.
pub open spec fn decimal(n: nat) -> Seq<char>
    decreases n,
{
    if n < 10 {
        seq![digit(n)]
    } else {
        decimal(n / 10).push(digit(n % 10))
    }
}

/// The names laid end to end with one space between neighbours.
pub open spec fn joined(names: Seq<Seq<char>>) -> Seq<char>
    decreases names.len(),
{
    if names.len() == 0 {
        Seq::empty()
    } else if names.len() == 1 {
        names[0]
    } else {
        joined(names.drop_last()) + seq![' '] + names.last()
    }
}

/// The text of a lease request: the word `lease`, the names, and the timeout
/// in decimal, with one space between the three.
pub open spec fn lease_text(names: Seq<Seq<char>>, timeout: Option<usize>) -> Seq<char> {
    let millis = match timeout {
        Some(v) => v,
        None => DEFAULT_TIMEOUT,
    };
    seq!['l', 'e', 'a', 's', 'e', ' '] + joined(names) + seq![' '] + decimal(millis as nat)
}

/// The one reply that grants a lease.
pub open spec fn lease_granted() -> Seq<char> {
    seq!['[', 'l', 'e', 'a', 's', 'e', ']']
}

/// What a lease call makes of the outcome of its request: any reply but the
/// granting one is `UnexpectedResponse`; a failure stays what it is.
pub open spec fn lease_verdict(outcome: Result<Seq<char>, Error>) -> Result<Seq<char>, Error> {
    match outcome {
        Ok(text) => if text == lease_granted() {
            Ok(text)
        } else {
            Err(Error::UnexpectedResponse)
        },
        Err(e) => Err(e),
    }
}

/// The text of one digit.
fn digit_str(d: usize) -> (s: &'static str)
    requires
        d < 10,
    ensures
        s@ == seq![digit(d as nat)],
{
    proof {
        reveal_strlit("0");
        reveal_strlit("1");
        reveal_strlit("2");
        reveal_strlit("3");
        reveal_strlit("4");
        reveal_strlit("5");
        reveal_strlit("6");
        reveal_strlit("7");
        reveal_strlit("8");
        reveal_strlit("9");
    }
    let s = match d {
        0 => "0",
        1 => "1",
        2 => "2",
        3 => "3",
        4 => "4",
        5 => "5",
        6 => "6",
        7 => "7",
        8 => "8",
        _ => "9",
    };
    assert(s@ =~= seq![digit(d as nat)]);
    s
}

/// Writes `n` in decimal behind `out`.
pub fn push_decimal(n: usize, out: &mut String)
    ensures
        final(out)@ == old(out)@ + decimal(n as nat),
    decreases n,
{
    if n >= 10 {
        push_decimal(n / 10, out);
    }
    out.append(digit_str(n % 10));
    assert(out@ =~= old(out)@ + decimal(n as nat));
}

/// Writes the names behind `out`, with one space between neighbours.
pub fn push_joined(names: &Vec<String>, out: &mut String)
    ensures
        final(out)@ == old(out)@ + joined(names.deep_view()),
{
    let ghost texts = names.deep_view();
    let mut i: usize = 0;
    assert(texts.take(0) =~= Seq::<Seq<char>>::empty());
    assert(out@ =~= old(out)@ + joined(texts.take(0)));
    while i < names.len()
        invariant
            i <= names.len(),
            texts == names.deep_view(),
            out@ == old(out)@ + joined(texts.take(i as int)),
        decreases names.len() - i,
    {
        let ghost before = texts.take(i as int);
        let ghost now = texts.take(i + 1);
        assert(now.drop_last() =~= before);
        assert(now.last() == names[i as int]@);
        if i > 0 {
            proof {
                reveal_strlit(" ");
            }
            out.append(" ");
            assert(" "@ =~= seq![' ']);
        }
        out.append(names[i].as_str());
        assert(out@ =~= old(out)@ + joined(now));
        i += 1;
    }
    assert(texts.take(names.len() as int) =~= texts);
}

/// The request of a lease on `names`, for `timeout` milliseconds or, when
/// none is given, for ten seconds.
pub fn lease_request(names: &Vec<String>, timeout: Option<usize>) -> (request: String)
    ensures
        request@ == lease_text(names.deep_view(), timeout),
{
    let millis = match timeout {
        Some(v) => v,
        None => DEFAULT_TIMEOUT,
    };
    proof {
        reveal_strlit("lease ");
        reveal_strlit(" ");
    }
    let mut request = String::from_str("lease ");
    assert(request@ =~= seq!['l', 'e', 'a', 's', 'e', ' ']);
    push_joined(names, &mut request);
    request.append(" ");
    assert(" "@ =~= seq![' ']);
    push_decimal(millis, &mut request);
    request
}

/// Reads the outcome of a lease request: the reply `[lease]` grants the
/// lease, any other reply is `UnexpectedResponse`, a failure stays.
pub fn lease_reply(outcome: Result<String, Error>) -> (r: Result<String, Error>)
    ensures
        crate::pipeline::outcome_view(r) == lease_verdict(crate::pipeline::outcome_view(outcome)),
        r is Ok ==> r == outcome,
{
    match outcome {
        Ok(text) => {
            proof {
                reveal_strlit("[lease]");
            }
            let granted = String::from_str("[lease]");
            assert(granted@ =~= lease_granted());
            if text == granted {
                Ok(text)
            } else {
                Err(Error::UnexpectedResponse)
            }
        },
        Err(e) => Err(e),
    }
}

} // verus!
