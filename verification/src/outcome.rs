//! Outcomes of a verification attempt, their fixed text form, and the
//! counters that sum them up.

use vstd::prelude::*;
use vstd::string::StringExecFns;

verus! {

/// The kind of an outcome: the bucket it is counted in.
#[derive(Clone, Copy, Debug, PartialEq, Eq, Structural)]
pub enum Kind {
    Good,
    Bad,
    NotAvailable,
    Error,
}

/// What a verification attempt found.
#[derive(Debug)]
pub enum Outcome {
    /// The remote content is the local file, byte for byte.
    Good,
    /// The remote content differs from the local file.
    Bad,
    /// Nothing is served under the name, as expected of an unclaimed one.
    NotAvailable,
    /// The attempt could not decide, or found what should not be there.
    Error(String),
}

/// The token `good`.
pub open spec fn good_token() -> Seq<char> {
    seq!['g', 'o', 'o', 'd']
}

/// The token `bad`.
pub open spec fn bad_token() -> Seq<char> {
    seq!['b', 'a', 'd']
}

/// The token `n/a`.
pub open spec fn na_token() -> Seq<char> {
    seq!['n', '/', 'a']
}

/// The word `error`, with which every error status begins.
pub open spec fn error_word() -> Seq<char> {
    seq!['e', 'r', 'r', 'o', 'r']
}

/// The separator `: ` between the parts of a line.
pub open spec fn separator() -> Seq<char> {
    seq![':', ' ']
}

impl Outcome {
    /// The bucket this outcome is counted in.
    pub open spec fn kind(&self) -> Kind {
        match self {
            Outcome::Good => Kind::Good,
            Outcome::Bad => Kind::Bad,
            Outcome::NotAvailable => Kind::NotAvailable,
            Outcome::Error(_) => Kind::Error,
        }
    }

    /// The fixed text form of this outcome.
    pub open spec fn rendered(&self) -> Seq<char> {
        match self {
            Outcome::Good => good_token(),
            Outcome::Bad => bad_token(),
            Outcome::NotAvailable => na_token(),
            Outcome::Error(message) => error_word() + separator() + message@,
        }
    }

    /// The bucket this outcome is counted in.
    pub fn bucket(&self) -> (k: Kind)
        ensures
            k == self.kind(),
    {
        match self {
            Outcome::Good => Kind::Good,
            Outcome::Bad => Kind::Bad,
            Outcome::NotAvailable => Kind::NotAvailable,
            Outcome::Error(_) => Kind::Error,
        }
    }

    /// Renders this outcome as `good`, `bad`, `n/a` or `error: ` and the
    /// message.
    pub fn render(&self) -> (s: String)
        ensures
            s@ == self.rendered(),
    {
        proof {
            reveal_strlit("good");
            reveal_strlit("bad");
            reveal_strlit("n/a");
            reveal_strlit("error: ");
        }
        match self {
            Outcome::Good => {
                assert("good"@ =~= good_token());
                "good".to_owned()
            },
            Outcome::Bad => {
                assert("bad"@ =~= bad_token());
                "bad".to_owned()
            },
            Outcome::NotAvailable => {
                assert("n/a"@ =~= na_token());
                "n/a".to_owned()
            },
            Outcome::Error(message) => {
                assert("error: "@ =~= error_word() + separator());
                let mut s = "error: ".to_owned();
                s.append(message.as_str());
                s
            },
        }
    }
}

/// The line that records `outcome` for `name`: the name, `: ` and the
/// rendered outcome.
pub open spec fn entry_line(name: Seq<char>, outcome: Outcome) -> Seq<char> {
    name + separator() + outcome.rendered()
}

/// Builds the line that records `outcome` for `name`, without a line ending.
pub fn ledger_line(name: &str, outcome: &Outcome) -> (line: String)
    ensures
        line@ == entry_line(name@, *outcome),
{
    proof {
        reveal_strlit(": ");
    }
    assert(": "@ =~= separator());
    let mut line = name.to_owned();
    line.append(": ");
    let status = outcome.render();
    line.append(status.as_str());
    line
}

/// How many outcomes of each kind were decided.
#[derive(Clone, Copy, Debug, PartialEq, Eq, Structural)]
pub struct Counter {
    pub good: u64,
    pub bad: u64,
    pub na: u64,
    pub error: u64,
}

impl Default for Counter {
    fn default() -> (c: Counter)
        ensures
            c == Counter::zero(),
    {
        Counter { good: 0, bad: 0, na: 0, error: 0 }
    }
}

impl Counter {
    /// The counter of a run in which nothing was decided yet.
    pub open spec fn zero() -> Counter {
        Counter { good: 0, bad: 0, na: 0, error: 0 }
    }

    /// The count of outcomes of kind `k`.
    pub open spec fn count(&self, k: Kind) -> nat {
        match k {
            Kind::Good => self.good as nat,
            Kind::Bad => self.bad as nat,
            Kind::NotAvailable => self.na as nat,
            Kind::Error => self.error as nat,
        }
    }

    /// Whether `self` is `before` with one more outcome of kind `k`.
    pub open spec fn follows(&self, before: Counter, k: Kind) -> bool {
        forall|j: Kind| #[trigger]
            self.count(j) == before.count(j) + (if j == k {
                1nat
            } else {
                0nat
            })
    }

    /// A counter with every count at zero.
    pub fn new() -> (c: Counter)
        ensures
            c == Counter::zero(),
    {
        Counter { good: 0, bad: 0, na: 0, error: 0 }
    }

    /// Counts one more outcome of kind `k`: that count grows by one, the
    /// others stay.
    pub fn record(&mut self, k: Kind)
        requires
            old(self).count(k) < u64::MAX,
        ensures
            final(self).follows(*old(self), k),
    {
        match k {
            Kind::Good => {
                self.good = self.good + 1;
            },
            Kind::Bad => {
                self.bad = self.bad + 1;
            },
            Kind::NotAvailable => {
                self.na = self.na + 1;
            },
            Kind::Error => {
                self.error = self.error + 1;
            },
        }
    }

    /// Renders the counts behind `label`: the label, then `: `, then each
    /// count in decimal with its word, in the order good, bad, n/a, error.
    pub fn summary(&self, label: &str) -> (s: String)
        ensures
            s@ == summary_line(label@, *self),
    {
        proof {
            reveal_strlit(": ");
            reveal_strlit(" good, ");
            reveal_strlit(" bad, ");
            reveal_strlit(" n/a, ");
            reveal_strlit(" error");
        }
        assert(": "@ =~= separator());
        assert(" good, "@ =~= seq![' '] + good_token() + seq![',', ' ']);
        assert(" bad, "@ =~= seq![' '] + bad_token() + seq![',', ' ']);
        assert(" n/a, "@ =~= seq![' '] + na_token() + seq![',', ' ']);
        assert(" error"@ =~= seq![' '] + error_word());
        let mut s = label.to_owned();
        s.append(": ");
        push_decimal(&mut s, self.good);
        s.append(" good, ");
        push_decimal(&mut s, self.bad);
        s.append(" bad, ");
        push_decimal(&mut s, self.na);
        s.append(" n/a, ");
        push_decimal(&mut s, self.error);
        s.append(" error");
        s
    }
}

/// The decimal digit that stands for `d`, for `d` below ten.
pub open spec fn digit(d: nat) -> char {
    if d == 0 {
        '0'
    } else if d == 1 {
        '1'
    } else if d == 2 {
        '2'
    } else if d == 3 {
        '3'
    } else if d == 4 {
        '4'
    } else if d == 5 {
        '5'
    } else if d == 6 {
        '6'
    } else if d == 7 {
        '7'
    } else if d == 8 {
        '8'
    } else {
        '9'
    }
}

/// The decimal numeral of `n`, without leading zeros.
pub open spec fn decimal(n: nat) -> Seq<char>
    decreases n,
{
    if n < 10 {
        seq![digit(n)]
    } else {
        decimal(n / 10).push(digit(n % 10))
    }
}

/// The summary of `c` behind `label`.
pub open spec fn summary_line(label: Seq<char>, c: Counter) -> Seq<char> {
    label + separator() + decimal(c.good as nat) + (seq![' '] + good_token() + seq![',', ' '])
        + decimal(c.bad as nat) + (seq![' '] + bad_token() + seq![',', ' ']) + decimal(
        c.na as nat,
    ) + (seq![' '] + na_token() + seq![',', ' ']) + decimal(c.error as nat) + (seq![' ']
        + error_word())
}

/// The decimal digit of `d`.
pub fn digit_char(d: u64) -> (c: char)
    requires
        d < 10,
    ensures
        c == digit(d as nat),
{
    if d == 0 {
        '0'
    } else if d == 1 {
        '1'
    } else if d == 2 {
        '2'
    } else if d == 3 {
        '3'
    } else if d == 4 {
        '4'
    } else if d == 5 {
        '5'
    } else if d == 6 {
        '6'
    } else if d == 7 {
        '7'
    } else if d == 8 {
        '8'
    } else {
        '9'
    }
}

/// Appends the decimal numeral of `n` to `s`.
pub fn push_decimal(s: &mut String, n: u64)
    ensures
        final(s)@ == old(s)@ + decimal(n as nat),
    decreases n,
{
    if n >= 10 {
        push_decimal(s, n / 10);
    }
    s.push(digit_char(n % 10));
    assert(s@ =~= old(s)@ + decimal(n as nat));
}

} // verus!
