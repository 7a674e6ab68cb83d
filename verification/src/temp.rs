//! Naming temporary files and deciding, attempt by attempt, whether to try
//! another name.
use vstd::prelude::*;
use crate::paths::{joined, path_join};
use crate::text::push_char;

verus! {

/// How many names are tried before giving up.
pub const TEMP_FILE_ATTEMPTS: u32 = 100;

/// The character of a decimal digit.
pub open spec fn digit_char(d: nat) -> char {
    (48 + d) as char
}

/// The decimal representation of `n`, without leading zeros.
pub open spec fn decimal(n: nat) -> Seq<char>
    decreases n,
{
    if n < 10 {
        seq![digit_char(n)]
    } else {
        decimal(n / 10).push(digit_char(n % 10))
    }
}

/// The number a string of decimal digits stands for.
pub open spec fn decimal_value(s: Seq<char>) -> int
    decreases s.len(),
{
    if s.len() == 0 {
        0
    } else {
        decimal_value(s.drop_last()) * 10 + (s.last() as int - 48)
    }
}

proof fn lemma_decimal_value(n: nat)
    ensures
        decimal_value(decimal(n)) == n,
        decimal(n).len() > 0,
    decreases n,
{
    let d = n % 10;
    assert(digit_char(d) as int == 48 + d);
    let s = decimal(n);
    assert(s.last() == digit_char(d));
    assert(decimal_value(s) == decimal_value(s.drop_last()) * 10 + (s.last() as int - 48));
    if n < 10 {
        assert(s.drop_last() =~= Seq::<char>::empty());
        assert(decimal_value(s.drop_last()) == 0);
    } else {
        lemma_decimal_value(n / 10);
        assert(s.drop_last() == decimal(n / 10));
        assert(n == (n / 10) * 10 + n % 10);
    }
}

/// Different numbers are written differently.
pub proof fn lemma_decimal_injective(a: nat, b: nat)
    requires
        decimal(a) == decimal(b),
    ensures
        a == b,
{
    lemma_decimal_value(a);
    lemma_decimal_value(b);
}

/// Appends the decimal representation of `n` to `s`.
fn push_decimal(s: &mut String, n: u128)
    ensures
        final(s)@ == old(s)@ + decimal(n as nat),
    decreases n,
{
    if n >= 10 {
        push_decimal(s, n / 10);
    }
    let d: u8 = (n % 10) as u8;
    let c: char = (48u8 + d) as char;
    push_char(s, c);
    proof {
        if n >= 10 {
            assert(decimal(n as nat) == decimal((n / 10) as nat).push(digit_char((n % 10) as nat)));
        }
    }
}

/// The file name tried at a given attempt:
/// `{prefix}-{pid}-{now_millis}-{attempt}.tmp`.
pub open spec fn temp_name(prefix: Seq<char>, pid: u32, now_millis: u128, attempt: u32) -> Seq<char> {
    prefix + seq!['-'] + decimal(pid as nat) + seq!['-'] + decimal(now_millis as nat) + seq!['-']
        + decimal(attempt as nat) + seq!['.', 't', 'm', 'p']
}

/// The file name tried at attempt `attempt` by process `pid` at
/// `now_millis` milliseconds since the Unix epoch.
pub fn temp_file_name(prefix: &str, pid: u32, now_millis: u128, attempt: u32) -> (name: String)
    ensures
        name@ == temp_name(prefix@, pid, now_millis, attempt),
{
    let mut name = String::new();
    name.append(prefix);
    push_char(&mut name, '-');
    push_decimal(&mut name, pid as u128);
    push_char(&mut name, '-');
    push_decimal(&mut name, now_millis);
    push_char(&mut name, '-');
    push_decimal(&mut name, attempt as u128);
    push_char(&mut name, '.');
    push_char(&mut name, 't');
    push_char(&mut name, 'm');
    push_char(&mut name, 'p');
    assert(name@ =~= temp_name(prefix@, pid, now_millis, attempt));
    name
}

/// The path tried at attempt `attempt`: the file name inside `base`.
pub fn temp_candidate(base: &str, prefix: &str, pid: u32, now_millis: u128, attempt: u32) -> (path: String)
    ensures
        path@ == joined(base@, temp_name(prefix@, pid, now_millis, attempt)),
{
    let name = temp_file_name(prefix, pid, now_millis, attempt);
    path_join(base, name.as_str())
}

/// Each attempt of one process at one moment tries a name of its own.
pub proof fn lemma_temp_names_distinct(prefix: Seq<char>, pid: u32, now_millis: u128, a: u32, b: u32)
    requires
        a != b,
    ensures
        temp_name(prefix, pid, now_millis, a) != temp_name(prefix, pid, now_millis, b),
{
    let head = prefix + seq!['-'] + decimal(pid as nat) + seq!['-'] + decimal(now_millis as nat) + seq!['-'];
    let tail = seq!['.', 't', 'm', 'p'];
    let na = temp_name(prefix, pid, now_millis, a);
    let nb = temp_name(prefix, pid, now_millis, b);
    assert(na == head + decimal(a as nat) + tail);
    assert(nb == head + decimal(b as nat) + tail);
    if na == nb {
        let da = decimal(a as nat);
        let db = decimal(b as nat);
        assert(na.len() == head.len() + da.len() + 4);
        assert(nb.len() == head.len() + db.len() + 4);
        assert(da.len() == db.len());
        assert forall|k: int| 0 <= k < da.len() implies da[k] == db[k] by {
            assert(na[head.len() + k] == da[k]);
            assert(nb[head.len() + k] == db[k]);
        }
        assert(da =~= db);
        lemma_decimal_injective(a as nat, b as nat);
    }
}

/// How opening a candidate file went.
#[derive(Clone, Copy, Debug, PartialEq, Eq, Structural)]
pub enum OpenOutcome {
    /// The file was created.
    Created,
    /// A file of that name exists already.
    AlreadyExists,
    /// Opening failed for another reason.
    Failed,
}

/// What to do after an attempt.
#[derive(Clone, Copy, Debug, PartialEq, Eq, Structural)]
pub enum TempStep {
    /// The candidate is the temporary file.
    Done,
    /// Try the name of this attempt next.
    Retry(u32),
    /// Every name was taken: give up with an "already exists" error.
    Exhausted,
    /// Give up with the error that opening reported.
    Fail,
}

/// The step after attempt `attempt` ended with `outcome`: a taken name moves
/// on to the next attempt while there is one left.
pub fn temp_file_step(attempt: u32, outcome: OpenOutcome) -> (step: TempStep)
    requires
        attempt < TEMP_FILE_ATTEMPTS,
    ensures
        outcome == OpenOutcome::Created ==> step == TempStep::Done,
        outcome == OpenOutcome::Failed ==> step == TempStep::Fail,
        outcome == OpenOutcome::AlreadyExists && attempt + 1 < TEMP_FILE_ATTEMPTS ==> step == TempStep::Retry(
            (attempt + 1) as u32,
        ),
        outcome == OpenOutcome::AlreadyExists && attempt + 1 >= TEMP_FILE_ATTEMPTS ==> step == TempStep::Exhausted,
{
    match outcome {
        OpenOutcome::Created => TempStep::Done,
        OpenOutcome::Failed => TempStep::Fail,
        OpenOutcome::AlreadyExists => {
            if attempt + 1 < TEMP_FILE_ATTEMPTS {
                TempStep::Retry(attempt + 1)
            } else {
                TempStep::Exhausted
            }
        },
    }
}

} // verus!
