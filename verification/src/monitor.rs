//! Decisions of the block-watching loop and of its configuration.
use vstd::prelude::*;

verus! {

/// Seconds between two rewrites of the earnings summary.
pub const SUMMARY_INTERVAL_SECONDS: i64 = 60;

/// Pause, in milliseconds, when the chain has no new block yet.
pub const SAME_BLOCK_WAIT_MILLIS: u64 = 500;

/// Pause, in milliseconds, after a failed block-number request.
pub const ERROR_RETRY_WAIT_MILLIS: u64 = 1000;

/// Entries kept in the earnings log when no valid limit is configured.
pub const DEFAULT_MAX_EARNINGS_ENTRIES: usize = 1000;

/// What the loop does after asking for the latest block number.
#[derive(Clone, Copy, Debug, PartialEq, Eq, Structural)]
pub enum PollAction {
    /// A newer block arrived: quote both exchanges.
    CheckPrices,
    /// No newer block: wait briefly and ask again.
    WaitForNextBlock,
    /// The request failed: wait longer and ask again.
    RetryAfterError,
}

impl PollAction {
    /// How long to pause before the next request, in milliseconds.
    pub fn wait_millis(&self) -> (ms: u64)
        ensures
            ms == match *self {
                PollAction::CheckPrices => 0,
                PollAction::WaitForNextBlock => SAME_BLOCK_WAIT_MILLIS,
                PollAction::RetryAfterError => ERROR_RETRY_WAIT_MILLIS,
            },
    {
        match self {
            PollAction::CheckPrices => 0,
            PollAction::WaitForNextBlock => SAME_BLOCK_WAIT_MILLIS,
            PollAction::RetryAfterError => ERROR_RETRY_WAIT_MILLIS,
        }
    }
}

/// One step of the block watcher: from the last block handled and the
/// answer to the block-number request (`None` when it failed), the block
/// to remember and what to do. Only a strictly newer block is handled, so
/// the remembered block never goes back and no block is handled twice.
pub fn next_poll_step(last_block: u64, polled: Option<u64>) -> (r: (u64, PollAction))
    ensures
        r == (match polled {
            Some(b) => if b > last_block {
                (b, PollAction::CheckPrices)
            } else {
                (last_block, PollAction::WaitForNextBlock)
            },
            None => (last_block, PollAction::RetryAfterError),
        }),
        r.0 >= last_block,
        r.1 == PollAction::CheckPrices <==> r.0 > last_block,
{
    match polled {
        Some(current) => {
            if current > last_block {
                (current, PollAction::CheckPrices)
            } else {
                (last_block, PollAction::WaitForNextBlock)
            }
        },
        None => (last_block, PollAction::RetryAfterError),
    }
}

/// Whether the earnings summary is due, `elapsed_seconds` after it was
/// last written.
pub fn summary_due(elapsed_seconds: i64) -> (due: bool)
    ensures
        due == (elapsed_seconds >= SUMMARY_INTERVAL_SECONDS),
{
    elapsed_seconds >= SUMMARY_INTERVAL_SECONDS
}

/// Whether `c` is one of the ASCII digits `0`..`9`.
pub open spec fn is_decimal_digit(c: char) -> bool {
    '0' <= c && c <= '9'
}

/// The number that a string of decimal digits denotes.
pub open spec fn decimal_value(digits: Seq<char>) -> nat
    decreases digits.len(),
{
    if digits.len() == 0 {
        0
    } else {
        decimal_value(digits.drop_last()) * 10 + (digits.last() as nat - '0' as nat) as nat
    }
}

/// The digits of an unsigned setting: the text after one optional
/// leading `+`.
pub open spec fn unsigned_digits(s: Seq<char>) -> Seq<char> {
    if s.len() > 0 && s[0] == '+' {
        s.skip(1)
    } else {
        s
    }
}

/// Whether every character of `digits` is an ASCII digit.
pub open spec fn all_decimal_digits(digits: Seq<char>) -> bool {
    forall|i: int| 0 <= i < digits.len() ==> is_decimal_digit(#[trigger] digits[i])
}

/// The `usize` that a setting denotes, as the standard library reads an
/// unsigned integer: an optional leading `+`, then at least one ASCII
/// digit and nothing else, with a value that fits in a `usize`.
pub open spec fn parse_usize(s: Seq<char>) -> Option<nat> {
    let digits = unsigned_digits(s);
    if digits.len() == 0 || !all_decimal_digits(digits) || decimal_value(digits) > usize::MAX {
        None
    } else {
        Some(decimal_value(digits))
    }
}

/// Adding digits never makes the value smaller.
proof fn lemma_decimal_value_grows(digits: Seq<char>, j: int, k: int)
    requires
        0 <= j <= k <= digits.len(),
        forall|i: int| 0 <= i < digits.len() ==> is_decimal_digit(#[trigger] digits[i]),
    ensures
        decimal_value(digits.take(j)) <= decimal_value(digits.take(k)),
    decreases k - j,
{
    if j < k {
        lemma_decimal_value_grows(digits, j, k - 1);
        assert(digits.take(k).drop_last() =~= digits.take(k - 1));
    }
}

/// The limit on kept earnings entries: the configured setting when it
/// reads as a `usize`, else `DEFAULT_MAX_EARNINGS_ENTRIES`. Zero means no
/// limit.
pub fn max_earnings_entries(setting: Option<&[char]>) -> (r: usize)
    ensures
        r == match setting {
            Some(s) => match parse_usize(s@) {
                Some(v) => v,
                None => DEFAULT_MAX_EARNINGS_ENTRIES as nat,
            },
            None => DEFAULT_MAX_EARNINGS_ENTRIES as nat,
        },
{
    match setting {
        Some(s) => match parse_decimal_usize(s) {
            Some(v) => v,
            None => DEFAULT_MAX_EARNINGS_ENTRIES,
        },
        None => DEFAULT_MAX_EARNINGS_ENTRIES,
    }
}

/// Reads `s` as an unsigned decimal `usize`, as `parse_usize` says.
pub fn parse_decimal_usize(s: &[char]) -> (r: Option<usize>)
    ensures
        match r {
            Some(v) => parse_usize(s@) == Some(v as nat),
            None => parse_usize(s@) is None,
        },
{
    let start: usize = if s.len() > 0 && s[0] == '+' {
        1
    } else {
        0
    };
    let ghost digits = unsigned_digits(s@);
    assert(digits =~= s@.skip(start as int));
    if start >= s.len() {
        return None;
    }
    let mut i: usize = start;
    while i < s.len()
        invariant
            start <= i <= s.len(),
            digits == unsigned_digits(s@),
            digits =~= s@.skip(start as int),
            forall|k: int| 0 <= k < i - start ==> is_decimal_digit(#[trigger] digits[k]),
        decreases s.len() - i,
    {
        let c = s[i];
        assert(c == digits[i - start]);
        if !('0' <= c && c <= '9') {
            assert(!is_decimal_digit(digits[i - start]));
            assert(!all_decimal_digits(digits));
            return None;
        }
        i = i + 1;
    }
    let mut value: usize = 0;
    let mut j: usize = start;
    while j < s.len()
        invariant
            start <= j <= s.len(),
            digits == unsigned_digits(s@),
            digits =~= s@.skip(start as int),
            forall|k: int| 0 <= k < digits.len() ==> is_decimal_digit(#[trigger] digits[k]),
            value as nat == decimal_value(digits.take(j - start)),
        decreases s.len() - j,
    {
        let c = s[j];
        assert(c == digits[j - start]);
        assert(is_decimal_digit(digits[j - start]));
        let d = (c as u32 - '0' as u32) as usize;
        proof {
            assert(digits.take(j - start + 1).drop_last() =~= digits.take(j - start));
            assert(digits.take(j - start + 1).last() == c);
        }
        let next = match value.checked_mul(10) {
            Some(m) => m.checked_add(d),
            None => None,
        };
        match next {
            Some(n) => {
                value = n;
            },
            None => {
                proof {
                    lemma_decimal_value_grows(digits, j - start + 1, digits.len() as int);
                    assert(digits.take(digits.len() as int) =~= digits);
                }
                return None;
            },
        }
        j = j + 1;
    }
    assert(digits.take(s.len() - start) =~= digits);
    Some(value)
}

/// The decimal spelling of `n`, most significant digit first, with no
/// leading zeros (`0` is spelled `"0"`).
pub open spec fn decimal_spelling(n: nat) -> Seq<char>
    decreases n,
{
    if n < 10 {
        seq![(48 + n) as char]
    } else {
        decimal_spelling(n / 10).push((48 + n % 10) as char)
    }
}

/// The spelling uses only the characters `'0'` to `'9'`, and it denotes `n`.
proof fn lemma_decimal_spelling(n: nat)
    ensures
        decimal_spelling(n).len() > 0,
        forall|i: int|
            0 <= i < decimal_spelling(n).len() ==> '0' <= #[trigger] decimal_spelling(n)[i] <= '9',
        decimal_spelling(n)[0] != '+',
        all_decimal_digits(decimal_spelling(n)),
        decimal_value(decimal_spelling(n)) == n,
    decreases n,
{
    if n >= 10 {
        lemma_decimal_spelling(n / 10);
        let d = decimal_spelling(n);
        let c = (48 + n % 10) as char;
        assert(d.drop_last() =~= decimal_spelling(n / 10));
        assert(d.last() == c);
        assert(c as nat - '0' as nat == n % 10);
        assert(forall|i: int| 0 <= i < d.len() - 1 ==> d[i] == decimal_spelling(n / 10)[i]);
        vstd::arithmetic::div_mod::lemma_fundamental_div_mod(n as int, 10);
        assert(decimal_value(d) == decimal_value(decimal_spelling(n / 10)) * 10 + n % 10);
    } else {
        let d = decimal_spelling(n);
        assert(d.drop_last() =~= Seq::<char>::empty());
        assert(d.last() as nat - '0' as nat == n);
        assert(decimal_value(Seq::<char>::empty()) == 0);
        assert(decimal_value(d) == decimal_value(d.drop_last()) * 10 + (d.last() as nat - '0' as nat) as nat);
    }
}

/// Every `usize` written in decimal reads back as itself, with or without
/// a leading `+`; so each of `'0'`..`'9'` counts as a digit.
pub proof fn law_decimal_setting_reads_back(n: nat)
    requires
        n <= usize::MAX,
    ensures
        parse_usize(decimal_spelling(n)) == Some(n),
        parse_usize(seq!['+'] + decimal_spelling(n)) == Some(n),
{
    lemma_decimal_spelling(n);
    let d = decimal_spelling(n);
    assert((seq!['+'] + d).skip(1) =~= d);
}

/// A setting with any character outside `'0'`..`'9'` (other than one
/// leading `+`) is refused, as is an empty one or a lone `+`.
pub proof fn law_non_digit_setting_refused(s: Seq<char>, i: int)
    requires
        0 <= i < s.len(),
        !('0' <= s[i] && s[i] <= '9'),
        !(i == 0 && s[i] == '+'),
    ensures
        parse_usize(s) is None,
{
    let d = unsigned_digits(s);
    if s.len() > 0 && s[0] == '+' {
        assert(d[i - 1] == s[i]);
    } else {
        assert(d[i] == s[i]);
    }
}

} // verus!
