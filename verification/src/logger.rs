use crate::stage_id::StageId;
use vstd::prelude::*;

verus! {

/// The decimal digit `d` as a character.
pub open spec fn digit_char(d: int) -> char {
    if d == 0 {
        '0'
    } else if d == 1 {
        '1'
    } else if d == 2 {
        '2'
    } else if d == 3 {
        '3'
    } else if d == 4 {
        '4'
    } else if d == 5 {
        '5'
    } else if d == 6 {
        '6'
    } else if d == 7 {
        '7'
    } else if d == 8 {
        '8'
    } else {
        '9'
    }
}

/// The decimal spelling of `n`, without leading zeros (a single zero for
/// zero itself).
pub open spec fn dec_chars(n: nat) -> Seq<char>
    decreases n,
{
    if n < 10 {
        seq![digit_char(n as int)]
    } else {
        dec_chars(n / 10).push(digit_char((n % 10) as int))
    }
}

/// The digits collected low-to-high, read back high-to-low.
pub open spec fn rev_digit_chars(ds: Seq<u64>) -> Seq<char> {
    Seq::new(ds.len(), |i: int| digit_char(ds[ds.len() - 1 - i] as int))
}

proof fn lemma_rev_digit_chars_push(ds: Seq<u64>, x: u64)
    ensures
        rev_digit_chars(ds.push(x)) =~= seq![digit_char(x as int)] + rev_digit_chars(ds),
{
}

/// Append the single decimal digit `d` to `s`.
fn push_digit(s: &mut String, d: u64)
    requires
        d < 10,
    ensures
        final(s)@ == old(s)@.push(digit_char(d as int)),
{
    proof {
        reveal_strlit("0");
        reveal_strlit("1");
        reveal_strlit("2");
        reveal_strlit("3");
        reveal_strlit("4");
        reveal_strlit("5");
        reveal_strlit("6");
        reveal_strlit("7");
        reveal_strlit("8");
        reveal_strlit("9");
    }
    let ds: &str = if d == 0 {
        "0"
    } else if d == 1 {
        "1"
    } else if d == 2 {
        "2"
    } else if d == 3 {
        "3"
    } else if d == 4 {
        "4"
    } else if d == 5 {
        "5"
    } else if d == 6 {
        "6"
    } else if d == 7 {
        "7"
    } else if d == 8 {
        "8"
    } else {
        "9"
    };
    s.append(ds);
    proof {
        assert(final(s)@ =~= old(s)@.push(digit_char(d as int)));
    }
}

/// The decimal spelling of `n`.
pub fn u64_to_dec(n: u64) -> (s: String)
    ensures
        s@ == dec_chars(n as nat),
{
    let mut digits: Vec<u64> = Vec::new();
    digits.push(n % 10);
    let mut m: u64 = n / 10;
    proof {
        lemma_rev_digit_chars_push(Seq::<u64>::empty(), n % 10);
        if m == 0 {
            assert(dec_chars(n as nat) =~= rev_digit_chars(digits@));
        } else {
            assert(dec_chars(n as nat) =~= dec_chars(m as nat) + rev_digit_chars(digits@));
        }
    }
    while m > 0
        invariant
            forall|j: int| 0 <= j < digits@.len() ==> digits@[j] < 10,
            digits@.len() > 0,
            dec_chars(n as nat) =~= if m > 0 {
                dec_chars(m as nat) + rev_digit_chars(digits@)
            } else {
                rev_digit_chars(digits@)
            },
        decreases m,
    {
        let d = m % 10;
        let ghost m0 = m;
        let ghost ds0 = digits@;
        digits.push(d);
        m = m / 10;
        proof {
            lemma_rev_digit_chars_push(ds0, d);
            if m0 < 10 {
                assert(dec_chars(m0 as nat) =~= seq![digit_char(d as int)]);
                assert(dec_chars(n as nat) =~= rev_digit_chars(digits@));
            } else {
                assert(dec_chars(m0 as nat) == dec_chars(m as nat).push(digit_char(d as int)));
                assert(dec_chars(n as nat) =~= dec_chars(m as nat) + rev_digit_chars(digits@));
            }
        }
    }
    let ghost ds = digits@;
    let n_digits = digits.len();
    let mut s = String::new();
    let mut i: usize = n_digits;
    while i > 0
        invariant
            ds == digits@,
            n_digits == ds.len(),
            forall|j: int| 0 <= j < ds.len() ==> ds[j] < 10,
            0 <= i <= n_digits,
            rev_digit_chars(ds) =~= dec_chars(n as nat),
            s@ =~= rev_digit_chars(ds).subrange(0, n_digits - i),
        decreases i,
    {
        push_digit(&mut s, digits[i - 1]);
        i -= 1;
        proof {
            assert(rev_digit_chars(ds)[n_digits - 1 - i] == digit_char(
                ds[i as int] as int,
            ));
            assert(s@ =~= rev_digit_chars(ds).subrange(0, n_digits - i));
        }
    }
    proof {
        assert(s@ =~= rev_digit_chars(ds));
    }
    s
}

/// Formats the log lines of one stage as `[index/total stage] message`.
/// Emitting the lines is the driver's business; the logger only builds
/// them.
#[derive(Clone, Copy, Debug)]
pub struct StageLogger {
    pub stage_index: usize,
    pub num_stages: usize,
    pub stage: StageId,
}

/// The line `msg` builds: the one-based stage index over the stage count,
/// the stage identifier, then the message.
pub open spec fn msg_spec(l: StageLogger, text: Seq<char>) -> Seq<char> {
    "["@ + dec_chars((l.stage_index + 1) as nat) + "/"@ + dec_chars(l.num_stages as nat) + " "@
        + l.stage.name_spec() + "] "@ + text
}

impl StageLogger {
    /// The index is zero-based and below the stage count.
    pub open spec fn wf(&self) -> bool {
        self.stage_index < self.num_stages
    }

    pub fn new(stage_index: usize, num_stages: usize, stage: StageId) -> (r: StageLogger)
        requires
            stage_index < num_stages,
        ensures
            r == (StageLogger { stage_index, num_stages, stage }),
            r.wf(),
    {
        StageLogger { stage_index, num_stages, stage }
    }

    /// Build the prefixed line for `text`.
    pub fn msg(&self, text: &str) -> (r: String)
        requires
            self.wf(),
        ensures
            r@ == msg_spec(*self, text@),
    {
        let mut s = String::new();
        s.append("[");
        let idx = u64_to_dec((self.stage_index + 1) as u64);
        s.append(idx.as_str());
        s.append("/");
        let total = u64_to_dec(self.num_stages as u64);
        s.append(total.as_str());
        s.append(" ");
        s.append(self.stage.name());
        s.append("] ");
        s.append(text);
        proof {
            assert(s@ =~= msg_spec(*self, text@));
        }
        s
    }

    /// The line for `text` at informational level.
    pub fn info(&self, text: &str) -> (r: String)
        requires
            self.wf(),
        ensures
            r@ == "INFO "@ + msg_spec(*self, text@),
    {
        self.level_line("INFO ", text)
    }

    /// The line for `text` at debug level.
    pub fn debug(&self, text: &str) -> (r: String)
        requires
            self.wf(),
        ensures
            r@ == "DEBUG "@ + msg_spec(*self, text@),
    {
        self.level_line("DEBUG ", text)
    }

    /// The line for `text` at trace level.
    pub fn trace(&self, text: &str) -> (r: String)
        requires
            self.wf(),
        ensures
            r@ == "TRACE "@ + msg_spec(*self, text@),
    {
        self.level_line("TRACE ", text)
    }

    /// The line for `text` at warning level.
    pub fn warn(&self, text: &str) -> (r: String)
        requires
            self.wf(),
        ensures
            r@ == "WARN "@ + msg_spec(*self, text@),
    {
        self.level_line("WARN ", text)
    }

    /// The line for `text` at error level.
    pub fn error(&self, text: &str) -> (r: String)
        requires
            self.wf(),
        ensures
            r@ == "ERROR "@ + msg_spec(*self, text@),
    {
        self.level_line("ERROR ", text)
    }

    fn level_line(&self, level: &str, text: &str) -> (r: String)
        requires
            self.wf(),
        ensures
            r@ == level@ + msg_spec(*self, text@),
    {
        let mut s = String::new();
        s.append(level);
        let line = self.msg(text);
        s.append(line.as_str());
        proof {
            assert(s@ =~= level@ + msg_spec(*self, text@));
        }
        s
    }
}

} // verus!
