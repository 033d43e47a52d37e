//! The line-oriented control protocol.
//!
//! Each input line is split into whitespace tokens. Tokens are consumed
//! left to right until a recognized command name (`add`, `set`, `get`)
//! appears; anything before it is ignored, and a line without one is
//! dropped. The command name is followed by a device index (an unparsable
//! or missing index falls back to 0) and, for `add` and `set`, by setting
//! tokens: a recognized setting key consumes the next token as its raw
//! value, an unrecognized token is reported and skipped. Values stay raw
//! text here; the device layer parses and applies them.

use vstd::prelude::*;
use vstd::string::*;

verus! {

/// `c` is a decimal digit.
pub open spec fn is_digit(c: char) -> bool {
    48 <= c as int <= 57
}

/// The number written by the digits, most significant first.
pub open spec fn digits_val(s: Seq<char>) -> int
    decreases s.len(),
{
    if s.len() == 0 {
        0
    } else {
        digits_val(s.drop_last()) * 10 + (s.last() as int - 48)
    }
}

/// The text is a plain decimal numeral whose value fits in a `u32`.
pub open spec fn is_u32_numeral(s: Seq<char>) -> bool {
    &&& s.len() > 0
    &&& forall|i: int| 0 <= i < s.len() ==> is_digit(#[trigger] s[i])
    &&& 0 <= digits_val(s) <= u32::MAX
}

/// A digit string names a nonnegative number.
proof fn lemma_digits_val_nonneg(s: Seq<char>)
    requires
        forall|i: int| 0 <= i < s.len() ==> is_digit(#[trigger] s[i]),
    ensures
        digits_val(s) >= 0,
    decreases s.len(),
{
    if s.len() > 0 {
        lemma_digits_val_nonneg(s.drop_last());
    }
}

/// Reading more digits never shrinks the value.
proof fn lemma_digits_val_prefix(s: Seq<char>, k: int)
    requires
        0 <= k <= s.len(),
        forall|i: int| 0 <= i < s.len() ==> is_digit(#[trigger] s[i]),
    ensures
        digits_val(s.take(k)) <= digits_val(s),
    decreases s.len() - k,
{
    if k < s.len() {
        lemma_digits_val_prefix(s, k + 1);
        lemma_digits_val_nonneg(s.take(k));
        assert(s.take(k + 1).drop_last() =~= s.take(k));
        assert(s.take(k + 1).last() == s[k]);
    } else {
        assert(s.take(k) =~= s);
    }
}

/// Parses a plain decimal numeral: `Some` of its value when the text is
/// one and the value fits in a `u32`, `None` otherwise.
pub fn parse_u32(s: &str) -> (r: Option<u32>)
    ensures
        r matches Option::Some(v) ==> is_u32_numeral(s@) && v == digits_val(s@),
        r is None ==> !is_u32_numeral(s@),
{
    let n = s.unicode_len();
    if n == 0 {
        return None;
    }
    let mut acc: u64 = 0;
    let mut i: usize = 0;
    proof {
        assert(s@.take(0) =~= Seq::<char>::empty());
    }
    while i < n
        invariant
            i <= n,
            n == s@.len(),
            forall|q: int| 0 <= q < i ==> is_digit(#[trigger] s@[q]),
            acc == digits_val(s@.take(i as int)),
            acc <= u32::MAX,
        decreases n - i,
    {
        let c = s.get_char(i);
        let code = c as u32;
        if code < 48 || code > 57 {
            return None;
        }
        let d = (code - 48) as u64;
        let val: u64 = acc * 10 + d;
        proof {
            assert(s@.take(i + 1).drop_last() =~= s@.take(i as int));
            assert(s@.take(i + 1).last() == s@[i as int]);
        }
        if val > u32::MAX as u64 {
            proof {
                if is_u32_numeral(s@) {
                    lemma_digits_val_prefix(s@, i + 1);
                }
            }
            return None;
        }
        acc = val;
        i = i + 1;
    }
    proof {
        assert(s@.take(n as int) =~= s@);
        lemma_digits_val_nonneg(s@);
    }
    Some(acc as u32)
}

/// A device setting named in the control protocol.
#[derive(Debug, Clone, Copy, PartialEq, Eq, Structural)]
pub enum SettingKey {
    /// Capture integration time, in seconds.
    FrameTime,
    /// Hardware pixel threshold.
    ThresholdPix,
    /// Software low intensity bound.
    ThresholdMin,
    /// Software high intensity bound.
    ThresholdMax,
    /// Sensor bias voltage.
    HighVoltage,
}

/// One step of walking the setting tokens of an `add` or `set` command.
#[derive(Debug)]
pub enum SettingStep {
    /// Apply the setting, with the raw value token that followed its key
    /// (when one followed at all).
    Apply { key: SettingKey, value: Option<String> },
    /// An unrecognized token, reported and skipped.
    Invalid { token: String },
}

/// One line of the control protocol.
#[derive(Debug)]
pub enum Command {
    /// Track the device, spawn its capture worker if new, apply settings.
    Add { index: u32, settings: Vec<SettingStep> },
    /// Apply settings to an already tracked device.
    Configure { index: u32, settings: Vec<SettingStep> },
    /// Report the device's buffered frames.
    Get { index: u32 },
    /// No recognized command name on the line.
    Ignored,
}

/// The mathematical shape of a parsed command, with the setting steps as a
/// sequence.
pub enum CommandModel {
    Add { index: u32, settings: Seq<SettingStep> },
    Configure { index: u32, settings: Seq<SettingStep> },
    Get { index: u32 },
    Ignored,
}

impl View for Command {
    type V = CommandModel;

    open spec fn view(&self) -> CommandModel {
        match self {
            Command::Add { index, settings } => CommandModel::Add {
                index: *index,
                settings: settings@,
            },
            Command::Configure { index, settings } => CommandModel::Configure {
                index: *index,
                settings: settings@,
            },
            Command::Get { index } => CommandModel::Get { index: *index },
            Command::Ignored => CommandModel::Ignored,
        }
    }
}

/// The setting key named by a token, if any.
pub open spec fn key_of(t: Seq<char>) -> Option<SettingKey> {
    if t == "frame-time"@ {
        Option::Some(SettingKey::FrameTime)
    } else if t == "threshold-pix"@ {
        Option::Some(SettingKey::ThresholdPix)
    } else if t == "threshold-min"@ {
        Option::Some(SettingKey::ThresholdMin)
    } else if t == "threshold-max"@ {
        Option::Some(SettingKey::ThresholdMax)
    } else if t == "high-voltage"@ {
        Option::Some(SettingKey::HighVoltage)
    } else {
        Option::None
    }
}

/// The setting steps read from the tokens: a recognized key consumes the
/// next token as its raw value, an unrecognized token is reported and
/// skipped.
pub open spec fn spec_settings(toks: Seq<String>) -> Seq<SettingStep>
    decreases toks.len(),
{
    if toks.len() == 0 {
        Seq::empty()
    } else {
        match key_of(toks[0]@) {
            Option::Some(key) => {
                if toks.len() >= 2 {
                    seq![SettingStep::Apply { key, value: Option::Some(toks[1]) }]
                        + spec_settings(toks.skip(2))
                } else {
                    seq![SettingStep::Apply { key, value: Option::None }]
                }
            },
            Option::None => {
                seq![SettingStep::Invalid { token: toks[0] }] + spec_settings(toks.skip(1))
            },
        }
    }
}

/// The device index named after a command token: the next token read as a
/// decimal number, with 0 standing in where it is missing or unparsable.
pub open spec fn spec_index(toks: Seq<String>) -> u32 {
    if toks.len() >= 2 && is_u32_numeral(toks[1]@) {
        digits_val(toks[1]@) as u32
    } else {
        0u32
    }
}

/// The command read from a token list: tokens are consumed left to right
/// until a recognized command name appears, and a line without one is
/// dropped.
pub open spec fn spec_command(toks: Seq<String>) -> CommandModel
    decreases toks.len(),
{
    if toks.len() == 0 {
        CommandModel::Ignored
    } else if toks[0]@ == "add"@ {
        CommandModel::Add {
            index: spec_index(toks),
            settings: spec_settings(if toks.len() >= 2 {
                toks.skip(2)
            } else {
                Seq::empty()
            }),
        }
    } else if toks[0]@ == "set"@ {
        CommandModel::Configure {
            index: spec_index(toks),
            settings: spec_settings(if toks.len() >= 2 {
                toks.skip(2)
            } else {
                Seq::empty()
            }),
        }
    } else if toks[0]@ == "get"@ {
        CommandModel::Get { index: spec_index(toks) }
    } else {
        spec_command(toks.skip(1))
    }
}

/// The setting key named by a token, if any.
fn match_key(token: &String) -> (r: Option<SettingKey>)
    ensures
        r == key_of(token@),
{
    if *token == String::from_str("frame-time") {
        Some(SettingKey::FrameTime)
    } else if *token == String::from_str("threshold-pix") {
        Some(SettingKey::ThresholdPix)
    } else if *token == String::from_str("threshold-min") {
        Some(SettingKey::ThresholdMin)
    } else if *token == String::from_str("threshold-max") {
        Some(SettingKey::ThresholdMax)
    } else if *token == String::from_str("high-voltage") {
        Some(SettingKey::HighVoltage)
    } else {
        None
    }
}

/// Reads the setting steps that start at token `from`.
pub fn parse_settings(tokens: &Vec<String>, from: usize) -> (r: Vec<SettingStep>)
    requires
        from <= tokens@.len(),
    ensures
        r@ == spec_settings(tokens@.skip(from as int)),
{
    let n = tokens.len();
    let mut r: Vec<SettingStep> = Vec::new();
    let mut idx: usize = from;
    while idx < n
        invariant
            from <= idx <= n,
            n == tokens@.len(),
            spec_settings(tokens@.skip(from as int)) == r@ + spec_settings(
                tokens@.skip(idx as int),
            ),
        decreases n - idx,
    {
        let ghost rest = tokens@.skip(idx as int);
        proof {
            assert(rest[0] == tokens@[idx as int]);
        }
        match match_key(&tokens[idx]) {
            Some(key) => {
                if idx + 1 < n {
                    proof {
                        assert(rest[1] == tokens@[idx + 1]);
                        assert(rest.skip(2) =~= tokens@.skip(idx + 2));
                    }
                    let value = Some(tokens[idx + 1].clone());
                    r.push(SettingStep::Apply { key, value });
                    idx = idx + 2;
                } else {
                    proof {
                        assert(rest.len() == 1);
                    }
                    r.push(SettingStep::Apply { key, value: None });
                    idx = n;
                }
            },
            None => {
                proof {
                    assert(rest.skip(1) =~= tokens@.skip(idx + 1));
                }
                r.push(SettingStep::Invalid { token: tokens[idx].clone() });
                idx = idx + 1;
            },
        }
    }
    proof {
        assert(tokens@.skip(n as int).len() == 0);
        assert(r@ + spec_settings(tokens@.skip(n as int)) =~= r@);
    }
    r
}

/// Reads one command line, given as its whitespace tokens.
pub fn parse_command(tokens: &Vec<String>) -> (c: Command)
    ensures
        c@ == spec_command(tokens@),
{
    let add_name = String::from_str("add");
    let set_name = String::from_str("set");
    let get_name = String::from_str("get");
    let n = tokens.len();
    let mut idx: usize = 0;
    proof {
        assert(tokens@.skip(0) =~= tokens@);
    }
    while idx < n
        invariant
            idx <= n,
            n == tokens@.len(),
            add_name@ == "add"@,
            set_name@ == "set"@,
            get_name@ == "get"@,
            spec_command(tokens@) == spec_command(tokens@.skip(idx as int)),
        decreases n - idx,
    {
        let ghost rest = tokens@.skip(idx as int);
        proof {
            assert(rest[0] == tokens@[idx as int]);
        }
        let tok = &tokens[idx];
        let is_add = *tok == add_name;
        let is_set = *tok == set_name;
        let is_get = *tok == get_name;
        if is_add || is_set || is_get {
            let index = if idx + 1 < n {
                proof {
                    assert(rest[1] == tokens@[idx + 1]);
                }
                match parse_u32(tokens[idx + 1].as_str()) {
                    Some(v) => v,
                    None => 0,
                }
            } else {
                0
            };
            proof {
                assert(index == spec_index(rest));
            }
            if is_add || is_set {
                let from = if n - idx >= 2 {
                    proof {
                        assert(rest.skip(2) =~= tokens@.skip(idx + 2));
                    }
                    idx + 2
                } else {
                    proof {
                        assert(tokens@.skip(n as int).len() == 0);
                        assert(rest.len() == 1);
                    }
                    n
                };
                let settings = parse_settings(tokens, from);
                if is_add {
                    return Command::Add { index, settings };
                } else {
                    return Command::Configure { index, settings };
                }
            } else {
                return Command::Get { index };
            }
        }
        proof {
            assert(rest.skip(1) =~= tokens@.skip(idx + 1));
        }
        idx = idx + 1;
    }
    proof {
        assert(tokens@.skip(n as int).len() == 0);
    }
    Command::Ignored
}

} // verus!
