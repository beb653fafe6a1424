use vstd::prelude::*;

use crate::config::Config;
use crate::config::ParseResultConfig;
use crate::matching::regex_is_match;
use crate::matching::regex_match;
use crate::matching::regex_valid;

verus! {

/// A case's classification, as a combinable set of failure flags packed into
/// the low eight bits of a `u32`. The all-zero value is the success state.
pub type SubmissionState = u32;

/// One single classification flag, or the success state `AC`.
#[derive(Debug, PartialEq, Eq, Structural, Clone, Copy)]
pub enum SubmissionStateSingle {
    IE,
    CE,
    RE,
    QLE,
    OLE,
    WA,
    TLE,
    MLE,
    AC,
}

use crate::submission_state::SubmissionStateSingle::{IE, CE, RE, QLE, OLE, WA, TLE, MLE, AC};

/// The bit each flag occupies in a status mask; `AC` owns no bit.
pub open spec fn flag_bit(f: SubmissionStateSingle) -> u32 {
    match f {
        IE => 128,
        CE => 64,
        RE => 32,
        QLE => 16,
        OLE => 8,
        WA => 4,
        TLE => 2,
        MLE => 1,
        AC => 0,
    }
}

/// The single label shown for a status mask: the first flag, in display
/// order, whose bit is set; `AC` for the empty mask; nothing when only bits
/// outside the eight flags are set. Display order puts `OLE` and `WA` ahead
/// of `QLE`, unlike the bit numbering.
pub open spec fn dominant_spec(state: SubmissionState) -> Option<SubmissionStateSingle> {
    if state & 128 != 0 {
        Some(IE)
    } else if state & 64 != 0 {
        Some(CE)
    } else if state & 32 != 0 {
        Some(RE)
    } else if state & 8 != 0 {
        Some(OLE)
    } else if state & 4 != 0 {
        Some(WA)
    } else if state & 16 != 0 {
        Some(QLE)
    } else if state & 2 != 0 {
        Some(TLE)
    } else if state & 1 != 0 {
        Some(MLE)
    } else if state == 0 {
        Some(AC)
    } else {
        None
    }
}

impl SubmissionStateSingle {
    /// The flag's bit as an executable value.
    pub fn bit(&self) -> (r: u32)
        ensures
            r == flag_bit(*self),
    {
        match self {
            IE => 128,
            CE => 64,
            RE => 32,
            QLE => 16,
            OLE => 8,
            WA => 4,
            TLE => 2,
            MLE => 1,
            AC => 0,
        }
    }

    /// The single label for a status mask, in display order.
    pub fn from_state(state: SubmissionState) -> (r: Option<SubmissionStateSingle>)
        ensures
            r == dominant_spec(state),
    {
        if state & 128 != 0 {
            Some(IE)
        } else if state & 64 != 0 {
            Some(CE)
        } else if state & 32 != 0 {
            Some(RE)
        } else if state & 8 != 0 {
            Some(OLE)
        } else if state & 4 != 0 {
            Some(WA)
        } else if state & 16 != 0 {
            Some(QLE)
        } else if state & 2 != 0 {
            Some(TLE)
        } else if state & 1 != 0 {
            Some(MLE)
        } else if state == 0 {
            Some(AC)
        } else {
            None
        }
    }

    /// The flag's name, for display.
    pub fn label(&self) -> (r: String)
        ensures
            r@ == label_spec(*self),
    {
        match self {
            IE => String::from_str("IE"),
            CE => String::from_str("CE"),
            RE => String::from_str("RE"),
            QLE => String::from_str("QLE"),
            OLE => String::from_str("OLE"),
            WA => String::from_str("WA"),
            TLE => String::from_str("TLE"),
            MLE => String::from_str("MLE"),
            AC => String::from_str("AC"),
        }
    }
}

/// The name each flag is displayed under.
pub open spec fn label_spec(f: SubmissionStateSingle) -> Seq<char> {
    match f {
        IE => "IE"@,
        CE => "CE"@,
        RE => "RE"@,
        QLE => "QLE"@,
        OLE => "OLE"@,
        WA => "WA"@,
        TLE => "TLE"@,
        MLE => "MLE"@,
        AC => "AC"@,
    }
}

/// Whether every one of the eight flag patterns compiles.
pub open spec fn patterns_valid(p: ParseResultConfig) -> bool {
    &&& regex_valid(p.ie_regex@)
    &&& regex_valid(p.ce_regex@)
    &&& regex_valid(p.re_regex@)
    &&& regex_valid(p.qle_regex@)
    &&& regex_valid(p.ole_regex@)
    &&& regex_valid(p.wa_regex@)
    &&& regex_valid(p.tle_regex@)
    &&& regex_valid(p.mle_regex@)
}

/// The mask built from the eight flag patterns: every pattern that matches
/// contributes its bit. The bits are distinct powers of two, so the sum is
/// their union.
pub open spec fn state_bits_spec(text: Seq<char>, p: ParseResultConfig) -> int {
    (if regex_match(p.ie_regex@, text) {
        128int
    } else {
        0int
    }) + (if regex_match(p.ce_regex@, text) {
        64int
    } else {
        0int
    }) + (if regex_match(p.re_regex@, text) {
        32int
    } else {
        0int
    }) + (if regex_match(p.qle_regex@, text) {
        16int
    } else {
        0int
    }) + (if regex_match(p.ole_regex@, text) {
        8int
    } else {
        0int
    }) + (if regex_match(p.wa_regex@, text) {
        4int
    } else {
        0int
    }) + (if regex_match(p.tle_regex@, text) {
        2int
    } else {
        0int
    }) + (if regex_match(p.mle_regex@, text) {
        1int
    } else {
        0int
    })
}

/// What classification yields on the text: success at once when the
/// force-success pattern matches, otherwise the union of the bits of every
/// matching flag pattern; nothing when a pattern that had to be consulted
/// does not compile.
pub open spec fn parse_state_spec(text: Seq<char>, p: ParseResultConfig) -> Option<int> {
    if !regex_valid(p.force_ac_regex@) {
        None
    } else if regex_match(p.force_ac_regex@, text) {
        Some(0)
    } else if !patterns_valid(p) {
        None
    } else {
        Some(state_bits_spec(text, p))
    }
}

/// Classifies captured text against the configured patterns. Returns the
/// status mask, or `None` when a consulted pattern does not compile.
pub fn parse_state(text: &str, config: &Config) -> (r: Option<SubmissionState>)
    ensures
        (r is Some) == (parse_state_spec(text@, config.parse_result) is Some),
        r is Some ==> r->0 == parse_state_spec(text@, config.parse_result)->0,
{
    let p = &config.parse_result;
    let force = match regex_is_match(p.force_ac_regex.as_str(), text) {
        Some(b) => b,
        None => return None,
    };
    if force {
        return Some(0);
    }
    let m_ie = match regex_is_match(p.ie_regex.as_str(), text) {
        Some(b) => b,
        None => return None,
    };
    let m_ce = match regex_is_match(p.ce_regex.as_str(), text) {
        Some(b) => b,
        None => return None,
    };
    let m_re = match regex_is_match(p.re_regex.as_str(), text) {
        Some(b) => b,
        None => return None,
    };
    let m_qle = match regex_is_match(p.qle_regex.as_str(), text) {
        Some(b) => b,
        None => return None,
    };
    let m_ole = match regex_is_match(p.ole_regex.as_str(), text) {
        Some(b) => b,
        None => return None,
    };
    let m_wa = match regex_is_match(p.wa_regex.as_str(), text) {
        Some(b) => b,
        None => return None,
    };
    let m_tle = match regex_is_match(p.tle_regex.as_str(), text) {
        Some(b) => b,
        None => return None,
    };
    let m_mle = match regex_is_match(p.mle_regex.as_str(), text) {
        Some(b) => b,
        None => return None,
    };
    let state: u32 = (if m_ie {
        128
    } else {
        0
    }) + (if m_ce {
        64
    } else {
        0
    }) + (if m_re {
        32
    } else {
        0
    }) + (if m_qle {
        16
    } else {
        0
    }) + (if m_ole {
        8
    } else {
        0
    }) + (if m_wa {
        4
    } else {
        0
    }) + (if m_tle {
        2
    } else {
        0
    }) + (if m_mle {
        1
    } else {
        0
    });
    Some(state)
}

/// Law: text matching the force-success pattern classifies as success,
/// whatever other patterns it also matches.
pub proof fn lemma_force_success_wins(text: Seq<char>, p: ParseResultConfig)
    requires
        regex_valid(p.force_ac_regex@),
        regex_match(p.force_ac_regex@, text),
    ensures
        parse_state_spec(text, p) == Some(0int),
{
}

/// Law: the eight flags are independent. Text matching both the time-limit
/// and the wrong-answer patterns (and no other pattern) gets both bits set,
/// and its single display label is `WA`, which precedes `TLE` in display
/// order.
pub proof fn lemma_multi_flag_independence(text: Seq<char>, p: ParseResultConfig)
    requires
        regex_valid(p.force_ac_regex@),
        !regex_match(p.force_ac_regex@, text),
        patterns_valid(p),
        regex_match(p.tle_regex@, text),
        regex_match(p.wa_regex@, text),
        !regex_match(p.ie_regex@, text),
        !regex_match(p.ce_regex@, text),
        !regex_match(p.re_regex@, text),
        !regex_match(p.qle_regex@, text),
        !regex_match(p.ole_regex@, text),
        !regex_match(p.mle_regex@, text),
    ensures
        parse_state_spec(text, p) == Some(6int),
        (6u32 & flag_bit(TLE)) != 0,
        (6u32 & flag_bit(WA)) != 0,
        dominant_spec(6u32) == Some(WA),
{
    assert(6u32 & 2 != 0) by (bit_vector);
    assert(6u32 & 4 != 0) by (bit_vector);
    assert(6u32 & 128 == 0) by (bit_vector);
    assert(6u32 & 64 == 0) by (bit_vector);
    assert(6u32 & 32 == 0) by (bit_vector);
    assert(6u32 & 8 == 0) by (bit_vector);
}

} // verus!
