//! The client's own decisions around its home session: which privacy
//! modes it takes and how they are named, when a move to another home is
//! refused, and what a wake-up frame may hold.

use vstd::prelude::*;
use crate::error::CoreError;
use crate::ffi::FfiError;
use crate::home_state::{HomeState, StateView};
use crate::ice::chars_of;
use crate::ids::KEY_LEN;
use crate::privacy::PrivacyMode;

verus! {

/// `c` with an ASCII capital letter made small.
pub open spec fn ascii_lower(c: char) -> char {
    if 'A' <= c <= 'Z' {
        ((c as u32) + 32) as char
    } else {
        c
    }
}

/// `s` with every ASCII capital letter made small.
pub open spec fn ascii_lower_seq(s: Seq<char>) -> Seq<char> {
    s.map_values(|c: char| ascii_lower(c))
}

fn lower_char(c: char) -> (r: char)
    ensures
        r == ascii_lower(c),
{
    if 'A' <= c && c <= 'Z' {
        ((c as u8) + 32) as char
    } else {
        c
    }
}

/// Whether `s`, with ASCII capitals made small, is the small-letter
/// word `word`.
fn is_word_any_case(s: &Vec<char>, word: &Vec<char>) -> (r: bool)
    ensures
        r == (ascii_lower_seq(s@) == word@),
{
    if s.len() != word.len() {
        return false;
    }
    let mut i: usize = 0;
    while i < s.len()
        invariant
            i <= s@.len(),
            s@.len() == word@.len(),
            forall|j: int| 0 <= j < i ==> ascii_lower(s@[j]) == word@[j],
        decreases s@.len() - i,
    {
        if lower_char(s[i]) != word[i] {
            assert(ascii_lower_seq(s@)[i as int] != word@[i as int]);
            return false;
        }
        i = i + 1;
    }
    assert(ascii_lower_seq(s@) =~= word@);
    true
}

/// The privacy mode a name picks, in any ASCII case.
pub open spec fn mode_named(name: Seq<char>) -> Option<PrivacyMode> {
    let n = ascii_lower_seq(name);
    if n == "normal"@ {
        Some(PrivacyMode::Normal)
    } else if n == "private"@ {
        Some(PrivacyMode::Private)
    } else if n == "high"@ {
        Some(PrivacyMode::High)
    } else if n == "maximum"@ {
        Some(PrivacyMode::Maximum)
    } else {
        None
    }
}

/// The privacy mode the shell names: `normal`, `private`, `high` or
/// `maximum`, in any ASCII case. Any other name is refused.
pub fn parse_privacy_mode(name: &str) -> (r: Result<PrivacyMode, FfiError>)
    ensures
        match mode_named(name@) {
            Some(m) => r == Ok::<PrivacyMode, FfiError>(m),
            None => r matches Err(FfiError::Core(msg)) && msg@ == "privacy mode"@,
        },
{
    let s = chars_of(name);
    let normal = chars_of("normal");
    let private = chars_of("private");
    let high = chars_of("high");
    let maximum = chars_of("maximum");
    if is_word_any_case(&s, &normal) {
        Ok(PrivacyMode::Normal)
    } else if is_word_any_case(&s, &private) {
        Ok(PrivacyMode::Private)
    } else if is_word_any_case(&s, &high) {
        Ok(PrivacyMode::High)
    } else if is_word_any_case(&s, &maximum) {
        Ok(PrivacyMode::Maximum)
    } else {
        Err(FfiError::Core(String::from_str("privacy mode")))
    }
}

/// The name the shell shows for a privacy mode.
pub open spec fn mode_name(mode: PrivacyMode) -> Seq<char> {
    match mode {
        PrivacyMode::Normal => "normal"@,
        PrivacyMode::Private => "private"@,
        PrivacyMode::High => "high"@,
        PrivacyMode::Maximum => "maximum"@,
    }
}

/// The name of a privacy mode, as [`parse_privacy_mode`] reads it back.
pub fn privacy_mode_name(mode: PrivacyMode) -> (r: String)
    ensures
        r@ == mode_name(mode),
{
    match mode {
        PrivacyMode::Normal => String::from_str("normal"),
        PrivacyMode::Private => String::from_str("private"),
        PrivacyMode::High => String::from_str("high"),
        PrivacyMode::Maximum => String::from_str("maximum"),
    }
}

/// A move to another home is refused when the new home is the current one
/// (the same server id).
pub fn check_rehome(current: &[u8; KEY_LEN], new: &[u8; KEY_LEN]) -> (r: Result<(), CoreError>)
    ensures
        current@ == new@ ==> r == Err::<(), CoreError>(CoreError::AlreadyRegistered),
        current@ != new@ ==> r is Ok,
{
    let mut i: usize = 0;
    while i < KEY_LEN
        invariant
            i <= KEY_LEN,
            current@.len() == KEY_LEN,
            new@.len() == KEY_LEN,
            forall|k: int| 0 <= k < i ==> current@[k] == new@[k],
        decreases KEY_LEN - i,
    {
        if current[i] != new[i] {
            return Ok(());
        }
        i = i + 1;
    }
    assert(current@ =~= new@);
    Err(CoreError::AlreadyRegistered)
}

/// A wake-up frame says only "look": it must be empty.
pub fn check_wakeup_frame(frame: &[u8]) -> (r: Result<(), FfiError>)
    ensures
        frame@.len() == 0 ==> r is Ok,
        frame@.len() > 0 ==> (r matches Err(FfiError::Core(msg)) && msg@
            == "wakeup frame must be empty"@),
{
    if frame.len() != 0 {
        return Err(FfiError::Core(String::from_str("wakeup frame must be empty")));
    }
    Ok(())
}

impl HomeState {
    /// Every privacy mode is taken, Maximum included.
    pub fn set_privacy(&mut self, mode: PrivacyMode) -> (r: Result<(), CoreError>)
        ensures
            r is Ok,
            final(self)@ == (StateView { privacy: mode, ..old(self)@ }),
    {
        self.privacy = mode;
        Ok(())
    }
}

} // verus!
