//! Reading what a client's line asks for.

use vstd::prelude::*;
use vstd::string::*;

verus! {

/// The key under which a structured line carries the strength of an attack.
/// A line that does not contain this word is plain text.
pub const ATTACK_KEY: &'static str = "attack";

/// What a line asks for.
#[derive(Clone, Copy, Debug, PartialEq, Eq, Structural)]
pub enum Command {
    /// Plain text, to be passed on.
    Say,
    /// An attack of the given strength.
    Attack(i64),
    /// The line mentions an attack but is no structured message with an
    /// integer under the attack key. It is to be ignored.
    Malformed,
}

/// Whether `word` occurs in `text` at the place `at`.
pub open spec fn occurs_at(word: Seq<char>, text: Seq<char>, at: int) -> bool {
    &&& 0 <= at
    &&& at + word.len() <= text.len()
    &&& text.subrange(at, at + word.len()) == word
}

/// Whether `word` occurs somewhere in `text`.
pub open spec fn occurs(word: Seq<char>, text: Seq<char>) -> bool {
    exists|at: int| occurs_at(word, text, at)
}

/// What the JSON text `text` holds under `key`: nothing at all if `text` is
/// no JSON document; else the integer found under `key`, if `text` is an
/// object that has a member `key` whose value is an integer within `i64`.
pub uninterp spec fn json_integer_member(text: Seq<char>, key: Seq<char>) -> Option<Option<i64>>;

/// What a line asks for, given whether it mentions an attack and, if it does,
/// what it holds under the attack key.
pub open spec fn interpretation(mentions_attack: bool, member: Option<Option<i64>>) -> Command {
    if !mentions_attack {
        Command::Say
    } else {
        match member {
            Some(Some(strength)) => Command::Attack(strength),
            _ => Command::Malformed,
        }
    }
}

/// What the line `line` asks for.
pub open spec fn command_of(line: Seq<char>) -> Command {
    interpretation(occurs(ATTACK_KEY@, line), json_integer_member(line, ATTACK_KEY@))
}

/// The characters of `text`, one by one.
fn characters(text: &str) -> (chars: Vec<char>)
    ensures
        chars@ == text@,
{
    let mut chars: Vec<char> = Vec::new();
    for c in it: text.chars()
        invariant
            chars@ == it.seq().take(it.index() as int),
            it.seq() == text@,
    {
        chars.push(c);
    }
    chars
}

/// Whether `word` stands in `text` at the place `at`.
fn matches_at(word: &Vec<char>, text: &Vec<char>, at: usize) -> (found: bool)
    requires
        at + word.len() <= text.len(),
    ensures
        found == occurs_at(word@, text@, at as int),
{
    let mut k: usize = 0;
    while k < word.len()
        invariant
            k <= word.len(),
            at + word.len() <= text.len(),
            forall|j: int| 0 <= j < k ==> text@[at + j] == word@[j],
        decreases word.len() - k,
    {
        if text[at + k] != word[k] {
            proof {
                let part = text@.subrange(at as int, at + word.len());
                assert(part[k as int] == text@[at + k]);
            }
            return false;
        }
        k += 1;
    }
    assert(text@.subrange(at as int, at + word.len()) =~= word@);
    true
}

/// Whether `word` occurs somewhere in `text`.
pub fn mentions(text: &str, word: &str) -> (found: bool)
    ensures
        found == occurs(word@, text@),
{
    let hay = characters(text);
    let needle = characters(word);
    if needle.len() > hay.len() {
        return false;
    }
    let last: usize = hay.len() - needle.len();
    let mut at: usize = 0;
    while at < last
        invariant
            at <= last,
            last + needle.len() == hay.len(),
            hay@ == text@,
            needle@ == word@,
            forall|i: int| 0 <= i < at ==> !occurs_at(needle@, hay@, i),
        decreases last - at,
    {
        if matches_at(&needle, &hay, at) {
            return true;
        }
        at += 1;
    }
    matches_at(&needle, &hay, last)
}

/// Parses `text` as JSON and looks up the integer under `key`.
///
/// Trusted: calls `serde_json::from_str` for a `serde_json::Value`, then
/// `Value::get` with `key` and `Value::as_i64`. The result is `None` where
/// `from_str` fails, else what `get` and `as_i64` find. The contract gives
/// that result a name and claims nothing more of it.
#[verifier::external_body]
fn integer_member(text: &str, key: &str) -> (member: Option<Option<i64>>)
    ensures
        member == json_integer_member(text@, key@),
{
    match serde_json::from_str::<serde_json::Value>(text) {
        Ok(value) => Some(value.get(key).and_then(serde_json::Value::as_i64)),
        Err(_) => None,
    }
}

/// What a line asks for, given whether it mentions an attack and what it
/// holds under the attack key.
pub fn interpret(mentions_attack: bool, member: Option<Option<i64>>) -> (command: Command)
    ensures
        command == interpretation(mentions_attack, member),
{
    if !mentions_attack {
        Command::Say
    } else {
        match member {
            Some(Some(strength)) => Command::Attack(strength),
            _ => Command::Malformed,
        }
    }
}

/// What the line `line` asks for. A line that does not mention an attack is
/// plain text. One that does is an attack if it is a JSON object with an
/// integer under the attack key, and malformed if it is not.
pub fn classify(line: &str) -> (command: Command)
    ensures
        command == command_of(line@),
{
    if mentions(line, ATTACK_KEY) {
        interpret(true, integer_member(line, ATTACK_KEY))
    } else {
        Command::Say
    }
}

} // verus!
