//! The text protocol the registry interprets: a leading `/w` marks a whisper
//! whose target is the second whitespace-delimited token, a leading `/k` marks
//! a reserved moderation command, anything else is a room broadcast.
use crate::numtext::dec_value;
use crate::numtext::is_u128_text;
use crate::numtext::parse_u128;
use vstd::prelude::*;

verus! {

/// What one inbound text asks the registry to do.
pub enum Command {
    /// Deliver to every member of the sender's room, sender included.
    Broadcast,
    /// Deliver only to the named session, wherever it is registered.
    Whisper { target: u128 },
    /// A whisper whose target token is missing or not an identifier; the
    /// message is dropped.
    MalformedWhisper,
    /// A moderation command, reserved and deliberately without effect.
    Reserved,
}

/// Index of the first space at or after `i`, or the length if there is none.
pub open spec fn first_space(s: Seq<char>, i: int) -> int
    decreases s.len() - i,
    when 0 <= i <= s.len()
{
    if i >= s.len() {
        s.len() as int
    } else if s[i] == ' ' {
        i
    } else {
        first_space(s, i + 1)
    }
}

/// The second whitespace-delimited token, where the whisper target stands;
/// empty when there is none.
pub open spec fn whisper_token(s: Seq<char>) -> Seq<char> {
    let a = first_space(s, 0);
    if a >= s.len() {
        Seq::empty()
    } else {
        s.subrange(a + 1, first_space(s, a + 1))
    }
}

pub open spec fn starts_with2(s: Seq<char>, c0: char, c1: char) -> bool {
    s.len() >= 2 && s[0] == c0 && s[1] == c1
}

/// The command one inbound text denotes.
pub open spec fn parse_command_spec(s: Seq<char>) -> Command {
    if starts_with2(s, '/', 'w') {
        let t = whisper_token(s);
        if is_u128_text(t) {
            Command::Whisper { target: dec_value(t) as u128 }
        } else {
            Command::MalformedWhisper
        }
    } else if starts_with2(s, '/', 'k') {
        Command::Reserved
    } else {
        Command::Broadcast
    }
}

proof fn lemma_first_space_advance(s: Seq<char>, a: int, i: int)
    requires
        0 <= a <= i <= s.len(),
        forall|j: int| a <= j < i ==> s[j] != ' ',
    ensures
        first_space(s, a) == first_space(s, i),
    decreases i - a,
{
    if a < i {
        assert(s[a] != ' ');
        lemma_first_space_advance(s, a + 1, i);
    }
}

/// Parse one inbound text into the command it denotes.
pub fn parse_command(text: &str) -> (c: Command)
    ensures
        c == parse_command_spec(text@),
{
    let len = text.unicode_len();
    if len < 2 {
        return Command::Broadcast;
    }
    if text.get_char(0) != '/' {
        return Command::Broadcast;
    }
    let c1 = text.get_char(1);
    if c1 == 'w' {
        let mut i: usize = 0;
        while i < len && text.get_char(i) != ' '
            invariant
                0 <= i <= len,
                len == text@.len(),
                forall|j: int| 0 <= j < i ==> text@[j] != ' ',
            decreases len - i,
        {
            i = i + 1;
        }
        proof {
            lemma_first_space_advance(text@, 0, i as int);
            assert(first_space(text@, 0) == i as int);
        }
        if i >= len {
            proof {
                assert(whisper_token(text@) =~= Seq::<char>::empty());
                assert(!is_u128_text(whisper_token(text@)));
            }
            return Command::MalformedWhisper;
        }
        let a = i + 1;
        let mut b = a;
        while b < len && text.get_char(b) != ' '
            invariant
                a <= b <= len,
                len == text@.len(),
                forall|j: int| a <= j < b ==> text@[j] != ' ',
            decreases len - b,
        {
            b = b + 1;
        }
        proof {
            lemma_first_space_advance(text@, a as int, b as int);
            assert(first_space(text@, a as int) == b as int);
        }
        let token = text.substring_char(a, b);
        proof {
            assert(token@ == whisper_token(text@));
        }
        match parse_u128(token) {
            Some(t) => Command::Whisper { target: t },
            None => Command::MalformedWhisper,
        }
    } else if c1 == 'k' {
        Command::Reserved
    } else {
        Command::Broadcast
    }
}

} // verus!
