//! The rules of a number-guessing game: a secret between 1 and 100, and an
//! answer to every line that the player types.

use vstd::prelude::*;
use rand::Rng;

verus! {

/// The smallest number that can be the secret.
pub const LOWEST: u32 = 1;

/// The largest number that can be the secret.
pub const HIGHEST: u32 = 100;

/// What `str::trim` makes of a line. The standard library removes leading
/// and trailing white space as Unicode defines it; the result is a function
/// of the line alone.
pub uninterp spec fn trimmed(line: Seq<char>) -> Seq<char>;

/// Whether `digits` is one or more of the characters `0` to `9`.
pub open spec fn is_decimal(digits: Seq<char>) -> bool {
    &&& digits.len() > 0
    &&& forall|i: int| 0 <= i < digits.len() ==> '0' <= #[trigger] digits[i] <= '9'
}

/// The number that the decimal digits `digits` write.
pub open spec fn decimal_value(digits: Seq<char>) -> nat
    decreases digits.len(),
{
    if digits.len() == 0 {
        0
    } else {
        (decimal_value(digits.drop_last()) * 10 + (digits.last() as u32 - '0' as u32)) as nat
    }
}

/// `text` without the plus sign that may stand in front of a number.
pub open spec fn without_sign(text: Seq<char>) -> Seq<char> {
    if text.len() > 0 && text[0] == '+' {
        text.skip(1)
    } else {
        text
    }
}

/// What `str::parse::<u32>` makes of a text, as the standard library
/// documents it: the text is read as a number if it is made of decimal
/// digits, with or without a plus sign in front, and the number fits in a
/// `u32`; any other text, the empty one too, is not read.
pub open spec fn parsed_u32(text: Seq<char>) -> Option<u32> {
    let digits = without_sign(text);
    if is_decimal(digits) && decimal_value(digits) <= u32::MAX {
        Some(decimal_value(digits) as u32)
    } else {
        None
    }
}

/// Calls `rand::thread_rng().gen_range(low, high)` for a `u32`.
///
/// Taken on trust from the crate `rand`: the number lies in the half-open
/// range from `low` to `high`. The call panics on bounds of which `low` is
/// not below `high`, which the precondition rules out. Nothing else is
/// claimed: two calls with the same bounds may give different numbers.
#[verifier::external_body]
fn random_in_range(low: u32, high: u32) -> (n: u32)
    requires
        low < high,
    ensures
        low <= n < high,
{
    rand::thread_rng().gen_range(low, high)
}

/// Calls `str::trim`.
///
/// Taken on trust from the standard library: the result is what `trimmed`
/// names.
#[verifier::external_body]
fn trim(line: &str) -> (text: &str)
    ensures
        text@ == trimmed(line@),
{
    line.trim()
}

/// Calls `str::parse::<u32>` and drops the reason of a failure.
///
/// Taken on trust from the standard library: the result is what `parsed_u32`
/// says, which is what the documentation of the call says.
#[verifier::external_body]
fn parse_u32(text: &str) -> (n: Option<u32>)
    ensures
        n == parsed_u32(text@),
{
    match text.parse::<u32>() {
        Ok(n) => Some(n),
        Err(_) => None,
    }
}

/// The answer to one line of the player.
#[derive(Clone, Copy, Debug, PartialEq, Eq, Structural)]
pub enum Reply {
    /// The line was no number: it is passed over and the player asked again.
    NotANumber,
    TooSmall,
    TooBig,
    Win,
}

/// The answer that the rules give to a guess, read or not, against `secret`.
pub open spec fn reply_to(secret: u32, guess: Option<u32>) -> Reply {
    match guess {
        None => Reply::NotANumber,
        Some(n) => if n < secret {
            Reply::TooSmall
        } else if n > secret {
            Reply::TooBig
        } else {
            Reply::Win
        },
    }
}

impl Reply {
    /// Whether this answer ends the game.
    pub open spec fn spec_ends_game(self) -> bool {
        self is Win
    }

    /// Whether this answer ends the game: only a win does.
    pub fn ends_game(&self) -> (b: bool)
        ensures
            b == self.spec_ends_game(),
    {
        match self {
            Reply::Win => true,
            _ => false,
        }
    }

    /// What the player is told, or nothing where the line is passed over.
    pub fn message(&self) -> (text: Option<&'static str>)
        ensures
            text is None <==> self is NotANumber,
            self is TooSmall ==> text == Some("Too small!"),
            self is TooBig ==> text == Some("Too big!"),
            self is Win ==> text == Some("You win!"),
    {
        match self {
            Reply::NotANumber => None,
            Reply::TooSmall => Some("Too small!"),
            Reply::TooBig => Some("Too big!"),
            Reply::Win => Some("You win!"),
        }
    }
}

/// Draws the secret number of a game.
pub fn secret_number() -> (n: u32)
    ensures
        LOWEST <= n <= HIGHEST,
{
    random_in_range(LOWEST, HIGHEST + 1)
}

/// Reads a guess from a line as the player typed it: the number that the
/// line holds once the white space around it is removed, if it holds one.
pub fn read_guess(line: &str) -> (guess: Option<u32>)
    ensures
        guess == parsed_u32(trimmed(line@)),
{
    parse_u32(trim(line))
}

/// Answers a guess that has been read, or a line that held none.
pub fn respond(secret: u32, guess: Option<u32>) -> (reply: Reply)
    ensures
        reply == reply_to(secret, guess),
{
    match guess {
        None => Reply::NotANumber,
        Some(n) => if n < secret {
            Reply::TooSmall
        } else if n > secret {
            Reply::TooBig
        } else {
            Reply::Win
        },
    }
}

/// Answers one line of the player.
pub fn turn(secret: u32, line: &str) -> (reply: Reply)
    ensures
        reply == reply_to(secret, parsed_u32(trimmed(line@))),
{
    respond(secret, read_guess(line))
}

/// A guess that has been read answers as its number does: for a line that
/// `str::trim` leaves as `text`, the answer is that to the number which
/// `text` writes in decimal digits, and a text that writes none is passed
/// over.
pub proof fn lemma_reply_to_digits(secret: u32, text: Seq<char>)
    ensures
        is_decimal(text) && decimal_value(text) <= u32::MAX ==> reply_to(
            secret,
            parsed_u32(text),
        ) == reply_to(secret, Some(decimal_value(text) as u32)),
        !is_decimal(without_sign(text)) ==> reply_to(secret, parsed_u32(text))
            == Reply::NotANumber,
{
    if is_decimal(text) {
        assert('0' <= text[0] <= '9');
        assert(without_sign(text) == text);
    }
}

/// The game ends on a guess exactly if the guess is the secret, and a guess
/// that misses is told on which side it lies.
pub proof fn lemma_win_iff_equal(secret: u32, guess: u32)
    ensures
        reply_to(secret, Some(guess)).spec_ends_game() <==> guess == secret,
        reply_to(secret, Some(guess)) is TooSmall <==> guess < secret,
        reply_to(secret, Some(guess)) is TooBig <==> guess > secret,
        !reply_to(secret, None).spec_ends_game(),
{
}

} // verus!
