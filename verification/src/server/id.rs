//! Session ids: three capital letters, a hyphen, and five capital letters
//! or digits, drawn at random. Nothing keeps two sessions from drawing the
//! same id; with a million million ids to draw from, that is rare, and the
//! registry does not rely on it: it tells sessions apart by address.

use vstd::prelude::*;
use crate::strings::push_char;

verus! {

/// The capital letter that a random byte selects.
pub open spec fn letter(seed: u8) -> char {
    ((seed % 26) + 0x41) as char
}

/// The digit that a random byte selects.
pub open spec fn digit(seed: u8) -> char {
    ((seed % 10) + 0x30) as char
}

/// The letter or digit that a random choice and a random byte select.
pub open spec fn letter_or_digit(pick: (bool, u8)) -> char {
    if pick.0 {
        letter(pick.1)
    } else {
        digit(pick.1)
    }
}

/// Whether `c` is a capital letter.
pub open spec fn is_capital(c: char) -> bool {
    'A' <= c <= 'Z'
}

/// Whether `c` is a decimal digit.
pub open spec fn is_numeral(c: char) -> bool {
    '0' <= c <= '9'
}

/// Whether `id` has the shape of a session id.
pub open spec fn is_id(id: Seq<char>) -> bool {
    &&& id.len() == 9
    &&& forall|i: int| 0 <= i < 3 ==> is_capital(#[trigger] id[i])
    &&& id[3] == '-'
    &&& forall|i: int| 4 <= i < 9 ==> is_capital(#[trigger] id[i]) || is_numeral(id[i])
}

/// The id that the given random values select.
pub open spec fn id_of(letters: Seq<u8>, picks: Seq<(bool, u8)>) -> Seq<char> {
    seq![
        letter(letters[0]),
        letter(letters[1]),
        letter(letters[2]),
        '-',
        letter_or_digit(picks[0]),
        letter_or_digit(picks[1]),
        letter_or_digit(picks[2]),
        letter_or_digit(picks[3]),
        letter_or_digit(picks[4]),
    ]
}

/// `rand::random::<(bool, u8)>()`: a truth value and a byte from the
/// thread's generator, the truth value drawn first. Nothing is known of
/// either. The call fails only where the operating system has no seed to
/// give the generator, which no argument decides.
#[verifier::external_body]
fn random_pick() -> (bool, u8) {
    rand::random::<(bool, u8)>()
}

/// The capital letter that a random byte selects.
pub fn letter_from(seed: u8) -> (c: char)
    ensures
        c == letter(seed),
        is_capital(c),
{
    ((seed % 26) + 0x41) as char
}

/// The letter or digit that a random choice and a random byte select.
pub fn letter_or_digit_from(pick: (bool, u8)) -> (c: char)
    ensures
        c == letter_or_digit(pick),
        is_capital(c) || is_numeral(c),
{
    if pick.0 {
        letter_from(pick.1)
    } else {
        ((pick.1 % 10) + 0x30) as char
    }
}

/// Composes the id that the given random values select.
pub fn id_from(letters: [u8; 3], picks: [(bool, u8); 5]) -> (id: String)
    ensures
        id@ == id_of(letters@, picks@),
        is_id(id@),
{
    let mut id = String::new();
    push_char(&mut id, letter_from(letters[0]));
    push_char(&mut id, letter_from(letters[1]));
    push_char(&mut id, letter_from(letters[2]));
    push_char(&mut id, '-');
    push_char(&mut id, letter_or_digit_from(picks[0]));
    push_char(&mut id, letter_or_digit_from(picks[1]));
    push_char(&mut id, letter_or_digit_from(picks[2]));
    push_char(&mut id, letter_or_digit_from(picks[3]));
    push_char(&mut id, letter_or_digit_from(picks[4]));
    proof {
        assert(id@ =~= id_of(letters@, picks@));
    }
    id
}

/// Draws a session id at random. Whatever is drawn, the result has the
/// shape of an id; that it differs from the ids in use is not promised.
pub fn generate_id() -> (id: String)
    ensures
        is_id(id@),
{
    let letters: [u8; 3] = [random_pick().1, random_pick().1, random_pick().1];
    let picks: [(bool, u8); 5] = [
        random_pick(),
        random_pick(),
        random_pick(),
        random_pick(),
        random_pick(),
    ];
    id_from(letters, picks)
}

} // verus!
