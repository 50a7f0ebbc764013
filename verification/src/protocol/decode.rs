//! Decoding a message: a header line, then one line per item.

use vstd::prelude::*;
use vstd::slice::{slice_subrange, slice_to_vec};
use vstd::string::StringExecFns;
use vstd::utf8::{decode_utf8, valid_utf8};
use crate::protocol::bytes::{
    find,
    lemma_position,
    lemma_position_concat,
    position,
    utf8_text,
    LF,
    SP,
};
use crate::protocol::part::Part;

verus! {

/// Why a message was not decoded. Where the fault lies in one token, the
/// error holds that token, so that a log can say what was not understood.
#[derive(Debug, PartialEq, Eq)]
pub enum DecodeError {
    /// The message is not well-formed UTF-8.
    InvalidUtf8,
    /// The message is empty: there is no header line.
    MissingHeader,
    /// The header line has no space, hence no payload.
    InvalidHeader,
    /// The header's payload, which is given, does not denote a header.
    Header(Vec<u8>),
    /// A line begins with a space: its directive is missing.
    MissingDirective,
    /// A line has no space, hence no entity behind its directive.
    MissingEntity,
    /// The directive of a line, which is given, is not `UPDATE`.
    UnknownDirective(Vec<u8>),
    /// An entity, which is given, does not denote an item.
    Entity(Vec<u8>),
}

/// A decode error as a mathematical value.
pub enum DecodeErrorView {
    InvalidUtf8,
    MissingHeader,
    InvalidHeader,
    Header(Seq<u8>),
    MissingDirective,
    MissingEntity,
    UnknownDirective(Seq<u8>),
    Entity(Seq<u8>),
}

impl DeepView for DecodeError {
    type V = DecodeErrorView;

    open spec fn deep_view(&self) -> DecodeErrorView {
        match self {
            DecodeError::InvalidUtf8 => DecodeErrorView::InvalidUtf8,
            DecodeError::MissingHeader => DecodeErrorView::MissingHeader,
            DecodeError::InvalidHeader => DecodeErrorView::InvalidHeader,
            DecodeError::Header(payload) => DecodeErrorView::Header(payload@),
            DecodeError::MissingDirective => DecodeErrorView::MissingDirective,
            DecodeError::MissingEntity => DecodeErrorView::MissingEntity,
            DecodeError::UnknownDirective(directive) => DecodeErrorView::UnknownDirective(
                directive@,
            ),
            DecodeError::Entity(entity) => DecodeErrorView::Entity(entity@),
        }
    }
}

/// The text that some bytes encode; none where they encode no text.
pub open spec fn text_in(bytes: Seq<u8>) -> Seq<char> {
    if valid_utf8(bytes) {
        decode_utf8(bytes)
    } else {
        Seq::empty()
    }
}

/// What an error says, for a log: what went wrong and, where the error
/// holds a token, the token.
pub open spec fn message_of_error(error: DecodeErrorView) -> Seq<char> {
    match error {
        DecodeErrorView::InvalidUtf8 => "Error converting message to string"@,
        DecodeErrorView::MissingHeader => "Header line is missing"@,
        DecodeErrorView::InvalidHeader => "Invalid header"@,
        DecodeErrorView::Header(payload) => "Error decoding header: "@ + text_in(payload),
        DecodeErrorView::MissingDirective => "Invalid message line: Missing directive"@,
        DecodeErrorView::MissingEntity => "Invalid message line: Missing entity"@,
        DecodeErrorView::UnknownDirective(directive) => "Unknown directive: "@ + text_in(
            directive,
        ),
        DecodeErrorView::Entity(entity) => "Error decoding entity: "@ + text_in(entity),
    }
}

/// A text followed by the text that some bytes encode.
fn with_token(text: &str, token: &[u8]) -> (message: String)
    ensures
        message@ == text@ + text_in(token@),
{
    let mut message = String::from_str(text);
    match utf8_text(token) {
        Some(token) => {
            message.append(token);
        },
        None => {
            proof {
                assert(text@ + Seq::<char>::empty() =~= text@);
            }
        },
    }
    message
}

impl DecodeError {
    /// What the error says, for a log.
    pub fn message(&self) -> (text: String)
        ensures
            text@ == message_of_error(self.deep_view()),
    {
        match self {
            DecodeError::InvalidUtf8 => String::from_str("Error converting message to string"),
            DecodeError::MissingHeader => String::from_str("Header line is missing"),
            DecodeError::InvalidHeader => String::from_str("Invalid header"),
            DecodeError::Header(payload) => with_token(
                "Error decoding header: ",
                payload.as_slice(),
            ),
            DecodeError::MissingDirective => String::from_str(
                "Invalid message line: Missing directive",
            ),
            DecodeError::MissingEntity => String::from_str(
                "Invalid message line: Missing entity",
            ),
            DecodeError::UnknownDirective(directive) => with_token(
                "Unknown directive: ",
                directive.as_slice(),
            ),
            DecodeError::Entity(entity) => with_token(
                "Error decoding entity: ",
                entity.as_slice(),
            ),
        }
    }
}

/// The directive of a line that carries an item: `UPDATE`.
pub open spec fn update_directive() -> Seq<u8> {
    seq![0x55u8, 0x50u8, 0x44u8, 0x41u8, 0x54u8, 0x45u8]
}

/// The first line of `rest`: what stands before its first line feed.
pub open spec fn first_line(rest: Seq<u8>) -> Seq<u8> {
    rest.take(position(rest, LF))
}

/// What follows the first line of `rest` and its line feed.
pub open spec fn after_first_line(rest: Seq<u8>) -> Seq<u8> {
    let at = position(rest, LF);
    if 0 <= at < rest.len() {
        rest.skip(at + 1)
    } else {
        Seq::empty()
    }
}

/// The item that a non-empty line carries.
pub open spec fn item_of_line<P: Part>(line: Seq<u8>) -> Result<P::V, DecodeErrorView> {
    let at = position(line, SP);
    if at == 0 {
        Err(DecodeErrorView::MissingDirective)
    } else if at >= line.len() {
        Err(DecodeErrorView::MissingEntity)
    } else if line.take(at) != update_directive() {
        Err(DecodeErrorView::UnknownDirective(line.take(at)))
    } else {
        match P::parse(line.skip(at + 1)) {
            Some(item) => Ok(item),
            None => Err(DecodeErrorView::Entity(line.skip(at + 1))),
        }
    }
}

/// The items of the lines of `rest`, in line order, up to the first line
/// that carries none, and the error of that line. Empty lines are skipped.
pub open spec fn items_of<P: Part>(rest: Seq<u8>) -> (Seq<P::V>, Option<DecodeErrorView>)
    decreases rest.len(),
{
    if rest.len() == 0 {
        (Seq::empty(), None)
    } else {
        let line = first_line(rest);
        let tail = after_first_line(rest);
        if line.len() == 0 {
            items_of::<P>(tail)
        } else {
            match item_of_line::<P>(line) {
                Err(error) => (Seq::empty(), Some(error)),
                Ok(item) => {
                    let (items, error) = items_of::<P>(tail);
                    (seq![item] + items, error)
                },
            }
        }
    }
}

/// What a message holds: the items that were read before decoding ended,
/// and the header, or the reason why decoding ended early.
///
/// The checks come in this order: UTF-8, the header line, its payload, then
/// the lines one by one. Of the header line only what follows the first
/// space is read; its directive is ignored.
pub open spec fn message_of<H: Part, P: Part>(message: Seq<u8>) -> (
    Seq<P::V>,
    Result<H::V, DecodeErrorView>,
) {
    let line = first_line(message);
    let at = position(line, SP);
    if !valid_utf8(message) {
        (Seq::empty(), Err(DecodeErrorView::InvalidUtf8))
    } else if message.len() == 0 {
        (Seq::empty(), Err(DecodeErrorView::MissingHeader))
    } else if at >= line.len() {
        (Seq::empty(), Err(DecodeErrorView::InvalidHeader))
    } else {
        match H::parse(line.skip(at + 1)) {
            None => (Seq::empty(), Err(DecodeErrorView::Header(line.skip(at + 1)))),
            Some(header) => {
                let (items, error) = items_of::<P>(after_first_line(message));
                match error {
                    None => (items, Ok(header)),
                    Some(error) => (items, Err(error)),
                }
            },
        }
    }
}

/// An empty line in front changes nothing.
pub proof fn lemma_empty_line_is_skipped<P: Part>(rest: Seq<u8>)
    ensures
        items_of::<P>(seq![LF] + rest) == items_of::<P>(rest),
{
    let all = seq![LF] + rest;
    assert(position(all, LF) == 0);
    assert(first_line(all) =~= Seq::<u8>::empty());
    assert(after_first_line(all) =~= rest);
}

/// A line feed more at the end changes nothing.
pub proof fn lemma_trailing_line_feed<P: Part>(rest: Seq<u8>)
    ensures
        items_of::<P>(rest + seq![LF]) == items_of::<P>(rest),
    decreases rest.len(),
{
    let all = rest + seq![LF];
    let at = position(rest, LF);
    lemma_position(rest, LF);
    lemma_position_concat(rest, seq![LF], LF);
    assert(position(seq![LF], LF) == 0);
    if rest.len() == 0 {
        assert(all =~= seq![LF] + rest);
        lemma_empty_line_is_skipped::<P>(rest);
    } else if at < rest.len() {
        assert(first_line(all) =~= first_line(rest));
        assert(after_first_line(all) =~= rest.skip(at + 1) + seq![LF]);
        lemma_trailing_line_feed::<P>(rest.skip(at + 1));
    } else {
        assert(first_line(all) =~= first_line(rest));
        assert(first_line(rest) =~= rest);
        assert(after_first_line(all) =~= Seq::<u8>::empty());
        assert(after_first_line(rest) =~= Seq::<u8>::empty());
    }
}

/// Whether `directive` is `UPDATE`.
pub fn is_update(directive: &[u8]) -> (yes: bool)
    ensures
        yes == (directive@ == update_directive()),
{
    let yes = directive.len() == 6 && directive[0] == 0x55 && directive[1] == 0x50 && directive[2]
        == 0x44 && directive[3] == 0x41 && directive[4] == 0x54 && directive[5] == 0x45;
    proof {
        if yes {
            assert(directive@ =~= update_directive());
        }
    }
    yes
}

/// Reads the item of a non-empty line.
pub fn decode_line<P: Part>(line: &[u8]) -> (item: Result<P, DecodeError>)
    requires
        line@.len() > 0,
    ensures
        match item {
            Ok(item) => item_of_line::<P>(line@) == Ok::<P::V, DecodeErrorView>(item.deep_view()),
            Err(error) => item_of_line::<P>(line@) == Err::<P::V, DecodeErrorView>(
                error.deep_view(),
            ),
        },
{
    let at = find(line, 0, SP);
    proof {
        assert(line@.skip(0) =~= line@);
    }
    if at == 0 {
        return Err(DecodeError::MissingDirective);
    }
    if at >= line.len() {
        return Err(DecodeError::MissingEntity);
    }
    let directive = slice_subrange(line, 0, at);
    proof {
        assert(directive@ =~= line@.take(at as int));
    }
    if !is_update(directive) {
        return Err(DecodeError::UnknownDirective(slice_to_vec(directive)));
    }
    let entity = slice_subrange(line, at + 1, line.len());
    proof {
        assert(entity@ =~= line@.skip(at + 1));
    }
    match P::read(entity) {
        Some(item) => Ok(item),
        None => Err(DecodeError::Entity(slice_to_vec(entity))),
    }
}

/// Decodes a message. The items are appended to `update` in line order,
/// those before a faulty line too; the header is returned, or the reason
/// why decoding ended early.
#[verifier::loop_isolation(false)]
pub fn decode<H: Part, P: Part>(message: &[u8], update: &mut Vec<P>) -> (header: Result<
    H,
    DecodeError,
>)
    ensures
        final(update).deep_view() == old(update).deep_view() + message_of::<H, P>(message@).0,
        match header {
            Ok(header) => message_of::<H, P>(message@).1 == Ok::<H::V, DecodeErrorView>(
                header.deep_view(),
            ),
            Err(error) => message_of::<H, P>(message@).1 == Err::<H::V, DecodeErrorView>(
                error.deep_view(),
            ),
        },
{
    let ghost before: Seq<P::V> = update.deep_view();
    proof {
        assert(before + Seq::<P::V>::empty() =~= before);
    }
    if utf8_text(message).is_none() {
        return Err(DecodeError::InvalidUtf8);
    }
    if message.len() == 0 {
        return Err(DecodeError::MissingHeader);
    }
    let end = find(message, 0, LF);
    proof {
        assert(message@.skip(0) =~= message@);
        lemma_position(message@, LF);
    }
    let line = slice_subrange(message, 0, end);
    proof {
        assert(line@ =~= first_line(message@));
    }
    let at = find(line, 0, SP);
    proof {
        assert(line@.skip(0) =~= line@);
    }
    if at >= line.len() {
        return Err(DecodeError::InvalidHeader);
    }
    let payload = slice_subrange(line, at + 1, line.len());
    proof {
        assert(payload@ =~= line@.skip(at + 1));
    }
    let header = match H::read(payload) {
        Some(header) => header,
        None => {
            return Err(DecodeError::Header(slice_to_vec(payload)));
        },
    };
    let start: usize = if end < message.len() {
        end + 1
    } else {
        message.len()
    };
    proof {
        assert(message@.skip(start as int) =~= after_first_line(message@));
    }
    let mut pos: usize = start;
    let ghost mut done: Seq<P::V> = Seq::empty();
    while pos < message.len()
        invariant
            start <= pos <= message.len(),
            update.deep_view() == before + done,
            items_of::<P>(message@.skip(start as int)) == (
                done + items_of::<P>(message@.skip(pos as int)).0,
                items_of::<P>(message@.skip(pos as int)).1,
            ),
        decreases message.len() - pos,
    {
        let ghost rest = message@.skip(pos as int);
        let stop = find(message, pos, LF);
        proof {
            lemma_position(rest, LF);
        }
        let line = slice_subrange(message, pos, stop);
        let next: usize = if stop < message.len() {
            stop + 1
        } else {
            message.len()
        };
        proof {
            assert(line@ =~= first_line(rest));
            assert(message@.skip(next as int) =~= after_first_line(rest));
        }
        if line.len() != 0 {
            match decode_line::<P>(line) {
                Err(error) => {
                    proof {
                        assert(done + Seq::<P::V>::empty() =~= done);
                    }
                    return Err(error);
                },
                Ok(item) => {
                    proof {
                        let tail = items_of::<P>(message@.skip(next as int)).0;
                        assert(done + (seq![item.deep_view()] + tail) =~= done.push(
                            item.deep_view(),
                        ) + tail);
                        done = done.push(item.deep_view());
                    }
                    let ghost prior = update.deep_view();
                    update.push(item);
                    proof {
                        assert(update.deep_view() =~= prior.push(item.deep_view()));
                    }
                },
            }
        }
        pos = next;
    }
    proof {
        assert(message@.skip(pos as int).len() == 0);
        assert(done + Seq::<P::V>::empty() =~= done);
    }
    Ok(header)
}

} // verus!
