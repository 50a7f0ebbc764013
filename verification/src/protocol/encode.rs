//! Encoding a message, and the law that decoding inverts it.

use vstd::prelude::*;
use vstd::utf8::{valid_utf8, valid_utf8_concat};
use crate::protocol::bytes::{
    is_ascii_bytes,
    lemma_ascii_is_utf8,
    lemma_position,
    lemma_position_absent,
    lemma_position_concat,
    position,
    LF,
    MAX_PACKET_SIZE,
    SP,
};
use crate::protocol::decode::{
    after_first_line,
    first_line,
    item_of_line,
    items_of,
    message_of,
    update_directive,
    DecodeErrorView,
};
use crate::protocol::part::Part;

verus! {

/// Why a message was not encoded.
#[derive(Clone, Copy, Debug, PartialEq, Eq, Structural)]
pub enum EncodeError {
    /// The message is longer than one datagram.
    TooLarge,
}

/// The directive of the header line: `HEADER`.
pub open spec fn header_directive() -> Seq<u8> {
    seq![0x48u8, 0x45u8, 0x41u8, 0x44u8, 0x45u8, 0x52u8]
}

/// One line: a directive, a space, the payload and a line feed.
pub open spec fn line(directive: Seq<u8>, payload: Seq<u8>) -> Seq<u8> {
    directive + seq![SP] + payload + seq![LF]
}

/// The line that carries `item`.
pub open spec fn item_line<P: Part>(item: P::V) -> Seq<u8> {
    line(update_directive(), P::wire(item))
}

/// The line that carries `header`.
pub open spec fn header_line<H: Part>(header: H::V) -> Seq<u8> {
    line(header_directive(), H::wire(header))
}

/// The lines that carry `items`, in order.
pub open spec fn item_lines<P: Part>(items: Seq<P::V>) -> Seq<u8>
    decreases items.len(),
{
    if items.len() == 0 {
        Seq::empty()
    } else {
        item_lines::<P>(items.drop_last()) + item_line::<P>(items.last())
    }
}

/// A message on the wire: the header line, then one line for each item.
pub open spec fn encoding<H: Part, P: Part>(header: H::V, items: Seq<P::V>) -> Seq<u8> {
    header_line::<H>(header) + item_lines::<P>(items)
}

/// The lines of a sequence with one more item are the lines of the
/// sequence and that item's line.
pub proof fn lemma_item_lines_push<P: Part>(items: Seq<P::V>, item: P::V)
    ensures
        item_lines::<P>(items.push(item)) == item_lines::<P>(items) + item_line::<P>(item),
{
    assert(items.push(item).drop_last() =~= items);
}

/// The lines of two sequences joined are their lines joined.
pub proof fn lemma_item_lines_concat<P: Part>(a: Seq<P::V>, b: Seq<P::V>)
    ensures
        item_lines::<P>(a + b) == item_lines::<P>(a) + item_lines::<P>(b),
    decreases b.len(),
{
    if b.len() == 0 {
        assert(a + b =~= a);
        assert(item_lines::<P>(a) + item_lines::<P>(b) =~= item_lines::<P>(a));
    } else {
        lemma_item_lines_concat::<P>(a, b.drop_last());
        assert((a + b).drop_last() =~= a + b.drop_last());
        assert((a + b).last() == b.last());
        assert(item_lines::<P>(a) + (item_lines::<P>(b.drop_last()) + item_line::<P>(b.last()))
            =~= (item_lines::<P>(a) + item_lines::<P>(b.drop_last())) + item_line::<P>(
            b.last(),
        ));
    }
}

/// A line is well-formed UTF-8 where its directive is ASCII and its payload
/// is well-formed.
pub proof fn lemma_line_is_utf8(directive: Seq<u8>, payload: Seq<u8>)
    requires
        is_ascii_bytes(directive),
        valid_utf8(payload),
    ensures
        valid_utf8(line(directive, payload)),
{
    let head = directive + seq![SP];
    assert(is_ascii_bytes(head));
    lemma_ascii_is_utf8(head);
    assert(is_ascii_bytes(seq![LF]));
    lemma_ascii_is_utf8(seq![LF]);
    valid_utf8_concat(head, payload);
    valid_utf8_concat(head + payload, seq![LF]);
}

/// How a line at the front of a byte string is found again: it ends at its
/// own line feed, and splits at the space behind its directive.
pub proof fn lemma_line_at_front(directive: Seq<u8>, payload: Seq<u8>, tail: Seq<u8>)
    requires
        !directive.contains(SP),
        !directive.contains(LF),
        !payload.contains(LF),
    ensures
        first_line(line(directive, payload) + tail) == directive + seq![SP] + payload,
        after_first_line(line(directive, payload) + tail) == tail,
        position(directive + seq![SP] + payload, SP) == directive.len(),
        (directive + seq![SP] + payload).take(directive.len() as int) == directive,
        (directive + seq![SP] + payload).skip(directive.len() as int + 1) == payload,
{
    let body = directive + seq![SP] + payload;
    let whole = line(directive, payload) + tail;
    lemma_position_absent(directive, SP);
    lemma_position_concat(directive, seq![SP] + payload, SP);
    assert(position(seq![SP] + payload, SP) == 0);
    assert(body =~= directive + (seq![SP] + payload));
    assert(body.take(directive.len() as int) =~= directive);
    assert(body.skip(directive.len() as int + 1) =~= payload);

    assert(!body.contains(LF)) by {
        if body.contains(LF) {
            let i = choose|i: int| 0 <= i < body.len() && body[i] == LF;
            if i < directive.len() {
                assert(directive.contains(directive[i]));
            } else if i > directive.len() {
                assert(payload.contains(payload[i - directive.len() - 1]));
            }
        }
    }
    lemma_position_absent(body, LF);
    assert(whole =~= body + (seq![LF] + tail));
    lemma_position_concat(body, seq![LF] + tail, LF);
    assert(position(seq![LF] + tail, LF) == 0);
    assert(whole.take(body.len() as int) =~= body);
    assert(whole.skip(body.len() as int + 1) =~= tail);
}

/// The directive `UPDATE` is ASCII without a space or a line feed.
pub proof fn lemma_update_directive()
    ensures
        is_ascii_bytes(update_directive()),
        !update_directive().contains(SP),
        !update_directive().contains(LF),
        update_directive().len() == 6,
{
    let d = update_directive();
    if d.contains(SP) {
        let i = choose|i: int| 0 <= i < d.len() && d[i] == SP;
        assert(d[i] != SP);
    }
    if d.contains(LF) {
        let i = choose|i: int| 0 <= i < d.len() && d[i] == LF;
        assert(d[i] != LF);
    }
}

/// The directive `HEADER` is ASCII without a space or a line feed.
pub proof fn lemma_header_directive()
    ensures
        is_ascii_bytes(header_directive()),
        !header_directive().contains(SP),
        !header_directive().contains(LF),
        header_directive().len() == 6,
{
    let d = header_directive();
    if d.contains(SP) {
        let i = choose|i: int| 0 <= i < d.len() && d[i] == SP;
        assert(d[i] != SP);
    }
    if d.contains(LF) {
        let i = choose|i: int| 0 <= i < d.len() && d[i] == LF;
        assert(d[i] != LF);
    }
}

/// The lines of any items are well-formed UTF-8.
pub proof fn lemma_item_lines_are_utf8<P: Part>(items: Seq<P::V>)
    ensures
        valid_utf8(item_lines::<P>(items)),
    decreases items.len(),
{
    if items.len() == 0 {
        assert(is_ascii_bytes(Seq::<u8>::empty()));
        lemma_ascii_is_utf8(Seq::<u8>::empty());
    } else {
        lemma_item_lines_are_utf8::<P>(items.drop_last());
        lemma_update_directive();
        P::lemma_wire_is_text(items.last());
        lemma_line_is_utf8(update_directive(), P::wire(items.last()));
        valid_utf8_concat(item_lines::<P>(items.drop_last()), item_line::<P>(items.last()));
    }
}

/// Decoding the lines of some items gives those items, and no error.
pub proof fn lemma_items_of_item_lines<P: Part>(items: Seq<P::V>)
    ensures
        items_of::<P>(item_lines::<P>(items)) == (items, None::<DecodeErrorView>),
    decreases items.len(),
{
    if items.len() == 0 {
    } else {
        let first = items.first();
        let others = items.drop_first();
        assert(items =~= seq![first] + others);
        lemma_item_lines_concat::<P>(seq![first], others);
        assert(seq![first] =~= Seq::<P::V>::empty().push(first));
        lemma_item_lines_push::<P>(Seq::<P::V>::empty(), first);
        assert(item_lines::<P>(seq![first]) =~= item_line::<P>(first));
        let tail = item_lines::<P>(others);
        let bytes = item_line::<P>(first) + tail;
        assert(item_lines::<P>(items) == bytes);

        lemma_update_directive();
        P::lemma_wire_is_text(first);
        P::lemma_parse_wire(first);
        lemma_line_at_front(update_directive(), P::wire(first), tail);
        let body = update_directive() + seq![SP] + P::wire(first);
        assert(first_line(bytes) == body);
        assert(item_of_line::<P>(body) == Ok::<P::V, DecodeErrorView>(first));
        lemma_items_of_item_lines::<P>(others);
        assert(bytes.len() > 0);
        assert(body.len() > 0);
    }
}

/// Round trip: decoding an encoded message gives back the header and the
/// items, whatever they are.
pub proof fn lemma_decode_encode<H: Part, P: Part>(header: H::V, items: Seq<P::V>)
    ensures
        message_of::<H, P>(encoding::<H, P>(header, items)) == (
            items,
            Ok::<H::V, DecodeErrorView>(header),
        ),
{
    let tail = item_lines::<P>(items);
    let bytes = encoding::<H, P>(header, items);
    lemma_header_directive();
    H::lemma_wire_is_text(header);
    H::lemma_parse_wire(header);
    lemma_line_is_utf8(header_directive(), H::wire(header));
    lemma_item_lines_are_utf8::<P>(items);
    valid_utf8_concat(header_line::<H>(header), tail);
    lemma_line_at_front(header_directive(), H::wire(header), tail);
    lemma_items_of_item_lines::<P>(items);
    assert(bytes.len() > 0);
}

/// A message is no shorter than the same message with fewer items.
pub proof fn lemma_encoding_grows<H: Part, P: Part>(header: H::V, items: Seq<P::V>, k: int)
    requires
        0 <= k <= items.len(),
    ensures
        encoding::<H, P>(header, items.take(k)).len() <= encoding::<H, P>(header, items).len(),
{
    assert(items =~= items.take(k) + items.skip(k));
    lemma_item_lines_concat::<P>(items.take(k), items.skip(k));
}

/// How many of the leading `items` a message of `used` bytes still takes
/// before the next one would make it longer than one datagram.
pub open spec fn fill_count<P: Part>(used: int, items: Seq<P::V>) -> nat
    decreases items.len(),
{
    if items.len() == 0 {
        0
    } else if used + item_line::<P>(items[0]).len() <= MAX_PACKET_SIZE {
        1 + fill_count::<P>(used + item_line::<P>(items[0]).len(), items.drop_first())
    } else {
        0
    }
}

/// The lines of a sequence are its first item's line and the lines of the
/// others.
pub proof fn lemma_item_lines_front<P: Part>(items: Seq<P::V>)
    requires
        items.len() > 0,
    ensures
        item_lines::<P>(items) == item_line::<P>(items[0]) + item_lines::<P>(items.drop_first()),
{
    let first = items[0];
    assert(items =~= seq![first] + items.drop_first());
    lemma_item_lines_concat::<P>(seq![first], items.drop_first());
    assert(seq![first] =~= Seq::<P::V>::empty().push(first));
    lemma_item_lines_push::<P>(Seq::<P::V>::empty(), first);
    assert(item_lines::<P>(seq![first]) =~= item_line::<P>(first));
}

/// `fill_count` is the length of the longest prefix that fits: a prefix of
/// `k > 0` items fits exactly where `k` is at most the count.
pub proof fn lemma_fill_count<P: Part>(used: int, items: Seq<P::V>)
    ensures
        fill_count::<P>(used, items) <= items.len(),
        forall|k: int|
            0 < k <= items.len() ==> (k <= fill_count::<P>(used, items) <==> used + item_lines::<P>(
                #[trigger] items.take(k),
            ).len() <= MAX_PACKET_SIZE),
    decreases items.len(),
{
    if items.len() != 0 {
        let first = item_line::<P>(items[0]).len() as int;
        let rest = items.drop_first();
        lemma_fill_count::<P>(used + first, rest);
        assert forall|k: int| 0 < k <= items.len() implies (k <= fill_count::<P>(used, items)
            <==> used + item_lines::<P>(#[trigger] items.take(k)).len() <= MAX_PACKET_SIZE) by {
            lemma_item_lines_front::<P>(items.take(k));
            assert(items.take(k).drop_first() =~= rest.take(k - 1));
            assert(items.take(k)[0] == items[0]);
            if k > 1 {
                assert(rest.take(k - 1).len() == k - 1);
            } else {
                assert(rest.take(0) =~= Seq::<P::V>::empty());
            }
        }
    }
}

/// A longer sequence takes no fewer of its leading items.
pub proof fn lemma_fill_count_extend<P: Part>(used: int, items: Seq<P::V>, more: Seq<P::V>)
    ensures
        fill_count::<P>(used, items) <= fill_count::<P>(used, items + more),
{
    let count = fill_count::<P>(used, items) as int;
    lemma_fill_count::<P>(used, items);
    lemma_fill_count::<P>(used, items + more);
    if count > 0 {
        assert((items + more).take(count) =~= items.take(count));
    }
}

/// Without its first `k` items a sequence takes all the others that it
/// took before.
pub proof fn lemma_fill_count_skip<P: Part>(used: int, items: Seq<P::V>, k: int)
    requires
        0 <= k <= fill_count::<P>(used, items),
    ensures
        fill_count::<P>(used, items) - k <= fill_count::<P>(used, items.skip(k)),
{
    let count = fill_count::<P>(used, items) as int;
    lemma_fill_count::<P>(used, items);
    lemma_fill_count::<P>(used, items.skip(k));
    if count - k > 0 {
        assert(items.take(count) =~= items.take(k) + items.subrange(k, count));
        lemma_item_lines_concat::<P>(items.take(k), items.subrange(k, count));
        assert(items.skip(k).take(count - k) =~= items.subrange(k, count));
    }
}

/// A message under construction: the header line and the lines of the
/// items added so far.
pub struct MessageEncoder {
    bytes: Vec<u8>,
}

impl View for MessageEncoder {
    type V = Seq<u8>;

    closed spec fn view(&self) -> Seq<u8> {
        self.bytes@
    }
}

/// Appends one line to `out`.
fn write_line<T: Part>(directive: &[u8], value: &T, out: &mut Vec<u8>)
    ensures
        final(out)@ == old(out)@ + line(directive@, T::wire(value.deep_view())),
{
    out.extend_from_slice(directive);
    out.push(SP);
    value.write(out);
    out.push(LF);
    proof {
        assert(final(out)@ =~= old(out)@ + line(directive@, T::wire(value.deep_view())));
    }
}

/// The directive `UPDATE`, as bytes.
pub fn update_word() -> (word: [u8; 6])
    ensures
        word@ == update_directive(),
{
    let word: [u8; 6] = [0x55, 0x50, 0x44, 0x41, 0x54, 0x45];
    proof {
        assert(word@ =~= update_directive());
    }
    word
}

/// The directive `HEADER`, as bytes.
pub fn header_word() -> (word: [u8; 6])
    ensures
        word@ == header_directive(),
{
    let word: [u8; 6] = [0x48, 0x45, 0x41, 0x44, 0x45, 0x52];
    proof {
        assert(word@ =~= header_directive());
    }
    word
}

/// The length of the line that carries `item`.
pub fn line_len<P: Part>(item: &P) -> (len: usize)
    ensures
        len == item_line::<P>(item.deep_view()).len(),
{
    let mut scratch: Vec<u8> = Vec::new();
    write_line(update_word().as_slice(), item, &mut scratch);
    proof {
        assert(scratch@ =~= item_line::<P>(item.deep_view()));
    }
    scratch.len()
}

/// How many of the items from index `from` on a message of `used` bytes
/// still takes.
pub fn count_fitting<P: Part>(used: usize, items: &Vec<P>, from: usize) -> (count: usize)
    requires
        from <= items.len(),
    ensures
        count == fill_count::<P>(used as int, items.deep_view().skip(from as int)),
        from + count <= items.len(),
{
    let ghost all = items.deep_view();
    let mut total: usize = used;
    let mut i: usize = from;
    while i < items.len()
        invariant
            from <= i <= items.len(),
            all == items.deep_view(),
            fill_count::<P>(used as int, all.skip(from as int)) == (i - from) + fill_count::<P>(
                total as int,
                all.skip(i as int),
            ),
        decreases items.len() - i,
    {
        let len = line_len(&items[i]);
        proof {
            assert(all.skip(i as int)[0] == items@[i as int].deep_view());
            assert(all.skip(i as int).drop_first() =~= all.skip(i + 1));
        }
        if total > MAX_PACKET_SIZE || len > MAX_PACKET_SIZE - total {
            return i - from;
        }
        total = total + len;
        i = i + 1;
    }
    i - from
}

impl MessageEncoder {
    /// Starts a message with its header line.
    pub fn new<H: Part>(header: &H) -> (encoder: MessageEncoder)
        ensures
            encoder@ == header_line::<H>(header.deep_view()),
    {
        let mut bytes: Vec<u8> = Vec::new();
        write_line(header_word().as_slice(), header, &mut bytes);
        proof {
            assert(bytes@ =~= header_line::<H>(header.deep_view()));
        }
        MessageEncoder { bytes }
    }

    /// How many bytes the message has so far.
    pub fn len(&self) -> (len: usize)
        ensures
            len == self@.len(),
    {
        self.bytes.len()
    }

    /// Adds the line of `item` if the message then still fits into one
    /// datagram, and says whether it did. A message that does not take the
    /// item is left as it was.
    pub fn add<P: Part>(&mut self, item: &P) -> (added: bool)
        ensures
            added == (old(self)@.len() + item_line::<P>(item.deep_view()).len()
                <= MAX_PACKET_SIZE),
            final(self)@ == if added {
                old(self)@ + item_line::<P>(item.deep_view())
            } else {
                old(self)@
            },
    {
        let mark = self.bytes.len();
        write_line(update_word().as_slice(), item, &mut self.bytes);
        if self.bytes.len() <= MAX_PACKET_SIZE {
            true
        } else {
            self.bytes.truncate(mark);
            proof {
                assert(self.bytes@ =~= old(self).bytes@);
            }
            false
        }
    }

    /// Adds the lines of the items from index `from` on, in order, for as
    /// long as they fit, and says how many it added.
    pub fn fill<P: Part>(&mut self, items: &Vec<P>, from: usize) -> (count: usize)
        requires
            from <= items.len(),
        ensures
            count == fill_count::<P>(
                old(self)@.len() as int,
                items.deep_view().skip(from as int),
            ),
            from + count <= items.len(),
            final(self)@ == old(self)@ + item_lines::<P>(
                items.deep_view().subrange(from as int, from + count),
            ),
    {
        let ghost all = items.deep_view();
        let ghost start = self@;
        let mut i: usize = from;
        proof {
            assert(all.subrange(from as int, from as int) =~= Seq::<P::V>::empty());
            assert(self@ =~= start + item_lines::<P>(all.subrange(from as int, from as int)));
        }
        while i < items.len()
            invariant
                from <= i <= items.len(),
                all == items.deep_view(),
                start == old(self)@,
                self@ == start + item_lines::<P>(all.subrange(from as int, i as int)),
                fill_count::<P>(start.len() as int, all.skip(from as int)) == (i - from)
                    + fill_count::<P>(self@.len() as int, all.skip(i as int)),
            decreases items.len() - i,
        {
            let ghost prior = self@;
            let added = self.add(&items[i]);
            proof {
                assert(all.skip(i as int)[0] == items@[i as int].deep_view());
                assert(all.skip(i as int).drop_first() =~= all.skip(i + 1));
            }
            if !added {
                return i - from;
            }
            proof {
                let item = items@[i as int].deep_view();
                assert(all.subrange(from as int, i + 1) =~= all.subrange(
                    from as int,
                    i as int,
                ).push(item));
                lemma_item_lines_push::<P>(all.subrange(from as int, i as int), item);
                assert(self@ =~= start + item_lines::<P>(all.subrange(from as int, i + 1)));
            }
            i = i + 1;
        }
        i - from
    }

    /// The bytes of the message so far, whatever their number.
    pub fn into_bytes(self) -> (bytes: Vec<u8>)
        ensures
            bytes@ == self@,
    {
        self.bytes
    }

    /// Ends the message: its bytes, or `TooLarge` where they are more than
    /// one datagram holds (which only a long header line can cause).
    pub fn encode(self) -> (message: Result<Vec<u8>, EncodeError>)
        ensures
            match message {
                Ok(bytes) => bytes@ == self@ && self@.len() <= MAX_PACKET_SIZE,
                Err(error) => error == EncodeError::TooLarge && self@.len() > MAX_PACKET_SIZE,
            },
    {
        if self.bytes.len() <= MAX_PACKET_SIZE {
            Ok(self.bytes)
        } else {
            Err(EncodeError::TooLarge)
        }
    }
}

/// Encodes a message: the header line, then one line for each item. The
/// result is `TooLarge` exactly where the message is longer than one
/// datagram.
pub fn encode_message<H: Part, P: Part>(header: &H, items: &Vec<P>) -> (message: Result<
    Vec<u8>,
    EncodeError,
>)
    ensures
        match message {
            Ok(bytes) => bytes@ == encoding::<H, P>(header.deep_view(), items.deep_view())
                && bytes@.len() <= MAX_PACKET_SIZE,
            Err(error) => error == EncodeError::TooLarge && encoding::<H, P>(
                header.deep_view(),
                items.deep_view(),
            ).len() > MAX_PACKET_SIZE,
        },
{
    let mut encoder = MessageEncoder::new(header);
    let mut i: usize = 0;
    proof {
        assert(items.deep_view().take(0) =~= Seq::<P::V>::empty());
        assert(encoder@ =~= encoding::<H, P>(header.deep_view(), items.deep_view().take(0)));
    }
    while i < items.len()
        invariant
            0 <= i <= items.len(),
            encoder@ == encoding::<H, P>(header.deep_view(), items.deep_view().take(i as int)),
        decreases items.len() - i,
    {
        let added = encoder.add(&items[i]);
        proof {
            let all = items.deep_view();
            assert(all.take(i + 1) =~= all.take(i as int).push(items@[i as int].deep_view()));
            lemma_item_lines_push::<P>(all.take(i as int), items@[i as int].deep_view());
            assert(encoding::<H, P>(header.deep_view(), all.take(i + 1)) =~= encoding::<H, P>(
                header.deep_view(),
                all.take(i as int),
            ) + item_line::<P>(items@[i as int].deep_view()));
            lemma_encoding_grows::<H, P>(header.deep_view(), all, i + 1);
        }
        if !added {
            return Err(EncodeError::TooLarge);
        }
        i = i + 1;
    }
    proof {
        assert(items.deep_view().take(i as int) =~= items.deep_view());
    }
    encoder.encode()
}

} // verus!
