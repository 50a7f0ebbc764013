//! The perception packetizer: it packs what a client is to be shown into
//! as many datagrams as that takes, each with the same header.
//!
//! The items are taken from the end of the pool, as from a stack: the
//! first datagram carries the last items of the pool, the last item first,
//! and what is left for the next datagram is the untouched front. An item
//! that does not fit into a datagram of its own is left out.

use vstd::prelude::*;
use crate::protocol::bytes::MAX_PACKET_SIZE;
use crate::protocol::decode::{message_of, DecodeErrorView};
use crate::protocol::encode::{
    encoding,
    fill_count,
    header_line,
    item_line,
    item_lines,
    lemma_decode_encode,
    lemma_fill_count,
    lemma_item_lines_concat,
    lemma_item_lines_front,
    lemma_item_lines_push,
    MessageEncoder,
};
use crate::protocol::part::Part;

verus! {

/// Whether an item fits into a datagram of its own behind a header line of
/// `used` bytes.
pub open spec fn fits_alone<P: Part>(used: int, item: P::V) -> bool {
    used + item_line::<P>(item).len() <= MAX_PACKET_SIZE
}

/// The items that fit into a datagram of their own, in their order.
pub open spec fn deliverable<P: Part>(used: int, items: Seq<P::V>) -> Seq<P::V>
    decreases items.len(),
{
    if items.len() == 0 {
        Seq::empty()
    } else if fits_alone::<P>(used, items[0]) {
        seq![items[0]] + deliverable::<P>(used, items.drop_first())
    } else {
        deliverable::<P>(used, items.drop_first())
    }
}

/// The pool in the order in which its items are taken: the last first.
pub open spec fn popped<T>(pool: Seq<T>) -> Seq<T> {
    pool.reverse()
}

/// Items in the order in which they are taken, grouped by datagram: each
/// group is the longest run of items from where the last group ended that
/// fits behind the header; an item that fits into no datagram is passed
/// over.
pub open spec fn groups<P: Part>(used: int, items: Seq<P::V>) -> Seq<Seq<P::V>>
    decreases items.len(),
{
    let count = fill_count::<P>(used, items);
    if items.len() == 0 {
        Seq::empty()
    } else if count == 0 {
        groups::<P>(used, items.drop_first())
    } else if count < items.len() {
        seq![items.take(count as int)] + groups::<P>(used, items.skip(count as int))
    } else {
        seq![items]
    }
}

/// The items of some groups, in order.
pub open spec fn joined<T>(groups: Seq<Seq<T>>) -> Seq<T>
    decreases groups.len(),
{
    if groups.len() == 0 {
        Seq::empty()
    } else {
        groups[0] + joined(groups.drop_first())
    }
}

/// The datagrams that carry a pool of items under a header: the items are
/// taken from the end of the pool and grouped as they come; there is one
/// datagram for each group, and one without items where there is no
/// group. None at all where the header line alone is too long for a
/// datagram.
pub open spec fn perceptions<H: Part, P: Part>(header: H::V, pool: Seq<P::V>) -> Seq<Seq<u8>> {
    let used = header_line::<H>(header).len() as int;
    let groups = groups::<P>(used, popped(pool));
    if used > MAX_PACKET_SIZE {
        Seq::empty()
    } else if groups.len() == 0 {
        seq![encoding::<H, P>(header, Seq::empty())]
    } else {
        Seq::new(groups.len(), |i: int| encoding::<H, P>(header, groups[i]))
    }
}

/// What a recipient reads from some datagrams: the items of each, in
/// order.
pub open spec fn delivered<H: Part, P: Part>(packets: Seq<Seq<u8>>) -> Seq<P::V>
    decreases packets.len(),
{
    if packets.len() == 0 {
        Seq::empty()
    } else {
        message_of::<H, P>(packets[0]).0 + delivered::<H, P>(packets.drop_first())
    }
}

/// The line of one item is no longer than the lines of a sequence that
/// holds it.
pub proof fn lemma_line_within_lines<P: Part>(items: Seq<P::V>, i: int)
    requires
        0 <= i < items.len(),
    ensures
        item_line::<P>(items[i]).len() <= item_lines::<P>(items).len(),
{
    assert(items =~= items.take(i) + items.skip(i));
    lemma_item_lines_concat::<P>(items.take(i), items.skip(i));
    lemma_item_lines_front::<P>(items.skip(i));
}

/// Of items that all fit alone, all are deliverable.
pub proof fn lemma_deliverable_all<P: Part>(used: int, items: Seq<P::V>)
    requires
        forall|i: int| 0 <= i < items.len() ==> fits_alone::<P>(used, #[trigger] items[i]),
    ensures
        deliverable::<P>(used, items) == items,
    decreases items.len(),
{
    if items.len() != 0 {
        let rest = items.drop_first();
        assert forall|i: int| 0 <= i < rest.len() implies fits_alone::<P>(
            used,
            #[trigger] rest[i],
        ) by {
            assert(rest[i] == items[i + 1]);
        }
        lemma_deliverable_all::<P>(used, rest);
        assert(fits_alone::<P>(used, items[0]));
        assert(seq![items[0]] + rest =~= items);
    }
}

/// The deliverable items of two sequences joined are their deliverable
/// items joined.
pub proof fn lemma_deliverable_concat<P: Part>(used: int, a: Seq<P::V>, b: Seq<P::V>)
    ensures
        deliverable::<P>(used, a + b) == deliverable::<P>(used, a) + deliverable::<P>(used, b),
    decreases a.len(),
{
    if a.len() == 0 {
        assert(a + b =~= b);
        assert(deliverable::<P>(used, a) + deliverable::<P>(used, b) =~= deliverable::<P>(
            used,
            b,
        ));
    } else {
        lemma_deliverable_concat::<P>(used, a.drop_first(), b);
        assert((a + b).drop_first() =~= a.drop_first() + b);
        assert((a + b)[0] == a[0]);
        let rest = deliverable::<P>(used, a.drop_first());
        let tail = deliverable::<P>(used, b);
        assert((seq![a[0]] + rest) + tail =~= seq![a[0]] + (rest + tail));
    }
}

/// The groups hold exactly the deliverable items, in order; no group is
/// empty, and each fits behind the header.
pub proof fn lemma_groups<P: Part>(used: int, items: Seq<P::V>)
    ensures
        joined(groups::<P>(used, items)) == deliverable::<P>(used, items),
        forall|i: int|
            0 <= i < groups::<P>(used, items).len() ==> (#[trigger] groups::<P>(
                used,
                items,
            )[i]).len() > 0 && used + item_lines::<P>(groups::<P>(used, items)[i]).len()
                <= MAX_PACKET_SIZE,
    decreases items.len(),
{
    let count = fill_count::<P>(used, items) as int;
    let all = groups::<P>(used, items);
    lemma_fill_count::<P>(used, items);
    if items.len() == 0 {
    } else if count == 0 {
        lemma_groups::<P>(used, items.drop_first());
        assert(items.take(1) =~= seq![items[0]]);
        lemma_item_lines_front::<P>(items.take(1));
        assert(items.take(1).drop_first() =~= Seq::<P::V>::empty());
        assert(!fits_alone::<P>(used, items[0]));
    } else {
        let first = items.take(count);
        let rest = items.skip(count);
        assert(used + item_lines::<P>(first).len() <= MAX_PACKET_SIZE);
        assert forall|i: int| 0 <= i < first.len() implies fits_alone::<P>(
            used,
            #[trigger] first[i],
        ) by {
            lemma_line_within_lines::<P>(first, i);
        }
        lemma_deliverable_all::<P>(used, first);
        assert(items =~= first + rest);
        lemma_deliverable_concat::<P>(used, first, rest);
        if count < items.len() {
            let others = groups::<P>(used, rest);
            lemma_groups::<P>(used, rest);
            assert(all.drop_first() =~= others);
            assert forall|i: int| 0 <= i < all.len() implies (#[trigger] all[i]).len() > 0 && used
                + item_lines::<P>(all[i]).len() <= MAX_PACKET_SIZE by {
                if i > 0 {
                    assert(all[i] == others[i - 1]);
                }
            }
        } else {
            assert(first =~= items);
            assert(rest =~= Seq::<P::V>::empty());
            assert(all.drop_first() =~= Seq::<Seq<P::V>>::empty());
            assert(joined(all.drop_first()) =~= Seq::<P::V>::empty());
            assert(items + Seq::<P::V>::empty() =~= items);
            assert(deliverable::<P>(used, rest) =~= Seq::<P::V>::empty());
        }
    }
}

/// What the packetizer promises. Where the header line fits into a
/// datagram, there is at least one datagram; none is longer than a
/// datagram may be; each decodes to the same header; and the items that
/// the recipient reads from them, taken together, are the deliverable
/// items of the pool, each once, in the order in which they were taken
/// from the pool: the last first.
pub proof fn lemma_perceptions<H: Part, P: Part>(header: H::V, pool: Seq<P::V>)
    requires
        header_line::<H>(header).len() <= MAX_PACKET_SIZE,
    ensures
        perceptions::<H, P>(header, pool).len() >= 1,
        forall|i: int|
            0 <= i < perceptions::<H, P>(header, pool).len() ==> (#[trigger] perceptions::<H, P>(
                header,
                pool,
            )[i]).len() <= MAX_PACKET_SIZE && message_of::<H, P>(
                perceptions::<H, P>(header, pool)[i],
            ).1 == Ok::<H::V, DecodeErrorView>(header),
        delivered::<H, P>(perceptions::<H, P>(header, pool)) == deliverable::<P>(
            header_line::<H>(header).len() as int,
            popped(pool),
        ),
{
    let used = header_line::<H>(header).len() as int;
    let groups = groups::<P>(used, popped(pool));
    let packets = perceptions::<H, P>(header, pool);
    lemma_groups::<P>(used, popped(pool));
    if groups.len() == 0 {
        lemma_decode_encode::<H, P>(header, Seq::empty());
        assert(packets.drop_first() =~= Seq::<Seq<u8>>::empty());
        assert(delivered::<H, P>(packets.drop_first()) =~= Seq::<P::V>::empty());
        assert(delivered::<H, P>(packets) =~= Seq::<P::V>::empty());
        assert(joined(groups) =~= Seq::<P::V>::empty());
    } else {
        assert forall|i: int| 0 <= i < packets.len() implies (#[trigger] packets[i]).len()
            <= MAX_PACKET_SIZE && message_of::<H, P>(packets[i]).1 == Ok::<H::V, DecodeErrorView>(
            header,
        ) by {
            lemma_decode_encode::<H, P>(header, groups[i]);
            assert(groups[i].len() > 0);
        }
        lemma_delivered_encodings::<H, P>(header, groups);
    }
}

/// Where every item of the pool fits into a datagram of its own, the
/// recipient reads the whole pool from the datagrams: every item once, the
/// last of the pool first.
pub proof fn lemma_perceptions_cover_pool<H: Part, P: Part>(header: H::V, pool: Seq<P::V>)
    requires
        forall|i: int|
            0 <= i < pool.len() ==> fits_alone::<P>(
                header_line::<H>(header).len() as int,
                #[trigger] pool[i],
            ),
        header_line::<H>(header).len() <= MAX_PACKET_SIZE,
    ensures
        delivered::<H, P>(perceptions::<H, P>(header, pool)) == popped(pool),
        delivered::<H, P>(perceptions::<H, P>(header, pool)).to_multiset() == pool.to_multiset(),
{
    lemma_perceptions::<H, P>(header, pool);
    let taken = popped(pool);
    assert forall|i: int| 0 <= i < taken.len() implies fits_alone::<P>(
        header_line::<H>(header).len() as int,
        #[trigger] taken[i],
    ) by {
        assert(taken[i] == pool[pool.len() - 1 - i]);
    }
    lemma_deliverable_all::<P>(header_line::<H>(header).len() as int, taken);
    pool.lemma_reverse_to_multiset();
}

/// What a recipient reads from the encodings of some groups is the items
/// of the groups.
proof fn lemma_delivered_encodings<H: Part, P: Part>(header: H::V, groups: Seq<Seq<P::V>>)
    ensures
        delivered::<H, P>(Seq::new(groups.len(), |i: int| encoding::<H, P>(header, groups[i])))
            == joined(groups),
    decreases groups.len(),
{
    let packets = Seq::new(groups.len(), |i: int| encoding::<H, P>(header, groups[i]));
    if groups.len() != 0 {
        let rest = groups.drop_first();
        lemma_delivered_encodings::<H, P>(header, rest);
        lemma_decode_encode::<H, P>(header, groups[0]);
        assert(packets.drop_first() =~= Seq::new(
            rest.len(),
            |i: int| encoding::<H, P>(header, rest[i]),
        ));
    }
}

/// No datagram of the packetizer is longer than a datagram may be.
pub proof fn lemma_perceptions_are_bounded<H: Part, P: Part>(header: H::V, pool: Seq<P::V>)
    ensures
        forall|i: int|
            0 <= i < perceptions::<H, P>(header, pool).len() ==> (#[trigger] perceptions::<H, P>(
                header,
                pool,
            )[i]).len() <= MAX_PACKET_SIZE,
        perceptions::<H, P>(header, pool).len() >= 1 <==> header_line::<H>(header).len()
            <= MAX_PACKET_SIZE,
{
    if header_line::<H>(header).len() <= MAX_PACKET_SIZE {
        lemma_perceptions::<H, P>(header, pool);
    }
}

/// Adds the lines of the items of the pool to a message, from the end of
/// the pool towards its front, beginning behind the `taken` items that
/// were taken before, for as long as they fit; says how many it added.
fn fill_from_end<P: Part>(encoder: &mut MessageEncoder, pool: &Vec<P>, taken: usize) -> (count:
    usize)
    requires
        taken <= pool.len(),
    ensures
        count == fill_count::<P>(
            old(encoder)@.len() as int,
            popped(pool.deep_view()).skip(taken as int),
        ),
        taken + count <= pool.len(),
        final(encoder)@ == old(encoder)@ + item_lines::<P>(
            popped(pool.deep_view()).subrange(taken as int, taken + count),
        ),
{
    let ghost order = popped(pool.deep_view());
    let ghost start = encoder@;
    let len = pool.len();
    let mut i: usize = taken;
    proof {
        assert(order.len() == len);
        assert(order.subrange(taken as int, taken as int) =~= Seq::<P::V>::empty());
        assert(encoder@ =~= start + item_lines::<P>(order.subrange(taken as int, taken as int)));
    }
    while i < len
        invariant
            taken <= i <= len,
            len == pool.len(),
            order == popped(pool.deep_view()),
            order.len() == len,
            start == old(encoder)@,
            encoder@ == start + item_lines::<P>(order.subrange(taken as int, i as int)),
            fill_count::<P>(start.len() as int, order.skip(taken as int)) == (i - taken)
                + fill_count::<P>(encoder@.len() as int, order.skip(i as int)),
        decreases len - i,
    {
        let added = encoder.add(&pool[len - 1 - i]);
        proof {
            assert(order[i as int] == pool@[len - 1 - i].deep_view());
            assert(order.skip(i as int)[0] == order[i as int]);
            assert(order.skip(i as int).drop_first() =~= order.skip(i + 1));
        }
        if !added {
            return i - taken;
        }
        proof {
            let item = order[i as int];
            assert(order.subrange(taken as int, i + 1) =~= order.subrange(
                taken as int,
                i as int,
            ).push(item));
            lemma_item_lines_push::<P>(order.subrange(taken as int, i as int), item);
            assert(encoder@ =~= start + item_lines::<P>(order.subrange(taken as int, i + 1)));
        }
        i = i + 1;
    }
    i - taken
}

/// How many items one datagram takes from the end of a pool: as many as
/// fit behind the header.
pub open spec fn carried_by_one<H: Part, P: Part>(header: H::V, pool: Seq<P::V>) -> nat {
    fill_count::<P>(header_line::<H>(header).len() as int, popped(pool))
}

/// How many items leave the pool with one datagram: those that it carries,
/// or, where it can carry none, the one item at the end of the pool, which
/// fits no datagram.
pub open spec fn removed_by_one<H: Part, P: Part>(header: H::V, pool: Seq<P::V>) -> nat {
    if carried_by_one::<H, P>(header, pool) == 0 && pool.len() > 0 {
        1
    } else {
        carried_by_one::<H, P>(header, pool)
    }
}

/// Builds one datagram from the end of the pool. The datagram carries the
/// last items of the pool, the last first, as many as fit behind the
/// header; they leave the pool, and what stays is the untouched front of
/// the pool. Where not even the last item fits, the datagram carries
/// nothing and that item leaves the pool, so that a pool is empty after as
/// many datagrams as it has items, at most.
pub fn send_perception<H: Part, P: Part>(header: &H, pool: &mut Vec<P>) -> (packet: Vec<u8>)
    ensures
        packet@ == encoding::<H, P>(
            header.deep_view(),
            popped(old(pool).deep_view()).take(
                carried_by_one::<H, P>(header.deep_view(), old(pool).deep_view()) as int,
            ),
        ),
        final(pool).deep_view() == old(pool).deep_view().take(
            old(pool)@.len() - removed_by_one::<H, P>(header.deep_view(), old(pool).deep_view()),
        ),
        removed_by_one::<H, P>(header.deep_view(), old(pool).deep_view()) <= old(pool)@.len(),
        old(pool)@.len() > 0 ==> final(pool)@.len() < old(pool)@.len(),
        header_line::<H>(header.deep_view()).len() <= MAX_PACKET_SIZE ==> packet@.len()
            <= MAX_PACKET_SIZE,
{
    let ghost order = popped(pool.deep_view());
    let ghost used = header_line::<H>(header.deep_view()).len() as int;
    let mut encoder = MessageEncoder::new(header);
    let count = fill_from_end(&mut encoder, pool, 0);
    proof {
        assert(order.skip(0) =~= order);
        assert(order.subrange(0, count as int) =~= order.take(count as int));
        lemma_fill_count::<P>(used, order);
        if count == 0 {
            assert(order.take(0) =~= Seq::<P::V>::empty());
        }
    }
    let len = pool.len();
    let removed: usize = if count == 0 && len > 0 {
        1
    } else {
        count
    };
    pool.truncate(len - removed);
    proof {
        assert(final(pool).deep_view() =~= old(pool).deep_view().take(len - removed));
    }
    encoder.into_bytes()
}

/// Packs a pool of items into datagrams under one header: the datagrams
/// are those of `perceptions`; none is longer than a datagram may be, and
/// there is at least one unless the header line alone is too long.
pub fn packetize<H: Part, P: Part>(header: &H, pool: &Vec<P>) -> (packets: Vec<Vec<u8>>)
    ensures
        packets.deep_view() == perceptions::<H, P>(header.deep_view(), pool.deep_view()),
        forall|i: int| 0 <= i < packets@.len() ==> (#[trigger] packets@[i])@.len() <= MAX_PACKET_SIZE,
        packets@.len() >= 1 <==> header_line::<H>(header.deep_view()).len() <= MAX_PACKET_SIZE,
{
    proof {
        lemma_perceptions_are_bounded::<H, P>(header.deep_view(), pool.deep_view());
    }
    let ghost head = header.deep_view();
    let ghost all = popped(pool.deep_view());
    let ghost used = header_line::<H>(head).len() as int;
    let mut packets: Vec<Vec<u8>> = Vec::new();
    let probe = MessageEncoder::new(header);
    if probe.len() > MAX_PACKET_SIZE {
        proof {
            assert(packets.deep_view() =~= Seq::<Seq<u8>>::empty());
        }
        return packets;
    }
    let ghost mut done: Seq<Seq<P::V>> = Seq::empty();
    let mut i: usize = 0;
    proof {
        assert(all.len() == pool.len());
        assert(all.skip(0) =~= all);
        assert(done + groups::<P>(used, all.skip(0)) =~= groups::<P>(used, all));
        assert(packets.deep_view() =~= Seq::new(
            done.len(),
            |k: int| encoding::<H, P>(head, done[k]),
        ));
    }
    while i < pool.len()
        invariant
            0 <= i <= pool.len(),
            head == header.deep_view(),
            all == popped(pool.deep_view()),
            all.len() == pool.len(),
            used == header_line::<H>(head).len(),
            used <= MAX_PACKET_SIZE,
            groups::<P>(used, all) == done + groups::<P>(used, all.skip(i as int)),
            packets.deep_view() == Seq::new(done.len(), |k: int| encoding::<H, P>(head, done[k])),
        decreases pool.len() - i,
    {
        let ghost rest = all.skip(i as int);
        let ghost before = packets.deep_view();
        let mut encoder = MessageEncoder::new(header);
        let count = fill_from_end(&mut encoder, pool, i);
        proof {
            lemma_fill_count::<P>(used, rest);
        }
        if count == 0 {
            proof {
                assert(rest.drop_first() =~= all.skip(i + 1));
            }
            i = i + 1;
        } else {
            let packet = encoder.into_bytes();
            proof {
                let group = rest.take(count as int);
                assert(all.subrange(i as int, i + count) =~= group);
                assert(packet@ == encoding::<H, P>(head, group));
                if count < rest.len() {
                    assert(rest.skip(count as int) =~= all.skip(i + count));
                    assert(done + (seq![group] + groups::<P>(used, rest.skip(count as int)))
                        =~= done.push(group) + groups::<P>(used, all.skip(i + count)));
                } else {
                    assert(group =~= rest);
                    assert(all.skip(i + count) =~= Seq::<P::V>::empty());
                    assert(done + seq![rest] =~= done.push(group) + groups::<P>(
                        used,
                        all.skip(i + count),
                    ));
                }
                done = done.push(group);
            }
            packets.push(packet);
            proof {
                assert(packet.deep_view() =~= packet@);
                assert(packets.deep_view() =~= before.push(packet@));
                assert(packets.deep_view() =~= Seq::new(
                    done.len(),
                    |k: int| encoding::<H, P>(head, done[k]),
                ));
            }
            i = i + count;
        }
    }
    proof {
        assert(all.skip(i as int) =~= Seq::<P::V>::empty());
        assert(done + Seq::<Seq<P::V>>::empty() =~= done);
    }
    if packets.len() == 0 {
        let empty = probe.into_bytes();
        proof {
            assert(empty@ =~= encoding::<H, P>(head, Seq::empty()));
        }
        let ghost before = packets.deep_view();
        packets.push(empty);
        proof {
            assert(empty.deep_view() =~= empty@);
            assert(packets.deep_view() =~= before.push(empty@));
            assert(packets.deep_view() =~= seq![encoding::<H, P>(head, Seq::empty())]);
        }
    }
    proof {
        assert forall|i: int| 0 <= i < packets@.len() implies (#[trigger] packets@[i])@.len()
            <= MAX_PACKET_SIZE by {
            assert(packets.deep_view()[i] =~= packets@[i]@);
        }
    }
    packets
}

} // verus!
