//! Free text as one token of a line: escaped, so that it holds neither a
//! space nor a line feed.

use vstd::prelude::*;
use vstd::string::StringExecFns;
use vstd::string::StringSliceAdditionalSpecFns;
use vstd::utf8::{
    decode_utf8,
    encode_utf8,
    encode_utf8_decode_utf8,
    encode_utf8_valid_utf8,
    is_continuation_byte,
    length_of_first_scalar,
    pop_first_scalar,
    valid_first_scalar,
    valid_utf8,
    valid_utf8_concat,
};
use crate::protocol::bytes::{is_ascii_bytes, lemma_ascii_is_utf8, utf8_text, LF, SP};

verus! {

/// The byte that starts an escape: a backslash.
pub const ESC: u8 = 0x5c;

/// The byte `n`, which after a backslash stands for a line feed.
pub const CODE_LF: u8 = 0x6e;

/// The byte `s`, which after a backslash stands for a space.
pub const CODE_SP: u8 = 0x73;

/// What stands for the byte `b` inside a token.
pub open spec fn escaped(b: u8) -> Seq<u8> {
    if b == ESC {
        seq![ESC, ESC]
    } else if b == LF {
        seq![ESC, CODE_LF]
    } else if b == SP {
        seq![ESC, CODE_SP]
    } else {
        seq![b]
    }
}

/// The byte that `code` stands for behind a backslash.
pub open spec fn unescaped(code: u8) -> Option<u8> {
    if code == ESC {
        Some(ESC)
    } else if code == CODE_LF {
        Some(LF)
    } else if code == CODE_SP {
        Some(SP)
    } else {
        None
    }
}

/// The token that stands for the bytes `s`.
pub open spec fn escape(s: Seq<u8>) -> Seq<u8>
    decreases s.len(),
{
    if s.len() == 0 {
        Seq::empty()
    } else {
        escaped(s[0]) + escape(s.drop_first())
    }
}

/// The bytes that the token `s` stands for: `None` where a backslash is
/// followed by nothing or by a byte that is no code.
pub open spec fn unescape(s: Seq<u8>) -> Option<Seq<u8>>
    decreases s.len(),
{
    if s.len() == 0 {
        Some(Seq::empty())
    } else if s[0] == ESC {
        if s.len() < 2 {
            None
        } else {
            match (unescaped(s[1]), unescape(s.skip(2))) {
                (Some(b), Some(rest)) => Some(seq![b] + rest),
                _ => None,
            }
        }
    } else {
        match unescape(s.skip(1)) {
            Some(rest) => Some(seq![s[0]] + rest),
            None => None,
        }
    }
}

/// The token that stands for a text: its UTF-8 bytes, escaped.
pub open spec fn text_token(text: Seq<char>) -> Seq<u8> {
    escape(encode_utf8(text))
}

/// The text that a token stands for, if it stands for one.
pub open spec fn text_of(token: Seq<u8>) -> Option<Seq<char>> {
    match unescape(token) {
        Some(bytes) => if valid_utf8(bytes) {
            Some(decode_utf8(bytes))
        } else {
            None
        },
        None => None,
    }
}

/// Escaping goes byte by byte.
pub proof fn lemma_escape_concat(a: Seq<u8>, b: Seq<u8>)
    ensures
        escape(a + b) == escape(a) + escape(b),
    decreases a.len(),
{
    if a.len() == 0 {
        assert(a + b =~= b);
        assert(escape(a) + escape(b) =~= escape(b));
    } else {
        lemma_escape_concat(a.drop_first(), b);
        assert((a + b).drop_first() =~= a.drop_first() + b);
        assert(escaped(a[0]) + (escape(a.drop_first()) + escape(b)) =~= (escaped(a[0]) + escape(
            a.drop_first(),
        )) + escape(b));
    }
}

/// The token of a single byte is what stands for that byte.
pub proof fn lemma_escape_one(b: u8)
    ensures
        escape(seq![b]) == escaped(b),
{
    let one = seq![b];
    assert(one.drop_first() =~= Seq::<u8>::empty());
    assert(escape(one.drop_first()) =~= Seq::<u8>::empty());
    assert(escaped(one[0]) + Seq::<u8>::empty() =~= escaped(b));
}

/// Escaping one byte more appends what stands for that byte.
pub proof fn lemma_escape_push(s: Seq<u8>, b: u8)
    ensures
        escape(s.push(b)) == escape(s) + escaped(b),
{
    lemma_escape_concat(s, seq![b]);
    assert(s.push(b) =~= s + seq![b]);
    lemma_escape_one(b);
}

/// A token is at most twice as long as what it stands for.
pub proof fn lemma_escape_len(s: Seq<u8>)
    ensures
        s.len() <= escape(s).len() <= 2 * s.len(),
    decreases s.len(),
{
    if s.len() != 0 {
        lemma_escape_len(s.drop_first());
    }
}

/// A token holds neither a line feed nor a space.
pub proof fn lemma_escape_is_token(s: Seq<u8>)
    ensures
        !escape(s).contains(LF),
        !escape(s).contains(SP),
    decreases s.len(),
{
    if s.len() != 0 {
        lemma_escape_is_token(s.drop_first());
        let head = escaped(s[0]);
        let tail = escape(s.drop_first());
        let all = escape(s);
        assert forall|i: int| 0 <= i < all.len() implies all[i] != LF && all[i] != SP by {
            if i >= head.len() {
                assert(tail.contains(tail[i - head.len()]));
            }
        }
    }
}

/// Unescaping inverts escaping.
pub proof fn lemma_unescape_escape(s: Seq<u8>)
    ensures
        unescape(escape(s)) == Some(s),
    decreases s.len(),
{
    if s.len() != 0 {
        lemma_unescape_escape(s.drop_first());
        let head = escaped(s[0]);
        let tail = escape(s.drop_first());
        let all = head + tail;
        assert(all.skip(head.len() as int) =~= tail);
        assert(seq![s[0]] + s.drop_first() =~= s);
        if head.len() == 2 {
            assert(all[0] == ESC);
            assert(unescaped(all[1]) == Some(s[0]));
        } else {
            assert(all[0] == s[0]);
        }
    }
}

/// Escaping keeps UTF-8 well-formed: it only replaces ASCII by ASCII.
pub proof fn lemma_escape_is_utf8(s: Seq<u8>)
    requires
        valid_utf8(s),
    ensures
        valid_utf8(escape(s)),
    decreases s.len(),
{
    if s.len() == 0 {
    } else {
        assert(valid_first_scalar(s));
        let k = length_of_first_scalar(s);
        assert(1 <= k <= s.len());
        let head = s.subrange(0, k);
        let tail = pop_first_scalar(s);
        assert(s =~= head + tail);
        lemma_escape_concat(head, tail);
        lemma_escape_is_utf8(tail);
        if k == 1 {
            assert(head =~= seq![s[0]]);
            lemma_escape_one(s[0]);
            assert(is_ascii_bytes(escape(head)));
            lemma_ascii_is_utf8(escape(head));
        } else {
            lemma_escape_unchanged(head);
            assert(valid_first_scalar(head));
            assert(pop_first_scalar(head) =~= Seq::<u8>::empty());
            assert(valid_utf8(pop_first_scalar(head)));
            assert(valid_utf8(head));
        }
        valid_utf8_concat(escape(head), escape(tail));
    }
}

/// Bytes outside ASCII stand for themselves.
pub proof fn lemma_escape_unchanged(s: Seq<u8>)
    requires
        forall|i: int| 0 <= i < s.len() ==> #[trigger] s[i] >= 0x80,
    ensures
        escape(s) == s,
    decreases s.len(),
{
    if s.len() != 0 {
        lemma_escape_unchanged(s.drop_first());
        assert(s[0] >= 0x80);
        assert(seq![s[0]] + s.drop_first() =~= s);
    }
}

/// A text's token is well-formed UTF-8 without space or line feed, and it
/// stands for that text.
pub proof fn lemma_text_token(text: Seq<char>)
    ensures
        valid_utf8(text_token(text)),
        !text_token(text).contains(LF),
        !text_token(text).contains(SP),
        text_of(text_token(text)) == Some(text),
{
    let bytes = encode_utf8(text);
    encode_utf8_valid_utf8(text);
    encode_utf8_decode_utf8(text);
    lemma_escape_is_utf8(bytes);
    lemma_escape_is_token(bytes);
    lemma_unescape_escape(bytes);
}

/// Appends the token that stands for `bytes` to `out`.
pub fn write_escaped(bytes: &[u8], out: &mut Vec<u8>)
    ensures
        final(out)@ == old(out)@ + escape(bytes@),
{
    let mut i: usize = 0;
    proof {
        assert(bytes@.take(0) =~= Seq::<u8>::empty());
        assert(out@ =~= old(out)@ + escape(bytes@.take(0)));
    }
    while i < bytes.len()
        invariant
            0 <= i <= bytes.len(),
            out@ == old(out)@ + escape(bytes@.take(i as int)),
        decreases bytes.len() - i,
    {
        let b: u8 = bytes[i];
        let ghost prior = out@;
        if b == ESC {
            out.push(ESC);
            out.push(ESC);
        } else if b == LF {
            out.push(ESC);
            out.push(CODE_LF);
        } else if b == SP {
            out.push(ESC);
            out.push(CODE_SP);
        } else {
            out.push(b);
        }
        proof {
            assert(out@ =~= prior + escaped(b));
            lemma_escape_push(bytes@.take(i as int), b);
            assert(bytes@.take(i + 1) =~= bytes@.take(i as int).push(b));
            assert(out@ =~= old(out)@ + escape(bytes@.take(i + 1)));
        }
        i = i + 1;
    }
    proof {
        assert(bytes@.take(i as int) =~= bytes@);
    }
}

/// Reads the bytes that a token stands for.
pub fn read_escaped(token: &[u8]) -> (bytes: Option<Vec<u8>>)
    ensures
        match bytes {
            Some(bytes) => unescape(token@) == Some(bytes@),
            None => unescape(token@) is None,
        },
{
    let mut out: Vec<u8> = Vec::new();
    let mut i: usize = 0;
    proof {
        assert(token@.skip(0) =~= token@);
    }
    while i < token.len()
        invariant
            0 <= i <= token.len(),
            unescape(token@) == match unescape(token@.skip(i as int)) {
                Some(rest) => Some(out@ + rest),
                None => None,
            },
        decreases token.len() - i,
    {
        let ghost rest = token@.skip(i as int);
        let ghost prior = out@;
        let b: u8 = token[i];
        if b == ESC {
            if i + 1 >= token.len() {
                return None;
            }
            let code: u8 = token[i + 1];
            let plain: u8 = if code == ESC {
                ESC
            } else if code == CODE_LF {
                LF
            } else if code == CODE_SP {
                SP
            } else {
                return None;
            };
            out.push(plain);
            proof {
                assert(rest.skip(2) =~= token@.skip(i + 2));
                match unescape(token@.skip(i + 2)) {
                    Some(more) => {
                        assert(prior + (seq![plain] + more) =~= out@ + more);
                    },
                    None => {},
                }
            }
            i = i + 2;
        } else {
            out.push(b);
            proof {
                assert(rest.skip(1) =~= token@.skip(i + 1));
                match unescape(token@.skip(i + 1)) {
                    Some(more) => {
                        assert(prior + (seq![b] + more) =~= out@ + more);
                    },
                    None => {},
                }
            }
            i = i + 1;
        }
    }
    proof {
        assert(token@.skip(i as int).len() == 0);
        assert(out@ + Seq::<u8>::empty() =~= out@);
    }
    Some(out)
}

/// Appends the token that stands for `text` to `out`.
pub fn write_text(text: &str, out: &mut Vec<u8>)
    ensures
        final(out)@ == old(out)@ + text_token(text@),
{
    write_escaped(text.as_bytes(), out);
}

/// Reads the text that a token stands for.
pub fn read_text(token: &[u8]) -> (text: Option<String>)
    ensures
        text.deep_view() == text_of(token@),
{
    match read_escaped(token) {
        None => None,
        Some(bytes) => match utf8_text(bytes.as_slice()) {
            None => None,
            Some(text) => Some(String::from_str(text)),
        },
    }
}

} // verus!
