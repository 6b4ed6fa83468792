//! The tokenizer and the scan session it opens over a text.

use vstd::prelude::*;
use vstd::utf8::*;
use vstd::string::StringSliceAdditionalSpecFns;
use vstd::arithmetic::div_mod::lemma_add_mod_noop;
use vstd::arithmetic::div_mod::lemma_small_mod;
use vstd::arithmetic::div_mod::lemma_mod_add_multiples_vanish;
use crate::scan::is_ws;
use crate::scan::next_start;
use crate::scan::run_end;
use crate::scan::spans;
use crate::scan::count_runs;
use crate::scan::lemma_token_count;
use crate::scan::lemma_next_start;
use crate::scan::lemma_run_end;
use crate::scan::lemma_span_on_boundaries;
use crate::token::Token;

verus! {

broadcast use vstd::utf8::encode_utf8_valid_utf8;

/// The number of values a `usize` can take; positions count modulo it.
pub open spec fn position_modulus() -> int {
    usize::MAX as int + 1
}

/// `t` is the token that a scan of `src` hands out for `span`, as the one
/// that `index` tokens preceded.
pub open spec fn token_matches(t: Token, src: Seq<u8>, span: (int, int), index: int) -> bool {
    &&& t.offset_from as int == span.0
    &&& t.offset_to as int == span.1
    &&& encode_utf8(t.text@) == src.subrange(span.0, span.1)
    &&& t.position as int == index % position_modulus()
}

/// `out` is, in order, every token that a scan of `src` from its start hands out.
pub open spec fn is_scan_of(out: Seq<Token>, src: Seq<u8>) -> bool {
    &&& out.len() == spans(src, 0).len()
    &&& forall|k: int| 0 <= k < out.len() ==> token_matches(#[trigger] out[k], src, spans(src, 0)[k], k)
}

/// A scan hands out one token per maximal run of bytes that are not
/// whitespace: from a fresh scan, `advance` returns `true` exactly that many
/// times before it first returns `false`.
pub proof fn lemma_one_token_per_run(s: &WhitespacePuncTokenStream)
    requires
        s.wf(),
        s.emitted() == 0,
    ensures
        s.remaining() == spans(s.source(), 0),
        s.remaining().len() == count_runs(s.source(), 0),
{
    s.lemma_fresh_remaining();
    lemma_token_count(s.source());
}

/// Scanning the same text again yields the same tokens: two complete scans
/// of one source agree token for token, in text, offsets and position.
pub proof fn lemma_rescan_identical(src: Seq<u8>, first: Seq<Token>, second: Seq<Token>)
    requires
        is_scan_of(first, src),
        is_scan_of(second, src),
    ensures
        first.len() == second.len(),
        forall|k: int|
            0 <= k < first.len() ==> (#[trigger] first[k]).text@ == second[k].text@
                && first[k].offset_from == second[k].offset_from
                && first[k].offset_to == second[k].offset_to
                && first[k].position == second[k].position,
{
    assert forall|k: int| 0 <= k < first.len() implies (#[trigger] first[k]).text@
        == second[k].text@ by {
        assert(token_matches(first[k], src, spans(src, 0)[k], k));
        assert(token_matches(second[k], src, spans(src, 0)[k], k));
        encode_utf8_decode_utf8(first[k].text@);
        encode_utf8_decode_utf8(second[k].text@);
    }
    assert forall|k: int| 0 <= k < first.len() implies first[k].position == second[k].position
        && first[k].offset_from == second[k].offset_from
        && first[k].offset_to == second[k].offset_to by {
        assert(token_matches(first[k], src, spans(src, 0)[k], k));
        assert(token_matches(second[k], src, spans(src, 0)[k], k));
    }
}

/// Tokenize the text by splitting on whitespaces.
#[derive(Clone)]
pub struct WhitespacePuncTokenizer;

/// A scan over one text: a cursor into its bytes and the current token.
pub struct WhitespacePuncTokenStream<'a> {
    text: &'a str,
    cursor: usize,
    token: Token,
    /// How many tokens `advance` has handed out.
    emitted: Ghost<nat>,
    /// How many times `advance` was called.
    calls: Ghost<nat>,
}

/// Whether `b` is ASCII whitespace.
pub fn is_ascii_ws(b: u8) -> (r: bool)
    ensures
        r == is_ws(b),
{
    b == 0x20u8 || b == 0x09u8 || b == 0x0au8 || b == 0x0bu8 || b == 0x0cu8 || b == 0x0du8
}

impl WhitespacePuncTokenizer {
    /// Opens a scan over `text`, before its first token.
    pub fn token_stream<'a>(&self, text: &'a str) -> (r: WhitespacePuncTokenStream<'a>)
        ensures
            r.wf(),
            r.source_text() == text@,
            r.source() == text.spec_bytes(),
            r.remaining() == spans(text.spec_bytes(), 0),
            r.emitted() == 0,
            r.calls() == 0,
            r.current().position == usize::MAX,
    {
        let r = WhitespacePuncTokenStream {
            text,
            cursor: 0,
            token: Token::default(),
            emitted: Ghost(0),
            calls: Ghost(0),
        };
        proof {
            let m = position_modulus();
            assert(spans(r.source(), 0).skip(0) =~= spans(r.source(), 0));
            lemma_mod_add_multiples_vanish(-1, m);
            lemma_small_mod((m - 1) as nat, m as nat);
        }
        r
    }
}

impl<'a> WhitespacePuncTokenStream<'a> {
    /// The characters of the text under scan.
    pub closed spec fn source_text(&self) -> Seq<char> {
        self.text@
    }

    /// The UTF-8 bytes of the text under scan.
    pub closed spec fn source(&self) -> Seq<u8> {
        self.text.spec_bytes()
    }

    /// The spans of the tokens that are still to come.
    pub closed spec fn remaining(&self) -> Seq<(int, int)> {
        spans(self.source(), self.cursor as int)
    }

    /// How many tokens have been handed out.
    pub closed spec fn emitted(&self) -> nat {
        self.emitted@
    }

    /// How many times `advance` was called.
    pub closed spec fn calls(&self) -> nat {
        self.calls@
    }

    /// The current token.
    pub closed spec fn current(&self) -> Token {
        self.token
    }

    /// The scan is consistent: what remains is what the whole text yields
    /// after the tokens handed out, and the position counts the calls.
    pub closed spec fn wf(&self) -> bool {
        let b = self.source();
        &&& self.cursor <= b.len()
        &&& (self.cursor == 0 || self.cursor == b.len() || is_ws(b[self.cursor as int]))
        &&& self.emitted@ <= spans(b, 0).len()
        &&& spans(b, 0).skip(self.emitted@ as int) == spans(b, self.cursor as int)
        &&& self.token.position as int == (self.calls@ - 1) % position_modulus()
        &&& self.emitted@ <= self.calls@
        &&& (self.emitted@ < self.calls@ ==> spans(b, self.cursor as int).len() == 0)
    }

    /// Before any token is handed out, what remains is what the whole text yields.
    proof fn lemma_fresh_remaining(&self)
        requires
            self.wf(),
            self.emitted() == 0,
        ensures
            self.remaining() == spans(self.source(), 0),
    {
        assert(spans(self.source(), 0).skip(0) =~= spans(self.source(), 0));
    }

    /// Searches for the end of the token that begins at `from`.
    fn search_token_end(&self, from: usize) -> (r: usize)
        requires
            from <= self.source().len(),
        ensures
            r as int == run_end(self.source(), from as int),
    {
        let bytes = self.text.as_bytes();
        let len = bytes.len();
        let mut i: usize = from;
        while i < len && !is_ascii_ws(bytes[i])
            invariant
                from <= i <= len,
                bytes@ == self.source(),
                len == bytes@.len(),
                run_end(bytes@, i as int) == run_end(bytes@, from as int),
            decreases len - i,
        {
            i = i + 1;
        }
        i
    }

    /// Moves to the next token. Returns `false` once the text holds no more;
    /// the position goes one step on at every call, wrapping past `usize::MAX`.
    pub fn advance(&mut self) -> (r: bool)
        requires
            old(self).wf(),
        ensures
            final(self).wf(),
            final(self).source_text() == old(self).source_text(),
            final(self).source() == old(self).source(),
            final(self).calls() == old(self).calls() + 1,
            final(self).current().position as int == (old(self).current().position + 1)
                % position_modulus(),
            final(self).current().position_length == old(self).current().position_length,
            r == (old(self).remaining().len() > 0),
            r ==> final(self).remaining() == old(self).remaining().drop_first(),
            r ==> final(self).emitted() == old(self).emitted() + 1,
            r ==> final(self).current().offset_from == old(self).remaining()[0].0,
            r ==> final(self).current().offset_to == old(self).remaining()[0].1,
            r ==> final(self).current().offset_from < final(self).current().offset_to
                <= final(self).source().len(),
            r ==> encode_utf8(final(self).current().text@) == final(self).source().subrange(
                final(self).current().offset_from as int,
                final(self).current().offset_to as int,
            ),
            r ==> final(self).current().position as int == (old(self).emitted() as int)
                % position_modulus(),
            !r ==> final(self).remaining() == old(self).remaining(),
            !r ==> final(self).emitted() == old(self).emitted(),
            !r ==> final(self).current().text@ == Seq::<char>::empty(),
    {
        let ghost b = self.source();
        let ghost c0 = self.cursor as int;
        let ghost m = position_modulus();
        proof {
            let p = self.token.position as int;
            lemma_add_mod_noop(self.calls@ - 1, 1, m);
            lemma_small_mod(1, m as nat);
            if p + 1 < m {
                lemma_small_mod((p + 1) as nat, m as nat);
            }
        }
        self.token.text = String::new();
        self.token.position = self.token.position.wrapping_add(1);
        self.calls = Ghost(self.calls@ + 1);
        let bytes = self.text.as_bytes();
        let len = bytes.len();
        let mut i: usize = self.cursor;
        while i < len && is_ascii_ws(bytes[i])
            invariant
                c0 <= i <= len,
                bytes@ == b,
                len == b.len(),
                next_start(b, i as int) == next_start(b, c0),
            decreases len - i,
        {
            i = i + 1;
        }
        proof {
            lemma_next_start(b, c0);
        }
        if i >= len {
            self.cursor = len;
            return false;
        }
        let from = i;
        let to = self.search_token_end(from);
        proof {
            lemma_run_end(b, from as int);
            lemma_span_on_boundaries(b, from as int);
        }
        let (_, tail) = self.text.split_at(from);
        proof {
            let tb = tail.spec_bytes();
            let k = (to - from) as int;
            if k < tb.len() {
                assert(tb[k] == b[to as int]);
                is_char_boundary_iff_not_is_continuation_byte(tb, k);
            } else {
                is_char_boundary_start_end_of_seq(tb);
            }
        }
        let (piece, _) = tail.split_at(to - from);
        self.token.text = piece.to_owned();
        self.token.offset_from = from;
        self.token.offset_to = to;
        self.cursor = to;
        proof {
            let all = spans(b, 0);
            let e = self.emitted@ as int;
            assert(spans(b, c0).drop_first() =~= spans(b, to as int));
            assert(all.skip(e + 1) =~= all.skip(e).drop_first());
            assert(piece.spec_bytes() =~= b.subrange(from as int, to as int));
        }
        self.emitted = Ghost(self.emitted@ + 1);
        true
    }

    /// Runs the scan to its end and appends each token, in order, to `sink`.
    pub fn process(&mut self, sink: &mut Vec<Token>)
        requires
            old(self).wf(),
        ensures
            final(self).wf(),
            final(self).source() == old(self).source(),
            final(self).remaining().len() == 0,
            final(self).emitted() == old(self).emitted() + old(self).remaining().len(),
            final(sink)@.len() == old(sink)@.len() + old(self).remaining().len(),
            final(sink)@.subrange(0, old(sink)@.len() as int) == old(sink)@,
            forall|k: int|
                0 <= k < old(self).remaining().len() ==> token_matches(
                    #[trigger] final(sink)@[old(sink)@.len() + k],
                    old(self).source(),
                    old(self).remaining()[k],
                    old(self).emitted() + k,
                ),
            old(self).emitted() == 0 && old(sink)@.len() == 0 ==> is_scan_of(
                final(sink)@,
                old(self).source(),
            ),
    {
        proof {
            if self.emitted() == 0 {
                self.lemma_fresh_remaining();
            }
        }
        let ghost src = self.source();
        let ghost rem = self.remaining();
        let ghost e0 = self.emitted() as int;
        let ghost s0 = sink@;
        let mut more = self.advance();
        while more
            invariant
                self.wf(),
                self.source() == src,
                s0.len() <= sink@.len(),
                sink@.subrange(0, s0.len() as int) == s0,
                more ==> sink@.len() - s0.len() < rem.len(),
                more ==> self.remaining() == rem.skip(sink@.len() - s0.len() + 1),
                more ==> self.emitted() == e0 + sink@.len() - s0.len() + 1,
                more ==> token_matches(
                    self.current(),
                    src,
                    rem[sink@.len() - s0.len()],
                    e0 + sink@.len() - s0.len(),
                ),
                !more ==> sink@.len() - s0.len() == rem.len(),
                !more ==> self.remaining().len() == 0,
                !more ==> self.emitted() == e0 + rem.len(),
                forall|k: int|
                    0 <= k < sink@.len() - s0.len() ==> token_matches(
                        #[trigger] sink@[s0.len() + k],
                        src,
                        rem[k],
                        e0 + k,
                    ),
            decreases rem.len() - (sink@.len() - s0.len()),
        {
            let t = self.token();
            let copy = Token {
                offset_from: t.offset_from,
                offset_to: t.offset_to,
                position: t.position,
                text: t.text.clone(),
                position_length: t.position_length,
            };
            sink.push(copy);
            proof {
                let n = sink@.len() - s0.len();
                assert(rem.skip(n) =~= rem.skip(n - 1).drop_first());
                assert(sink@.subrange(0, s0.len() as int) =~= s0);
            }
            more = self.advance();
        }
        proof {
            if e0 == 0 && s0.len() == 0 {
                assert forall|k: int| 0 <= k < sink@.len() implies token_matches(
                    #[trigger] sink@[k],
                    src,
                    spans(src, 0)[k],
                    k,
                ) by {
                    assert(token_matches(sink@[s0.len() + k], src, rem[k], e0 + k));
                }
            }
        }
    }

    /// The current token, as the last successful `advance` left it.
    pub fn token(&self) -> (r: &Token)
        ensures
            *r == self.current(),
    {
        &self.token
    }
}

} // verus!
