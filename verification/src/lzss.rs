use vstd::prelude::*;

use crate::errors::ExtractError;

verus! {

/// The 4096-byte history ring as it stands before any byte is decoded:
/// filled with the padding byte 0x20.
pub open spec fn init_history() -> Seq<u8> {
    Seq::new(4096, |i: int| 0x20u8)
}

/// Copy `cnt` bytes out of the history ring starting at ring offset `i`,
/// appending each to the output and writing it back into the ring at the
/// cursor `r`, which advances modulo 4096. Returns the new ring, the new
/// cursor and the new output.
pub open spec fn copy_step(hist: Seq<u8>, r: int, i: int, cnt: nat, out: Seq<u8>) -> (Seq<u8>, int, Seq<u8>)
    decreases cnt,
{
    if cnt == 0 {
        (hist, r, out)
    } else {
        let b = hist[i % 4096];
        copy_step(hist.update(r, b), (r + 1) % 4096, i + 1, (cnt - 1) as nat, out.push(b))
    }
}

/// Decode one token with the flag register already holding the bit for
/// this token. A low bit of 0 is a back-reference (two more input bytes:
/// a 12-bit ring offset and a 4-bit length nibble, length nibble + 3
/// bytes copied); a low bit of 1 is a literal (one input byte, emitted
/// and recorded in the ring). Every input read is budget-checked first:
/// reaching `bs` ends decoding with the output so far, even mid-token,
/// while running out of `inp` before `bs` is a truncation (`None`).
pub open spec fn step_token(inp: Seq<u8>, bs: int, hist: Seq<u8>, r: int, flags: int, read: int, out: Seq<u8>) -> Option<Seq<u8>>
    decreases bs - read, 0int,
{
    if flags % 2 == 0 {
        if read >= bs {
            Some(out)
        } else if read >= inp.len() {
            None
        } else {
            let i0 = inp[read] as int;
            if read + 1 >= bs {
                Some(out)
            } else if read + 1 >= inp.len() {
                None
            } else {
                let j0 = inp[read + 1] as int;
                let i = i0 + (j0 / 16) * 256;
                let cnt = (j0 % 16 + 3) as nat;
                let copied = copy_step(hist, r, i, cnt, out);
                step_iter(inp, bs, copied.0, copied.1, flags, read + 2, copied.2)
            }
        }
    } else {
        if read >= bs {
            Some(out)
        } else if read >= inp.len() {
            None
        } else {
            let b = inp[read];
            step_iter(inp, bs, hist.update(r, b), (r + 1) % 4096, flags, read + 1, out.push(b))
        }
    }
}

/// One decoder iteration: shift the flag register right by one bit; when
/// its sentinel bit (bit 8) is gone, read a fresh flag byte and OR in the
/// sentinel bits above it, then decode the next token.
pub open spec fn step_iter(inp: Seq<u8>, bs: int, hist: Seq<u8>, r: int, flags: int, read: int, out: Seq<u8>) -> Option<Seq<u8>>
    decreases bs - read, 1int,
{
    let f = flags / 2;
    if (f / 0x100) % 2 == 0 {
        if read >= bs {
            Some(out)
        } else if read >= inp.len() {
            None
        } else {
            let nf = inp[read] as int + 0xff00;
            if read + 1 >= bs {
                Some(out)
            } else {
                step_token(inp, bs, hist, r, nf, read + 1, out)
            }
        }
    } else {
        step_token(inp, bs, hist, r, f, read, out)
    }
}

/// The result of running the sliding-window decoder over `inp` with an
/// input budget of `bs` bytes: the decoded bytes, or `None` when `inp`
/// ends before the budget is spent.
pub open spec fn lzss_decode(inp: Seq<u8>, bs: int) -> Option<Seq<u8>> {
    step_iter(inp, bs, init_history(), 4078, 0, 0, Seq::empty())
}

proof fn lemma_token_budget(inp1: Seq<u8>, inp2: Seq<u8>, bs: int, hist: Seq<u8>, r: int, flags: int, read: int, out: Seq<u8>)
    requires
        0 <= read,
        0 <= bs <= inp1.len(),
        bs <= inp2.len(),
        inp1.subrange(0, bs) == inp2.subrange(0, bs),
    ensures
        step_token(inp1, bs, hist, r, flags, read, out)
            == step_token(inp2, bs, hist, r, flags, read, out),
    decreases bs - read, 0int,
{
    if flags % 2 == 0 {
        if read >= bs {
            assert(step_token(inp1, bs, hist, r, flags, read, out) == Some(out));
            assert(step_token(inp2, bs, hist, r, flags, read, out) == Some(out));
        } else {
            assert(inp1.subrange(0, bs)[read] == inp1[read]);
            assert(inp2.subrange(0, bs)[read] == inp2[read]);
            assert(inp1[read] == inp2[read]);
            if read + 1 >= bs {
                assert(step_token(inp1, bs, hist, r, flags, read, out) == Some(out));
                assert(step_token(inp2, bs, hist, r, flags, read, out) == Some(out));
            } else {
                assert(inp1.subrange(0, bs)[read + 1] == inp1[read + 1]);
                assert(inp2.subrange(0, bs)[read + 1] == inp2[read + 1]);
                assert(inp1[read + 1] == inp2[read + 1]);
                let j0 = inp1[read + 1] as int;
                let i = inp1[read] as int + (j0 / 16) * 256;
                let cnt = (j0 % 16 + 3) as nat;
                let copied = copy_step(hist, r, i, cnt, out);
                lemma_iter_budget(inp1, inp2, bs, copied.0, copied.1, flags, read + 2, copied.2);
                assert(step_token(inp1, bs, hist, r, flags, read, out)
                    == step_iter(inp1, bs, copied.0, copied.1, flags, read + 2, copied.2));
                assert(step_token(inp2, bs, hist, r, flags, read, out)
                    == step_iter(inp2, bs, copied.0, copied.1, flags, read + 2, copied.2));
            }
        }
    } else {
        if read >= bs {
            assert(step_token(inp1, bs, hist, r, flags, read, out) == Some(out));
            assert(step_token(inp2, bs, hist, r, flags, read, out) == Some(out));
        } else {
            assert(inp1.subrange(0, bs)[read] == inp1[read]);
            assert(inp2.subrange(0, bs)[read] == inp2[read]);
            assert(inp1[read] == inp2[read]);
            let b = inp1[read];
            lemma_iter_budget(inp1, inp2, bs, hist.update(r, b), (r + 1) % 4096, flags, read + 1, out.push(b));
            assert(step_token(inp1, bs, hist, r, flags, read, out)
                == step_iter(inp1, bs, hist.update(r, b), (r + 1) % 4096, flags, read + 1, out.push(b)));
            assert(step_token(inp2, bs, hist, r, flags, read, out)
                == step_iter(inp2, bs, hist.update(r, b), (r + 1) % 4096, flags, read + 1, out.push(b)));
        }
    }
}

proof fn lemma_iter_budget(inp1: Seq<u8>, inp2: Seq<u8>, bs: int, hist: Seq<u8>, r: int, flags: int, read: int, out: Seq<u8>)
    requires
        0 <= read,
        0 <= bs <= inp1.len(),
        bs <= inp2.len(),
        inp1.subrange(0, bs) == inp2.subrange(0, bs),
    ensures
        step_iter(inp1, bs, hist, r, flags, read, out)
            == step_iter(inp2, bs, hist, r, flags, read, out),
    decreases bs - read, 1int,
{
    let f = flags / 2;
    if (f / 0x100) % 2 == 0 {
        if read < bs {
            assert(inp1.subrange(0, bs)[read] == inp1[read]);
            assert(inp2.subrange(0, bs)[read] == inp2[read]);
            assert(inp1[read] == inp2[read]);
            let nf = inp1[read] as int + 0xff00;
            if read + 1 < bs {
                lemma_token_budget(inp1, inp2, bs, hist, r, nf, read + 1, out);
            }
        }
    } else {
        lemma_token_budget(inp1, inp2, bs, hist, r, f, read, out);
    }
}

/// Decoding stops exactly at the `bs`-byte input budget: two streams that
/// agree on their first `bs` bytes decode to the same result, whatever
/// follows the budget in either of them.
pub proof fn lemma_decode_stops_at_budget(inp1: Seq<u8>, inp2: Seq<u8>, bs: int)
    requires
        0 <= bs <= inp1.len(),
        bs <= inp2.len(),
        inp1.subrange(0, bs) == inp2.subrange(0, bs),
    ensures
        lzss_decode(inp1, bs) == lzss_decode(inp2, bs),
{
    lemma_iter_budget(inp1, inp2, bs, init_history(), 4078, 0, 0, Seq::empty());
}

/// Bytes past the budget never matter: decoding a stream equals decoding
/// its first `bs` bytes alone.
pub proof fn lemma_decode_ignores_trailing(inp: Seq<u8>, bs: int)
    requires
        0 <= bs <= inp.len(),
    ensures
        lzss_decode(inp, bs) == lzss_decode(inp.subrange(0, bs), bs),
{
    assert(inp.subrange(0, bs).subrange(0, bs) =~= inp.subrange(0, bs));
    lemma_decode_stops_at_budget(inp, inp.subrange(0, bs), bs);
}

/// A purely literal sliding-window encoding of `data`: each run of up to
/// eight bytes is preceded by a flag byte of eight set bits.
pub open spec fn literal_encoding(data: Seq<u8>) -> Seq<u8>
    decreases data.len(),
{
    if data.len() == 0 {
        Seq::empty()
    } else if data.len() <= 8 {
        seq![0xffu8] + data
    } else {
        seq![0xffu8] + data.take(8) + literal_encoding(data.skip(8))
    }
}

/// The flag register as it stands while `k` set literal bits of a full
/// flag byte are still unread: the low `8 + k` bits all set.
spec fn flag_run(k: nat) -> int
    decreases k,
{
    if k == 0 {
        0xff
    } else {
        2 * flag_run((k - 1) as nat) + 1
    }
}

proof fn lemma_flag_run_values()
    ensures
        flag_run(0) == 0xff,
        flag_run(1) == 0x1ff,
        flag_run(2) == 0x3ff,
        flag_run(3) == 0x7ff,
        flag_run(4) == 0xfff,
        flag_run(5) == 0x1fff,
        flag_run(6) == 0x3fff,
        flag_run(7) == 0x7fff,
        flag_run(8) == 0xffff,
{
    assert(flag_run(0) == 0xff);
    assert(flag_run(1) == 0x1ff);
    assert(flag_run(2) == 0x3ff);
    assert(flag_run(3) == 0x7ff);
    assert(flag_run(4) == 0xfff);
    assert(flag_run(5) == 0x1fff);
    assert(flag_run(6) == 0x3fff);
    assert(flag_run(7) == 0x7fff);
    assert(flag_run(8) == 0xffff);
}

proof fn lemma_skip_one(s: Seq<u8>, a: int, t: Seq<u8>)
    requires
        0 <= a <= s.len(),
        s.skip(a) == t,
        t.len() >= 1,
    ensures
        s.skip(a + 1) == t.skip(1),
{
    assert forall|i: int| 0 <= i < s.skip(a + 1).len() implies s.skip(a + 1)[i] == t.skip(1)[i] by {
        assert(s.skip(a + 1)[i] == s[a + 1 + i]);
        assert(s.skip(a)[i + 1] == s[a + 1 + i]);
        assert(t.skip(1)[i] == t[i + 1]);
    }
    assert(s.skip(a + 1) =~= t.skip(1));
}

proof fn lemma_literal_bytes(inp: Seq<u8>, hist: Seq<u8>, r: int, read: int, out: Seq<u8>, lits: Seq<u8>, rest: Seq<u8>, kf: nat)
    requires
        hist.len() == 4096,
        0 <= r < 4096,
        0 <= read,
        1 <= lits.len() <= kf <= 8,
        lits.len() < kf ==> rest.len() == 0,
        inp.skip(read) == lits + literal_encoding(rest),
        inp.len() == read + lits.len() + literal_encoding(rest).len(),
    ensures
        step_token(inp, inp.len() as int, hist, r, flag_run(kf), read, out) == Some(out + lits + rest),
    decreases lits.len() + rest.len(), 0int,
{
    lemma_flag_run_values();
    let bs = inp.len() as int;
    let fl = flag_run(kf);
    assert(fl % 2 == 1);
    assert(read < bs);
    assert(inp.skip(read)[0] == inp[read]);
    assert((lits + literal_encoding(rest))[0] == lits[0]);
    let b = inp[read];
    assert(b == lits[0]);
    let hist2 = hist.update(r, b);
    let r2 = (r + 1) % 4096;
    let out2 = out.push(b);
    assert(step_token(inp, bs, hist, r, fl, read, out)
        == step_iter(inp, bs, hist2, r2, fl, read + 1, out2));
    if lits.len() == 1 {
        if rest.len() == 0 {
            assert(literal_encoding(rest).len() == 0);
            assert(read + 1 == bs);
            assert(step_iter(inp, bs, hist2, r2, fl, read + 1, out2) == Some(out2));
            assert(out2 =~= out + lits + rest);
        } else {
            assert(kf == 1);
            assert(fl / 2 == flag_run(0));
            assert(((fl / 2) / 0x100) % 2 == 0);
            lemma_skip_one(inp, read, lits + literal_encoding(rest));
            assert((lits + literal_encoding(rest)).skip(1) =~= literal_encoding(rest));
            assert(inp.skip(read + 1) == literal_encoding(rest));
            lemma_literal_chunks(inp, hist2, r2, fl, read + 1, out2, rest);
            assert(out2 + rest =~= out + lits + rest);
        }
    } else {
        assert(fl / 2 == flag_run((kf - 1) as nat));
        assert((flag_run((kf - 1) as nat) / 0x100) % 2 == 1);
        lemma_skip_one(inp, read, lits + literal_encoding(rest));
        assert((lits + literal_encoding(rest)).skip(1) =~= lits.skip(1) + literal_encoding(rest));
        assert(inp.skip(read + 1) == lits.skip(1) + literal_encoding(rest));
        lemma_literal_bytes(inp, hist2, r2, read + 1, out2, lits.skip(1), rest, (kf - 1) as nat);
        assert(step_iter(inp, bs, hist2, r2, fl, read + 1, out2)
            == step_token(inp, bs, hist2, r2, flag_run((kf - 1) as nat), read + 1, out2));
        assert(out2 + lits.skip(1) + rest =~= out + lits + rest);
    }
}

proof fn lemma_literal_chunks(inp: Seq<u8>, hist: Seq<u8>, r: int, flags: int, read: int, out: Seq<u8>, data: Seq<u8>)
    requires
        hist.len() == 4096,
        0 <= r < 4096,
        0 <= read,
        ((flags / 2) / 0x100) % 2 == 0,
        inp.skip(read) == literal_encoding(data),
        inp.len() == read + literal_encoding(data).len(),
    ensures
        step_iter(inp, inp.len() as int, hist, r, flags, read, out) == Some(out + data),
    decreases data.len(), 1int,
{
    lemma_flag_run_values();
    let bs = inp.len() as int;
    if data.len() == 0 {
        assert(literal_encoding(data).len() == 0);
        assert(read == bs);
        assert(out + data =~= out);
    } else {
        let enc = literal_encoding(data);
        let c: int = if data.len() <= 8 { data.len() as int } else { 8 };
        let lits = data.take(c);
        let rest = data.skip(c);
        assert(enc =~= seq![0xffu8] + lits + literal_encoding(rest));
        assert(inp.skip(read)[0] == inp[read]);
        assert(inp[read] == 0xff);
        assert(inp[read] as int + 0xff00 == flag_run(8));
        assert(read + 1 < bs);
        lemma_skip_one(inp, read, enc);
        assert(enc.skip(1) =~= lits + literal_encoding(rest));
        assert(inp.skip(read + 1) == lits + literal_encoding(rest));
        lemma_literal_bytes(inp, hist, r, read + 1, out, lits, rest, 8nat);
        assert(step_iter(inp, bs, hist, r, flags, read, out)
            == step_token(inp, bs, hist, r, flag_run(8), read + 1, out));
        assert(out + lits + rest =~= out + data);
    }
}

/// Round trip for purely literal streams: decoding the literal encoding
/// of any byte sequence, with the budget set to the encoding's length,
/// yields exactly that sequence.
pub proof fn lemma_literal_encoding_round_trip(data: Seq<u8>)
    ensures
        lzss_decode(literal_encoding(data), literal_encoding(data).len() as int) == Some(data),
{
    let enc = literal_encoding(data);
    assert(enc.skip(0) =~= enc);
    lemma_literal_chunks(enc, init_history(), 4078, 0, 0, Seq::empty(), data);
    assert(Seq::<u8>::empty() + data =~= data);
}

/// One sliding-window token: a literal byte, or the two raw stream bytes
/// of a back-reference (8 low offset bits; then the high offset nibble
/// and the length nibble).
pub enum LzssToken {
    Literal(u8),
    BackRef(u8, u8),
}

pub open spec fn token_is_literal(t: LzssToken) -> bool {
    match t {
        LzssToken::Literal(_) => true,
        LzssToken::BackRef(_, _) => false,
    }
}

/// The stream bytes of one token.
pub open spec fn token_bytes(t: LzssToken) -> Seq<u8> {
    match t {
        LzssToken::Literal(b) => seq![b],
        LzssToken::BackRef(a, b) => seq![a, b],
    }
}

pub open spec fn tokens_bytes(ts: Seq<LzssToken>) -> Seq<u8>
    decreases ts.len(),
{
    if ts.len() == 0 {
        Seq::empty()
    } else {
        token_bytes(ts[0]) + tokens_bytes(ts.skip(1))
    }
}

/// The flag byte of up to eight tokens: bit `j` is set exactly when token
/// `j` is a literal.
pub open spec fn flag_bits(ts: Seq<LzssToken>) -> int
    decreases ts.len(),
{
    if ts.len() == 0 {
        0
    } else {
        (if token_is_literal(ts[0]) { 1int } else { 0int }) + 2 * flag_bits(ts.skip(1))
    }
}

/// The encoded stream of a token sequence: each run of up to eight tokens
/// is preceded by its flag byte.
pub open spec fn token_encoding(ts: Seq<LzssToken>) -> Seq<u8>
    decreases ts.len(),
{
    if ts.len() == 0 {
        Seq::empty()
    } else {
        let c: int = if ts.len() <= 8 { ts.len() as int } else { 8 };
        seq![flag_bits(ts.take(c)) as u8] + tokens_bytes(ts.take(c)) + token_encoding(ts.skip(c))
    }
}

/// The ring, cursor and output after one token is applied.
pub open spec fn apply_token(hist: Seq<u8>, r: int, out: Seq<u8>, t: LzssToken) -> (Seq<u8>, int, Seq<u8>) {
    match t {
        LzssToken::Literal(b) => (hist.update(r, b), (r + 1) % 4096, out.push(b)),
        LzssToken::BackRef(a, b) => {
            let j0 = b as int;
            copy_step(hist, r, a as int + (j0 / 16) * 256, (j0 % 16 + 3) as nat, out)
        },
    }
}

pub open spec fn apply_tokens(hist: Seq<u8>, r: int, out: Seq<u8>, ts: Seq<LzssToken>) -> (Seq<u8>, int, Seq<u8>)
    decreases ts.len(),
{
    if ts.len() == 0 {
        (hist, r, out)
    } else {
        let s = apply_token(hist, r, out, ts[0]);
        apply_tokens(s.0, s.1, s.2, ts.skip(1))
    }
}

/// The plaintext a token sequence stands for: what applying every token
/// to the fresh ring produces.
pub open spec fn tokens_plaintext(ts: Seq<LzssToken>) -> Seq<u8> {
    apply_tokens(init_history(), 4078, Seq::empty(), ts).2
}

spec fn pow2(k: nat) -> int
    decreases k,
{
    if k == 0 {
        1
    } else {
        2 * pow2((k - 1) as nat)
    }
}

/// The sentinel bits above `k` still-unread flag bits: 0xff shifted left
/// by `k`.
spec fn sentinel_bits(k: nat) -> int
    decreases k,
{
    if k == 0 {
        0xff
    } else {
        2 * sentinel_bits((k - 1) as nat)
    }
}

proof fn lemma_pow2_values()
    ensures
        pow2(0) == 1,
        pow2(1) == 2,
        pow2(2) == 4,
        pow2(3) == 8,
        pow2(4) == 16,
        pow2(5) == 32,
        pow2(6) == 64,
        pow2(7) == 128,
        pow2(8) == 256,
{
    assert(pow2(0) == 1);
    assert(pow2(1) == 2);
    assert(pow2(2) == 4);
    assert(pow2(3) == 8);
    assert(pow2(4) == 16);
    assert(pow2(5) == 32);
    assert(pow2(6) == 64);
    assert(pow2(7) == 128);
    assert(pow2(8) == 256);
}

proof fn lemma_sentinel_values()
    ensures
        sentinel_bits(0) == 0xff,
        sentinel_bits(1) == 0x1fe,
        sentinel_bits(2) == 0x3fc,
        sentinel_bits(3) == 0x7f8,
        sentinel_bits(4) == 0xff0,
        sentinel_bits(5) == 0x1fe0,
        sentinel_bits(6) == 0x3fc0,
        sentinel_bits(7) == 0x7f80,
        sentinel_bits(8) == 0xff00,
{
    assert(sentinel_bits(0) == 0xff);
    assert(sentinel_bits(1) == 0x1fe);
    assert(sentinel_bits(2) == 0x3fc);
    assert(sentinel_bits(3) == 0x7f8);
    assert(sentinel_bits(4) == 0xff0);
    assert(sentinel_bits(5) == 0x1fe0);
    assert(sentinel_bits(6) == 0x3fc0);
    assert(sentinel_bits(7) == 0x7f80);
    assert(sentinel_bits(8) == 0xff00);
}

proof fn lemma_flag_bits_lt(ts: Seq<LzssToken>, k: nat)
    requires
        ts.len() <= k,
    ensures
        0 <= flag_bits(ts) < pow2(k),
    decreases ts.len(),
{
    if ts.len() == 0 {
        lemma_pow2_pos(k);
    } else {
        lemma_flag_bits_lt(ts.skip(1), (k - 1) as nat);
        assert(pow2(k) == 2 * pow2((k - 1) as nat));
    }
}

proof fn lemma_pow2_pos(k: nat)
    ensures
        pow2(k) >= 1,
    decreases k,
{
    if k > 0 {
        lemma_pow2_pos((k - 1) as nat);
    }
}

proof fn lemma_flag_word_bit8(a: int, k: nat)
    requires
        1 <= k <= 8,
        0 <= a < pow2(k),
    ensures
        (((a + sentinel_bits(k)) / 0x100) % 2) == 1,
{
    lemma_pow2_values();
    lemma_sentinel_values();
    if k == 1 {
        assert((((a + 0x1fe) / 0x100) % 2) == 1);
    } else if k == 2 {
        assert((((a + 0x3fc) / 0x100) % 2) == 1);
    } else if k == 3 {
        assert((((a + 0x7f8) / 0x100) % 2) == 1);
    } else if k == 4 {
        assert((((a + 0xff0) / 0x100) % 2) == 1);
    } else if k == 5 {
        assert((((a + 0x1fe0) / 0x100) % 2) == 1);
    } else if k == 6 {
        assert((((a + 0x3fc0) / 0x100) % 2) == 1);
    } else if k == 7 {
        assert((((a + 0x7f80) / 0x100) % 2) == 1);
    } else {
        assert((((a + 0xff00) / 0x100) % 2) == 1);
    }
}

proof fn lemma_copy_step_wf(hist: Seq<u8>, r: int, i: int, cnt: nat, out: Seq<u8>)
    requires
        hist.len() == 4096,
        0 <= r < 4096,
    ensures
        copy_step(hist, r, i, cnt, out).0.len() == 4096,
        0 <= copy_step(hist, r, i, cnt, out).1 < 4096,
    decreases cnt,
{
    if cnt > 0 {
        let b = hist[i % 4096];
        lemma_copy_step_wf(hist.update(r, b), (r + 1) % 4096, i + 1, (cnt - 1) as nat, out.push(b));
    }
}

proof fn lemma_token_bytes_run(inp: Seq<u8>, hist: Seq<u8>, r: int, read: int, out: Seq<u8>, chunk: Seq<LzssToken>, rest: Seq<LzssToken>, kf: nat)
    requires
        hist.len() == 4096,
        0 <= r < 4096,
        0 <= read,
        1 <= chunk.len() <= kf <= 8,
        chunk.len() < kf ==> rest.len() == 0,
        inp.skip(read) == tokens_bytes(chunk) + token_encoding(rest),
        inp.len() == read + tokens_bytes(chunk).len() + token_encoding(rest).len(),
    ensures
        step_token(inp, inp.len() as int, hist, r, flag_bits(chunk) + sentinel_bits(kf), read, out)
            == Some(apply_tokens(hist, r, out, chunk + rest).2),
    decreases chunk.len() + rest.len(), 0int,
{
    lemma_pow2_values();
    lemma_sentinel_values();
    lemma_flag_bits_lt(chunk.skip(1), (kf - 1) as nat);
    let bs = inp.len() as int;
    let fl = flag_bits(chunk) + sentinel_bits(kf);
    let chunk2 = chunk.skip(1);
    assert((chunk + rest)[0] == chunk[0]);
    assert((chunk + rest).skip(1) =~= chunk2 + rest);
    match chunk[0] {
        LzssToken::Literal(b) => {
            assert(flag_bits(chunk) == 1 + 2 * flag_bits(chunk2));
            assert(sentinel_bits(kf) == 2 * sentinel_bits((kf - 1) as nat));
            assert(fl % 2 == 1);
            assert(tokens_bytes(chunk) == seq![b] + tokens_bytes(chunk2));
            assert(inp.skip(read)[0] == inp[read]);
            assert((tokens_bytes(chunk) + token_encoding(rest))[0] == b);
            assert(inp[read] == b);
            assert(read < bs);
            let hist2 = hist.update(r, b);
            let r2 = (r + 1) % 4096;
            let out2 = out.push(b);
            assert(step_token(inp, bs, hist, r, fl, read, out)
                == step_iter(inp, bs, hist2, r2, fl, read + 1, out2));
            assert(apply_token(hist, r, out, chunk[0]) == (hist2, r2, out2));
            lemma_skip_one(inp, read, tokens_bytes(chunk) + token_encoding(rest));
            assert((tokens_bytes(chunk) + token_encoding(rest)).skip(1)
                =~= tokens_bytes(chunk2) + token_encoding(rest));
            assert(inp.skip(read + 1) == tokens_bytes(chunk2) + token_encoding(rest));
            assert(fl / 2 == flag_bits(chunk2) + sentinel_bits((kf - 1) as nat));
            if chunk.len() == 1 {
                assert(tokens_bytes(chunk2).len() == 0);
                if rest.len() == 0 {
                    assert(token_encoding(rest).len() == 0);
                    assert(read + 1 == bs);
                    assert(step_iter(inp, bs, hist2, r2, fl, read + 1, out2) == Some(out2));
                    assert(apply_tokens(hist2, r2, out2, chunk2 + rest).2 =~= out2);
                } else {
                    assert(kf == 1);
                    assert(fl / 2 == sentinel_bits(0));
                    assert(((fl / 2) / 0x100) % 2 == 0);
                    assert(inp.skip(read + 1) =~= token_encoding(rest));
                    lemma_token_chunks(inp, hist2, r2, fl, read + 1, out2, rest);
                    assert(apply_tokens(hist2, r2, out2, chunk2 + rest)
                        == apply_tokens(hist2, r2, out2, rest)) by {
                        assert(chunk2 + rest =~= rest);
                    }
                }
            } else {
                lemma_flag_word_bit8(flag_bits(chunk2), (kf - 1) as nat);
                assert(((fl / 2) / 0x100) % 2 == 1);
                lemma_token_bytes_run(inp, hist2, r2, read + 1, out2, chunk2, rest, (kf - 1) as nat);
                assert(step_iter(inp, bs, hist2, r2, fl, read + 1, out2)
                    == step_token(inp, bs, hist2, r2, flag_bits(chunk2) + sentinel_bits((kf - 1) as nat), read + 1, out2));
            }
            assert(apply_tokens(hist, r, out, chunk + rest)
                == apply_tokens(hist2, r2, out2, chunk2 + rest));
        },
        LzssToken::BackRef(a, b) => {
            assert(flag_bits(chunk) == 2 * flag_bits(chunk2));
            assert(sentinel_bits(kf) == 2 * sentinel_bits((kf - 1) as nat));
            assert(fl % 2 == 0);
            assert(tokens_bytes(chunk) == seq![a, b] + tokens_bytes(chunk2));
            assert(inp.skip(read)[0] == inp[read]);
            assert(inp.skip(read)[1] == inp[read + 1]);
            assert((tokens_bytes(chunk) + token_encoding(rest))[0] == a);
            assert((tokens_bytes(chunk) + token_encoding(rest))[1] == b);
            assert(inp[read] == a);
            assert(inp[read + 1] == b);
            assert(read + 1 < bs);
            let j0 = b as int;
            let i = a as int + (j0 / 16) * 256;
            let cnt = (j0 % 16 + 3) as nat;
            let copied = copy_step(hist, r, i, cnt, out);
            lemma_copy_step_wf(hist, r, i, cnt, out);
            assert(step_token(inp, bs, hist, r, fl, read, out)
                == step_iter(inp, bs, copied.0, copied.1, fl, read + 2, copied.2));
            assert(apply_token(hist, r, out, chunk[0]) == copied);
            lemma_skip_one(inp, read, tokens_bytes(chunk) + token_encoding(rest));
            lemma_skip_one(inp, read + 1, (tokens_bytes(chunk) + token_encoding(rest)).skip(1));
            assert((tokens_bytes(chunk) + token_encoding(rest)).skip(1).skip(1)
                =~= tokens_bytes(chunk2) + token_encoding(rest));
            assert(inp.skip(read + 2) == tokens_bytes(chunk2) + token_encoding(rest));
            assert(fl / 2 == flag_bits(chunk2) + sentinel_bits((kf - 1) as nat));
            if chunk.len() == 1 {
                assert(tokens_bytes(chunk2).len() == 0);
                if rest.len() == 0 {
                    assert(token_encoding(rest).len() == 0);
                    assert(read + 2 == bs);
                    assert(step_iter(inp, bs, copied.0, copied.1, fl, read + 2, copied.2)
                        == Some(copied.2));
                    assert(apply_tokens(copied.0, copied.1, copied.2, chunk2 + rest).2 =~= copied.2);
                } else {
                    assert(kf == 1);
                    assert(fl / 2 == sentinel_bits(0));
                    assert(((fl / 2) / 0x100) % 2 == 0);
                    assert(inp.skip(read + 2) =~= token_encoding(rest));
                    lemma_token_chunks(inp, copied.0, copied.1, fl, read + 2, copied.2, rest);
                    assert(apply_tokens(copied.0, copied.1, copied.2, chunk2 + rest)
                        == apply_tokens(copied.0, copied.1, copied.2, rest)) by {
                        assert(chunk2 + rest =~= rest);
                    }
                }
            } else {
                lemma_flag_word_bit8(flag_bits(chunk2), (kf - 1) as nat);
                assert(((fl / 2) / 0x100) % 2 == 1);
                lemma_token_bytes_run(inp, copied.0, copied.1, read + 2, copied.2, chunk2, rest, (kf - 1) as nat);
                assert(step_iter(inp, bs, copied.0, copied.1, fl, read + 2, copied.2)
                    == step_token(inp, bs, copied.0, copied.1, flag_bits(chunk2) + sentinel_bits((kf - 1) as nat), read + 2, copied.2));
            }
            assert(apply_tokens(hist, r, out, chunk + rest)
                == apply_tokens(copied.0, copied.1, copied.2, chunk2 + rest));
        },
    }
}

proof fn lemma_token_chunks(inp: Seq<u8>, hist: Seq<u8>, r: int, flags: int, read: int, out: Seq<u8>, ts: Seq<LzssToken>)
    requires
        hist.len() == 4096,
        0 <= r < 4096,
        0 <= read,
        ((flags / 2) / 0x100) % 2 == 0,
        inp.skip(read) == token_encoding(ts),
        inp.len() == read + token_encoding(ts).len(),
    ensures
        step_iter(inp, inp.len() as int, hist, r, flags, read, out)
            == Some(apply_tokens(hist, r, out, ts).2),
    decreases ts.len(), 1int,
{
    lemma_sentinel_values();
    let bs = inp.len() as int;
    if ts.len() == 0 {
        assert(token_encoding(ts).len() == 0);
        assert(read == bs);
    } else {
        let c: int = if ts.len() <= 8 { ts.len() as int } else { 8 };
        let chunk = ts.take(c);
        let rest = ts.skip(c);
        let enc = token_encoding(ts);
        assert(enc == seq![flag_bits(chunk) as u8] + tokens_bytes(chunk) + token_encoding(rest));
        lemma_flag_bits_lt(chunk, 8);
        lemma_pow2_values();
        assert(0 <= flag_bits(chunk) < 256);
        assert(inp.skip(read)[0] == inp[read]);
        assert(enc[0] == flag_bits(chunk) as u8);
        assert(inp[read] as int == flag_bits(chunk));
        assert(inp[read] as int + 0xff00 == flag_bits(chunk) + sentinel_bits(8));
        assert(tokens_bytes(chunk).len() >= 1) by {
            assert(tokens_bytes(chunk) == token_bytes(chunk[0]) + tokens_bytes(chunk.skip(1)));
        }
        assert(read < bs);
        assert(read + 1 < bs);
        lemma_skip_one(inp, read, enc);
        assert(enc.skip(1) =~= tokens_bytes(chunk) + token_encoding(rest));
        assert(inp.skip(read + 1) == tokens_bytes(chunk) + token_encoding(rest));
        lemma_token_bytes_run(inp, hist, r, read + 1, out, chunk, rest, 8);
        assert(step_iter(inp, bs, hist, r, flags, read, out)
            == step_token(inp, bs, hist, r, flag_bits(chunk) + sentinel_bits(8), read + 1, out));
        assert(chunk + rest =~= ts);
    }
}

/// Round trip for every token stream: decoding the encoding of any token
/// sequence, with the budget set to the encoding's length, yields exactly
/// the plaintext those tokens stand for.
pub proof fn lemma_token_encoding_round_trip(ts: Seq<LzssToken>)
    ensures
        lzss_decode(token_encoding(ts), token_encoding(ts).len() as int)
            == Some(tokens_plaintext(ts)),
{
    let enc = token_encoding(ts);
    assert(enc.skip(0) =~= enc);
    lemma_token_chunks(enc, init_history(), 4078, 0, 0, Seq::empty(), ts);
}

/// Streaming sliding-window decompressor. Consumes at most `block_size`
/// bytes from the front of `inp`, appends the decoded bytes to `out`, and
/// returns how many bytes it wrote. The stream is truncated exactly when
/// `inp` runs out before the budget does.
#[verifier::rlimit(100)]
pub fn decode_block_content(inp: &[u8], block_size: u64, out: &mut Vec<u8>) -> (r: Result<u64, ExtractError>)
    ensures
        match r {
            Ok(n) => lzss_decode(inp@, block_size as int) matches Some(d)
                && final(out)@ == old(out)@ + d
                && n == d.len(),
            Err(e) => e == ExtractError::TruncatedCompressedStream
                && lzss_decode(inp@, block_size as int) is None
                && final(out)@ == old(out)@,
        },
{
    let ghost bsg: int = block_size as int;
    let mut hist: Vec<u8> = Vec::new();
    let mut k: usize = 0;
    while k < 4096
        invariant
            k <= 4096,
            hist@.len() == k,
            forall|t: int| 0 <= t < k ==> hist@[t] == 0x20u8,
        decreases 4096 - k,
    {
        hist.push(0x20u8);
        k += 1;
    }
    proof {
        assert(hist@ =~= init_history());
    }
    let mut produced: Vec<u8> = Vec::new();
    let mut r: usize = 4078;
    let mut flags: u32 = 0;
    let mut pos: usize = 0;
    let inp_len = inp.len();
    let mut truncated = false;
    loop
        invariant_except_break
            bsg == block_size as int,
            inp_len == inp@.len(),
            hist@.len() == 4096,
            r < 4096,
            flags <= 0xffff,
            pos <= inp_len,
            pos <= block_size,
            !truncated,
            step_iter(inp@, bsg, hist@, r as int, flags as int, pos as int, produced@)
                == lzss_decode(inp@, bsg),
        ensures
            lzss_decode(inp@, bsg) == (if truncated { None::<Seq<u8>> } else { Some(produced@) }),
        decreases block_size - pos,
    {
        let ghost hist0 = hist@;
        let ghost r0 = r as int;
        let ghost flags0 = flags as int;
        let ghost pos0 = pos as int;
        let ghost prod0 = produced@;

        flags = flags / 2;
        if (flags / 0x100) % 2 == 0 {
            if pos as u64 >= block_size {
                proof {
                    assert(step_iter(inp@, bsg, hist0, r0, flags0, pos0, prod0) == Some(prod0));
                }
                break;
            }
            if pos >= inp_len {
                truncated = true;
                proof {
                    assert(step_iter(inp@, bsg, hist0, r0, flags0, pos0, prod0) == None::<Seq<u8>>);
                }
                break;
            }
            flags = (inp[pos] as u32) + 0xff00;
            pos = pos + 1;
            if pos as u64 >= block_size {
                proof {
                    assert(step_iter(inp@, bsg, hist0, r0, flags0, pos0, prod0) == Some(prod0));
                }
                break;
            }
        }
        proof {
            assert(step_iter(inp@, bsg, hist0, r0, flags0, pos0, prod0)
                == step_token(inp@, bsg, hist@, r as int, flags as int, pos as int, produced@));
        }
        let ghost flagsT = flags as int;
        let ghost posT = pos as int;
        if flags % 2 == 0 {
            if pos as u64 >= block_size {
                proof {
                    assert(step_token(inp@, bsg, hist@, r as int, flagsT, posT, prod0) == Some(prod0));
                }
                break;
            }
            if pos >= inp_len {
                truncated = true;
                break;
            }
            let i0 = inp[pos] as usize;
            pos = pos + 1;
            if pos as u64 >= block_size {
                proof {
                    assert(step_token(inp@, bsg, hist@, r as int, flagsT, posT, prod0) == Some(prod0));
                }
                break;
            }
            if pos >= inp_len {
                truncated = true;
                break;
            }
            let j0 = inp[pos] as usize;
            pos = pos + 1;
            let i = i0 + (j0 / 16) * 256;
            let cnt = (j0 % 16) + 3;
            let ghost histc = hist@;
            let ghost rc = r as int;
            let ghost prodc = produced@;
            let mut t: usize = 0;
            while t < cnt
                invariant
                    hist@.len() == 4096,
                    r < 4096,
                    t <= cnt,
                    cnt <= 18,
                    i <= 4095,
                    copy_step(histc, rc, i as int, cnt as nat, prodc)
                        == copy_step(hist@, r as int, i + t, (cnt - t) as nat, produced@),
                decreases cnt - t,
            {
                let b = hist[(i + t) % 4096];
                produced.push(b);
                hist[r] = b;
                r = (r + 1) % 4096;
                t += 1;
            }
            proof {
                assert(copy_step(hist@, r as int, i + cnt, 0nat, produced@)
                    == (hist@, r as int, produced@));
                assert(step_token(inp@, bsg, histc, rc, flagsT, posT, prodc)
                    == step_iter(inp@, bsg, hist@, r as int, flags as int, pos as int, produced@));
            }
        } else {
            if pos as u64 >= block_size {
                proof {
                    assert(step_token(inp@, bsg, hist@, r as int, flagsT, posT, prod0) == Some(prod0));
                }
                break;
            }
            if pos >= inp_len {
                truncated = true;
                break;
            }
            let b = inp[pos];
            pos = pos + 1;
            produced.push(b);
            hist[r] = b;
            r = (r + 1) % 4096;
            proof {
                assert(step_token(inp@, bsg, hist0, r0, flagsT, posT, prod0)
                    == step_iter(inp@, bsg, hist@, r as int, flags as int, pos as int, produced@));
            }
        }
    }
    if truncated {
        return Err(ExtractError::TruncatedCompressedStream);
    }
    let n = produced.len() as u64;
    out.append(&mut produced);
    Ok(n)
}

} // verus!
