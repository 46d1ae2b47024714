use vstd::prelude::*;

verus! {

/// `256` to the power `n`.
pub open spec fn pow256(n: nat) -> nat
    decreases n,
{
    if n == 0 {
        1
    } else {
        256 * pow256((n - 1) as nat)
    }
}

/// The `n` low bytes of `v`, least significant first.
pub open spec fn le_bytes(v: nat, n: nat) -> Seq<u8>
    decreases n,
{
    if n == 0 {
        Seq::empty()
    } else {
        seq![(v % 256) as u8] + le_bytes(v / 256, (n - 1) as nat)
    }
}

/// The number whose bytes, least significant first, are `s`.
pub open spec fn from_le(s: Seq<u8>) -> nat
    decreases s.len(),
{
    if s.len() == 0 {
        0
    } else {
        s[0] as nat + 256 * from_le(s.drop_first())
    }
}

/// A client's datagram: the channel id, the client id in eight bytes, and
/// the payload.
pub open spec fn client_datagram(channel: u8, client_id: u64, payload: Seq<u8>) -> Seq<u8> {
    seq![channel] + le_bytes(client_id as nat, 8) + payload
}

/// A server's datagram: the channel id and the payload.
pub open spec fn server_datagram(channel: u8, payload: Seq<u8>) -> Seq<u8> {
    seq![channel] + payload
}

/// The parts of a client's datagram; `None` when it is too short to hold
/// a channel and a client id.
pub open spec fn parse_client_datagram(d: Seq<u8>) -> Option<(u8, u64, Seq<u8>)> {
    if d.len() < 9 {
        None
    } else {
        Some((d[0], from_le(d.subrange(1, 9)) as u64, d.skip(9)))
    }
}

/// The parts of a server's datagram; `None` when it is empty.
pub open spec fn parse_server_datagram(d: Seq<u8>) -> Option<(u8, Seq<u8>)> {
    if d.len() < 1 {
        None
    } else {
        Some((d[0], d.skip(1)))
    }
}

pub proof fn lemma_le_bytes_len(v: nat, n: nat)
    ensures
        le_bytes(v, n).len() == n,
    decreases n,
{
    if n > 0 {
        lemma_le_bytes_len(v / 256, (n - 1) as nat);
    }
}

/// Reading back the bytes of a number that fits gives the number.
pub proof fn lemma_from_le_bytes(v: nat, n: nat)
    requires
        v < pow256(n),
    ensures
        from_le(le_bytes(v, n)) == v,
    decreases n,
{
    if n > 0 {
        let s = le_bytes(v, n);
        lemma_le_bytes_len(v / 256, (n - 1) as nat);
        assert(s.drop_first() == le_bytes(v / 256, (n - 1) as nat));
        assert(v / 256 < pow256((n - 1) as nat)) by {
            vstd::arithmetic::div_mod::lemma_div_by_multiple_is_strongly_ordered(
                v as int,
                pow256(n) as int,
                pow256((n - 1) as nat) as int,
                256,
            );
        }
        lemma_from_le_bytes(v / 256, (n - 1) as nat);
        vstd::arithmetic::div_mod::lemma_fundamental_div_mod(v as int, 256);
    } else {
        assert(v == 0);
    }
}

/// Writing out the number that a run of bytes spells gives the bytes.
pub proof fn lemma_le_bytes_from(s: Seq<u8>)
    ensures
        le_bytes(from_le(s), s.len()) == s,
        from_le(s) < pow256(s.len()),
    decreases s.len(),
{
    if s.len() > 0 {
        let rest = s.drop_first();
        lemma_le_bytes_from(rest);
        let x = from_le(rest);
        let v = from_le(s);
        assert(v == s[0] as nat + 256 * x);
        assert(v % 256 == s[0] as nat && v / 256 == x) by {
            vstd::arithmetic::div_mod::lemma_fundamental_div_mod_converse(
                v as int,
                256,
                x as int,
                s[0] as int,
            );
        }
        assert(le_bytes(v, s.len()) == seq![s[0]] + le_bytes(x, rest.len()));
        assert(seq![s[0]] + rest == s);
    }
}

proof fn lemma_pow256_8()
    ensures
        pow256(8) == 0x1_0000_0000_0000_0000,
{
    reveal_with_fuel(pow256, 9);
}

/// A client's datagram read back gives the channel, client id and payload
/// it was written from; a server's likewise.
pub proof fn lemma_datagram_round_trip(channel: u8, client_id: u64, payload: Seq<u8>)
    ensures
        parse_client_datagram(client_datagram(channel, client_id, payload)) == Some(
            (channel, client_id, payload),
        ),
        parse_server_datagram(server_datagram(channel, payload)) == Some((channel, payload)),
{
    let d = client_datagram(channel, client_id, payload);
    let b = le_bytes(client_id as nat, 8);
    lemma_le_bytes_len(client_id as nat, 8);
    lemma_pow256_8();
    lemma_from_le_bytes(client_id as nat, 8);
    assert(d.subrange(1, 9) == b);
    assert(d.skip(9) == payload);
    assert(server_datagram(channel, payload).skip(1) == payload);
}

/// Appends `payload` to `out`.
fn append_bytes(out: &mut Vec<u8>, payload: &Vec<u8>)
    ensures
        final(out)@ == old(out)@ + payload@,
{
    let mut i: usize = 0;
    while i < payload.len()
        invariant
            0 <= i <= payload@.len(),
            out@ == old(out)@ + payload@.take(i as int),
        decreases payload@.len() - i,
    {
        out.push(payload[i]);
        assert(payload@.take(i + 1) == payload@.take(i as int).push(payload@[i as int]));
        i = i + 1;
    }
    assert(payload@.take(i as int) == payload@);
}

/// Frames a client's message for the server.
pub fn encode_client_datagram(channel: u8, client_id: u64, payload: &Vec<u8>) -> (r: Vec<u8>)
    ensures
        r@ == client_datagram(channel, client_id, payload@),
{
    let mut out: Vec<u8> = Vec::new();
    out.push(channel);
    let mut v: u64 = client_id;
    let mut i: usize = 0;
    while i < 8
        invariant
            0 <= i <= 8,
            out@ + le_bytes(v as nat, (8 - i) as nat) == seq![channel] + le_bytes(
                client_id as nat,
                8,
            ),
        decreases 8 - i,
    {
        let ghost before = out@;
        let ghost vv = v;
        out.push((v % 256) as u8);
        v = v / 256;
        assert(le_bytes(vv as nat, (8 - i) as nat) == seq![(vv % 256) as u8] + le_bytes(
            v as nat,
            (8 - i - 1) as nat,
        ));
        assert(out@ + le_bytes(v as nat, (8 - i - 1) as nat) == before + le_bytes(
            vv as nat,
            (8 - i) as nat,
        ));
        i = i + 1;
    }
    assert(le_bytes(v as nat, 0) == Seq::<u8>::empty());
    assert(out@ + Seq::<u8>::empty() == out@);
    append_bytes(&mut out, payload);
    out
}

/// Frames a server's message for a client.
pub fn encode_server_datagram(channel: u8, payload: &Vec<u8>) -> (r: Vec<u8>)
    ensures
        r@ == server_datagram(channel, payload@),
{
    let mut out: Vec<u8> = Vec::new();
    out.push(channel);
    append_bytes(&mut out, payload);
    out
}

/// The bytes of `d` from `start` on.
fn tail_bytes(d: &Vec<u8>, start: usize) -> (r: Vec<u8>)
    requires
        start <= d@.len(),
    ensures
        r@ == d@.skip(start as int),
{
    let mut out: Vec<u8> = Vec::new();
    let mut i: usize = start;
    while i < d.len()
        invariant
            start <= i <= d@.len(),
            out@ == d@.subrange(start as int, i as int),
        decreases d@.len() - i,
    {
        out.push(d[i]);
        assert(d@.subrange(start as int, i + 1) == d@.subrange(start as int, i as int).push(
            d@[i as int],
        ));
        i = i + 1;
    }
    out
}

/// Splits a client's datagram into its channel, client id and payload;
/// `None` for one too short to hold them, which the caller drops.
pub fn decode_client_datagram(d: &Vec<u8>) -> (r: Option<(u8, u64, Vec<u8>)>)
    ensures
        r is None == (d@.len() < 9),
        r matches Some((c, id, p)) ==> parse_client_datagram(d@) == Some((c, id, p@)),
{
    if d.len() < 9 {
        return None;
    }
    let ghost b = d@.subrange(1, 9);
    let mut acc: u64 = 0;
    let mut i: usize = 8;
    proof {
        lemma_pow256_8();
    }
    while i > 0
        invariant
            0 <= i <= 8,
            d@.len() >= 9,
            b == d@.subrange(1, 9),
            acc as nat == from_le(b.subrange(i as int, 8)),
            acc as nat <= pow256((8 - i) as nat) - 1,
            pow256(8) == 0x1_0000_0000_0000_0000,
        decreases i,
    {
        let byte = d[i];
        assert(b[i - 1] == byte);
        assert(b.subrange(i - 1, 8).drop_first() == b.subrange(i as int, 8));
        assert(pow256((8 - i + 1) as nat) == 256 * pow256((8 - i) as nat));
        proof {
            lemma_pow256_le_8((8 - i + 1) as nat);
        }
        acc = acc * 256 + byte as u64;
        i = i - 1;
    }
    assert(b.subrange(0, 8) == b);
    Some((d[0], acc, tail_bytes(d, 9)))
}

proof fn lemma_pow256_le_8(n: nat)
    requires
        n <= 8,
    ensures
        pow256(n) <= 0x1_0000_0000_0000_0000,
    decreases 8 - n,
{
    if n < 8 {
        lemma_pow256_le_8(n + 1);
        assert(pow256(n + 1) == 256 * pow256(n));
    } else {
        lemma_pow256_8();
    }
}

/// Splits a server's datagram into its channel and payload; `None` for an
/// empty one.
pub fn decode_server_datagram(d: &Vec<u8>) -> (r: Option<(u8, Vec<u8>)>)
    ensures
        r is None == (d@.len() < 1),
        r matches Some((c, p)) ==> parse_server_datagram(d@) == Some((c, p@)),
{
    if d.len() < 1 {
        return None;
    }
    Some((d[0], tail_bytes(d, 1)))
}

} // verus!
