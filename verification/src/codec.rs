use vstd::prelude::*;
use crate::proposal::Principal;
use crate::proposal::Proposal;
use crate::proposal::ProposalModel;

verus! {

/// Upper bound, in bytes, on the encoding of any record the store accepts.
pub const MAX_RECORD_SIZE: usize = 5000;

/// Little-endian byte `k` of a 32-bit value.
pub open spec fn le_byte(x: u32, k: int) -> u8 {
    ((x >> (8 * k)) & 0xff) as u8
}

/// The 32-bit value read back from four little-endian bytes.
pub open spec fn u32_from_le(b0: u8, b1: u8, b2: u8, b3: u8) -> u32 {
    (b0 as u32) | ((b1 as u32) << 8) | ((b2 as u32) << 16) | ((b3 as u32) << 24)
}

/// A 32-bit value, as four little-endian bytes.
pub open spec fn enc_u32(x: u32) -> Seq<u8> {
    seq![le_byte(x, 0), le_byte(x, 1), le_byte(x, 2), le_byte(x, 3)]
}

/// A byte string, as a four-byte length prefix followed by its bytes.
pub open spec fn enc_bytes(b: Seq<u8>) -> Seq<u8> {
    enc_u32(b.len() as u32) + b
}

/// A voter list, each entry length-prefixed, in order.
pub open spec fn enc_voters(vs: Seq<Seq<u8>>) -> Seq<u8>
    decreases vs.len(),
{
    if vs.len() == 0 {
        Seq::empty()
    } else {
        enc_bytes(vs[0]) + enc_voters(vs.drop_first())
    }
}

/// How many bytes the voter list occupies.
pub open spec fn voters_len(vs: Seq<Seq<u8>>) -> int
    decreases vs.len(),
{
    if vs.len() == 0 {
        0
    } else {
        4 + vs[0].len() + voters_len(vs.drop_first())
    }
}

/// The full record encoding: tallies, activity flag, owner, description,
/// voter count, voters.
pub open spec fn spec_encode(m: ProposalModel) -> Seq<u8> {
    enc_u32(m.approve) + enc_u32(m.reject) + enc_u32(m.pass)
        + seq![if m.is_active { 1u8 } else { 0u8 }]
        + enc_bytes(m.owner) + enc_bytes(m.description)
        + enc_u32(m.voted.len() as u32) + enc_voters(m.voted)
}

/// The 32-bit value at offset `i`, with the offset just past it.
pub open spec fn dec_u32_at(b: Seq<u8>, i: int) -> Option<(u32, int)> {
    if 0 <= i && i + 4 <= b.len() {
        Some((u32_from_le(b[i], b[i + 1], b[i + 2], b[i + 3]), i + 4))
    } else {
        None
    }
}

/// The length-prefixed byte string at offset `i`, with the offset just past it.
pub open spec fn dec_bytes_at(b: Seq<u8>, i: int) -> Option<(Seq<u8>, int)> {
    match dec_u32_at(b, i) {
        Some((n, j)) => if j + n <= b.len() {
            Some((b.subrange(j, j + n), j + n))
        } else {
            None
        },
        None => None,
    }
}

/// `count` length-prefixed byte strings starting at offset `i`.
pub open spec fn dec_voters_at(b: Seq<u8>, i: int, count: nat) -> Option<(Seq<Seq<u8>>, int)>
    decreases count,
{
    if count == 0 {
        Some((Seq::empty(), i))
    } else {
        match dec_bytes_at(b, i) {
            Some((v, j)) => match dec_voters_at(b, j, (count - 1) as nat) {
                Some((vs, k)) => Some((seq![v] + vs, k)),
                None => None,
            },
            None => None,
        }
    }
}

/// The record a byte string holds, if it is a well-formed encoding that is
/// consumed exactly.
pub open spec fn spec_decode(b: Seq<u8>) -> Option<ProposalModel> {
    match dec_u32_at(b, 0) {
        None => None,
        Some((approve, i1)) => match dec_u32_at(b, i1) {
            None => None,
            Some((reject, i2)) => match dec_u32_at(b, i2) {
                None => None,
                Some((pass, i3)) => if i3 < b.len() && (b[i3] == 0 || b[i3] == 1) {
                    match dec_bytes_at(b, i3 + 1) {
                        None => None,
                        Some((owner, i4)) => match dec_bytes_at(b, i4) {
                            None => None,
                            Some((description, i5)) => match dec_u32_at(b, i5) {
                                None => None,
                                Some((count, i6)) => match dec_voters_at(b, i6, count as nat) {
                                    None => None,
                                    Some((voted, i7)) => if i7 == b.len() {
                                        Some(ProposalModel {
                                            description,
                                            approve,
                                            reject,
                                            pass,
                                            is_active: b[i3] == 1,
                                            voted,
                                            owner,
                                        })
                                    } else {
                                        None
                                    },
                                },
                            },
                        },
                    }
                } else {
                    None
                },
            },
        },
    }
}

proof fn lemma_u32_le_round_trip(x: u32)
    ensures
        u32_from_le(le_byte(x, 0), le_byte(x, 1), le_byte(x, 2), le_byte(x, 3)) == x,
{
    assert(((((x >> 0) & 0xff) as u8) as u32) | (((((x >> 8) & 0xff) as u8) as u32) << 8)
        | (((((x >> 16) & 0xff) as u8) as u32) << 16)
        | (((((x >> 24) & 0xff) as u8) as u32) << 24) == x) by (bit_vector);
}

/// Every voter entry takes at least its four-byte length prefix.
pub proof fn lemma_voters_len_bounds(vs: Seq<Seq<u8>>)
    ensures
        voters_len(vs) >= 4 * vs.len(),
    decreases vs.len(),
{
    if vs.len() > 0 {
        lemma_voters_len_bounds(vs.drop_first());
    }
}

/// The voter encoding occupies exactly `voters_len` bytes.
pub proof fn lemma_enc_voters_len(vs: Seq<Seq<u8>>)
    ensures
        enc_voters(vs).len() == voters_len(vs),
    decreases vs.len(),
{
    if vs.len() > 0 {
        lemma_enc_voters_len(vs.drop_first());
    }
}

/// Appending one voter extends the byte count by its entry size.
pub proof fn lemma_voters_len_push(vs: Seq<Seq<u8>>, x: Seq<u8>)
    ensures
        voters_len(vs.push(x)) == voters_len(vs) + 4 + x.len(),
    decreases vs.len(),
{
    if vs.len() == 0 {
        assert(vs.push(x).drop_first() =~= Seq::<Seq<u8>>::empty());
        assert(voters_len(Seq::<Seq<u8>>::empty()) == 0);
        assert(vs.push(x)[0] == x);
    } else {
        assert(vs.push(x).drop_first() =~= vs.drop_first().push(x));
        assert(vs.push(x)[0] == vs[0]);
        lemma_voters_len_push(vs.drop_first(), x);
    }
}

/// Appending one voter extends the encoding by its entry.
pub proof fn lemma_enc_voters_push(vs: Seq<Seq<u8>>, x: Seq<u8>)
    ensures
        enc_voters(vs.push(x)) == enc_voters(vs) + enc_bytes(x),
    decreases vs.len(),
{
    if vs.len() == 0 {
        assert(vs.push(x).drop_first() =~= Seq::<Seq<u8>>::empty());
        assert(enc_voters(Seq::<Seq<u8>>::empty()) =~= Seq::empty());
        assert(vs.push(x)[0] == x);
        assert(enc_voters(vs.push(x)) =~= enc_voters(vs) + enc_bytes(x));
    } else {
        assert(vs.push(x).drop_first() =~= vs.drop_first().push(x));
        assert(vs.push(x)[0] == vs[0]);
        lemma_enc_voters_push(vs.drop_first(), x);
        assert(enc_voters(vs.push(x)) =~= enc_voters(vs) + enc_bytes(x));
    }
}

/// A prefix of the voter list never takes more bytes than the whole.
pub proof fn lemma_voters_len_take_le(vs: Seq<Seq<u8>>, i: int)
    requires
        0 <= i <= vs.len(),
    ensures
        voters_len(vs.take(i)) <= voters_len(vs),
    decreases vs.len() - i,
{
    if i == vs.len() {
        assert(vs.take(i) =~= vs);
    } else {
        assert(vs.take(i + 1) =~= vs.take(i).push(vs[i]));
        lemma_voters_len_push(vs.take(i), vs[i]);
        lemma_voters_len_take_le(vs, i + 1);
    }
}

/// The total length of a record's encoding, componentwise.
pub proof fn lemma_encode_len(m: ProposalModel)
    ensures
        spec_encode(m).len() == 25 + m.owner.len() + m.description.len() + voters_len(m.voted),
{
    lemma_enc_voters_len(m.voted);
}

/// Reading four bytes where an encoded 32-bit value lies gives that value back.
proof fn lemma_dec_u32_at(b: Seq<u8>, i: int, x: u32)
    requires
        0 <= i,
        i + 4 <= b.len(),
        b.subrange(i, i + 4) == enc_u32(x),
    ensures
        dec_u32_at(b, i) == Some((x, i + 4)),
{
    assert(b[i] == b.subrange(i, i + 4)[0]);
    assert(b[i + 1] == b.subrange(i, i + 4)[1]);
    assert(b[i + 2] == b.subrange(i, i + 4)[2]);
    assert(b[i + 3] == b.subrange(i, i + 4)[3]);
    lemma_u32_le_round_trip(x);
}

/// Reading a length-prefixed byte string where one was encoded gives it back.
proof fn lemma_dec_bytes_at(b: Seq<u8>, i: int, s: Seq<u8>)
    requires
        0 <= i,
        s.len() < 0x1_0000_0000,
        i + 4 + s.len() <= b.len(),
        b.subrange(i, i + 4 + s.len()) == enc_bytes(s),
    ensures
        dec_bytes_at(b, i) == Some((s, i + 4 + s.len())),
{
    let piece = b.subrange(i, i + 4 + s.len());
    assert(b.subrange(i, i + 4) =~= piece.subrange(0, 4));
    assert(piece.subrange(0, 4) =~= enc_u32(s.len() as u32));
    lemma_dec_u32_at(b, i, s.len() as u32);
    assert(b.subrange(i + 4, i + 4 + s.len()) =~= piece.subrange(4, 4 + s.len() as int));
    assert(piece.subrange(4, 4 + s.len() as int) =~= s);
}

/// Reading an encoded voter list gives the list back.
proof fn lemma_dec_voters_at(b: Seq<u8>, i: int, vs: Seq<Seq<u8>>)
    requires
        0 <= i,
        forall|k: int| 0 <= k < vs.len() ==> #[trigger] vs[k].len() < 0x1_0000_0000,
        i + voters_len(vs) <= b.len(),
        b.subrange(i, i + voters_len(vs)) == enc_voters(vs),
    ensures
        dec_voters_at(b, i, vs.len() as nat) == Some((vs, i + voters_len(vs))),
    decreases vs.len(),
{
    lemma_voters_len_bounds(vs);
    if vs.len() == 0 {
        assert(vs =~= Seq::<Seq<u8>>::empty());
    } else {
        let v0 = vs[0];
        let rest = vs.drop_first();
        lemma_voters_len_bounds(rest);
        let piece = b.subrange(i, i + voters_len(vs));
        lemma_enc_voters_len(rest);
        assert(b.subrange(i, i + 4 + v0.len()) =~= piece.subrange(0, 4 + v0.len() as int));
        assert(piece.subrange(0, 4 + v0.len() as int) =~= enc_bytes(v0));
        lemma_dec_bytes_at(b, i, v0);
        let j = i + 4 + v0.len();
        assert(b.subrange(j, j + voters_len(rest)) =~= piece.subrange(
            4 + v0.len() as int,
            4 + v0.len() + voters_len(rest),
        ));
        assert(piece.subrange(4 + v0.len() as int, 4 + v0.len() + voters_len(rest)) =~= enc_voters(rest));
        assert(forall|k: int|
            0 <= k < rest.len() ==> #[trigger] rest[k].len() < 0x1_0000_0000) by {
            assert(forall|k: int|
                0 <= k < rest.len() ==> rest[k] == vs[k + 1] && #[trigger] vs[k + 1].len()
                    < 0x1_0000_0000);
        }
        lemma_dec_voters_at(b, j, rest);
        assert(seq![v0] + rest =~= vs);
    }
}

/// Decoding inverts encoding: any record whose encoding fits the size bound
/// is reproduced field for field.
pub proof fn lemma_round_trip(m: ProposalModel)
    requires
        spec_encode(m).len() <= MAX_RECORD_SIZE,
    ensures
        spec_decode(spec_encode(m)) == Some(m),
{
    let b = spec_encode(m);
    lemma_encode_len(m);
    lemma_voters_len_bounds(m.voted);
    lemma_enc_voters_len(m.voted);
    let act = seq![if m.is_active { 1u8 } else { 0u8 }];
    let cnt = m.voted.len() as u32;

    assert(b.subrange(0, 4) =~= enc_u32(m.approve));
    lemma_dec_u32_at(b, 0, m.approve);
    assert(b.subrange(4, 8) =~= enc_u32(m.reject));
    lemma_dec_u32_at(b, 4, m.reject);
    assert(b.subrange(8, 12) =~= enc_u32(m.pass));
    lemma_dec_u32_at(b, 8, m.pass);
    assert(b[12] == act[0]);
    assert(b[12] == 0 || b[12] == 1);
    assert((b[12] == 1) == m.is_active);

    let i4 = 13 + 4 + m.owner.len() as int;
    assert(b.subrange(13, i4) =~= enc_bytes(m.owner));
    lemma_dec_bytes_at(b, 13, m.owner);

    let i5 = i4 + 4 + m.description.len() as int;
    assert(b.subrange(i4, i5) =~= enc_bytes(m.description));
    lemma_dec_bytes_at(b, i4, m.description);

    let i6 = i5 + 4;
    assert(b.subrange(i5, i6) =~= enc_u32(cnt));
    lemma_dec_u32_at(b, i5, cnt);

    assert(voters_len(m.voted) <= MAX_RECORD_SIZE);
    assert(m.voted.len() < 0x1_0000_0000);
    assert(cnt as nat == m.voted.len());
    assert(forall|k: int|
        0 <= k < m.voted.len() ==> #[trigger] m.voted[k].len() < 0x1_0000_0000) by {
        assert forall|k: int| 0 <= k < m.voted.len() implies #[trigger] m.voted[k].len()
            < 0x1_0000_0000 by {
            lemma_voter_entry_le(m.voted, k);
        }
    }
    assert(b.subrange(i6, i6 + voters_len(m.voted)) =~= enc_voters(m.voted));
    lemma_dec_voters_at(b, i6, m.voted);
    assert(i6 + voters_len(m.voted) == b.len());
    assert(spec_decode(b) == Some(m));
}

/// Each voter entry is no longer than the whole list's byte count.
proof fn lemma_voter_entry_le(vs: Seq<Seq<u8>>, k: int)
    requires
        0 <= k < vs.len(),
    ensures
        vs[k].len() + 4 <= voters_len(vs),
    decreases vs.len(),
{
    lemma_voters_len_bounds(vs.drop_first());
    if k > 0 {
        lemma_voter_entry_le(vs.drop_first(), k - 1);
        assert(vs.drop_first()[k - 1] == vs[k]);
    }
}

/// Appends the four little-endian bytes of `x`.
fn push_u32(out: &mut Vec<u8>, x: u32)
    ensures
        final(out)@ == old(out)@ + enc_u32(x),
{
    out.push(((x >> 0) & 0xff) as u8);
    out.push(((x >> 8) & 0xff) as u8);
    out.push(((x >> 16) & 0xff) as u8);
    out.push(((x >> 24) & 0xff) as u8);
    proof {
        assert(out@ =~= old(out)@ + enc_u32(x));
    }
}

/// Appends the length prefix and bytes of `b`.
fn push_bytes(out: &mut Vec<u8>, b: &Vec<u8>)
    ensures
        final(out)@ == old(out)@ + enc_bytes(b@),
{
    push_u32(out, b.len() as u32);
    let mut i: usize = 0;
    while i < b.len()
        invariant
            i <= b.len(),
            out@ == old(out)@ + enc_u32(b@.len() as u32) + b@.take(i as int),
        decreases b.len() - i,
    {
        out.push(b[i]);
        i = i + 1;
        proof {
            assert(out@ =~= old(out)@ + enc_u32(b@.len() as u32) + b@.take(i as int));
        }
    }
    proof {
        assert(b@.take(b@.len() as int) =~= b@);
        assert(out@ =~= old(out)@ + enc_bytes(b@));
    }
}

/// The size the record would occupy encoded, or nothing when it is over the
/// bound.
pub fn checked_encoded_len(p: &Proposal) -> (r: Option<usize>)
    ensures
        match r {
            Some(n) => n == spec_encode(p@).len() && n <= MAX_RECORD_SIZE,
            None => spec_encode(p@).len() > MAX_RECORD_SIZE,
        },
{
    proof {
        lemma_encode_len(p@);
        lemma_voters_len_bounds(p@.voted);
    }
    let owner_len = p.owner.bytes.len();
    let desc_len = p.description.len();
    if owner_len > MAX_RECORD_SIZE || desc_len > MAX_RECORD_SIZE {
        return None;
    }
    let mut total: usize = 25 + owner_len + desc_len;
    if total > MAX_RECORD_SIZE {
        return None;
    }
    let ghost vs = p@.voted;
    let mut i: usize = 0;
    while i < p.voted.len()
        invariant
            i <= p.voted.len(),
            vs == p@.voted,
            vs.len() == p.voted@.len(),
            owner_len == p@.owner.len(),
            desc_len == p@.description.len(),
            total == 25 + owner_len + desc_len + voters_len(vs.take(i as int)),
            total <= MAX_RECORD_SIZE,
            spec_encode(p@).len() == 25 + owner_len + desc_len + voters_len(vs),
        decreases p.voted.len() - i,
    {
        let vl = p.voted[i].bytes.len();
        proof {
            assert(vs[i as int] == p.voted@[i as int]@);
            assert(vs.take(i + 1) =~= vs.take(i as int).push(vs[i as int]));
            lemma_voters_len_push(vs.take(i as int), vs[i as int]);
            lemma_voters_len_take_le(vs, i + 1);
        }
        if vl > MAX_RECORD_SIZE {
            return None;
        }
        let add = 4 + vl;
        if total + add > MAX_RECORD_SIZE {
            return None;
        }
        total = total + add;
        i = i + 1;
    }
    proof {
        assert(vs.take(vs.len() as int) =~= vs);
    }
    Some(total)
}

/// Encodes a record, refusing one whose encoding would exceed the bound.
pub fn encode_proposal(p: &Proposal) -> (r: Option<Vec<u8>>)
    ensures
        match r {
            Some(v) => v@ == spec_encode(p@) && v@.len() <= MAX_RECORD_SIZE,
            None => spec_encode(p@).len() > MAX_RECORD_SIZE,
        },
{
    let total = match checked_encoded_len(p) {
        Some(n) => n,
        None => {
            return None;
        },
    };
    let mut out: Vec<u8> = Vec::new();
    push_u32(&mut out, p.approve);
    push_u32(&mut out, p.reject);
    push_u32(&mut out, p.pass);
    if p.is_active {
        out.push(1u8);
    } else {
        out.push(0u8);
    }
    push_bytes(&mut out, &p.owner.bytes);
    push_bytes(&mut out, &p.description);
    push_u32(&mut out, p.voted.len() as u32);
    let ghost vs = p@.voted;
    let ghost head = enc_u32(p@.approve) + enc_u32(p@.reject) + enc_u32(p@.pass)
        + seq![if p@.is_active { 1u8 } else { 0u8 }]
        + enc_bytes(p@.owner) + enc_bytes(p@.description)
        + enc_u32(vs.len() as u32);
    proof {
        assert(vs.len() == p.voted@.len());
        assert(out@ =~= head + enc_voters(vs.take(0)));
    }
    let mut i: usize = 0;
    while i < p.voted.len()
        invariant
            i <= p.voted.len(),
            vs == p@.voted,
            vs.len() == p.voted@.len(),
            out@ == head + enc_voters(vs.take(i as int)),
        decreases p.voted.len() - i,
    {
        push_bytes(&mut out, &p.voted[i].bytes);
        proof {
            assert(vs[i as int] == p.voted@[i as int]@);
            assert(vs.take(i + 1) =~= vs.take(i as int).push(vs[i as int]));
            lemma_enc_voters_push(vs.take(i as int), vs[i as int]);
            assert(out@ =~= head + enc_voters(vs.take(i + 1)));
        }
        i = i + 1;
    }
    proof {
        assert(vs.take(vs.len() as int) =~= vs);
        assert(out@ =~= spec_encode(p@));
    }
    Some(out)
}

/// The 32-bit value at offset `i` of the byte string, if four bytes remain.
fn read_u32(b: &Vec<u8>, i: usize) -> (r: Option<(u32, usize)>)
    ensures
        match r {
            Some((x, j)) => dec_u32_at(b@, i as int) == Some((x, j as int)),
            None => dec_u32_at(b@, i as int) is None,
        },
{
    if b.len() >= 4 && i <= b.len() - 4 {
        let x = (b[i] as u32) | ((b[i + 1] as u32) << 8) | ((b[i + 2] as u32) << 16) | ((b[i
            + 3] as u32) << 24);
        Some((x, i + 4))
    } else {
        None
    }
}

/// The length-prefixed byte string at offset `i`, if it lies within bounds.
fn read_bytes(b: &Vec<u8>, i: usize) -> (r: Option<(Vec<u8>, usize)>)
    ensures
        match r {
            Some((v, j)) => dec_bytes_at(b@, i as int) == Some((v@, j as int)),
            None => dec_bytes_at(b@, i as int) is None,
        },
{
    let (n, j) = match read_u32(b, i) {
        Some(p) => p,
        None => {
            return None;
        },
    };
    let n_us = n as usize;
    if n_us <= b.len() - j {
        let mut v: Vec<u8> = Vec::new();
        let mut t: usize = 0;
        while t < n_us
            invariant
                t <= n_us,
                j + n_us <= b.len(),
                v@ == b@.subrange(j as int, j + t),
            decreases n_us - t,
        {
            v.push(b[j + t]);
            t = t + 1;
            proof {
                assert(v@ =~= b@.subrange(j as int, j + t));
            }
        }
        Some((v, j + n_us))
    } else {
        None
    }
}

/// Decodes a record; anything but an exact, well-formed encoding is refused.
#[verifier::loop_isolation(false)]
pub fn decode_proposal(bytes: &Vec<u8>) -> (r: Option<Proposal>)
    ensures
        match r {
            Some(p) => spec_decode(bytes@) == Some(p@),
            None => spec_decode(bytes@) is None,
        },
{
    let (approve, i1) = match read_u32(bytes, 0) {
        Some(p) => p,
        None => {
            return None;
        },
    };
    let (reject, i2) = match read_u32(bytes, i1) {
        Some(p) => p,
        None => {
            return None;
        },
    };
    let (pass, i3) = match read_u32(bytes, i2) {
        Some(p) => p,
        None => {
            return None;
        },
    };
    if !(i3 < bytes.len() && (bytes[i3] == 0 || bytes[i3] == 1)) {
        return None;
    }
    let is_active = bytes[i3] == 1;
    let (owner_bytes, i4) = match read_bytes(bytes, i3 + 1) {
        Some(p) => p,
        None => {
            return None;
        },
    };
    let (description, i5) = match read_bytes(bytes, i4) {
        Some(p) => p,
        None => {
            return None;
        },
    };
    let (count, i6) = match read_u32(bytes, i5) {
        Some(p) => p,
        None => {
            return None;
        },
    };
    let count_us = count as usize;
    let mut voted: Vec<Principal> = Vec::new();
    let mut cur: usize = i6;
    let mut rem: usize = count_us;
    proof {
        assert(voted@.map_values(|p: Principal| p@) =~= Seq::<Seq<u8>>::empty());
    }
    while rem > 0
        invariant
            dec_voters_at(bytes@, i6 as int, count_us as nat) == (match dec_voters_at(
                bytes@,
                cur as int,
                rem as nat,
            ) {
                Some((tail, end)) => Some(
                    (voted@.map_values(|p: Principal| p@) + tail, end),
                ),
                None => None,
            }),
        decreases rem,
    {
        let ghost pre_view = voted@.map_values(|p: Principal| p@);
        let (v, j) = match read_bytes(bytes, cur) {
            Some(p) => p,
            None => {
                proof {
                    assert(dec_voters_at(bytes@, cur as int, rem as nat) is None);
                }
                return None;
            },
        };
        voted.push(Principal { bytes: v });
        proof {
            let post_view = voted@.map_values(|p: Principal| p@);
            assert(post_view =~= pre_view.push(v@));
            let inner = dec_voters_at(bytes@, j as int, (rem - 1) as nat);
            if inner is Some {
                let (tail2, end2) = inner.unwrap();
                assert(dec_voters_at(bytes@, cur as int, rem as nat) == Some(
                    (seq![v@] + tail2, end2),
                ));
                assert(pre_view + (seq![v@] + tail2) =~= post_view + tail2);
            } else {
                assert(dec_voters_at(bytes@, cur as int, rem as nat) is None);
            }
        }
        cur = j;
        rem = rem - 1;
    }
    proof {
        assert(dec_voters_at(bytes@, cur as int, 0) == Some(
            (Seq::<Seq<u8>>::empty(), cur as int),
        ));
        assert(voted@.map_values(|p: Principal| p@) + Seq::<Seq<u8>>::empty() =~= voted@.map_values(
            |p: Principal| p@,
        ));
    }
    if cur != bytes.len() {
        return None;
    }
    let p = Proposal {
        description,
        approve,
        reject,
        pass,
        is_active,
        voted,
        owner: Principal { bytes: owner_bytes },
    };
    proof {
        assert(spec_decode(bytes@) == Some(p@));
    }
    Some(p)
}

} // verus!
