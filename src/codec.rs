//! The length-prefixed binary presentation of protocol values: integers in
//! network byte order and byte strings behind a 32-bit length.
use vstd::prelude::*;

verus! {

pub open spec fn enc_u8(x: u8) -> Seq<u8> {
    seq![x]
}

pub open spec fn enc_u16(x: u16) -> Seq<u8> {
    seq![(x >> 8u16) as u8, x as u8]
}

pub open spec fn enc_u32(x: u32) -> Seq<u8> {
    seq![(x >> 24u32) as u8, (x >> 16u32) as u8, (x >> 8u32) as u8, x as u8]
}

pub open spec fn enc_u64(x: u64) -> Seq<u8> {
    enc_u32((x >> 32u64) as u32) + enc_u32(x as u32)
}

/// A byte string behind its 32-bit length.
pub open spec fn enc_bytes(b: Seq<u8>) -> Seq<u8> {
    enc_u32(b.len() as u32) + b
}

/// A present value is one byte 1 and the value; an absent one is one byte 0.
pub open spec fn enc_opt_bytes(b: Option<Seq<u8>>) -> Seq<u8> {
    match b {
        Some(v) => seq![1u8] + enc_bytes(v),
        None => seq![0u8],
    }
}

pub open spec fn dec_u16(b0: u8, b1: u8) -> u16 {
    ((b0 as u16) << 8u16) | (b1 as u16)
}

pub open spec fn dec_u32(b0: u8, b1: u8, b2: u8, b3: u8) -> u32 {
    ((b0 as u32) << 24u32) | ((b1 as u32) << 16u32) | ((b2 as u32) << 8u32) | (b3 as u32)
}

pub fn write_u8(out: &mut Vec<u8>, x: u8)
    ensures
        final(out)@ == old(out)@ + enc_u8(x),
{
    out.push(x);
    assert(final(out)@ =~= old(out)@ + enc_u8(x));
}

pub fn write_u16(out: &mut Vec<u8>, x: u16)
    ensures
        final(out)@ == old(out)@ + enc_u16(x),
{
    out.push((x >> 8u16) as u8);
    out.push(x as u8);
    assert(final(out)@ =~= old(out)@ + enc_u16(x));
}

pub fn write_u32(out: &mut Vec<u8>, x: u32)
    ensures
        final(out)@ == old(out)@ + enc_u32(x),
{
    out.push((x >> 24u32) as u8);
    out.push((x >> 16u32) as u8);
    out.push((x >> 8u32) as u8);
    out.push(x as u8);
    assert(final(out)@ =~= old(out)@ + enc_u32(x));
}

pub fn write_u64(out: &mut Vec<u8>, x: u64)
    ensures
        final(out)@ == old(out)@ + enc_u64(x),
{
    write_u32(out, (x >> 32u64) as u32);
    write_u32(out, x as u32);
    assert(final(out)@ =~= old(out)@ + enc_u64(x));
}

/// Appends `b` to `out`, byte by byte.
pub fn write_raw(out: &mut Vec<u8>, b: &[u8])
    ensures
        final(out)@ == old(out)@ + b@,
{
    let ghost start = out@;
    let mut i: usize = 0;
    while i < b.len()
        invariant
            i <= b@.len(),
            out@ == start + b@.subrange(0, i as int),
        decreases b@.len() - i,
    {
        out.push(b[i]);
        i = i + 1;
        assert(out@ =~= start + b@.subrange(0, i as int));
    }
    assert(b@.subrange(0, b@.len() as int) =~= b@);
}

pub fn write_bytes(out: &mut Vec<u8>, b: &[u8])
    requires
        b@.len() <= u32::MAX,
    ensures
        final(out)@ == old(out)@ + enc_bytes(b@),
{
    write_u32(out, b.len() as u32);
    write_raw(out, b);
    assert(final(out)@ =~= old(out)@ + enc_bytes(b@));
}

pub fn write_opt_bytes(out: &mut Vec<u8>, b: Option<&[u8]>)
    requires
        b matches Some(v) ==> v@.len() <= u32::MAX,
    ensures
        final(out)@ == old(out)@ + enc_opt_bytes(
            match b {
                Some(v) => Some(v@),
                None => None,
            },
        ),
{
    match b {
        Some(v) => {
            write_u8(out, 1);
            write_bytes(out, v);
        },
        None => {
            write_u8(out, 0);
        },
    }
    assert(final(out)@ =~= old(out)@ + enc_opt_bytes(
        match b {
            Some(v) => Some(v@),
            None => None,
        },
    ));
}

/// Reads one byte at `pos`; gives the byte and the position after it.
pub fn read_u8(data: &[u8], pos: usize) -> (r: Option<(u8, usize)>)
    ensures
        match r {
            Some((x, p)) => pos + 1 <= data@.len() && p == pos + 1 && x == data@[pos as int],
            None => pos + 1 > data@.len(),
        },
{
    if pos < data.len() {
        Some((data[pos], pos + 1))
    } else {
        None
    }
}

pub fn read_u16(data: &[u8], pos: usize) -> (r: Option<(u16, usize)>)
    ensures
        match r {
            Some((x, p)) => pos + 2 <= data@.len() && p == pos + 2 && x == dec_u16(
                data@[pos as int],
                data@[pos + 1],
            ),
            None => pos + 2 > data@.len(),
        },
{
    if pos <= data.len() && data.len() - pos >= 2 {
        let x = ((data[pos] as u16) << 8u16) | (data[pos + 1] as u16);
        Some((x, pos + 2))
    } else {
        None
    }
}

pub fn read_u32(data: &[u8], pos: usize) -> (r: Option<(u32, usize)>)
    ensures
        match r {
            Some((x, p)) => pos + 4 <= data@.len() && p == pos + 4 && x == dec_u32(
                data@[pos as int],
                data@[pos + 1],
                data@[pos + 2],
                data@[pos + 3],
            ),
            None => pos + 4 > data@.len(),
        },
{
    if pos <= data.len() && data.len() - pos >= 4 {
        let x = ((data[pos] as u32) << 24u32) | ((data[pos + 1] as u32) << 16u32) | ((data[pos
            + 2] as u32) << 8u32) | (data[pos + 3] as u32);
        Some((x, pos + 4))
    } else {
        None
    }
}

/// Copies `len` bytes starting at `pos`.
pub fn read_raw(data: &[u8], pos: usize, len: usize) -> (r: Option<(Vec<u8>, usize)>)
    ensures
        match r {
            Some((v, p)) => pos + len <= data@.len() && p == pos + len && v@ == data@.subrange(
                pos as int,
                pos + len,
            ),
            None => pos + len > data@.len(),
        },
{
    if pos > data.len() || data.len() - pos < len {
        return None;
    }
    let mut v: Vec<u8> = Vec::new();
    let mut i: usize = 0;
    let dlen = data.len();
    while i < len
        invariant
            i <= len,
            dlen == data@.len(),
            pos + len <= data@.len(),
            v@ == data@.subrange(pos as int, pos + i),
        decreases len - i,
    {
        v.push(data[pos + i]);
        i = i + 1;
        assert(v@ =~= data@.subrange(pos as int, pos + i));
    }
    Some((v, pos + len))
}

/// Whether two byte strings are equal; every byte is looked at, whatever the
/// earlier ones held.
pub fn bytes_eq(a: &[u8], b: &[u8]) -> (r: bool)
    ensures
        r == (a@ == b@),
{
    if a.len() != b.len() {
        return false;
    }
    let mut diff: u8 = 0;
    let mut i: usize = 0;
    assert(a@.subrange(0, 0) =~= b@.subrange(0, 0));
    while i < a.len()
        invariant
            i <= a@.len(),
            a@.len() == b@.len(),
            (diff == 0) == (a@.subrange(0, i as int) == b@.subrange(0, i as int)),
        decreases a@.len() - i,
    {
        let x = a[i];
        let y = b[i];
        let d = diff | (x ^ y);
        assert((d == 0) == (diff == 0 && x == y)) by (bit_vector)
            requires
                d == diff | (x ^ y),
        ;
        proof {
            if diff == 0 && x == y {
                assert(a@.subrange(0, i + 1) =~= a@.subrange(0, i as int).push(x));
                assert(b@.subrange(0, i + 1) =~= b@.subrange(0, i as int).push(y));
            }
            if a@.subrange(0, i + 1) == b@.subrange(0, i + 1) {
                assert(a@.subrange(0, i + 1)[i as int] == x);
                assert(b@.subrange(0, i + 1)[i as int] == y);
                assert(a@.subrange(0, i as int) =~= a@.subrange(0, i + 1).subrange(0, i as int));
                assert(b@.subrange(0, i as int) =~= b@.subrange(0, i + 1).subrange(0, i as int));
            }
        }
        diff = d;
        i = i + 1;
    }
    assert(a@.subrange(0, a@.len() as int) =~= a@);
    assert(b@.subrange(0, b@.len() as int) =~= b@);
    diff == 0
}

/// Copies a byte string.
pub fn copy_bytes(b: &[u8]) -> (r: Vec<u8>)
    ensures
        r@ == b@,
{
    let mut v: Vec<u8> = Vec::new();
    write_raw(&mut v, b);
    assert(v@ =~= b@);
    v
}

} // verus!

verus! {

pub proof fn lemma_u16_dec_enc(b0: u8, b1: u8)
    ensures
        enc_u16(dec_u16(b0, b1)) == seq![b0, b1],
{
    let x = dec_u16(b0, b1);
    assert(((((b0 as u16) << 8u16) | (b1 as u16)) >> 8u16) as u8 == b0) by (bit_vector);
    assert((((b0 as u16) << 8u16) | (b1 as u16)) as u8 == b1) by (bit_vector);
    assert(enc_u16(x) =~= seq![b0, b1]);
}

pub proof fn lemma_u32_dec_enc(b0: u8, b1: u8, b2: u8, b3: u8)
    ensures
        enc_u32(dec_u32(b0, b1, b2, b3)) == seq![b0, b1, b2, b3],
{
    let x = dec_u32(b0, b1, b2, b3);
    assert((((((b0 as u32) << 24u32) | ((b1 as u32) << 16u32) | ((b2 as u32) << 8u32) | (b3 as u32))
        >> 24u32) as u8) == b0) by (bit_vector);
    assert((((((b0 as u32) << 24u32) | ((b1 as u32) << 16u32) | ((b2 as u32) << 8u32) | (b3 as u32))
        >> 16u32) as u8) == b1) by (bit_vector);
    assert((((((b0 as u32) << 24u32) | ((b1 as u32) << 16u32) | ((b2 as u32) << 8u32) | (b3 as u32))
        >> 8u32) as u8) == b2) by (bit_vector);
    assert(((((b0 as u32) << 24u32) | ((b1 as u32) << 16u32) | ((b2 as u32) << 8u32) | (b3 as u32))
        as u8) == b3) by (bit_vector);
    assert(enc_u32(x) =~= seq![b0, b1, b2, b3]);
}

pub proof fn lemma_u64_split(hi: u32, lo: u32)
    ensures
        ((((hi as u64) << 32u64) | (lo as u64)) >> 32u64) as u32 == hi,
        (((hi as u64) << 32u64) | (lo as u64)) as u32 == lo,
{
    assert(((((hi as u64) << 32u64) | (lo as u64)) >> 32u64) as u32 == hi) by (bit_vector);
    assert((((hi as u64) << 32u64) | (lo as u64)) as u32 == lo) by (bit_vector);
}

/// Reads one byte; what was consumed is its encoding.
pub fn parse_u8(data: &[u8], pos: usize) -> (r: Option<(u8, usize)>)
    ensures
        r matches Some((x, p)) ==> pos <= p <= data@.len() && data@.subrange(pos as int, p as int) == enc_u8(x),
        forall|x: u8| #[trigger] holds_at(data@, pos as int, enc_u8(x)) ==> r == Some((x, (pos + 1) as usize)),
{
    proof {
        assert forall|x: u8| #[trigger] holds_at(data@, pos as int, enc_u8(x)) implies data@[pos as int] == x by {
            lemma_parse_u8_complete(data@, pos as int, x);
        }
    }
    match read_u8(data, pos) {
        Some((x, p)) => {
            assert(data@.subrange(pos as int, p as int) =~= enc_u8(x));
            Some((x, p))
        },
        None => None,
    }
}

pub fn parse_u16(data: &[u8], pos: usize) -> (r: Option<(u16, usize)>)
    ensures
        r matches Some((x, p)) ==> pos <= p <= data@.len() && data@.subrange(pos as int, p as int) == enc_u16(x),
        forall|x: u16| #[trigger] holds_at(data@, pos as int, enc_u16(x)) ==> r == Some((x, (pos + 2) as usize)),
{
    proof {
        assert forall|x: u16| #[trigger] holds_at(data@, pos as int, enc_u16(x)) implies dec_u16(
            data@[pos as int],
            data@[pos + 1],
        ) == x by {
            let s = data@.subrange(pos as int, pos + 2);
            assert(s[0] == data@[pos as int] && s[1] == data@[pos + 1]);
            lemma_u16_enc_dec(x);
        }
    }
    match read_u16(data, pos) {
        Some((x, p)) => {
            proof {
                lemma_u16_dec_enc(data@[pos as int], data@[pos + 1]);
            }
            assert(data@.subrange(pos as int, p as int) =~= enc_u16(x));
            Some((x, p))
        },
        None => None,
    }
}

pub fn parse_u32(data: &[u8], pos: usize) -> (r: Option<(u32, usize)>)
    ensures
        r matches Some((x, p)) ==> pos <= p <= data@.len() && data@.subrange(pos as int, p as int) == enc_u32(x),
        forall|x: u32| #[trigger] holds_at(data@, pos as int, enc_u32(x)) ==> r == Some((x, (pos + 4) as usize)),
{
    proof {
        assert forall|x: u32| #[trigger] holds_at(data@, pos as int, enc_u32(x)) implies dec_u32(
            data@[pos as int],
            data@[pos + 1],
            data@[pos + 2],
            data@[pos + 3],
        ) == x by {
            lemma_parse_u32_complete(data@, pos as int, x);
        }
    }
    match read_u32(data, pos) {
        Some((x, p)) => {
            proof {
                lemma_u32_dec_enc(data@[pos as int], data@[pos + 1], data@[pos + 2], data@[pos + 3]);
            }
            assert(data@.subrange(pos as int, p as int) =~= enc_u32(x));
            Some((x, p))
        },
        None => None,
    }
}

pub fn parse_u64(data: &[u8], pos: usize) -> (r: Option<(u64, usize)>)
    ensures
        r matches Some((x, p)) ==> pos <= p <= data@.len() && data@.subrange(pos as int, p as int) == enc_u64(x),
        forall|x: u64| #[trigger] holds_at(data@, pos as int, enc_u64(x)) ==> r == Some((x, (pos + 8) as usize)),
{
    proof {
        assert forall|x: u64| #[trigger] holds_at(data@, pos as int, enc_u64(x)) implies holds_at(
            data@,
            pos as int,
            enc_u32((x >> 32u64) as u32),
        ) && holds_at(data@, pos + 4, enc_u32(x as u32)) by {
            lemma_holds_split(data@, pos as int, enc_u32((x >> 32u64) as u32), enc_u32(x as u32));
        }
    }
    match parse_u32(data, pos) {
        Some((hi, p)) => match parse_u32(data, p) {
            Some((lo, q)) => {
                let x = ((hi as u64) << 32u64) | (lo as u64);
                proof {
                    lemma_u64_split(hi, lo);
                    assert forall|y: u64| #[trigger] holds_at(data@, pos as int, enc_u64(y)) implies y == x by {
                        lemma_u64_enc_dec(y);
                    }
                }
                assert(data@.subrange(pos as int, q as int) =~= data@.subrange(pos as int, p as int) + data@.subrange(p as int, q as int));
                assert(data@.subrange(pos as int, q as int) =~= enc_u64(x));
                Some((x, q))
            },
            None => None,
        },
        None => None,
    }
}

/// Reads a byte string behind its 32-bit length.
pub fn parse_bytes(data: &[u8], pos: usize) -> (r: Option<(Vec<u8>, usize)>)
    ensures
        r matches Some((v, p)) ==> pos <= p <= data@.len() && v@.len() <= u32::MAX && data@.subrange(pos as int, p as int)
            == enc_bytes(v@),
        forall|b: Seq<u8>| b.len() <= u32::MAX && #[trigger] holds_at(data@, pos as int, enc_bytes(b)) ==> (r matches Some((v, p))
            && v@ == b && p == pos + enc_bytes(b).len()),
{
    proof {
        assert forall|b: Seq<u8>| b.len() <= u32::MAX && #[trigger] holds_at(data@, pos as int, enc_bytes(b)) implies holds_at(
            data@,
            pos as int,
            enc_u32(b.len() as u32),
        ) && holds_at(data@, pos + 4, b) by {
            lemma_holds_split(data@, pos as int, enc_u32(b.len() as u32), b);
        }
    }
    match parse_u32(data, pos) {
        Some((n, p)) => match read_raw(data, p, n as usize) {
            Some((v, q)) => {
                assert(data@.subrange(pos as int, q as int) =~= data@.subrange(pos as int, p as int) + data@.subrange(p as int, q as int));
                assert(data@.subrange(pos as int, q as int) =~= enc_bytes(v@));
                Some((v, q))
            },
            None => None,
        },
        None => None,
    }
}

/// Reads an optional byte string.
pub fn parse_opt_bytes(data: &[u8], pos: usize) -> (r: Option<(Option<Vec<u8>>, usize)>)
    ensures
        r matches Some((v, p)) ==> pos <= p <= data@.len() && (v matches Some(b) ==> b@.len() <= u32::MAX)
            && data@.subrange(pos as int, p as int) == enc_opt_bytes(
            match v {
                Some(b) => Some(b@),
                None => None,
            },
        ),
        forall|o: Option<Seq<u8>>| (o matches Some(b) ==> b.len() <= u32::MAX) && #[trigger] holds_at(data@, pos as int, enc_opt_bytes(o))
            ==> (r matches Some((v, p)) && p == pos + enc_opt_bytes(o).len() && match v {
                Some(b) => Some(b@),
                None => None,
            } == o),
{
    proof {
        assert forall|o: Option<Seq<u8>>| (o matches Some(b) ==> b.len() <= u32::MAX) && #[trigger] holds_at(data@, pos as int, enc_opt_bytes(o))
            implies holds_at(data@, pos as int, enc_u8(if o is Some { 1u8 } else { 0u8 })) && (o matches Some(b) ==> holds_at(data@, pos + 1, enc_bytes(b))) by {
            match o {
                Some(b) => {
                    assert(enc_opt_bytes(o) =~= enc_u8(1u8) + enc_bytes(b));
                    lemma_holds_split(data@, pos as int, enc_u8(1u8), enc_bytes(b));
                },
                None => {
                    assert(enc_opt_bytes(o) =~= enc_u8(0u8));
                },
            }
        }
    }
    match parse_u8(data, pos) {
        Some((0, p)) => {
            assert(data@.subrange(pos as int, p as int) =~= enc_opt_bytes(None));
            Some((None, p))
        },
        Some((1, p)) => match parse_bytes(data, p) {
            Some((b, q)) => {
                assert(data@.subrange(pos as int, q as int) =~= data@.subrange(pos as int, p as int) + data@.subrange(p as int, q as int));
                assert(data@.subrange(pos as int, q as int) =~= enc_opt_bytes(Some(b@)));
                Some((Some(b), q))
            },
            None => None,
        },
        _ => None,
    }
}

/// Splitting a consumed range in two.
pub proof fn lemma_join(data: Seq<u8>, a: int, b: int, c: int)
    requires
        0 <= a <= b <= c <= data.len(),
    ensures
        data.subrange(a, c) == data.subrange(a, b) + data.subrange(b, c),
{
    assert(data.subrange(a, c) =~= data.subrange(a, b) + data.subrange(b, c));
}

} // verus!

verus! {

pub proof fn lemma_u16_enc_dec(x: u16)
    ensures
        dec_u16((x >> 8u16) as u8, x as u8) == x,
{
    assert(((((x >> 8u16) as u8) as u16) << 8u16) | ((x as u8) as u16) == x) by (bit_vector);
}

pub proof fn lemma_u64_enc_dec(x: u64)
    ensures
        ((((x >> 32u64) as u32) as u64) << 32u64) | ((x as u32) as u64) == x,
{
    assert(((((x >> 32u64) as u32) as u64) << 32u64) | ((x as u32) as u64) == x) by (bit_vector);
}

pub proof fn lemma_u32_enc_dec(x: u32)
    ensures
        dec_u32((x >> 24u32) as u8, (x >> 16u32) as u8, (x >> 8u32) as u8, x as u8) == x,
{
    assert(((((x >> 24u32) as u8) as u32) << 24u32) | ((((x >> 16u32) as u8) as u32) << 16u32)
        | ((((x >> 8u32) as u8) as u32) << 8u32) | ((x as u8) as u32) == x) by (bit_vector);
}

/// `data` holds `e` starting at `pos`.
pub open spec fn holds_at(data: Seq<u8>, pos: int, e: Seq<u8>) -> bool {
    0 <= pos && pos + e.len() <= data.len() && data.subrange(pos, pos + e.len()) == e
}

pub proof fn lemma_holds_split(data: Seq<u8>, pos: int, a: Seq<u8>, b: Seq<u8>)
    requires
        holds_at(data, pos, a + b),
    ensures
        holds_at(data, pos, a),
        holds_at(data, pos + a.len(), b),
{
    let whole = data.subrange(pos, pos + (a + b).len());
    assert(whole == a + b);
    assert(data.subrange(pos, pos + a.len()) =~= whole.subrange(0, a.len() as int));
    assert((a + b).subrange(0, a.len() as int) =~= a);
    assert(data.subrange(pos + a.len(), pos + a.len() + b.len()) =~= whole.subrange(a.len() as int, (a + b).len() as int));
    assert((a + b).subrange(a.len() as int, (a + b).len() as int) =~= b);
}

pub proof fn lemma_parse_u8_complete(data: Seq<u8>, pos: int, x: u8)
    requires
        holds_at(data, pos, enc_u8(x)),
    ensures
        data[pos] == x,
{
    assert(data.subrange(pos, pos + 1)[0] == x);
}

pub proof fn lemma_parse_u32_complete(data: Seq<u8>, pos: int, x: u32)
    requires
        holds_at(data, pos, enc_u32(x)),
    ensures
        dec_u32(data[pos], data[pos + 1], data[pos + 2], data[pos + 3]) == x,
{
    let s = data.subrange(pos, pos + 4);
    assert(s[0] == data[pos] && s[1] == data[pos + 1] && s[2] == data[pos + 2] && s[3] == data[pos + 3]);
    lemma_u32_enc_dec(x);
}

} // verus!
