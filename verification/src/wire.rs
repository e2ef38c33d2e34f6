//! The primitives of the graph file: variable-length integers, byte strings and
//! strings, each written after a length, and the compressed frame around the whole.
//!
//! The integer encoding and the compression are not verified. What the library assumes
//! of them is stated here over four names: `varint_bytes` and `varint_parse` for the
//! encoding, `zstd_frame` and `zstd_unframe` for the compression.
use vstd::prelude::*;
use vstd::string::*;
use vstd::utf8::{decode_utf8, encode_utf8, valid_utf8};
use speedy::{Readable, Writable};

verus! {

/// The bytes that stand for `x`.
pub uninterp spec fn varint_bytes(x: u64) -> Seq<u8>;

/// The integer that `bytes` begin with and the number of bytes that it takes; `None`
/// where `bytes` do not begin with an integer.
pub uninterp spec fn varint_parse(bytes: Seq<u8>) -> Option<(u64, nat)>;

/// The compressed frame of `data`.
pub uninterp spec fn zstd_frame(data: Seq<u8>) -> Option<Seq<u8>>;

/// What the compressed frames in `data` hold; `None` where `data` is no sequence of
/// frames.
pub uninterp spec fn zstd_unframe(data: Seq<u8>) -> Option<Seq<u8>>;

/// The bytes that stand for `x`.
///
/// Trusted: wraps `VarInt64::write_to_vec_with_ctx` of speedy, which writes one byte
/// whose leading one bits count the bytes that follow, up to eight, and sizes the
/// buffer to what is written, so that it does not fail. Reading what was written, with
/// anything behind it, gives the integer back and stops behind its last byte.
#[verifier::external_body]
pub(crate) fn varint_encode(x: u64) -> (r: Vec<u8>)
    ensures
        r@ == varint_bytes(x),
        1 <= r@.len() <= 9,
        forall|tail: Seq<u8>| #[trigger] varint_parse(r@ + tail) == Some((x, r@.len())),
{
    speedy::private::VarInt64::from(x).write_to_vec_with_ctx(
        speedy::LittleEndian::default(),
    ).unwrap_or_default()
}

/// The integer that `bytes` hold at `pos` and the number of bytes that it takes.
///
/// Trusted: wraps `VarInt64::read_with_length_from_buffer_with_ctx` of speedy on the
/// bytes from `pos` on, which reads one byte and then as many as its leading one bits
/// say, and fails where the buffer ends before that.
#[verifier::external_body]
pub(crate) fn varint_decode(bytes: &Vec<u8>, pos: usize) -> (r: Option<(u64, usize)>)
    requires
        pos <= bytes@.len(),
    ensures
        match (r, varint_parse(bytes@.skip(pos as int))) {
            (Some(p), Some(q)) => p.0 == q.0 && p.1 == q.1,
            (None, None) => true,
            _ => false,
        },
        match r {
            Some(p) => 1 <= p.1 <= 9 && pos + p.1 <= bytes@.len(),
            None => true,
        },
{
    match speedy::private::VarInt64::read_with_length_from_buffer_with_ctx(
        speedy::LittleEndian::default(),
        &bytes[pos..],
    ) {
        (Ok(v), n) => Some((u64::from(v), n)),
        (Err(_), _) => None,
    }
}

/// The string that `bytes` encode.
///
/// Trusted: wraps `String::from_utf8`, which the standard library documents as
/// failing exactly where the bytes are not valid UTF-8.
#[verifier::external_body]
pub(crate) fn string_from_utf8(bytes: Vec<u8>) -> (r: Option<String>)
    ensures
        match r {
            Some(s) => valid_utf8(bytes@) && s@ == decode_utf8(bytes@),
            None => !valid_utf8(bytes@),
        },
{
    String::from_utf8(bytes).ok()
}

/// The compressed frame of `data`.
///
/// Trusted: wraps `zstd::encode_all` at level 0, zstd's default level. What it returns
/// is one frame, from which `zstd::decode_all` gives `data` back.
#[verifier::external_body]
pub(crate) fn zstd_compress(data: &Vec<u8>) -> (r: Option<Vec<u8>>)
    ensures
        match (r, zstd_frame(data@)) {
            (Some(c), Some(f)) => c@ == f && zstd_unframe(f) == Some(data@),
            (None, None) => true,
            _ => false,
        },
{
    zstd::encode_all(data.as_slice(), 0).ok()
}

/// What the compressed frames in `data` hold.
///
/// Trusted: wraps `zstd::decode_all`, which fails where `data` is not in the frame
/// format.
#[verifier::external_body]
pub(crate) fn zstd_decompress(data: &Vec<u8>) -> (r: Option<Vec<u8>>)
    ensures
        match (r, zstd_unframe(data@)) {
            (Some(d), Some(u)) => d@ == u,
            (None, None) => true,
            _ => false,
        },
{
    zstd::decode_all(data.as_slice()).ok()
}

/// A byte string after its length.
pub open spec fn bytes_field(b: Seq<u8>) -> Seq<u8> {
    varint_bytes(b.len() as u64) + b
}

/// A string after the length of its encoding.
pub open spec fn str_field(s: Seq<char>) -> Seq<u8> {
    bytes_field(encode_utf8(s))
}

/// The integers one after the other.
pub open spec fn nums_bytes(v: Seq<u64>) -> Seq<u8>
    decreases v.len(),
{
    if v.len() == 0 {
        Seq::<u8>::empty()
    } else {
        nums_bytes(v.drop_last()) + varint_bytes(v.last())
    }
}

/// The integers after their number.
pub open spec fn counted_nums(v: Seq<u64>) -> Seq<u8> {
    varint_bytes(v.len() as u64) + nums_bytes(v)
}

/// The integer at `pos` and the position behind it.
pub open spec fn read_num(bytes: Seq<u8>, pos: int) -> Option<(u64, int)> {
    if 0 <= pos <= bytes.len() {
        match varint_parse(bytes.skip(pos)) {
            Some(p) => Some((p.0, pos + p.1)),
            None => None,
        }
    } else {
        None
    }
}

/// The byte string at `pos` and the position behind it.
pub open spec fn read_bytes(bytes: Seq<u8>, pos: int) -> Option<(Seq<u8>, int)> {
    match read_num(bytes, pos) {
        Some(p) => if p.1 + p.0 <= bytes.len() {
            Some((bytes.subrange(p.1, p.1 + p.0), p.1 + p.0))
        } else {
            None
        },
        None => None,
    }
}

/// The string at `pos` and the position behind it.
pub open spec fn read_str(bytes: Seq<u8>, pos: int) -> Option<(Seq<char>, int)> {
    match read_bytes(bytes, pos) {
        Some(p) => if valid_utf8(p.0) {
            Some((decode_utf8(p.0), p.1))
        } else {
            None
        },
        None => None,
    }
}

/// The `count` integers at `pos` and the position behind them.
pub open spec fn read_nums(bytes: Seq<u8>, pos: int, count: nat) -> Option<(Seq<u64>, int)>
    decreases count,
{
    if count == 0 {
        Some((Seq::<u64>::empty(), pos))
    } else {
        match read_nums(bytes, pos, (count - 1) as nat) {
            Some(p) => match read_num(bytes, p.1) {
                Some(q) => Some((p.0.push(q.0), q.1)),
                None => None,
            },
            None => None,
        }
    }
}

/// The counted integers at `pos` and the position behind them.
pub open spec fn read_counted_nums(bytes: Seq<u8>, pos: int) -> Option<(Seq<u64>, int)> {
    match read_num(bytes, pos) {
        Some(p) => if p.0 <= bytes.len() - p.1 {
            read_nums(bytes, p.1, p.0 as nat)
        } else {
            None
        },
        None => None,
    }
}

/// The numbers as they are written.
pub open spec fn widened(v: Seq<usize>) -> Seq<u64> {
    v.map_values(|x: usize| x as u64)
}

/// The module ids as they are written.
pub open spec fn widened_refs(v: Seq<u32>) -> Seq<u64> {
    v.map_values(|x: u32| x as u64)
}

/// Whatever follows `bytes`, the integer read at `pos` is `x`, and it ends where
/// `bytes` end.
pub open spec fn num_reads_back(bytes: Seq<u8>, pos: int, x: u64) -> bool {
    forall|tail: Seq<u8>| #[trigger] read_num(bytes + tail, pos) == Some((x, bytes.len() as int))
}

/// Whatever follows `bytes`, the string read at `pos` is `s`, and it ends where `bytes`
/// end.
pub open spec fn str_reads_back(bytes: Seq<u8>, pos: int, s: Seq<char>) -> bool {
    forall|tail: Seq<u8>| #[trigger] read_str(bytes + tail, pos) == Some((s, bytes.len() as int))
}

/// Whatever follows `bytes`, the `count` integers read at `pos` are `v`, and they end
/// where `bytes` end.
pub open spec fn nums_read_back(bytes: Seq<u8>, pos: int, count: nat, v: Seq<u64>) -> bool {
    forall|tail: Seq<u8>| #[trigger]
        read_nums(bytes + tail, pos, count) == Some((v, bytes.len() as int))
}

/// Whatever follows `bytes`, the counted integers read at `pos` are `v`, and they end
/// where `bytes` end.
pub open spec fn counted_read_back(bytes: Seq<u8>, pos: int, v: Seq<u64>) -> bool {
    forall|tail: Seq<u8>| #[trigger]
        read_counted_nums(bytes + tail, pos) == Some((v, bytes.len() as int))
}

/// Appends the bytes that stand for `x`.
pub fn put_num(out: &mut Vec<u8>, x: u64)
    ensures
        final(out)@ == old(out)@ + varint_bytes(x),
        final(out)@.len() > old(out)@.len(),
        num_reads_back(final(out)@, old(out)@.len() as int, x),
{
    let v = varint_encode(x);
    put_raw(out, &v);
    proof {
        assert forall|tail: Seq<u8>| #[trigger]
            read_num(out@ + tail, old(out)@.len() as int) == Some((x, out@.len() as int)) by {
            assert((out@ + tail).skip(old(out)@.len() as int) =~= v@ + tail);
        }
    }
}

/// Appends `b`.
pub fn put_raw(out: &mut Vec<u8>, b: &Vec<u8>)
    ensures
        final(out)@ == old(out)@ + b@,
{
    let mut i: usize = 0;
    assert(out@ =~= old(out)@ + b@.take(0));
    while i < b.len()
        invariant
            i <= b@.len(),
            out@ == old(out)@ + b@.take(i as int),
        decreases b@.len() - i,
    {
        out.push(b[i]);
        assert(out@ =~= old(out)@ + b@.take(i + 1));
        i += 1;
    }
    assert(b@.take(b@.len() as int) =~= b@);
}

/// Appends `s` after the length of its encoding.
pub fn put_str(out: &mut Vec<u8>, s: &str)
    ensures
        final(out)@ == old(out)@ + str_field(s@),
        final(out)@.len() > old(out)@.len(),
        str_reads_back(final(out)@, old(out)@.len() as int, s@),
{
    let b = s.as_bytes_vec();
    put_num(out, b.len() as u64);
    let ghost mid = out@;
    put_raw(out, &b);
    proof {
        assert(out@ =~= old(out)@ + str_field(s@));
        vstd::utf8::encode_utf8_valid_utf8(s@);
        vstd::utf8::encode_utf8_decode_utf8(s@);
        assert forall|tail: Seq<u8>| #[trigger]
            read_str(out@ + tail, old(out)@.len() as int) == Some((s@, out@.len() as int)) by {
            let all = out@ + tail;
            assert(all =~= mid + (b@ + tail));
            assert(read_num(mid + (b@ + tail), old(out)@.len() as int) == Some(
                (b@.len() as u64, mid.len() as int),
            ));
            assert(all.subrange(mid.len() as int, mid.len() as int + b@.len() as int) =~= b@);
        }
    }
}

/// Appends the numbers after their count.
pub fn put_nums(out: &mut Vec<u8>, v: &Vec<usize>)
    ensures
        final(out)@ == old(out)@ + counted_nums(widened(v@)),
        final(out)@.len() > old(out)@.len(),
        counted_read_back(final(out)@, old(out)@.len() as int, widened(v@)),
{
    let ghost w = widened(v@);
    put_num(out, v.len() as u64);
    let ghost base = out@;
    let mut i: usize = 0;
    proof {
        assert(out@ =~= base + nums_bytes(w.take(0)));
        assert(w.take(0) =~= Seq::<u64>::empty());
    }
    while i < v.len()
        invariant
            i <= v@.len(),
            w == widened(v@),
            out@ == base + nums_bytes(w.take(i as int)),
            out@.len() >= base.len() + i,
            nums_read_back(out@, base.len() as int, i as nat, w.take(i as int)),
        decreases v@.len() - i,
    {
        let ghost before = out@;
        put_num(out, v[i] as u64);
        proof {
            assert(w.take(i + 1).drop_last() =~= w.take(i as int));
            assert(out@ =~= base + nums_bytes(w.take(i + 1)));
            assert(out@.take(before.len() as int) =~= before);
            lemma_nums_extend(
                before,
                out@,
                base.len() as int,
                i as nat,
                w.take(i as int),
                w[i as int],
            );
            assert(w.take(i + 1) =~= w.take(i as int).push(w[i as int]));
        }
        i += 1;
    }
    proof {
        assert(w.take(v@.len() as int) =~= w);
        assert(out@ =~= old(out)@ + counted_nums(w));
        assert(out@.take(base.len() as int) =~= base);
        lemma_counted(old(out)@, base, out@, w);
    }
}

/// Appends the module ids after their count.
pub fn put_refs(out: &mut Vec<u8>, v: &Vec<u32>)
    ensures
        final(out)@ == old(out)@ + counted_nums(widened_refs(v@)),
        final(out)@.len() > old(out)@.len(),
        counted_read_back(final(out)@, old(out)@.len() as int, widened_refs(v@)),
{
    let ghost w = widened_refs(v@);
    put_num(out, v.len() as u64);
    let ghost base = out@;
    let mut i: usize = 0;
    proof {
        assert(out@ =~= base + nums_bytes(w.take(0)));
        assert(w.take(0) =~= Seq::<u64>::empty());
    }
    while i < v.len()
        invariant
            i <= v@.len(),
            w == widened_refs(v@),
            out@ == base + nums_bytes(w.take(i as int)),
            out@.len() >= base.len() + i,
            nums_read_back(out@, base.len() as int, i as nat, w.take(i as int)),
        decreases v@.len() - i,
    {
        let ghost before = out@;
        put_num(out, v[i] as u64);
        proof {
            assert(w.take(i + 1).drop_last() =~= w.take(i as int));
            assert(out@ =~= base + nums_bytes(w.take(i + 1)));
            assert(out@.take(before.len() as int) =~= before);
            lemma_nums_extend(
                before,
                out@,
                base.len() as int,
                i as nat,
                w.take(i as int),
                w[i as int],
            );
            assert(w.take(i + 1) =~= w.take(i as int).push(w[i as int]));
        }
        i += 1;
    }
    proof {
        assert(w.take(v@.len() as int) =~= w);
        assert(out@ =~= old(out)@ + counted_nums(w));
        assert(out@.take(base.len() as int) =~= base);
        lemma_counted(old(out)@, base, out@, w);
    }
}

/// One more integer written behind `count` integers that read back reads back with
/// them.
pub proof fn lemma_nums_extend(
    before: Seq<u8>,
    after: Seq<u8>,
    pos: int,
    count: nat,
    v: Seq<u64>,
    x: u64,
)
    requires
        nums_read_back(before, pos, count, v),
        num_reads_back(after, before.len() as int, x),
        before.len() <= after.len(),
        after.take(before.len() as int) == before,
    ensures
        nums_read_back(after, pos, count + 1, v.push(x)),
{
    assert forall|tail: Seq<u8>| #[trigger]
        read_nums(after + tail, pos, count + 1) == Some((v.push(x), after.len() as int)) by {
        let rest = after.skip(before.len() as int) + tail;
        assert(after + tail =~= before + rest);
        assert(read_nums(before + rest, pos, count) == Some((v, before.len() as int)));
        assert(read_num(after + tail, before.len() as int) == Some((x, after.len() as int)));
    }
}

/// Integers that read back behind their count read back as counted integers.
pub proof fn lemma_counted(start: Seq<u8>, base: Seq<u8>, all: Seq<u8>, v: Seq<u64>)
    requires
        num_reads_back(base, start.len() as int, v.len() as u64),
        nums_read_back(all, base.len() as int, v.len(), v),
        base.len() <= all.len(),
        all.take(base.len() as int) == base,
        all.len() >= base.len() + v.len(),
        v.len() <= u64::MAX,
    ensures
        counted_read_back(all, start.len() as int, v),
{
    assert forall|tail: Seq<u8>| #[trigger]
        read_counted_nums(all + tail, start.len() as int) == Some((v, all.len() as int)) by {
        let rest = all.skip(base.len() as int) + tail;
        assert(all + tail =~= base + rest);
        assert(read_num(base + rest, start.len() as int) == Some(
            (v.len() as u64, base.len() as int),
        ));
        assert(read_nums(all + tail, base.len() as int, v.len()) == Some((v, all.len() as int)));
    }
}

/// The integer at `pos` and the position behind it.
pub fn get_num(bytes: &Vec<u8>, pos: usize) -> (r: Option<(u64, usize)>)
    requires
        pos <= bytes@.len(),
    ensures
        match (r, read_num(bytes@, pos as int)) {
            (Some(p), Some(q)) => p.0 == q.0 && p.1 == q.1 && p.1 <= bytes@.len(),
            (None, None) => true,
            _ => false,
        },
{
    let total = bytes.len();
    match varint_decode(bytes, pos) {
        Some(p) => Some((p.0, pos + p.1)),
        None => None,
    }
}

/// The length at `pos`, as far as it can be one, and the position behind it.
pub fn get_len(bytes: &Vec<u8>, pos: usize) -> (r: Option<(usize, usize)>)
    requires
        pos <= bytes@.len(),
    ensures
        match (r, read_num(bytes@, pos as int)) {
            (Some(p), Some(q)) => p.0 == q.0 && p.1 == q.1 && p.1 <= bytes@.len(),
            (None, Some(q)) => q.0 > usize::MAX,
            (None, None) => true,
            _ => false,
        },
{
    match get_num(bytes, pos) {
        Some(p) => {
            if p.0 > usize::MAX as u64 {
                None
            } else {
                Some((p.0 as usize, p.1))
            }
        },
        None => None,
    }
}

/// The string at `pos` and the position behind it.
pub fn get_str(bytes: &Vec<u8>, pos: usize) -> (r: Option<(String, usize)>)
    requires
        pos <= bytes@.len(),
    ensures
        match (r, read_str(bytes@, pos as int)) {
            (Some(p), Some(q)) => p.0@ == q.0 && p.1 == q.1 && p.1 <= bytes@.len(),
            (None, None) => true,
            _ => false,
        },
{
    let total = bytes.len();
    let (n, start) = match get_len(bytes, pos) {
        Some(p) => p,
        None => {
            return None;
        },
    };
    if n > bytes.len() - start {
        return None;
    }
    let mut raw: Vec<u8> = Vec::new();
    let mut i: usize = 0;
    while i < n
        invariant
            i <= n,
            start + n <= bytes@.len(),
            bytes@.len() == total,
            raw@ == bytes@.subrange(start as int, start + i),
        decreases n - i,
    {
        raw.push(bytes[start + i]);
        assert(raw@ =~= bytes@.subrange(start as int, start + i + 1));
        i += 1;
    }
    match string_from_utf8(raw) {
        Some(s) => Some((s, start + n)),
        None => None,
    }
}

/// Where the first `k` integers cannot be read, no more can.
pub proof fn lemma_read_nums_fails(bytes: Seq<u8>, pos: int, k: nat, count: nat)
    requires
        k <= count,
        read_nums(bytes, pos, k) is None,
    ensures
        read_nums(bytes, pos, count) is None,
    decreases count - k,
{
    if k < count {
        lemma_read_nums_fails(bytes, pos, k, (count - 1) as nat);
    }
}

/// The `count` integers at `pos` and the position behind them.
pub fn get_nums(bytes: &Vec<u8>, pos: usize, count: usize) -> (r: Option<(Vec<u64>, usize)>)
    requires
        pos <= bytes@.len(),
    ensures
        match (r, read_nums(bytes@, pos as int, count as nat)) {
            (Some(p), Some(q)) => p.0@ == q.0 && p.1 == q.1 && p.1 <= bytes@.len(),
            (None, None) => true,
            _ => false,
        },
{
    let mut out: Vec<u64> = Vec::new();
    let mut at: usize = pos;
    let mut i: usize = 0;
    while i < count
        invariant
            i <= count,
            at <= bytes@.len(),
            read_nums(bytes@, pos as int, i as nat) == Some((out@, at as int)),
        decreases count - i,
    {
        match get_num(bytes, at) {
            None => {
                proof {
                    assert(read_nums(bytes@, pos as int, (i + 1) as nat) is None);
                    lemma_read_nums_fails(bytes@, pos as int, (i + 1) as nat, count as nat);
                }
                return None;
            },
            Some(p) => {
                out.push(p.0);
                at = p.1;
            },
        }
        i += 1;
    }
    Some((out, at))
}

/// The counted integers at `pos` and the position behind them.
pub fn get_counted_nums(bytes: &Vec<u8>, pos: usize) -> (r: Option<(Vec<u64>, usize)>)
    requires
        pos <= bytes@.len(),
    ensures
        match (r, read_counted_nums(bytes@, pos as int)) {
            (Some(p), Some(q)) => p.0@ == q.0 && p.1 == q.1 && p.1 <= bytes@.len(),
            (None, None) => true,
            _ => false,
        },
{
    let total = bytes.len();
    match get_len(bytes, pos) {
        None => None,
        Some(p) => {
            if p.0 > total - p.1 {
                None
            } else {
                get_nums(bytes, p.1, p.0)
            }
        },
    }
}

} // verus!
