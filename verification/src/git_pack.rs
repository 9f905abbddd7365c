//! Pack decoding: the `PACK` header and trailing checksum, per-record
//! type-and-size headers, zlib-compressed payloads, and reference-delta
//! reconstruction.
use vstd::prelude::*;

use crate::errors::GitError;
use crate::git_object::{
    frame_spec, is_loose_kind, object_header_parsed, resolves_to, write_blob, write_commit,
    write_object, write_tree, ObjectType, Store,
};
use crate::hashing::{hash_data, sha1_of, to_hex};
use crate::reader_utils::{read_byte, read_n_bytes, ByteReader};
use crate::zlib::{decompress_at, inflate_of};

verus! {

/// 128 to the power `i`.
pub open spec fn pow128(i: nat) -> nat
    decreases i,
{
    if i == 0 {
        1
    } else {
        128 * pow128((i - 1) as nat)
    }
}

/// The value of little-endian base-128 groups: the low seven bits of
/// each byte, the first byte least significant.
pub open spec fn le7_val(bytes: Seq<u8>) -> nat
    decreases bytes.len(),
{
    if bytes.len() == 0 {
        0
    } else {
        (bytes[0] & 0x7f) as nat + 128 * le7_val(bytes.drop_first())
    }
}

/// Where the variable-length run that starts at `at` ends: one past its
/// last byte (the first with a clear continuation bit), or one past the
/// end of `s` if it never terminates.
pub open spec fn varint_end(s: Seq<u8>, at: int) -> int
    decreases s.len() - at,
{
    if !(0 <= at < s.len()) {
        s.len() as int + 1
    } else if s[at] & 0x80 == 0 {
        at + 1
    } else {
        varint_end(s, at + 1)
    }
}

/// A scanned continuation run pins down `varint_end`.
proof fn lemma_varint_end_at(s: Seq<u8>, at: int, end: int)
    requires
        0 <= at < end <= s.len(),
        s[end - 1] & 0x80 == 0,
        forall|j: int| at <= j < end - 1 ==> s[j] & 0x80 != 0,
    ensures
        varint_end(s, at) == end,
    decreases end - at,
{
    if at < end - 1 {
        lemma_varint_end_at(s, at + 1, end);
    }
}

/// A run never ends before the byte after its start.
proof fn lemma_varint_end_ge(s: Seq<u8>, at: int)
    requires
        at <= s.len(),
    ensures
        varint_end(s, at) >= at + 1,
    decreases s.len() - at,
{
    if 0 <= at < s.len() && s[at] & 0x80 != 0 {
        lemma_varint_end_ge(s, at + 1);
    }
}

/// A run of continuation bytes leaves `varint_end` past them.
proof fn lemma_varint_unterminated(s: Seq<u8>, at: int, upto: int)
    requires
        0 <= at <= upto <= s.len(),
        forall|j: int| at <= j < upto ==> s[j] & 0x80 != 0,
    ensures
        varint_end(s, at) >= upto + 1,
    decreases upto - at,
{
    if at < upto {
        lemma_varint_unterminated(s, at + 1, upto);
    } else {
        lemma_varint_end_ge(s, at);
    }
}

/// `le7_val` over one more byte adds that byte's group at the next
/// position's weight.
proof fn lemma_le7_push(bytes: Seq<u8>, b: u8)
    ensures
        le7_val(bytes.push(b)) == le7_val(bytes) + (b & 0x7f) * pow128(bytes.len()),
    decreases bytes.len(),
{
    if bytes.len() == 0 {
        assert(bytes.push(b)[0] == b);
        assert(bytes.push(b).drop_first() =~= Seq::<u8>::empty());
        assert(le7_val(Seq::<u8>::empty()) == 0);
        assert(pow128(0) == 1);
    } else {
        assert(bytes.push(b)[0] == bytes[0]);
        assert(bytes.push(b).drop_first() =~= bytes.drop_first().push(b));
        lemma_le7_push(bytes.drop_first(), b);
        assert(le7_val(bytes.push(b)) == (bytes[0] & 0x7f) as nat + 128 * (le7_val(
            bytes.drop_first(),
        ) + (b & 0x7f) * pow128((bytes.len() - 1) as nat)));
        assert(128 * ((b & 0x7f) * pow128((bytes.len() - 1) as nat)) == (b & 0x7f) * pow128(
            bytes.len(),
        )) by (nonlinear_arith)
            requires
                pow128(bytes.len()) == 128 * pow128((bytes.len() - 1) as nat),
        ;
    }
}

/// Ten base-128 groups stay comfortably inside a `u128`.
proof fn lemma_pow128_ten()
    ensures
        pow128(10) == 0x400000000000000000,
{
    assert(pow128(0) == 1);
    assert(pow128(1) == 128);
    assert(pow128(2) == 0x4000);
    assert(pow128(3) == 0x200000);
    assert(pow128(4) == 0x10000000);
    assert(pow128(5) == 0x800000000);
    assert(pow128(6) == 0x40000000000);
    assert(pow128(7) == 0x2000000000000);
    assert(pow128(8) == 0x100000000000000);
    assert(pow128(9) == 0x8000000000000000);
    assert(pow128(10) == 0x400000000000000000);
}

/// Weights grow with the exponent.
proof fn lemma_pow128_le(i: nat, j: nat)
    requires
        i <= j,
    ensures
        pow128(i) <= pow128(j),
    decreases j,
{
    if i < j {
        lemma_pow128_le(i, (j - 1) as nat);
        assert(pow128(j) == 128 * pow128((j - 1) as nat));
    }
}

/// Reads a variable-length size: little-endian seven-bit groups, the
/// continuation bit on every byte but the last. At most ten bytes are
/// accepted and the value must fit a `usize`.
#[verifier::loop_isolation(false)]
#[verifier::rlimit(100)]
pub fn read_size(reader: &mut ByteReader) -> (r: Result<usize, GitError>)
    ensures
        final(reader).data == old(reader).data,
        ({
            let data = old(reader).data@;
            let at = old(reader).pos as int;
            let end = varint_end(data, at);
            match r {
                Ok(v) => {
                    &&& end <= data.len()
                    &&& end - at <= 10
                    &&& v == le7_val(data.subrange(at, end))
                    &&& final(reader).pos == end
                },
                Err(e) => {
                    &&& e == GitError::Io || e == GitError::Decode
                    &&& e == GitError::Io ==> end > data.len()
                    &&& e == GitError::Decode ==> end - at > 10 || (end <= data.len() && le7_val(
                        data.subrange(at, end),
                    ) > usize::MAX)
                },
            }
        }),
{
    let ghost data = reader.data@;
    if reader.pos > reader.data.len() {
        return Err(GitError::Io);
    }
    let start = reader.pos;
    let mut acc: u128 = 0;
    let mut mult: u128 = 1;
    let mut i: usize = 0;
    proof {
        lemma_pow128_ten();
        assert(data.subrange(start as int, start as int) =~= Seq::<u8>::empty());
    }
    loop
        invariant
            reader.data == old(reader).data,
            reader.data@ == data,
            reader.pos == start + i,
            i <= 10,
            start + i <= data.len(),
            mult == pow128(i as nat),
            acc == le7_val(data.subrange(start as int, start + i)),
            acc < mult,
            forall|j: int| start <= j < start + i ==> data[j] & 0x80 != 0,
        decreases 10 - i,
    {
        if i == 10 {
            proof {
                lemma_varint_unterminated(data, start as int, start + 10);
            }
            return Err(GitError::Decode);
        }
        let b = match read_byte(reader) {
            Ok(b) => b,
            Err(_) => {
                proof {
                    lemma_varint_unterminated(data, start as int, start + i);
                }
                return Err(GitError::Io);
            },
        };
        let low: u128 = (b & 0x7f) as u128;
        proof {
            assert((b & 0x7f) < 128) by (bit_vector);
            lemma_pow128_le((i + 1) as nat, 10);
            assert(data.subrange(start as int, start + i + 1) =~= data.subrange(
                start as int,
                start + i,
            ).push(b));
            lemma_le7_push(data.subrange(start as int, start + i), b);
            assert(acc + low * mult < 128 * mult) by (nonlinear_arith)
                requires
                    acc < mult,
                    low < 128,
                    mult > 0,
            ;
            assert(128 * mult == pow128((i + 1) as nat));
        }
        acc = acc + low * mult;
        if b & 0x80 == 0 {
            proof {
                lemma_varint_end_at(data, start as int, start + i + 1);
            }
            if acc > usize::MAX as u128 {
                return Err(GitError::Decode);
            }
            return Ok(acc as usize);
        }
        mult = mult * 128;
        i = i + 1;
    }
}

/// The type code of a pack record's first header byte.
pub open spec fn pack_type_code(b: u8) -> u8 {
    (b >> 4) & 7
}

/// The size a pack record header declares: the low four bits of the
/// first byte, then seven-bit groups at weights 16, 2048, and so on.
pub open spec fn pack_header_val(bytes: Seq<u8>) -> nat {
    (bytes[0] & 0x0f) as nat + 16 * le7_val(bytes.drop_first())
}

/// The record kind a type code names, if any.
pub open spec fn kind_of_code(c: u8) -> Option<ObjectType> {
    if c == 1 {
        Some(ObjectType::Commit)
    } else if c == 2 {
        Some(ObjectType::Tree)
    } else if c == 3 {
        Some(ObjectType::Blob)
    } else if c == 4 {
        Some(ObjectType::Tag)
    } else if c == 6 {
        Some(ObjectType::OfsDelta)
    } else if c == 7 {
        Some(ObjectType::RefDelta)
    } else {
        None
    }
}

/// Reads a pack record's type-and-size header: the first byte holds the
/// type code and four size bits, continuation bytes extend the size in
/// seven-bit groups.
#[verifier::loop_isolation(false)]
#[verifier::rlimit(100)]
pub fn read_type_and_size(reader: &mut ByteReader) -> (r: Result<(ObjectType, usize), GitError>)
    ensures
        final(reader).data == old(reader).data,
        ({
            let data = old(reader).data@;
            let at = old(reader).pos as int;
            let end = varint_end(data, at);
            match r {
                Ok(p) => {
                    &&& at < data.len()
                    &&& kind_of_code(pack_type_code(data[at])) == Some(p.0)
                    &&& end <= data.len()
                    &&& end - at <= 11
                    &&& p.1 == pack_header_val(data.subrange(at, end))
                    &&& final(reader).pos == end
                },
                Err(e) => {
                    &&& e == GitError::Io || e == GitError::Decode
                    &&& e == GitError::Io ==> end > data.len()
                    &&& e == GitError::Decode ==> at < data.len() && (kind_of_code(
                        pack_type_code(data[at]),
                    ) is None || end - at > 11 || (end <= data.len() && pack_header_val(
                        data.subrange(at, end),
                    ) > usize::MAX))
                },
            }
        }),
        r is Ok <==> ({
            let data = old(reader).data@;
            let at = old(reader).pos as int;
            let end = varint_end(data, at);
            &&& at < data.len()
            &&& kind_of_code(pack_type_code(data[at])) is Some
            &&& end <= data.len()
            &&& end - at <= 11
            &&& pack_header_val(data.subrange(at, end)) <= usize::MAX
        }),
{
    let ghost data = reader.data@;
    let start = reader.pos;
    let first = match read_byte(reader) {
        Ok(b) => b,
        Err(e) => {
            return Err(e);
        },
    };
    let code: u8 = (first >> 4) & 7;
    let o_type = if code == 1 {
        ObjectType::Commit
    } else if code == 2 {
        ObjectType::Tree
    } else if code == 3 {
        ObjectType::Blob
    } else if code == 4 {
        ObjectType::Tag
    } else if code == 6 {
        ObjectType::OfsDelta
    } else if code == 7 {
        ObjectType::RefDelta
    } else {
        proof {
            assert(kind_of_code(pack_type_code(data[start as int])) is None);
        }
        return Err(GitError::Decode);
    };
    let low4: u128 = (first & 0x0f) as u128;
    if first & 0x80 == 0 {
        proof {
            lemma_varint_end_at(data, start as int, start as int + 1);
            assert(data.subrange(start as int, start as int + 1).drop_first() =~= Seq::<
                u8,
            >::empty());
            assert(le7_val(Seq::<u8>::empty()) == 0);
            assert(data.subrange(start as int, start as int + 1)[0] == first);
            assert((first & 0x0f) < 16) by (bit_vector);
        }
        return Ok((o_type, (first & 0x0f) as usize));
    }
    let ghost tail_start = reader.pos as int;
    let rest = match read_size(reader) {
        Ok(v) => v,
        Err(e) => {
            proof {
                assert(varint_end(data, start as int) == varint_end(data, tail_start));
                if e == GitError::Decode {
                    let end = varint_end(data, start as int);
                    if !(end - tail_start > 10) {
                        lemma_varint_end_ge(data, tail_start);
                        assert(data.subrange(start as int, end).drop_first() =~= data.subrange(
                            tail_start,
                            end,
                        ));
                        assert(data.subrange(start as int, end)[0] == first);
                        assert((first & 0x0f) < 16) by (bit_vector);
                        assert(pack_header_val(data.subrange(start as int, end)) > usize::MAX);
                    }
                }
            }
            return Err(e);
        },
    };
    proof {
        assert(varint_end(data, start as int) == varint_end(data, tail_start));
    }
    if rest > (usize::MAX - 15) / 16 {
        proof {
            let end = varint_end(data, start as int);
            vstd::arithmetic::div_mod::lemma_fundamental_div_mod((usize::MAX - 15) as int, 16);
            lemma_varint_end_ge(data, tail_start);
            assert(data.subrange(start as int, end).drop_first() =~= data.subrange(
                tail_start,
                end,
            ));
            assert(data.subrange(start as int, end)[0] == first);
            assert(16 * rest > usize::MAX - 15);
            assert(pack_header_val(data.subrange(start as int, end)) > usize::MAX);
        }
        return Err(GitError::Decode);
    }
    proof {
        vstd::arithmetic::div_mod::lemma_fundamental_div_mod((usize::MAX - 15) as int, 16);
        assert(16 * rest <= usize::MAX - 15);
        assert((first & 0x0f) < 16) by (bit_vector);
    }
    let size: usize = (first & 0x0f) as usize + 16 * rest;
    proof {
        let end = varint_end(data, start as int);
        lemma_varint_end_ge(data, tail_start);
        assert(end >= tail_start + 1);
        assert(data.subrange(start as int, end).drop_first() =~= data.subrange(tail_start, end));
        assert(data.subrange(start as int, end)[0] == first);
        assert(size == pack_header_val(data.subrange(start as int, end)));
    }
    Ok((o_type, size))
}

/// How many offset bytes a copy instruction carries: one per set bit
/// among the low four.
pub open spec fn copy_off_len(c: u8) -> int {
    (if c & 1 != 0 {
        1int
    } else {
        0int
    }) + (if c & 2 != 0 {
        1int
    } else {
        0int
    }) + (if c & 4 != 0 {
        1int
    } else {
        0int
    }) + (if c & 8 != 0 {
        1int
    } else {
        0int
    })
}

/// How many size bytes a copy instruction carries: one per set bit
/// among bits four to six.
pub open spec fn copy_size_len(c: u8) -> int {
    (if c & 16 != 0 {
        1int
    } else {
        0int
    }) + (if c & 32 != 0 {
        1int
    } else {
        0int
    }) + (if c & 64 != 0 {
        1int
    } else {
        0int
    })
}

/// The source offset of a copy instruction: little-endian bytes, one per
/// set bit among the low four, missing bytes zero.
pub open spec fn copy_offset(c: u8, ops: Seq<u8>) -> int {
    let i0 = 1int;
    let i1 = i0 + (if c & 1 != 0 {
        1int
    } else {
        0int
    });
    let i2 = i1 + (if c & 2 != 0 {
        1int
    } else {
        0int
    });
    let i3 = i2 + (if c & 4 != 0 {
        1int
    } else {
        0int
    });
    (if c & 1 != 0 {
        ops[i0] as int
    } else {
        0int
    }) + (if c & 2 != 0 {
        ops[i1] as int * 0x100
    } else {
        0int
    }) + (if c & 4 != 0 {
        ops[i2] as int * 0x10000
    } else {
        0int
    }) + (if c & 8 != 0 {
        ops[i3] as int * 0x1000000
    } else {
        0int
    })
}

/// The length of a copy instruction: little-endian bytes, one per set
/// bit among bits four to six, missing bytes zero.
pub open spec fn copy_size(c: u8, ops: Seq<u8>) -> int {
    let j0 = 1 + copy_off_len(c);
    let j1 = j0 + (if c & 16 != 0 {
        1int
    } else {
        0int
    });
    let j2 = j1 + (if c & 32 != 0 {
        1int
    } else {
        0int
    });
    (if c & 16 != 0 {
        ops[j0] as int
    } else {
        0int
    }) + (if c & 32 != 0 {
        ops[j1] as int * 0x100
    } else {
        0int
    }) + (if c & 64 != 0 {
        ops[j2] as int * 0x10000
    } else {
        0int
    })
}

/// Replays a delta instruction stream against a source: an instruction
/// with a clear top bit inserts its low seven bits' worth of following
/// bytes; one with the top bit set copies `copy_size` source bytes from
/// `copy_offset`. Yields `None` when the stream is truncated or a copy
/// leaves the source.
pub open spec fn delta_run(src: Seq<u8>, ops: Seq<u8>) -> Option<Seq<u8>>
    decreases ops.len(),
{
    if ops.len() == 0 {
        Some(Seq::empty())
    } else {
        let c = ops[0];
        if c & 0x80 == 0 {
            let n = (c & 0x7f) as int;
            if 1 + n > ops.len() {
                None
            } else {
                match delta_run(src, ops.skip(1 + n)) {
                    None => None,
                    Some(rest) => Some(ops.subrange(1, 1 + n) + rest),
                }
            }
        } else {
            let consumed = 1 + copy_off_len(c) + copy_size_len(c);
            if consumed > ops.len() {
                None
            } else {
                let offset = copy_offset(c, ops);
                let size = copy_size(c, ops);
                if offset + size > src.len() {
                    None
                } else {
                    match delta_run(src, ops.skip(consumed)) {
                        None => None,
                        Some(rest) => Some(src.subrange(offset, offset + size) + rest),
                    }
                }
            }
        }
    }
}

/// The delta's prefix names the source and target lengths, the source
/// is the payload of the object under `id` (of kind `t`), the
/// instruction stream replays to a target of the declared length, and
/// `res` is that target framed under the source's kind.
pub open spec fn delta_applied(
    store: Store,
    id: Seq<u8>,
    t: ObjectType,
    n: nat,
    k: int,
    delta: Seq<u8>,
    res: Seq<u8>,
) -> bool {
    store.lookup(id) matches Some(d) && {
        let src = d.skip(k + 1);
        let e1 = varint_end(delta, 0);
        let e2 = varint_end(delta, e1);
        &&& crate::reader_utils::first_nul_at(d, 0, k)
        &&& vstd::utf8::valid_utf8(d.take(k))
        &&& crate::git_object::header_parsed(vstd::utf8::decode_utf8(d.take(k)), t, n)
        &&& e2 <= delta.len()
        &&& le7_val(delta.subrange(0, e1)) == src.len()
        &&& (delta_run(src, delta.skip(e2)) matches Some(target) && {
            &&& target.len() == le7_val(delta.subrange(e1, e2))
            &&& res == frame_spec(t, target)
        })
    }
}

/// Reads the offset bytes a copy instruction calls for.
#[verifier::loop_isolation(false)]
#[verifier::rlimit(100)]
#[verifier::spinoff_prover]
fn read_offset_field(reader: &mut ByteReader, command: u8) -> (r: Result<u64, GitError>)
    requires
        old(reader).pos >= 1,
        old(reader).pos <= old(reader).data@.len(),
        old(reader).data@[old(reader).pos - 1] == command,
    ensures
        final(reader).data == old(reader).data,
        ({
            let ops = old(reader).data@.skip(old(reader).pos - 1);
            match r {
                Ok(v) => {
                    &&& 1 + copy_off_len(command) <= ops.len()
                    &&& v == copy_offset(command, ops)
                    &&& final(reader).pos == old(reader).pos + copy_off_len(command)
                },
                Err(e) => e == GitError::Io && 1 + copy_off_len(command) > ops.len(),
            }
        }),
{
    let ghost ops = reader.data@.skip(reader.pos - 1);
    let ghost base = old(reader).pos - 1;
    proof {
        assert(forall|j: int|
            1 <= j < ops.len() ==> #[trigger] ops[j] == reader.data@[base + j]);
    }
    let ghost i0 = 1int;
    let ghost i1 = i0 + (if command & 1 != 0 { 1int } else { 0int });
    let ghost i2 = i1 + (if command & 2 != 0 { 1int } else { 0int });
    let ghost i3 = i2 + (if command & 4 != 0 { 1int } else { 0int });
    let mut offset: u64 = 0;
    if command & 1 != 0 {
        let b = match read_byte(reader) {
            Ok(b) => b,
            Err(e) => {
                return Err(e);
            },
        };
        offset = offset + b as u64;
    }
    proof {
        assert(reader.pos == base + i1);
    }
    if command & 2 != 0 {
        let b = match read_byte(reader) {
            Ok(b) => b,
            Err(e) => {
                return Err(e);
            },
        };
        offset = offset + (b as u64) * 0x100;
    }
    proof {
        assert(reader.pos == base + i2);
    }
    if command & 4 != 0 {
        let b = match read_byte(reader) {
            Ok(b) => b,
            Err(e) => {
                return Err(e);
            },
        };
        offset = offset + (b as u64) * 0x10000;
    }
    proof {
        assert(reader.pos == base + i3);
    }
    if command & 8 != 0 {
        let b = match read_byte(reader) {
            Ok(b) => b,
            Err(e) => {
                return Err(e);
            },
        };
        offset = offset + (b as u64) * 0x1000000;
    }
    proof {
        assert(offset == copy_offset(command, ops));
    }
    Ok(offset)
}

/// Reads the size bytes a copy instruction calls for, after its offset
/// bytes were consumed.
#[verifier::loop_isolation(false)]
#[verifier::rlimit(100)]
#[verifier::spinoff_prover]
fn read_size_field(reader: &mut ByteReader, command: u8) -> (r: Result<u64, GitError>)
    requires
        old(reader).pos >= 1 + copy_off_len(command),
        old(reader).pos <= old(reader).data@.len(),
        old(reader).data@[old(reader).pos - 1 - copy_off_len(command)] == command,
    ensures
        final(reader).data == old(reader).data,
        ({
            let ops = old(reader).data@.skip(old(reader).pos - 1 - copy_off_len(command));
            match r {
                Ok(v) => {
                    &&& 1 + copy_off_len(command) + copy_size_len(command) <= ops.len()
                    &&& v == copy_size(command, ops)
                    &&& final(reader).pos == old(reader).pos + copy_size_len(command)
                },
                Err(e) => e == GitError::Io && 1 + copy_off_len(command) + copy_size_len(command)
                    > ops.len(),
            }
        }),
{
    let ghost base = old(reader).pos - 1 - copy_off_len(command);
    let ghost ops = reader.data@.skip(base);
    proof {
        assert(forall|j: int|
            1 <= j < ops.len() ==> #[trigger] ops[j] == reader.data@[base + j]);
    }
    let ghost j0 = 1 + copy_off_len(command);
    let ghost j1 = j0 + (if command & 16 != 0 { 1int } else { 0int });
    let ghost j2 = j1 + (if command & 32 != 0 { 1int } else { 0int });
    let mut size: u64 = 0;
    if command & 16 != 0 {
        let b = match read_byte(reader) {
            Ok(b) => b,
            Err(e) => {
                return Err(e);
            },
        };
        size = size + b as u64;
    }
    proof {
        assert(reader.pos == base + j1);
    }
    if command & 32 != 0 {
        let b = match read_byte(reader) {
            Ok(b) => b,
            Err(e) => {
                return Err(e);
            },
        };
        size = size + (b as u64) * 0x100;
    }
    proof {
        assert(reader.pos == base + j2);
    }
    if command & 64 != 0 {
        let b = match read_byte(reader) {
            Ok(b) => b,
            Err(e) => {
                return Err(e);
            },
        };
        size = size + (b as u64) * 0x10000;
    }
    proof {
        assert(size == copy_size(command, ops));
    }
    Ok(size)
}

/// Reads the offset and size fields of a copy instruction.
fn read_copy_fields(reader: &mut ByteReader, command: u8) -> (r: Result<(u64, u64), GitError>)
    requires
        old(reader).pos >= 1,
        old(reader).pos <= old(reader).data@.len(),
        old(reader).data@[old(reader).pos - 1] == command,
    ensures
        final(reader).data == old(reader).data,
        ({
            let ops = old(reader).data@.skip(old(reader).pos - 1);
            match r {
                Ok(p) => {
                    &&& 1 + copy_off_len(command) + copy_size_len(command) <= ops.len()
                    &&& p.0 == copy_offset(command, ops)
                    &&& p.1 == copy_size(command, ops)
                    &&& final(reader).pos == old(reader).pos + copy_off_len(command)
                        + copy_size_len(command)
                },
                Err(e) => {
                    &&& e == GitError::Io
                    &&& 1 + copy_off_len(command) + copy_size_len(command) > ops.len()
                },
            }
        }),
{
    let offset = match read_offset_field(reader, command) {
        Ok(v) => v,
        Err(e) => {
            return Err(e);
        },
    };
    let size = match read_size_field(reader, command) {
        Ok(v) => v,
        Err(e) => {
            return Err(e);
        },
    };
    Ok((offset, size))
}

/// Some stored object witnesses [`delta_applied`].
pub open spec fn delta_outcome(store: Store, name: Seq<char>, delta: Seq<u8>, res: Seq<u8>) -> bool {
    exists|id: Seq<u8>, t: ObjectType, n: nat, k: int|
        resolves_to(store, name, id) && #[trigger] delta_applied(store, id, t, n, k, delta, res)
}

/// The delta is applicable to the object under `id`: the object has a
/// well-formed header, the two length prefixes are in-range varints,
/// the first names the payload's length, and the instruction stream
/// replays to a target of the declared length.
pub open spec fn delta_base_ok(
    store: Store,
    id: Seq<u8>,
    k: int,
    t: ObjectType,
    n: nat,
    delta: Seq<u8>,
) -> bool {
    store.lookup(id) matches Some(d) && {
        let src = d.skip(k + 1);
        let e1 = varint_end(delta, 0);
        let e2 = varint_end(delta, e1);
        &&& crate::reader_utils::first_nul_at(d, 0, k)
        &&& vstd::utf8::valid_utf8(d.take(k))
        &&& crate::git_object::header_parsed(vstd::utf8::decode_utf8(d.take(k)), t, n)
        &&& e1 <= delta.len()
        &&& e1 <= 10
        &&& e2 <= delta.len()
        &&& e2 - e1 <= 10
        &&& le7_val(delta.subrange(0, e1)) <= usize::MAX
        &&& le7_val(delta.subrange(e1, e2)) <= usize::MAX
        &&& le7_val(delta.subrange(0, e1)) == src.len()
        &&& (delta_run(src, delta.skip(e2)) matches Some(target) && target.len() == le7_val(
            delta.subrange(e1, e2),
        ))
    }
}

/// The prefix of a delta application that precedes the length check:
/// the base parses and both varints are in-range.
pub open spec fn delta_front_at(
    store: Store,
    id: Seq<u8>,
    k: int,
    t: ObjectType,
    n: nat,
    delta: Seq<u8>,
) -> bool {
    store.lookup(id) matches Some(d) && {
        let e1 = varint_end(delta, 0);
        let e2 = varint_end(delta, e1);
        &&& crate::reader_utils::first_nul_at(d, 0, k)
        &&& vstd::utf8::valid_utf8(d.take(k))
        &&& crate::git_object::header_parsed(vstd::utf8::decode_utf8(d.take(k)), t, n)
        &&& e1 <= delta.len()
        &&& e1 <= 10
        &&& e2 <= delta.len()
        &&& e2 - e1 <= 10
        &&& le7_val(delta.subrange(0, e1)) <= usize::MAX
        &&& le7_val(delta.subrange(e1, e2)) <= usize::MAX
    }
}

/// The delta's front parses against the resolved base but its declared
/// source length differs from the base payload's.
pub open spec fn delta_source_mismatch(store: Store, name: Seq<char>, delta: Seq<u8>) -> bool {
    exists|id: Seq<u8>, k: int, t: ObjectType, n: nat|
        resolves_to(store, name, id) && #[trigger] delta_front_at(store, id, k, t, n, delta)
            && le7_val(delta.subrange(0, varint_end(delta, 0))) != store.lookup(
            id,
        )->Some_0.skip(k + 1).len()
}

/// The name abbreviates a stored object the delta applies to.
pub open spec fn delta_ok(store: Store, name: Seq<char>, delta: Seq<u8>) -> bool {
    exists|id: Seq<u8>, k: int, t: ObjectType, n: nat|
        resolves_to(store, name, id) && #[trigger] delta_base_ok(store, id, k, t, n, delta)
}

/// A replay that comes out undefined refutes [`delta_ok`] once the
/// base, its header position, and the prefix end are fixed.
proof fn lemma_delta_not_ok(
    store: Store,
    name: Seq<char>,
    delta: Seq<u8>,
    id: Seq<u8>,
    d: Seq<u8>,
    k: int,
    e2: int,
    src: Seq<u8>,
)
    requires
        store.wf(),
        resolves_to(store, name, id),
        store.lookup(id) == Some(d),
        crate::reader_utils::first_nul_at(d, 0, k),
        src == d.skip(k + 1),
        e2 == varint_end(delta, varint_end(delta, 0)),
        delta_run(src, delta.skip(e2)) is None,
    ensures
        !delta_ok(store, name, delta),
{
    if delta_ok(store, name, delta) {
        lemma_delta_ok_at(store, name, delta, id, d, k);
        let (t2, n2) = choose|t2: ObjectType, n2: nat|
            #[trigger] delta_base_ok(store, id, k, t2, n2, delta);
        assert(false);
    }
}

/// Once the base and its header position are fixed, a witness of
/// [`delta_ok`] lives at exactly them.
proof fn lemma_delta_ok_at(
    store: Store,
    name: Seq<char>,
    delta: Seq<u8>,
    id: Seq<u8>,
    d: Seq<u8>,
    k: int,
)
    requires
        store.wf(),
        delta_ok(store, name, delta),
        resolves_to(store, name, id),
        store.lookup(id) == Some(d),
        crate::reader_utils::first_nul_at(d, 0, k),
    ensures
        exists|t: ObjectType, n: nat| #[trigger] delta_base_ok(store, id, k, t, n, delta),
{
    let (id2, k2, t2, n2) = choose|id2: Seq<u8>, k2: int, t2: ObjectType, n2: nat|
        resolves_to(store, name, id2) && #[trigger] delta_base_ok(store, id2, k2, t2, n2, delta);
    crate::git_object::lemma_resolves_unique(store, name, id, id2);
    crate::git_object::lemma_first_nul_unique(d, 0, k, k2);
    assert(delta_base_ok(store, id, k, t2, n2, delta));
}

/// Replays a reference delta against the object `reference_hash`
/// abbreviates and returns the framed result, which keeps the source's
/// kind.
#[verifier::loop_isolation(false)]
#[verifier::rlimit(100)]
#[verifier::spinoff_prover]
pub fn apply_delta(store: &Store, reference_hash: &String, delta: &Vec<u8>) -> (r: Result<
    Vec<u8>,
    GitError,
>)
    requires
        store.wf(),
    ensures
        r matches Ok(res) ==> delta_outcome(*store, reference_hash@, delta@, res@),
        r matches Err(e) ==> e == GitError::Io || e == GitError::Decode || e == GitError::NotFound
            || e == GitError::Ambiguous || e == GitError::Integrity,
        r is Ok <==> delta_ok(*store, reference_hash@, delta@),
        delta_source_mismatch(*store, reference_hash@, delta@) ==> r == Err::<Vec<u8>, GitError>(
            GitError::Integrity,
        ),
{
    let mut delta_reader = ByteReader::new(vstd::slice::slice_to_vec(delta.as_slice()));
    let source_length = match read_size(&mut delta_reader) {
        Ok(v) => v,
        Err(e) => {
            proof {
                if delta_ok(*store, reference_hash@, delta@) {
                    let (id2, k2, t2, n2) = choose|id2: Seq<u8>, k2: int, t2: ObjectType, n2: nat|
                        resolves_to(*store, reference_hash@, id2) && #[trigger] delta_base_ok(
                            *store,
                            id2,
                            k2,
                            t2,
                            n2,
                            delta@,
                        );
                    assert(false);
                }
                if delta_source_mismatch(*store, reference_hash@, delta@) {
                    let (id2, k2, t2, n2) = choose|id2: Seq<u8>, k2: int, t2: ObjectType, n2: nat|
                        resolves_to(*store, reference_hash@, id2) && #[trigger] delta_front_at(
                            *store,
                            id2,
                            k2,
                            t2,
                            n2,
                            delta@,
                        ) && le7_val(delta@.subrange(0, varint_end(delta@, 0))) != store.lookup(
                            id2,
                        )->Some_0.skip(k2 + 1).len();
                    assert(false);
                }
            }
            return Err(e);
        },
    };
    let ghost e1 = delta_reader.pos as int;
    let target_length = match read_size(&mut delta_reader) {
        Ok(v) => v,
        Err(e) => {
            proof {
                if delta_ok(*store, reference_hash@, delta@) {
                    let (id2, k2, t2, n2) = choose|id2: Seq<u8>, k2: int, t2: ObjectType, n2: nat|
                        resolves_to(*store, reference_hash@, id2) && #[trigger] delta_base_ok(
                            *store,
                            id2,
                            k2,
                            t2,
                            n2,
                            delta@,
                        );
                    assert(false);
                }
                if delta_source_mismatch(*store, reference_hash@, delta@) {
                    let (id2, k2, t2, n2) = choose|id2: Seq<u8>, k2: int, t2: ObjectType, n2: nat|
                        resolves_to(*store, reference_hash@, id2) && #[trigger] delta_front_at(
                            *store,
                            id2,
                            k2,
                            t2,
                            n2,
                            delta@,
                        ) && le7_val(delta@.subrange(0, varint_end(delta@, 0))) != store.lookup(
                            id2,
                        )->Some_0.skip(k2 + 1).len();
                    assert(false);
                }
            }
            return Err(e);
        },
    };
    let ghost e2 = delta_reader.pos as int;
    let mut source_reader = match crate::git_object::reader(store, reference_hash) {
        Ok(rd) => rd,
        Err(e) => {
            proof {
                if delta_ok(*store, reference_hash@, delta@) {
                    let (id2, k2, t2, n2) = choose|id2: Seq<u8>, k2: int, t2: ObjectType, n2: nat|
                        resolves_to(*store, reference_hash@, id2) && #[trigger] delta_base_ok(
                            *store,
                            id2,
                            k2,
                            t2,
                            n2,
                            delta@,
                        );
                    assert(crate::git_object::can_resolve(*store, reference_hash@));
                    assert(false);
                }
                if delta_source_mismatch(*store, reference_hash@, delta@) {
                    let (id2, k2, t2, n2) = choose|id2: Seq<u8>, k2: int, t2: ObjectType, n2: nat|
                        resolves_to(*store, reference_hash@, id2) && #[trigger] delta_front_at(
                            *store,
                            id2,
                            k2,
                            t2,
                            n2,
                            delta@,
                        ) && le7_val(delta@.subrange(0, varint_end(delta@, 0))) != store.lookup(
                            id2,
                        )->Some_0.skip(k2 + 1).len();
                    assert(crate::git_object::can_resolve(*store, reference_hash@));
                    assert(false);
                }
            }
            return Err(e);
        },
    };
    let ghost id = choose|id: Seq<u8>|
        #[trigger] resolves_to(*store, reference_hash@, id) && store.lookup(id) == Some(
            source_reader.data@,
        ) && source_reader.pos == 0;
    let ghost d = source_reader.data@;
    let header = match crate::reader_utils::read_to_next_null_byte(&mut source_reader) {
        Ok(h) => h,
        Err(e) => {
            proof {
                if delta_ok(*store, reference_hash@, delta@) {
                    let (id2, k2, t2, n2) = choose|id2: Seq<u8>, k2: int, t2: ObjectType, n2: nat|
                        resolves_to(*store, reference_hash@, id2) && #[trigger] delta_base_ok(
                            *store,
                            id2,
                            k2,
                            t2,
                            n2,
                            delta@,
                        );
                    crate::git_object::lemma_resolves_unique(*store, reference_hash@, id, id2);
                    if e == GitError::Io {
                        assert(d[k2] != 0);
                    } else {
                        let k0 = choose|k0: int|
                            crate::reader_utils::first_nul_at(d, 0, k0)
                                && !vstd::utf8::valid_utf8(d.subrange(0, k0));
                        crate::git_object::lemma_first_nul_unique(d, 0, k0, k2);
                        assert(d.take(k2) =~= d.subrange(0, k0));
                    }
                    assert(false);
                }
                if delta_source_mismatch(*store, reference_hash@, delta@) {
                    let (id2, k2, t2, n2) = choose|id2: Seq<u8>, k2: int, t2: ObjectType, n2: nat|
                        resolves_to(*store, reference_hash@, id2) && #[trigger] delta_front_at(
                            *store,
                            id2,
                            k2,
                            t2,
                            n2,
                            delta@,
                        ) && le7_val(delta@.subrange(0, varint_end(delta@, 0))) != store.lookup(
                            id2,
                        )->Some_0.skip(k2 + 1).len();
                    crate::git_object::lemma_resolves_unique(*store, reference_hash@, id, id2);
                    if e == GitError::Io {
                        assert(d[k2] != 0);
                    } else {
                        let k0 = choose|k0: int|
                            crate::reader_utils::first_nul_at(d, 0, k0)
                                && !vstd::utf8::valid_utf8(d.subrange(0, k0));
                        crate::git_object::lemma_first_nul_unique(d, 0, k0, k2);
                        assert(d.take(k2) =~= d.subrange(0, k0));
                    }
                    assert(false);
                }
            }
            return Err(e);
        },
    };
    let ghost k = source_reader.pos - 1;
    let (o_type, _declared) = match crate::git_object::identify_header(&header) {
        Ok(p) => p,
        Err(e) => {
            proof {
                if delta_ok(*store, reference_hash@, delta@) {
                    lemma_delta_ok_at(*store, reference_hash@, delta@, id, d, k);
                    let (t2, n2) = choose|t2: ObjectType, n2: nat|
                        #[trigger] delta_base_ok(*store, id, k, t2, n2, delta@);
                    assert(d.take(k) =~= d.subrange(0, k));
                    assert(crate::git_object::header_parsed(header@, t2, n2));
                    assert(crate::git_object::header_valid(header@));
                    assert(false);
                }
                if delta_source_mismatch(*store, reference_hash@, delta@) {
                    let (id2, k2, t2, n2) = choose|id2: Seq<u8>, k2: int, t2: ObjectType, n2: nat|
                        resolves_to(*store, reference_hash@, id2) && #[trigger] delta_front_at(
                            *store,
                            id2,
                            k2,
                            t2,
                            n2,
                            delta@,
                        ) && le7_val(delta@.subrange(0, varint_end(delta@, 0))) != store.lookup(
                            id2,
                        )->Some_0.skip(k2 + 1).len();
                    crate::git_object::lemma_resolves_unique(*store, reference_hash@, id, id2);
                    crate::git_object::lemma_first_nul_unique(d, 0, k, k2);
                    assert(d.take(k2) =~= d.subrange(0, k));
                    assert(crate::git_object::header_parsed(header@, t2, n2));
                    assert(crate::git_object::header_valid(header@));
                    assert(false);
                }
            }
            return Err(e);
        },
    };
    let src = crate::reader_utils::read_rest(&mut source_reader);
    proof {
        assert(src@ =~= d.skip(k + 1));
    }
    if src.len() != source_length {
        proof {
            if delta_ok(*store, reference_hash@, delta@) {
                lemma_delta_ok_at(*store, reference_hash@, delta@, id, d, k);
                let (t2, n2) = choose|t2: ObjectType, n2: nat|
                    #[trigger] delta_base_ok(*store, id, k, t2, n2, delta@);
                assert(false);
            }
        }
        return Err(GitError::Integrity);
    }
    proof {
        if delta_source_mismatch(*store, reference_hash@, delta@) {
            let (id2, k2, t2, n2) = choose|id2: Seq<u8>, k2: int, t2: ObjectType, n2: nat|
                resolves_to(*store, reference_hash@, id2) && #[trigger] delta_front_at(
                    *store,
                    id2,
                    k2,
                    t2,
                    n2,
                    delta@,
                ) && le7_val(delta@.subrange(0, varint_end(delta@, 0))) != store.lookup(
                    id2,
                )->Some_0.skip(k2 + 1).len();
            crate::git_object::lemma_resolves_unique(*store, reference_hash@, id, id2);
            crate::git_object::lemma_first_nul_unique(d, 0, k, k2);
            assert(false);
        }
    }
    let ghost full_ops = delta_reader.data@.skip(e2);
    let mut target: Vec<u8> = Vec::new();
    proof {
        assert(delta_reader.data@.skip(delta_reader.pos as int) =~= full_ops);
        match delta_run(src@, full_ops) {
            Some(rest) => {
                assert(Seq::<u8>::empty() + rest =~= rest);
            },
            None => {},
        }
    }
    while delta_reader.pos < delta_reader.data.len()
        invariant
            delta_reader.data@ == delta@,
            e2 <= delta_reader.pos <= delta@.len(),
            src@ == d.skip(k + 1),
            ({
                let rem = delta@.skip(delta_reader.pos as int);
                delta_run(src@, full_ops) == (match delta_run(src@, rem) {
                    None => None::<Seq<u8>>,
                    Some(rest) => Some(target@ + rest),
                })
            }),
        decreases delta@.len() - delta_reader.pos,
    {
        let ghost p0 = delta_reader.pos as int;
        let ghost rem = delta@.skip(p0);
        let command = match read_byte(&mut delta_reader) {
            Ok(b) => b,
            Err(_) => {
                proof {
                    assert(false);
                }
                return Err(GitError::Io);
            },
        };
        proof {
            assert(rem[0] == command);
        }
        if command & 0x80 == 0 {
            let n = (command & 0x7f) as usize;
            proof {
                assert((command & 0x7f) < 128) by (bit_vector);
            }
            let mut piece = match read_n_bytes(n, &mut delta_reader) {
                Ok(v) => v,
                Err(e) => {
                    proof {
                        assert(forall|j: int|
                            0 <= j < rem.len() ==> #[trigger] rem[j] == delta@[p0 + j]);
                        assert(1 + n > rem.len());
                        assert(delta_run(src@, rem) is None);
                        lemma_delta_not_ok(*store, reference_hash@, delta@, id, d, k, e2, src@);
                    }
                    return Err(GitError::Decode);
                },
            };
            let ghost t0 = target@;
            let ghost piece_view = piece@;
            target.append(&mut piece);
            proof {
                let rem2 = delta@.skip(p0 + 1 + n);
                assert(piece_view =~= rem.subrange(1, 1 + n));
                assert(rem.skip(1 + n) =~= rem2);
                assert(delta_run(src@, rem) == (match delta_run(src@, rem2) {
                    None => None::<Seq<u8>>,
                    Some(rest) => Some(rem.subrange(1, 1 + n) + rest),
                }));
                match delta_run(src@, rem2) {
                    Some(rest) => {
                        assert(t0 + (piece_view + rest) =~= target@ + rest);
                    },
                    None => {},
                }
            }
        } else {
            let ghost noff = copy_off_len(command);
            let ghost nsize = copy_size_len(command);
            let (offset, size) = match read_copy_fields(&mut delta_reader, command) {
                Ok(p) => p,
                Err(e) => {
                    proof {
                        assert(forall|j: int|
                            0 <= j < rem.len() ==> #[trigger] rem[j] == delta@[p0 + j]);
                        assert(rem =~= delta@.skip(p0 + 1 - 1));
                        assert(delta_run(src@, rem) is None);
                        lemma_delta_not_ok(*store, reference_hash@, delta@, id, d, k, e2, src@);
                    }
                    return Err(e);
                },
            };
            proof {
                assert(forall|j: int| 0 <= j < rem.len() ==> #[trigger] rem[j] == delta@[p0 + j]);
                assert(rem =~= delta@.skip(p0 + 1 - 1));
            }
            if (offset + size) > src.len() as u64 {
                proof {
                    assert(delta_run(src@, rem) is None);
                    lemma_delta_not_ok(*store, reference_hash@, delta@, id, d, k, e2, src@);
                }
                return Err(GitError::Integrity);
            }
            let off_usize = offset as usize;
            let size_usize = size as usize;
            let piece_slice = vstd::slice::slice_subrange(
                src.as_slice(),
                off_usize,
                off_usize + size_usize,
            );
            let mut piece = vstd::slice::slice_to_vec(piece_slice);
            let ghost t0 = target@;
            let ghost piece_view = piece@;
            target.append(&mut piece);
            proof {
                let consumed = 1 + noff + nsize;
                let rem2 = delta@.skip(p0 + consumed);
                assert(rem.skip(consumed) =~= rem2);
                assert(copy_offset(command, rem) == offset);
                assert(copy_size(command, rem) == size);
                assert(src@.subrange(offset as int, offset + size) =~= piece_view);
                assert(delta_run(src@, rem) == (match delta_run(src@, rem2) {
                    None => None::<Seq<u8>>,
                    Some(rest) => Some(src@.subrange(offset as int, offset + size) + rest),
                }));
                match delta_run(src@, rem2) {
                    Some(rest) => {
                        assert(t0 + (piece_view + rest) =~= target@ + rest);
                    },
                    None => {},
                }
            }
        }
    }
    proof {
        assert(delta@.skip(delta@.len() as int) =~= Seq::<u8>::empty());
        assert(delta_run(src@, Seq::<u8>::empty()) == Some(Seq::<u8>::empty()));
        assert(target@ + Seq::<u8>::empty() =~= target@);
        assert(delta_run(src@, full_ops) == Some(target@));
    }
    if target.len() != target_length {
        proof {
            if delta_ok(*store, reference_hash@, delta@) {
                lemma_delta_ok_at(*store, reference_hash@, delta@, id, d, k);
                let (t2, n2) = choose|t2: ObjectType, n2: nat|
                    #[trigger] delta_base_ok(*store, id, k, t2, n2, delta@);
                assert(false);
            }
        }
        return Err(GitError::Integrity);
    }
    proof {
        let hchars = vstd::utf8::decode_utf8(d.take(k));
        assert(d.take(k) =~= d.subrange(0, k));
        vstd::utf8::encode_utf8_valid_utf8(header@);
        assert(crate::git_object::header_parsed(hchars, o_type, _declared as nat));
        let i = choose|i: int|
            crate::git_object::header_split_at(hchars, i) && crate::git_object::header_fields_at(
                hchars,
                i,
                o_type,
                _declared as nat,
            );
        assert(is_loose_kind(o_type));
    }
    let framed = crate::git_object::frame_object(o_type, &target);
    proof {
        assert(delta_applied(*store, id, o_type, _declared as nat, k, delta@, framed@));
        assert(delta_outcome(*store, reference_hash@, delta@, framed@));
        assert(delta_base_ok(*store, id, k, o_type, _declared as nat, delta@));
        assert(delta_ok(*store, reference_hash@, delta@));
    }
    Ok(framed)
}

/// The four magic bytes that begin a pack: `PACK`.
pub open spec fn pack_magic() -> Seq<u8> {
    seq![0x50u8, 0x41u8, 0x43u8, 0x4bu8]
}

/// The record count a pack body declares: big-endian, after the magic
/// and version.
pub open spec fn pack_count(body: Seq<u8>) -> nat {
    (body[8] as nat) * 0x1000000 + (body[9] as nat) * 0x10000 + (body[10] as nat) * 0x100 + (
    body[11] as nat)
}

/// `now` is `prev` with `data` stored under its identity and nothing
/// else changed.
pub open spec fn store_insert(prev: Store, now: Store, data: Seq<u8>) -> bool {
    &&& now.wf()
    &&& now.lookup(sha1_of(data)) == Some(data)
    &&& forall|q: Seq<u8>| q != sha1_of(data) ==> now.lookup(q) == prev.lookup(q)
}

/// The record at `pos` of `body` was ingested: its header parses, its
/// zlib stream inflates to the declared size, `next` is the following
/// record's position, and `now` extends `prev` by what the record
/// requires — the framed object of a plain record, nothing for a tag,
/// the replayed target of a reference delta against `prev`.
pub open spec fn record_ingested(
    prev: Store,
    now: Store,
    body: Seq<u8>,
    pos: int,
    next: int,
) -> bool {
    let end = varint_end(body, pos);
    let size = pack_header_val(body.subrange(pos, end));
    &&& 0 <= pos < body.len()
    &&& end <= body.len()
    &&& match kind_of_code(pack_type_code(body[pos])) {
        Some(ObjectType::Commit) => inflate_of(body.skip(end)) matches Some(p) && {
            &&& p.0.len() == size
            &&& next == end + p.1
            &&& store_insert(prev, now, frame_spec(ObjectType::Commit, p.0))
        },
        Some(ObjectType::Tree) => inflate_of(body.skip(end)) matches Some(p) && {
            &&& p.0.len() == size
            &&& next == end + p.1
            &&& store_insert(prev, now, frame_spec(ObjectType::Tree, p.0))
        },
        Some(ObjectType::Blob) => inflate_of(body.skip(end)) matches Some(p) && {
            &&& p.0.len() == size
            &&& next == end + p.1
            &&& store_insert(prev, now, frame_spec(ObjectType::Blob, p.0))
        },
        Some(ObjectType::Tag) => inflate_of(body.skip(end)) matches Some(p) && {
            &&& p.0.len() == size
            &&& next == end + p.1
            &&& now == prev
        },
        Some(ObjectType::RefDelta) => {
            &&& end + 20 <= body.len()
            &&& (inflate_of(body.skip(end + 20)) matches Some(p) && {
                &&& p.0.len() == size
                &&& next == end + 20 + p.1
                &&& exists|res: Seq<u8>|
                    #[trigger] delta_outcome(
                        prev,
                        crate::hashing::hex_of(body.subrange(end, end + 20)),
                        p.0,
                        res,
                    ) && store_insert(prev, now, res)
            })
        },
        _ => false,
    }
}

/// `count` records starting at `pos` are all plain — commit, tree,
/// blob, or tag — well-formed, and inflate to their declared sizes: a
/// function of the bytes alone, under which decoding cannot fail.
pub open spec fn pack_plain_ok(body: Seq<u8>, pos: int, count: nat) -> bool
    decreases count,
{
    if count == 0 {
        true
    } else {
        let end = varint_end(body, pos);
        let size = pack_header_val(body.subrange(pos, end));
        &&& 0 <= pos < body.len()
        &&& end <= body.len()
        &&& end - pos <= 11
        &&& size <= usize::MAX
        &&& (match kind_of_code(pack_type_code(body[pos])) {
            Some(ObjectType::Commit) => true,
            Some(ObjectType::Tree) => true,
            Some(ObjectType::Blob) => true,
            Some(ObjectType::Tag) => true,
            _ => false,
        })
        &&& (inflate_of(body.skip(end)) matches Some(p) && p.0.len() == size && pack_plain_ok(
            body,
            end + p.1,
            (count - 1) as nat,
        ))
    }
}

/// `count` records starting at `pos` were ingested in order, ending at
/// `endpos`, turning `prev` into `now`.
pub open spec fn pack_ingested(
    prev: Store,
    now: Store,
    body: Seq<u8>,
    pos: int,
    endpos: int,
    count: nat,
) -> bool
    decreases count,
{
    if count == 0 {
        now == prev && endpos == pos
    } else {
        exists|mid: Store, next: int|
            #[trigger] record_ingested(prev, mid, body, pos, next) && pack_ingested(
                mid,
                now,
                body,
                next,
                endpos,
                (count - 1) as nat,
            )
    }
}

/// An ingestion chain grows by one record at its end.
proof fn lemma_pack_ingested_snoc(
    s0: Store,
    s1: Store,
    s2: Store,
    body: Seq<u8>,
    pos0: int,
    mid_pos: int,
    next: int,
    k: nat,
)
    requires
        pack_ingested(s0, s1, body, pos0, mid_pos, k),
        record_ingested(s1, s2, body, mid_pos, next),
    ensures
        pack_ingested(s0, s2, body, pos0, next, k + 1),
    decreases k,
{
    if k == 0 {
        assert(pack_ingested(s2, s2, body, next, next, 0));
    } else {
        let (m, nx) = choose|m: Store, nx: int|
            #[trigger] record_ingested(s0, m, body, pos0, nx) && pack_ingested(
                m,
                s1,
                body,
                nx,
                mid_pos,
                (k - 1) as nat,
            );
        lemma_pack_ingested_snoc(m, s1, s2, body, nx, mid_pos, next, (k - 1) as nat);
    }
}

/// Decodes a pack stream into the store: checks the magic and the
/// trailing SHA-1 over everything before it, then reads each record,
/// inflating plain objects and replaying reference deltas. A record of
/// the offset-delta kind is refused.
#[verifier::loop_isolation(false)]
#[verifier::rlimit(100)]
#[verifier::spinoff_prover]
pub fn unpack(store: &mut Store, pack_data: &Vec<u8>) -> (r: Result<(), GitError>)
    requires
        old(store).wf(),
    ensures
        final(store).wf(),
        forall|q: Seq<u8>|
            old(store).lookup(q) is Some ==> #[trigger] final(store).lookup(q) is Some,
        ({
            let p = pack_data@;
            &&& p.len() < 4 ==> r == Err::<(), GitError>(GitError::Integrity) && *final(store)
                == *old(store)
            &&& p.len() >= 4 && p.take(4) != pack_magic() ==> r == Err::<(), GitError>(
                GitError::Integrity,
            ) && *final(store) == *old(store)
            &&& p.len() >= 4 && p.take(4) == pack_magic() && p.len() < 20 ==> r == Err::<
                (),
                GitError,
            >(GitError::Integrity) && *final(store) == *old(store)
            &&& p.len() >= 20 && p.take(4) == pack_magic() && sha1_of(p.take(p.len() - 20))
                != p.skip(p.len() - 20) ==> r == Err::<(), GitError>(GitError::Integrity)
                && *final(store) == *old(store)
            &&& r is Ok ==> p.len() >= 20 && p.take(4) == pack_magic() && sha1_of(
                p.take(p.len() - 20),
            ) == p.skip(p.len() - 20)
        }),
        ({
            let body = pack_data@.take(pack_data@.len() - 20);
            &&& r is Ok ==> body.len() >= 12 && (exists|endpos: int|
                pack_ingested(
                    *old(store),
                    *final(store),
                    body,
                    12,
                    endpos,
                    #[trigger] pack_count(body),
                ))
            &&& (r is Err && pack_data@.len() >= 20 && pack_data@.take(4) == pack_magic()
                && sha1_of(body) == pack_data@.skip(pack_data@.len() - 20)) ==> exists|
                k: nat,
                endpos: int,
            |
                #[trigger] pack_ingested(*old(store), *final(store), body, 12, endpos, k)
            &&& r == Err::<(), GitError>(GitError::Unsupported) ==> exists|k: nat, endpos: int|
                #[trigger] pack_ingested(*old(store), *final(store), body, 12, endpos, k) && 0
                    <= endpos < body.len() && kind_of_code(pack_type_code(body[endpos])) == Some(
                    ObjectType::OfsDelta,
                )
            &&& (pack_data@.len() >= 20 && pack_data@.take(4) == pack_magic() && sha1_of(body)
                == pack_data@.skip(pack_data@.len() - 20) && body.len() >= 12 && pack_plain_ok(
                body,
                12,
                pack_count(body),
            )) ==> r is Ok
        }),
{
    let n = pack_data.len();
    if n < 4 {
        return Err(GitError::Integrity);
    }
    if !(pack_data[0] == 0x50 && pack_data[1] == 0x41 && pack_data[2] == 0x43 && pack_data[3]
        == 0x4b) {
        proof {
            assert(pack_data@.take(4) != pack_magic());
        }
        return Err(GitError::Integrity);
    }
    proof {
        assert(pack_data@.take(4) =~= pack_magic());
    }
    if n < 20 {
        return Err(GitError::Integrity);
    }
    let body = vstd::slice::slice_to_vec(
        vstd::slice::slice_subrange(pack_data.as_slice(), 0, n - 20),
    );
    let ghost bodyv = body@;
    proof {
        assert(bodyv == pack_data@.take(pack_data@.len() - 20));
    }
    let trailer = vstd::slice::slice_to_vec(
        vstd::slice::slice_subrange(pack_data.as_slice(), n - 20, n),
    );
    let digest = hash_data(&body);
    if !crate::git_object::bytes_eq(&digest, &trailer) {
        proof {
            assert(trailer@ == pack_data@.skip(pack_data@.len() - 20));
        }
        return Err(GitError::Integrity);
    }
    proof {
        assert(trailer@ == pack_data@.skip(pack_data@.len() - 20));
        assert(pack_ingested(*store, *store, bodyv, 12, 12, 0));
    }
    let mut reader = ByteReader::new(body);
    match read_n_bytes(8, &mut reader) {
        Ok(_) => {},
        Err(e) => {
            proof {
                assert(pack_ingested(*old(store), *store, bodyv, 12, 12, 0));
                assert(bodyv.len() < 12);
            }
            return Err(e);
        },
    }
    let count_bytes = match read_n_bytes(4, &mut reader) {
        Ok(v) => v,
        Err(e) => {
            proof {
                assert(pack_ingested(*old(store), *store, bodyv, 12, 12, 0));
                assert(bodyv.len() < 12);
            }
            return Err(e);
        },
    };
    let object_count: u32 = (count_bytes[0] as u32) * 0x1000000 + (count_bytes[1] as u32) * 0x10000
        + (count_bytes[2] as u32) * 0x100 + (count_bytes[3] as u32);
    proof {
        assert(count_bytes@[0] == bodyv[8]);
        assert(count_bytes@[1] == bodyv[9]);
        assert(count_bytes@[2] == bodyv[10]);
        assert(count_bytes@[3] == bodyv[11]);
        assert(object_count as nat == pack_count(bodyv));
    }
    let mut i: u32 = 0;
    let cap = reader.data.len();
    while i < object_count
        invariant
            i <= object_count,
            store.wf(),
            forall|q: Seq<u8>|
                old(store).lookup(q) is Some ==> #[trigger] store.lookup(q) is Some,
            reader.pos <= reader.data@.len(),
            reader.data@.len() == cap,
            reader.data@ == bodyv,
            pack_ingested(*old(store), *store, bodyv, 12, reader.pos as int, i as nat),
            pack_plain_ok(bodyv, 12, pack_count(bodyv)) ==> pack_plain_ok(
                bodyv,
                reader.pos as int,
                (object_count - i) as nat,
            ),
        decreases object_count - i,
    {
        let ghost prev = *store;
        let ghost pos0 = reader.pos as int;
        let ghost chain_pos = reader.pos as int;
        let (o_type, size) = match read_type_and_size(&mut reader) {
            Ok(p) => p,
            Err(e) => {
                proof {
                    if pack_plain_ok(bodyv, 12, pack_count(bodyv)) {
                        assert(pack_plain_ok(bodyv, pos0, (object_count - i) as nat));
                        assert(false);
                    }
                }
                return Err(e);
            },
        };
        let ghost hdr_end = reader.pos as int;
        proof {
            if pack_plain_ok(bodyv, 12, pack_count(bodyv)) {
                assert(pack_plain_ok(bodyv, pos0, (object_count - i) as nat));
            }
        }
        match o_type {
            ObjectType::Commit => {
                let (data, used) = match crate::zlib::decompress_at(&reader.data, reader.pos) {
                    Ok(p) => p,
                    Err(e) => {
                        proof {
                            if pack_plain_ok(bodyv, 12, pack_count(bodyv)) {
                                assert(false);
                            }
                        }
                        return Err(e);
                    },
                };
                if data.len() != size {
                    proof {
                        if pack_plain_ok(bodyv, 12, pack_count(bodyv)) {
                            assert(false);
                        }
                    }
                    return Err(GitError::Integrity);
                }
                write_commit(store, &data);
                reader.pos = reader.pos + used;
                proof {
                    if pack_plain_ok(bodyv, 12, pack_count(bodyv)) {
                        assert(pack_plain_ok(
                            bodyv,
                            reader.pos as int,
                            (object_count - (i + 1)) as nat,
                        ));
                    }
                    assert(record_ingested(prev, *store, bodyv, pos0, reader.pos as int));
                    lemma_pack_ingested_snoc(
                        *old(store),
                        prev,
                        *store,
                        bodyv,
                        12,
                        pos0,
                        reader.pos as int,
                        i as nat,
                    );
                }
            },
            ObjectType::Tree => {
                let (data, used) = match crate::zlib::decompress_at(&reader.data, reader.pos) {
                    Ok(p) => p,
                    Err(e) => {
                        proof {
                            if pack_plain_ok(bodyv, 12, pack_count(bodyv)) {
                                assert(false);
                            }
                        }
                        return Err(e);
                    },
                };
                if data.len() != size {
                    proof {
                        if pack_plain_ok(bodyv, 12, pack_count(bodyv)) {
                            assert(false);
                        }
                    }
                    return Err(GitError::Integrity);
                }
                write_tree(store, &data);
                reader.pos = reader.pos + used;
                proof {
                    if pack_plain_ok(bodyv, 12, pack_count(bodyv)) {
                        assert(pack_plain_ok(
                            bodyv,
                            reader.pos as int,
                            (object_count - (i + 1)) as nat,
                        ));
                    }
                    assert(record_ingested(prev, *store, bodyv, pos0, reader.pos as int));
                    lemma_pack_ingested_snoc(
                        *old(store),
                        prev,
                        *store,
                        bodyv,
                        12,
                        pos0,
                        reader.pos as int,
                        i as nat,
                    );
                }
            },
            ObjectType::Blob => {
                let (data, used) = match crate::zlib::decompress_at(&reader.data, reader.pos) {
                    Ok(p) => p,
                    Err(e) => {
                        proof {
                            if pack_plain_ok(bodyv, 12, pack_count(bodyv)) {
                                assert(false);
                            }
                        }
                        return Err(e);
                    },
                };
                if data.len() != size {
                    proof {
                        if pack_plain_ok(bodyv, 12, pack_count(bodyv)) {
                            assert(false);
                        }
                    }
                    return Err(GitError::Integrity);
                }
                write_blob(store, &data);
                reader.pos = reader.pos + used;
                proof {
                    if pack_plain_ok(bodyv, 12, pack_count(bodyv)) {
                        assert(pack_plain_ok(
                            bodyv,
                            reader.pos as int,
                            (object_count - (i + 1)) as nat,
                        ));
                    }
                    assert(record_ingested(prev, *store, bodyv, pos0, reader.pos as int));
                    lemma_pack_ingested_snoc(
                        *old(store),
                        prev,
                        *store,
                        bodyv,
                        12,
                        pos0,
                        reader.pos as int,
                        i as nat,
                    );
                }
            },
            ObjectType::Tag => {
                let (data, used) = match crate::zlib::decompress_at(&reader.data, reader.pos) {
                    Ok(p) => p,
                    Err(e) => {
                        proof {
                            if pack_plain_ok(bodyv, 12, pack_count(bodyv)) {
                                assert(false);
                            }
                        }
                        return Err(e);
                    },
                };
                if data.len() != size {
                    proof {
                        if pack_plain_ok(bodyv, 12, pack_count(bodyv)) {
                            assert(false);
                        }
                    }
                    return Err(GitError::Integrity);
                }
                reader.pos = reader.pos + used;
                proof {
                    if pack_plain_ok(bodyv, 12, pack_count(bodyv)) {
                        assert(pack_plain_ok(
                            bodyv,
                            reader.pos as int,
                            (object_count - (i + 1)) as nat,
                        ));
                    }
                    assert(record_ingested(prev, *store, bodyv, pos0, reader.pos as int));
                    lemma_pack_ingested_snoc(
                        *old(store),
                        prev,
                        *store,
                        bodyv,
                        12,
                        pos0,
                        reader.pos as int,
                        i as nat,
                    );
                }
            },
            ObjectType::OfsDelta => {
                proof {
                    assert(kind_of_code(pack_type_code(bodyv[pos0])) == Some(
                        ObjectType::OfsDelta,
                    ));
                    if pack_plain_ok(bodyv, 12, pack_count(bodyv)) {
                        assert(false);
                    }
                }
                return Err(GitError::Unsupported);
            },
            ObjectType::RefDelta => {
                proof {
                    if pack_plain_ok(bodyv, 12, pack_count(bodyv)) {
                        assert(false);
                    }
                }
                let reference_bytes = match read_n_bytes(20, &mut reader) {
                    Ok(v) => v,
                    Err(e) => {
                        return Err(e);
                    },
                };
                let reference_hex = to_hex(&reference_bytes);
                let (data, used) = match crate::zlib::decompress_at(&reader.data, reader.pos) {
                    Ok(p) => p,
                    Err(e) => {
                        return Err(e);
                    },
                };
                if data.len() != size {
                    return Err(GitError::Integrity);
                }
                reader.pos = reader.pos + used;
                let target = match apply_delta(store, &reference_hex, &data) {
                    Ok(v) => v,
                    Err(e) => {
                        return Err(e);
                    },
                };
                write_object(store, &target);
                proof {
                    assert(reference_bytes@ == bodyv.subrange(hdr_end, hdr_end + 20));
                    assert(delta_outcome(prev, crate::hashing::hex_of(
                        bodyv.subrange(hdr_end, hdr_end + 20),
                    ), data@, target@));
                    assert(store_insert(prev, *store, target@));
                    let pr = inflate_of(bodyv.skip(hdr_end + 20))->Some_0;
                    assert(pr.0 == data@);
                    assert(exists|res: Seq<u8>|
                        #[trigger] delta_outcome(
                            prev,
                            crate::hashing::hex_of(bodyv.subrange(hdr_end, hdr_end + 20)),
                            pr.0,
                            res,
                        ) && store_insert(prev, *store, res));
                    assert(record_ingested(prev, *store, bodyv, pos0, reader.pos as int));
                    lemma_pack_ingested_snoc(
                        *old(store),
                        prev,
                        *store,
                        bodyv,
                        12,
                        pos0,
                        reader.pos as int,
                        i as nat,
                    );
                }
            },
        }
        i = i + 1;
    }
    proof {
        assert(pack_ingested(*old(store), *store, bodyv, 12, reader.pos as int, pack_count(bodyv)));
    }
    Ok(())
}

} // verus!