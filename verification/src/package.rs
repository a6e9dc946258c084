//! Result packaging: frames the batch's named outputs into one byte
//! stream. Entries are stored uncompressed, each as a 4-byte little-endian
//! name length, the name, a 4-byte little-endian data length, and the data,
//! in batch order.

use vstd::prelude::*;
use crate::batch::{JobOutcome, JobOutcomeModel};

verus! {

/// The four little-endian bytes of a 32-bit length.
pub open spec fn le32(n: u32) -> Seq<u8> {
    seq![
        (n & 0xff) as u8,
        ((n >> 8) & 0xff) as u8,
        ((n >> 16) & 0xff) as u8,
        ((n >> 24) & 0xff) as u8,
    ]
}

/// The framed bytes of one archive entry.
pub open spec fn entry_bytes(name: Seq<u8>, data: Seq<u8>) -> Seq<u8>
    recommends
        name.len() <= u32::MAX,
        data.len() <= u32::MAX,
{
    le32(name.len() as u32) + name + le32(data.len() as u32) + data
}

/// The whole archive: every entry's framed bytes, in order.
pub open spec fn archive_of(entries: Seq<(Seq<u8>, Seq<u8>)>) -> Seq<u8>
    decreases entries.len(),
{
    if entries.len() == 0 {
        Seq::empty()
    } else {
        entry_bytes(entries[0].0, entries[0].1) + archive_of(entries.drop_first())
    }
}

/// Every entry's name and data are short enough for the 32-bit length
/// fields.
pub open spec fn entries_fit(entries: Seq<(Seq<u8>, Seq<u8>)>) -> bool {
    forall|i: int|
        0 <= i < entries.len() ==> (#[trigger] entries[i]).0.len() <= u32::MAX && entries[i].1.len()
            <= u32::MAX
}

/// The successful outputs of a batch, in batch order: one `(name, bytes)`
/// pair per encoded outcome; failed jobs are left out of the package.
pub open spec fn successful_entries(rs: Seq<(Seq<u8>, JobOutcomeModel)>) -> Seq<
    (Seq<u8>, Seq<u8>),
>
    decreases rs.len(),
{
    if rs.len() == 0 {
        Seq::empty()
    } else {
        let rest = successful_entries(rs.drop_first());
        match rs[0].1 {
            JobOutcomeModel::Encoded(v) => seq![(rs[0].0, v)] + rest,
            _ => rest,
        }
    }
}

/// The model of a batch result list: each name and outcome by its view.
pub open spec fn results_view(rs: Seq<(Vec<u8>, JobOutcome)>) -> Seq<(Seq<u8>, JobOutcomeModel)> {
    rs.map_values(|p: (Vec<u8>, JobOutcome)| (p.0@, p.1@))
}

/// Appending one entry extends the archive by that entry's framed bytes.
pub proof fn lemma_archive_push(s: Seq<(Seq<u8>, Seq<u8>)>, e: (Seq<u8>, Seq<u8>))
    ensures
        archive_of(s.push(e)) == archive_of(s) + entry_bytes(e.0, e.1),
    decreases s.len(),
{
    if s.len() == 0 {
        assert(s.push(e).drop_first() =~= s);
        assert(archive_of(s) == Seq::<u8>::empty());
        assert(s.push(e)[0] == e);
        assert(archive_of(s.push(e)) == entry_bytes(e.0, e.1) + archive_of(s));
        assert(entry_bytes(e.0, e.1) + archive_of(s) =~= archive_of(s) + entry_bytes(e.0, e.1));
    } else {
        lemma_archive_push(s.drop_first(), e);
        assert(s.push(e).drop_first() =~= s.drop_first().push(e));
        assert(s.push(e)[0] == s[0]);
        assert(archive_of(s.push(e)) == entry_bytes(s[0].0, s[0].1) + archive_of(
            s.drop_first().push(e),
        ));
        assert(archive_of(s) == entry_bytes(s[0].0, s[0].1) + archive_of(s.drop_first()));
        assert(entry_bytes(s[0].0, s[0].1) + (archive_of(s.drop_first()) + entry_bytes(e.0, e.1))
            =~= (entry_bytes(s[0].0, s[0].1) + archive_of(s.drop_first())) + entry_bytes(
            e.0,
            e.1,
        ));
    }
}

/// Appending one result extends the successful entries by that result's
/// entry when it is encoded, and not at all when it failed.
pub proof fn lemma_successful_push(s: Seq<(Seq<u8>, JobOutcomeModel)>, e: (Seq<u8>, JobOutcomeModel))
    ensures
        successful_entries(s.push(e)) == successful_entries(s) + (match e.1 {
            JobOutcomeModel::Encoded(v) => seq![(e.0, v)],
            _ => Seq::empty(),
        }),
    decreases s.len(),
{
    let tail = (match e.1 {
        JobOutcomeModel::Encoded(v) => seq![(e.0, v)],
        _ => Seq::<(Seq<u8>, Seq<u8>)>::empty(),
    });
    if s.len() == 0 {
        assert(s.push(e).drop_first() =~= s);
        assert(successful_entries(s) == Seq::<(Seq<u8>, Seq<u8>)>::empty());
        assert(s.push(e)[0] == e);
        assert(successful_entries(s.push(e)) =~= successful_entries(s) + tail);
    } else {
        lemma_successful_push(s.drop_first(), e);
        assert(s.push(e).drop_first() =~= s.drop_first().push(e));
        assert(s.push(e)[0] == s[0]);
        match s[0].1 {
            JobOutcomeModel::Encoded(v) => {
                assert(successful_entries(s.push(e)) == seq![(s[0].0, v)] + (successful_entries(
                    s.drop_first(),
                ) + tail));
                assert(successful_entries(s) == seq![(s[0].0, v)] + successful_entries(
                    s.drop_first(),
                ));
                assert(seq![(s[0].0, v)] + (successful_entries(s.drop_first()) + tail) =~= (
                seq![(s[0].0, v)] + successful_entries(s.drop_first())) + tail);
            },
            JobOutcomeModel::DecodeFailure => {
                assert(successful_entries(s.push(e)) == successful_entries(s.drop_first()) + tail);
                assert(successful_entries(s) == successful_entries(s.drop_first()));
            },
            JobOutcomeModel::EncodeFailure => {
                assert(successful_entries(s.push(e)) == successful_entries(s.drop_first()) + tail);
                assert(successful_entries(s) == successful_entries(s.drop_first()));
            },
        }
    }
}

/// Appends the bytes of `src` to `out`.
fn push_bytes(out: &mut Vec<u8>, src: &Vec<u8>)
    ensures
        final(out)@ == old(out)@ + src@,
{
    let mut k: usize = 0;
    while k < src.len()
        invariant
            k <= src@.len(),
            out@ == old(out)@ + src@.take(k as int),
        decreases src@.len() - k,
    {
        out.push(src[k]);
        proof {
            assert(old(out)@ + src@.take(k as int) + seq![src@[k as int]] =~= old(out)@
                + src@.take(k as int + 1));
        }
        k = k + 1;
    }
    proof {
        assert(src@.take(src@.len() as int) =~= src@);
    }
}

/// Appends the four little-endian bytes of `n` to `out`.
fn push_le32(out: &mut Vec<u8>, n: u32)
    ensures
        final(out)@ == old(out)@ + le32(n),
{
    proof {
        assert((n & 0xff) < 256 && ((n >> 8) & 0xff) < 256 && ((n >> 16) & 0xff) < 256 && ((n
            >> 24) & 0xff) < 256) by (bit_vector);
    }
    out.push((n & 0xff) as u8);
    out.push(((n >> 8) & 0xff) as u8);
    out.push(((n >> 16) & 0xff) as u8);
    out.push(((n >> 24) & 0xff) as u8);
    proof {
        assert(out@ =~= old(out)@ + le32(n));
    }
}

/// Frames the given named outputs into one archive byte stream, in order:
/// returns the archive, or `None` exactly when some entry's name or data is
/// too long for its 32-bit length field.
pub fn pack_archive(entries: &Vec<(Vec<u8>, Vec<u8>)>) -> (r: Option<Vec<u8>>)
    ensures
        r is Some <==> entries_fit(entries_view(entries@)),
        r matches Some(v) ==> v@ == archive_of(entries_view(entries@)),
{
    let mut out: Vec<u8> = Vec::new();
    let mut i: usize = 0;
    while i < entries.len()
        invariant
            i <= entries@.len(),
            out@ == archive_of(entries_view(entries@).take(i as int)),
            entries_fit(entries_view(entries@).take(i as int)),
        decreases entries@.len() - i,
    {
        let name = &entries[i].0;
        let data = &entries[i].1;
        if name.len() > u32::MAX as usize || data.len() > u32::MAX as usize {
            proof {
                assert(entries_view(entries@)[i as int] == (
                    entries@[i as int].0@,
                    entries@[i as int].1@,
                ));
                assert(!entries_fit(entries_view(entries@)));
            }
            return None;
        }
        push_le32(&mut out, name.len() as u32);
        push_bytes(&mut out, name);
        push_le32(&mut out, data.len() as u32);
        push_bytes(&mut out, data);
        proof {
            let ev = entries_view(entries@);
            lemma_archive_push(ev.take(i as int), ev[i as int]);
            assert(ev.take(i as int).push(ev[i as int]) =~= ev.take(i as int + 1));
            assert(out@ =~= archive_of(ev.take(i as int + 1)));
        }
        i = i + 1;
    }
    proof {
        assert(entries_view(entries@).take(entries@.len() as int) =~= entries_view(entries@));
    }
    Some(out)
}

/// The model of a plain entry list.
pub open spec fn entries_view(es: Seq<(Vec<u8>, Vec<u8>)>) -> Seq<(Seq<u8>, Seq<u8>)> {
    es.map_values(|p: (Vec<u8>, Vec<u8>)| (p.0@, p.1@))
}

/// Packages a batch's results: keeps the successful outputs, in batch
/// order, and frames them into one archive byte stream. Returns `None`
/// exactly when some kept entry is too long for its 32-bit length field.
pub fn package_results(results: Vec<(Vec<u8>, JobOutcome)>) -> (r: Option<Vec<u8>>)
    ensures
        r is Some <==> entries_fit(successful_entries(results_view(results@))),
        r matches Some(v) ==> v@ == archive_of(successful_entries(results_view(results@))),
{
    let ghost results0 = results@;
    let mut rest = results;
    let mut kept: Vec<(Vec<u8>, Vec<u8>)> = Vec::new();
    while rest.len() > 0
        invariant
            rest@.len() <= results0.len(),
            forall|j: int|
                0 <= j < rest@.len() ==> rest@[j] == results0[results0.len() - rest@.len() + j],
            entries_view(kept@) == successful_entries(
                results_view(results0.take(results0.len() - rest@.len())),
            ),
        decreases rest@.len(),
    {
        let ghost done = results0.len() - rest@.len();
        let (name, outcome) = rest.remove(0);
        proof {
            assert(results0[done as int] == (name, outcome));
            lemma_successful_push(
                results_view(results0.take(done as int)),
                (name@, outcome@),
            );
            assert(results_view(results0.take(done as int)).push((name@, outcome@))
                =~= results_view(results0.take(done as int + 1)));
        }
        match outcome {
            JobOutcome::Encoded(data) => {
                kept.push((name, data));
                proof {
                    assert(entries_view(kept@) =~= successful_entries(
                        results_view(results0.take(results0.len() - rest@.len())),
                    ));
                }
            },
            JobOutcome::DecodeFailure => {
                proof {
                    assert(entries_view(kept@) =~= successful_entries(
                        results_view(results0.take(results0.len() - rest@.len())),
                    ));
                }
            },
            JobOutcome::EncodeFailure => {
                proof {
                    assert(entries_view(kept@) =~= successful_entries(
                        results_view(results0.take(results0.len() - rest@.len())),
                    ));
                }
            },
        }
    }
    proof {
        assert(results0.take(results0.len() as int) =~= results0);
    }
    pack_archive(&kept)
}

/// Copies `count` bytes of `src` starting at `start`.
fn copy_range(src: &Vec<u8>, start: usize, count: usize) -> (r: Vec<u8>)
    requires
        start + count <= src@.len(),
    ensures
        r@ == src@.subrange(start as int, start as int + count),
{
    let total: usize = src.len();
    let mut out: Vec<u8> = Vec::new();
    let mut k: usize = 0;
    while k < count
        invariant
            total == src@.len(),
            start + count <= src@.len(),
            k <= count,
            out@ == src@.subrange(start as int, start as int + k),
        decreases count - k,
    {
        out.push(src[start + k]);
        proof {
            assert(src@.subrange(start as int, start as int + k) + seq![
                src@[start as int + k],
            ] =~= src@.subrange(start as int, start as int + k + 1));
        }
        k = k + 1;
    }
    out
}

/// Reads the little-endian 32-bit length at `pos`.
fn read_le32(bytes: &Vec<u8>, pos: usize) -> (n: u32)
    requires
        pos + 4 <= bytes@.len(),
    ensures
        le32(n) == bytes@.subrange(pos as int, pos as int + 4),
{
    let total: usize = bytes.len();
    let b0 = bytes[pos] as u32;
    let b1 = bytes[pos + 1] as u32;
    let b2 = bytes[pos + 2] as u32;
    let b3 = bytes[pos + 3] as u32;
    let n = b0 | (b1 << 8u32) | (b2 << 16u32) | (b3 << 24u32);
    proof {
        assert(b0 < 256 && b1 < 256 && b2 < 256 && b3 < 256);
        assert((n & 0xff) == b0 && ((n >> 8) & 0xff) == b1 && ((n >> 16) & 0xff) == b2 && ((n
            >> 24) & 0xff) == b3) by (bit_vector)
            requires
                n == b0 | (b1 << 8u32) | (b2 << 16u32) | (b3 << 24u32),
                b0 < 256 && b1 < 256 && b2 < 256 && b3 < 256,
        ;
        assert(le32(n) =~= bytes@.subrange(pos as int, pos as int + 4));
    }
    n
}

/// Two equal little-endian length encodings encode the same length.
proof fn lemma_le32_injective(a: u32, b: u32)
    requires
        le32(a) == le32(b),
    ensures
        a == b,
{
    assert(le32(a)[0] == le32(b)[0] && le32(a)[1] == le32(b)[1] && le32(a)[2] == le32(b)[2]
        && le32(a)[3] == le32(b)[3]);
    assert((a & 0xff) < 256 && ((a >> 8) & 0xff) < 256 && ((a >> 16) & 0xff) < 256 && ((a
        >> 24) & 0xff) < 256) by (bit_vector);
    assert((b & 0xff) < 256 && ((b >> 8) & 0xff) < 256 && ((b >> 16) & 0xff) < 256 && ((b
        >> 24) & 0xff) < 256) by (bit_vector);
    assert(a == b) by (bit_vector)
        requires
            (a & 0xff) == (b & 0xff),
            ((a >> 8) & 0xff) == ((b >> 8) & 0xff),
            ((a >> 16) & 0xff) == ((b >> 16) & 0xff),
            ((a >> 24) & 0xff) == ((b >> 24) & 0xff),
    ;
}

/// A nonempty archive of fitting entries opens with its head entry's
/// framing: the two length fields and the two bodies stand at their fixed
/// offsets, and what follows them is the archive of the remaining entries.
proof fn lemma_archive_head(es: Seq<(Seq<u8>, Seq<u8>)>, suffix: Seq<u8>)
    requires
        entries_fit(es),
        suffix == archive_of(es),
        suffix.len() > 0,
    ensures
        es.len() > 0,
        suffix.len() == 8 + es[0].0.len() + es[0].1.len() + archive_of(es.drop_first()).len(),
        suffix.subrange(0, 4) == le32(es[0].0.len() as u32),
        suffix.subrange(4, 4 + es[0].0.len() as int) == es[0].0,
        suffix.subrange(4 + es[0].0.len() as int, 8 + es[0].0.len() as int) == le32(
            es[0].1.len() as u32,
        ),
        suffix.subrange(
            8 + es[0].0.len() as int,
            8 + es[0].0.len() as int + es[0].1.len() as int,
        ) == es[0].1,
        suffix.subrange(
            8 + es[0].0.len() as int + es[0].1.len() as int,
            suffix.len() as int,
        ) == archive_of(es.drop_first()),
{
    assert(es.len() > 0);
    let nl = es[0].0.len() as int;
    let dl = es[0].1.len() as int;
    assert(suffix == entry_bytes(es[0].0, es[0].1) + archive_of(es.drop_first()));
    assert(entry_bytes(es[0].0, es[0].1).len() == 8 + nl + dl);
    assert(suffix.subrange(0, 4) =~= le32(es[0].0.len() as u32));
    assert(suffix.subrange(4, 4 + nl) =~= es[0].0);
    assert(suffix.subrange(4 + nl, 8 + nl) =~= le32(es[0].1.len() as u32));
    assert(suffix.subrange(8 + nl, 8 + nl + dl) =~= es[0].1);
    assert(suffix.subrange(8 + nl + dl, suffix.len() as int) =~= archive_of(es.drop_first()));
}

/// Reads an archive byte stream back into its named entries, exactly:
/// whatever it returns re-frames to the given bytes, so a successful read
/// is always faithful, and every well-formed archive — in particular every
/// `pack_archive` output — is read successfully; only a truncated or
/// malformed stream returns `None`.
#[verifier::rlimit(100)]
pub fn unpack_archive(bytes: &Vec<u8>) -> (r: Option<Vec<(Vec<u8>, Vec<u8>)>>)
    ensures
        r matches Some(es) ==> entries_fit(entries_view(es@)) && archive_of(entries_view(es@))
            == bytes@,
        forall|es: Seq<(Seq<u8>, Seq<u8>)>|
            entries_fit(es) && bytes@ == #[trigger] archive_of(es) ==> r is Some,
{
    let mut out: Vec<(Vec<u8>, Vec<u8>)> = Vec::new();
    let mut pos: usize = 0;
    let len: usize = bytes.len();
    proof {
        assert forall|es: Seq<(Seq<u8>, Seq<u8>)>|
            entries_fit(es) && bytes@ == #[trigger] archive_of(es) implies bytes@.subrange(
            0,
            len as int,
        ) == archive_of(es.skip(0)) by {
            assert(es.skip(0) =~= es);
            assert(bytes@.subrange(0, len as int) =~= bytes@);
        }
    }
    while pos < len
        invariant
            pos <= len,
            len == bytes@.len(),
            entries_fit(entries_view(out@)),
            archive_of(entries_view(out@)) == bytes@.subrange(0, pos as int),
            forall|es: Seq<(Seq<u8>, Seq<u8>)>|
                entries_fit(es) && bytes@ == #[trigger] archive_of(es) ==> out@.len() <= es.len()
                    && bytes@.subrange(pos as int, len as int) == archive_of(
                    es.skip(out@.len() as int),
                ),
        decreases len - pos,
    {
        let ghost pos0 = pos as int;
        let ghost out0 = out@;
        if len - pos < 4 {
            proof {
                assert forall|es: Seq<(Seq<u8>, Seq<u8>)>|
                    entries_fit(es) && bytes@ == #[trigger] archive_of(es) implies false by {
                    lemma_head_at(es, bytes@, pos0, len as int, out0.len() as int);
                }
            }
            return None;
        }
        let name_len = read_le32(bytes, pos);
        if (name_len as usize) > len - pos - 4 {
            proof {
                assert forall|es: Seq<(Seq<u8>, Seq<u8>)>|
                    entries_fit(es) && bytes@ == #[trigger] archive_of(es) implies false by {
                    let es2 = lemma_head_at(es, bytes@, pos0, len as int, out0.len() as int);
                    assert(bytes@.subrange(pos0, pos0 + 4) =~= bytes@.subrange(
                        pos0,
                        len as int,
                    ).subrange(0, 4));
                    lemma_le32_injective(name_len, es2[0].0.len() as u32);
                }
            }
            return None;
        }
        let name = copy_range(bytes, pos + 4, name_len as usize);
        let data_start = pos + 4 + name_len as usize;
        if len - data_start < 4 {
            proof {
                assert forall|es: Seq<(Seq<u8>, Seq<u8>)>|
                    entries_fit(es) && bytes@ == #[trigger] archive_of(es) implies false by {
                    let es2 = lemma_head_at(es, bytes@, pos0, len as int, out0.len() as int);
                    assert(bytes@.subrange(pos0, pos0 + 4) =~= bytes@.subrange(
                        pos0,
                        len as int,
                    ).subrange(0, 4));
                    lemma_le32_injective(name_len, es2[0].0.len() as u32);
                }
            }
            return None;
        }
        let data_len = read_le32(bytes, data_start);
        if (data_len as usize) > len - data_start - 4 {
            proof {
                assert forall|es: Seq<(Seq<u8>, Seq<u8>)>|
                    entries_fit(es) && bytes@ == #[trigger] archive_of(es) implies false by {
                    let es2 = lemma_head_at(es, bytes@, pos0, len as int, out0.len() as int);
                    assert(bytes@.subrange(pos0, pos0 + 4) =~= bytes@.subrange(
                        pos0,
                        len as int,
                    ).subrange(0, 4));
                    lemma_le32_injective(name_len, es2[0].0.len() as u32);
                    let nl = es2[0].0.len() as int;
                    assert(bytes@.subrange(data_start as int, data_start + 4) =~= bytes@.subrange(
                        pos0,
                        len as int,
                    ).subrange(4 + nl, 8 + nl));
                    lemma_le32_injective(data_len, es2[0].1.len() as u32);
                }
            }
            return None;
        }
        let data = copy_range(bytes, data_start + 4, data_len as usize);
        let next = data_start + 4 + data_len as usize;
        proof {
            let ev = entries_view(out@);
            lemma_archive_push(ev, (name@, data@));
            assert(entries_view(out@.push((name, data))) =~= ev.push((name@, data@)));
            assert(entry_bytes(name@, data@) =~= bytes@.subrange(pos as int, next as int));
            assert(archive_of(ev) + bytes@.subrange(pos as int, next as int) =~= bytes@.subrange(
                0,
                next as int,
            ));
            assert(entries_fit(entries_view(out@.push((name, data)))));
        }
        out.push((name, data));
        pos = next;
        proof {
            assert forall|es: Seq<(Seq<u8>, Seq<u8>)>|
                entries_fit(es) && bytes@ == #[trigger] archive_of(es) implies out@.len()
                <= es.len() && bytes@.subrange(pos as int, len as int) == archive_of(
                es.skip(out@.len() as int),
            ) by {
                let k = out0.len() as int;
                let es2 = lemma_head_at(es, bytes@, pos0, len as int, k);
                assert(bytes@.subrange(pos0, pos0 + 4) =~= bytes@.subrange(
                    pos0,
                    len as int,
                ).subrange(0, 4));
                lemma_le32_injective(name_len, es2[0].0.len() as u32);
                let nl = es2[0].0.len() as int;
                assert(bytes@.subrange(pos0 + 4 + nl, pos0 + 8 + nl) =~= bytes@.subrange(
                    pos0,
                    len as int,
                ).subrange(4 + nl, 8 + nl));
                lemma_le32_injective(data_len, es2[0].1.len() as u32);
                let dl = es2[0].1.len() as int;
                assert(name@ =~= bytes@.subrange(pos0, len as int).subrange(4, 4 + nl));
                assert(data@ =~= bytes@.subrange(pos0, len as int).subrange(
                    8 + nl,
                    8 + nl + dl,
                ));
                assert(name@ == es2[0].0 && data@ == es2[0].1);
                assert(es2[0] == es[k]);
                assert(out@ == out0.push((name, data)));
                assert(es2.drop_first() =~= es.skip(k + 1));
                assert(bytes@.subrange(pos as int, len as int) =~= bytes@.subrange(
                    pos0,
                    len as int,
                ).subrange(8 + nl + dl, len - pos0));
            }
        }
    }
    proof {
        assert(bytes@.subrange(0, len as int) =~= bytes@);
    }
    Some(out)
}

/// Instantiates the suffix invariant for one entry list: the bytes from
/// `pos` on are the archive of the entries from `k` on, and that archive
/// opens with entry `k`'s framing.
proof fn lemma_head_at(
    es: Seq<(Seq<u8>, Seq<u8>)>,
    bytes: Seq<u8>,
    pos: int,
    len: int,
    k: int,
) -> (es2: Seq<(Seq<u8>, Seq<u8>)>)
    requires
        entries_fit(es),
        0 <= k <= es.len(),
        0 <= pos < len == bytes.len(),
        bytes.subrange(pos, len) == archive_of(es.skip(k)),
    ensures
        es2 == es.skip(k),
        entries_fit(es2),
        es2.len() > 0,
        es2[0] == es[k],
        k < es.len(),
        bytes.subrange(pos, len).len() == 8 + es2[0].0.len() + es2[0].1.len() + archive_of(
            es2.drop_first(),
        ).len(),
        bytes.subrange(pos, len).subrange(0, 4) == le32(es2[0].0.len() as u32),
        bytes.subrange(pos, len).subrange(4, 4 + es2[0].0.len() as int) == es2[0].0,
        bytes.subrange(pos, len).subrange(
            4 + es2[0].0.len() as int,
            8 + es2[0].0.len() as int,
        ) == le32(es2[0].1.len() as u32),
        bytes.subrange(pos, len).subrange(
            8 + es2[0].0.len() as int,
            8 + es2[0].0.len() as int + es2[0].1.len() as int,
        ) == es2[0].1,
        bytes.subrange(pos, len).subrange(
            8 + es2[0].0.len() as int + es2[0].1.len() as int,
            len - pos,
        ) == archive_of(es2.drop_first()),
{
    let es2 = es.skip(k);
    assert forall|i: int| 0 <= i < es2.len() implies (#[trigger] es2[i]).0.len() <= u32::MAX
        && es2[i].1.len() <= u32::MAX by {
        assert(es2[i] == es[k + i]);
        assert((es[k + i]).0.len() <= u32::MAX && (es[k + i]).1.len() <= u32::MAX);
    }
    lemma_archive_head(es2, bytes.subrange(pos, len));
    es2
}

} // verus!
