//! Run-length encoding of a packed buffer around one byte value.

use vstd::prelude::*;

use crate::error::ConvertError;

verus! {

/// First byte of an escape record.
pub const ESCAPE_LEAD: u8 = 0x18;

/// Second byte of an escape record.
pub const ESCAPE_MARK: u8 = 0xE7;

/// Runs up to this length are written out as literal bytes.
pub const LITERAL_RUN_MAX: u16 = 4;

/// The escape record for a run of `run` copies of `m`: the two marker bytes,
/// `m`, and the run length as a little-endian 16-bit number.
pub open spec fn escape_record(m: u8, run: nat) -> Seq<u8> {
    seq![ESCAPE_LEAD, ESCAPE_MARK, m, (run % 256) as u8, (run / 256 % 256) as u8]
}

/// What a run of `run` copies of `m` turns into once a different byte ends it.
pub open spec fn flushed_run(m: u8, run: nat) -> Seq<u8> {
    if run > LITERAL_RUN_MAX {
        escape_record(m, run)
    } else {
        Seq::new(run, |i: int| m)
    }
}

/// The encoding of `s` when a run of `run` copies of `m` is already pending.
/// A run still pending at the end is not written.
pub open spec fn encode_from(s: Seq<u8>, m: u8, run: nat) -> Seq<u8>
    decreases s.len(),
{
    if s.len() == 0 {
        seq![]
    } else if s[0] == m {
        encode_from(s.drop_first(), m, run + 1)
    } else {
        flushed_run(m, run) + seq![s[0]] + encode_from(s.drop_first(), m, 0)
    }
}

/// The run-length encoding of `s` around the value `m`.
pub open spec fn run_encoding(s: Seq<u8>, m: u8) -> Seq<u8> {
    encode_from(s, m, 0)
}

/// The 65536 bytes of `s` from position `i` on are all `m`.
pub open spec fn long_run_at(s: Seq<u8>, m: u8, i: int) -> bool {
    &&& 0 <= i
    &&& i + 65536 <= s.len()
    &&& forall|k: int| i <= k < i + 65536 ==> s[k] == m
}

/// `s` holds a run of `m` longer than a 16-bit counter can count.
pub open spec fn has_long_run(s: Seq<u8>, m: u8) -> bool {
    exists|i: int| #[trigger] long_run_at(s, m, i)
}

proof fn lemma_only_mode_writes_nothing(m: u8, k: nat, run: nat)
    ensures
        encode_from(Seq::new(k, |i: int| m), m, run) == Seq::<u8>::empty(),
    decreases k,
{
    if k > 0 {
        assert(Seq::new(k, |i: int| m).drop_first() =~= Seq::new((k - 1) as nat, |i: int| m));
        lemma_only_mode_writes_nothing(m, (k - 1) as nat, run + 1);
    }
}

proof fn lemma_trailing_run_from(s: Seq<u8>, m: u8, k: nat, run: nat)
    ensures
        encode_from(s + Seq::new(k, |i: int| m), m, run) == encode_from(s, m, run),
    decreases s.len(),
{
    let tail = Seq::new(k, |i: int| m);
    if s.len() == 0 {
        assert(s + tail =~= tail);
        lemma_only_mode_writes_nothing(m, k, run);
    } else {
        assert((s + tail).drop_first() =~= s.drop_first() + tail);
        assert((s + tail)[0] == s[0]);
        lemma_trailing_run_from(s.drop_first(), m, k, run + 1);
        lemma_trailing_run_from(s.drop_first(), m, k, 0);
    }
}

/// Copies of `m` at the end of a buffer leave its encoding around `m`
/// unchanged: a run that no other byte ends is never written.
pub proof fn lemma_trailing_run_dropped(s: Seq<u8>, m: u8, k: nat)
    ensures
        run_encoding(s + Seq::new(k, |i: int| m), m) == run_encoding(s, m),
{
    lemma_trailing_run_from(s, m, k, 0);
}

/// Run-length encodes `buf` around `m`: a run of more than four copies of
/// `m` becomes an escape record, a shorter one stays literal, and each is
/// followed by the byte that ended it. A run that reaches the end of `buf` is
/// left out.
pub fn encode_runs(buf: &Vec<u8>, m: u8) -> (r: Result<Vec<u8>, ConvertError>)
    ensures
        r is Err <==> has_long_run(buf@, m),
        r is Err ==> r->Err_0 == ConvertError::RunTooLong,
        r is Ok ==> r->Ok_0@ == run_encoding(buf@, m),
{
    let ghost s = buf@;
    let mut out: Vec<u8> = Vec::new();
    let mut count: u16 = 0;
    let mut i: usize = 0;
    proof {
        assert(s.skip(0) =~= s);
        assert forall|j: int| !#[trigger] long_run_at(s.take(0), m, j) by {}
    }
    while i < buf.len()
        invariant
            s == buf@,
            0 <= i <= s.len(),
            count <= i,
            forall|k: int| i - count <= k < i ==> s[k] == m,
            count < i ==> s[i - count - 1] != m,
            forall|j: int| !#[trigger] long_run_at(s.take(i as int), m, j),
            out@ + encode_from(s.skip(i as int), m, count as nat) == run_encoding(s, m),
        decreases s.len() - i,
    {
        let x: u8 = buf[i];
        let ghost ii = i as int;
        let ghost out0 = out@;
        let ghost c0 = count as nat;
        proof {
            assert(s.skip(ii).drop_first() =~= s.skip(ii + 1));
            assert(s.skip(ii)[0] == x);
        }
        if x == m {
            if count == 65535 {
                proof {
                    assert(long_run_at(s, m, ii - 65535));
                }
                return Err(ConvertError::RunTooLong);
            }
            count = count + 1;
        } else if count > LITERAL_RUN_MAX {
            out.push(ESCAPE_LEAD);
            out.push(ESCAPE_MARK);
            out.push(m);
            out.push(count as u8);
            out.push((count >> 8) as u8);
            out.push(x);
            proof {
                assert(count as u8 == (count % 256) as u8 && (count >> 8u16) as u8 == (count / 256)
                    as u8) by (bit_vector);
                assert(out@ =~= out0 + flushed_run(m, c0) + seq![x]);
                assert(out0 + (flushed_run(m, c0) + seq![x] + encode_from(s.skip(ii + 1), m, 0))
                    =~= out@ + encode_from(s.skip(ii + 1), m, 0));
            }
            count = 0;
        } else {
            while count > 0
                invariant
                    count <= c0,
                    out@ =~= out0 + Seq::new((c0 - count) as nat, |k: int| m),
                decreases count,
            {
                out.push(m);
                count = count - 1;
            }
            out.push(x);
            proof {
                assert(out@ =~= out0 + flushed_run(m, c0) + seq![x]);
                assert(out0 + (flushed_run(m, c0) + seq![x] + encode_from(s.skip(ii + 1), m, 0))
                    =~= out@ + encode_from(s.skip(ii + 1), m, 0));
            }
        }
        proof {
            assert forall|j: int| !#[trigger] long_run_at(s.take(ii + 1), m, j) by {
                if long_run_at(s.take(ii + 1), m, j) {
                    if j + 65536 <= ii {
                        assert(long_run_at(s.take(ii), m, j));
                    } else {
                        assert(s.take(ii + 1)[ii] == x);
                        assert(s.take(ii + 1)[ii - c0 - 1] == s[ii - c0 - 1]);
                    }
                }
            }
        }
        i = i + 1;
    }
    proof {
        assert(s.take(s.len() as int) =~= s);
        assert(s.skip(s.len() as int).len() == 0);
        assert(out@ + seq![] =~= out@);
        if has_long_run(s, m) {
            let j = choose|j: int| long_run_at(s, m, j);
            assert(long_run_at(s.take(s.len() as int), m, j));
        }
    }
    Ok(out)
}

} // verus!
