use vstd::prelude::*;
use crate::time::Timestamp;

verus! {

/// The ASCII decimal digits of `n`.
pub open spec fn dec(n: nat) -> Seq<u8>
    decreases n,
{
    if n < 10 {
        seq![(48 + n) as u8]
    } else {
        dec(n / 10).push((48 + n % 10) as u8)
    }
}

/// The ASCII decimal form of `n`, with a leading `-` when negative.
pub open spec fn signed_dec(n: int) -> Seq<u8> {
    if n < 0 { seq![45u8] + dec((-n) as nat) } else { dec(n as nat) }
}

/// `=== [<stamp>] task <id> exit <status> ===` and a newline.
pub open spec fn header_bytes(stamp: Seq<u8>, id: u64, status: i32) -> Seq<u8> {
    seq![61u8, 61, 61, 32, 91] + stamp + seq![93u8, 32, 116, 97, 115, 107, 32] + dec(id as nat)
        + seq![32u8, 101, 120, 105, 116, 32] + signed_dec(status as int) + seq![32u8, 61, 61, 61, 10]
}

/// A newline, `--- stderr ---` and a newline.
pub open spec fn stderr_separator() -> Seq<u8> {
    seq![10u8, 45, 45, 45, 32, 115, 116, 100, 101, 114, 114, 32, 45, 45, 45, 10]
}

/// What one run writes to its output file: the header, the captured standard
/// output as it was written, then, if the command wrote to standard error, a
/// separator and those bytes.
pub open spec fn record_bytes(stamp: Seq<u8>, id: u64, status: i32, out: Seq<u8>, err: Seq<u8>) -> Seq<u8> {
    header_bytes(stamp, id, status) + out + (if err.len() > 0 {
        stderr_separator() + err
    } else {
        Seq::<u8>::empty()
    })
}

fn push_dec(buf: &mut Vec<u8>, n: u64)
    ensures
        final(buf)@ == old(buf)@ + dec(n as nat),
    decreases n,
{
    if n >= 10 {
        push_dec(buf, n / 10);
    }
    buf.push((48 + n % 10) as u8);
    proof {
        if n < 10 {
            assert(final(buf)@ =~= old(buf)@ + dec(n as nat));
        }
    }
}

fn push_bytes(buf: &mut Vec<u8>, bytes: &Vec<u8>)
    ensures
        final(buf)@ == old(buf)@ + bytes@,
{
    let mut i: usize = 0;
    while i < bytes.len()
        invariant
            i <= bytes@.len(),
            buf@ == old(buf)@ + bytes@.take(i as int),
        decreases bytes@.len() - i,
    {
        buf.push(bytes[i]);
        i = i + 1;
        assert(buf@ =~= old(buf)@ + bytes@.take(i as int));
    }
    assert(bytes@.take(i as int) =~= bytes@);
}

/// The bytes one run of task `id` writes to its output file, given the text of
/// its completion time, its exit code and what it wrote to its two streams.
pub fn output_record(
    stamp: &Vec<u8>,
    id: u64,
    status: i32,
    out: &Vec<u8>,
    err: &Vec<u8>,
) -> (r: Vec<u8>)
    ensures
        r@ == record_bytes(stamp@, id, status, out@, err@),
{
    let mut buf: Vec<u8> = vec![61u8, 61, 61, 32, 91];
    push_bytes(&mut buf, stamp);
    push_bytes(&mut buf, &vec![93u8, 32, 116, 97, 115, 107, 32]);
    push_dec(&mut buf, id);
    push_bytes(&mut buf, &vec![32u8, 101, 120, 105, 116, 32]);
    if status < 0 {
        buf.push(45u8);
        push_dec(&mut buf, (-(status as i64)) as u64);
    } else {
        push_dec(&mut buf, status as u64);
    }
    push_bytes(&mut buf, &vec![32u8, 61, 61, 61, 10]);
    let ghost head = buf@;
    assert(head =~= header_bytes(stamp@, id, status));
    push_bytes(&mut buf, out);
    if err.len() > 0 {
        push_bytes(&mut buf, &vec![10u8, 45, 45, 45, 32, 115, 116, 100, 101, 114, 114, 32, 45, 45, 45, 10]);
        push_bytes(&mut buf, err);
    }
    assert(buf@ =~= record_bytes(stamp@, id, status, out@, err@));
    buf
}

/// How chrono writes an instant in its offset, or `None` where chrono cannot
/// hold the instant.
pub uninterp spec fn timestamp_text_of(t: Timestamp) -> Option<Seq<u8>>;

/// Relies on chrono's `DateTime::from_timestamp`, `FixedOffset::east_opt` and
/// the `Display` of `DateTime<FixedOffset>`, which depend on the instant and
/// offset alone.
#[verifier::external_body]
fn timestamp_text(t: Timestamp) -> (r: Option<Vec<u8>>)
    ensures
        r matches Some(v) ==> timestamp_text_of(t) == Some(v@),
        r is None ==> timestamp_text_of(t) is None,
{
    let off = chrono::FixedOffset::east_opt(t.offset_secs)?;
    let d = chrono::DateTime::from_timestamp(t.secs, t.nanos)?;
    Some(format!("{}", d.with_timezone(&off)).into_bytes())
}

/// The bytes one run writes to its output file, its completion time written as
/// chrono writes it; `None` where chrono cannot hold that time.
pub fn output_record_at(
    finished: Timestamp,
    id: u64,
    status: i32,
    out: &Vec<u8>,
    err: &Vec<u8>,
) -> (r: Option<Vec<u8>>)
    ensures
        match timestamp_text_of(finished) {
            Some(stamp) => r matches Some(v) && v@ == record_bytes(stamp, id, status, out@, err@),
            None => r is None,
        },
{
    match timestamp_text(finished) {
        Some(stamp) => Some(output_record(&stamp, id, status, out, err)),
        None => None,
    }
}

} // verus!
