use vstd::prelude::*;

verus! {

/// The `n` little-endian bytes of `x` (its low `8 n` bits).
pub open spec fn le_bytes(x: nat, n: nat) -> Seq<u8>
    decreases n,
{
    if n == 0 {
        Seq::empty()
    } else {
        seq![(x % 256) as u8] + le_bytes(x / 256, (n - 1) as nat)
    }
}

/// The number that little-endian bytes `s` encode.
pub open spec fn le_value(s: Seq<u8>) -> nat
    decreases s.len(),
{
    if s.len() == 0 {
        0
    } else {
        s[0] as nat + 256 * le_value(s.drop_first())
    }
}

/// `256` to the power `n`.
pub open spec fn pow256(n: nat) -> nat
    decreases n,
{
    if n == 0 {
        1
    } else {
        256 * pow256((n - 1) as nat)
    }
}

proof fn lemma_le_value_bound(s: Seq<u8>)
    ensures
        le_value(s) < pow256(s.len()),
    decreases s.len(),
{
    if s.len() > 0 {
        lemma_le_value_bound(s.drop_first());
        let a = s[0] as nat;
        let b = le_value(s.drop_first());
        let p = pow256(s.drop_first().len());
        assert(a + 256 * b < 256 * p) by (nonlinear_arith)
            requires
                a < 256,
                b < p,
        ;
    }
}

/// Reading back `n` little-endian bytes gives the number written, when it
/// fits in them.
pub proof fn lemma_le_roundtrip(x: nat, n: nat)
    requires
        x < pow256(n),
    ensures
        le_value(le_bytes(x, n)) == x,
        le_bytes(x, n).len() == n,
    decreases n,
{
    if n > 0 {
        let q = x / 256;
        let p = pow256((n - 1) as nat);
        assert(q < p) by (nonlinear_arith)
            requires
                x < 256 * p,
                q == x / 256,
        ;
        lemma_le_roundtrip(q, (n - 1) as nat);
        let s = le_bytes(x, n);
        assert(s.drop_first() =~= le_bytes(q, (n - 1) as nat));
        assert(x == (x % 256) + 256 * q) by (nonlinear_arith)
            requires
                q == x / 256,
        ;
    }
}

proof fn lemma_pow256_8()
    ensures
        pow256(8) == 0x1_0000_0000_0000_0000,
{
    reveal_with_fuel(pow256, 9);
}

/// The first eight bytes of a record frame: the row it writes, little-endian.
fn push_le64(out: &mut Vec<u8>, x: u64)
    ensures
        final(out)@ == old(out)@ + le_bytes(x as nat, 8),
{
    let ghost start = out@;
    let mut v: u64 = x;
    let mut i: usize = 0;
    while i < 8
        invariant
            i <= 8,
            out@ + le_bytes(v as nat, (8 - i) as nat) == start + le_bytes(x as nat, 8),
        decreases 8 - i,
    {
        let ghost before = out@;
        proof {
            let k = (8 - i) as nat;
            assert(le_bytes(v as nat, k) =~= seq![(v % 256) as u8] + le_bytes((v / 256) as nat, (k - 1) as nat));
        }
        out.push((v % 256) as u8);
        proof {
            let k = (8 - i) as nat;
            assert(out@ + le_bytes((v / 256) as nat, (k - 1) as nat) =~= before + le_bytes(v as nat, k));
        }
        v = v / 256;
        i = i + 1;
    }
    assert(out@ + le_bytes(v as nat, 0) =~= out@);
}

/// A record frame as the log stores it: the row, little-endian in eight
/// bytes, a tombstone byte (`1` for a delete, `0` otherwise), then the
/// record's serialised body.
pub open spec fn frame_spec(row: u64, deleted: bool, body: Seq<u8>) -> Seq<u8> {
    le_bytes(row as nat, 8) + seq![if deleted { 1u8 } else { 0u8 }] + body
}

/// Frames a record write for the log.
pub fn encode_frame(row: u64, deleted: bool, body: &Vec<u8>) -> (out: Vec<u8>)
    ensures
        out@ == frame_spec(row, deleted, body@),
{
    let mut out: Vec<u8> = Vec::new();
    push_le64(&mut out, row);
    out.push(if deleted { 1u8 } else { 0u8 });
    let mut j: usize = 0;
    let ghost head = out@;
    while j < body.len()
        invariant
            j <= body@.len(),
            out@ == head + body@.take(j as int),
        decreases body@.len() - j,
    {
        out.push(body[j]);
        j = j + 1;
        assert(out@ =~= head + body@.take(j as int));
    }
    assert(body@.take(body@.len() as int) =~= body@);
    assert(out@ =~= frame_spec(row, deleted, body@));
    out
}

/// The header of a frame read back from the log.
#[derive(Debug)]
pub struct FrameHeader {
    pub row: u64,
    pub deleted: bool,
}

/// Reads the header of a frame: `None` for one shorter than nine bytes;
/// else its row (the first eight bytes, little-endian) and whether its
/// tombstone byte is set (any value but `0`). The body starts at byte nine.
pub fn decode_frame(payload: &Vec<u8>) -> (h: Option<FrameHeader>)
    ensures
        payload@.len() < 9 ==> h is None,
        payload@.len() >= 9 ==> (h matches Some(fh) && fh.row == le_value(payload@.take(8))
            && fh.deleted == (payload@[8] != 0)),
{
    if payload.len() < 9 {
        return None;
    }
    let mut v: u64 = 0;
    let mut i: usize = 8;
    proof {
        lemma_pow256_8();
    }
    while i > 0
        invariant
            i <= 8,
            payload@.len() >= 9,
            v as nat == le_value(payload@.subrange(i as int, 8)),
            pow256(8) == 0x1_0000_0000_0000_0000,
        decreases i,
    {
        let b = payload[i - 1];
        proof {
            let s = payload@.subrange(i - 1, 8);
            assert(s.drop_first() =~= payload@.subrange(i as int, 8));
            lemma_le_value_bound(s);
            lemma_pow256_mono(s.len(), 8);
        }
        v = v * 256 + b as u64;
        i = i - 1;
    }
    assert(payload@.subrange(0, 8) =~= payload@.take(8));
    Some(FrameHeader { row: v, deleted: payload[8] != 0 })
}

proof fn lemma_pow256_mono(a: nat, b: nat)
    requires
        a <= b,
    ensures
        pow256(a) <= pow256(b),
    decreases b,
{
    if a < b {
        lemma_pow256_mono(a, (b - 1) as nat);
    }
}

/// What a frame decodes to, as a value: its row, its tombstone flag and its
/// body.
pub open spec fn decoded(payload: Seq<u8>) -> Option<(nat, bool, Seq<u8>)> {
    if payload.len() < 9 {
        None
    } else {
        Some((le_value(payload.take(8)), payload[8] != 0, payload.skip(9)))
    }
}

/// A frame read back gives the row, the tombstone flag and the body it was
/// written with.
pub proof fn lemma_frame_roundtrip(row: u64, deleted: bool, body: Seq<u8>)
    ensures
        decoded(frame_spec(row, deleted, body)) == Some((row as nat, deleted, body)),
{
    lemma_pow256_8();
    lemma_le_roundtrip(row as nat, 8);
    let f = frame_spec(row, deleted, body);
    assert(f.take(8) =~= le_bytes(row as nat, 8));
    assert(f.skip(9) =~= body);
}

/// Replays the log over the rows the tombstone file already holds: a frame
/// is applied when it decodes, writes the next row and its body parses;
/// then the next row is expected.
pub struct ReplayCursor {
    pub row_count: usize,
}

/// What to do with a frame met during replay.
#[derive(Debug)]
pub enum ReplayStep {
    /// Too short to be a frame, or a row already present: pass over it.
    Skip,
    /// Parse the body (from byte nine on) and, if it parses, append it as the
    /// next row with this tombstone flag.
    Apply { deleted: bool },
}

impl ReplayCursor {
    /// Starts replay after the `anchor` rows already durable.
    pub fn new(anchor: usize) -> (c: ReplayCursor)
        ensures
            c.row_count == anchor,
    {
        ReplayCursor { row_count: anchor }
    }

    /// Classifies a frame: skipped when it has no header or names a row
    /// below the rows present; else applied with its tombstone flag.
    pub fn classify(&self, payload: &Vec<u8>) -> (step: ReplayStep)
        ensures
            step == replay_step(self.row_count as nat, payload@),
            match decoded(payload@) {
                None => step is Skip,
                Some((row, deleted, _)) => if row < self.row_count {
                    step is Skip
                } else {
                    step == (ReplayStep::Apply { deleted })
                },
            },
    {
        match decode_frame(payload) {
            None => ReplayStep::Skip,
            Some(h) => {
                if h.row < self.row_count as u64 {
                    ReplayStep::Skip
                } else {
                    ReplayStep::Apply { deleted: h.deleted }
                }
            },
        }
    }

    /// Records that an applied frame's body parsed and became the next row.
    pub fn accept(&mut self)
        requires
            old(self).row_count < usize::MAX,
        ensures
            final(self).row_count == old(self).row_count + 1,
    {
        self.row_count = self.row_count + 1;
    }
}

/// The replay decision for `payload` when rows below `row_count` are
/// present.
pub open spec fn replay_step(row_count: nat, payload: Seq<u8>) -> ReplayStep {
    match decoded(payload) {
        None => ReplayStep::Skip,
        Some((row, deleted, _)) => if row < row_count { ReplayStep::Skip } else { ReplayStep::Apply { deleted } },
    }
}

/// A frame written for row `row` is passed over by a replay that already
/// holds that row, and otherwise applied with the tombstone flag it was
/// written with.
pub proof fn lemma_replay_of_written_frame(row_count: nat, row: u64, deleted: bool, body: Seq<u8>)
    ensures
        replay_step(row_count, frame_spec(row, deleted, body)) == (if row < row_count {
            ReplayStep::Skip
        } else {
            ReplayStep::Apply { deleted }
        }),
{
    lemma_frame_roundtrip(row, deleted, body);
}

} // verus!
