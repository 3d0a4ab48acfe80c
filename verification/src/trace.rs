//! Chrome trace output: the exact byte stream of the trace file.
//!
//! The trace is a JSON array: `[`, comma-separated complete events
//! (`ph:"X"`), closed by `]`.  `Trace` builds those bytes; opening the
//! file, taking timestamps and writing the bytes out belong to the caller,
//! which hands in microsecond values relative to the trace start.

use vstd::prelude::*;
use vstd::string::StrSliceExecFns;
use vstd::string::StringSliceAdditionalSpecFns;

verus! {

/// Decimal digits of `n`, most significant first, no sign, no padding.
pub open spec fn dec_bytes(n: nat) -> Seq<u8>
    decreases n,
{
    if n < 10 {
        seq![(0x30 + n) as u8]
    } else {
        dec_bytes(n / 10) + seq![(0x30 + n % 10) as u8]
    }
}

/// Render `n` in decimal.
pub fn render_decimal(n: u64) -> (r: Vec<u8>)
    ensures
        r@ == dec_bytes(n as nat),
{
    let mut digits: Vec<u8> = Vec::new();
    let mut m: u64 = n;
    while m >= 10
        invariant
            dec_bytes(n as nat) == dec_bytes(m as nat) + digits@.reverse(),
        decreases m,
    {
        let ghost pre = digits@;
        digits.push(0x30 + (m % 10) as u8);
        proof {
            assert(digits@.reverse() =~= seq![(0x30 + (m as nat) % 10) as u8] + pre.reverse());
            assert(dec_bytes(m as nat)
                == dec_bytes((m as nat) / 10) + seq![(0x30 + (m as nat) % 10) as u8]);
        }
        m = m / 10;
    }
    let ghost pre = digits@;
    digits.push(0x30 + m as u8);
    proof {
        assert(digits@.reverse() =~= seq![(0x30 + m as nat) as u8] + pre.reverse());
        assert(dec_bytes(m as nat) == seq![(0x30 + m as nat) as u8]);
    }
    let mut r: Vec<u8> = Vec::new();
    let mut i: usize = digits.len();
    while i > 0
        invariant
            0 <= i <= digits@.len(),
            r@.len() == digits@.len() - i,
            forall|k: int| 0 <= k < r@.len() ==> r@[k] == digits@[digits@.len() - 1 - k],
        decreases i,
    {
        i = i - 1;
        r.push(digits[i]);
    }
    proof {
        assert(r@ =~= digits@.reverse());
    }
    r
}

/// The lower-case hex digit for `d`.
pub open spec fn hex_digit(d: u8) -> u8 {
    if d < 10 {
        (0x30 + d) as u8
    } else {
        (0x57 + d) as u8
    }
}

/// The escaped form of one byte inside a JSON string literal: quote and
/// backslash get a backslash escape, control bytes a `\u00XX` escape, and
/// everything else stands for itself.
pub open spec fn esc_byte(b: u8) -> Seq<u8> {
    if b == 0x22 {
        seq![0x5c, 0x22]
    } else if b == 0x5c {
        seq![0x5c, 0x5c]
    } else if b < 0x20 {
        seq![0x5c, 0x75, 0x30, 0x30, hex_digit(b >> 4), hex_digit(b & 0x0f)]
    } else {
        seq![b]
    }
}

/// `s` escaped byte by byte for use inside a JSON string literal.
pub open spec fn esc_bytes(s: Seq<u8>) -> Seq<u8>
    decreases s.len(),
{
    if s.len() == 0 {
        Seq::empty()
    } else {
        esc_bytes(s.drop_last()) + esc_byte(s.last())
    }
}

/// Append the escaped form of `bytes` to `buf`.
fn append_escaped(buf: &mut Vec<u8>, bytes: &[u8])
    ensures
        final(buf)@ == old(buf)@ + esc_bytes(bytes@),
{
    let mut i: usize = 0;
    while i < bytes.len()
        invariant
            0 <= i <= bytes@.len(),
            buf@ == old(buf)@ + esc_bytes(bytes@.take(i as int)),
        decreases bytes@.len() - i,
    {
        let b = bytes[i];
        if b == 0x22 {
            buf.push(0x5c);
            buf.push(0x22);
        } else if b == 0x5c {
            buf.push(0x5c);
            buf.push(0x5c);
        } else if b < 0x20 {
            proof {
                assert(b >> 4 < 16 && b & 0x0f < 16) by (bit_vector);
            }
            let hi = b >> 4;
            let lo = b & 0x0f;
            buf.push(0x5c);
            buf.push(0x75);
            buf.push(0x30);
            buf.push(0x30);
            buf.push(if hi < 10 { 0x30 + hi } else { 0x57 + hi });
            buf.push(if lo < 10 { 0x30 + lo } else { 0x57 + lo });
        } else {
            buf.push(b);
        }
        proof {
            assert(bytes@.take(i as int + 1).drop_last() =~= bytes@.take(i as int));
            assert(bytes@.take(i as int + 1).last() == bytes@[i as int]);
            assert(buf@ =~= old(buf)@ + esc_bytes(bytes@.take(i as int)) + esc_byte(bytes@[i as int]));
        }
        i += 1;
    }
    proof {
        assert(bytes@.take(bytes@.len() as int) =~= bytes@);
    }
}

/// The bytes a complete event contributes up to and including its `ts`
/// field; `first` says whether it is the first event of the array, which
/// gets no leading comma.
pub open spec fn prefix_bytes(first: bool, name: Seq<u8>, ts_us: nat) -> Seq<u8> {
    (if first {
        Seq::<u8>::empty()
    } else {
        ",".spec_bytes()
    }) + "{\"pid\":0, \"name\":\"".spec_bytes() + esc_bytes(name) + "\", \"ts\":".spec_bytes()
        + dec_bytes(ts_us) + ", ".spec_bytes()
}

/// The remaining bytes of a complete event: thread id, phase and duration.
pub open spec fn suffix_bytes(tid: nat, dur_us: nat) -> Seq<u8> {
    "\"tid\": ".spec_bytes() + dec_bytes(tid) + ", \"ph\":\"X\", \"dur\":".spec_bytes()
        + dec_bytes(dur_us) + "}\n".spec_bytes()
}

/// The full bytes of one complete (`ph:"X"`) trace event.
pub open spec fn event_bytes(first: bool, name: Seq<u8>, tid: nat, ts_us: nat, dur_us: nat) -> Seq<u8> {
    prefix_bytes(first, name, ts_us) + suffix_bytes(tid, dur_us)
}

/// An in-memory Chrome trace stream.
pub struct Trace {
    buf: Vec<u8>,
    count: usize,
}

impl Trace {
    /// The bytes of the trace stream so far.
    pub closed spec fn out(&self) -> Seq<u8> {
        self.buf@
    }

    /// How many events have been written.
    pub closed spec fn events(&self) -> nat {
        self.count as nat
    }

    /// A new trace stream: the opening bracket of the JSON array.
    pub fn new() -> (t: Trace)
        ensures
            t.out() == "[\n".spec_bytes(),
            t.events() == 0,
    {
        let buf = ("[\n").as_bytes_vec();
        Trace { buf, count: 0 }
    }

    /// Write everything of one event up to its `ts` field: the separating
    /// comma (unless this is the first event), pid, name and timestamp.
    fn write_event_prefix(&mut self, name: &str, ts_us: u64)
        ensures
            final(self).out() == old(self).out()
                + prefix_bytes(old(self).events() == 0, name.spec_bytes(), ts_us as nat),
            final(self).events() == if old(self).events() < usize::MAX {
                old(self).events() + 1
            } else {
                old(self).events()
            },
    {
        if self.count > 0 {
            let mut comma = (",").as_bytes_vec();
            self.buf.append(&mut comma);
        }
        if self.count < usize::MAX {
            self.count += 1;
        }
        let mut open = ("{\"pid\":0, \"name\":\"").as_bytes_vec();
        self.buf.append(&mut open);
        append_escaped(&mut self.buf, name.as_bytes());
        let mut mid = ("\", \"ts\":").as_bytes_vec();
        self.buf.append(&mut mid);
        let mut ts = render_decimal(ts_us);
        self.buf.append(&mut ts);
        let mut sep = (", ").as_bytes_vec();
        self.buf.append(&mut sep);
    }

    /// Write one complete event: `name` ran on thread `tid` from `ts_us`
    /// for `dur_us` microseconds.
    pub fn write_complete(&mut self, name: &str, tid: usize, ts_us: u64, dur_us: u64)
        ensures
            final(self).out() == old(self).out()
                + event_bytes(
                    old(self).events() == 0,
                    name.spec_bytes(),
                    tid as nat,
                    ts_us as nat,
                    dur_us as nat,
                ),
            final(self).events() == if old(self).events() < usize::MAX {
                old(self).events() + 1
            } else {
                old(self).events()
            },
    {
        self.write_event_prefix(name, ts_us);
        let mut tid_part = ("\"tid\": ").as_bytes_vec();
        self.buf.append(&mut tid_part);
        let mut tid_dec = render_decimal(tid as u64);
        self.buf.append(&mut tid_dec);
        let mut ph = (", \"ph\":\"X\", \"dur\":").as_bytes_vec();
        self.buf.append(&mut ph);
        let mut dur = render_decimal(dur_us);
        self.buf.append(&mut dur);
        let mut close_brace = ("}\n").as_bytes_vec();
        self.buf.append(&mut close_brace);
    }

    /// Close the stream: one final event covering the whole run
    /// (`dur_us` microseconds), then the closing bracket of the array.
    pub fn close(&mut self, dur_us: u64)
        ensures
            final(self).out() == old(self).out()
                + event_bytes(
                    old(self).events() == 0,
                    "main".spec_bytes(),
                    0,
                    0,
                    dur_us as nat,
                ) + "]\n".spec_bytes(),
    {
        self.write_complete("main", 0, 0, dur_us);
        let mut end = ("]\n").as_bytes_vec();
        self.buf.append(&mut end);
    }

    /// Hand the accumulated bytes to the caller, consuming the stream.
    pub fn into_bytes(self) -> (r: Vec<u8>)
        ensures
            r@ == self.out(),
    {
        self.buf
    }
}

} // verus!
