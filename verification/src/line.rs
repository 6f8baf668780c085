//! Lines of text, the `ping` command and the decimal form of a count.

use vstd::prelude::*;
use vstd::slice::slice_to_vec;
use vstd::utf8::*;

verus! {

/// The byte that ends a line on the wire.
pub const NEWLINE: u8 = 0x0a;

/// The content of a line: well-formed UTF-8 that holds no delimiter.
pub open spec fn is_line(s: Seq<u8>) -> bool {
    &&& valid_utf8(s)
    &&& forall|i: int| 0 <= i < s.len() ==> s[i] != NEWLINE
}

/// The bytes of the one command of the protocol, `ping`.
pub open spec fn ping() -> Seq<u8> {
    seq![0x70u8, 0x69u8, 0x6eu8, 0x67u8]
}

/// The ASCII digit for `d`, which is below ten.
pub open spec fn digit(d: nat) -> u8
    recommends
        d < 10,
{
    (0x30 + d) as u8
}

/// The decimal digits of `n`, most significant first, without leading zeros.
pub open spec fn decimal(n: nat) -> Seq<u8>
    decreases n,
{
    if n < 10 {
        seq![digit(n)]
    } else {
        decimal(n / 10).push(digit(n % 10))
    }
}

/// Bytes below 0x80 are one-byte scalars, so a run of them is well-formed UTF-8.
pub proof fn lemma_ascii_is_utf8(s: Seq<u8>)
    requires
        forall|i: int| 0 <= i < s.len() ==> s[i] < 0x80,
    ensures
        valid_utf8(s),
{
    assert(partial_valid_utf8(s, 0)) by {
        assert(s.subrange(0, 0).len() == 0);
    }
    partial_valid_utf8_extend_ascii_block(s, 0, s.len() as int);
    assert(s.subrange(0, s.len() as int) =~= s);
}

/// Every digit of a decimal form lies in `'0'..='9'`.
pub proof fn lemma_decimal_digits(n: nat)
    ensures
        decimal(n).len() >= 1,
        forall|i: int| 0 <= i < decimal(n).len() ==> 0x30 <= #[trigger] decimal(n)[i] <= 0x39,
    decreases n,
{
    if n >= 10 {
        lemma_decimal_digits(n / 10);
    }
}

/// The decimal form of a count is a line.
pub proof fn lemma_decimal_is_line(n: nat)
    ensures
        is_line(decimal(n)),
{
    lemma_decimal_digits(n);
    lemma_ascii_is_utf8(decimal(n));
}

/// One line of text, without its delimiter.
#[derive(Clone, Debug)]
pub struct Line {
    bytes: Vec<u8>,
}

impl View for Line {
    type V = Seq<u8>;

    closed spec fn view(&self) -> Seq<u8> {
        self.bytes@
    }
}

fn push_decimal(n: u64, out: &mut Vec<u8>)
    ensures
        final(out)@ == old(out)@ + decimal(n as nat),
    decreases n,
{
    if n >= 10 {
        push_decimal(n / 10, out);
    }
    let d: u8 = (n % 10) as u8;
    out.push(0x30 + d);
    assert(out@ =~= old(out)@ + decimal(n as nat));
}

impl Line {
    /// Every line is well-formed: no delimiter inside, and UTF-8 throughout.
    pub open spec fn wf(&self) -> bool {
        is_line(self@)
    }

    /// The line that reports the count `n`.
    pub fn decimal(n: u64) -> (line: Line)
        ensures
            line.wf(),
            line@ == decimal(n as nat),
    {
        let mut bytes: Vec<u8> = Vec::new();
        push_decimal(n, &mut bytes);
        proof {
            lemma_decimal_is_line(n as nat);
            assert(bytes@ =~= decimal(n as nat));
        }
        Line { bytes }
    }

    /// The line that a frame carries: the frame without the delimiter that ends it.
    pub(crate) fn from_frame(frame: Vec<u8>) -> (line: Line)
        requires
            frame@.len() >= 1,
            frame@.last() == NEWLINE,
            forall|i: int| 0 <= i < frame@.len() - 1 ==> frame@[i] != NEWLINE,
            valid_utf8(frame@),
        ensures
            line.wf(),
            line@ == frame@.drop_last(),
    {
        let mut bytes = frame;
        bytes.pop();
        proof {
            let last = frame@.len() - 1;
            assert(!is_continuation_byte(frame@[last]));
            is_char_boundary_iff_not_is_continuation_byte(frame@, last);
            valid_utf8_split(frame@, last);
        }
        Line { bytes }
    }

    /// The frame that carries the line: its bytes, then one delimiter.
    pub(crate) fn to_frame(&self) -> (frame: Vec<u8>)
        requires
            self.wf(),
        ensures
            frame@ == self@.push(NEWLINE),
            valid_utf8(frame@),
    {
        let mut frame = slice_to_vec(self.bytes.as_slice());
        frame.push(NEWLINE);
        proof {
            lemma_ascii_is_utf8(seq![NEWLINE]);
            valid_utf8_concat(self@, seq![NEWLINE]);
            assert(self@ + seq![NEWLINE] =~= self@.push(NEWLINE));
        }
        frame
    }

    /// The bytes of the line.
    pub fn as_bytes(&self) -> (bytes: &[u8])
        ensures
            bytes@ == self@,
    {
        self.bytes.as_slice()
    }

    /// Whether the line is the `ping` command, byte for byte.
    pub fn is_ping(&self) -> (yes: bool)
        ensures
            yes == (self@ == ping()),
    {
        let yes = self.bytes.len() == 4 && self.bytes[0] == 0x70 && self.bytes[1] == 0x69
            && self.bytes[2] == 0x6e && self.bytes[3] == 0x67;
        proof {
            if yes {
                assert(self@ =~= ping());
            }
        }
        yes
    }
}

} // verus!
