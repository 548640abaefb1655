use vstd::prelude::*;

verus! {

/// One operation of the encoded stream.
#[derive(Clone, Copy, Debug, PartialEq, Eq, Structural)]
pub enum QoiOp {
    /// Full colour; alpha unchanged.
    RGB { r: u8, g: u8, b: u8 },
    /// Full pixel.
    RGBA { r: u8, g: u8, b: u8, a: u8 },
    /// A slot of the 64-entry cache.
    Index { idx: u8 },
    /// Per-channel deltas in 0..=3, bias 2.
    Diff { dr: u8, dg: u8, db: u8 },
    /// Green delta in 0..=63 (bias 32), red and blue relative to it in 0..=15 (bias 8).
    Luma { dg: u8, dr_dg: u8, db_dg: u8 },
    /// Repeat the previous pixel `len` times, `len` in 1..=62.
    Run { len: u8 },
}

/// The lead byte of an RGB operation.
pub const TAG_RGB: u8 = 0xfe;

/// The lead byte of an RGBA operation.
pub const TAG_RGBA: u8 = 0xff;

impl QoiOp {
    /// Every field lies in the range of its bit field.
    pub open spec fn wf(self) -> bool {
        match self {
            QoiOp::RGB { .. } => true,
            QoiOp::RGBA { .. } => true,
            QoiOp::Index { idx } => idx < 64,
            QoiOp::Diff { dr, dg, db } => dr <= 3 && dg <= 3 && db <= 3,
            QoiOp::Luma { dg, dr_dg, db_dg } => dg < 64 && dr_dg < 16 && db_dg < 16,
            QoiOp::Run { len } => 1 <= len <= 62,
        }
    }

    /// The wire form of the operation.
    pub open spec fn bytes_spec(self) -> Seq<u8> {
        match self {
            QoiOp::RGB { r, g, b } => seq![TAG_RGB, r, g, b],
            QoiOp::RGBA { r, g, b, a } => seq![TAG_RGBA, r, g, b, a],
            QoiOp::Index { idx } => seq![idx],
            QoiOp::Diff { dr, dg, db } => seq![(64 + 16 * dr + 4 * dg + db) as u8],
            QoiOp::Luma { dg, dr_dg, db_dg } => seq![(128 + dg) as u8, (16 * dr_dg + db_dg) as u8],
            QoiOp::Run { len } => seq![(192 + len - 1) as u8],
        }
    }

    /// The operation at the front of `s` and the number of bytes it takes, or `None`
    /// where `s` is empty or too short for the operation its lead byte announces.
    #[verifier::opaque]
    pub open spec fn parse_spec(s: Seq<u8>) -> Option<(QoiOp, int)> {
        if s.len() == 0 {
            None
        } else {
            let x = s[0];
            if x == TAG_RGB {
                if s.len() >= 4 {
                    Some((QoiOp::RGB { r: s[1], g: s[2], b: s[3] }, 4))
                } else {
                    None
                }
            } else if x == TAG_RGBA {
                if s.len() >= 5 {
                    Some((QoiOp::RGBA { r: s[1], g: s[2], b: s[3], a: s[4] }, 5))
                } else {
                    None
                }
            } else if x < 64 {
                Some((QoiOp::Index { idx: x }, 1))
            } else if x < 128 {
                Some((QoiOp::Diff { dr: ((x / 16) % 4) as u8, dg: ((x / 4) % 4) as u8, db: (x % 4) as u8 }, 1))
            } else if x < 192 {
                if s.len() >= 2 {
                    Some((QoiOp::Luma { dg: (x - 128) as u8, dr_dg: (s[1] / 16) as u8, db_dg: (s[1] % 16) as u8 }, 2))
                } else {
                    None
                }
            } else {
                Some((QoiOp::Run { len: (x - 191) as u8 }, 1))
            }
        }
    }

    /// What parsing yields is in range and takes between one byte and all of them.
    pub proof fn lemma_parse_wf(s: Seq<u8>)
        ensures
            QoiOp::parse_spec(s) matches Some((op, n)) ==> op.wf() && 1 <= n <= s.len(),
    {
        reveal(QoiOp::parse_spec);
    }

    /// Parsing an operation's wire form, whatever follows it, gives the operation back.
    pub proof fn lemma_parse_bytes(self, rest: Seq<u8>)
        requires
            self.wf(),
        ensures
            QoiOp::parse_spec(self.bytes_spec() + rest) == Some((self, self.bytes_spec().len() as int)),
            1 <= self.bytes_spec().len() <= 5,
    {
        reveal(QoiOp::parse_spec);
        let s = self.bytes_spec() + rest;
        assert(s[0] == self.bytes_spec()[0]);
        match self {
            QoiOp::RGB { r, g, b } => {
                assert(s[1] == r && s[2] == g && s[3] == b);
            },
            QoiOp::RGBA { r, g, b, a } => {
                assert(s[1] == r && s[2] == g && s[3] == b && s[4] == a);
            },
            QoiOp::Luma { dg, dr_dg, db_dg } => {
                assert(s[1] == self.bytes_spec()[1]);
            },
            _ => {},
        }
    }

    /// The wire form of the operation.
    pub fn to_bytes(&self) -> (r: Vec<u8>)
        requires
            self.wf(),
        ensures
            r@ == self.bytes_spec(),
    {
        match *self {
            QoiOp::RGB { r, g, b } => vec![TAG_RGB, r, g, b],
            QoiOp::RGBA { r, g, b, a } => vec![TAG_RGBA, r, g, b, a],
            QoiOp::Index { idx } => vec![idx],
            QoiOp::Diff { dr, dg, db } => vec![64 + 16 * dr + 4 * dg + db],
            QoiOp::Luma { dg, dr_dg, db_dg } => vec![128 + dg, 16 * dr_dg + db_dg],
            QoiOp::Run { len } => vec![192 + (len - 1)],
        }
    }

    fn from_bytes_impl(buf: &[u8]) -> (r: Option<(QoiOp, &[u8])>)
        ensures
            match QoiOp::parse_spec(buf@) {
                Some((op, n)) => r matches Some((o, rest)) && o == op && rest@ == buf@.skip(n),
                None => r is None,
            },
    {
        reveal(QoiOp::parse_spec);
        if buf.len() == 0 {
            return None;
        }
        let x = buf[0];
        let (op, n): (QoiOp, usize) = if x == TAG_RGB {
            if buf.len() < 4 {
                return None;
            }
            (QoiOp::RGB { r: buf[1], g: buf[2], b: buf[3] }, 4)
        } else if x == TAG_RGBA {
            if buf.len() < 5 {
                return None;
            }
            (QoiOp::RGBA { r: buf[1], g: buf[2], b: buf[3], a: buf[4] }, 5)
        } else if x < 64 {
            (QoiOp::Index { idx: x }, 1)
        } else if x < 128 {
            (QoiOp::Diff { dr: (x / 16) % 4, dg: (x / 4) % 4, db: x % 4 }, 1)
        } else if x < 192 {
            if buf.len() < 2 {
                return None;
            }
            (QoiOp::Luma { dg: x - 128, dr_dg: buf[1] / 16, db_dg: buf[1] % 16 }, 2)
        } else {
            (QoiOp::Run { len: x - 191 }, 1)
        };
        let rest = &buf[n..buf.len()];
        assert(rest@ =~= buf@.skip(n as int));
        Some((op, rest))
    }

    /// Parses the operation at the front of `buf`. Returns it with the bytes after it,
    /// or `None` with `buf` itself where `buf` is too short for it.
    pub fn from_bytes(buf: &[u8]) -> (r: (Option<QoiOp>, &[u8]))
        ensures
            match QoiOp::parse_spec(buf@) {
                Some((op, n)) => r.0 == Some(op) && r.1@ == buf@.skip(n),
                None => r.0 is None && r.1@ == buf@,
            },
    {
        match QoiOp::from_bytes_impl(buf) {
            Some((op, rest)) => (Some(op), rest),
            None => (None, buf),
        }
    }
}

} // verus!
