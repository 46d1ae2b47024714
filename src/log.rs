use vstd::prelude::*;

use crate::vector::Vec3;

verus! {

/// Microseconds in one frame at sixty frames per second.
pub const MICROS_PER_FRAME: u64 = 16_666;

/// A span of time, shown as whole frames and thousandths of a frame.
#[derive(Clone, Copy, Debug, PartialEq, Eq, Structural)]
pub struct FrameTime {
    pub micros: u64,
}

impl FrameTime {
    pub fn new(micros: u64) -> (r: FrameTime)
        ensures
            r.micros == micros,
    {
        FrameTime { micros }
    }

    /// Whole frames in the span.
    pub fn frames(&self) -> (r: u64)
        ensures
            r == self.micros / MICROS_PER_FRAME,
    {
        self.micros / MICROS_PER_FRAME
    }

    /// Thousandths of a frame beyond the whole frames.
    pub fn thousandths(&self) -> (r: u64)
        ensures
            r as int == (self.micros as int % MICROS_PER_FRAME as int) * 1000 / MICROS_PER_FRAME as int,
            r < 1000,
    {
        let rest = self.micros % MICROS_PER_FRAME;
        assert(rest * 1000 / 16_666 < 1000) by (nonlinear_arith)
            requires
                rest < 16_666,
        ;
        rest * 1000 / MICROS_PER_FRAME
    }
}

/// One line of a position log: where `log_name`'s player stood when input
/// `serial` was applied, and the time since the previous line.
pub struct ExternalLogRecord {
    pub serial: u32,
    pub log_name: String,
    pub pos: Vec3,
    pub dt_micros: u64,
}

/// Positions of a player by input serial, oldest serial first.
pub struct FpsControllerLog {
    pub pos: Vec<(u32, Vec3)>,
}

/// Serials of `s` strictly increase.
pub open spec fn sorted(s: Seq<(u32, Vec3)>) -> bool {
    forall|i: int, j: int| 0 <= i < j < s.len() ==> s[i].0 < s[j].0
}

/// Length of the prefix of `s` with serials below `serial`.
pub open spec fn below_len(s: Seq<(u32, Vec3)>, serial: u32) -> nat
    decreases s.len(),
{
    if s.len() == 0 || s[0].0 >= serial {
        0
    } else {
        1 + below_len(s.drop_first(), serial)
    }
}

proof fn lemma_below_len(s: Seq<(u32, Vec3)>, serial: u32)
    requires
        sorted(s),
    ensures
        below_len(s, serial) <= s.len(),
        forall|i: int| 0 <= i < below_len(s, serial) ==> s[i].0 < serial,
        forall|i: int| below_len(s, serial) <= i < s.len() ==> s[i].0 >= serial,
    decreases s.len(),
{
    if s.len() > 0 && s[0].0 < serial {
        lemma_below_len(s.drop_first(), serial);
        assert forall|i: int| 0 <= i < below_len(s, serial) implies s[i].0 < serial by {
            if i > 0 {
                assert(s[i] == s.drop_first()[i - 1]);
            }
        }
        assert forall|i: int| below_len(s, serial) <= i < s.len() implies s[i].0 >= serial by {
            assert(s[i] == s.drop_first()[i - 1]);
        }
    }
}

/// `a - b`, component by component.
pub open spec fn difference(a: Vec3, b: Vec3) -> Vec3 {
    Vec3 { x: (a.x - b.x) as i64, y: (a.y - b.y) as i64, z: (a.z - b.z) as i64 }
}

/// The position of the first entry of `s` from `start` on with `serial`.
pub open spec fn lookup_from(s: Seq<(u32, Vec3)>, serial: u32, start: int) -> Option<Vec3>
    decreases s.len() - start,
{
    if start < 0 || start >= s.len() {
        None
    } else if s[start].0 == serial {
        Some(s[start].1)
    } else {
        lookup_from(s, serial, start + 1)
    }
}

proof fn lemma_lookup_from(s: Seq<(u32, Vec3)>, serial: u32, start: int)
    requires
        0 <= start,
    ensures
        lookup_from(s, serial, start) matches Some(p) ==> exists|k: int|
            start <= k < s.len() && s[k] == (serial, p),
    decreases s.len() - start,
{
    if start < s.len() && s[start].0 != serial {
        lemma_lookup_from(s, serial, start + 1);
    }
}

/// For each entry of `a`, in order, whose serial `b` records: the serial,
/// and `a`'s position minus `b`'s.
pub open spec fn deltas(a: Seq<(u32, Vec3)>, b: Seq<(u32, Vec3)>) -> Seq<(u32, Vec3)>
    decreases a.len(),
{
    if a.len() == 0 {
        Seq::empty()
    } else {
        let init = deltas(a.drop_last(), b);
        match lookup_from(b, a.last().0, 0) {
            None => init,
            Some(p) => init.push((a.last().0, difference(a.last().1, p))),
        }
    }
}

/// Length of the prefix of `s` with serials up to `serial`: what an
/// acknowledgement of `serial` removes.
pub open spec fn acknowledged_prefix(s: Seq<(u32, Vec3)>, serial: u32) -> nat
    decreases s.len(),
{
    if s.len() == 0 || s[0].0 > serial {
        0
    } else {
        1 + acknowledged_prefix(s.drop_first(), serial)
    }
}

proof fn lemma_acknowledged_prefix(s: Seq<(u32, Vec3)>, serial: u32)
    requires
        sorted(s),
    ensures
        acknowledged_prefix(s, serial) <= s.len(),
        forall|i: int| 0 <= i < acknowledged_prefix(s, serial) ==> s[i].0 <= serial,
        forall|i: int| acknowledged_prefix(s, serial) <= i < s.len() ==> s[i].0 > serial,
    decreases s.len(),
{
    if s.len() > 0 && s[0].0 <= serial {
        lemma_acknowledged_prefix(s.drop_first(), serial);
        assert forall|i: int| 0 <= i < acknowledged_prefix(s, serial) implies s[i].0 <= serial by {
            if i > 0 {
                assert(s[i] == s.drop_first()[i - 1]);
            }
        }
        assert forall|i: int| acknowledged_prefix(s, serial) <= i < s.len() implies s[i].0
            > serial by {
            assert(s[i] == s.drop_first()[i - 1]);
        }
    } else if s.len() > 0 {
        assert forall|i: int| 0 <= i < s.len() implies s[i].0 > serial by {
            if i > 0 {
                assert(s[0].0 < s[i].0);
            }
        }
    }
}

impl FpsControllerLog {
    pub open spec fn wf(&self) -> bool {
        sorted(self.pos@)
    }

    /// Every recorded position lies within the world bounds.
    pub open spec fn bounded(&self) -> bool {
        forall|k: int| 0 <= k < self.pos@.len() ==> (#[trigger] self.pos@[k]).1.is_position()
    }

    pub open spec fn has(&self, serial: u32) -> bool {
        exists|i: int| 0 <= i < self.pos@.len() && self.pos@[i].0 == serial
    }

    pub fn new() -> (r: FpsControllerLog)
        ensures
            r.wf(),
            r.pos@.len() == 0,
    {
        FpsControllerLog { pos: Vec::new() }
    }

    /// Records the position at which input `serial` was applied, unless one
    /// is already recorded for it; tells whether it was recorded (and so
    /// whether a log line is due).
    pub fn put(&mut self, serial: u32, pos: &Vec3) -> (r: bool)
        requires
            old(self).wf(),
        ensures
            final(self).wf(),
            r == !old(self).has(serial),
            !r ==> final(self).pos@ == old(self).pos@,
            old(self).bounded() && pos.is_position() ==> final(self).bounded(),
            r ==> final(self).pos@ == old(self).pos@.insert(
                below_len(old(self).pos@, serial) as int,
                (serial, *pos),
            ),
    {
        proof {
            lemma_below_len(self.pos@, serial);
        }
        let mut i: usize = 0;
        while i < self.pos.len() && self.pos[i].0 < serial
            invariant
                0 <= i <= self.pos@.len(),
                self.pos@ == old(self).pos@,
                sorted(self.pos@),
                forall|k: int| 0 <= k < i ==> self.pos@[k].0 < serial,
                i <= below_len(self.pos@, serial),
                forall|k: int| 0 <= k < below_len(self.pos@, serial) ==> self.pos@[k].0 < serial,
                forall|k: int| below_len(self.pos@, serial) <= k < self.pos@.len() ==> self.pos@[k].0 >= serial,
                below_len(self.pos@, serial) <= self.pos@.len(),
            decreases self.pos@.len() - i,
        {
            i = i + 1;
        }
        if i < self.pos.len() && self.pos[i].0 == serial {
            return false;
        }
        proof {
            assert forall|k: int| 0 <= k < self.pos@.len() implies self.pos@[k].0 != serial by {
                if k < i {
                } else {
                    assert(self.pos@[k].0 >= self.pos@[i as int].0);
                }
            }
        }
        self.pos.insert(i, (serial, *pos));
        proof {
            let s = self.pos@;
            if old(self).bounded() && pos.is_position() {
                assert forall|k: int| 0 <= k < s.len() implies (#[trigger] s[k]).1.is_position() by {
                    if k < i {
                        assert(s[k] == old(self).pos@[k]);
                    } else if k > i {
                        assert(s[k] == old(self).pos@[k - 1]);
                    }
                }
            }
            assert forall|a: int, b: int| 0 <= a < b < s.len() implies s[a].0 < s[b].0 by {
                let o = old(self).pos@;
                if b < i {
                    assert(s[a] == o[a] && s[b] == o[b]);
                } else if b == i {
                    assert(s[a] == o[a]);
                } else if a < i {
                    assert(s[a] == o[a] && s[b] == o[b - 1]);
                } else if a == i {
                    assert(s[b] == o[b - 1]);
                } else {
                    assert(s[a] == o[a - 1] && s[b] == o[b - 1]);
                }
            }
        }
        true
    }

    /// Forgets every position recorded for a serial up to `serial`: the
    /// longest prefix with serials `<= serial` goes, and every entry left
    /// has a serial above it.
    pub fn discard(&mut self, serial: u32)
        requires
            old(self).wf(),
        ensures
            final(self).wf(),
            final(self).pos@ == old(self).pos@.skip(
                acknowledged_prefix(old(self).pos@, serial) as int,
            ),
            forall|k: int|
                0 <= k < acknowledged_prefix(old(self).pos@, serial) ==> old(self).pos@[k].0
                    <= serial,
            forall|k: int| 0 <= k < final(self).pos@.len() ==> final(self).pos@[k].0 > serial,
    {
        proof {
            lemma_acknowledged_prefix(self.pos@, serial);
        }
        let ghost k = acknowledged_prefix(self.pos@, serial) as int;
        let mut drop: usize = 0;
        while drop < self.pos.len() && self.pos[drop].0 <= serial
            invariant
                0 <= drop <= k,
                self.pos@ == old(self).pos@,
                k == acknowledged_prefix(old(self).pos@, serial),
                k <= self.pos@.len(),
                forall|j: int| 0 <= j < k ==> self.pos@[j].0 <= serial,
                forall|j: int| k <= j < self.pos@.len() ==> self.pos@[j].0 > serial,
            decreases self.pos@.len() - drop,
        {
            drop = drop + 1;
        }
        let mut kept: Vec<(u32, Vec3)> = Vec::new();
        let mut j: usize = drop;
        while j < self.pos.len()
            invariant
                drop == k,
                drop <= j <= self.pos@.len(),
                self.pos@ == old(self).pos@,
                kept@ == self.pos@.subrange(drop as int, j as int),
            decreases self.pos@.len() - j,
        {
            kept.push(self.pos[j]);
            assert(self.pos@.subrange(drop as int, j + 1) == self.pos@.subrange(drop as int, j as int).push(self.pos@[j as int]));
            j = j + 1;
        }
        self.pos = kept;
        assert(self.pos@ == old(self).pos@.skip(k));
    }

    /// The position recorded for `serial`, if any.
    pub fn position_of(&self, serial: u32) -> (r: Option<Vec3>)
        ensures
            r == lookup_from(self.pos@, serial, 0),
    {
        let mut i: usize = 0;
        while i < self.pos.len()
            invariant
                0 <= i <= self.pos@.len(),
                lookup_from(self.pos@, serial, 0) == lookup_from(self.pos@, serial, i as int),
            decreases self.pos@.len() - i,
        {
            if self.pos[i].0 == serial {
                return Some(self.pos[i].1);
            }
            i = i + 1;
        }
        None
    }

    /// How far `pos` lies from the position recorded for `serial`: the
    /// recorded position minus `pos`; `None` when nothing is recorded.
    pub fn get_delta(&self, pos: &Vec3, serial: u32) -> (r: Option<Vec3>)
        requires
            self.bounded(),
            pos.is_position(),
        ensures
            r == match lookup_from(self.pos@, serial, 0) {
                None => None,
                Some(p) => Some(difference(p, *pos)),
            },
    {
        proof {
            lemma_lookup_from(self.pos@, serial, 0);
        }
        match self.position_of(serial) {
            None => None,
            Some(p) => Some(Vec3 { x: p.x - pos.x, y: p.y - pos.y, z: p.z - pos.z }),
        }
    }

    /// For each serial recorded here that `other` records too, in order,
    /// this log's position minus the other's.
    pub fn common_deltas(&self, other: &FpsControllerLog) -> (r: Vec<(u32, Vec3)>)
        requires
            self.bounded(),
            other.bounded(),
        ensures
            r@ == deltas(self.pos@, other.pos@),
    {
        let mut out: Vec<(u32, Vec3)> = Vec::new();
        let mut i: usize = 0;
        while i < self.pos.len()
            invariant
                0 <= i <= self.pos@.len(),
                self.bounded(),
                other.bounded(),
                out@ == deltas(self.pos@.take(i as int), other.pos@),
            decreases self.pos@.len() - i,
        {
            let (serial, here) = self.pos[i];
            assert(self.pos@[i as int].1.is_position());
            proof {
                lemma_lookup_from(other.pos@, serial, 0);
            }
            match other.position_of(serial) {
                None => {},
                Some(p) => {
                    out.push((serial, Vec3 { x: here.x - p.x, y: here.y - p.y, z: here.z - p.z }));
                },
            }
            proof {
                let t1 = self.pos@.take(i + 1);
                assert(t1.drop_last() == self.pos@.take(i as int));
                assert(t1.last() == self.pos@[i as int]);
                lemma_lookup_from(other.pos@, serial, 0);
            }
            i = i + 1;
        }
        assert(self.pos@.take(i as int) == self.pos@);
        out
    }
}

} // verus!
