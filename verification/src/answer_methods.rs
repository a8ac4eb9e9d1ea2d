use vstd::prelude::*;

verus! {

/// The solving techniques of akari. Each carries a fixed score that the
/// difficulty rating weighs.
#[derive(Debug, Clone, Copy, PartialEq, Eq, Hash, Structural)]
pub enum Technique {
    /// A lamp's beam forbids lamps on every cell it lights. Score 0.
    LampBeam,
    /// A numbered wall has exactly as many undecided neighbours as lamps
    /// still missing: all of them get lamps. Score 2.
    JustEnough,
    /// A lamp here would leave some white cell impossible to light. Score 2.
    WouldCreateUnlit,
    /// Enumerating the lamp placements around a numbered wall decides the
    /// cells that all valid placements agree on. Score 2.
    ClueCaseAnalysis,
    /// A numbered wall already has its lamps: its other neighbours are
    /// forbidden. Score 8.
    ClueFull,
    /// A lamp here would make some numbered wall unsatisfiable. Score 12.
    WouldMakeShort,
    /// Trying each possible light source of an unlit cell decides the cells
    /// that all valid trials agree on. Score 24.
    SourceCaseAnalysis,
    /// An unlit cell has a single possible light source: it gets a lamp. Score 64.
    OnlySource,
}

impl Technique {
    /// The score of the technique, its weight in the difficulty score.
    pub open spec fn score_spec(self) -> u32 {
        match self {
            Technique::LampBeam => 0,
            Technique::JustEnough | Technique::WouldCreateUnlit | Technique::ClueCaseAnalysis => 2,
            Technique::ClueFull => 8,
            Technique::WouldMakeShort => 12,
            Technique::SourceCaseAnalysis => 24,
            Technique::OnlySource => 64,
        }
    }

    /// The slot of the technique in a weight table.
    pub open spec fn slot(self) -> int {
        match self {
            Technique::LampBeam => 0,
            Technique::JustEnough => 1,
            Technique::WouldCreateUnlit => 2,
            Technique::ClueCaseAnalysis => 3,
            Technique::ClueFull => 4,
            Technique::WouldMakeShort => 5,
            Technique::SourceCaseAnalysis => 6,
            Technique::OnlySource => 7,
        }
    }

    /// The technique's fixed score.
    pub fn score(self) -> (r: u32)
        ensures
            r == self.score_spec(),
    {
        match self {
            Technique::LampBeam => 0,
            Technique::JustEnough | Technique::WouldCreateUnlit | Technique::ClueCaseAnalysis => 2,
            Technique::ClueFull => 8,
            Technique::WouldMakeShort => 12,
            Technique::SourceCaseAnalysis => 24,
            Technique::OnlySource => 64,
        }
    }

    fn slot_exec(self) -> (r: usize)
        ensures
            r == self.slot(),
            r < 8,
    {
        match self {
            Technique::LampBeam => 0,
            Technique::JustEnough => 1,
            Technique::WouldCreateUnlit => 2,
            Technique::ClueCaseAnalysis => 3,
            Technique::ClueFull => 4,
            Technique::WouldMakeShort => 5,
            Technique::SourceCaseAnalysis => 6,
            Technique::OnlySource => 7,
        }
    }
}

/// The technique record of a solve: how often each technique was applied.
pub struct Methods {
    weights: [u32; 8],
}

impl Methods {
    /// How many applications of `t` are recorded.
    pub closed spec fn weight(self, t: Technique) -> u32 {
        self.weights@[t.slot()]
    }

    /// The technique score of the record: the sum of score times weight.
    pub open spec fn tech_total(self) -> int {
        Technique::LampBeam.score_spec() * self.weight(Technique::LampBeam)
            + Technique::JustEnough.score_spec() * self.weight(Technique::JustEnough)
            + Technique::WouldCreateUnlit.score_spec() * self.weight(Technique::WouldCreateUnlit)
            + Technique::ClueCaseAnalysis.score_spec() * self.weight(Technique::ClueCaseAnalysis)
            + Technique::ClueFull.score_spec() * self.weight(Technique::ClueFull)
            + Technique::WouldMakeShort.score_spec() * self.weight(Technique::WouldMakeShort)
            + Technique::SourceCaseAnalysis.score_spec() * self.weight(Technique::SourceCaseAnalysis)
            + Technique::OnlySource.score_spec() * self.weight(Technique::OnlySource)
    }

    /// Whether `self` is `old` with `k` more applications of `t` recorded
    /// (a weight saturates at `u32::MAX`) and nothing else changed.
    pub open spec fn records(self, old: Methods, t: Technique, k: int) -> bool {
        &&& self.weight(t) == (if old.weight(t) + k <= u32::MAX { old.weight(t) + k } else { u32::MAX as int })
        &&& forall|u: Technique| u != t ==> #[trigger] self.weight(u) == old.weight(u)
    }

    /// Whether `self` is `old` with `k1` more applications of `t1` and `k2`
    /// more of `t2` recorded (weights saturate) and nothing else changed.
    pub open spec fn records_two(self, old: Methods, t1: Technique, k1: int, t2: Technique, k2: int) -> bool {
        &&& self.weight(t1) == (if old.weight(t1) + k1 <= u32::MAX { old.weight(t1) + k1 } else { u32::MAX as int })
        &&& self.weight(t2) == (if old.weight(t2) + k2 <= u32::MAX { old.weight(t2) + k2 } else { u32::MAX as int })
        &&& forall|u: Technique| u != t1 && u != t2 ==> #[trigger] self.weight(u) == old.weight(u)
    }

    /// Recording nothing leaves a record as it is.
    pub proof fn lemma_records_zero(m: Methods, t: Technique)
        ensures
            m.records(m, t, 0),
    {
    }

    /// Two recordings of the same technique add up.
    pub proof fn lemma_records_trans(m0: Methods, m1: Methods, m2: Methods, t: Technique, k1: int, k2: int)
        requires
            k1 >= 0,
            k2 >= 0,
            m1.records(m0, t, k1),
            m2.records(m1, t, k2),
        ensures
            m2.records(m0, t, k1 + k2),
    {
        assert forall|u: Technique| u != t implies #[trigger] m2.weight(u) == m0.weight(u) by {
            assert(m2.weight(u) == m1.weight(u));
            assert(m1.weight(u) == m0.weight(u));
        }
    }

    /// One more application of one of two techniques adds to the pair.
    pub proof fn lemma_records_two_step(
        m0: Methods,
        m1: Methods,
        m2: Methods,
        t1: Technique,
        k1: int,
        t2: Technique,
        k2: int,
        t: Technique,
    )
        requires
            k1 >= 0,
            k2 >= 0,
            t1 != t2,
            t == t1 || t == t2,
            m1.records_two(m0, t1, k1, t2, k2),
            m2.records(m1, t, 1),
        ensures
            m2.records_two(m0, t1, k1 + (if t == t1 { 1int } else { 0int }), t2, k2 + (if t == t2 { 1int } else { 0int })),
    {
        assert forall|u: Technique| u != t1 && u != t2 implies #[trigger] m2.weight(u) == m0.weight(u) by {
            assert(m2.weight(u) == m1.weight(u));
            assert(m1.weight(u) == m0.weight(u));
        }
        if t == t1 {
            assert(m2.weight(t2) == m1.weight(t2));
        } else {
            assert(m2.weight(t1) == m1.weight(t1));
        }
    }

    /// An empty record.
    pub fn new() -> (m: Methods)
        ensures
            forall|t: Technique| #[trigger] m.weight(t) == 0,
    {
        Methods { weights: [0u32; 8] }
    }

    /// Records one application of `tech` (same technique, weight adds up).
    pub fn record(&mut self, tech: Technique)
        ensures
            final(self).records(*old(self), tech, 1),
    {
        let i = tech.slot_exec();
        let w = self.weights[i];
        let nw = w.saturating_add(1);
        self.weights[i] = nw;
        assert forall|u: Technique| u != tech implies #[trigger] self.weight(u) == old(self).weight(u) by {
            assert(u.slot() != tech.slot());
        }
    }

    /// The technique score Σ score × weight, saturated at `u32::MAX`.
    pub fn tech(&self) -> (r: u32)
        ensures
            r == (if self.tech_total() <= u32::MAX { self.tech_total() } else { u32::MAX as int }),
    {
        let mut total: u64 = 0;
        let mut k: usize = 0;
        let all = [
            Technique::LampBeam,
            Technique::JustEnough,
            Technique::WouldCreateUnlit,
            Technique::ClueCaseAnalysis,
            Technique::ClueFull,
            Technique::WouldMakeShort,
            Technique::SourceCaseAnalysis,
            Technique::OnlySource,
        ];
        while k < 8
            invariant
                self.weights@.len() == 8,
                k <= 8,
                all@ == seq![
                    Technique::LampBeam,
                    Technique::JustEnough,
                    Technique::WouldCreateUnlit,
                    Technique::ClueCaseAnalysis,
                    Technique::ClueFull,
                    Technique::WouldMakeShort,
                    Technique::SourceCaseAnalysis,
                    Technique::OnlySource,
                ],
                total <= k * 64 * 0xffff_ffff,
                total == Self::partial_sum(*self, all@, k as int),
            decreases 8 - k,
        {
            let t = all[k];
            assert(t.slot() == k);
            let w = self.weights[k] as u64;
            assert(w == self.weight(t));
            let sc = t.score() as u64;
            assert(sc * w <= 64 * 0xffff_ffff) by (nonlinear_arith)
                requires sc <= 64, w <= 0xffff_ffff;
            total = total + sc * w;
            k += 1;
        }
        assert(Self::partial_sum(*self, all@, 8) == self.tech_total()) by {
            reveal_with_fuel(Methods::partial_sum, 9);
        }
        if total > 0xffff_ffff {
            0xffff_ffff
        } else {
            total as u32
        }
    }

    /// Σ score × weight over the first `k` techniques of `ts`.
    pub open spec fn partial_sum(m: Methods, ts: Seq<Technique>, k: int) -> int
        decreases k,
    {
        if k <= 0 {
            0
        } else {
            Self::partial_sum(m, ts, k - 1) + ts[k - 1].score_spec() * m.weight(ts[k - 1])
        }
    }
}

impl Default for Methods {
    fn default() -> (m: Methods)
        ensures
            forall|t: Technique| #[trigger] m.weight(t) == 0,
    {
        Methods::new()
    }
}


/// The weights of a record, technique by technique.
pub open spec fn weights_of(m: Methods) -> spec_fn(Technique) -> int {
    |t: Technique| m.weight(t) as int
}

/// The weights `w` with `k` more applications of `t` (saturating at `u32::MAX`).
pub open spec fn add_weight(w: spec_fn(Technique) -> int, t: Technique, k: int) -> spec_fn(Technique) -> int {
    |u: Technique|
        if u == t {
            if w(t) + k <= u32::MAX {
                w(t) + k
            } else {
                u32::MAX as int
            }
        } else {
            w(u)
        }
}

/// The technique score of the weights `w`: the sum of score times weight.
pub open spec fn total_of(w: spec_fn(Technique) -> int) -> int {
    Technique::LampBeam.score_spec() * w(Technique::LampBeam)
        + Technique::JustEnough.score_spec() * w(Technique::JustEnough)
        + Technique::WouldCreateUnlit.score_spec() * w(Technique::WouldCreateUnlit)
        + Technique::ClueCaseAnalysis.score_spec() * w(Technique::ClueCaseAnalysis)
        + Technique::ClueFull.score_spec() * w(Technique::ClueFull)
        + Technique::WouldMakeShort.score_spec() * w(Technique::WouldMakeShort)
        + Technique::SourceCaseAnalysis.score_spec() * w(Technique::SourceCaseAnalysis)
        + Technique::OnlySource.score_spec() * w(Technique::OnlySource)
}

/// Recording `k` applications of `t` adds them to the weights.
pub proof fn lemma_records_weights(m2: Methods, m1: Methods, t: Technique, k: int)
    requires
        m2.records(m1, t, k),
    ensures
        weights_of(m2) == add_weight(weights_of(m1), t, k),
{
    assert(weights_of(m2) =~= add_weight(weights_of(m1), t, k));
}

/// Recording two techniques adds both to the weights.
pub proof fn lemma_records_two_weights(m2: Methods, m1: Methods, t1: Technique, k1: int, t2: Technique, k2: int)
    requires
        m2.records_two(m1, t1, k1, t2, k2),
        t1 != t2,
    ensures
        weights_of(m2) == add_weight(add_weight(weights_of(m1), t1, k1), t2, k2),
{
    assert(weights_of(m2) =~= add_weight(add_weight(weights_of(m1), t1, k1), t2, k2));
}

/// Recording two applications in either order gives the same weights: a
/// record depends only on which techniques were recorded how often.
pub proof fn lemma_records_commute(
    m: Methods,
    a1: Methods,
    a2: Methods,
    b1: Methods,
    b2: Methods,
    t1: Technique,
    t2: Technique,
)
    requires
        a1.records(m, t1, 1),
        a2.records(a1, t2, 1),
        b1.records(m, t2, 1),
        b2.records(b1, t1, 1),
    ensures
        forall|u: Technique| #[trigger] a2.weight(u) == b2.weight(u),
        weights_of(a2) == weights_of(b2),
{
    assert forall|u: Technique| #[trigger] a2.weight(u) == b2.weight(u) by {
        if u != t1 && u != t2 {
            assert(a2.weight(u) == a1.weight(u) && a1.weight(u) == m.weight(u));
            assert(b2.weight(u) == b1.weight(u) && b1.weight(u) == m.weight(u));
        } else if u == t1 && u != t2 {
            assert(a2.weight(u) == a1.weight(u));
            assert(b1.weight(u) == m.weight(u));
        } else if u == t2 && u != t1 {
            assert(b2.weight(u) == b1.weight(u));
            assert(a1.weight(u) == m.weight(u));
        }
    }
    assert(weights_of(a2) =~= weights_of(b2));
}

/// One more recorded application of a technique raises the technique score
/// by that technique's score (while its weight is below the cap).
pub proof fn lemma_record_adds_score(m2: Methods, m1: Methods, t: Technique)
    requires
        m2.records(m1, t, 1),
        m1.weight(t) < u32::MAX,
    ensures
        m2.tech_total() == m1.tech_total() + t.score_spec(),
{
    let sc: int = t.score_spec() as int;
    let w1: int = m1.weight(t) as int;
    let w2: int = m2.weight(t) as int;
    assert(sc * w2 == sc * w1 + sc) by (nonlinear_arith)
        requires
            w2 == w1 + 1,
    ;
    match t {
        Technique::LampBeam => {},
        Technique::JustEnough => {},
        Technique::WouldCreateUnlit => {},
        Technique::ClueCaseAnalysis => {},
        Technique::ClueFull => {},
        Technique::WouldMakeShort => {},
        Technique::SourceCaseAnalysis => {},
        Technique::OnlySource => {},
    }
}

} // verus!
