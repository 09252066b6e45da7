//! Numeric parameters of a CSI/DCS sequence.

use vstd::prelude::*;

verus! {

/// Maximum number of `;`-separated parameter groups retained in one sequence;
/// anything beyond is dropped (bounds memory against hostile input).
pub const MAX_PARAMS: usize = 32;
/// Maximum `:`-separated sub-parameters within one group.
pub const MAX_SUBPARAMS: usize = 8;

/// `g` with a first group `[0]` if it had none.
pub open spec fn p_ensure_first(g: Seq<Seq<u16>>) -> Seq<Seq<u16>> {
    if g.len() == 0 { seq![seq![0u16]] } else { g }
}

/// `;`: a new group `[0]`, unless the group cap is reached.
pub open spec fn p_push_group(g: Seq<Seq<u16>>) -> Seq<Seq<u16>> {
    if g.len() < MAX_PARAMS { g.push(seq![0u16]) } else { g }
}

/// `:`: a new sub-parameter `0` in the last group, unless that group is full.
pub open spec fn p_push_subparam(g: Seq<Seq<u16>>) -> Seq<Seq<u16>> {
    let g1 = p_ensure_first(g);
    let last = g1[g1.len() - 1];
    if last.len() < MAX_SUBPARAMS { g1.update(g1.len() - 1, last.push(0u16)) } else { g1 }
}

/// `v * 10 + d`, saturated at `u16::MAX`.
pub open spec fn sat_digit(v: u16, d: u16) -> u16 {
    if v * 10 + d > 0xffff { 0xffff } else { (v * 10 + d) as u16 }
}

/// A decimal digit appended to the last value of the last group.
pub open spec fn p_add_digit(g: Seq<Seq<u16>>, d: u16) -> Seq<Seq<u16>> {
    let g1 = p_ensure_first(g);
    let last = g1[g1.len() - 1];
    if last.len() > 0 {
        g1.update(g1.len() - 1, last.update(last.len() - 1, sat_digit(last[last.len() - 1], d)))
    } else {
        g1
    }
}

/// The primary value of group `i`, or `d` when the group is absent or `0`.
pub open spec fn p_get(g: Seq<Seq<u16>>, i: int, d: u16) -> u16 {
    if 0 <= i < g.len() && g[i].len() > 0 && g[i][0] != 0 { g[i][0] } else { d }
}

/// The `j`-th value of group `i`, if present.
pub open spec fn p_get_sub(g: Seq<Seq<u16>>, i: int, j: int) -> Option<u16> {
    if 0 <= i < g.len() && 0 <= j < g[i].len() { Some(g[i][j]) } else { None }
}

pub open spec fn groups_view(gs: Seq<Vec<u16>>) -> Seq<Seq<u16>> {
    gs.map_values(|v: Vec<u16>| v@)
}

/// Numeric parameters of a CSI/DCS sequence.
///
/// Each entry is a *group*: the value plus any `:`-separated sub-parameters
/// (used by the ITU `38:2::r:g:b` true-color SGR form). Most callers only need
/// `Params::get`.
#[derive(Debug)]
pub struct Params {
    groups: Vec<Vec<u16>>,
}

impl View for Params {
    type V = Seq<Seq<u16>>;

    closed spec fn view(&self) -> Seq<Seq<u16>> {
        groups_view(self.groups@)
    }
}

impl Default for Params {
    fn default() -> (p: Params)
        ensures
            p@ == Seq::<Seq<u16>>::empty(),
    {
        Params::new()
    }
}

fn copy_u16s(v: &Vec<u16>) -> (out: Vec<u16>)
    ensures
        out@ == v@,
{
    let mut out: Vec<u16> = Vec::with_capacity(v.len());
    let mut i: usize = 0;
    while i < v.len()
        invariant
            i <= v.len(),
            out@ == v@.subrange(0, i as int),
        decreases v.len() - i,
    {
        out.push(v[i]);
        i = i + 1;
        assert(out@ =~= v@.subrange(0, i as int));
    }
    assert(v@.subrange(0, i as int) =~= v@);
    out
}

impl Params {
    pub fn new() -> (p: Params)
        ensures
            p@ == Seq::<Seq<u16>>::empty(),
    {
        let p = Params { groups: Vec::new() };
        assert(p@ =~= Seq::<Seq<u16>>::empty());
        p
    }

    /// An independent copy with the same groups.
    pub fn copy(&self) -> (p: Params)
        ensures
            p@ == self@,
    {
        let mut groups: Vec<Vec<u16>> = Vec::with_capacity(self.groups.len());
        let mut i: usize = 0;
        while i < self.groups.len()
            invariant
                i <= self.groups.len(),
                groups_view(groups@) == groups_view(self.groups@).subrange(0, i as int),
            decreases self.groups.len() - i,
        {
            let g = copy_u16s(&self.groups[i]);
            let ghost before = groups@;
            groups.push(g);
            assert(groups_view(groups@) =~= groups_view(before).push(g@));
            i = i + 1;
            assert(groups_view(groups@) =~= groups_view(self.groups@).subrange(0, i as int));
        }
        let p = Params { groups };
        assert(groups_view(self.groups@).subrange(0, i as int) =~= groups_view(self.groups@));
        p
    }

    pub fn clear(&mut self)
        ensures
            final(self)@ == Seq::<Seq<u16>>::empty(),
    {
        self.groups.clear();
        assert(self@ =~= Seq::<Seq<u16>>::empty());
    }

    pub fn ensure_first(&mut self)
        ensures
            final(self)@ == p_ensure_first(old(self)@),
    {
        if self.groups.len() == 0 {
            let mut g: Vec<u16> = Vec::new();
            g.push(0);
            self.groups.push(g);
            assert(self@ =~= seq![seq![0u16]]);
        }
    }

    pub fn push_group(&mut self)
        ensures
            final(self)@ == p_push_group(old(self)@),
    {
        if self.groups.len() < MAX_PARAMS {
            let mut g: Vec<u16> = Vec::new();
            g.push(0);
            self.groups.push(g);
            assert(self@ =~= old(self)@.push(seq![0u16]));
        }
    }

    pub fn push_subparam(&mut self)
        ensures
            final(self)@ == p_push_subparam(old(self)@),
    {
        self.ensure_first();
        let n = self.groups.len();
        let ghost g1 = self@;
        if self.groups[n - 1].len() < MAX_SUBPARAMS {
            let last = &mut self.groups[n - 1];
            last.push(0);
            assert(self@ =~= g1.update(g1.len() - 1, g1[g1.len() - 1].push(0u16)));
        }
    }

    pub fn add_digit(&mut self, d: u16)
        requires
            d <= 9,
        ensures
            final(self)@ == p_add_digit(old(self)@, d),
    {
        self.ensure_first();
        let n = self.groups.len();
        let ghost g1 = self@;
        let m = self.groups[n - 1].len();
        if m > 0 {
            let v = self.groups[n - 1][m - 1];
            let w: u32 = (v as u32) * 10 + d as u32;
            let nv: u16 = if w > 0xffff { 0xffff } else { w as u16 };
            let last = &mut self.groups[n - 1];
            last.set(m - 1, nv);
            assert(self@ =~= g1.update(
                g1.len() - 1,
                g1[g1.len() - 1].update(g1[g1.len() - 1].len() - 1, sat_digit(v, d)),
            ));
        }
    }

    /// Number of parameter groups present.
    pub fn len(&self) -> (n: usize)
        ensures
            n == self@.len(),
    {
        self.groups.len()
    }

    pub fn is_empty(&self) -> (b: bool)
        ensures
            b == (self@.len() == 0),
    {
        self.groups.len() == 0
    }

    /// The primary value of group `i`, or `default` if the group is absent or
    /// holds `0` (a bare `;`, which conventionally means "default").
    pub fn get(&self, i: usize, default: u16) -> (v: u16)
        ensures
            v == p_get(self@, i as int, default),
    {
        if i < self.groups.len() && self.groups[i].len() > 0 {
            let v = self.groups[i][0];
            if v == 0 && self.is_defaulted(i) {
                default
            } else {
                v
            }
        } else {
            default
        }
    }

    /// The `j`-th sub-parameter of group `i`, if present.
    pub fn get_sub(&self, i: usize, j: usize) -> (v: Option<u16>)
        ensures
            v == p_get_sub(self@, i as int, j as int),
    {
        if i < self.groups.len() && j < self.groups[i].len() {
            Some(self.groups[i][j])
        } else {
            None
        }
    }

    /// Whether group `i` was written as an explicit `0` vs. left empty. The two
    /// cannot be told apart after the fact, so `0` always yields the default
    /// via `get` — matching how real terminals treat `CSI 0 m` == `CSI m`.
    fn is_defaulted(&self, i: usize) -> (b: bool)
        ensures
            b,
    {
        true
    }

    /// The primary value of each group in order.
    pub fn iter(&self) -> (v: Vec<u16>)
        ensures
            v@ == first_values(self@),
    {
        let mut out: Vec<u16> = Vec::new();
        let mut i: usize = 0;
        while i < self.groups.len()
            invariant
                i <= self.groups.len(),
                out@ == first_values(groups_view(self.groups@).subrange(0, i as int)),
            decreases self.groups.len() - i,
        {
            let ghost gv = groups_view(self.groups@);
            assert(gv.subrange(0, i + 1).drop_last() =~= gv.subrange(0, i as int));
            if self.groups[i].len() > 0 {
                out.push(self.groups[i][0]);
            }
            i = i + 1;
        }
        assert(groups_view(self.groups@).subrange(0, i as int) =~= groups_view(self.groups@));
        out
    }
}

/// The first value of every non-empty group, in order.
pub open spec fn first_values(g: Seq<Seq<u16>>) -> Seq<u16>
    decreases g.len(),
{
    if g.len() == 0 {
        seq![]
    } else {
        let rest = first_values(g.drop_last());
        let last = g[g.len() - 1];
        if last.len() > 0 { rest.push(last[0]) } else { rest }
    }
}

} // verus!
